//! What the mean of readings is.

use vstd::arithmetic::div_mod::{
    lemma_div_multiples_vanish, lemma_div_pos_is_pos, lemma_fundamental_div_mod, lemma_mod_bound,
    lemma_mod_multiples_basic,
};
use vstd::arithmetic::power2::{lemma2_to64, lemma_pow2_pos, lemma_pow2_unfold, pow2};
use vstd::prelude::*;
use crate::mean::{
    exact_mean, grain, lemma_grain, lemma_mean_exact, lemma_nearest, lemma_per_unit, magnitude,
    mean, nearest_even, per_unit, rounded_quotient, to_double, LEADING,
};

verus! {

/// The mean of readings is the integer next to their sum divided by their number, the one farther from
/// zero if two are as near, and no farther from zero than an `i32` can be. So it is where the sum lies
/// below 2^52.
pub proof fn lemma_mean_nearest(sum: int, cnt: int)
    requires
        -0x10_0000_0000_0000 < sum < 0x10_0000_0000_0000,
        0 < cnt <= 0x7fff_ffff,
    ensures
        ({
            let m = mean(sum, cnt);
            &&& sum >= 0 && 2 * sum >= 0xffff_ffff * cnt ==> m == 0x7fff_ffff
            &&& sum >= 0 && 2 * sum < 0xffff_ffff * cnt ==> 0 <= m && 2 * (m * cnt) - cnt <= 2 * sum
                < 2 * (m * cnt) + cnt
            &&& sum < 0 && -2 * sum >= 0x1_0000_0001 * cnt ==> m == -0x8000_0000
            &&& sum < 0 && -2 * sum < 0x1_0000_0001 * cnt ==> m <= 0 && 2 * (m * cnt) - cnt < 2 * sum
                <= 2 * (m * cnt) + cnt
        }),
{
    lemma_mean_exact(sum, cnt);
    let n = magnitude(sum);
    let q = (2 * n + cnt) / (2 * cnt);
    let rest = (2 * n + cnt) % (2 * cnt);
    lemma_fundamental_div_mod(2 * n + cnt, 2 * cnt);
    lemma_mod_bound(2 * n + cnt, 2 * cnt);
    lemma_div_pos_is_pos(2 * n + cnt, 2 * cnt);
    assert((2 * cnt) * q == 2 * (q * cnt)) by (nonlinear_arith);
    assert((-q) * cnt == -(q * cnt)) by (nonlinear_arith);
    assert(q > 0x7fff_ffff <==> 2 * n >= 0xffff_ffff * cnt) by {
        if q > 0x7fff_ffff {
            assert(q * cnt >= 0x8000_0000 * cnt) by (nonlinear_arith)
                requires
                    q >= 0x8000_0000,
                    cnt > 0,
            ;
        } else {
            assert(q * cnt <= 0x7fff_ffff * cnt) by (nonlinear_arith)
                requires
                    q <= 0x7fff_ffff,
                    cnt > 0,
            ;
        }
    }
    assert(q > 0x8000_0000 <==> 2 * n >= 0x1_0000_0001 * cnt) by {
        if q > 0x8000_0000 {
            assert(q * cnt >= 0x8000_0001 * cnt) by (nonlinear_arith)
                requires
                    q >= 0x8000_0001,
                    cnt > 0,
            ;
        } else {
            assert(q * cnt <= 0x8000_0000 * cnt) by (nonlinear_arith)
                requires
                    q <= 0x8000_0000,
                    cnt > 0,
            ;
        }
    }
    assert(exact_mean(sum, cnt) == if sum < 0 {
        -q
    } else {
        q
    });
}

/// How a double is found that is next to a number, and how it is divided and rounded.
pub struct Division {
    /// The last bit of the double is worth two to this power.
    pub bit: nat,
    /// The double next to the sum.
    pub dividend: int,
    /// The last bit of the quotient is worth one by two to this power.
    pub scale: nat,
    /// The quotient in units of its last bit.
    pub quotient: int,
    /// The integer next to the quotient.
    pub whole: int,
}

impl Division {
    /// The dividend is the double next to `n`: a multiple of a power of two that leaves 53 bits, no
    /// farther away than half of it, and an even multiple if it is as far as that.
    pub open spec fn converts(self, n: int) -> bool {
        let unit = pow2(self.bit) as int;
        &&& self.bit == 0 || 0x10_0000_0000_0000 * unit <= n
        &&& n < 0x20_0000_0000_0000 * unit
        &&& self.dividend % unit == 0
        &&& -unit <= 2 * (self.dividend - n) <= unit
        &&& 2 * (self.dividend - n) == unit || 2 * (n - self.dividend) == unit ==> (self.dividend
            / unit) % 2 == 0
    }

    /// The quotient is the double next to the dividend divided by `d`: it has 53 bits, or the dividend
    /// alone is that large, it is off by half of its last bit at most, and even if it is off by half.
    pub open spec fn divides(self, d: int) -> bool {
        let scaled = self.dividend * pow2(self.scale);
        &&& self.scale == 0 || scaled < 0x20_0000_0000_0000 * d
        &&& 0x10_0000_0000_0000 * d <= scaled
        &&& -d <= 2 * (self.quotient * d - scaled) <= d
        &&& 2 * (self.quotient * d - scaled) == d || 2 * (scaled - self.quotient * d) == d
            ==> self.quotient % 2 == 0
    }

    /// The whole number is the one next to the quotient, the larger one if two are as near.
    pub open spec fn rounds(self) -> bool {
        let unit = pow2(self.scale) as int;
        unit * (2 * self.whole - 1) <= 2 * self.quotient < unit * (2 * self.whole + 1)
    }
}

/// The mean of readings is what doubles give: their sum and their number as doubles, the quotient of the
/// two as a double, and the integer next to it, halves away from zero, brought into the range of `i32`.
pub proof fn lemma_mean_doubles(sum: int, cnt: int) -> (r: Division)
    requires
        sum != 0,
        cnt != 0,
        -0x8000_0000_0000_0000 <= sum <= 0x8000_0000_0000_0000,
    ensures
        r.converts(if sum < 0 {
            -sum
        } else {
            sum
        }),
        r.divides(if cnt < 0 {
            -cnt
        } else {
            cnt
        }),
        r.rounds(),
        (sum < 0) == (cnt < 0) && r.whole <= 0x7fff_ffff ==> mean(sum, cnt) == r.whole,
        (sum < 0) == (cnt < 0) && r.whole > 0x7fff_ffff ==> mean(sum, cnt) == 0x7fff_ffff,
        (sum < 0) != (cnt < 0) && r.whole <= 0x8000_0000 ==> mean(sum, cnt) == -r.whole,
        (sum < 0) != (cnt < 0) && r.whole > 0x8000_0000 ==> mean(sum, cnt) == -0x8000_0000,
{
    let n = magnitude(sum);
    let d = magnitude(cnt);
    let (bit, a) = lemma_to_double(n);
    let (scale, m, whole) = lemma_quotient(a, d);
    let r = Division { bit, dividend: a, scale, quotient: m, whole };
    assert(a * (pow2(scale) as int) == a * pow2(scale));
    assert(r.converts(n));
    assert(r.divides(d));
    assert(r.rounds());
    r
}

/// Without readings the mean is 0, or the end of the range of `i32` that the sum points at.
pub proof fn lemma_mean_of_nothing(sum: int, cnt: int)
    ensures
        mean(0, cnt) == 0,
        sum > 0 ==> mean(sum, 0) == 0x7fff_ffff,
        sum < 0 ==> mean(sum, 0) == -0x8000_0000,
{
}

/// Of two integers that are as near the even one is taken.
proof fn lemma_tie(a: int, b: int)
    requires
        b > 0,
    ensures
        -b <= 2 * (nearest_even(a, b) * b - a) <= b,
        2 * (nearest_even(a, b) * b - a) == b || 2 * (a - nearest_even(a, b) * b) == b
            ==> nearest_even(a, b) % 2 == 0,
{
    let q = a / b;
    lemma_nearest(a, b);
    lemma_fundamental_div_mod(a, b);
    assert(b * q == q * b) by (nonlinear_arith);
    assert((q + 1) * b == q * b + b) by (nonlinear_arith);
}

proof fn lemma_grain_power(n: int) -> (e: nat)
    ensures
        grain(n) == pow2(e),
        e == 0 <==> n < 2 * LEADING,
    decreases n,
{
    lemma2_to64();
    if n < 2 * LEADING {
        0
    } else {
        let h = lemma_grain_power(n / 2);
        lemma_pow2_unfold(h + 1);
        h + 1
    }
}

proof fn lemma_unit_power(n: int, d: int) -> (e: nat)
    requires
        n > 0,
        d > 0,
    ensures
        per_unit(n, d) == pow2(e),
        e == 0 <==> n >= LEADING * d,
    decreases 2 * (LEADING * d) - n,
{
    lemma2_to64();
    if n >= LEADING * d {
        0
    } else {
        let h = lemma_unit_power(2 * n, d);
        lemma_pow2_unfold(h + 1);
        h + 1
    }
}

proof fn lemma_to_double(n: int) -> (r: (nat, int))
    requires
        0 < n <= 0x8000_0000_0000_0000,
    ensures
        r.1 == to_double(n),
        r.1 > 0,
        ({
            let unit = pow2(r.0) as int;
            &&& unit > 0
            &&& r.0 == 0 || 0x10_0000_0000_0000 * unit <= n
            &&& n < 0x20_0000_0000_0000 * unit
            &&& r.1 % unit == 0
            &&& -unit <= 2 * (r.1 - n) <= unit
            &&& 2 * (r.1 - n) == unit || 2 * (n - r.1) == unit ==> (r.1 / unit) % 2 == 0
        }),
{
    let e = lemma_grain_power(n);
    let g = grain(n);
    let k = nearest_even(n, g);
    lemma_grain(n);
    lemma_tie(n, g);
    lemma_mod_multiples_basic(k, g);
    lemma_div_multiples_vanish(k, g);
    assert(g * k == k * g) by (nonlinear_arith);
    assert(k * g > 0) by {
        if g == 1 {
            assert(nearest_even(n, 1) == n);
            assert(k * 1 == k);
        }
    }
    (e, k * g)
}

proof fn lemma_quotient(n: int, d: int) -> (r: (nat, int, int))
    requires
        n > 0,
        d > 0,
    ensures
        r.2 == rounded_quotient(n, d),
        r.2 >= 0,
        ({
            let unit = pow2(r.0) as int;
            let scaled = n * unit;
            &&& r.0 == 0 || scaled < 0x20_0000_0000_0000 * d
            &&& 0x10_0000_0000_0000 * d <= scaled
            &&& -d <= 2 * (r.1 * d - scaled) <= d
            &&& 2 * (r.1 * d - scaled) == d || 2 * (scaled - r.1 * d) == d ==> r.1 % 2 == 0
            &&& unit * (2 * r.2 - 1) <= 2 * r.1 < unit * (2 * r.2 + 1)
        }),
{
    let e = lemma_unit_power(n, d);
    let p = per_unit(n, d);
    let m = nearest_even(n * p, d);
    let q = (2 * m + p) / (2 * p);
    lemma_per_unit(n, d);
    lemma_tie(n * p, d);
    lemma_nearest(n * p, d);
    lemma_div_pos_is_pos(2 * m + p, 2 * p);
    lemma_fundamental_div_mod(2 * m + p, 2 * p);
    lemma_mod_bound(2 * m + p, 2 * p);
    assert((2 * p) * q == p * (2 * q - 1) + p) by (nonlinear_arith);
    assert(p * (2 * q + 1) == p * (2 * q - 1) + 2 * p) by (nonlinear_arith);
    lemma2_to64();
    if e != 0 {
        lemma_pow2_unfold(e);
        lemma_pow2_pos((e - 1) as nat);
    }
    (e, m, q)
}

} // verus!
