//! The mean of readings in tenths, as a double-precision division and rounding give it, worked
//! out in integers.

use vstd::arithmetic::div_mod::{
    lemma_div_is_ordered_by_denominator, lemma_div_pos_is_pos, lemma_fundamental_div_mod,
    lemma_fundamental_div_mod_converse, lemma_mod_bound, lemma_mod_multiples_basic,
};
use vstd::arithmetic::power2::{lemma2_to64, lemma_pow2_unfold, pow2};
use vstd::prelude::*;

verus! {

/// 2^52: a double holds every integer up to twice this number, and a fraction to 53 bits.
pub const LEADING: u128 = 0x10_0000_0000_0000;

/// The integer next to `a / b`; of two that are as near, the even one.
pub open spec fn nearest_even(a: int, b: int) -> int {
    let q = a / b;
    let r = a % b;
    if 2 * r < b || 2 * r == b && q % 2 == 0 {
        q
    } else {
        q + 1
    }
}

/// The distance of doubles of the size of `n`, for an `n` that is not a fraction: the smallest
/// power of two that leaves 53 bits of `n`.
pub open spec fn grain(n: int) -> int
    decreases n,
{
    if n < 2 * LEADING {
        1
    } else {
        2 * grain(n / 2)
    }
}

/// The double next to a positive integer.
pub open spec fn to_double(n: int) -> int {
    nearest_even(n, grain(n)) * grain(n)
}

/// How many doubles there are to the unit at the size of `n / d`: the smallest power of two that
/// makes 53 bits of `n / d`.
pub open spec fn per_unit(n: int, d: int) -> int
    decreases 2 * (LEADING * d) - n,
{
    if n >= LEADING * d || n <= 0 {
        1
    } else {
        2 * per_unit(2 * n, d)
    }
}

/// The quotient of two doubles that are positive integers, rounded to a double and then to an
/// integer, halves up.
pub open spec fn rounded_quotient(n: int, d: int) -> int {
    let p = per_unit(n, d);
    (2 * nearest_even(n * p, d) + p) / (2 * p)
}

/// The absolute value.
pub open spec fn magnitude(x: int) -> int {
    if x < 0 {
        -x
    } else {
        x
    }
}

/// `x`, or the end of the range of `i32` that is next to it.
pub open spec fn saturated(x: int) -> int {
    if x < i32::MIN {
        i32::MIN as int
    } else if x > i32::MAX {
        i32::MAX as int
    } else {
        x
    }
}

/// The mean of `cnt` readings that add up to `sum`: both as doubles, divided, rounded to the next
/// integer with halves away from zero, and brought into the range of `i32`. Without readings it is
/// the end of that range which the sign of the sum points at, or 0.
pub open spec fn mean(sum: int, cnt: int) -> int {
    if sum == 0 {
        0
    } else if cnt == 0 {
        if sum > 0 {
            i32::MAX as int
        } else {
            i32::MIN as int
        }
    } else {
        let q = rounded_quotient(to_double(magnitude(sum)), magnitude(cnt));
        if (sum < 0) == (cnt < 0) {
            saturated(q)
        } else {
            saturated(-q)
        }
    }
}

/// `a / b` to the next integer, halves away from zero, for a positive `b`.
pub open spec fn exact_mean(a: int, b: int) -> int {
    let q = (2 * magnitude(a) + b) / (2 * b);
    if a < 0 {
        -q
    } else {
        q
    }
}

/// The nearest integer is no more than a half away.
pub proof fn lemma_nearest(a: int, b: int)
    requires
        b > 0,
    ensures
        2 * a - b <= 2 * (nearest_even(a, b) * b) <= 2 * a + b,
        a >= 0 ==> nearest_even(a, b) >= 0,
{
    let q = a / b;
    let r = a % b;
    lemma_fundamental_div_mod(a, b);
    assert(b * q == q * b) by (nonlinear_arith);
    assert((q + 1) * b == q * b + b) by (nonlinear_arith);
    if a >= 0 {
        lemma_div_pos_is_pos(a, b);
    }
}

/// The distance of doubles leaves 53 bits of a number, and no more than that.
pub proof fn lemma_grain(n: int)
    ensures
        grain(n) > 0,
        n >= 0 ==> n < 2 * (LEADING * grain(n)),
        n >= 0 ==> grain(n) == 1 || LEADING * grain(n) <= n,
    decreases n,
{
    if n >= 2 * LEADING {
        lemma_grain(n / 2);
    }
}

/// Scaling makes 53 bits of a quotient, and is needed only where there are fewer.
pub proof fn lemma_per_unit(n: int, d: int)
    requires
        n > 0,
        d > 0,
    ensures
        per_unit(n, d) > 0,
        LEADING * d <= n * per_unit(n, d),
        per_unit(n, d) == 1 || n * per_unit(n, d) < 2 * (LEADING * d),
        per_unit(n, d) == 1 <==> n >= LEADING * d,
        per_unit(n, d) != 1 ==> per_unit(n, d) % 2 == 0,
    decreases 2 * (LEADING * d) - n,
{
    if n < LEADING * d {
        lemma_per_unit(2 * n, d);
        let p = per_unit(2 * n, d);
        assert(n * (2 * p) == (2 * n) * p) by (nonlinear_arith);
        assert(p == 1 ==> (2 * n) * p == 2 * n);
    } else {
        assert(n * 1 == n);
    }
}

/// The nearest double, halves to even, of a positive integer up to 2^63.
fn double_of(n: u64) -> (r: u128)
    requires
        n <= 0x8000_0000_0000_0000,
    ensures
        r as int == to_double(n as int),
        r <= 0x8000_0000_0000_0000,
        n > 0 ==> r > 0,
{
    let mut g: u128 = 1;
    let mut rest: u64 = n;
    while rest as u128 >= 2 * LEADING
        invariant
            g * grain(rest as int) == grain(n as int),
            1 <= g,
            rest * g <= n,
            n <= 0x8000_0000_0000_0000,
        decreases rest,
    {
        proof {
            let h = rest as int / 2;
            assert((g * 2) * grain(h) == g * (2 * grain(h))) by (nonlinear_arith);
            assert(h * (g * 2) <= rest * g) by (nonlinear_arith)
                requires
                    2 * h <= rest,
                    g >= 1,
            ;
            assert(g <= n) by (nonlinear_arith)
                requires
                    rest * g <= n,
                    rest >= 1,
            ;
        }
        rest = rest / 2;
        g = g * 2;
    }
    assert(g == grain(n as int));
    let big: u128 = n as u128;
    proof {
        lemma_grain(n as int);
        lemma_nearest(n as int, g as int);
        lemma_double_range(n as int);
    }
    let q: u128 = big / g;
    let r: u128 = big % g;
    let m: u128 = if 2 * r < g || 2 * r == g && q % 2 == 0 { q } else { q + 1 };
    m * g
}

/// Rounding to a double does not leave the range up to 2^63, nor reach zero.
proof fn lemma_double_range(n: int)
    requires
        0 <= n <= 0x8000_0000_0000_0000,
    ensures
        0 <= to_double(n) <= 0x8000_0000_0000_0000,
        n > 0 ==> to_double(n) > 0,
        n < 2 * LEADING ==> to_double(n) == n,
        grain(n) <= 0x8000_0000_0000_0000,
{
    let g = grain(n);
    lemma_grain(n);
    lemma_nearest(n, g);
    if n < 2 * LEADING {
        assert(nearest_even(n, 1) == n);
    } else {
        lemma2_to64();
        lemma_grain_divides(n, 11);
        let j = pow2(11) as int / g;
        lemma_fundamental_div_mod(pow2(11) as int, g);
        let k = j * LEADING;
        assert((g * j) * LEADING == g * (j * LEADING)) by (nonlinear_arith);
        let m = nearest_even(n, g);
        assert(m <= k) by (nonlinear_arith)
            requires
                2 * (m * g) <= 2 * n + g,
                n <= g * k,
                g > 0,
        ;
        assert(m * g <= k * g) by (nonlinear_arith)
            requires
                m <= k,
                g > 0,
        ;
        assert(k * g == g * k) by (nonlinear_arith);
    }
}

/// The distance of doubles divides every power of two that is large enough for the number.
proof fn lemma_grain_divides(n: int, e: nat)
    requires
        n <= LEADING * pow2(e),
    ensures
        pow2(e) as int % grain(n) == 0,
    decreases e,
{
    if n >= 2 * LEADING {
        if e == 0 {
            lemma2_to64();
        } else {
            lemma_pow2_unfold(e);
            let half = (e - 1) as nat;
            lemma_grain_divides(n / 2, half);
            lemma_grain(n / 2);
            let g = grain(n / 2);
            let k = pow2(half) as int / g;
            lemma_fundamental_div_mod(pow2(half) as int, g);
            assert(2 * (g * k) == k * (2 * g)) by (nonlinear_arith);
            lemma_mod_multiples_basic(k, 2 * g);
        }
    } else {
        assert(pow2(e) as int % 1 == 0);
    }
}

/// The mean of `cnt` readings that add up to `sum`, in whole tenths.
pub fn mean_tenths(sum: i64, cnt: i32) -> (r: i32)
    ensures
        r as int == mean(sum as int, cnt as int),
{
    if sum == 0 {
        return 0;
    }
    if cnt == 0 {
        return if sum > 0 { i32::MAX } else { i32::MIN };
    }
    let size: i128 = if sum < 0 { -(sum as i128) } else { sum as i128 };
    let readings: i64 = if cnt < 0 { -(cnt as i64) } else { cnt as i64 };
    let n: u128 = double_of(size as u64);
    let d: u128 = readings as u128;
    assert(LEADING * d <= 0x8000_0000 * LEADING) by (nonlinear_arith)
        requires
            d <= 0x8000_0000,
    ;
    let mut p: u128 = 1;
    let mut scaled: u128 = n;
    while scaled < LEADING * d
        invariant
            0 < n,
            0 < d <= 0x8000_0000,
            0 < scaled,
            1 <= p,
            scaled == n * p,
            p <= scaled,
            LEADING * d <= 0x8000_0000 * LEADING,
            scaled <= 0x8000_0000_0000_0000 || scaled < 2 * (LEADING * d),
            p * per_unit(scaled as int, d as int) == per_unit(n as int, d as int),
        decreases 2 * (LEADING * d) - scaled,
    {
        proof {
            let u = per_unit(2 * scaled, d as int);
            assert((p * 2) * u == p * (2 * u)) by (nonlinear_arith);
            assert(n * (p * 2) == 2 * (n * p)) by (nonlinear_arith);
        }
        scaled = scaled * 2;
        p = p * 2;
    }
    assert(p == per_unit(n as int, d as int));
    proof {
        lemma_nearest(scaled as int, d as int);
        lemma_per_unit(n as int, d as int);
        lemma_div_is_ordered_by_denominator(scaled as int, 1, d as int);
    }
    let q: u128 = scaled / d;
    let r: u128 = scaled % d;
    let m: u128 = if 2 * r < d || 2 * r == d && q % 2 == 0 { q } else { q + 1 };
    let whole: u128 = (2 * m + p) / (2 * p);
    if (sum < 0) == (cnt < 0) {
        if whole > 0x7fff_ffff {
            i32::MAX
        } else {
            whole as i32
        }
    } else {
        if whole > 0x7fff_ffff {
            i32::MIN
        } else {
            -(whole as i32)
        }
    }
}

/// While the readings add up to less than 2^52 in size, the mean is their exact mean rounded once,
/// halves away from zero: the two roundings to a double do not show.
pub proof fn lemma_mean_exact(sum: int, cnt: int)
    requires
        magnitude(sum) < LEADING,
        0 < cnt <= i32::MAX,
    ensures
        mean(sum, cnt) == saturated(exact_mean(sum, cnt)),
{
    let n = magnitude(sum);
    if sum == 0 {
        assert(cnt / (2 * cnt) == 0) by (nonlinear_arith)
            requires
                cnt > 0,
        ;
    } else {
        lemma_double_range(n);
        lemma_per_unit(n, cnt);
        let p = per_unit(n, cnt);
        let h = p / 2;
        let m = nearest_even(n * p, cnt);
        let k = (2 * n + cnt) / (2 * cnt);
        lemma_nearest(n * p, cnt);
        lemma_fundamental_div_mod(2 * n + cnt, 2 * cnt);
        assert(LEADING * cnt > n) by (nonlinear_arith)
            requires
                LEADING > n,
                n >= 0,
                cnt >= 1,
        ;
        assert(p > cnt) by (nonlinear_arith)
            requires
                LEADING * cnt <= n * p,
                0 < n < LEADING,
                cnt > 0,
        ;
        let low = h * (2 * k - 1);
        let high = h * (2 * k + 1);
        assert(n * p >= low * cnt) by (nonlinear_arith)
            requires
                p == 2 * h,
                h > 0,
                low == h * (2 * k - 1),
                2 * n + cnt >= (2 * cnt) * k,
        ;
        assert(n * p <= high * cnt - h) by (nonlinear_arith)
            requires
                p == 2 * h,
                h > 0,
                high == h * (2 * k + 1),
                2 * n + cnt <= (2 * cnt) * k + 2 * cnt - 1,
        ;
        assert(low <= m) by (nonlinear_arith)
            requires
                2 * (n * p) - cnt <= 2 * (m * cnt),
                n * p >= low * cnt,
                cnt > 0,
        ;
        assert(m < high) by (nonlinear_arith)
            requires
                2 * (m * cnt) <= 2 * (n * p) + cnt,
                n * p <= high * cnt - h,
                2 * h > cnt,
                cnt > 0,
        ;
        assert(2 * m + p == (2 * p) * k + (2 * m + p - (2 * p) * k));
        assert(0 <= 2 * m + p - (2 * p) * k < 2 * p) by (nonlinear_arith)
            requires
                p == 2 * h,
                h * (2 * k - 1) <= m < h * (2 * k + 1),
        ;
        lemma_fundamental_div_mod_converse(2 * m + p, 2 * p, k, 2 * m + p - (2 * p) * k);
    }
}

/// The mean is neither below the lowest nor above the highest reading.
pub proof fn lemma_mean_between(sum: int, cnt: int, low: int, high: int)
    requires
        0 < cnt <= i32::MAX,
        i32::MIN <= low,
        high <= i32::MAX,
        low * cnt <= sum <= high * cnt,
    ensures
        low <= mean(sum, cnt) <= high,
{
    assert(i32::MIN * cnt <= low * cnt && high * cnt <= i32::MAX * cnt) by (nonlinear_arith)
        requires
            cnt > 0,
            i32::MIN <= low,
            high <= i32::MAX,
    ;
    assert(i32::MIN * cnt >= i32::MIN * i32::MAX && i32::MAX * cnt <= i32::MAX * i32::MAX)
        by (nonlinear_arith)
        requires
            0 < cnt <= i32::MAX,
    ;
    if sum == 0 {
        assert(low <= 0 <= high) by (nonlinear_arith)
            requires
                low * cnt <= 0 <= high * cnt,
                cnt > 0,
        ;
    } else {
        let n = magnitude(sum);
        let least = if sum > 0 {
            low
        } else {
            -high
        };
        let most = if sum > 0 {
            high
        } else {
            -low
        };
        assert((-high) * cnt == -(high * cnt) && (-low) * cnt == -(low * cnt)) by (nonlinear_arith);
        assert(most > 0) by (nonlinear_arith)
            requires
                0 < n <= most * cnt,
                cnt > 0,
        ;
        lemma_quotient_between(n, cnt, if least < 0 {
            0
        } else {
            least
        }, most);
    }
}

proof fn lemma_quotient_between(n: int, d: int, low: int, high: int)
    requires
        0 < n <= 0x8000_0000_0000_0000,
        0 < d,
        0 <= low,
        0 < high <= 0x8000_0000,
        low * d <= n <= high * d,
    ensures
        low <= rounded_quotient(to_double(n), d) <= high,
{
    let a = to_double(n);
    let g = grain(n);
    lemma_double_range(n);
    lemma_grain(n);
    lemma_nearest(n, g);
    assert((2 * LEADING - 1) * n <= 2 * (LEADING * a) <= (2 * LEADING + 1) * n) by {
        if g == 1 {
            assert(nearest_even(n, 1) == n);
        }
        assert((2 * LEADING - 1) * n == 2 * (LEADING * n) - n) by (nonlinear_arith);
        assert((2 * LEADING + 1) * n == 2 * (LEADING * n) + n) by (nonlinear_arith);
        assert(LEADING * (2 * n - g) <= LEADING * (2 * a) <= LEADING * (2 * n + g))
            by (nonlinear_arith)
            requires
                2 * n - g <= 2 * a <= 2 * n + g,
                LEADING > 0,
        ;
        assert(LEADING * (2 * n - g) == 2 * (LEADING * n) - LEADING * g) by (nonlinear_arith);
        assert(LEADING * (2 * n + g) == 2 * (LEADING * n) + LEADING * g) by (nonlinear_arith);
        assert(LEADING * (2 * a) == 2 * (LEADING * a)) by (nonlinear_arith);
    }
    assert(a < LEADING * d) by (nonlinear_arith)
        requires
            2 * (LEADING * a) <= (2 * LEADING + 1) * n,
            n <= high * d,
            high <= 0x8000_0000,
            d > 0,
            LEADING == 0x10_0000_0000_0000,
    ;
    lemma_per_unit(a, d);
    let p = per_unit(a, d);
    let m = nearest_even(a * p, d);
    lemma_nearest(a * p, d);
    assert(low <= high) by (nonlinear_arith)
        requires
            low * d <= high * d,
            d > 0,
    ;
    // Both bounds leave room for the two roundings: each moves the quotient by a small part.
    assert(2 * (LEADING * (a * p)) <= (2 * LEADING + 1) * (high * p) * d) by (nonlinear_arith)
        requires
            2 * (LEADING * a) <= (2 * LEADING + 1) * n,
            n <= high * d,
            p > 0,
            LEADING == 0x10_0000_0000_0000,
    ;
    assert(2 * (LEADING * (a * p)) >= (2 * LEADING - 1) * (low * p) * d) by (nonlinear_arith)
        requires
            2 * (LEADING * a) >= (2 * LEADING - 1) * n,
            n >= low * d,
            p > 0,
            LEADING == 0x10_0000_0000_0000,
    ;
    assert(4 * (LEADING * m) <= 2 * ((2 * LEADING + 1) * (high * p)) + 2 * LEADING)
        by (nonlinear_arith)
        requires
            2 * (LEADING * (a * p)) <= (2 * LEADING + 1) * (high * p) * d,
            2 * (m * d) <= 2 * (a * p) + d,
            d > 0,
            LEADING == 0x10_0000_0000_0000,
    ;
    assert(4 * (LEADING * m) >= 2 * ((2 * LEADING - 1) * (low * p)) - 2 * LEADING)
        by (nonlinear_arith)
        requires
            2 * (LEADING * (a * p)) >= (2 * LEADING - 1) * (low * p) * d,
            2 * (m * d) >= 2 * (a * p) - d,
            d > 0,
            LEADING == 0x10_0000_0000_0000,
    ;
    assert(high * p <= 0x8000_0000 * p && low * p <= high * p) by (nonlinear_arith)
        requires
            low <= high <= 0x8000_0000,
            p > 0,
    ;
    assert(2 * m < 2 * (high * p) + p);
    assert(2 * m + p >= 2 * (low * p));
    assert(2 * (high * p) + 2 * p == (2 * p) * (high + 1)) by (nonlinear_arith);
    assert(2 * (low * p) == (2 * p) * low) by (nonlinear_arith);
    lemma_fundamental_div_mod(2 * m + p, 2 * p);
    let q = (2 * m + p) / (2 * p);
    assert(low <= q <= high) by (nonlinear_arith)
        requires
            (2 * p) * low <= 2 * m + p < (2 * p) * (high + 1),
            2 * m + p == (2 * p) * q + (2 * m + p) % (2 * p),
            0 <= (2 * m + p) % (2 * p) < 2 * p,
            p > 0,
    ;
}

/// The exact mean, rounded, is neither below the lowest nor above the highest reading.
pub proof fn lemma_exact_mean_between(sum: int, cnt: int, low: int, high: int)
    requires
        0 < cnt,
        low * cnt <= sum <= high * cnt,
    ensures
        low <= exact_mean(sum, cnt) <= high,
{
    let n = magnitude(sum);
    let least = if sum < 0 {
        -high
    } else {
        low
    };
    let most = if sum < 0 {
        -low
    } else {
        high
    };
    let q = (2 * n + cnt) / (2 * cnt);
    lemma_fundamental_div_mod(2 * n + cnt, 2 * cnt);
    lemma_mod_bound(2 * n + cnt, 2 * cnt);
    let rest = (2 * n + cnt) % (2 * cnt);
    assert((-high) * cnt == -(high * cnt) && (-low) * cnt == -(low * cnt)) by (nonlinear_arith);
    assert(least <= q <= most) by (nonlinear_arith)
        requires
            least * cnt <= n <= most * cnt,
            2 * n + cnt == (2 * cnt) * q + rest,
            0 <= rest < 2 * cnt,
            cnt > 0,
    {
        assert((2 * cnt) * q == 2 * (cnt * q));
    }
}

} // verus!
