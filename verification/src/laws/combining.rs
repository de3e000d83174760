//! What becomes of the four values of a slot, and of the hash of a name.

use vstd::arithmetic::div_mod::{lemma_fundamental_div_mod, lemma_mod_multiples_basic};
use vstd::prelude::*;
use crate::aggregate::{
    lemma_with_reading, lemma_wrapped, wrapped, Aggregate, Cell,
};
use crate::hash::{fnv1a, home};
use crate::worker::{after, local_slot};

verus! {

/// The hash of a name is that of 64-bit FNV-1a: it begins with the offset basis, and every byte is
/// mixed into what the bytes before it give, which is then multiplied by the prime modulo 2^64. The
/// search for a name begins at the slot that the lowest 14 bits give.
pub proof fn lemma_hash(name: Seq<u8>, b: u8)
    ensures
        fnv1a(Seq::empty()) == 0xcbf2_9ce4_8422_2325,
        fnv1a(name.push(b)) == ((fnv1a(name) ^ (b as u64)) * 0x100_0000_01b3)
            % 0x1_0000_0000_0000_0000,
        home(name) == fnv1a(name) as int % 16384,
{
    assert(name.push(b).drop_last() =~= name);
}

/// Slots follow each other in a ring of 16384, and share the slots of a block by their lowest 11 bits.
pub proof fn lemma_slots(slot: usize)
    ensures
        slot < 16383 ==> after(slot) == slot + 1,
        slot == 16383 ==> after(slot) == 0,
        0 <= local_slot(slot as int) < 2048,
        (slot - local_slot(slot as int)) % 2048 == 0,
{
}

/// Sums and counts are added, and the lower or the higher one of two values is kept. What leaves the
/// range of 64 or 32 bits comes in again at its other end.
pub proof fn lemma_combined(a: int, b: int)
    ensures
        ({
            let sum = Aggregate::Sum.combine(a, b);
            &&& -0x8000_0000_0000_0000 <= sum < 0x8000_0000_0000_0000
            &&& (sum - (a + b)) % 0x1_0000_0000_0000_0000 == 0
            &&& -0x8000_0000_0000_0000 <= a + b < 0x8000_0000_0000_0000 ==> sum == a + b
        }),
        ({
            let count = Aggregate::Count.combine(a, b);
            &&& -0x8000_0000 <= count < 0x8000_0000
            &&& (count - (a + b)) % 0x1_0000_0000 == 0
            &&& -0x8000_0000 <= a + b < 0x8000_0000 ==> count == a + b
        }),
        ({
            let min = Aggregate::Min.combine(a, b);
            &&& min <= a
            &&& min <= b
            &&& min == a || min == b
        }),
        ({
            let max = Aggregate::Max.combine(a, b);
            &&& max >= a
            &&& max >= b
            &&& max == a || max == b
        }),
{
    lemma_congruent(a + b, 0x8000_0000_0000_0000);
    lemma_congruent(a + b, 0x8000_0000);
}

proof fn lemma_congruent(x: int, half: int)
    requires
        half > 0,
    ensures
        -half <= wrapped(x, half) < half,
        (wrapped(x, half) - x) % (2 * half) == 0,
        -half <= x < half ==> wrapped(x, half) == x,
{
    let m = 2 * half;
    let k = (x + half) / m;
    lemma_wrapped(x, half);
    lemma_fundamental_div_mod(x + half, m);
    assert(m * k == k * m) by (nonlinear_arith);
    assert((-k) * m == -(k * m)) by (nonlinear_arith);
    lemma_mod_multiples_basic(-k, m);
}

/// One reading adds itself to the sum, one to the count, and itself to the values of which the lowest
/// and the highest is kept. A slot without readings has the sum and the count 0, and a minimum and a
/// maximum that every reading replaces. The four values are taken in this order.
pub proof fn lemma_one_reading(temp: int)
    ensures
        Aggregate::Sum.of_reading(temp) == temp,
        Aggregate::Count.of_reading(temp) == 1,
        Aggregate::Min.of_reading(temp) == temp,
        Aggregate::Max.of_reading(temp) == temp,
        Aggregate::Sum.identity() == 0,
        Aggregate::Count.identity() == 0,
        Aggregate::Min.identity() == 0x7fff_ffff,
        Aggregate::Max.identity() == -0x8000_0000,
        Cell::empty().sum == 0,
        Cell::empty().cnt == 0,
        Cell::empty().min == 0x7fff_ffff,
        Cell::empty().max == -0x8000_0000,
        Aggregate::Sum.successor() == Some(Aggregate::Count),
        Aggregate::Count.successor() == Some(Aggregate::Min),
        Aggregate::Min.successor() == Some(Aggregate::Max),
        Aggregate::Max.successor() is None,
        Aggregate::Sum.holds(temp) <==> i64::MIN <= temp <= i64::MAX,
        Aggregate::Count.holds(temp) <==> i32::MIN <= temp <= i32::MAX,
        Aggregate::Min.holds(temp) <==> i32::MIN <= temp <= i32::MAX,
        Aggregate::Max.holds(temp) <==> i32::MIN <= temp <= i32::MAX,
{
}

/// A slot has four values, and adding to one of them leaves the others as they are.
pub proof fn lemma_one_value(cell: Cell, v: int)
    ensures
        cell.get(Aggregate::Sum) == cell.sum,
        cell.get(Aggregate::Count) == cell.cnt,
        cell.get(Aggregate::Min) == cell.min,
        cell.get(Aggregate::Max) == cell.max,
        ({
            let to = cell.add(Aggregate::Sum, v);
            &&& i64::MIN <= cell.sum + v <= i64::MAX ==> to.sum == cell.sum + v
            &&& i64::MIN <= v <= i64::MAX ==> (to.sum - (cell.sum + v)) % 0x1_0000_0000_0000_0000
                == 0
            &&& to.cnt == cell.cnt && to.min == cell.min && to.max == cell.max
        }),
        ({
            let to = cell.add(Aggregate::Count, v);
            &&& i32::MIN <= cell.cnt + v <= i32::MAX ==> to.cnt == cell.cnt + v
            &&& i32::MIN <= v <= i32::MAX ==> (to.cnt - (cell.cnt + v)) % 0x1_0000_0000 == 0
            &&& to.sum == cell.sum && to.min == cell.min && to.max == cell.max
        }),
        ({
            let to = cell.add(Aggregate::Min, v);
            &&& i32::MIN <= v <= i32::MAX ==> to.min <= cell.min && to.min <= v && (to.min
                == cell.min || to.min == v)
            &&& to.sum == cell.sum && to.cnt == cell.cnt && to.max == cell.max
        }),
        ({
            let to = cell.add(Aggregate::Max, v);
            &&& i32::MIN <= v <= i32::MAX ==> to.max >= cell.max && to.max >= v && (to.max
                == cell.max || to.max == v)
            &&& to.sum == cell.sum && to.cnt == cell.cnt && to.min == cell.min
        }),
{
    lemma_combined(cell.sum as int, v);
    lemma_combined(cell.cnt as int, v);
}

/// A slot with one more reading.
pub proof fn lemma_more_readings(cell: Cell, temp: int)
    requires
        i16::MIN <= temp <= i16::MAX,
    ensures
        ({
            let to = cell.with_reading(temp);
            &&& i64::MIN <= cell.sum + temp <= i64::MAX ==> to.sum == cell.sum + temp
            &&& cell.cnt < i32::MAX ==> to.cnt == cell.cnt + 1
            &&& to.min <= cell.min && to.min <= temp && (to.min == cell.min || to.min == temp)
            &&& to.max >= cell.max && to.max >= temp && (to.max == cell.max || to.max == temp)
        }),
{
    lemma_with_reading(cell, temp, Aggregate::Sum);
    lemma_with_reading(cell, temp, Aggregate::Count);
    lemma_with_reading(cell, temp, Aggregate::Min);
    lemma_with_reading(cell, temp, Aggregate::Max);
    lemma_combined(cell.sum as int, temp);
    lemma_combined(cell.cnt as int, 1);
    let to = cell.with_reading(temp);
    assert(to.get(Aggregate::Sum) == to.sum);
    assert(to.get(Aggregate::Count) == to.cnt);
}

} // verus!
