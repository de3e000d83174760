//! FNV-1a over station names, and the slot of a table that a hash points at.

use vstd::prelude::*;

verus! {

/// Slots of one table.
pub const TABLE_SIZE: usize = 16384;

/// Offset basis of 64-bit FNV-1a.
pub const FNV_BASIS: u64 = 0xcbf29ce484222325;

/// Prime of 64-bit FNV-1a.
pub const FNV_PRIME: u64 = 0x00000100000001B3;

/// 64-bit FNV-1a: byte by byte, exclusive or, then times the prime modulo 2^64.
pub open spec fn fnv1a(name: Seq<u8>) -> u64
    decreases name.len(),
{
    if name.len() == 0 {
        FNV_BASIS
    } else {
        let mixed = fnv1a(name.drop_last()) ^ (name.last() as u64);
        ((mixed * FNV_PRIME) % 0x1_0000_0000_0000_0000) as u64
    }
}

/// The slot at which the search for a name begins.
pub open spec fn home(name: Seq<u8>) -> int {
    fnv1a(name) as int % TABLE_SIZE as int
}

/// The hash of a station name. It is 64 bits wide on every machine.
pub fn station_hash(name: &[u8]) -> (h: u64)
    ensures
        h == fnv1a(name@),
{
    let mut h: u64 = FNV_BASIS;
    let mut i: usize = 0;
    assert(name@.take(0) =~= Seq::<u8>::empty());
    while i < name.len()
        invariant
            i <= name.len(),
            h == fnv1a(name@.take(i as int)),
        decreases name.len() - i,
    {
        assert(name@.take(i + 1).drop_last() =~= name@.take(i as int));
        assert(name@.take(i + 1).last() == name@[i as int]);
        h = h ^ (name[i] as u64);
        h = h.wrapping_mul(FNV_PRIME);
        i = i + 1;
    }
    assert(name@.take(i as int) =~= name@);
    h
}

/// The slot that a hash points at: its lowest bits.
pub fn first_slot(h: u64) -> (slot: usize)
    ensures
        slot as int == h as int % TABLE_SIZE as int,
{
    assert(h & 0x3fff == h % 0x4000) by (bit_vector);
    (h & (TABLE_SIZE as u64 - 1)) as usize
}

/// The slot behind `slot`, the first one behind the last.
pub fn next_slot(slot: usize) -> (next: usize)
    requires
        slot < TABLE_SIZE,
    ensures
        next as int == (slot + 1) % TABLE_SIZE as int,
{
    let s: usize = slot + 1;
    assert(s & 0x3fff == s % 0x4000) by (bit_vector);
    s & (TABLE_SIZE - 1)
}

} // verus!
