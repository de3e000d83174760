//! What the stations of the tables are, and what is made of stations with the same name.

use vstd::prelude::*;
use vstd::utf8::encode_utf8;
use crate::aggregate::Aggregate;
use crate::laws::combining::lemma_combined;
use crate::laws::ordering::lemma_name_order;
use crate::order::{lemma_name_total, name_before};
use crate::station::{
    entries, entry_fits, has_name, is_merge, merge_fits, merged, utf8_lossy, Entry, Station,
};
use crate::tables::Store;

verus! {

/// What is known of a station is what its fields say.
pub proof fn lemma_station_fields_kept(s: Station, list: Seq<Station>)
    ensures
        s@.name == s.name@,
        s@.cell.min == s.min,
        s@.cell.max == s.max,
        s@.cell.sum == s.sum,
        s@.cell.cnt == s.cnt,
        entries(list).len() == list.len(),
        forall|i: int| 0 <= i < list.len() ==> #[trigger] entries(list)[i] == list[i]@,
{
}

/// The stations of the tables are those of the slots with a name, one for each such slot, in the order
/// of the slots, with the name and the values that the slot holds.
pub proof fn lemma_stations(store: Store)
    ensures
        store.stations() == Seq::new(65536, |g: int| g).filter(
            |g: int| store.lens[g] > 0,
        ).map_values(
            |g: int|
                Entry {
                    name: utf8_lossy(store.names.subrange(g * 100, g * 100 + store.lens[g])),
                    cell: store.cells[g],
                },
        ),
{
    lemma_stations_before(store, 65536);
}

proof fn lemma_stations_before(store: Store, n: nat)
    ensures
        store.stations_before(n as int) == Seq::new(n, |g: int| g).filter(
            |g: int| store.lens[g] > 0,
        ).map_values(
            |g: int|
                Entry {
                    name: utf8_lossy(store.names.subrange(g * 100, g * 100 + store.lens[g])),
                    cell: store.cells[g],
                },
        ),
    decreases n,
{
    reveal(Seq::filter);
    let slots = Seq::new(n, |g: int| g);
    let named = |g: int| store.lens[g] > 0;
    let station = |g: int|
        Entry {
            name: utf8_lossy(store.names.subrange(g * 100, g * 100 + store.lens[g])),
            cell: store.cells[g],
        };
    if n == 0 {
        assert(slots.filter(named).map_values(station) =~= Seq::<Entry>::empty());
    } else {
        let m = (n - 1) as nat;
        let fewer = Seq::new(m, |g: int| g);
        lemma_stations_before(store, m);
        assert(slots.drop_last() =~= fewer);
        let kept = fewer.filter(named);
        if named(n - 1) {
            assert(slots.filter(named) == kept.push(n - 1));
            assert(kept.push(n - 1).map_values(station) =~= kept.map_values(station).push(
                station(n - 1),
            ));
        }
    }
}

/// Merging keeps every name of a list and adds none, and sorts them: of any two names in a row, and so
/// of any two at all, the first one has the smaller byte where they first differ, or is the beginning of
/// the second one. So no name is left twice.
pub proof fn lemma_merged_names(list: Seq<Entry>, result: Seq<Entry>)
    requires
        is_merge(list, result),
    ensures
        result.map_values(|e: Entry| e.name).to_set() == list.map_values(|e: Entry| e.name).to_set(),
        forall|i: int, j: int|
            0 <= i < j < result.len() ==> {
                let x = encode_utf8((#[trigger] result[i]).name);
                let y = encode_utf8((#[trigger] result[j]).name);
                &&& result[i].name != result[j].name
                &&& exists|k: int|
                    {
                        &&& 0 <= k <= x.len()
                        &&& k < y.len()
                        &&& #[trigger] x.take(k) == y.take(k)
                        &&& k == x.len() || x[k] < y[k]
                    }
            },
{
    let f = |e: Entry| e.name;
    assert forall|name: Seq<char>| #[trigger]
        result.map_values(f).to_set().contains(name) <==> list.map_values(f).to_set().contains(
            name,
        ) by {
        lemma_name_listed(list, name);
        lemma_name_listed(result, name);
        assert(has_name(result, name) <==> has_name(list, name));
    }
    assert(result.map_values(f).to_set() =~= list.map_values(f).to_set());
    assert forall|i: int, j: int| 0 <= i < j < result.len() implies {
        let x = encode_utf8((#[trigger] result[i]).name);
        let y = encode_utf8((#[trigger] result[j]).name);
        &&& result[i].name != result[j].name
        &&& exists|k: int|
            {
                &&& 0 <= k <= x.len()
                &&& k < y.len()
                &&& #[trigger] x.take(k) == y.take(k)
                &&& k == x.len() || x[k] < y[k]
            }
    } by {
        assert(name_before(result[i].name, result[j].name));
        lemma_name_order(result[i].name, result[j].name);
        lemma_name_total(result[i].name, result[j].name);
    }
}

proof fn lemma_name_listed(list: Seq<Entry>, name: Seq<char>)
    ensures
        list.map_values(|e: Entry| e.name).to_set().contains(name) <==> has_name(list, name),
{
    let f = |e: Entry| e.name;
    let names = list.map_values(f);
    if has_name(list, name) {
        let i = choose|i: int| 0 <= i < list.len() && (#[trigger] list[i]).name == name;
        assert(names[i] == name);
    }
    if names.contains(name) {
        let i = choose|i: int| 0 <= i < names.len() && names[i] == name;
        assert(list[i].name == name);
    }
}

/// The entries of a list that have a name.
pub open spec fn entries_of(list: Seq<Entry>, name: Seq<char>) -> Seq<Entry> {
    list.filter(|e: Entry| e.name == name)
}

/// The sums of entries, added up.
pub open spec fn total_sum(list: Seq<Entry>) -> int {
    list.fold_left(0int, |a: int, e: Entry| a + e.cell.sum)
}

/// The counts of entries, added up.
pub open spec fn total_count(list: Seq<Entry>) -> int {
    list.fold_left(0int, |a: int, e: Entry| a + e.cell.cnt)
}

/// A merged entry has the sum and the count of all entries with its name, the lowest one of their
/// minima and the highest one of their maxima.
pub proof fn lemma_merged_values(list: Seq<Entry>, result: Seq<Entry>, i: int)
    requires
        merge_fits(list),
        is_merge(list, result),
        0 <= i < result.len(),
    ensures
        ({
            let all = list.filter(|e: Entry| e.name == result[i].name);
            let cell = result[i].cell;
            &&& cell.sum == all.fold_left(0int, |a: int, e: Entry| a + e.cell.sum)
            &&& cell.cnt == all.fold_left(0int, |a: int, e: Entry| a + e.cell.cnt)
            &&& forall|j: int|
                0 <= j < all.len() ==> cell.min <= (#[trigger] all[j]).cell.min && all[j].cell.max
                    <= cell.max
            &&& exists|j: int| 0 <= j < all.len() && (#[trigger] all[j]).cell.min == cell.min
            &&& exists|j: int| 0 <= j < all.len() && (#[trigger] all[j]).cell.max == cell.max
        }),
{
    let name = result[i].name;
    let cell = result[i].cell;
    assert(has_name(result, name));
    assert(has_name(list, name));
    lemma_exact(list, name);
    lemma_extremes(list, name);
    lemma_some_entry(list, name);
    assert(cell.get(Aggregate::Sum) == merged(Aggregate::Sum, list, name));
    assert(cell.get(Aggregate::Count) == merged(Aggregate::Count, list, name));
    assert(cell.get(Aggregate::Min) == merged(Aggregate::Min, list, name));
    assert(cell.get(Aggregate::Max) == merged(Aggregate::Max, list, name));
}

/// Entries can be merged if, on the way through the list, no sum and no count of the entries met so far
/// with one name leaves the range of 64 or 32 bits.
pub proof fn lemma_mergeable(list: Seq<Entry>)
    ensures
        merge_fits(list) <==> forall|i: int|
            0 <= i < list.len() ==> {
                let met = entries_of(list.take(i + 1), (#[trigger] list[i]).name);
                &&& i64::MIN <= total_sum(met) <= i64::MAX
                &&& i32::MIN <= total_count(met) <= i32::MAX
            },
    decreases list.len(),
{
    if list.len() > 0 {
        let rest = list.drop_last();
        let n = rest.len() as int;
        let name = list[n].name;
        lemma_mergeable(rest);
        assert(list.take(n + 1) =~= list);
        assert(list.take(n) =~= rest);
        assert forall|i: int| 0 <= i < n implies #[trigger] list[i] == rest[i] && list.take(i + 1)
            == rest.take(i + 1) && list.take(i) == rest.take(i) by {
            assert(list.take(i + 1) =~= rest.take(i + 1));
            assert(list.take(i) =~= rest.take(i));
        }
        lemma_fits_shorter(list);
        if merge_fits(rest) {
            lemma_exact(rest, name);
            lemma_entries_push(rest, list[n], name);
            assert(rest.push(list[n]) =~= list);
        }
        if merge_fits(list) {
            assert(entry_fits(list, n));
            assert forall|i: int| 0 <= i < list.len() implies {
                let met = entries_of(list.take(i + 1), (#[trigger] list[i]).name);
                &&& i64::MIN <= total_sum(met) <= i64::MAX
                &&& i32::MIN <= total_count(met) <= i32::MAX
            } by {
                if i < n {
                    assert(rest[i] == list[i]);
                }
            }
        }
        if forall|i: int|
            0 <= i < list.len() ==> {
                let met = entries_of(list.take(i + 1), (#[trigger] list[i]).name);
                &&& i64::MIN <= total_sum(met) <= i64::MAX
                &&& i32::MIN <= total_count(met) <= i32::MAX
            } {
            assert forall|i: int| 0 <= i < rest.len() implies {
                let met = entries_of(rest.take(i + 1), (#[trigger] rest[i]).name);
                &&& i64::MIN <= total_sum(met) <= i64::MAX
                &&& i32::MIN <= total_count(met) <= i32::MAX
            } by {
                assert(rest[i] == list[i]);
            }
            assert(list[n].name == name);
            assert(entry_fits(list, n));
            assert forall|i: int| 0 <= i < list.len() implies #[trigger] entry_fits(list, i) by {
                if i < n {
                    assert(list[i] == rest[i]);
                    assert(entry_fits(rest, i));
                }
            }
        }
    }
}

/// One more entry.
proof fn lemma_entries_push(list: Seq<Entry>, e: Entry, name: Seq<char>)
    ensures
        e.name == name ==> entries_of(list.push(e), name) == entries_of(list, name).push(e),
        e.name != name ==> entries_of(list.push(e), name) == entries_of(list, name),
        total_sum(entries_of(list, name).push(e)) == total_sum(entries_of(list, name)) + e.cell.sum,
        total_count(entries_of(list, name).push(e)) == total_count(entries_of(list, name))
            + e.cell.cnt,
{
    reveal(Seq::filter);
    let some = entries_of(list, name);
    assert(list.push(e).drop_last() =~= list);
    assert(some.push(e).drop_last() =~= some);
}

proof fn lemma_fits_shorter(list: Seq<Entry>)
    requires
        list.len() > 0,
    ensures
        merge_fits(list) ==> merge_fits(list.drop_last()),
{
    let rest = list.drop_last();
    assert forall|i: int| 0 <= i < rest.len() && merge_fits(list) implies #[trigger] entry_fits(
        rest,
        i,
    ) by {
        assert(rest.take(i) =~= list.take(i));
        assert(rest[i] == list[i]);
        assert(entry_fits(list, i));
    }
}

/// Where nothing overflows, sums and counts are exact.
proof fn lemma_exact(list: Seq<Entry>, name: Seq<char>)
    requires
        merge_fits(list),
    ensures
        merged(Aggregate::Sum, list, name) == total_sum(entries_of(list, name)),
        merged(Aggregate::Count, list, name) == total_count(entries_of(list, name)),
    decreases list.len(),
{
    reveal(Seq::filter);
    if list.len() > 0 {
        let rest = list.drop_last();
        let n = rest.len() as int;
        let e = list[n];
        lemma_fits_shorter(list);
        lemma_exact(rest, name);
        lemma_entries_push(rest, e, name);
        assert(rest.push(e) =~= list);
        assert(entry_fits(list, n));
        assert(list.take(n) =~= rest);
        if e.name == name {
            lemma_combined(merged(Aggregate::Sum, rest, name), e.cell.sum as int);
            lemma_combined(merged(Aggregate::Count, rest, name), e.cell.cnt as int);
            assert(e.cell.get(Aggregate::Sum) == e.cell.sum);
            assert(e.cell.get(Aggregate::Count) == e.cell.cnt);
        }
    }
}

proof fn lemma_extremes(list: Seq<Entry>, name: Seq<char>)
    ensures
        ({
            let all = entries_of(list, name);
            let low = merged(Aggregate::Min, list, name);
            let high = merged(Aggregate::Max, list, name);
            &&& forall|j: int|
                0 <= j < all.len() ==> low <= (#[trigger] all[j]).cell.min && all[j].cell.max
                    <= high
            &&& all.len() > 0 ==> exists|j: int|
                0 <= j < all.len() && (#[trigger] all[j]).cell.min == low
            &&& all.len() > 0 ==> exists|j: int|
                0 <= j < all.len() && (#[trigger] all[j]).cell.max == high
            &&& all.len() == 0 ==> low == i32::MAX && high == i32::MIN
        }),
    decreases list.len(),
{
    reveal(Seq::filter);
    if list.len() > 0 {
        let rest = list.drop_last();
        let e = list[list.len() - 1];
        let some = entries_of(rest, name);
        let all = entries_of(list, name);
        let low = merged(Aggregate::Min, list, name);
        let high = merged(Aggregate::Max, list, name);
        lemma_extremes(rest, name);
        lemma_entries_push(rest, e, name);
        assert(rest.push(e) =~= list);
        if e.name == name {
            assert(all == some.push(e));
            lemma_combined(merged(Aggregate::Min, rest, name), e.cell.min as int);
            lemma_combined(merged(Aggregate::Max, rest, name), e.cell.max as int);
            assert(e.cell.get(Aggregate::Min) == e.cell.min);
            assert(e.cell.get(Aggregate::Max) == e.cell.max);
            assert(all[some.len() as int] == e);
            assert forall|j: int| 0 <= j < all.len() implies low <= (#[trigger] all[j]).cell.min
                && all[j].cell.max <= high by {
                if j < some.len() {
                    assert(all[j] == some[j]);
                }
            }
            if low != e.cell.min {
                let j = choose|j: int|
                    0 <= j < some.len() && (#[trigger] some[j]).cell.min == merged(
                        Aggregate::Min,
                        rest,
                        name,
                    );
                assert(all[j] == some[j]);
            }
            if high != e.cell.max {
                let j = choose|j: int|
                    0 <= j < some.len() && (#[trigger] some[j]).cell.max == merged(
                        Aggregate::Max,
                        rest,
                        name,
                    );
                assert(all[j] == some[j]);
            }
        }
    }
}

proof fn lemma_some_entry(list: Seq<Entry>, name: Seq<char>)
    requires
        has_name(list, name),
    ensures
        entries_of(list, name).len() > 0,
    decreases list.len(),
{
    reveal(Seq::filter);
    let i = choose|i: int| 0 <= i < list.len() && (#[trigger] list[i]).name == name;
    let rest = list.drop_last();
    if i < rest.len() {
        assert(rest[i].name == name);
        lemma_some_entry(rest, name);
    }
}

} // verus!
