//! The stations that the tables hold, merged over all tables and sorted by name.

use vstd::prelude::*;
use vstd::utf8::{decode_utf8, decode_utf8_encode_utf8, valid_utf8};
use crate::aggregate::{lemma_combine_laws, lemma_wrapped, Aggregate, Cell};
use crate::order::{compare_names, lemma_name_total, lemma_name_transitive, name_before, Place};
use crate::parse::NAME_MAX;
use crate::tables::{Store, Tables, TOTAL_SLOTS};

verus! {

/// A station and what is known of its readings, in tenths.
pub struct Station {
    pub name: String,
    pub min: i32,
    pub max: i32,
    pub sum: i64,
    pub cnt: i32,
}

/// What a `Station` holds.
pub struct Entry {
    pub name: Seq<char>,
    pub cell: Cell,
}

impl View for Station {
    type V = Entry;

    open spec fn view(&self) -> Entry {
        Entry {
            name: self.name@,
            cell: Cell { sum: self.sum, cnt: self.cnt, min: self.min, max: self.max },
        }
    }
}

/// What a list of stations holds.
pub open spec fn entries(stations: Seq<Station>) -> Seq<Entry> {
    Seq::new(stations.len(), |i: int| stations[i]@)
}

/// The text that `String::from_utf8_lossy` makes of bytes.
pub uninterp spec fn utf8_lossy(bytes: Seq<u8>) -> Seq<char>;

/// A name as text, by `String::from_utf8_lossy`. The text depends on the bytes alone; it is what
/// they encode where they are valid UTF-8. What stands in for bytes that are not is left open.
#[verifier::external_body]
fn decode_name(bytes: &[u8]) -> (r: String)
    ensures
        r@ == utf8_lossy(bytes@),
        valid_utf8(bytes@) ==> r@ == decode_utf8(bytes@),
{
    String::from_utf8_lossy(bytes).into_owned()
}

impl Store {
    /// The names of all slots lie within the bytes that there are.
    pub open spec fn readable(self) -> bool {
        forall|g: int|
            0 <= g < TOTAL_SLOTS && #[trigger] self.lens[g] > 0 ==> g * NAME_MAX + self.lens[g]
                <= self.names.len()
    }

    /// The name of a slot is reported as the text that it encodes, where it is valid UTF-8.
    pub open spec fn decoded(self) -> bool {
        forall|g: int|
            0 <= g < TOTAL_SLOTS && #[trigger] self.lens[g] > 0 && valid_utf8(self.slot_name(g))
                ==> utf8_lossy(self.slot_name(g)) == decode_utf8(self.slot_name(g))
    }

    /// The stations of the first `n` slots, in order: one for each slot with a name.
    pub open spec fn stations_before(self, n: int) -> Seq<Entry>
        decreases n,
    {
        if n <= 0 {
            Seq::empty()
        } else if self.lens[n - 1] > 0 {
            self.stations_before(n - 1).push(
                Entry { name: utf8_lossy(self.slot_name(n - 1)), cell: self.cells[n - 1] },
            )
        } else {
            self.stations_before(n - 1)
        }
    }

    /// The stations of all slots, in order. A station is in here once for each table that has
    /// its name.
    pub open spec fn stations(self) -> Seq<Entry> {
        self.stations_before(TOTAL_SLOTS as int)
    }
}

impl Tables {
    /// Whether the arrays are of the right size and the names lie within them.
    pub fn is_readable(&self) -> (r: bool)
        ensures
            r == (self.shaped() && self@.readable()),
    {
        if self.name_lens.len() != TOTAL_SLOTS || self.names.len() != TOTAL_SLOTS * NAME_MAX
            || self.columns.sums.len() != TOTAL_SLOTS || self.columns.cnts.len() != TOTAL_SLOTS
            || self.columns.mins.len() != TOTAL_SLOTS || self.columns.maxs.len() != TOTAL_SLOTS {
            return false;
        }
        let mut g: usize = 0;
        while g < TOTAL_SLOTS
            invariant
                self.shaped(),
                g <= TOTAL_SLOTS,
                forall|h: int|
                    0 <= h < g && #[trigger] self@.lens[h] > 0 ==> h * NAME_MAX + self@.lens[h]
                        <= self@.names.len(),
            decreases TOTAL_SLOTS - g,
        {
            let len: i32 = self.name_lens[g];
            if len > 0 && len as usize > self.names.len() - g * NAME_MAX {
                assert(self@.lens[g as int] > 0);
                return false;
            }
            g = g + 1;
        }
        true
    }

    /// The stations of all slots with a name, in the order of the slots.
    pub fn read_stations(&self) -> (r: Vec<Station>)
        requires
            self.shaped(),
            self@.readable(),
        ensures
            entries(r@) == self@.stations(),
            self@.decoded(),
    {
        let mut r: Vec<Station> = Vec::new();
        let mut g: usize = 0;
        assert(entries(r@) =~= self@.stations_before(0));
        while g < TOTAL_SLOTS
            invariant
                self.shaped(),
                self@.readable(),
                g <= TOTAL_SLOTS,
                entries(r@) == self@.stations_before(g as int),
                forall|h: int|
                    0 <= h < g && #[trigger] self@.lens[h] > 0 && valid_utf8(self@.slot_name(h))
                        ==> utf8_lossy(self@.slot_name(h)) == decode_utf8(self@.slot_name(h)),
            decreases TOTAL_SLOTS - g,
        {
            let len: i32 = self.name_lens[g];
            if len > 0 {
                assert(self@.lens[g as int] > 0);
                let from: usize = g * NAME_MAX;
                let to: usize = from + len as usize;
                let bytes: &[u8] = &self.names[from..to];
                assert(bytes@ =~= self@.slot_name(g as int));
                let ghost before = r@;
                let name: String = decode_name(bytes);
                r.push(
                    Station {
                        name,
                        min: self.columns.mins[g],
                        max: self.columns.maxs[g],
                        sum: self.columns.sums[g],
                        cnt: self.columns.cnts[g],
                    },
                );
                assert(entries(r@) =~= entries(before).push(r@.last()@));
            }
            g = g + 1;
        }
        r
    }
}

/// One value of all entries with a name, combined.
pub open spec fn merged(k: Aggregate, list: Seq<Entry>, name: Seq<char>) -> int
    decreases list.len(),
{
    if list.len() == 0 {
        k.identity()
    } else {
        let rest = merged(k, list.drop_last(), name);
        if list.last().name == name {
            k.combine(rest, list.last().cell.get(k))
        } else {
            rest
        }
    }
}

/// Adding an entry to those before it that have its name leaves the sum and the count within
/// the range of their types.
pub open spec fn entry_fits(list: Seq<Entry>, i: int) -> bool {
    let before = list.take(i);
    let e = list[i];
    &&& Aggregate::Sum.holds(merged(Aggregate::Sum, before, e.name) + e.cell.sum)
    &&& Aggregate::Count.holds(merged(Aggregate::Count, before, e.name) + e.cell.cnt)
}

/// No sum and no count overflows when the entries are merged in order.
pub open spec fn merge_fits(list: Seq<Entry>) -> bool {
    forall|i: int| 0 <= i < list.len() ==> #[trigger] entry_fits(list, i)
}

/// An entry of the list has the name.
pub open spec fn has_name(list: Seq<Entry>, name: Seq<char>) -> bool {
    exists|i: int| 0 <= i < list.len() && (#[trigger] list[i]).name == name
}

/// Each name stands before all names behind it.
pub open spec fn sorted(list: Seq<Entry>) -> bool {
    forall|i: int, j: int|
        0 <= i < j < list.len() ==> name_before((#[trigger] list[i]).name, (#[trigger] list[j]).name)
}

/// `result` has the names of `list`, each of them once and in order, and of each name the
/// values of all entries of `list` with that name combined.
pub open spec fn is_merge(list: Seq<Entry>, result: Seq<Entry>) -> bool {
    &&& sorted(result)
    &&& forall|name: Seq<char>| #[trigger] has_name(result, name) <==> has_name(list, name)
    &&& forall|i: int, k: Aggregate|
        0 <= i < result.len() ==> #[trigger] result[i].cell.get(k) == merged(
            k,
            list,
            result[i].name,
        )
}

proof fn lemma_merged_absent(k: Aggregate, list: Seq<Entry>, name: Seq<char>)
    requires
        !has_name(list, name),
    ensures
        merged(k, list, name) == k.identity(),
    decreases list.len(),
{
    if list.len() > 0 {
        let rest = list.drop_last();
        assert(list[list.len() - 1].name != name);
        if has_name(rest, name) {
            let i = choose|i: int| 0 <= i < rest.len() && (#[trigger] rest[i]).name == name;
            assert(list[i].name == name);
        }
        lemma_merged_absent(k, rest, name);
    }
}

/// The place of a name in a sorted list: the first one that does not stand before it, and
/// whether the name is there.
fn find_station(stations: &Vec<Station>, name: &str) -> (r: (usize, bool))
    requires
        sorted(entries(stations@)),
    ensures
        r.0 <= stations.len(),
        forall|i: int| 0 <= i < r.0 ==> name_before((#[trigger] stations@[i]).name@, name@),
        r.1 ==> r.0 < stations.len() && stations@[r.0 as int].name@ == name@,
        !r.1 ==> forall|i: int|
            r.0 <= i < stations.len() ==> name_before(name@, (#[trigger] stations@[i]).name@),
{
    let ghost list = entries(stations@);
    let mut low: usize = 0;
    let mut high: usize = stations.len();
    while low < high
        invariant
            low <= high <= stations.len(),
            list == entries(stations@),
            sorted(list),
            forall|i: int| 0 <= i < low ==> name_before((#[trigger] stations@[i]).name@, name@),
            forall|i: int|
                high <= i < stations.len() ==> name_before(name@, (#[trigger] stations@[i]).name@),
        decreases high - low,
    {
        let mid: usize = low + (high - low) / 2;
        let ghost pivot = stations@[mid as int].name@;
        match compare_names(stations[mid].name.as_str(), name) {
            Place::Before => {
                assert forall|i: int| 0 <= i < mid + 1 implies name_before(
                    (#[trigger] stations@[i]).name@,
                    name@,
                ) by {
                    if i < mid {
                        assert(name_before(list[i].name, list[mid as int].name));
                        lemma_name_transitive(stations@[i].name@, pivot, name@);
                    }
                }
                low = mid + 1;
            },
            Place::Same => {
                assert forall|i: int| 0 <= i < mid implies name_before(
                    (#[trigger] stations@[i]).name@,
                    name@,
                ) by {
                    assert(name_before(list[i].name, list[mid as int].name));
                }
                return (mid, true);
            },
            Place::After => {
                assert forall|i: int| mid <= i < stations.len() implies name_before(
                    name@,
                    (#[trigger] stations@[i]).name@,
                ) by {
                    if i > mid {
                        assert(name_before(list[mid as int].name, list[i].name));
                        lemma_name_transitive(name@, pivot, stations@[i].name@);
                    }
                }
                high = mid;
            },
        }
    }
    (low, false)
}

proof fn lemma_push_name(list: Seq<Entry>, e: Entry, name: Seq<char>)
    ensures
        has_name(list.push(e), name) <==> has_name(list, name) || e.name == name,
{
    let longer = list.push(e);
    if has_name(list, name) {
        let i = choose|i: int| 0 <= i < list.len() && (#[trigger] list[i]).name == name;
        assert(longer[i].name == name);
    }
    if e.name == name {
        assert(longer[list.len() as int].name == name);
    }
    if has_name(longer, name) && e.name != name {
        let i = choose|i: int| 0 <= i < longer.len() && (#[trigger] longer[i]).name == name;
        assert(list[i].name == name);
    }
}

/// An entry whose name is new goes where its name belongs.
proof fn lemma_merge_insert(list: Seq<Entry>, result: Seq<Entry>, e: Entry, at: int)
    requires
        is_merge(list, result),
        0 <= at <= result.len(),
        forall|i: int| 0 <= i < at ==> name_before((#[trigger] result[i]).name, e.name),
        forall|i: int| at <= i < result.len() ==> name_before(e.name, (#[trigger] result[i]).name),
    ensures
        !has_name(list, e.name),
        is_merge(list.push(e), result.insert(at, e)),
{
    let longer = list.push(e);
    let next = result.insert(at, e);
    assert forall|i: int| 0 <= i < result.len() implies (#[trigger] result[i]).name != e.name by {
        lemma_name_total(result[i].name, e.name);
    }
    assert(!has_name(result, e.name));
    assert(longer.drop_last() =~= list);
    assert forall|i: int, j: int| 0 <= i < j < next.len() implies name_before(
        (#[trigger] next[i]).name,
        (#[trigger] next[j]).name,
    ) by {
        let a = if i <= at {
            i
        } else {
            i - 1
        };
        let b = if j <= at {
            j
        } else {
            j - 1
        };
        if i == at {
            assert(next[j] == result[b]);
        } else if j == at {
            assert(next[i] == result[a]);
        } else {
            assert(next[i] == result[a] && next[j] == result[b]);
        }
    }
    assert forall|name: Seq<char>| #[trigger] has_name(next, name) <==> has_name(longer, name) by {
        lemma_push_name(list, e, name);
        if has_name(result, name) {
            let i = choose|i: int| 0 <= i < result.len() && (#[trigger] result[i]).name == name;
            if i < at {
                assert(next[i].name == name);
            } else {
                assert(next[i + 1].name == name);
            }
        }
        if e.name == name {
            assert(next[at].name == name);
        }
        if has_name(next, name) && e.name != name {
            let i = choose|i: int| 0 <= i < next.len() && (#[trigger] next[i]).name == name;
            if i < at {
                assert(result[i].name == name);
            } else {
                assert(result[i - 1].name == name);
            }
        }
    }
    assert forall|i: int, k: Aggregate| 0 <= i < next.len() implies #[trigger] next[i].cell.get(k)
        == merged(k, longer, next[i].name) by {
        if i == at {
            lemma_merged_absent(k, list, e.name);
            lemma_combine_laws(k, e.cell.get(k), k.identity(), 0);
        } else {
            let a = if i < at {
                i
            } else {
                i - 1
            };
            assert(next[i] == result[a]);
            assert(result[a].cell.get(k) == merged(k, list, result[a].name));
        }
    }
}

/// An entry whose name is there is combined with the one that has it.
proof fn lemma_merge_update(list: Seq<Entry>, result: Seq<Entry>, e: Entry, at: int, cell: Cell)
    requires
        is_merge(list, result),
        0 <= at < result.len(),
        result[at].name == e.name,
        forall|k: Aggregate| #[trigger]
            cell.get(k) == k.combine(result[at].cell.get(k), e.cell.get(k)),
    ensures
        is_merge(list.push(e), result.update(at, Entry { name: e.name, cell })),
{
    let longer = list.push(e);
    let next = result.update(at, Entry { name: e.name, cell });
    assert(longer.drop_last() =~= list);
    assert forall|i: int| 0 <= i < result.len() implies (#[trigger] next[i]).name
        == result[i].name by {}
    assert forall|name: Seq<char>| #[trigger] has_name(next, name) <==> has_name(longer, name) by {
        lemma_push_name(list, e, name);
        assert(has_name(result, name) <==> has_name(list, name));
        if has_name(result, name) {
            let i = choose|i: int| 0 <= i < result.len() && (#[trigger] result[i]).name == name;
            assert(next[i].name == name);
        }
        if e.name == name {
            assert(next[at].name == name);
        }
        if has_name(next, name) && e.name != name {
            let i = choose|i: int| 0 <= i < next.len() && (#[trigger] next[i]).name == name;
            assert(result[i].name == name);
        }
    }
    assert forall|i: int, k: Aggregate| 0 <= i < next.len() implies #[trigger] next[i].cell.get(k)
        == merged(k, longer, next[i].name) by {
        assert(result[i].cell.get(k) == merged(k, list, result[i].name));
        if i == at {
            assert(cell.get(k) == k.combine(result[at].cell.get(k), e.cell.get(k)));
        } else {
            if i < at {
                assert(name_before(result[i].name, result[at].name));
            } else {
                assert(name_before(result[at].name, result[i].name));
            }
            lemma_name_total(result[i].name, result[at].name);
        }
    }
}

/// Merges one more entry into a list that was merged from `list`. Where its sum or its count
/// does not fit, the answer is no, and the list is of no further use.
fn merge_entry(stations: &mut Vec<Station>, e: &Station, Ghost(list): Ghost<Seq<Entry>>) -> (ok:
    bool)
    requires
        is_merge(list, entries(old(stations)@)),
    ensures
        ok == entry_fits(list.push(e@), list.len() as int),
        ok ==> is_merge(list.push(e@), entries(final(stations)@)),
{
    let ghost result = entries(stations@);
    let (at, found): (usize, bool) = find_station(stations, e.name.as_str());
    assert forall|i: int| 0 <= i < at implies name_before((#[trigger] result[i]).name, e@.name) by {
        assert(name_before(stations@[i].name@, e.name@));
    }
    assert(list.push(e@).take(list.len() as int) =~= list);
    if found {
        assert(result[at as int].name == e@.name);
        assert(result[at as int].cell.get(Aggregate::Sum) == merged(Aggregate::Sum, list, e@.name));
        assert(result[at as int].cell.get(Aggregate::Count) == merged(
            Aggregate::Count,
            list,
            e@.name,
        ));
        let sum: i64 = match stations[at].sum.checked_add(e.sum) {
            Some(sum) => sum,
            None => {
                return false;
            },
        };
        let cnt: i32 = match stations[at].cnt.checked_add(e.cnt) {
            Some(cnt) => cnt,
            None => {
                return false;
            },
        };
        let min: i32 = if e.min < stations[at].min { e.min } else { stations[at].min };
        let max: i32 = if e.max > stations[at].max { e.max } else { stations[at].max };
        let merged_station = Station { name: e.name.clone(), min, max, sum, cnt };
        proof {
            let cell = merged_station@.cell;
            lemma_wrapped(result[at as int].cell.sum + e.sum, 0x8000_0000_0000_0000);
            lemma_wrapped(result[at as int].cell.cnt + e.cnt, 0x8000_0000);
            lemma_merge_update(list, result, e@, at as int, cell);
        }
        stations.set(at, merged_station);
        assert(entries(stations@) =~= result.update(at as int, merged_station@));
    } else {
        assert forall|i: int| at <= i < result.len() implies name_before(
            e@.name,
            (#[trigger] result[i]).name,
        ) by {
            assert(name_before(e.name@, stations@[i].name@));
        }
        proof {
            lemma_merge_insert(list, result, e@, at as int);
            lemma_merged_absent(Aggregate::Sum, list, e@.name);
            lemma_merged_absent(Aggregate::Count, list, e@.name);
        }
        let new_station = Station {
            name: e.name.clone(),
            min: e.min,
            max: e.max,
            sum: e.sum,
            cnt: e.cnt,
        };
        stations.insert(at, new_station);
        assert(entries(stations@) =~= result.insert(at as int, e@));
    }
    true
}

/// Merges the entries of each name into one and sorts the names. Nothing comes out where a sum
/// or a count leaves the range of its type on the way.
pub fn merge_stations(stations: &[Station]) -> (r: Option<Vec<Station>>)
    ensures
        match r {
            Some(result) => merge_fits(entries(stations@)) && is_merge(
                entries(stations@),
                entries(result@),
            ),
            None => !merge_fits(entries(stations@)),
        },
{
    let ghost list = entries(stations@);
    let mut result: Vec<Station> = Vec::new();
    let mut i: usize = 0;
    assert(is_merge(list.take(0), entries(result@)));
    while i < stations.len()
        invariant
            list == entries(stations@),
            i <= stations.len(),
            is_merge(list.take(i as int), entries(result@)),
            forall|j: int| 0 <= j < i ==> #[trigger] entry_fits(list, j),
        decreases stations.len() - i,
    {
        let ghost before = list.take(i as int);
        let ok: bool = merge_entry(&mut result, &stations[i], Ghost(before));
        proof {
            let next = before.push(stations@[i as int]@);
            assert(next =~= list.take(i + 1));
            assert(next.take(before.len() as int) =~= list.take(i as int));
            assert(entry_fits(list, i as int) == entry_fits(next, before.len() as int));
        }
        if !ok {
            return None;
        }
        i = i + 1;
    }
    assert(list.take(i as int) =~= list);
    Some(result)
}

/// The names of a list and the values behind each of them leave no choice in how they are
/// merged: any two ways to do it give the same list.
pub proof fn lemma_merge_unique(list: Seq<Entry>, other: Seq<Entry>, x: Seq<Entry>, y: Seq<Entry>)
    requires
        is_merge(list, x),
        is_merge(other, y),
        forall|name: Seq<char>| #[trigger] has_name(list, name) <==> has_name(other, name),
        forall|k: Aggregate, name: Seq<char>| #[trigger]
            merged(k, list, name) == merged(k, other, name),
    ensures
        x == y,
{
    assert forall|name: Seq<char>| #[trigger] has_name(x, name) <==> has_name(y, name) by {
        assert(has_name(list, name) <==> has_name(other, name));
    }
    assert forall|i: int, j: int|
        0 <= i < x.len() && 0 <= j < y.len() && (#[trigger] x[i]).name == (#[trigger] y[j]).name
        implies x[i].cell == y[j].cell by {
        assert forall|k: Aggregate| x[i].cell.get(k) == y[j].cell.get(k) by {
            assert(merged(k, list, x[i].name) == merged(k, other, x[i].name));
        }
        assert(x[i].cell.get(Aggregate::Sum) == y[j].cell.get(Aggregate::Sum));
        assert(x[i].cell.get(Aggregate::Count) == y[j].cell.get(Aggregate::Count));
        assert(x[i].cell.get(Aggregate::Min) == y[j].cell.get(Aggregate::Min));
        assert(x[i].cell.get(Aggregate::Max) == y[j].cell.get(Aggregate::Max));
    }
    lemma_sorted_unique(x, y);
}

proof fn lemma_sorted_unique(x: Seq<Entry>, y: Seq<Entry>)
    requires
        sorted(x),
        sorted(y),
        forall|name: Seq<char>| #[trigger] has_name(x, name) <==> has_name(y, name),
        forall|i: int, j: int|
            0 <= i < x.len() && 0 <= j < y.len() && (#[trigger] x[i]).name == (#[trigger] y[j]).name
                ==> x[i].cell == y[j].cell,
    ensures
        x == y,
    decreases x.len(),
{
    if x.len() == 0 || y.len() == 0 {
        if x.len() > 0 {
            assert(has_name(x, x[0].name));
        }
        if y.len() > 0 {
            assert(has_name(y, y[0].name));
            assert(has_name(x, y[0].name));
        }
        assert(x =~= y);
    } else {
        let p = x.len() - 1;
        let q = y.len() - 1;
        assert(has_name(x, x[p].name));
        assert(has_name(y, y[q].name));
        assert(has_name(x, y[q].name));
        let j = choose|j: int| 0 <= j < y.len() && (#[trigger] y[j]).name == x[p].name;
        let i = choose|i: int| 0 <= i < x.len() && (#[trigger] x[i]).name == y[q].name;
        if i < p && j < q {
            assert(name_before(x[i].name, x[p].name));
            assert(name_before(y[j].name, y[q].name));
            lemma_name_total(x[p].name, y[q].name);
        }
        assert(x[p].name == y[q].name);
        let a = x.drop_last();
        let b = y.drop_last();
        assert forall|name: Seq<char>| #[trigger] has_name(a, name) <==> has_name(b, name) by {
            lemma_push_name(a, x[p], name);
            lemma_push_name(b, y[q], name);
            assert(a.push(x[p]) =~= x);
            assert(b.push(y[q]) =~= y);
            assert(has_name(x, name) <==> has_name(y, name));
            if name == x[p].name {
                lemma_last_apart(x, name);
                lemma_last_apart(y, name);
            }
        }
        assert forall|i: int, j: int|
            0 <= i < a.len() && 0 <= j < b.len() && (#[trigger] a[i]).name
                == (#[trigger] b[j]).name implies a[i].cell == b[j].cell by {
            assert(x[i].name == y[j].name);
        }
        lemma_sorted_unique(a, b);
        assert(x =~= a.push(x[p]));
        assert(y =~= b.push(y[q]));
    }
}

proof fn lemma_last_apart(x: Seq<Entry>, name: Seq<char>)
    requires
        sorted(x),
        x.len() > 0,
        x.last().name == name,
    ensures
        !has_name(x.drop_last(), name),
{
    let a = x.drop_last();
    if has_name(a, name) {
        let i = choose|i: int| 0 <= i < a.len() && (#[trigger] a[i]).name == name;
        assert(name_before(x[i].name, x[x.len() - 1].name));
        lemma_name_total(name, name);
    }
}

impl Store {
    /// Slots whose names are valid UTF-8 are merged only if their names are the same.
    pub proof fn lemma_names_distinct(self, g: int, h: int)
        requires
            self.decoded(),
            0 <= g < TOTAL_SLOTS,
            0 <= h < TOTAL_SLOTS,
            self.lens[g] > 0,
            self.lens[h] > 0,
            valid_utf8(self.slot_name(g)),
            valid_utf8(self.slot_name(h)),
            utf8_lossy(self.slot_name(g)) == utf8_lossy(self.slot_name(h)),
        ensures
            self.slot_name(g) == self.slot_name(h),
    {
        decode_utf8_encode_utf8(self.slot_name(g));
        decode_utf8_encode_utf8(self.slot_name(h));
    }
}

} // verus!
