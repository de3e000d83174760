//! What the tables hold of each station after a launch: the readings of all rows with its name.

use vstd::prelude::*;
use crate::addition::lemma_join_contains;
use crate::aggregate::{lemma_combine_laws, lemma_wrapped, Aggregate};
use crate::frame::{lemma_global_slot, lemma_split_slot, lemma_table};
use crate::hash::TABLE_SIZE;
use crate::launch::{Job, Row, RowId, NUM_TABLES};
use crate::mean::{exact_mean, lemma_exact_mean_between, lemma_mean_exact, mean};
use crate::outcome::lemma_filter;
use crate::seek::lemma_name_once;
use crate::station::{
    entry_fits, has_name, is_merge, lemma_merge_unique, merge_fits, merged, utf8_lossy, Entry,
};
use crate::tables::{global_slot, Store, TOTAL_SLOTS};
use crate::text::{readings, text_rows, tidy, Reading};

verus! {

impl Store {
    /// No table holds a name twice.
    pub proof fn lemma_names_apart(self, table: int, x: int, y: int, name: Seq<u8>)
        requires
            self.wf(),
            0 <= table < NUM_TABLES,
            0 <= x < TABLE_SIZE,
            0 <= y < TABLE_SIZE,
            self.bears(table, x, name),
            self.bears(table, y, name),
        ensures
            x == y,
    {
        lemma_global_slot(table, x);
        lemma_global_slot(table, y);
        lemma_name_once(self, table, x, y, name);
    }
}

impl Job {
    /// Every row has a name.
    pub open spec fn named(self) -> bool {
        forall|r: RowId| #[trigger] self.has(r) ==> self.name(r).len() > 0
    }

    /// A launch over empty tables that made `after` of them, each row belonging to the slot that
    /// `place` gives.
    pub open spec fn made(self, before: Store, after: Store, place: Seq<Seq<int>>) -> bool {
        &&& self.wf()
        &&& self.fits()
        &&& before.fresh()
        &&& after.wf()
        &&& self.counted(before, after, place)
    }

    /// The rows with a name that the threads of a table read, in order.
    pub open spec fn table_rows(self, table: int, name: Seq<u8>) -> Seq<RowId> {
        self.all_rows().filter(|r: RowId| self.table(r.thread) == table && self.name(r) == name)
    }

    /// The rows that are reported under a name, in order.
    pub open spec fn rows_of(self, name: Seq<char>) -> Seq<RowId> {
        self.all_rows().filter(|r: RowId| utf8_lossy(self.name(r)) == name)
    }

    /// A row belongs to the slot of its table that has its name, and to no other one.
    proof fn lemma_place(self, before: Store, after: Store, place: Seq<Seq<int>>, r: RowId)
        requires
            self.made(before, after, place),
            self.named(),
            self.has(r),
        ensures
            ({
                let g = self.place_of(place, r);
                &&& 0 <= g < TOTAL_SLOTS
                &&& g / TABLE_SIZE as int == self.table(r.thread)
                &&& after.lens[g] > 0
                &&& after.slot_name(g) == self.name(r)
            }),
    {
        assert(self.row_placed(after, place, r));
        lemma_table(self, r.thread);
        lemma_global_slot(self.table(r.thread), place[r.thread][r.index]);
    }

    /// After a launch over empty tables, the values of a slot with a name are those of all rows
    /// with that name that the threads of the table read, each of them once, whatever the order
    /// in which the threads ran.
    pub proof fn lemma_slot_total(
        self,
        before: Store,
        after: Store,
        place: Seq<Seq<int>>,
        g: int,
        k: Aggregate,
    )
        requires
            self.made(before, after, place),
            self.named(),
            0 <= g < TOTAL_SLOTS,
            after.lens[g] > 0,
        ensures
            after.cells[g].get(k) == self.gather(
                k,
                k.identity(),
                self.table_rows(g / TABLE_SIZE as int, after.slot_name(g)),
            ),
    {
        let table = g / TABLE_SIZE as int;
        let name = after.slot_name(g);
        let all = self.all_rows();
        let p = |r: RowId| self.place_of(place, r) == g;
        let q = |r: RowId| self.table(r.thread) == table && self.name(r) == name;
        self.lemma_rows_before(self.threads());
        lemma_filter(all, p);
        lemma_filter(all, q);
        lemma_split_slot(g);
        assert forall|r: RowId| #[trigger] all.filter(p).contains(r) <==> all.filter(q).contains(
            r,
        ) by {
            if all.contains(r) {
                assert(self.has(r));
                self.lemma_place(before, after, place, r);
                let h = self.place_of(place, r);
                lemma_split_slot(h);
                if q(r) {
                    after.lemma_names_apart(
                        table,
                        g % TABLE_SIZE as int,
                        h % TABLE_SIZE as int,
                        name,
                    );
                }
            }
        }
        self.lemma_gather_order(k, k.identity(), all.filter(p), all.filter(q));
        assert(after.cells[g].get(k) == self.gather(
            k,
            before.cells[g].get(k),
            self.rows_at(place, g),
        ));
    }

    /// After a launch over empty tables, a table has a name if and only if a row that its
    /// threads read has it.
    pub proof fn lemma_table_names(
        self,
        before: Store,
        after: Store,
        place: Seq<Seq<int>>,
        table: int,
        name: Seq<u8>,
    )
        requires
            self.made(before, after, place),
            self.named(),
            0 <= table < NUM_TABLES,
        ensures
            (exists|slot: int| 0 <= slot < TABLE_SIZE && #[trigger] after.bears(table, slot, name))
                <==> (exists|r: RowId| #[trigger] self.row_named(table, r, name)),
    {
        if exists|r: RowId| #[trigger] self.row_named(table, r, name) {
            let r = choose|r: RowId| #[trigger] self.row_named(table, r, name);
            assert(self.row_placed(after, place, r));
            assert(after.bears(table, place[r.thread][r.index], name));
        }
        if exists|slot: int| 0 <= slot < TABLE_SIZE && #[trigger] after.bears(table, slot, name) {
            let slot = choose|slot: int|
                0 <= slot < TABLE_SIZE && #[trigger] after.bears(table, slot, name);
            let g = global_slot(table, slot);
            lemma_global_slot(table, slot);
            assert(before.lens[g] == 0);
            assert(after.lens[g] > 0);
            let r = choose|r: RowId| self.names_slot(after, place, g, r);
            self.lemma_place(before, after, place, r);
            assert(self.row_named(table, r, name));
        }
    }
}

/// The names that are reported as `name`.
pub open spec fn reported_as(name: Seq<char>) -> spec_fn(Seq<u8>) -> bool {
    |bytes: Seq<u8>| utf8_lossy(bytes) == name
}

impl Store {
    /// One value of those of the first `n` slots that have one of the names meant, combined.
    pub open spec fn held(self, k: Aggregate, n: int, meant: spec_fn(Seq<u8>) -> bool) -> int
        decreases n,
    {
        if n <= 0 {
            k.identity()
        } else if self.lens[n - 1] > 0 && meant(self.slot_name(n - 1)) {
            k.combine(self.held(k, n - 1, meant), self.cells[n - 1].get(k))
        } else {
            self.held(k, n - 1, meant)
        }
    }
}

/// Two tests that no row passes both let no more rows pass than a test that is passed wherever
/// one of them is.
proof fn lemma_filter_lens(
    rows: Seq<RowId>,
    p: spec_fn(RowId) -> bool,
    q: spec_fn(RowId) -> bool,
    wider: spec_fn(RowId) -> bool,
)
    requires
        forall|r: RowId| !(#[trigger] p(r) && q(r)),
        forall|r: RowId| #[trigger] p(r) ==> wider(r),
        forall|r: RowId| #[trigger] q(r) ==> wider(r),
    ensures
        rows.filter(p).len() + rows.filter(q).len() <= rows.filter(wider).len(),
    decreases rows.len(),
{
    reveal(Seq::filter);
    if rows.len() > 0 {
        lemma_filter_lens(rows.drop_last(), p, q, wider);
        assert(!(p(rows.last()) && q(rows.last())));
    }
}

impl Job {
    /// The readings of the rows that pass one of two tests, which no row passes both, are those
    /// of the rows that pass the first and those of the rows that pass the second, combined.
    proof fn lemma_gather_either(
        self,
        k: Aggregate,
        p: spec_fn(RowId) -> bool,
        q: spec_fn(RowId) -> bool,
        either: spec_fn(RowId) -> bool,
    )
        requires
            self.wf(),
            self.fits(),
            forall|r: RowId| !(#[trigger] p(r) && q(r)),
            forall|r: RowId| self.has(r) ==> (#[trigger] either(r) <==> p(r) || q(r)),
        ensures
            self.gather(k, k.identity(), self.all_rows().filter(either)) == k.combine(
                self.gather(k, k.identity(), self.all_rows().filter(p)),
                self.gather(k, k.identity(), self.all_rows().filter(q)),
            ),
    {
        let all = self.all_rows();
        let x = all.filter(p);
        let y = all.filter(q);
        let z = all.filter(either);
        self.lemma_rows_before(self.threads());
        lemma_filter(all, p);
        lemma_filter(all, q);
        lemma_filter(all, either);
        assert forall|i: int, j: int| 0 <= i < x.len() && 0 <= j < y.len() implies x[i] != y[j] by {
            assert(x.contains(x[i]) && y.contains(y[j]));
        }
        vstd::seq_lib::lemma_no_dup_in_concat(x, y);
        assert forall|r: RowId| #[trigger] (x + y).contains(r) <==> z.contains(r) by {
            lemma_join_contains(x, y, r);
            assert(all.contains(r) <==> self.has(r));
        }
        self.lemma_gather_order(k, k.identity(), x + y, z);
        assert forall|i: int| 0 <= i < x.len() implies self.has(#[trigger] x[i]) by {
            assert(x.contains(x[i]));
        }
        assert forall|i: int| 0 <= i < y.len() implies self.has(#[trigger] y[i]) by {
            assert(y.contains(y[i]));
        }
        self.lemma_gather_join(k, k.identity(), x, y);
    }

    /// The row belongs to one of the first `n` slots, and its name is one of those meant.
    pub open spec fn early(
        self,
        place: Seq<Seq<int>>,
        n: int,
        meant: spec_fn(Seq<u8>) -> bool,
        r: RowId,
    ) -> bool {
        self.place_of(place, r) < n && meant(self.name(r))
    }

    /// What the first `n` slots hold of some names is what their rows with those names add up to.
    proof fn lemma_held_before(
        self,
        before: Store,
        after: Store,
        place: Seq<Seq<int>>,
        n: int,
        meant: spec_fn(Seq<u8>) -> bool,
        k: Aggregate,
    )
        requires
            self.made(before, after, place),
            self.named(),
            0 <= n <= TOTAL_SLOTS,
        ensures
            after.held(k, n, meant) == self.gather(
                k,
                k.identity(),
                self.all_rows().filter(|r: RowId| self.early(place, n, meant, r)),
            ),
        decreases n,
    {
        let all = self.all_rows();
        let either = |r: RowId| self.early(place, n, meant, r);
        self.lemma_rows_before(self.threads());
        if n == 0 {
            lemma_filter(all, either);
            let none = all.filter(either);
            if none.len() > 0 {
                let r = none[0];
                assert(none.contains(r));
                assert(self.has(r));
                self.lemma_place(before, after, place, r);
            }
        } else {
            let g = n - 1;
            let p = |r: RowId| self.early(place, g, meant, r);
            let q = |r: RowId| self.place_of(place, r) == g && meant(self.name(r));
            self.lemma_held_before(before, after, place, g, meant, k);
            assert forall|r: RowId| self.has(r) implies (#[trigger] either(r) <==> p(r) || q(r)) by {}
            assert forall|r: RowId| !(#[trigger] p(r) && q(r)) by {}
            self.lemma_gather_either(k, p, q, either);
            self.lemma_held_slot(before, after, place, g, meant, k);
            let earlier = all.filter(p);
            lemma_filter(all, p);
            assert forall|i: int| 0 <= i < earlier.len() implies self.has(#[trigger] earlier[i]) by {
                assert(earlier.contains(earlier[i]));
            }
            self.lemma_gather_holds(k, k.identity(), earlier);
        }
    }

    /// What a slot adds to some names: its values if it has one of them, and nothing if it has another
    /// one or none.
    proof fn lemma_held_slot(
        self,
        before: Store,
        after: Store,
        place: Seq<Seq<int>>,
        g: int,
        meant: spec_fn(Seq<u8>) -> bool,
        k: Aggregate,
    )
        requires
            self.made(before, after, place),
            self.named(),
            0 <= g < TOTAL_SLOTS,
        ensures
            ({
                let q = |r: RowId| self.place_of(place, r) == g && meant(self.name(r));
                let rows = self.all_rows().filter(q);
                if after.lens[g] > 0 && meant(after.slot_name(g)) {
                    self.gather(k, k.identity(), rows) == after.cells[g].get(k)
                } else {
                    &&& self.gather(k, k.identity(), rows) == k.identity()
                    &&& forall|a: int| k.holds(a) ==> #[trigger] k.combine(a, k.identity()) == a
                }
            }),
    {
        let all = self.all_rows();
        let q = |r: RowId| self.place_of(place, r) == g && meant(self.name(r));
        let p = |r: RowId| self.place_of(place, r) == g;
        let rows = all.filter(q);
        self.lemma_rows_before(self.threads());
        lemma_filter(all, q);
        lemma_filter(all, p);
        if after.lens[g] > 0 && meant(after.slot_name(g)) {
            assert forall|r: RowId| #[trigger] rows.contains(r) <==> all.filter(p).contains(r) by {
                if all.contains(r) {
                    assert(self.has(r));
                    self.lemma_place(before, after, place, r);
                }
            }
            self.lemma_gather_order(k, k.identity(), rows, all.filter(p));
            assert(after.cells[g].get(k) == self.gather(
                k,
                before.cells[g].get(k),
                self.rows_at(place, g),
            ));
        } else {
            if rows.len() > 0 {
                let r = rows[0];
                assert(rows.contains(r));
                assert(self.has(r));
                self.lemma_place(before, after, place, r);
            }
            assert forall|a: int| k.holds(a) implies #[trigger] k.combine(a, k.identity()) == a by {
                lemma_combine_laws(k, a, 0, 0);
            }
        }
    }
}

impl Store {
    /// What the first `n` slots hold of stations is what they hold of the names that are reported as
    /// theirs.
    proof fn lemma_merged_held(self, k: Aggregate, n: int, name: Seq<char>)
        ensures
            merged(k, self.stations_before(n), name) == self.held(k, n, reported_as(name)),
        decreases n,
    {
        if n > 0 {
            self.lemma_merged_held(k, n - 1, name);
            let list = self.stations_before(n);
            if self.lens[n - 1] > 0 {
                assert(list.drop_last() =~= self.stations_before(n - 1));
            }
        }
    }

    /// A station of the first `n` slots comes from one of them, and the stations before it come
    /// from the slots before that one.
    proof fn lemma_station_slot(self, n: int, i: int) -> (g: int)
        requires
            0 <= i < self.stations_before(n).len(),
        ensures
            0 <= g < n,
            self.lens[g] > 0,
            self.stations_before(n)[i] == (Entry {
                name: utf8_lossy(self.slot_name(g)),
                cell: self.cells[g],
            }),
            self.stations_before(n).take(i) == self.stations_before(g),
        decreases n,
    {
        let list = self.stations_before(n);
        let rest = self.stations_before(n - 1);
        if self.lens[n - 1] > 0 && i == list.len() - 1 {
            assert(list.take(i) =~= rest);
            n - 1
        } else {
            if self.lens[n - 1] > 0 {
                assert(list[i] == rest[i]);
                assert(list.take(i) =~= rest.take(i));
            }
            self.lemma_station_slot(n - 1, i)
        }
    }

    /// A slot with a name is one of the stations.
    proof fn lemma_slot_station(self, n: int, g: int)
        requires
            0 <= g < n,
            self.lens[g] > 0,
        ensures
            has_name(self.stations_before(n), utf8_lossy(self.slot_name(g))),
        decreases n,
    {
        let list = self.stations_before(n);
        let name = utf8_lossy(self.slot_name(g));
        if g == n - 1 {
            assert(list[list.len() - 1].name == name);
        } else {
            self.lemma_slot_station(n - 1, g);
            let rest = self.stations_before(n - 1);
            let i = choose|i: int| 0 <= i < rest.len() && (#[trigger] rest[i]).name == name;
            assert(list[i].name == name);
        }
    }
}

impl Job {
    /// The readings of all rows that are reported under a name are what the tables hold of it,
    /// all tables together.
    pub proof fn lemma_merged_total(
        self,
        before: Store,
        after: Store,
        place: Seq<Seq<int>>,
        name: Seq<char>,
        k: Aggregate,
    )
        requires
            self.made(before, after, place),
            self.named(),
        ensures
            merged(k, after.stations(), name) == self.gather(k, k.identity(), self.rows_of(name)),
    {
        let all = self.all_rows();
        let n = TOTAL_SLOTS as int;
        let meant = reported_as(name);
        let p = |r: RowId| self.early(place, n, meant, r);
        let q = |r: RowId| utf8_lossy(self.name(r)) == name;
        after.lemma_merged_held(k, n, name);
        self.lemma_held_before(before, after, place, n, meant, k);
        self.lemma_rows_before(self.threads());
        lemma_filter(all, p);
        lemma_filter(all, q);
        assert forall|r: RowId| #[trigger] all.filter(p).contains(r) <==> all.filter(q).contains(
            r,
        ) by {
            if all.contains(r) {
                assert(self.has(r));
                self.lemma_place(before, after, place, r);
            }
        }
        self.lemma_gather_order(k, k.identity(), all.filter(p), all.filter(q));
    }

    /// The tables have a name to report if and only if a row is reported under it.
    pub proof fn lemma_names_reported(
        self,
        before: Store,
        after: Store,
        place: Seq<Seq<int>>,
        name: Seq<char>,
    )
        requires
            self.made(before, after, place),
            self.named(),
        ensures
            has_name(after.stations(), name) <==> self.rows_of(name).len() > 0,
    {
        let list = after.stations();
        let all = self.all_rows();
        let rows = self.rows_of(name);
        self.lemma_rows_before(self.threads());
        lemma_filter(all, |r: RowId| utf8_lossy(self.name(r)) == name);
        if has_name(list, name) {
            let i = choose|i: int| 0 <= i < list.len() && (#[trigger] list[i]).name == name;
            let g = after.lemma_station_slot(TOTAL_SLOTS as int, i);
            assert(before.lens[g] == 0);
            let r = choose|r: RowId| self.names_slot(after, place, g, r);
            assert(all.contains(r));
            assert(rows.contains(r));
        }
        if rows.len() > 0 {
            let r = rows[0];
            assert(rows.contains(r));
            assert(self.has(r));
            self.lemma_place(before, after, place, r);
            after.lemma_slot_station(TOTAL_SLOTS as int, self.place_of(place, r));
        }
    }

    /// Whatever the order in which the threads ran, the stations that are reported of a launch
    /// over empty tables are the same, and so are their values.
    pub proof fn lemma_same_report(
        self,
        before: Store,
        after: Store,
        place: Seq<Seq<int>>,
        result: Seq<Entry>,
        other_before: Store,
        other_after: Store,
        other_place: Seq<Seq<int>>,
        other_result: Seq<Entry>,
    )
        requires
            self.named(),
            self.made(before, after, place),
            is_merge(after.stations(), result),
            self.made(other_before, other_after, other_place),
            is_merge(other_after.stations(), other_result),
        ensures
            result == other_result,
    {
        let x = after.stations();
        let y = other_after.stations();
        assert forall|name: Seq<char>| #[trigger] has_name(x, name) <==> has_name(y, name) by {
            self.lemma_names_reported(before, after, place, name);
            self.lemma_names_reported(other_before, other_after, other_place, name);
        }
        assert forall|k: Aggregate, name: Seq<char>| #[trigger] merged(k, x, name) == merged(
            k,
            y,
            name,
        ) by {
            self.lemma_merged_total(before, after, place, name, k);
            self.lemma_merged_total(other_before, other_after, other_place, name, k);
        }
        lemma_merge_unique(x, y, result, other_result);
    }

    /// The sum of the readings of rows.
    pub open spec fn sum_of(self, rows: Seq<RowId>) -> int
        decreases rows.len(),
    {
        if rows.len() == 0 {
            0
        } else {
            self.sum_of(rows.drop_last()) + self.row(rows.last()).temp
        }
    }

    /// With fewer rows than an `i32` can count, no sum and no count wraps around.
    proof fn lemma_gather_exact(self, rows: Seq<RowId>)
        requires
            self.wf(),
            self.fits(),
            forall|i: int| 0 <= i < rows.len() ==> self.has(#[trigger] rows[i]),
            rows.len() <= i32::MAX,
        ensures
            self.gather(Aggregate::Count, 0, rows) == rows.len(),
            self.gather(Aggregate::Sum, 0, rows) == self.sum_of(rows),
            -i16::MAX * rows.len() <= self.sum_of(rows) <= i16::MAX * rows.len(),
        decreases rows.len(),
    {
        if rows.len() > 0 {
            let rest = rows.drop_last();
            self.lemma_gather_exact(rest);
            assert(rows.last() == rows[rows.len() - 1]);
            self.lemma_name_len(rows.last());
            lemma_wrapped(rest.len() as int + 1, 0x8000_0000);
            lemma_wrapped(self.sum_of(rest) + self.row(rows.last()).temp, 0x8000_0000_0000_0000);
        }
    }

    /// The lowest and the highest of some readings are readings, and none is beyond them.
    proof fn lemma_gather_extremes(self, rows: Seq<RowId>, i: int)
        requires
            self.wf(),
            self.fits(),
            forall|j: int| 0 <= j < rows.len() ==> self.has(#[trigger] rows[j]),
            0 <= i < rows.len(),
        ensures
            self.gather(Aggregate::Min, i32::MAX as int, rows) <= self.row(rows[i]).temp,
            self.row(rows[i]).temp <= self.gather(Aggregate::Max, i32::MIN as int, rows),
            exists|j: int|
                0 <= j < rows.len() && self.row(#[trigger] rows[j]).temp == self.gather(
                    Aggregate::Min,
                    i32::MAX as int,
                    rows,
                ),
            exists|j: int|
                0 <= j < rows.len() && self.row(#[trigger] rows[j]).temp == self.gather(
                    Aggregate::Max,
                    i32::MIN as int,
                    rows,
                ),
        decreases rows.len(),
    {
        let last = rows.len() - 1;
        let rest = rows.drop_last();
        let low = self.gather(Aggregate::Min, i32::MAX as int, rest);
        let high = self.gather(Aggregate::Max, i32::MIN as int, rest);
        self.lemma_name_len(rows[last]);
        assert(rows.last() == rows[last]);
        if last > 0 {
            self.lemma_gather_extremes(rest, if i < last {
                i
            } else {
                0
            });
            let a = choose|j: int| 0 <= j < rest.len() && self.row(#[trigger] rest[j]).temp == low;
            let b = choose|j: int| 0 <= j < rest.len() && self.row(#[trigger] rest[j]).temp == high;
            assert(rows[a] == rest[a]);
            assert(rows[b] == rest[b]);
        } else {
            assert(i == last);
        }
    }
}

impl Job {
    /// No name has more rows than an `i32` can count.
    pub open spec fn countable(self) -> bool {
        forall|name: Seq<char>| (#[trigger] self.rows_of(name)).len() <= i32::MAX
    }

    /// Where no name has more rows than an `i32` can count, the tables can be merged: there is a
    /// report.
    pub proof fn lemma_report_fits(self, before: Store, after: Store, place: Seq<Seq<int>>)
        requires
            self.made(before, after, place),
            self.named(),
            self.countable(),
        ensures
            merge_fits(after.stations()),
    {
        let list = after.stations();
        let all = self.all_rows();
        self.lemma_rows_before(self.threads());
        assert forall|i: int| 0 <= i < list.len() implies #[trigger] entry_fits(list, i) by {
            let g = after.lemma_station_slot(TOTAL_SLOTS as int, i);
            let name = list[i].name;
            let meant = reported_as(name);
            let p = |r: RowId| self.early(place, g, meant, r);
            let q = |r: RowId| self.place_of(place, r) == g && meant(self.name(r));
            after.lemma_merged_held(Aggregate::Sum, g, name);
            after.lemma_merged_held(Aggregate::Count, g, name);
            self.lemma_held_before(before, after, place, g, meant, Aggregate::Sum);
            self.lemma_held_before(before, after, place, g, meant, Aggregate::Count);
            self.lemma_held_slot(before, after, place, g, meant, Aggregate::Sum);
            self.lemma_held_slot(before, after, place, g, meant, Aggregate::Count);
            assert forall|r: RowId| !(#[trigger] p(r) && q(r)) by {}
            let wider = |r: RowId| utf8_lossy(self.name(r)) == name;
            lemma_filter_lens(all, p, q, wider);
            assert(self.rows_of(name).len() <= i32::MAX);
            self.lemma_rows_exact(p);
            self.lemma_rows_exact(q);
        }
    }

    /// Rows that pass a test, and that an `i32` can count, are counted and summed up without
    /// wrapping around.
    proof fn lemma_rows_exact(self, p: spec_fn(RowId) -> bool)
        requires
            self.wf(),
            self.fits(),
            self.all_rows().filter(p).len() <= i32::MAX,
        ensures
            ({
                let rows = self.all_rows().filter(p);
                &&& forall|i: int| 0 <= i < rows.len() ==> self.has(#[trigger] rows[i])
                &&& self.gather(Aggregate::Count, 0, rows) == rows.len()
                &&& self.gather(Aggregate::Sum, 0, rows) == self.sum_of(rows)
                &&& -i16::MAX * rows.len() <= self.sum_of(rows) <= i16::MAX * rows.len()
            }),
    {
        let all = self.all_rows();
        let rows = all.filter(p);
        self.lemma_rows_before(self.threads());
        lemma_filter(all, p);
        assert forall|i: int| 0 <= i < rows.len() implies self.has(#[trigger] rows[i]) by {
            assert(rows.contains(rows[i]));
        }
        self.lemma_gather_exact(rows);
    }

    /// `v` is the reading of one of the rows, and no row has a lower one.
    pub open spec fn lowest(self, rows: Seq<RowId>, v: int) -> bool {
        &&& forall|i: int| 0 <= i < rows.len() ==> v <= self.row(#[trigger] rows[i]).temp
        &&& exists|i: int| 0 <= i < rows.len() && self.row(#[trigger] rows[i]).temp == v
    }

    /// `v` is the reading of one of the rows, and no row has a higher one.
    pub open spec fn highest(self, rows: Seq<RowId>, v: int) -> bool {
        &&& forall|i: int| 0 <= i < rows.len() ==> self.row(#[trigger] rows[i]).temp <= v
        &&& exists|i: int| 0 <= i < rows.len() && self.row(#[trigger] rows[i]).temp == v
    }

    /// What is reported of a station is what the rows with its name say: their number, the sum
    /// of their readings, the lowest and the highest one.
    pub open spec fn sums_up(self, e: Entry) -> bool {
        let rows = self.rows_of(e.name);
        &&& e.cell.cnt == rows.len()
        &&& e.cell.sum == self.sum_of(rows)
        &&& self.lowest(rows, e.cell.min as int)
        &&& self.highest(rows, e.cell.max as int)
    }

    /// The report on a launch over empty tables is what it is meant to be: it names exactly the
    /// stations of the rows that were read, and of each the minimum, the mean and the maximum of
    /// its readings, the mean to the nearest tenth.
    pub proof fn lemma_report(
        self,
        before: Store,
        after: Store,
        place: Seq<Seq<int>>,
        result: Seq<Entry>,
    )
        requires
            self.made(before, after, place),
            self.named(),
            self.countable(),
            is_merge(after.stations(), result),
        ensures
            forall|name: Seq<char>| #[trigger]
                has_name(result, name) <==> self.rows_of(name).len() > 0,
            forall|i: int|
                0 <= i < result.len() ==> self.sums_up(#[trigger] result[i]) && mean(
                    result[i].cell.sum as int,
                    result[i].cell.cnt as int,
                ) == exact_mean(result[i].cell.sum as int, result[i].cell.cnt as int),
    {
        let list = after.stations();
        assert forall|name: Seq<char>| #[trigger] has_name(result, name) <==> self.rows_of(
            name,
        ).len() > 0 by {
            self.lemma_names_reported(before, after, place, name);
        }
        assert forall|i: int| 0 <= i < result.len() implies self.sums_up(#[trigger] result[i])
            && mean(result[i].cell.sum as int, result[i].cell.cnt as int) == exact_mean(
            result[i].cell.sum as int,
            result[i].cell.cnt as int,
        ) by {
            assert(has_name(result, result[i].name));
            self.lemma_entry(before, after, place, result, i);
        }
    }

    proof fn lemma_entry(
        self,
        before: Store,
        after: Store,
        place: Seq<Seq<int>>,
        result: Seq<Entry>,
        i: int,
    )
        requires
            self.made(before, after, place),
            self.named(),
            self.countable(),
            is_merge(after.stations(), result),
            0 <= i < result.len(),
            self.rows_of(result[i].name).len() > 0,
        ensures
            self.sums_up(result[i]),
            mean(result[i].cell.sum as int, result[i].cell.cnt as int) == exact_mean(
                result[i].cell.sum as int,
                result[i].cell.cnt as int,
            ),
    {
        let e = result[i];
        let rows = self.rows_of(e.name);
        assert(self.value_of(e, Aggregate::Sum)) by {
            assert(result[i].cell.get(Aggregate::Sum) == merged(
                Aggregate::Sum,
                after.stations(),
                e.name,
            ));
            self.lemma_merged_total(before, after, place, e.name, Aggregate::Sum);
        }
        assert(self.value_of(e, Aggregate::Count)) by {
            assert(result[i].cell.get(Aggregate::Count) == merged(
                Aggregate::Count,
                after.stations(),
                e.name,
            ));
            self.lemma_merged_total(before, after, place, e.name, Aggregate::Count);
        }
        assert(self.value_of(e, Aggregate::Min)) by {
            assert(result[i].cell.get(Aggregate::Min) == merged(
                Aggregate::Min,
                after.stations(),
                e.name,
            ));
            self.lemma_merged_total(before, after, place, e.name, Aggregate::Min);
        }
        assert(self.value_of(e, Aggregate::Max)) by {
            assert(result[i].cell.get(Aggregate::Max) == merged(
                Aggregate::Max,
                after.stations(),
                e.name,
            ));
            self.lemma_merged_total(before, after, place, e.name, Aggregate::Max);
        }
        self.lemma_values(e);
    }

    /// One value of a station is that of all rows with its name.
    spec fn value_of(self, e: Entry, k: Aggregate) -> bool {
        e.cell.get(k) == self.gather(k, k.identity(), self.rows_of(e.name))
    }

    proof fn lemma_values(self, e: Entry)
        requires
            self.wf(),
            self.fits(),
            self.countable(),
            self.rows_of(e.name).len() > 0,
            self.value_of(e, Aggregate::Sum),
            self.value_of(e, Aggregate::Count),
            self.value_of(e, Aggregate::Min),
            self.value_of(e, Aggregate::Max),
        ensures
            self.sums_up(e),
            mean(e.cell.sum as int, e.cell.cnt as int) == exact_mean(
                e.cell.sum as int,
                e.cell.cnt as int,
            ),
    {
        let rows = self.rows_of(e.name);
        let n = rows.len() as int;
        let low = e.cell.min as int;
        let high = e.cell.max as int;
        assert(rows.len() <= i32::MAX);
        self.lemma_rows_exact(|r: RowId| utf8_lossy(self.name(r)) == e.name);
        assert(self.lowest(rows, low) && self.highest(rows, high)) by {
            self.lemma_gather_extremes(rows, 0);
            assert forall|j: int| 0 <= j < rows.len() implies low <= self.row(
                #[trigger] rows[j],
            ).temp <= high by {
                self.lemma_gather_extremes(rows, j);
            }
        }
        self.lemma_sum_between(rows, low, high);
        lemma_mean_exact(e.cell.sum as int, n);
        lemma_exact_mean_between(e.cell.sum as int, n, low, high);
    }

    proof fn lemma_sum_between(self, rows: Seq<RowId>, low: int, high: int)
        requires
            forall|j: int|
                0 <= j < rows.len() ==> low <= self.row(#[trigger] rows[j]).temp <= high,
        ensures
            low * rows.len() <= self.sum_of(rows) <= high * rows.len(),
        decreases rows.len(),
    {
        if rows.len() > 0 {
            let rest = rows.drop_last();
            self.lemma_sum_between(rest, low, high);
            let n = rest.len() as int;
            assert(rows.last() == rows[rows.len() - 1]);
            assert(low * (n + 1) == low * n + low) by (nonlinear_arith);
            assert(high * (n + 1) == high * n + high) by (nonlinear_arith);
        }
    }
}

impl Job {
    /// Empty tables have room for the rows if their names are among no more than there are slots in
    /// a table, or, where some row has no name, among fewer.
    pub proof fn lemma_room(self, base: Store, known: Seq<Seq<u8>>)
        requires
            base.fresh(),
            known.len() <= TABLE_SIZE,
            known.len() < TABLE_SIZE || self.named(),
            forall|r: RowId| #[trigger] self.has(r) ==> known.contains(self.name(r)),
        ensures
            self.rooms(base),
    {
        assert forall|table: int| 0 <= table < NUM_TABLES implies #[trigger] self.has_room(
            base,
            table,
        ) by {
            assert forall|names: Seq<Seq<u8>>|
                (#[trigger] names.no_duplicates()) && (forall|i: int|
                    0 <= i < names.len() ==> self.uses(base, table, #[trigger] names[i])) implies
                names.len() <= TABLE_SIZE && ((exists|r: RowId|
                self.row_named(table, r, Seq::empty())) ==> names.len() < TABLE_SIZE) by {
                if exists|r: RowId| self.row_named(table, r, Seq::empty()) {
                    let r = choose|r: RowId| self.row_named(table, r, Seq::empty());
                    assert(self.has(r) && self.name(r).len() == 0);
                }
                assert forall|i: int| 0 <= i < names.len() implies known.contains(
                    #[trigger] names[i],
                ) by {
                    assert(self.uses(base, table, names[i]));
                    if exists|slot: int|
                        0 <= slot < TABLE_SIZE && base.bears(table, slot, names[i]) {
                        let slot = choose|slot: int|
                            0 <= slot < TABLE_SIZE && base.bears(table, slot, names[i]);
                        lemma_global_slot(table, slot);
                    }
                }
                assert(names.to_set().subset_of(known.to_set()));
                names.unique_seq_to_set();
                known.lemma_cardinality_of_set();
                vstd::set_lib::lemma_len_subset(names.to_set(), known.to_set());
            }
        }
    }
}

/// Testing rows before or after they are looked up comes to the same.
proof fn lemma_filter_map<A>(
    ids: Seq<RowId>,
    f: spec_fn(RowId) -> A,
    p: spec_fn(RowId) -> bool,
    q: spec_fn(A) -> bool,
)
    requires
        forall|r: RowId| #[trigger] p(r) == q(f(r)),
    ensures
        ids.filter(p).map_values(f) == ids.map_values(f).filter(q),
    decreases ids.len(),
{
    reveal(Seq::filter);
    if ids.len() > 0 {
        let rest = ids.drop_last();
        lemma_filter_map(rest, f, p, q);
        assert(ids.map_values(f).drop_last() =~= rest.map_values(f));
        assert(p(ids.last()) == q(f(ids.last())));
        assert(ids.filter(p).map_values(f) =~= ids.map_values(f).filter(q));
    } else {
        assert(ids.filter(p).map_values(f) =~= ids.map_values(f).filter(q));
    }
}

impl Job {
    /// The rows that are reported under a name are all rows of a tidy text that have it.
    pub proof fn lemma_rows_of_text(self, name: Seq<char>)
        requires
            self.wf(),
            tidy(self.text),
        ensures
            self.rows_of(name).map_values(|r: RowId| self.row(r)) == text_rows(self.text).filter(
                |row: Row| utf8_lossy(row.name(self.text)) == name,
            ),
    {
        let f = |r: RowId| self.row(r);
        let p = |r: RowId| utf8_lossy(self.name(r)) == name;
        let q = |row: Row| utf8_lossy(row.name(self.text)) == name;
        lemma_filter_map(self.all_rows(), f, p, q);
        self.lemma_all_rows();
    }
}

/// What one reading makes of a value of the station with the name.
pub open spec fn counting(k: Aggregate, name: Seq<char>) -> spec_fn(int, Reading) -> int {
    |v: int, r: Reading|
        if utf8_lossy(r.name) == name {
            k.combine(v, k.of_reading(r.temp))
        } else {
            v
        }
}

impl Job {
    /// What a row of the launch says.
    pub open spec fn reading(self, r: RowId) -> Reading {
        Reading { name: self.name(r), temp: self.row(r).temp }
    }

    proof fn lemma_gather_readings(self, ids: Seq<RowId>, k: Aggregate, a: int, name: Seq<char>)
        ensures
            self.gather(k, a, ids.filter(|r: RowId| utf8_lossy(self.name(r)) == name))
                == ids.map_values(|r: RowId| self.reading(r)).fold_left(a, counting(k, name)),
        decreases ids.len(),
    {
        reveal(Seq::filter);
        if ids.len() > 0 {
            let rest = ids.drop_last();
            let f = |r: RowId| self.reading(r);
            self.lemma_gather_readings(rest, k, a, name);
            assert(ids.map_values(f).drop_last() =~= rest.map_values(f));
            let p = |r: RowId| utf8_lossy(self.name(r)) == name;
            if p(ids.last()) {
                assert(rest.filter(p).push(ids.last()).drop_last() =~= rest.filter(p));
            }
        }
    }

    /// The rows that are read say what the rows of the text say.
    pub proof fn lemma_readings_read(self)
        requires
            self.wf(),
            tidy(self.text),
        ensures
            self.all_rows().map_values(|r: RowId| self.reading(r)) == readings(self.text),
    {
        self.lemma_all_rows();
        let ids = self.all_rows();
        let rows = ids.map_values(|r: RowId| self.row(r));
        assert(ids.map_values(|r: RowId| self.reading(r)) =~= rows.map_values(
            |row: Row| row.reading(self.text),
        ));
    }

    /// After a launch over empty tables, what the tables hold of a name, all tables together, are the
    /// readings of all rows of the text that have it, whatever the launch.
    pub proof fn lemma_text_total(
        self,
        before: Store,
        after: Store,
        place: Seq<Seq<int>>,
        name: Seq<char>,
        k: Aggregate,
    )
        requires
            self.made(before, after, place),
            self.named(),
            tidy(self.text),
        ensures
            merged(k, after.stations(), name) == readings(self.text).fold_left(
                k.identity(),
                counting(k, name),
            ),
    {
        self.lemma_merged_total(before, after, place, name, k);
        self.lemma_gather_readings(self.all_rows(), k, k.identity(), name);
        self.lemma_readings_read();
    }

    /// A name is reported if and only if a row of the text has it.
    pub proof fn lemma_text_names(
        self,
        before: Store,
        after: Store,
        place: Seq<Seq<int>>,
        name: Seq<char>,
    )
        requires
            self.made(before, after, place),
            self.named(),
            tidy(self.text),
        ensures
            has_name(after.stations(), name) <==> exists|r: Reading| #[trigger]
                readings(self.text).contains(r) && utf8_lossy(r.name) == name,
    {
        let all = self.all_rows();
        let list = readings(self.text);
        let rows = self.rows_of(name);
        self.lemma_names_reported(before, after, place, name);
        self.lemma_rows_before(self.threads());
        self.lemma_readings_read();
        lemma_filter(all, |r: RowId| utf8_lossy(self.name(r)) == name);
        let said = all.map_values(|r: RowId| self.reading(r));
        if rows.len() > 0 {
            let r = rows[0];
            assert(rows.contains(r));
            let i = choose|i: int| 0 <= i < all.len() && all[i] == r;
            assert(said[i] == self.reading(r));
            assert(list.contains(self.reading(r)));
        }
        if exists|r: Reading| #[trigger] list.contains(r) && utf8_lossy(r.name) == name {
            let r = choose|r: Reading| #[trigger] list.contains(r) && utf8_lossy(r.name) == name;
            let i = choose|i: int| 0 <= i < list.len() && list[i] == r;
            assert(said[i] == self.reading(all[i]));
            assert(all.contains(all[i]));
            assert(rows.contains(all[i]));
        }
    }

    /// Two texts with the same rows in another order give the same report, whatever the launches: each
    /// name has the same four values.
    pub proof fn lemma_lines_any_order(
        self,
        before: Store,
        after: Store,
        place: Seq<Seq<int>>,
        result: Seq<Entry>,
        other: Job,
        other_before: Store,
        other_after: Store,
        other_place: Seq<Seq<int>>,
        other_result: Seq<Entry>,
    )
        requires
            self.made(before, after, place),
            self.named(),
            tidy(self.text),
            is_merge(after.stations(), result),
            other.made(other_before, other_after, other_place),
            other.named(),
            tidy(other.text),
            is_merge(other_after.stations(), other_result),
            readings(self.text).to_multiset() == readings(other.text).to_multiset(),
        ensures
            forall|k: Aggregate, name: Seq<char>| #[trigger]
                merged(k, after.stations(), name) == merged(k, other_after.stations(), name),
            result == other_result,
    {
        broadcast use vstd::seq_lib::group_to_multiset_ensures;

        let x = readings(self.text);
        let y = readings(other.text);
        let a = after.stations();
        let b = other_after.stations();
        assert forall|k: Aggregate, name: Seq<char>| #[trigger] merged(k, a, name) == merged(
            k,
            b,
            name,
        ) by {
            let f = counting(k, name);
            assert forall|p: Reading, q: Reading, v: int| #[trigger] f(f(v, p), q) == f(
                f(v, q),
                p,
            ) by {
                lemma_combine_laws(k, v, k.of_reading(p.temp), k.of_reading(q.temp));
            }
            vstd::seq_lib::lemma_fold_left_permutation(x, y, f, k.identity());
            self.lemma_text_total(before, after, place, name, k);
            other.lemma_text_total(other_before, other_after, other_place, name, k);
        }
        assert forall|name: Seq<char>| #[trigger] has_name(a, name) <==> has_name(b, name) by {
            self.lemma_text_names(before, after, place, name);
            other.lemma_text_names(other_before, other_after, other_place, name);
            assert forall|r: Reading|
                #![trigger x.contains(r)]
                #![trigger y.contains(r)]
                x.contains(r) <==> y.contains(r) by {
                assert(x.contains(r) <==> x.to_multiset().count(r) > 0);
                assert(y.contains(r) <==> y.to_multiset().count(r) > 0);
            }
        }
        lemma_merge_unique(a, b, result, other_result);
    }
}

/// What one reading makes of a value of the name.
pub open spec fn counting_name(k: Aggregate, name: Seq<u8>) -> spec_fn(int, Reading) -> int {
    |v: int, r: Reading|
        if r.name == name {
            k.combine(v, k.of_reading(r.temp))
        } else {
            v
        }
}

impl Job {
    proof fn lemma_gather_name(self, ids: Seq<RowId>, k: Aggregate, a: int, name: Seq<u8>)
        ensures
            self.gather(k, a, ids.filter(|r: RowId| self.name(r) == name)) == ids.map_values(
                |r: RowId| self.reading(r),
            ).fold_left(a, counting_name(k, name)),
        decreases ids.len(),
    {
        reveal(Seq::filter);
        if ids.len() > 0 {
            let rest = ids.drop_last();
            let f = |r: RowId| self.reading(r);
            self.lemma_gather_name(rest, k, a, name);
            assert(ids.map_values(f).drop_last() =~= rest.map_values(f));
            let p = |r: RowId| self.name(r) == name;
            if p(ids.last()) {
                assert(rest.filter(p).push(ids.last()).drop_last() =~= rest.filter(p));
            }
        }
    }

    /// After a launch over empty tables, the slots that have a name, in all tables, hold together the
    /// readings of all rows of the text with that name: no row is lost, and none is counted twice.
    pub proof fn lemma_name_total(
        self,
        before: Store,
        after: Store,
        place: Seq<Seq<int>>,
        name: Seq<u8>,
        k: Aggregate,
    )
        requires
            self.made(before, after, place),
            self.named(),
            tidy(self.text),
        ensures
            after.held(k, TOTAL_SLOTS as int, |bytes: Seq<u8>| bytes == name) == readings(
                self.text,
            ).fold_left(k.identity(), counting_name(k, name)),
    {
        let all = self.all_rows();
        let n = TOTAL_SLOTS as int;
        let meant = |bytes: Seq<u8>| bytes == name;
        let p = |r: RowId| self.early(place, n, meant, r);
        let q = |r: RowId| self.name(r) == name;
        self.lemma_held_before(before, after, place, n, meant, k);
        self.lemma_rows_before(self.threads());
        lemma_filter(all, p);
        lemma_filter(all, q);
        assert forall|r: RowId| #[trigger] all.filter(p).contains(r) <==> all.filter(q).contains(
            r,
        ) by {
            if all.contains(r) {
                assert(self.has(r));
                self.lemma_place(before, after, place, r);
            }
        }
        self.lemma_gather_order(k, k.identity(), all.filter(p), all.filter(q));
        self.lemma_gather_name(all, k, k.identity(), name);
        self.lemma_readings_read();
    }
}

impl Job {
    /// The rows with a name, in order.
    pub open spec fn rows_named(self, name: Seq<u8>) -> Seq<RowId> {
        self.all_rows().filter(|r: RowId| self.name(r) == name)
    }

    /// Where an `i32` can count the rows of a name, the slots that have it hold together their number,
    /// the sum of their readings, the lowest and the highest one.
    pub proof fn lemma_name_values(
        self,
        before: Store,
        after: Store,
        place: Seq<Seq<int>>,
        name: Seq<u8>,
    )
        requires
            self.made(before, after, place),
            self.named(),
            tidy(self.text),
            0 < self.rows_named(name).len() <= i32::MAX,
        ensures
            ({
                let rows = self.rows_named(name);
                let n = TOTAL_SLOTS as int;
                let meant = |bytes: Seq<u8>| bytes == name;
                &&& rows.map_values(|r: RowId| self.reading(r)) == readings(self.text).filter(
                    |r: Reading| r.name == name,
                )
                &&& after.held(Aggregate::Count, n, meant) == rows.len()
                &&& after.held(Aggregate::Sum, n, meant) == self.sum_of(rows)
                &&& self.lowest(rows, after.held(Aggregate::Min, n, meant))
                &&& self.highest(rows, after.held(Aggregate::Max, n, meant))
            }),
    {
        let rows = self.rows_named(name);
        let all = self.all_rows();
        let n = TOTAL_SLOTS as int;
        let meant = |bytes: Seq<u8>| bytes == name;
        assert forall|k: Aggregate| #[trigger] after.held(k, n, meant) == self.gather(
            k,
            k.identity(),
            rows,
        ) by {
            self.lemma_name_total(before, after, place, name, k);
            self.lemma_gather_name(all, k, k.identity(), name);
            self.lemma_readings_read();
        }
        self.lemma_rows_exact(|r: RowId| self.name(r) == name);
        assert(self.lowest(rows, after.held(Aggregate::Min, n, meant)) && self.highest(
            rows,
            after.held(Aggregate::Max, n, meant),
        )) by {
            self.lemma_gather_extremes(rows, 0);
            assert forall|j: int| 0 <= j < rows.len() implies after.held(Aggregate::Min, n, meant)
                <= self.row(#[trigger] rows[j]).temp <= after.held(Aggregate::Max, n, meant) by {
                self.lemma_gather_extremes(rows, j);
            }
        }
        self.lemma_readings_read();
        lemma_filter_map(
            all,
            |r: RowId| self.reading(r),
            |r: RowId| self.name(r) == name,
            |r: Reading| r.name == name,
        );
    }
}

} // verus!
