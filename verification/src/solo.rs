//! What a launch of a single thread does: it counts one row after the other.

use vstd::prelude::*;
use crate::aggregate::{lemma_cell_equal, lemma_with_reading, Aggregate};
use crate::frame::lemma_global_slot;
use crate::hash::TABLE_SIZE;
use crate::launch::{rows_fit, Job, RowId, NUM_TABLES};
use crate::tables::{global_slot, Store, TOTAL_SLOTS};
use crate::text::{
    complete, lemma_fit_join, lemma_readings_join, readings, text_rows, tidy, Reading,
};

verus! {

impl Store {
    /// The tables with one more row in them: its name in the slot at which the search for it ends, and
    /// its reading in the four values of that slot.
    pub open spec fn tallied(self, table: int, r: Reading) -> Store {
        let g = global_slot(table, self.search_end(table, r.name));
        Store {
            cells: self.cells.update(g, self.cells[g].with_reading(r.temp)),
            ..self.entered(table, r.name)
        }
    }

    /// The tables with all rows of a list in them, one after the other.
    pub open spec fn all_tallied(self, table: int, list: Seq<Reading>) -> Store
        decreases list.len(),
    {
        if list.len() == 0 {
            self
        } else {
            self.all_tallied(table, list.drop_last()).tallied(table, list.last())
        }
    }

    /// Two lists of rows one behind the other.
    pub proof fn lemma_tallied_join(self, table: int, x: Seq<Reading>, y: Seq<Reading>)
        ensures
            self.all_tallied(table, x + y) == self.all_tallied(table, x).all_tallied(table, y),
        decreases y.len(),
    {
        if y.len() == 0 {
            assert(x + y =~= x);
        } else {
            assert((x + y).drop_last() =~= x + y.drop_last());
            assert((x + y).last() == y.last());
            self.lemma_tallied_join(table, x, y.drop_last());
        }
    }
}

impl Job {
    /// The first `i` rows of the first thread.
    spec fn first_rows(self, i: int) -> Seq<RowId> {
        self.thread_rows(0).take(i)
    }

    /// A single thread reads the rows of the text.
    proof fn lemma_solo_rows(self)
        requires
            self.grid == 1,
            self.block == 1,
        ensures
            self.threads() == 1,
            self.rows(0) == text_rows(self.text),
            self.table(0) == 0,
            self.all_rows() == self.thread_rows(0),
            readings(self.text).len() == self.rows(0).len(),
    {
        assert(self.threads() == 1);
        assert(self.chunk() == self.text.len());
        assert(self.window_end(0) == self.text.len());
        assert(self.window_start(0) == 0);
        if self.text.len() == 0 {
            assert(self.rows(0) =~= text_rows(self.text));
        }
        assert(self.rows_before(0) =~= Seq::<RowId>::empty());
        assert(self.rows_before(1) =~= self.thread_rows(0));
    }

    /// What is in the tables when the first `i` rows were counted one after the other.
    proof fn lemma_solo_prefix(self, before: Store, schedule: Seq<usize>, i: int)
        requires
            self.can_start(before),
            self.grid == 1,
            self.block == 1,
            0 <= i <= self.rows(0).len(),
        ensures
            ({
                let place = self.course(before, schedule).h.place;
                let tables = before.all_tallied(0, readings(self.text).take(i));
                let entered = self.entered(before, i);
                &&& tables.lens == entered.lens
                &&& tables.names == entered.names
                &&& tables.cells.len() == TOTAL_SLOTS
                &&& forall|g: int, k: Aggregate|
                    0 <= g < TOTAL_SLOTS ==> #[trigger] tables.cells[g].get(k) == self.gather(
                        k,
                        before.cells[g].get(k),
                        self.first_rows(i).filter(|r: RowId| self.place_of(place, r) == g),
                    )
            }),
        decreases i,
    {
        reveal(Seq::filter);
        let run = self.course(before, schedule);
        let place = run.h.place;
        let list = readings(self.text);
        self.lemma_outcome(before, schedule);
        self.lemma_solo_rows();
        if i == 0 {
            assert(list.take(0) =~= Seq::<Reading>::empty());
            assert(self.first_rows(0) =~= Seq::<RowId>::empty());
        } else {
            let j = i - 1;
            self.lemma_solo_prefix(before, schedule, j);
            let r = RowId { thread: 0, index: j };
            let a = before.all_tallied(0, list.take(j));
            let b = before.all_tallied(0, list.take(i));
            let e = self.entered(before, j);
            let slot = place[0][j];
            let name = self.name(r);
            assert(list.take(i).drop_last() =~= list.take(j));
            assert(list.take(i).last() == list[j]);
            assert(list[j] == Reading { name, temp: self.row(r).temp });
            assert(run.st.workers[0].stage is Done);
            assert(run.worker_ok(0));
            assert(run.solo_place(j));
            assert(e.stops(0, slot, name));
            assert(a.stops(0, slot, name)) by {
                assert forall|x: int| #[trigger] a.taken(0, x, name) == e.taken(0, x, name) by {}
                assert(a.passed(0, slot, name));
            }
            a.lemma_search_end(0, slot, name);
            e.lemma_search_end(0, slot, name);
            lemma_global_slot(0, slot);
            let at = global_slot(0, slot);
            assert(self.has(r));
            self.lemma_name_len(r);
            assert(self.first_rows(i).drop_last() =~= self.first_rows(j));
            assert(self.first_rows(i).last() == r);
            assert forall|g: int, k: Aggregate| 0 <= g < TOTAL_SLOTS implies
                #[trigger] b.cells[g].get(k) == self.gather(
                k,
                before.cells[g].get(k),
                self.first_rows(i).filter(|r: RowId| self.place_of(place, r) == g),
            ) by {
                let p = |r: RowId| self.place_of(place, r) == g;
                let fewer = self.first_rows(j).filter(p);
                assert(a.cells[g].get(k) == self.gather(k, before.cells[g].get(k), fewer));
                if g == at {
                    lemma_with_reading(a.cells[g], self.row(r).temp, k);
                    assert(self.first_rows(i).filter(p) == fewer.push(r));
                    assert(fewer.push(r).drop_last() =~= fewer);
                } else {
                    assert(self.first_rows(i).filter(p) == fewer);
                }
            }
        }
    }

    /// A launch of a single thread counts the rows of the text one after the other, so what it makes
    /// of the tables is determined, to the last byte and whatever the schedule.
    pub proof fn lemma_solo(self, before: Store, schedule: Seq<usize>)
        requires
            self.can_start(before),
            self.grid == 1,
            self.block == 1,
        ensures
            self.outcome(before, schedule) == before.all_tallied(0, readings(self.text)),
    {
        let run = self.course(before, schedule);
        let after = self.outcome(before, schedule);
        let place = run.h.place;
        let list = readings(self.text);
        let n = self.rows(0).len() as int;
        self.lemma_outcome(before, schedule);
        self.lemma_solo_rows();
        self.lemma_solo_prefix(before, schedule, n);
        assert(list.take(n) =~= list);
        assert(self.first_rows(n) =~= self.thread_rows(0));
        let tables = before.all_tallied(0, list);
        assert(run.st.workers[0].stage is Done);
        assert(run.worker_ok(0));
        assert(run.placed_rows() == n);
        assert(run.solo_names());
        assert(after.cells.len() == TOTAL_SLOTS);
        assert forall|g: int| 0 <= g < TOTAL_SLOTS implies after.cells[g] == tables.cells[g] by {
            assert forall|k: Aggregate| #[trigger] after.cells[g].get(k) == tables.cells[g].get(
                k,
            ) by {
                assert(tables.cells[g].get(k) == self.gather(
                    k,
                    before.cells[g].get(k),
                    self.rows_at(place, g),
                ));
            }
            lemma_cell_equal(after.cells[g], tables.cells[g]);
        }
        assert(after.cells =~= tables.cells);
    }
}

impl Job {
    /// What a row of a single thread says.
    proof fn lemma_solo_row(self, r: RowId)
        requires
            self.grid == 1,
            self.block == 1,
            self.has(r),
        ensures
            r.thread == 0,
            0 <= r.index < readings(self.text).len(),
            self.name(r) == readings(self.text)[r.index].name,
    {
        self.lemma_solo_rows();
    }

    /// Tables that have room for the names of two texts have room for those of each, for those of the
    /// second also after the first.
    proof fn lemma_room_join(self, base: Store, both: Job, before: Store, from: int)
        requires
            self.grid == 1 && self.block == 1,
            both.grid == 1 && both.block == 1,
            0 <= from,
            from + readings(self.text).len() <= readings(both.text).len(),
            forall|i: int|
                0 <= i < readings(self.text).len() ==> #[trigger] readings(self.text)[i]
                    == readings(both.text)[from + i],
            forall|table: int, slot: int, name: Seq<u8>|
                0 <= table < NUM_TABLES && 0 <= slot < TABLE_SIZE && #[trigger] base.bears(
                    table,
                    slot,
                    name,
                ) && name.len() > 0 ==> both.uses(before, table, name),
            both.rooms(before),
        ensures
            self.rooms(base),
    {
        self.lemma_solo_rows();
        both.lemma_solo_rows();
        assert forall|table: int, r: RowId, name: Seq<u8>| #[trigger]
            self.row_named(table, r, name) implies exists|q: RowId| both.row_named(
            table,
            q,
            name,
        ) by {
            self.lemma_solo_row(r);
            let q = RowId { thread: 0, index: from + r.index };
            assert(readings(self.text)[r.index] == readings(both.text)[from + r.index]);
            both.lemma_solo_row(q);
            assert(both.row_named(table, q, name));
        }
        assert forall|table: int| 0 <= table < NUM_TABLES implies #[trigger] self.has_room(
            base,
            table,
        ) by {
            assert(both.has_room(before, table));
            assert forall|names: Seq<Seq<u8>>|
                (#[trigger] names.no_duplicates()) && (forall|i: int|
                    0 <= i < names.len() ==> self.uses(base, table, #[trigger] names[i])) implies
                names.len() <= TABLE_SIZE && ((exists|r: RowId|
                self.row_named(table, r, Seq::empty())) ==> names.len() < TABLE_SIZE) by {
                assert forall|i: int| 0 <= i < names.len() implies both.uses(
                    before,
                    table,
                    #[trigger] names[i],
                ) by {
                    assert(self.uses(base, table, names[i]));
                    if exists|r: RowId| self.row_named(table, r, names[i]) {
                        let r = choose|r: RowId| self.row_named(table, r, names[i]);
                        assert(self.row_named(table, r, names[i]));
                    } else {
                        let slot = choose|slot: int|
                            0 <= slot < TABLE_SIZE && base.bears(table, slot, names[i]);
                        assert(base.bears(table, slot, names[i]));
                    }
                }
                if exists|r: RowId| self.row_named(table, r, Seq::empty()) {
                    let r = choose|r: RowId| self.row_named(table, r, Seq::empty());
                    assert(self.row_named(table, r, Seq::empty()));
                }
            }
        }
    }

    proof fn lemma_solo_fits(self)
        requires
            self.grid == 1,
            self.block == 1,
        ensures
            self.fits() <==> self.text.len() == 0 || rows_fit(
                self.text,
                0,
                self.text.len() as int,
            ),
    {
        self.lemma_solo_rows();
        assert(self.chunk() == self.text.len());
        assert(self.window_start(0) == 0);
        assert(self.window_end(0) == self.text.len());
        assert(self.thread_fits(0) <==> self.text.len() == 0 || rows_fit(
            self.text,
            0,
            self.text.len() as int,
        ));
        if self.thread_fits(0) {
            assert forall|t: int| 0 <= t < self.threads() implies #[trigger] self.thread_fits(t) by {
                assert(t == 0);
            }
        }
    }
}

/// Where a single thread can be launched on two texts one behind the other, it can be launched on the
/// first, and then on the second.
pub proof fn lemma_launch_apart(first: Job, second: Job, both: Job, before: Store, one: Seq<usize>)
    requires
        first.grid == 1 && first.block == 1,
        second.grid == 1 && second.block == 1,
        both.grid == 1 && both.block == 1,
        both.text == first.text + second.text,
        tidy(first.text),
        complete(first.text),
        both.can_start(before),
    ensures
        first.can_start(before),
        second.can_start(first.outcome(before, one)),
{
    let a = readings(first.text);
    let b = readings(second.text);
    first.lemma_solo_rows();
    second.lemma_solo_rows();
    both.lemma_solo_rows();
    first.lemma_solo_fits();
    second.lemma_solo_fits();
    both.lemma_solo_fits();
    lemma_readings_join(first.text, second.text);
    if both.text.len() > 0 {
        lemma_fit_join(first.text, second.text);
    }
    assert forall|table: int, slot: int, name: Seq<u8>|
        0 <= table < NUM_TABLES && 0 <= slot < TABLE_SIZE && #[trigger] before.bears(
            table,
            slot,
            name,
        ) && name.len() > 0 implies both.uses(before, table, name) by {}
    assert forall|i: int| 0 <= i < a.len() implies #[trigger] a[i] == readings(both.text)[0 + i] by {}
    first.lemma_room_join(before, both, before, 0);
    assert(first.can_start(before));
    first.lemma_outcome(before, one);
    let after = first.outcome(before, one);
    let place = first.course(before, one).h.place;
    assert forall|table: int, slot: int, name: Seq<u8>|
        0 <= table < NUM_TABLES && 0 <= slot < TABLE_SIZE && #[trigger] after.bears(
            table,
            slot,
            name,
        ) && name.len() > 0 implies both.uses(before, table, name) by {
        let g = global_slot(table, slot);
        lemma_global_slot(table, slot);
        assert(after.lens[g] > 0);
        if before.lens[g] > 0 {
            assert(after.slot_name(g) == before.slot_name(g));
            assert(before.bears(table, slot, name));
        } else {
            let r = choose|r: RowId| first.names_slot(after, place, g, r);
            first.lemma_solo_row(r);
            assert(first.row_placed(after, place, r));
            lemma_global_slot(0, place[r.thread][r.index]);
            let q = RowId { thread: 0, index: r.index };
            assert(a[r.index] == readings(both.text)[r.index]);
            both.lemma_solo_row(q);
            assert(both.row_named(table, q, name));
        }
    }
    assert forall|i: int| 0 <= i < b.len() implies #[trigger] b[i] == readings(both.text)[a.len()
        + i] by {}
    second.lemma_room_join(after, both, before, a.len() as int);
}

/// Launching a single thread on one text and then on another leaves the tables exactly as launching
/// it on both texts, one behind the other, does.
pub proof fn lemma_two_launches(
    first: Job,
    second: Job,
    both: Job,
    before: Store,
    one: Seq<usize>,
    two: Seq<usize>,
    other: Seq<usize>,
)
    requires
        first.grid == 1 && first.block == 1,
        second.grid == 1 && second.block == 1,
        both.grid == 1 && both.block == 1,
        both.text == first.text + second.text,
        tidy(first.text),
        complete(first.text),
        both.can_start(before),
    ensures
        first.can_start(before),
        second.can_start(first.outcome(before, one)),
        second.outcome(first.outcome(before, one), two) == both.outcome(before, other),
{
    lemma_launch_apart(first, second, both, before, one);
    first.lemma_solo(before, one);
    second.lemma_solo(first.outcome(before, one), two);
    both.lemma_solo(before, other);
    lemma_readings_join(first.text, second.text);
    before.lemma_tallied_join(0, readings(first.text), readings(second.text));
}

} // verus!
