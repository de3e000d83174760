//! What a launch leaves of a slot: one that no row belongs to stays as it is, and the values of the
//! others go on fitting together.

use vstd::prelude::*;
use crate::aggregate::{lemma_cell_equal, lemma_wrapped, Aggregate, Cell};
use crate::frame::{lemma_blocks, lemma_global_slot, lemma_split_slot, lemma_table};
use crate::hash::TABLE_SIZE;
use crate::launch::{Job, RowId, NUM_TABLES};
use crate::outcome::lemma_filter;
use crate::parse::NAME_MAX;
use crate::tables::{global_slot, Store, TOTAL_SLOTS};

verus! {

/// The arrays hold the same of a slot.
pub open spec fn same_slot(a: Store, b: Store, g: int) -> bool {
    &&& a.lens[g] == b.lens[g]
    &&& a.cells[g] == b.cells[g]
    &&& forall|i: int|
        g * NAME_MAX <= i < g * NAME_MAX + NAME_MAX ==> #[trigger] a.names[i] == b.names[i]
}

/// Values that readings can have: there is at least one, and its sum lies between what it would be if
/// all were the lowest and what it would be if all were the highest.
pub open spec fn fit_together(sum: int, cnt: int, min: int, max: int) -> bool {
    &&& cnt >= 1
    &&& min <= max
    &&& min * cnt <= sum <= max * cnt
}

impl Store {
    /// A slot has neither a name nor readings, or it has both and its values fit together.
    pub open spec fn consistent(self, g: int) -> bool {
        let cell = self.cells[g];
        ||| self.lens[g] == 0 && cell == Cell::empty()
        ||| 1 <= self.lens[g] <= NAME_MAX && fit_together(
            cell.sum as int,
            cell.cnt as int,
            cell.min as int,
            cell.max as int,
        )
    }

    /// `consistent` of all slots.
    pub open spec fn all_consistent(self) -> bool {
        forall|g: int| 0 <= g < TOTAL_SLOTS ==> #[trigger] self.consistent(g)
    }
}

impl Job {
    /// A slot that no row belongs to stays as it is: its name, its values, and every byte.
    pub proof fn lemma_slot_untouched(
        self,
        before: Store,
        after: Store,
        place: Seq<Seq<int>>,
        g: int,
    )
        requires
            before.wf(),
            after.wf(),
            self.wf(),
            self.counted(before, after, place),
            0 <= g < TOTAL_SLOTS,
            forall|r: RowId| #[trigger] self.has(r) ==> self.place_of(place, r) != g,
        ensures
            same_slot(after, before, g),
    {
        let all = self.all_rows();
        let rows = self.rows_at(place, g);
        self.lemma_rows_before(self.threads());
        lemma_filter(all, |r: RowId| self.place_of(place, r) == g);
        if rows.len() > 0 {
            assert(rows.contains(rows[0]));
            assert(self.has(rows[0]));
        }
        assert(0 <= before.lens[g] && 0 <= after.lens[g]);
        if before.lens[g] == 0 && after.lens[g] > 0 {
            let r = choose|r: RowId| self.names_slot(after, place, g, r);
            assert(self.has(r));
        }
        assert forall|k: Aggregate| #[trigger] after.cells[g].get(k) == before.cells[g].get(k) by {
            assert(after.cells[g].get(k) == self.gather(k, before.cells[g].get(k), rows));
        }
        lemma_cell_equal(after.cells[g], before.cells[g]);
        assert forall|i: int| g * NAME_MAX <= i < g * NAME_MAX + NAME_MAX implies
            #[trigger] after.names[i] == before.names[i] by {
            assert(i / NAME_MAX as int == g);
        }
    }

    /// A table that no block works on stays as it is.
    pub proof fn lemma_table_untouched(
        self,
        before: Store,
        after: Store,
        place: Seq<Seq<int>>,
        table: int,
        slot: int,
    )
        requires
            before.wf(),
            after.wf(),
            self.wf(),
            self.counted(before, after, place),
            0 <= table < NUM_TABLES,
            0 <= slot < TABLE_SIZE,
            forall|b: int| 0 <= b < self.grid ==> #[trigger] (b % NUM_TABLES as int) != table,
        ensures
            same_slot(after, before, global_slot(table, slot)),
    {
        let g = global_slot(table, slot);
        lemma_global_slot(table, slot);
        assert forall|r: RowId| #[trigger] self.has(r) implies self.place_of(place, r) != g by {
            lemma_blocks(self, r.thread);
            lemma_table(self, r.thread);
            assert(self.row_placed(after, place, r));
            lemma_global_slot(self.table(r.thread), place[r.thread][r.index]);
            let b = r.thread / self.block;
            assert(b % NUM_TABLES as int != table);
        }
        self.lemma_slot_untouched(before, after, place, g);
    }

    /// A launch that reads no row leaves all tables exactly as they are.
    pub proof fn lemma_nothing_read(self, before: Store, schedule: Seq<usize>)
        requires
            self.can_start(before),
            self.all_rows().len() == 0,
        ensures
            self.outcome(before, schedule) == before,
    {
        let after = self.outcome(before, schedule);
        let place = self.course(before, schedule).h.place;
        self.lemma_outcome(before, schedule);
        self.lemma_rows_before(self.threads());
        assert forall|r: RowId| #[trigger] self.has(r) implies false by {
            assert(self.all_rows().contains(r));
        }
        assert forall|g: int| 0 <= g < TOTAL_SLOTS implies #[trigger] same_slot(
            after,
            before,
            g,
        ) by {
            self.lemma_slot_untouched(before, after, place, g);
        }
        assert forall|g: int| 0 <= g < TOTAL_SLOTS implies after.lens[g] == before.lens[g] by {
            assert(same_slot(after, before, g));
        }
        assert forall|g: int| 0 <= g < TOTAL_SLOTS implies after.cells[g] == before.cells[g] by {
            assert(same_slot(after, before, g));
        }
        assert forall|i: int| 0 <= i < after.names.len() implies after.names[i]
            == before.names[i] by {
            let g = i / NAME_MAX as int;
            assert(same_slot(after, before, g));
        }
        assert(after.lens =~= before.lens);
        assert(after.cells =~= before.cells);
        assert(after.names =~= before.names);
    }

    /// A launch on an empty text leaves all tables exactly as they are.
    pub proof fn lemma_empty_text(self, before: Store, schedule: Seq<usize>)
        requires
            self.can_start(before),
            self.text.len() == 0,
        ensures
            self.outcome(before, schedule) == before,
    {
        let all = self.all_rows();
        self.lemma_rows_before(self.threads());
        if all.len() > 0 {
            assert(all.contains(all[0]));
            assert(self.has(all[0]));
            self.lemma_row_whole(all[0]);
        }
        self.lemma_nothing_read(before, schedule);
    }

    /// One value of a slot after rows were combined into it.
    spec fn value(self, cell: Cell, k: Aggregate, rows: Seq<RowId>) -> int {
        self.gather(k, cell.get(k), rows)
    }

    /// Readings that are combined into values that fit together, or into none, leave values that fit
    /// together.
    proof fn lemma_gather_fits(self, cell: Cell, rows: Seq<RowId>)
        requires
            self.wf(),
            self.fits(),
            forall|i: int| 0 <= i < rows.len() ==> self.has(#[trigger] rows[i]),
            cell == Cell::empty() || fit_together(
                cell.sum as int,
                cell.cnt as int,
                cell.min as int,
                cell.max as int,
            ),
            cell != Cell::empty() || rows.len() > 0,
            cell.cnt + rows.len() <= i32::MAX,
        ensures
            fit_together(
                self.value(cell, Aggregate::Sum, rows),
                self.value(cell, Aggregate::Count, rows),
                self.value(cell, Aggregate::Min, rows),
                self.value(cell, Aggregate::Max, rows),
            ),
            self.value(cell, Aggregate::Count, rows) == cell.cnt + rows.len(),
            i32::MIN <= self.value(cell, Aggregate::Min, rows),
            self.value(cell, Aggregate::Max, rows) <= i32::MAX,
        decreases rows.len(),
    {
        if rows.len() > 0 {
            let rest = rows.drop_last();
            let last = rows[rows.len() - 1];
            assert(rows.last() == last);
            self.lemma_name_len(last);
            let v = self.row(last).temp;
            if cell == Cell::empty() && rest.len() == 0 {
                lemma_wrapped(v, 0x8000_0000_0000_0000);
                lemma_wrapped(1, 0x8000_0000);
                assert(self.gather(Aggregate::Sum, 0, rest) == 0);
                assert(self.gather(Aggregate::Count, 0, rest) == 0);
                assert(v * 1 == v);
            } else {
                assert forall|i: int| 0 <= i < rest.len() implies self.has(#[trigger] rest[i]) by {
                    assert(rows[i] == rest[i]);
                }
                self.lemma_gather_fits(cell, rest);
                let s = self.value(cell, Aggregate::Sum, rest);
                let c = self.value(cell, Aggregate::Count, rest);
                let lo = self.value(cell, Aggregate::Min, rest);
                let hi = self.value(cell, Aggregate::Max, rest);
                let low = if v < lo {
                    v
                } else {
                    lo
                };
                let high = if v > hi {
                    v
                } else {
                    hi
                };
                lemma_fit_step(s, c, lo, hi, v, low, high);
                lemma_wrapped(s + v, 0x8000_0000_0000_0000);
                lemma_wrapped(c + 1, 0x8000_0000);
            }
        }
    }

    /// A launch keeps all slots consistent: afterwards, too, a slot has a name if and only if it has
    /// readings, none is left half written, and its values fit together.
    pub proof fn lemma_slots_consistent(self, before: Store, after: Store, place: Seq<Seq<int>>)
        requires
            before.wf(),
            after.wf(),
            self.wf(),
            self.fits(),
            self.named(),
            self.counted(before, after, place),
            before.all_consistent(),
            forall|g: int|
                0 <= g < TOTAL_SLOTS ==> #[trigger] before.cells[g].cnt + self.rows_at(
                    place,
                    g,
                ).len() <= i32::MAX,
        ensures
            after.all_consistent(),
    {
        let all = self.all_rows();
        self.lemma_rows_before(self.threads());
        assert forall|g: int| 0 <= g < TOTAL_SLOTS implies #[trigger] after.consistent(g) by {
            let rows = self.rows_at(place, g);
            let cell = before.cells[g];
            lemma_filter(all, |r: RowId| self.place_of(place, r) == g);
            assert(before.consistent(g));
            assert(0 <= after.lens[g] <= NAME_MAX);
            assert forall|i: int| 0 <= i < rows.len() implies self.has(#[trigger] rows[i]) by {
                assert(rows.contains(rows[i]));
            }
            if rows.len() > 0 {
                let r = rows[0];
                assert(self.has(r) && self.place_of(place, r) == g);
                assert(self.row_placed(after, place, r));
            }
            if after.lens[g] > 0 {
                if before.lens[g] == 0 {
                    let r = choose|r: RowId| self.names_slot(after, place, g, r);
                    assert(all.contains(r));
                    assert(rows.contains(r));
                }
                assert(before.cells[g].cnt + rows.len() <= i32::MAX);
                self.lemma_gather_fits(cell, rows);
                assert(after.cells[g].get(Aggregate::Sum) == self.value(cell, Aggregate::Sum, rows));
                assert(after.cells[g].get(Aggregate::Count) == self.value(
                    cell,
                    Aggregate::Count,
                    rows,
                ));
                assert(after.cells[g].get(Aggregate::Min) == self.value(cell, Aggregate::Min, rows));
                assert(after.cells[g].get(Aggregate::Max) == self.value(cell, Aggregate::Max, rows));
            } else {
                assert(rows.len() == 0);
                assert forall|k: Aggregate| #[trigger] after.cells[g].get(k) == cell.get(k) by {}
                lemma_cell_equal(after.cells[g], cell);
            }
        }
    }
}

impl Job {
    /// `lemma_slots_consistent`, of what a launch makes of the tables: no slot is left half written, no
    /// table holds a name twice, and the values of every slot fit together.
    pub proof fn lemma_outcome_consistent(self, before: Store, schedule: Seq<usize>)
        requires
            self.can_start(before),
            self.named(),
            before.all_consistent(),
            forall|g: int|
                0 <= g < TOTAL_SLOTS ==> #[trigger] before.cells[g].cnt + self.rows_at(
                    self.course(before, schedule).h.place,
                    g,
                ).len() <= i32::MAX,
        ensures
            self.outcome(before, schedule).all_consistent(),
            forall|g: int|
                0 <= g < TOTAL_SLOTS ==> 0 <= #[trigger] self.outcome(before, schedule).lens[g]
                    <= NAME_MAX,
            forall|g: int, h: int|
                0 <= g < TOTAL_SLOTS && 0 <= h < TOTAL_SLOTS && g != h && g / TABLE_SIZE as int == h
                    / TABLE_SIZE as int && self.outcome(before, schedule).lens[g] > 0
                    && self.outcome(before, schedule).lens[h] > 0
                    ==> #[trigger] self.outcome(before, schedule).slot_name(g)
                    != #[trigger] self.outcome(before, schedule).slot_name(h),
    {
        let after = self.outcome(before, schedule);
        self.lemma_outcome(before, schedule);
        self.lemma_slots_consistent(before, after, self.course(before, schedule).h.place);
        assert forall|g: int, h: int|
            0 <= g < TOTAL_SLOTS && 0 <= h < TOTAL_SLOTS && g != h && g / TABLE_SIZE as int == h
                / TABLE_SIZE as int && after.lens[g] > 0 && after.lens[h] > 0 implies
            #[trigger] after.slot_name(g) != #[trigger] after.slot_name(h) by {
            lemma_split_slot(g);
            lemma_split_slot(h);
            if after.slot_name(g) == after.slot_name(h) {
                after.lemma_names_apart(
                    g / TABLE_SIZE as int,
                    g % TABLE_SIZE as int,
                    h % TABLE_SIZE as int,
                    after.slot_name(g),
                );
            }
        }
    }
}

/// One more reading leaves values that fit together, and the sum within reach of an `i64`.
proof fn lemma_fit_step(s: int, c: int, lo: int, hi: int, v: int, low: int, high: int)
    requires
        fit_together(s, c, lo, hi),
        c < i32::MAX,
        i32::MIN <= lo,
        hi <= i32::MAX,
        i32::MIN <= v <= i32::MAX,
        low <= lo && low <= v && (low == lo || low == v),
        high >= hi && high >= v && (high == hi || high == v),
    ensures
        fit_together(s + v, c + 1, low, high),
        i64::MIN <= s + v <= i64::MAX,
{
    assert(low * (c + 1) == low * c + low && high * (c + 1) == high * c + high) by (nonlinear_arith);
    assert(low * c <= lo * c && hi * c <= high * c) by (nonlinear_arith)
        requires
            low <= lo,
            hi <= high,
            c >= 1,
    ;
    assert(i32::MIN * i32::MAX <= low * c && high * c <= i32::MAX * i32::MAX) by (nonlinear_arith)
        requires
            i32::MIN <= low,
            high <= i32::MAX,
            1 <= c <= i32::MAX,
    ;
}

} // verus!
