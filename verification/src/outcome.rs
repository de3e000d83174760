//! What a launch has done to the tables once every thread is through.

use vstd::prelude::*;
use crate::addition::{lemma_join_contains, lemma_push_contains};
use crate::aggregate::{lemma_combine_laws, Aggregate};
use crate::frame::lemma_global_slot;
use crate::hash::TABLE_SIZE;
use crate::launch::{Job, RowId, NUM_TABLES};
use crate::parse::NAME_MAX;
use crate::run::Run;
use crate::tables::{global_slot, Store, TOTAL_SLOTS};
use crate::worker::local_slot;

verus! {

impl Job {
    /// The rows of one thread, in order.
    pub open spec fn thread_rows(self, t: int) -> Seq<RowId> {
        Seq::new(self.rows(t).len(), |i: int| RowId { thread: t, index: i })
    }

    /// The rows of the first `n` threads, in order.
    pub open spec fn rows_before(self, n: int) -> Seq<RowId>
        decreases n,
    {
        if n <= 0 {
            Seq::empty()
        } else {
            self.rows_before(n - 1) + self.thread_rows(n - 1)
        }
    }

    /// All rows of the launch, in order.
    pub open spec fn all_rows(self) -> Seq<RowId> {
        self.rows_before(self.threads())
    }

    /// The slot of all tables that a row belongs to, if `place` gives its slot in the table.
    pub open spec fn place_of(self, place: Seq<Seq<int>>, r: RowId) -> int {
        global_slot(self.table(r.thread), place[r.thread][r.index])
    }

    /// The rows that belong to slot `g`, in order.
    pub open spec fn rows_at(self, place: Seq<Seq<int>>, g: int) -> Seq<RowId> {
        self.all_rows().filter(|r: RowId| self.place_of(place, r) == g)
    }

    /// `after` is what a launch may make of `before`, each row belonging to the slot that
    /// `place` gives. Names stay where they are. A row with a name belongs to the slot that has
    /// the name; a row without one belongs to some slot. A slot with a new name got it from a
    /// row that belongs to it. The four values of a slot are the old ones with all rows combined
    /// into them that belong to the slot, and each of them once. Of the bytes of the names only those
    /// of new names are other ones than before.
    pub open spec fn counted(self, before: Store, after: Store, place: Seq<Seq<int>>) -> bool {
        &&& forall|g: int|
            0 <= g < TOTAL_SLOTS && before.lens[g] > 0 ==> #[trigger] after.lens[g]
                == before.lens[g] && after.slot_name(g) == before.slot_name(g)
        &&& forall|r: RowId| #[trigger] self.has(r) ==> self.row_placed(after, place, r)
        &&& forall|g: int|
            0 <= g < TOTAL_SLOTS && #[trigger] after.lens[g] > 0 && before.lens[g] <= 0
                ==> exists|r: RowId| self.names_slot(after, place, g, r)
        &&& forall|g: int, k: Aggregate|
            0 <= g < TOTAL_SLOTS ==> #[trigger] after.cells[g].get(k) == self.gather(
                k,
                before.cells[g].get(k),
                self.rows_at(place, g),
            )
        &&& forall|i: int|
            0 <= i < after.names.len() && !(before.lens[i / NAME_MAX as int] <= 0 && i % (
            NAME_MAX as int) < after.lens[i / NAME_MAX as int]) ==> #[trigger] after.names[i]
                == before.names[i]
    }

    /// The row belongs to a slot, and if it has a name, to one that has the same name.
    pub open spec fn row_placed(self, after: Store, place: Seq<Seq<int>>, r: RowId) -> bool {
        let slot = place[r.thread][r.index];
        &&& 0 <= slot < TABLE_SIZE
        &&& self.name(r).len() > 0 ==> after.bears(self.table(r.thread), slot, self.name(r))
    }

    /// The row belongs to the slot, and the slot has its name.
    pub open spec fn names_slot(
        self,
        after: Store,
        place: Seq<Seq<int>>,
        g: int,
        r: RowId,
    ) -> bool {
        self.has(r) && self.place_of(place, r) == g && self.name(r) == after.slot_name(g)
    }

    /// The rows of the first `n` threads are listed once each.
    pub proof fn lemma_rows_before(self, n: int)
        requires
            0 <= n,
        ensures
            self.rows_before(n).no_duplicates(),
            forall|r: RowId| #[trigger]
                self.rows_before(n).contains(r) <==> 0 <= r.thread < n && 0 <= r.index < self.rows(
                    r.thread,
                ).len(),
        decreases n,
    {
        if n > 0 {
            self.lemma_rows_before(n - 1);
            let a = self.rows_before(n - 1);
            let b = self.thread_rows(n - 1);
            assert forall|i: int, j: int| 0 <= i < a.len() && 0 <= j < b.len() implies a[i]
                != b[j] by {
                assert(a.contains(a[i]));
            }
            vstd::seq_lib::lemma_no_dup_in_concat(a, b);
            assert forall|r: RowId| #[trigger]
                self.rows_before(n).contains(r) <==> 0 <= r.thread < n && 0 <= r.index < self.rows(
                    r.thread,
                ).len() by {
                lemma_join_contains(a, b, r);
                if r.thread == n - 1 && 0 <= r.index < self.rows(r.thread).len() {
                    assert(b[r.index] == r);
                }
                if b.contains(r) {
                    let i = choose|i: int| 0 <= i < b.len() && b[i] == r;
                    assert(b[i] == RowId { thread: n - 1, index: i });
                }
            }
        }
    }

    /// The order in which rows are gathered does not matter.
    pub proof fn lemma_gather_order(self, k: Aggregate, a: int, x: Seq<RowId>, y: Seq<RowId>)
        requires
            x.no_duplicates(),
            y.no_duplicates(),
            forall|r: RowId| #[trigger] x.contains(r) <==> y.contains(r),
        ensures
            self.gather(k, a, x) == self.gather(k, a, y),
    {
        broadcast use vstd::seq_lib::group_to_multiset_ensures;

        let f = |v: int, r: RowId| k.combine(v, k.of_reading(self.row(r).temp));
        assert forall|p: RowId, q: RowId, v: int| #[trigger] f(f(v, p), q) == f(f(v, q), p) by {
            lemma_combine_laws(
                k,
                v,
                k.of_reading(self.row(p).temp),
                k.of_reading(self.row(q).temp),
            );
        }
        x.lemma_multiset_has_no_duplicates();
        y.lemma_multiset_has_no_duplicates();
        assert forall|r: RowId| #[trigger] x.to_multiset().count(r) == y.to_multiset().count(r) by {
            assert(x.contains(r) <==> x.to_multiset().count(r) > 0);
            assert(y.contains(r) <==> y.to_multiset().count(r) > 0);
            if x.contains(r) {
                assert(x.to_multiset().contains(r));
                assert(y.to_multiset().contains(r));
            }
        }
        assert(x.to_multiset() =~= y.to_multiset());
        vstd::seq_lib::lemma_fold_left_permutation(x, y, f, a);
        self.lemma_gather_fold(k, a, x);
        self.lemma_gather_fold(k, a, y);
    }

    proof fn lemma_gather_fold(self, k: Aggregate, a: int, x: Seq<RowId>)
        ensures
            self.gather(k, a, x) == x.fold_left(
                a,
                |v: int, r: RowId| k.combine(v, k.of_reading(self.row(r).temp)),
            ),
        decreases x.len(),
    {
        if x.len() > 0 {
            self.lemma_gather_fold(k, a, x.drop_last());
        }
    }
}

/// A filtered list has no element twice if the list has none twice, and holds exactly those
/// elements of it that pass.
pub proof fn lemma_filter(rows: Seq<RowId>, p: spec_fn(RowId) -> bool)
    requires
        rows.no_duplicates(),
    ensures
        rows.filter(p).no_duplicates(),
        forall|r: RowId| #[trigger] rows.filter(p).contains(r) <==> rows.contains(r) && p(r),
    decreases rows.len(),
{
    reveal(Seq::filter);
    if rows.len() > 0 {
        let rest = rows.drop_last();
        let last = rows.last();
        lemma_filter(rest, p);
        assert(rest.push(last) =~= rows);
        let kept = rest.filter(p);
        assert forall|r: RowId| #[trigger] rows.filter(p).contains(r) <==> rows.contains(r) && p(
            r,
        ) by {
            lemma_push_contains(rest, last, r);
            lemma_push_contains(kept, last, r);
        }
        assert(!rest.contains(last));
        assert(!kept.contains(last));
        assert forall|i: int, j: int|
            0 <= i < kept.push(last).len() && 0 <= j < kept.push(last).len() && i != j implies
            kept.push(last)[i] != kept.push(last)[j] by {
            if i < kept.len() && j < kept.len() {
                assert(kept[i] != kept[j]);
            } else if i < kept.len() {
                assert(kept.contains(kept[i]));
            } else {
                assert(kept.contains(kept[j]));
            }
        }
    }
}

impl Run {
    /// Every thread is through.
    pub open spec fn finished(self) -> bool {
        forall|t: int| 0 <= t < self.job.threads() ==> #[trigger] self.st.workers[t].stage is Done
    }

    /// When every thread is through, the tables are well-formed and every row is counted.
    pub proof fn lemma_finished(self)
        requires
            self.inv(),
            self.finished(),
        ensures
            self.st.store.wf(),
            self.job.counted(self.base, self.st.store, self.h.place),
    {
        let job = self.job;
        let store = self.st.store;
        let place = self.h.place;
        assert forall|g: int| 0 <= g < TOTAL_SLOTS implies 0 <= #[trigger] store.lens[g]
            <= NAME_MAX by {
            assert(self.slot_ok(g));
            if store.lens[g] == -1 {
                let u = self.h.owner[g];
                assert(self.st.workers[u].stage is Done);
            }
        }
        assert forall|table: int, slot: int|
            #![trigger global_slot(table, slot)]
            0 <= table < NUM_TABLES && 0 <= slot < TABLE_SIZE
                && store.lens[global_slot(table, slot)] > 0 implies store.passed(
            table,
            slot,
            store.slot_name(global_slot(table, slot)),
        ) by {
            lemma_global_slot(table, slot);
            assert(self.slot_ok(global_slot(table, slot)));
        }
        assert forall|r: RowId| #[trigger] job.has(r) implies self.placed(r) && (forall|k: Aggregate| #[trigger]
            self.applied(r, k)) by {
            assert(self.worker_ok(r.thread));
            assert(self.st.workers[r.thread].stage is Done);
        }
        assert forall|g: int| 0 <= g < TOTAL_SLOTS && self.base.lens[g] > 0 implies
            #[trigger] store.lens[g] == self.base.lens[g] && store.slot_name(g)
            == self.base.slot_name(g) by {
            assert(self.slot_ok(g));
        }
        assert forall|r: RowId| #[trigger] job.has(r) implies job.row_placed(store, place, r) by {
            assert(self.placed(r));
            assert(self.place_ok(r));
        }
        assert forall|g: int|
            0 <= g < TOTAL_SLOTS && #[trigger] store.lens[g] > 0 && self.base.lens[g]
                <= 0 implies exists|r: RowId| job.names_slot(store, place, g, r) by {
            assert(self.slot_ok(g));
            assert(self.base.lens[g] >= 0);
            assert(job.names_slot(store, place, g, self.h.origin[g]));
        }
        assert forall|i: int|
            0 <= i < store.names.len() && !(self.base.lens[i / NAME_MAX as int] <= 0 && i % (
            NAME_MAX as int) < store.lens[i / NAME_MAX as int]) implies #[trigger] store.names[i]
            == self.base.names[i] by {
            let g = i / NAME_MAX as int;
            assert(0 <= g < TOTAL_SLOTS);
            assert(0 <= store.lens[g]);
            assert(!self.written_at(i));
        }
        job.lemma_rows_before(job.threads());
        assert forall|g: int, k: Aggregate| 0 <= g < TOTAL_SLOTS implies
            #[trigger] store.cells[g].get(k) == job.gather(
            k,
            self.base.cells[g].get(k),
            job.rows_at(place, g),
        ) by {
            let log = self.h.glog[g].get(k);
            let p = |r: RowId| job.place_of(place, r) == g;
            let rows = job.rows_at(place, g);
            lemma_filter(job.all_rows(), p);
            assert(self.logs_unique());
            assert forall|r: RowId| #[trigger] log.contains(r) <==> rows.contains(r) by {
                assert(job.all_rows().contains(r) <==> job.has(r));
                if log.contains(r) {
                    assert(self.logged(k, g, r));
                }
                if rows.contains(r) {
                    assert(job.has(r));
                    assert(self.applied(r, k));
                    let b = self.block(r.thread);
                    let l = local_slot(place[r.thread][r.index]);
                    self.lemma_applied(r, k, 0);
                    if self.slogged(k, b, l, r) {
                        self.lemma_keeper(b, l);
                        assert(self.st.workers[self.keeper(b, l)].stage is Done);
                        assert(self.flushed(b, l, k));
                    }
                    assert(self.logged(k, self.row_slot(r), r));
                }
            }
            assert(self.cells_ok());
            job.lemma_gather_order(k, self.base.cells[g].get(k), log, rows);
        }
    }
}

} // verus!
