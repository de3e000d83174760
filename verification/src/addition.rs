//! The steps by which a row is added to a slot: finding out whether the shared table can take
//! it, adding it there or to the table, and adding the shared table to the table.

use vstd::prelude::*;
use crate::aggregate::{lemma_cell_add, lemma_combine_holds, lemma_combine_laws, Aggregate};
use crate::barrier::lemma_same_rest;
use crate::frame::{lemma_blocks, lemma_global_slot, lemma_table};
use crate::launch::{lemma_rows_step, rows_from, Job, RowId};
use crate::run::{located, stage_slot, Log, Run};
use crate::tables::{LOCAL_SIZE, TOTAL_SLOTS};
use crate::worker::{local_slot, Stage};

verus! {

/// A sequence with one more element holds that and what it held before.
pub proof fn lemma_push_contains(rows: Seq<RowId>, r: RowId, x: RowId)
    ensures
        rows.push(r).contains(x) <==> rows.contains(x) || x == r,
{
    if rows.contains(x) {
        let i = choose|i: int| 0 <= i < rows.len() && rows[i] == x;
        assert(rows.push(r)[i] == x);
    }
    if x == r {
        assert(rows.push(r)[rows.len() as int] == x);
    }
}

/// Two lists joined hold what either holds.
pub proof fn lemma_join_contains(a: Seq<RowId>, b: Seq<RowId>, x: RowId)
    ensures
        (a + b).contains(x) <==> a.contains(x) || b.contains(x),
{
    if a.contains(x) {
        let i = choose|i: int| 0 <= i < a.len() && a[i] == x;
        assert((a + b)[i] == x);
    }
    if b.contains(x) {
        let i = choose|i: int| 0 <= i < b.len() && b[i] == x;
        assert((a + b)[a.len() + i] == x);
    }
    if (a + b).contains(x) {
        let i = choose|i: int| 0 <= i < (a + b).len() && (a + b)[i] == x;
        if i < a.len() {
            assert(a[i] == x);
        } else {
            assert(b[i - a.len()] == x);
        }
    }
}

/// Replacing the rows of one value leaves those of the others.
pub proof fn lemma_log_set(log: Log, k: Aggregate, rows: Seq<RowId>, other: Aggregate)
    ensures
        log.set(k, rows).get(k) == rows,
        other != k ==> log.set(k, rows).get(other) == log.get(other),
{
}

impl Job {
    /// What a row adds to a value fits the type of the value.
    pub proof fn lemma_contribution(self, r: RowId, k: Aggregate)
        requires
            self.wf(),
            self.fits(),
            self.has(r),
        ensures
            k.holds(k.of_reading(self.row(r).temp)),
            k.of_reading(self.row(r).temp) as i32 == k.of_reading(self.row(r).temp),
    {
        self.lemma_name_len(r);
    }

    /// A value that rows were combined into fits its type.
    pub proof fn lemma_gather_holds(self, k: Aggregate, a: int, rows: Seq<RowId>)
        requires
            self.wf(),
            self.fits(),
            k.holds(a),
            forall|i: int| 0 <= i < rows.len() ==> self.has(#[trigger] rows[i]),
        ensures
            k.holds(self.gather(k, a, rows)),
        decreases rows.len(),
    {
        if rows.len() > 0 {
            self.lemma_gather_holds(k, a, rows.drop_last());
            assert(rows.last() == rows[rows.len() - 1]);
            self.lemma_contribution(rows.last(), k);
            lemma_combine_holds(
                k,
                self.gather(k, a, rows.drop_last()),
                k.of_reading(self.row(rows.last()).temp),
            );
        }
    }

    /// Gathering two lists one after the other is combining what each gathers.
    pub proof fn lemma_gather_join(self, k: Aggregate, a: int, x: Seq<RowId>, y: Seq<RowId>)
        requires
            self.wf(),
            self.fits(),
            k.holds(a),
            forall|i: int| 0 <= i < x.len() ==> self.has(#[trigger] x[i]),
            forall|i: int| 0 <= i < y.len() ==> self.has(#[trigger] y[i]),
        ensures
            self.gather(k, a, x + y) == k.combine(
                self.gather(k, a, x),
                self.gather(k, k.identity(), y),
            ),
        decreases y.len(),
    {
        let f = self.gather(k, a, x);
        self.lemma_gather_holds(k, a, x);
        if y.len() == 0 {
            assert(x + y =~= x);
            lemma_combine_laws(k, f, 0, 0);
        } else {
            assert((x + y).drop_last() =~= x + y.drop_last());
            assert((x + y).last() == y.last());
            self.lemma_gather_join(k, a, x, y.drop_last());
            let g = self.gather(k, k.identity(), y.drop_last());
            let c = k.of_reading(self.row(y.last()).temp);
            lemma_combine_laws(k, f, g, c);
        }
    }
}

impl Run {
    /// The thread looks whether the shared slot can take its row.
    pub proof fn lemma_step_pick(self, t: int)
        requires
            self.basics(),
            0 <= t < self.job.threads(),
            self.st.stage(t) is Pick || self.st.stage(t) is Grab,
        ensures
            self.stepped(t).basics(),
    {
        let post = self.stepped(t);
        let w = self.st.workers[t];
        let slot = stage_slot(w.stage);
        let b = self.block(t);
        let l = local_slot(slot);
        assert(self.worker_ok(t));
        assert(self.located_ok(t));
        lemma_blocks(self.job, t);
        self.lemma_all_inited(t, l);
        assert(self.shared_ok(b, l));
        assert forall|c: int| 0 <= c < self.job.grid implies (#[trigger] post.st.blocks[c]).cells
            == self.st.blocks[c].cells by {}
        self.lemma_move(post, t);
        assert(post.row_ok(t));
        assert(post.worker_ok(t));
        assert forall|x: int| 0 <= x < TOTAL_SLOTS implies #[trigger] post.slot_ok(x) by {
            assert(self.slot_ok(x));
            self.lemma_slot_kept(post, t, x);
        }
        self.lemma_places_kept(post, t);
        assert forall|c: int, m: int|
            0 <= c < self.job.grid && 0 <= m < LOCAL_SIZE implies #[trigger] post.shared_ok(c, m) by {
            assert(self.shared_ok(c, m));
            assert(post.inited(c, m) == self.inited(c, m));
        }
        self.lemma_logs_kept(post, t);
        self.lemma_assemble(post, t);
    }

    /// The value that the thread adds its row to next.
    pub open spec fn due(self, t: int) -> Aggregate {
        match self.st.stage(t) {
            Stage::Shared { k, .. } => k,
            Stage::Global { k, .. } => k,
            Stage::Drain { k, .. } => k,
            _ => Aggregate::Sum,
        }
    }

    /// What adding a row to one value means for everything but the logs and the values.
    pub proof fn lemma_added(self, post: Run, t: int)
        requires
            self.basics(),
            0 <= t < self.job.threads(),
            post == self.stepped(t),
            self.st.stage(t) is Shared || self.st.stage(t) is Global,
        ensures
            self.leads_to(post, t),
            post.worker_ok(t),
            post.pairs_ok(),
            post.slots_ok(),
            post.places_ok(),
            post.shareds_ok(),
            !self.applied(self.current(t), self.due(t)),
            self.job.has(self.current(t)),
            forall|r: RowId, k: Aggregate|
                #![trigger post.applied(r, k)]
                self.job.has(r) ==> (post.applied(r, k) <==> self.applied(r, k) || r
                    == self.current(t) && k == self.due(t)),
            forall|c: int, l: int|
                #![trigger post.inited(c, l)]
                0 <= c < self.job.grid && 0 <= l < LOCAL_SIZE ==> post.inited(c, l) == self.inited(
                    c,
                    l,
                ),
            forall|c: int, l: int, k: Aggregate|
                #![trigger post.flushed(c, l, k)]
                0 <= c < self.job.grid && 0 <= l < LOCAL_SIZE ==> post.flushed(c, l, k)
                    == self.flushed(c, l, k),
            post.row_slot(self.current(t)) == self.at(t),
            0 <= self.at(t) < TOTAL_SLOTS,
    {
        let w = self.st.workers[t];
        let slot = stage_slot(w.stage);
        let k = self.due(t);
        let done = self.h.done[t];
        let rows = self.job.rows(t);
        let text = self.job.text;
        let r = self.current(t);
        assert(self.worker_ok(t));
        assert(self.row_ok(t));
        assert(self.located_ok(t));
        lemma_blocks(self.job, t);
        lemma_table(self.job, t);
        lemma_global_slot(self.job.table(t), slot);
        self.job.lemma_name_len(r);
        let to = post.st.workers[t];
        if k == Aggregate::Max {
            let pos = w.pos as int;
            let end = w.end as int;
            assert(rows_from(text, pos, end)[0] == rows[done]);
            lemma_rows_step(text, pos, end);
            assert(rows.skip(done).skip(1) =~= rows.skip(done + 1));
            self.lemma_at_row(t, w, pos + w.line_len, done + 1);
            assert(to == w.at_row(text, pos + w.line_len));
        }
        assert(post.worker_ok(t)) by {
            if to.stage is Probe {
                assert(post.row_ok(t));
                assert(post.seek_ok(t));
            } else if located(to.stage) {
                assert(post.row_ok(t));
                assert(post.located_ok(t));
            }
        }
        assert(self.leads_to(post, t));
        self.lemma_pairs_kept(post, t);
        assert forall|q: RowId, j: Aggregate|
            #![trigger post.applied(q, j)]
            self.job.has(q) implies (post.applied(q, j) <==> self.applied(q, j) || q == r && j
            == k) by {
            if q.thread != t {
                assert(post.st.workers[q.thread] == self.st.workers[q.thread]);
            }
        }
        assert forall|c: int, l: int|
            #![trigger post.inited(c, l)]
            0 <= c < self.job.grid && 0 <= l < LOCAL_SIZE implies post.inited(c, l) == self.inited(
            c,
            l,
        ) by {
            self.lemma_keeper(c, l);
        }
        assert forall|c: int, l: int, j: Aggregate|
            #![trigger post.flushed(c, l, j)]
            0 <= c < self.job.grid && 0 <= l < LOCAL_SIZE implies post.flushed(c, l, j)
            == self.flushed(c, l, j) by {
            self.lemma_keeper(c, l);
        }
        assert forall|x: int| 0 <= x < TOTAL_SLOTS implies #[trigger] post.slot_ok(x) by {
            assert(self.slot_ok(x));
            self.lemma_slot_kept(post, t, x);
        }
        self.lemma_places_kept(post, t);
        assert forall|c: int, m: int|
            0 <= c < self.job.grid && 0 <= m < LOCAL_SIZE implies #[trigger] post.shared_ok(c, m) by {
            assert(self.shared_ok(c, m));
            assert(post.inited(c, m) == self.inited(c, m));
        }
    }

    /// The thread adds its row to one value of the shared slot.
    pub proof fn lemma_step_shared(self, t: int)
        requires
            self.basics(),
            0 <= t < self.job.threads(),
            self.st.stage(t) is Shared,
        ensures
            self.stepped(t).basics(),
    {
        let post = self.stepped(t);
        let w = self.st.workers[t];
        let slot = stage_slot(w.stage);
        let k = self.due(t);
        let r = self.current(t);
        let b = self.block(t);
        let l = local_slot(slot);
        assert(self.worker_ok(t));
        assert(self.row_ok(t));
        assert(self.located_ok(t));
        lemma_blocks(self.job, t);
        self.lemma_added(post, t);
        self.lemma_all_inited(t, l);
        let before = self.h.slog[b][l];
        let value = k.of_reading(w.temp as int);
        self.job.lemma_contribution(r, k);
        assert(post.h.slog[b][l] == before.set(k, before.get(k).push(r)));
        assert forall|c: int, m: int|
            0 <= c < self.job.grid && 0 <= m < LOCAL_SIZE && (c != b || m != l) implies
            #[trigger] post.h.slog[c][m] == self.h.slog[c][m] by {}
        assert forall|j: Aggregate| #[trigger] post.h.slog[b][l].get(j) == if j == k {
            before.get(k).push(r)
        } else {
            before.get(j)
        } by {
            lemma_log_set(before, k, before.get(k).push(r), j);
        }
        assert forall|j: Aggregate, c: int, m: int, q: RowId|
            0 <= c < self.job.grid && 0 <= m < LOCAL_SIZE implies (#[trigger] post.slogged(
            j,
            c,
            m,
            q,
        ) <==> self.slogged(j, c, m, q) || j == k && c == b && m == l && q == r) by {
            lemma_push_contains(before.get(k), r, q);
        }
        assert forall|j: Aggregate, g: int, q: RowId| #[trigger] post.logged(j, g, q)
            == self.logged(j, g, q) by {}
        // What was not added before is in no log.
        assert(!self.slogged(k, b, l, r));
        assert(!self.logged(k, self.at(t), r));
        assert(!self.flushed(b, l, k)) by {
            self.lemma_keeper(b, l);
            assert(self.pair_ok(self.keeper(b, l), t));
        }
        assert forall|j: Aggregate, g: int, q: RowId|
            0 <= g < TOTAL_SLOTS && #[trigger] post.logged(j, g, q) implies post.job.has(q)
            && post.applied(q, j) && post.row_slot(q) == g by {
            assert(self.logged(j, g, q));
            self.lemma_applied(q, j, 0);
            assert(post.placed(q));
        }
        assert(post.slogged_ok()) by {
            assert forall|j: Aggregate, c: int, m: int, q: RowId|
                0 <= c < post.job.grid && 0 <= m < LOCAL_SIZE && #[trigger] post.slogged(
                    j,
                    c,
                    m,
                    q,
                ) implies {
                &&& post.job.has(q)
                &&& post.applied(q, j)
                &&& post.block(q.thread) == c
                &&& post.st.blocks[c].owner[m] == post.h.place[q.thread][q.index]
                &&& !post.flushed(c, m, j)
                &&& !post.logged(j, post.row_slot(q), q)
            } by {
                assert(post.flushed(c, m, j) == self.flushed(c, m, j));
                if self.slogged(j, c, m, q) {
                    self.lemma_applied(q, j, m);
                    assert(post.placed(q));
                    assert(post.applied(q, j));
                } else {
                    assert(post.applied(q, j));
                }
            }
        }
        assert(post.applied_ok()) by {
            assert forall|q: RowId, j: Aggregate|
                post.job.has(q) && #[trigger] post.applied(q, j) implies {
                ||| post.logged(j, post.row_slot(q), q)
                ||| post.slogged(
                    j,
                    post.block(q.thread),
                    local_slot(post.h.place[q.thread][q.index]),
                    q,
                )
            } by {
                if q == r && j == k {
                    assert(post.slogged(k, b, l, r));
                } else {
                    assert(self.applied(q, j));
                    self.lemma_applied(q, j, 0);
                    assert(post.placed(q));
                    assert(post.logged(j, self.row_slot(q), q) == self.logged(
                        j,
                        self.row_slot(q),
                        q,
                    ));
                    assert(self.slogged(
                        j,
                        self.block(q.thread),
                        local_slot(self.h.place[q.thread][q.index]),
                        q,
                    ) ==> post.slogged(
                        j,
                        self.block(q.thread),
                        local_slot(self.h.place[q.thread][q.index]),
                        q,
                    ));
                }
            }
        }
        assert(post.logs_unique()) by {
            assert(self.logs_unique());
            assert forall|j: Aggregate, c: int, m: int|
                0 <= c < post.job.grid && 0 <= m < LOCAL_SIZE implies (
            #[trigger] post.h.slog[c][m].get(j)).no_duplicates() by {
                assert(self.h.slog[c][m].get(j).no_duplicates());
                if c == b && m == l && j == k {
                    let old_rows = before.get(k);
                    assert forall|x: int, y: int|
                        0 <= x < old_rows.len() + 1 && 0 <= y < old_rows.len() + 1 && x
                            != y implies old_rows.push(r)[x] != old_rows.push(r)[y] by {
                        assert(!old_rows.contains(r));
                    }
                }
            }
        }
        assert(post.cells_ok()) by {
            assert(self.cells_ok());
            let cell = self.st.blocks[b].cells[l];
            lemma_cell_add(cell, k, value);
            assert(post.st.blocks[b].cells[l] == cell.add(k, value));
            assert forall|j: Aggregate, c: int, m: int|
                #![trigger post.h.slog[c][m].get(j)]
                0 <= c < post.job.grid && 0 <= m < LOCAL_SIZE && post.inited(c, m) && !post.flushed(
                    c,
                    m,
                    j,
                ) implies post.st.blocks[c].cells[m].get(j) == post.job.gather(
                j,
                j.identity(),
                post.h.slog[c][m].get(j),
            ) by {
                assert(self.inited(c, m));
                assert(!self.flushed(c, m, j));
                assert(self.st.blocks[c].cells[m].get(j) == self.job.gather(
                    j,
                    j.identity(),
                    self.h.slog[c][m].get(j),
                ));
                if c == b && m == l && j == k {
                    assert(before.get(k).push(r).drop_last() =~= before.get(k));
                }
            }
        }
        self.lemma_assemble(post, t);
    }

    /// The thread adds its row to one value of the table.
    pub proof fn lemma_step_global(self, t: int)
        requires
            self.basics(),
            0 <= t < self.job.threads(),
            self.st.stage(t) is Global,
        ensures
            self.stepped(t).basics(),
    {
        let post = self.stepped(t);
        let w = self.st.workers[t];
        let k = self.due(t);
        let r = self.current(t);
        let g = self.at(t);
        assert(self.worker_ok(t));
        assert(self.row_ok(t));
        assert(self.located_ok(t));
        lemma_blocks(self.job, t);
        self.lemma_added(post, t);
        let before = self.h.glog[g];
        let value = k.of_reading(w.temp as int);
        self.job.lemma_contribution(r, k);
        assert(post.h.glog[g] == before.set(k, before.get(k).push(r)));
        assert forall|j: Aggregate| #[trigger] post.h.glog[g].get(j) == if j == k {
            before.get(k).push(r)
        } else {
            before.get(j)
        } by {
            lemma_log_set(before, k, before.get(k).push(r), j);
        }
        assert forall|j: Aggregate, x: int, q: RowId| 0 <= x < TOTAL_SLOTS implies (
        #[trigger] post.logged(j, x, q) <==> self.logged(j, x, q) || j == k && x == g && q == r) by {
            lemma_push_contains(before.get(k), r, q);
        }
        assert forall|j: Aggregate, c: int, m: int, q: RowId| #[trigger] post.slogged(j, c, m, q)
            == self.slogged(j, c, m, q) by {}
        assert(!self.logged(k, g, r));
        assert(post.logged_ok()) by {
            assert forall|j: Aggregate, x: int, q: RowId|
                0 <= x < TOTAL_SLOTS && #[trigger] post.logged(j, x, q) implies post.job.has(q)
                && post.applied(q, j) && post.row_slot(q) == x by {
                if self.logged(j, x, q) {
                    self.lemma_applied(q, j, 0);
                    assert(post.placed(q));
                }
            }
        }
        assert(post.slogged_ok()) by {
            assert forall|j: Aggregate, c: int, m: int, q: RowId|
                0 <= c < post.job.grid && 0 <= m < LOCAL_SIZE && #[trigger] post.slogged(
                    j,
                    c,
                    m,
                    q,
                ) implies {
                &&& post.job.has(q)
                &&& post.applied(q, j)
                &&& post.block(q.thread) == c
                &&& post.st.blocks[c].owner[m] == post.h.place[q.thread][q.index]
                &&& !post.flushed(c, m, j)
                &&& !post.logged(j, post.row_slot(q), q)
            } by {
                assert(self.slogged(j, c, m, q));
                assert(post.flushed(c, m, j) == self.flushed(c, m, j));
                self.lemma_applied(q, j, m);
                assert(post.placed(q));
                assert(post.applied(q, j));
                assert(post.logged(j, self.row_slot(q), q) == self.logged(j, self.row_slot(q), q));
            }
        }
        assert(post.applied_ok()) by {
            assert forall|q: RowId, j: Aggregate|
                post.job.has(q) && #[trigger] post.applied(q, j) implies {
                ||| post.logged(j, post.row_slot(q), q)
                ||| post.slogged(
                    j,
                    post.block(q.thread),
                    local_slot(post.h.place[q.thread][q.index]),
                    q,
                )
            } by {
                if q == r && j == k {
                    assert(post.logged(k, g, r));
                } else {
                    assert(self.applied(q, j));
                    self.lemma_applied(q, j, 0);
                    assert(post.placed(q));
                    assert(self.logged(j, self.row_slot(q), q) ==> post.logged(
                        j,
                        self.row_slot(q),
                        q,
                    ));
                    assert(self.slogged(
                        j,
                        self.block(q.thread),
                        local_slot(self.h.place[q.thread][q.index]),
                        q,
                    ) ==> post.slogged(
                        j,
                        self.block(q.thread),
                        local_slot(self.h.place[q.thread][q.index]),
                        q,
                    ));
                }
            }
        }
        assert(post.logs_unique()) by {
            assert(self.logs_unique());
            assert forall|j: Aggregate, x: int| 0 <= x < TOTAL_SLOTS implies (
            #[trigger] post.h.glog[x].get(j)).no_duplicates() by {
                assert(self.h.glog[x].get(j).no_duplicates());
                if x == g && j == k {
                    let old_rows = before.get(k);
                    assert forall|a: int, b: int|
                        0 <= a < old_rows.len() + 1 && 0 <= b < old_rows.len() + 1 && a
                            != b implies old_rows.push(r)[a] != old_rows.push(r)[b] by {
                        assert(!old_rows.contains(r));
                    }
                }
            }
        }
        assert(post.cells_ok()) by {
            assert(self.cells_ok());
            let cell = self.st.store.cells[g];
            lemma_cell_add(cell, k, value);
            assert(post.st.store.cells[g] == cell.add(k, value));
            assert forall|j: Aggregate, x: int|
                #![trigger post.h.glog[x].get(j)]
                0 <= x < TOTAL_SLOTS implies post.st.store.cells[x].get(j) == post.job.gather(
                j,
                self.base.cells[x].get(j),
                post.h.glog[x].get(j),
            ) by {
                assert(self.st.store.cells[x].get(j) == self.job.gather(
                    j,
                    self.base.cells[x].get(j),
                    self.h.glog[x].get(j),
                ));
                if x == g && j == k {
                    assert(before.get(k).push(r).drop_last() =~= before.get(k));
                }
            }
            assert forall|j: Aggregate, c: int, m: int|
                #![trigger post.h.slog[c][m].get(j)]
                0 <= c < post.job.grid && 0 <= m < LOCAL_SIZE && post.inited(c, m) && !post.flushed(
                    c,
                    m,
                    j,
                ) implies post.st.blocks[c].cells[m].get(j) == post.job.gather(
                j,
                j.identity(),
                post.h.slog[c][m].get(j),
            ) by {
                assert(self.inited(c, m));
                assert(!self.flushed(c, m, j));
                assert(self.h.slog[c][m].get(j) == post.h.slog[c][m].get(j));
            }
        }
        self.lemma_assemble(post, t);
    }

    /// The thread adds one value of a shared slot to the table.
    pub proof fn lemma_step_drain(self, t: int)
        requires
            self.basics(),
            0 <= t < self.job.threads(),
            self.st.stage(t) is Drain,
        ensures
            self.stepped(t).basics(),
    {
        let post = self.stepped(t);
        let w = self.st.workers[t];
        let s = self.job.block;
        let k = self.due(t);
        let g = self.at(t);
        let b = self.block(t);
        let next = w.stage->Drain_next as int;
        let slot = stage_slot(w.stage);
        assert(self.worker_ok(t));
        lemma_blocks(self.job, t);
        lemma_table(self.job, t);
        lemma_global_slot(self.job.table(t), slot);
        self.lemma_all_inited(t, next);
        assert(post.st.workers =~= self.st.workers.update(t, post.st.workers[t]));
        assert(self.leads_to(post, t));
        self.lemma_pairs_kept(post, t);
        assert(post.worker_ok(t)) by {
            vstd::arithmetic::div_mod::lemma_mod_add_multiples_vanish(next, s);
        }
        assert forall|x: int| 0 <= x < TOTAL_SLOTS implies #[trigger] post.slot_ok(x) by {
            assert(self.slot_ok(x));
            self.lemma_slot_kept(post, t, x);
        }
        self.lemma_places_kept(post, t);
        assert forall|c: int, m: int|
            #![trigger post.inited(c, m)]
            0 <= c < self.job.grid && 0 <= m < LOCAL_SIZE implies post.inited(c, m) == self.inited(
            c,
            m,
        ) by {
            self.lemma_keeper(c, m);
        }
        self.lemma_shareds_same(post);
        assert(self.keeper(b, next) == t);
        assert forall|c: int, m: int, j: Aggregate|
            #![trigger post.flushed(c, m, j)]
            0 <= c < self.job.grid && 0 <= m < LOCAL_SIZE implies (post.flushed(c, m, j)
            <==> self.flushed(c, m, j) || c == b && m == next && j == k) by {
            self.lemma_keeper(c, m);
            if self.keeper(c, m) == t {
                assert(c == b);
                assert(m % s == next % s);
                if m < next + s {
                    lemma_same_rest(m, next, s);
                }
            }
        }
        assert(!self.flushed(b, next, k));
        assert forall|q: RowId, j: Aggregate|
            #![trigger post.applied(q, j)]
            self.job.has(q) implies post.applied(q, j) == self.applied(q, j) by {
            if q.thread != t {
                assert(post.st.workers[q.thread] == self.st.workers[q.thread]);
            }
        }
        let moved = self.h.slog[b][next];
        let before = self.h.glog[g];
        assert forall|j: Aggregate| #[trigger] post.h.glog[g].get(j) == if j == k {
            before.get(k) + moved.get(k)
        } else {
            before.get(j)
        } by {
            lemma_log_set(before, k, before.get(k) + moved.get(k), j);
        }
        assert forall|j: Aggregate| #[trigger] post.h.slog[b][next].get(j) == if j == k {
            Seq::empty()
        } else {
            moved.get(j)
        } by {
            lemma_log_set(moved, k, Seq::empty(), j);
        }
        assert forall|j: Aggregate, x: int, q: RowId| 0 <= x < TOTAL_SLOTS implies (
        #[trigger] post.logged(j, x, q) <==> self.logged(j, x, q) || j == k && x == g
            && self.slogged(k, b, next, q)) by {
            lemma_join_contains(before.get(k), moved.get(k), q);
        }
        assert forall|j: Aggregate, c: int, m: int, q: RowId|
            0 <= c < self.job.grid && 0 <= m < LOCAL_SIZE implies (#[trigger] post.slogged(
            j,
            c,
            m,
            q,
        ) <==> self.slogged(j, c, m, q) && !(j == k && c == b && m == next)) by {}
        assert forall|q: RowId| #[trigger] self.slogged(k, b, next, q) implies self.job.has(q)
            && self.row_slot(q) == g && !self.logged(k, g, q) by {
            self.lemma_applied(q, k, next);
        }
        assert(post.logged_ok()) by {
            assert forall|j: Aggregate, x: int, q: RowId|
                0 <= x < TOTAL_SLOTS && #[trigger] post.logged(j, x, q) implies post.job.has(q)
                && post.applied(q, j) && post.row_slot(q) == x by {
                if self.logged(j, x, q) {
                    self.lemma_applied(q, j, 0);
                } else {
                    self.lemma_applied(q, k, next);
                }
                assert(post.placed(q));
                assert(post.applied(q, j) == self.applied(q, j));
            }
        }
        assert(post.slogged_ok()) by {
            assert forall|j: Aggregate, c: int, m: int, q: RowId|
                0 <= c < post.job.grid && 0 <= m < LOCAL_SIZE && #[trigger] post.slogged(
                    j,
                    c,
                    m,
                    q,
                ) implies {
                &&& post.job.has(q)
                &&& post.applied(q, j)
                &&& post.block(q.thread) == c
                &&& post.st.blocks[c].owner[m] == post.h.place[q.thread][q.index]
                &&& !post.flushed(c, m, j)
                &&& !post.logged(j, post.row_slot(q), q)
            } by {
                assert(self.slogged(j, c, m, q));
                self.lemma_applied(q, j, m);
                assert(post.placed(q));
                assert(post.applied(q, j) == self.applied(q, j));
                if self.slogged(k, b, next, q) && j == k {
                    // A row has one slot, and so one shared slot.
                    assert(self.shared_ok(c, m));
                    assert(self.shared_ok(b, next));
                    assert(c == b && m == next);
                }
                assert(post.logged(j, self.row_slot(q), q) == self.logged(j, self.row_slot(q), q));
            }
        }
        assert(post.applied_ok()) by {
            assert forall|q: RowId, j: Aggregate|
                post.job.has(q) && #[trigger] post.applied(q, j) implies {
                ||| post.logged(j, post.row_slot(q), q)
                ||| post.slogged(
                    j,
                    post.block(q.thread),
                    local_slot(post.h.place[q.thread][q.index]),
                    q,
                )
            } by {
                assert(self.applied(q, j));
                self.lemma_applied(q, j, 0);
                assert(post.placed(q));
                let c = self.block(q.thread);
                let m = local_slot(self.h.place[q.thread][q.index]);
                if self.logged(j, self.row_slot(q), q) {
                    assert(post.logged(j, self.row_slot(q), q));
                } else {
                    assert(self.slogged(j, c, m, q));
                    if j == k && c == b && m == next {
                        assert(post.logged(k, g, q));
                    } else {
                        assert(post.slogged(j, c, m, q));
                    }
                }
            }
        }
        assert(post.logs_unique()) by {
            assert(self.logs_unique());
            assert forall|j: Aggregate, x: int| 0 <= x < TOTAL_SLOTS implies (
            #[trigger] post.h.glog[x].get(j)).no_duplicates() by {
                assert(self.h.glog[x].get(j).no_duplicates());
                if x == g && j == k {
                    assert(moved.get(k).no_duplicates());
                    assert forall|a: int, c: int|
                        0 <= a < before.get(k).len() && 0 <= c < moved.get(k).len() implies
                        before.get(k)[a] != moved.get(k)[c] by {
                        assert(self.logged(k, g, before.get(k)[a]));
                        assert(self.slogged(k, b, next, moved.get(k)[c]));
                    }
                    vstd::seq_lib::lemma_no_dup_in_concat(before.get(k), moved.get(k));
                }
            }
            assert forall|j: Aggregate, c: int, m: int|
                0 <= c < post.job.grid && 0 <= m < LOCAL_SIZE implies (
            #[trigger] post.h.slog[c][m].get(j)).no_duplicates() by {
                assert(self.h.slog[c][m].get(j).no_duplicates());
            }
        }
        assert(post.cells_ok()) by {
            assert(self.cells_ok());
            let cell = self.st.store.cells[g];
            let value = self.st.blocks[b].cells[next].get(k);
            assert(value == self.job.gather(k, k.identity(), self.h.slog[b][next].get(k)));
            lemma_cell_add(cell, k, value);
            assert(post.st.store.cells[g] == cell.add(k, value));
            assert forall|i: int| 0 <= i < before.get(k).len() implies self.job.has(
                #[trigger] before.get(k)[i],
            ) by {
                assert(self.logged(k, g, before.get(k)[i]));
            }
            assert forall|i: int| 0 <= i < moved.get(k).len() implies self.job.has(
                #[trigger] moved.get(k)[i],
            ) by {
                assert(self.slogged(k, b, next, moved.get(k)[i]));
            }
            self.job.lemma_gather_join(k, self.base.cells[g].get(k), before.get(k), moved.get(k));
            assert forall|j: Aggregate, x: int|
                #![trigger post.h.glog[x].get(j)]
                0 <= x < TOTAL_SLOTS implies post.st.store.cells[x].get(j) == post.job.gather(
                j,
                self.base.cells[x].get(j),
                post.h.glog[x].get(j),
            ) by {
                assert(self.st.store.cells[x].get(j) == self.job.gather(
                    j,
                    self.base.cells[x].get(j),
                    self.h.glog[x].get(j),
                ));
            }
            assert forall|j: Aggregate, c: int, m: int|
                #![trigger post.h.slog[c][m].get(j)]
                0 <= c < post.job.grid && 0 <= m < LOCAL_SIZE && post.inited(c, m) && !post.flushed(
                    c,
                    m,
                    j,
                ) implies post.st.blocks[c].cells[m].get(j) == post.job.gather(
                j,
                j.identity(),
                post.h.slog[c][m].get(j),
            ) by {
                assert(self.inited(c, m));
                assert(!self.flushed(c, m, j));
                assert(self.h.slog[c][m].get(j) == post.h.slog[c][m].get(j));
            }
        }
        self.lemma_assemble(post, t);
    }

    /// Every step of every thread keeps `basics`.
    pub proof fn lemma_step_basics(self, t: int)
        requires
            self.basics(),
            0 <= t < self.job.threads(),
        ensures
            self.stepped(t).basics(),
    {
        match self.st.stage(t) {
            Stage::Init { .. } => self.lemma_step_init(t),
            Stage::Start => self.lemma_step_start(t),
            Stage::Probe { .. } => self.lemma_step_look(t),
            Stage::Match { .. } => self.lemma_step_look(t),
            Stage::Claim { .. } => {
                if self.st.store.lens[self.at(t)] == 0 {
                    self.lemma_step_claim(t);
                } else {
                    self.lemma_step_look(t);
                }
            },
            Stage::Write { .. } => self.lemma_step_write(t),
            Stage::Publish { .. } => self.lemma_step_publish(t),
            Stage::Pick { .. } => self.lemma_step_pick(t),
            Stage::Grab { .. } => self.lemma_step_pick(t),
            Stage::Shared { .. } => self.lemma_step_shared(t),
            Stage::Global { .. } => self.lemma_step_global(t),
            Stage::Finish => self.lemma_step_finish(t),
            Stage::Flush { .. } => self.lemma_step_flush(t),
            Stage::Drain { .. } => self.lemma_step_drain(t),
            Stage::Done => self.lemma_unchanged(t),
        }
    }
}

} // verus!
