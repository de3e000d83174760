//! What a step leaves as it was: the other threads, the names that slots have, and the slots
//! that rows were found to belong to.

use vstd::prelude::*;
use crate::aggregate::Aggregate;
use crate::hash::{home, TABLE_SIZE};
use crate::launch::{lemma_rows_fit, lemma_rows_from, Job, RowId, NUM_TABLES};
use crate::parse::{lemma_index_from, NAME_MAX, NEWLINE};
use crate::run::{holding, located, seeking, stage_slot, Run};
use crate::state::{at_end, past_end, setting_up, started};
use crate::tables::{distance, global_slot, Store, LOCAL_SIZE, TOTAL_SLOTS};
use crate::worker::{local_slot, Stage};

verus! {

/// Slots that have a name keep it.
pub open spec fn keeps_names(a: Store, b: Store) -> bool {
    forall|g: int|
        #![trigger b.lens[g]]
        0 <= g < TOTAL_SLOTS && a.lens[g] > 0 ==> b.lens[g] == a.lens[g] && b.slot_name(g)
            == a.slot_name(g)
}

/// A slot of a table has its place among the slots of all tables.
pub proof fn lemma_global_slot(table: int, slot: int)
    requires
        0 <= table < NUM_TABLES,
        0 <= slot < TABLE_SIZE,
    ensures
        0 <= global_slot(table, slot) < TOTAL_SLOTS,
        global_slot(table, slot) / TABLE_SIZE as int == table,
        global_slot(table, slot) % TABLE_SIZE as int == slot,
{
}

/// Each of the slots of all tables is a slot of one table.
pub proof fn lemma_split_slot(g: int)
    requires
        0 <= g < TOTAL_SLOTS,
    ensures
        0 <= g / TABLE_SIZE as int,
        g / (TABLE_SIZE as int) < NUM_TABLES,
        0 <= g % TABLE_SIZE as int,
        g % (TABLE_SIZE as int) < TABLE_SIZE,
        global_slot(g / TABLE_SIZE as int, g % TABLE_SIZE as int) == g,
{
}

/// Slots that were passed have other names for good.
pub proof fn lemma_passed_kept(a: Store, b: Store, table: int, slot: int, name: Seq<u8>)
    requires
        keeps_names(a, b),
        0 <= table < NUM_TABLES,
        a.passed(table, slot, name),
    ensures
        b.passed(table, slot, name),
{
    assert forall|x: int|
        0 <= x < TABLE_SIZE && distance(home(name), x)
            < distance(home(name), slot) implies #[trigger] b.taken(
        table,
        x,
        name,
    ) by {
        assert(a.taken(table, x, name));
        lemma_global_slot(table, x);
    }
}

/// A slot that has a name has it for good.
pub proof fn lemma_bears_kept(a: Store, b: Store, table: int, slot: int, name: Seq<u8>)
    requires
        keeps_names(a, b),
        0 <= table < NUM_TABLES,
        0 <= slot < TABLE_SIZE,
        a.bears(table, slot, name),
    ensures
        b.bears(table, slot, name),
{
    lemma_global_slot(table, slot);
}

/// A thread works on one of the tables.
pub proof fn lemma_table(job: Job, t: int)
    requires
        job.wf(),
    ensures
        0 <= job.table(t) < NUM_TABLES,
{
}

/// Threads and blocks: where the thread of a block stands, and which block a thread is in.
pub proof fn lemma_blocks(job: Job, t: int)
    requires
        job.wf(),
        0 <= t < job.threads(),
    ensures
        0 <= t / job.block < job.grid,
        0 <= t % job.block < job.block,
        (t / job.block) * job.block + t % job.block == t,
{
    let b = job.block;
    let n = job.grid;
    vstd::arithmetic::div_mod::lemma_fundamental_div_mod(t, b);
    assert(0 <= t / b < n) by (nonlinear_arith)
        requires
            0 <= t < n * b,
            b > 0,
    ;
    assert(b * (t / b) == (t / b) * b) by (nonlinear_arith);
}

impl Job {
    /// What is known of every row of a launch.
    pub proof fn lemma_name_len(self, r: RowId)
        requires
            self.wf(),
            self.fits(),
            self.has(r),
        ensures
            0 <= self.row(r).pos,
            self.name(r).len() == self.row(r).name_len,
            self.name(r).len() <= NAME_MAX,
            self.row(r).pos + self.row(r).len <= self.text.len(),
            self.window_end(r.thread) <= self.text.len(),
            -i16::MAX <= self.row(r).temp <= i16::MAX,
    {
        let job = self;
        let t = r.thread;
        let pos = job.first_row(t)->0;
        lemma_first_row(job, t);
        lemma_rows_from(job.text, pos, job.window_end(t), r.index);
        assert(job.thread_fits(t));
        lemma_rows_fit(job.text, pos, job.window_end(t), r.index);
    }
}

impl Run {
    /// The thread that keeps a shared slot is one of the block.
    pub proof fn lemma_keeper(self, b: int, l: int)
        requires
            self.job.wf(),
            0 <= b < self.job.grid,
            0 <= l,
        ensures
            0 <= self.keeper(b, l) < self.job.threads(),
            self.block(self.keeper(b, l)) == b,
            self.keeper(b, l) % self.job.block == l % self.job.block,
    {
        let s = self.job.block;
        let x = l % s;
        vstd::arithmetic::div_mod::lemma_fundamental_div_mod_converse(b * s + x, s, b, x);
        assert(0 <= b * s + x < self.job.grid * s) by (nonlinear_arith)
            requires
                0 <= b < self.job.grid,
                0 <= x < s,
        ;
    }

    /// `post` may come of a step of thread `t`: nothing of other threads has changed, nor any
    /// name, nor the slot of any row.
    pub open spec fn leads_to(self, post: Run, t: int) -> bool {
        &&& post.job == self.job
        &&& post.base == self.base
        &&& 0 <= t < self.job.threads()
        &&& self.keeps_memory(post, t)
        &&& forall|u: int|
            #![trigger post.st.workers[u]]
            0 <= u < self.job.threads() && u != t ==> post.st.workers[u] == self.st.workers[u]
        &&& forall|u: int|
            #![trigger post.h.done[u]]
            0 <= u < self.job.threads() && u != t ==> post.h.done[u] == self.h.done[u]
        &&& forall|r: RowId|
            #![trigger post.placed(r)]
            self.job.has(r) && self.placed(r) ==> post.placed(r)
                && post.h.place[r.thread][r.index] == self.h.place[r.thread][r.index]
        &&& forall|r: RowId|
            #![trigger post.placed(r)]
            self.job.has(r) && r != self.current(t) && post.placed(r) ==> self.placed(r)
    }

    /// The part of `leads_to` that speaks of memory.
    pub open spec fn keeps_memory(self, post: Run, t: int) -> bool {
        &&& post.shaped()
        &&& keeps_names(self.st.store, post.st.store)
        &&& forall|g: int|
            #![trigger post.st.store.lens[g]]
            0 <= g < TOTAL_SLOTS && self.st.store.lens[g] == -1 && self.h.owner[g] != t ==> {
                &&& post.st.store.lens[g] == -1
                &&& post.h.owner[g] == self.h.owner[g]
                &&& forall|len: int|
                    0 <= len <= NAME_MAX ==> #[trigger] post.st.store.name_prefix(g, len)
                        == self.st.store.name_prefix(g, len)
            }
        &&& forall|b: int, l: int|
            #![trigger post.st.blocks[b].owner[l]]
            0 <= b < self.job.grid && 0 <= l < LOCAL_SIZE && self.inited(b, l)
                && self.st.blocks[b].owner[l] != -1 ==> post.st.blocks[b].owner[l]
                == self.st.blocks[b].owner[l]
    }

    /// Only the slot of the current row of thread `t` may have been recorded.
    pub open spec fn keeps_places(self, post: Run, t: int) -> bool {
        &&& post.h.done == self.h.done
        &&& forall|u: int|
            #![trigger post.h.place[u]]
            0 <= u < self.job.threads() && u != t ==> post.h.place[u] == self.h.place[u]
        &&& forall|i: int|
            #![trigger post.h.place[t][i]]
            0 <= i < self.job.rows(t).len() && (i != self.h.done[t] || located(self.st.stage(t)))
                ==> post.h.place[t][i] == self.h.place[t][i]
    }

    /// A step of a thread that looks for the slot of its row, or has found it, but has not
    /// added to any value.
    pub proof fn lemma_move(self, post: Run, t: int)
        requires
            self.basics(),
            0 <= t < self.job.threads(),
            post.job == self.job,
            post.base == self.base,
            self.keeps_memory(post, t),
            self.keeps_places(post, t),
            post.st.workers == self.st.workers.update(t, post.st.workers[t]),
            post.h.glog == self.h.glog,
            post.h.slog == self.h.slog,
            post.st.store.cells == self.st.store.cells,
            forall|b: int|
                0 <= b < self.job.grid ==> (#[trigger] post.st.blocks[b]).cells
                    == self.st.blocks[b].cells,
            seeking(self.st.stage(t)) || self.st.stage(t) is Pick || self.st.stage(t)
                is Grab,
            seeking(post.st.stage(t)) || located(post.st.stage(t)),
            located(self.st.stage(t)) ==> located(post.st.stage(t)),
            post.st.stage(t) matches Stage::Shared { k, .. } ==> k
                == Aggregate::Sum,
            post.st.stage(t) matches Stage::Global { k, .. } ==> k
                == Aggregate::Sum,
        ensures
            self.leads_to(post, t),
            self.adds_nothing(post),
            post.pairs_ok(),
            forall|b: int, l: int|
                #![trigger post.inited(b, l)]
                0 <= b < self.job.grid && 0 <= l < LOCAL_SIZE ==> post.inited(b, l) == self.inited(
                    b,
                    l,
                ),
    {
        assert forall|b: int, l: int|
            #![trigger post.inited(b, l)]
            0 <= b < self.job.grid && 0 <= l < LOCAL_SIZE implies post.inited(b, l) == self.inited(
            b,
            l,
        ) by {
            self.lemma_keeper(b, l);
        }
        assert forall|b: int, l: int, k: Aggregate|
            #![trigger post.flushed(b, l, k)]
            0 <= b < self.job.grid && 0 <= l < LOCAL_SIZE implies post.flushed(b, l, k)
            == self.flushed(b, l, k) by {
            self.lemma_keeper(b, l);
        }
        assert forall|r: RowId, k: Aggregate|
            #![trigger post.applied(r, k)]
            #![trigger self.applied(r, k)]
            self.job.has(r) implies post.applied(r, k) == self.applied(r, k) by {
            if r.thread != t {
                assert(post.st.workers[r.thread] == self.st.workers[r.thread]);
            }
        }
        assert(self.adds_nothing(post)) by {
            assert(forall|b: int|
                0 <= b < self.job.grid ==> (#[trigger] post.st.blocks[b]).cells
                    == self.st.blocks[b].cells);
        }
        self.lemma_pairs_kept(post, t);
    }

    /// The barriers hold back whom they should, if thread `t` passed one only when it was open.
    pub proof fn lemma_pairs_kept(self, post: Run, t: int)
        requires
            self.basics(),
            0 <= t < self.job.threads(),
            post.job == self.job,
            post.st.workers == self.st.workers.update(t, post.st.workers[t]),
            setting_up(post.st.stage(t)) ==> setting_up(self.st.stage(t)),
            at_end(self.st.stage(t)) ==> at_end(post.st.stage(t)),
            started(post.st.stage(t)) ==> started(self.st.stage(t)) || self.st.stage(t) is Start
                && self.st.gate_open(self.job, t),
            past_end(post.st.stage(t)) ==> past_end(self.st.stage(t)) || self.st.stage(t) is Finish
                && self.st.gate_open(self.job, t),
        ensures
            post.pairs_ok(),
    {
        assert forall|u: int, v: int|
            0 <= u < self.job.threads() && 0 <= v < self.job.threads() implies #[trigger] post.pair_ok(
            u,
            v,
        ) by {
            assert(self.pair_ok(u, v));
            assert(self.pair_ok(t, v));
            if u != t {
                assert(post.st.workers[u] == self.st.workers[u]);
            }
            if v != t {
                assert(post.st.workers[v] == self.st.workers[v]);
            }
            assert(self.st.workers[v] == self.st.workers[v]);
            assert(self.st.workers[t] == self.st.workers[t]);
        }
    }

    /// All that is left to show of a step for the invariant to hold after it.
    pub proof fn lemma_assemble(self, post: Run, t: int)
        requires
            self.basics(),
            self.leads_to(post, t),
            post.worker_ok(t),
            post.slots_ok(),
            post.places_ok(),
            post.shareds_ok(),
            post.pairs_ok(),
            post.logs_ok(),
        ensures
            post.basics(),
    {
        assert forall|u: int| 0 <= u < post.job.threads() implies #[trigger] post.worker_ok(u) by {
            if u != t {
                self.lemma_others_ok(post, t, u);
            }
        }
    }

    /// A thread that has started finds the whole shared table set up.
    pub proof fn lemma_all_inited(self, t: int, l: int)
        requires
            self.basics(),
            0 <= t < self.job.threads(),
            0 <= l,
            started(self.st.stage(t)),
        ensures
            self.inited(self.block(t), l),
    {
        lemma_blocks(self.job, t);
        let u = self.keeper(self.block(t), l);
        self.lemma_keeper(self.block(t), l);
        assert(self.pair_ok(t, u));
    }

    /// The other threads are still where they should be.
    pub proof fn lemma_others_ok(self, post: Run, t: int, u: int)
        requires
            self.basics(),
            self.leads_to(post, t),
            0 <= u < self.job.threads(),
            u != t,
        ensures
            post.worker_ok(u),
    {
        assert(self.worker_ok(u));
        let stage = self.st.stage(u);
        let w = self.st.workers[u];
        assert(post.st.workers[u] == w);
        assert(post.h.done[u] == self.h.done[u]);
        lemma_blocks(self.job, u);
        let b = self.block(u);
        let store = self.st.store;
        lemma_table(self.job, u);
        if seeking(stage) {
            let g = self.at(u);
            let slot = stage_slot(stage);
            lemma_global_slot(self.job.table(u), slot);
            let name = self.job.name(self.current(u));
            lemma_passed_kept(store, post.st.store, self.job.table(u), slot, name);
            assert(post.st.store.lens[g] == post.st.store.lens[g]);
            if holding(stage) {
                assert(self.seek_ok(u));
                assert(store.lens[g] == -1 && self.h.owner[g] == u);
                assert(post.st.store.lens[g] == -1);
                self.job.lemma_name_len(self.current(u));
                assert(post.st.store.name_prefix(g, name.len() as int) == store.name_prefix(
                    g,
                    name.len() as int,
                ));
            }
            assert(post.seek_ok(u));
        }
        if located(stage) {
            let r = self.current(u);
            let slot = stage_slot(stage);
            assert(self.job.has(r) && self.placed(r));
            assert(post.placed(r));
            if stage is Shared {
                let l = local_slot(slot);
                self.lemma_all_inited(u, l);
                assert(post.st.blocks[b].owner[l] == self.st.blocks[b].owner[l]);
            }
            assert(post.located_ok(u));
        }
        if let Stage::Drain { next, .. } = stage {
            self.lemma_all_inited(u, next as int);
            assert(post.st.blocks[b].owner[next as int] == self.st.blocks[b].owner[next as int]);
        }
    }

    /// Rows that had a slot still have it.
    pub proof fn lemma_places_kept(self, post: Run, t: int)
        requires
            self.basics(),
            self.leads_to(post, t),
            self.job.has(self.current(t)) && post.placed(self.current(t)) && !self.placed(
                self.current(t),
            ) ==> post.place_ok(self.current(t)),
        ensures
            post.places_ok(),
    {
        assert forall|r: RowId| post.job.has(r) && post.placed(r) implies #[trigger] post.place_ok(
            r,
        ) by {
            if self.placed(r) {
                assert(self.place_ok(r));
                lemma_table(self.job, r.thread);
                if self.job.name(r).len() > 0 {
                    lemma_bears_kept(
                        self.st.store,
                        post.st.store,
                        self.job.table(r.thread),
                        self.h.place[r.thread][r.index],
                        self.job.name(r),
                    );
                }
            }
        }
    }

    /// A slot that the step did not touch is as it should be.
    pub proof fn lemma_slot_kept(self, post: Run, t: int, g: int)
        requires
            self.basics(),
            self.leads_to(post, t),
            0 <= g < TOTAL_SLOTS,
            post.st.store.lens[g] == self.st.store.lens[g],
            post.h.owner[g] == self.h.owner[g],
            post.h.origin[g] == self.h.origin[g],
            post.st.store.lens[g] == -1 && self.h.owner[g] == t ==> post.holds_slot(t, g),
        ensures
            post.slot_ok(g),
    {
        assert(self.slot_ok(g));
        let store = self.st.store;
        lemma_split_slot(g);
        if store.lens[g] == -1 {
            let u = self.h.owner[g];
            if u != t {
                assert(post.st.workers[u] == self.st.workers[u]);
            }
        }
        if store.lens[g] > 0 {
            lemma_passed_kept(
                store,
                post.st.store,
                g / TABLE_SIZE as int,
                g % TABLE_SIZE as int,
                store.slot_name(g),
            );
            if self.base.lens[g] == 0 {
                assert(post.placed(self.h.origin[g]));
            }
        }
    }
}

/// Where a thread's part of the text lies, and where it starts to read.
pub proof fn lemma_first_row(job: Job, t: int)
    requires
        job.wf(),
        0 <= t < job.threads(),
    ensures
        job.first_row(t) matches Some(pos) ==> 0 <= pos <= job.text.len(),
        0 <= job.window_start(t),
        job.window_end(t) <= job.text.len(),
        job.window_start(t) < job.text.len() ==> job.window_start(t) <= job.window_end(t),
        0 <= job.chunk(),
        t * job.chunk() + job.chunk() == (t + 1) * job.chunk(),
{
    let c = job.chunk();
    let n = job.threads();
    assert(n > 0);
    assert(c >= 0) by (nonlinear_arith)
        requires
            c == (job.text.len() + n - 1) / n,
            n > 0,
    ;
    assert(t * c >= 0) by (nonlinear_arith)
        requires
            t >= 0,
            c >= 0,
    ;
    assert(t * c + c == (t + 1) * c) by (nonlinear_arith);
    let s = job.text;
    if job.window_start(t) < s.len() {
        lemma_index_from(s, NEWLINE, job.window_start(t));
    }
}

} // verus!
