//! The steps at the two barriers of a block and around them: setting the shared table up,
//! starting to read, and going over to the flush.

use vstd::prelude::*;
use crate::aggregate::Aggregate;
use crate::frame::{lemma_blocks, lemma_first_row, lemma_table};
use crate::hash::home;
use crate::launch::{
    lemma_line_result, lemma_rows_fit, lemma_rows_step, reads_on, row_result, rows_fit,
    rows_from, RowId,
};
use crate::run::{located, seeking, stage_slot, Run};
use crate::state::setting_up;
use crate::tables::{LOCAL_SIZE, TOTAL_SLOTS};
use crate::worker::Worker;

verus! {

/// Numbers that leave the same rest are a multiple of the divisor apart.
pub proof fn lemma_same_rest(l: int, n: int, s: int)
    requires
        s > 0,
        l % s == n % s,
        l < n + s,
    ensures
        l <= n,
{
    vstd::arithmetic::div_mod::lemma_fundamental_div_mod(l, s);
    vstd::arithmetic::div_mod::lemma_fundamental_div_mod(n, s);
    let a = l / s;
    let b = n / s;
    assert(a <= b) by (nonlinear_arith)
        requires
            s * a + l % s < s * b + n % s + s,
            l % s == n % s,
            s > 0,
    ;
    assert(s * a <= s * b) by (nonlinear_arith)
        requires
            a <= b,
            s > 0,
    ;
}

impl Run {
    /// A thread that goes to a row gets it right.
    pub proof fn lemma_at_row(self, t: int, w: Worker, pos: int, done: int)
        requires
            self.input_ok(),
            0 <= t < self.job.threads(),
            0 <= pos <= self.job.text.len(),
            w.end == self.job.window_end(t),
            0 <= done <= self.job.rows(t).len(),
            rows_from(self.job.text, pos, w.end as int) == self.job.rows(t).skip(done),
            rows_fit(self.job.text, pos, w.end as int),
        ensures
            ({
                let to = w.at_row(self.job.text, pos);
                let rows = self.job.rows(t);
                &&& to.tid == w.tid && to.lane == w.lane && to.stride == w.stride && to.end == w.end
                &&& if done == rows.len() {
                    to.stage is Finish
                } else {
                    &&& to.stage is Probe
                    &&& to.pos == rows[done].pos && to.pos == pos
                    &&& to.name_len == rows[done].name_len
                    &&& to.temp == rows[done].temp
                    &&& to.line_len == rows[done].len
                    &&& stage_slot(to.stage) == home(
                        rows[done].name(self.job.text),
                    )
                }
            }),
    {
        let text = self.job.text;
        let rows = self.job.rows(t);
        let end = w.end as int;
        lemma_first_row(self.job, t);
        if reads_on(text, pos, end) {
            lemma_line_result(text.skip(pos), text.len() - pos);
            if row_result(text, pos) is Some {
                lemma_rows_step(text, pos, end);
                lemma_rows_fit(text, pos, end, 0);
                assert(rows_from(text, pos, end)[0] == rows[done]);
            }
        }
    }

    /// A step that changes nothing keeps the invariant.
    pub proof fn lemma_unchanged(self, t: int)
        requires
            self.basics(),
            0 <= t < self.job.threads(),
            self.stepped(t).st.workers[t] == self.st.workers[t],
            self.stepped(t).st.store == self.st.store,
            self.stepped(t).st.blocks == self.st.blocks,
            self.stepped(t).h == self.h,
        ensures
            self.stepped(t).basics(),
    {
        assert(self.stepped(t).st.workers =~= self.st.workers);
        assert(self.stepped(t) == self);
    }

    /// The thread sets one shared slot up.
    pub proof fn lemma_step_init(self, t: int)
        requires
            self.basics(),
            0 <= t < self.job.threads(),
            self.st.stage(t) is Init,
        ensures
            self.stepped(t).basics(),
    {
        let post = self.stepped(t);
        let w = self.st.workers[t];
        let s = self.job.block;
        let b = self.block(t);
        lemma_blocks(self.job, t);
        assert(self.worker_ok(t));
        let next = w.stage->Init_next as int;
        assert forall|c: int, l: int|
            0 <= c < self.job.grid && 0 <= l < LOCAL_SIZE implies #[trigger] post.inited(c, l) == (
        self.inited(c, l) || c == b && l == next) by {
            self.lemma_keeper(c, l);
            let u = self.keeper(c, l);
            if u == t {
                assert(c == b);
                assert(l % s == next % s);
                if l < next + s {
                    lemma_same_rest(l, next, s);
                }
            } else if c == b && l == next {
                assert(u == t) by {
                    assert(l % s == t % s);
                }
            }
        }
        assert(!self.inited(b, next)) by {
            self.lemma_keeper(b, next);
        }
        assert forall|k: Aggregate| (#[trigger] self.h.slog[b][next].get(k)).len() == 0 by {
            if self.h.slog[b][next].get(k).len() > 0 {
                let r = self.h.slog[b][next].get(k)[0];
                assert(self.slogged(k, b, next, r));
                self.lemma_applied(r, k, next);
                assert(self.pair_ok(r.thread, t));
            }
        }
        assert(self.leads_to(post, t));
        assert forall|c: int, l: int, k: Aggregate|
            #![trigger post.flushed(c, l, k)]
            0 <= c < self.job.grid && 0 <= l < LOCAL_SIZE implies post.flushed(c, l, k)
            == self.flushed(c, l, k) by {
            self.lemma_keeper(c, l);
        }
        assert forall|r: RowId, k: Aggregate|
            #![trigger post.applied(r, k)]
            #![trigger self.applied(r, k)]
            self.job.has(r) implies post.applied(r, k) == self.applied(r, k) by {
            if r.thread != t {
                assert(post.st.workers[r.thread] == self.st.workers[r.thread]);
            }
        }
        assert(self.adds_nothing(post));
        self.lemma_pairs_kept(post, t);
        assert(post.worker_ok(t)) by {
            vstd::arithmetic::div_mod::lemma_mod_add_multiples_vanish(next, s);
        }
        assert forall|x: int| 0 <= x < TOTAL_SLOTS implies #[trigger] post.slot_ok(x) by {
            assert(self.slot_ok(x));
            self.lemma_slot_kept(post, t, x);
        }
        self.lemma_places_kept(post, t);
        assert forall|c: int, l: int|
            0 <= c < self.job.grid && 0 <= l < LOCAL_SIZE implies #[trigger] post.shared_ok(c, l) by {
            assert(self.shared_ok(c, l));
            assert(post.inited(c, l) == (self.inited(c, l) || c == b && l == next));
        }
        self.lemma_logs_kept(post, t);
        self.lemma_assemble(post, t);
    }

    /// What the steps that only change the stage of a thread have in common.
    pub proof fn lemma_restaged(self, post: Run, t: int)
        requires
            self.basics(),
            0 <= t < self.job.threads(),
            post.job == self.job,
            post.base == self.base,
            post.h == self.h,
            post.st == self.st.with_worker(t, post.st.workers[t]),
            !setting_up(self.st.stage(t)) && !setting_up(post.st.stage(t)),
            !seeking(self.st.stage(t)) && !located(self.st.stage(t)),
            !located(post.st.stage(t)),
            post.worker_ok(t),
            post.pairs_ok(),
            forall|l: int, k: Aggregate|
                0 <= l < LOCAL_SIZE && self.keeper(self.block(t), l) == t && (
                #[trigger] post.flushed(self.block(t), l, k) <==> !self.flushed(
                    self.block(t),
                    l,
                    k,
                )) ==> post.flushed(self.block(t), l, k) && self.h.slog[self.block(t)][l].get(
                    k,
                ).len() == 0,
        ensures
            post.basics(),
    {
        assert(self.leads_to(post, t));
        assert forall|c: int, l: int|
            #![trigger post.inited(c, l)]
            0 <= c < self.job.grid && 0 <= l < LOCAL_SIZE implies post.inited(c, l) == self.inited(
            c,
            l,
        ) by {
            self.lemma_keeper(c, l);
        }
        assert forall|c: int, l: int, k: Aggregate|
            #![trigger post.flushed(c, l, k)]
            0 <= c < self.job.grid && 0 <= l < LOCAL_SIZE && (post.flushed(c, l, k)
                <==> !self.flushed(c, l, k)) implies post.flushed(c, l, k)
            && self.h.slog[c][l].get(k).len() == 0 by {
            self.lemma_keeper(c, l);
            assert(self.keeper(c, l) == t);
            assert(c == self.block(t));
        }
        assert forall|r: RowId, k: Aggregate|
            #![trigger post.applied(r, k)]
            #![trigger self.applied(r, k)]
            self.job.has(r) implies post.applied(r, k) == self.applied(r, k) by {
            if r.thread != t {
                assert(post.st.workers[r.thread] == self.st.workers[r.thread]);
            }
        }
        assert(self.adds_nothing(post));
        assert forall|x: int| 0 <= x < TOTAL_SLOTS implies #[trigger] post.slot_ok(x) by {
            assert(self.slot_ok(x));
            self.lemma_slot_kept(post, t, x);
        }
        self.lemma_places_kept(post, t);
        self.lemma_shareds_same(post);
        self.lemma_logs_kept(post, t);
        self.lemma_assemble(post, t);
    }

    /// The thread waits for its block to be set up, or goes to its first row.
    pub proof fn lemma_step_start(self, t: int)
        requires
            self.basics(),
            0 <= t < self.job.threads(),
            self.st.stage(t) is Start,
        ensures
            self.stepped(t).basics(),
    {
        let post = self.stepped(t);
        let w = self.st.workers[t];
        let text = self.job.text;
        let rows = self.job.rows(t);
        assert(self.worker_ok(t));
        if !self.st.gate_open(self.job, t) {
            self.lemma_unchanged(t);
        } else {
            lemma_first_row(self.job, t);
            lemma_table(self.job, t);
            assert(self.job.thread_fits(t));
            assert(rows.skip(0) =~= rows);
            if self.job.first_row(t) is Some {
                self.lemma_at_row(t, w, self.job.first_row(t)->0, 0);
            }
            assert(post.st.workers[t] == w.at_first_row(text));
            self.lemma_pairs_kept(post, t);
            assert(post.worker_ok(t)) by {
                if post.st.stage(t) is Probe {
                    assert(post.row_ok(t));
                    assert(post.seek_ok(t));
                }
            }
            self.lemma_restaged(post, t);
        }
    }

    /// The thread waits for its block to have read all rows, or goes over to the flush.
    pub proof fn lemma_step_finish(self, t: int)
        requires
            self.basics(),
            0 <= t < self.job.threads(),
            self.st.stage(t) is Finish,
        ensures
            self.stepped(t).basics(),
    {
        let post = self.stepped(t);
        let w = self.st.workers[t];
        let s = self.job.block;
        assert(self.worker_ok(t));
        if !self.st.gate_open(self.job, t) {
            self.lemma_unchanged(t);
        } else {
            lemma_blocks(self.job, t);
            self.lemma_pairs_kept(post, t);
            assert(post.worker_ok(t)) by {
                vstd::arithmetic::div_mod::lemma_small_mod((t % s) as nat, s as nat);
            }
            assert forall|l: int, k: Aggregate|
                0 <= l < LOCAL_SIZE && self.keeper(self.block(t), l) == t implies
                #[trigger] post.flushed(self.block(t), l, k) == self.flushed(self.block(t), l, k) by {
                self.lemma_keeper(self.block(t), l);
                assert(l % s == t % s);
                assert(l % s <= l) by (nonlinear_arith)
                    requires
                        l >= 0,
                        s > 0,
                ;
            }
            self.lemma_restaged(post, t);
        }
    }

    /// The thread looks at a shared slot in the flush.
    pub proof fn lemma_step_flush(self, t: int)
        requires
            self.basics(),
            0 <= t < self.job.threads(),
            self.st.stage(t) is Flush,
        ensures
            self.stepped(t).basics(),
    {
        let post = self.stepped(t);
        let w = self.st.workers[t];
        let s = self.job.block;
        let b = self.block(t);
        assert(self.worker_ok(t));
        lemma_blocks(self.job, t);
        let next = w.stage->Flush_next as int;
        let owner = self.st.blocks[b].owner[next];
        self.lemma_all_inited(t, next);
        assert(self.shared_ok(b, next));
        self.lemma_pairs_kept(post, t);
        assert(post.worker_ok(t)) by {
            vstd::arithmetic::div_mod::lemma_mod_add_multiples_vanish(next, s);
        }
        assert forall|l: int, k: Aggregate|
            0 <= l < LOCAL_SIZE && self.keeper(b, l) == t && (#[trigger] post.flushed(b, l, k)
                <==> !self.flushed(b, l, k)) implies post.flushed(b, l, k)
            && self.h.slog[b][l].get(k).len() == 0 by {
            self.lemma_keeper(b, l);
            assert(l % s == t % s);
            if l < next + s {
                lemma_same_rest(l, next, s);
            }
            assert(l == next && owner == -1);
            if self.h.slog[b][l].get(k).len() > 0 {
                let r = self.h.slog[b][l].get(k)[0];
                assert(self.slogged(k, b, l, r));
                self.lemma_applied(r, k, l);
            }
        }
        self.lemma_restaged(post, t);
    }
}

} // verus!
