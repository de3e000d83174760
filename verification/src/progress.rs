//! A thread that is not held up by another one comes closer to its end with every step.

use vstd::prelude::*;
use crate::frame::{lemma_global_slot, lemma_table};
use crate::hash::{home, TABLE_SIZE};
use crate::parse::NAME_MAX;
use crate::run::{located, seeking, stage_slot, Run};
use crate::seek::lemma_passed_next;
use crate::tables::{distance, LOCAL_SIZE};
use crate::worker::Stage;

verus! {

/// How far a thread has come with its current row, or with what comes before and after all rows.
pub open spec fn phase(stage: Stage) -> int {
    match stage {
        Stage::Init { .. } => 6,
        Stage::Start => 5,
        Stage::Finish => 2,
        Stage::Flush { .. } => 1,
        Stage::Drain { .. } => 1,
        Stage::Done => 0,
        _ => if seeking(stage) {
            4
        } else {
            3
        },
    }
}

impl Run {
    /// Another thread has to do something before this one gets on.
    pub open spec fn waits(self, t: int) -> bool {
        match self.st.stage(t) {
            Stage::Start => !self.st.gate_open(self.job, t),
            Stage::Finish => !self.st.gate_open(self.job, t),
            Stage::Probe { .. } => self.st.store.lens[self.at(t)] == -1,
            _ => false,
        }
    }

    /// Rows that the thread still has to count.
    pub open spec fn rows_left(self, t: int) -> int {
        self.job.rows(t).len() - self.h.done[t]
    }

    /// Slots that are left to set up, to add to the table, or to pass in the search for a name.
    pub open spec fn slots_left(self, t: int) -> int {
        match self.st.stage(t) {
            Stage::Init { next } => LOCAL_SIZE - next,
            Stage::Flush { next } => LOCAL_SIZE - next,
            Stage::Drain { next, .. } => LOCAL_SIZE - next,
            stage => if seeking(stage) {
                TABLE_SIZE - distance(home(self.job.name(self.current(t))), stage_slot(stage))
            } else {
                0
            },
        }
    }

    /// Steps that are left at the current slot, at most.
    pub open spec fn turns_left(self, t: int) -> int {
        match self.st.stage(t) {
            Stage::Claim { .. } => if self.st.store.lens[self.at(t)] == 0 {
                2
            } else {
                4
            },
            Stage::Probe { .. } => 3,
            Stage::Match { .. } => 2,
            Stage::Write { .. } => 1,
            Stage::Pick { .. } => 6,
            Stage::Grab { .. } => 5,
            Stage::Shared { k, .. } => 4 - k.rank(),
            Stage::Global { k, .. } => 4 - k.rank(),
            Stage::Flush { .. } => 5,
            Stage::Drain { k, .. } => 4 - k.rank(),
            _ => 0,
        }
    }

    /// Less is left to do than before, if one goes by rows first, then by phases, then by slots,
    /// then by turns.
    pub open spec fn closer(self, post: Run, t: int) -> bool {
        ||| post.rows_left(t) < self.rows_left(t)
        ||| {
            &&& post.rows_left(t) == self.rows_left(t)
            &&& {
                ||| phase(post.st.stage(t)) < phase(self.st.stage(t))
                ||| {
                    &&& phase(post.st.stage(t)) == phase(self.st.stage(t))
                    &&& {
                        ||| post.slots_left(t) < self.slots_left(t)
                        ||| post.slots_left(t) == self.slots_left(t) && post.turns_left(t)
                            < self.turns_left(t)
                    }
                }
            }
        }
    }

    /// A thread that does not wait gets closer to its end with its next step.
    pub proof fn lemma_progress(self, t: int)
        requires
            self.basics(),
            0 <= t < self.job.threads(),
            !(self.st.stage(t) is Done),
            !self.waits(t),
        ensures
            self.closer(self.stepped(t), t),
            self.rows_left(t) >= 0,
            self.slots_left(t) >= 0,
            self.turns_left(t) >= 0,
            self.stepped(t).rows_left(t) >= 0,
            self.stepped(t).slots_left(t) >= 0,
            self.stepped(t).turns_left(t) >= 0,
    {
        let post = self.stepped(t);
        self.lemma_step_basics(t);
        self.lemma_left(t);
        post.lemma_left(t);
        assert(self.worker_ok(t));
        assert(post.worker_ok(t));
        let stage = self.st.stage(t);
        if seeking(stage) {
            let slot = stage_slot(stage);
            let name = self.job.name(self.current(t));
            let table = self.job.table(t);
            let g = self.at(t);
            let store = self.st.store;
            lemma_table(self.job, t);
            lemma_global_slot(table, slot);
            assert(self.slot_ok(g));
            self.job.lemma_name_len(self.current(t));
            assert(self.seek_ok(t));
            assert(store.slot_name(g).len() == store.lens[g] || store.lens[g] <= 0) by {
                assert(g * NAME_MAX + NAME_MAX <= store.names.len());
            }
            let w = self.st.workers[t];
            assert(name == self.job.text.subrange(w.pos as int, w.pos + w.name_len));
            if store.taken(table, slot, name) {
                self.lemma_not_full(t);
                lemma_passed_next(store, table, slot, name);
            }
        } else if located(stage) {
            assert(self.row_ok(t));
            self.job.lemma_name_len(self.current(t));
        }
    }

    proof fn lemma_left(self, t: int)
        requires
            self.basics(),
            0 <= t < self.job.threads(),
        ensures
            self.rows_left(t) >= 0,
            self.slots_left(t) >= 0,
            self.turns_left(t) >= 0,
    {
        assert(self.worker_ok(t));
        if seeking(self.st.stage(t)) {
            assert(self.seek_ok(t));
        }
    }
}

} // verus!
