//! What the three states of a slot are good for: one writer at a time, names that stay and are claimed
//! once, and no thread that waits for ever.

use vstd::prelude::*;
use crate::course::Goal;
use crate::frame::{keeps_names, lemma_blocks, lemma_global_slot, lemma_table};
use crate::hash::{home, TABLE_SIZE};
use crate::launch::RowId;
use crate::parse::NAME_MAX;
use crate::progress::phase;
use crate::run::{holding, seeking, stage_slot, Run};
use crate::seek::lemma_name_once;
use crate::state::{at_end, past_end, setting_up};
use crate::tables::{distance, global_slot, TOTAL_SLOTS};
use crate::worker::{Request, Stage};

verus! {

impl Run {
    /// No two threads write the name of one slot at the same time.
    pub proof fn lemma_one_writer(self, t: int, u: int, g: int)
        requires
            self.inv(),
            self.holds_slot(t, g),
            self.holds_slot(u, g),
        ensures
            t == u,
    {
        assert(self.worker_ok(t));
        assert(self.worker_ok(u));
    }

    /// A slot that has a name keeps it: no step of any thread changes its length or its bytes.
    /// So a name that was found in a slot once can be relied on from then on.
    pub proof fn lemma_names_stay(self, t: int)
        requires
            self.inv(),
            0 <= t < self.job.threads(),
        ensures
            keeps_names(self.st.store, self.stepped(t).st.store),
    {
        let a = self.st.store;
        let b = self.stepped(t).st.store;
        let stage = self.st.stage(t);
        assert(self.worker_ok(t));
        if seeking(stage) {
            let g = self.at(t);
            let w = self.st.workers[t];
            lemma_table(self.job, t);
            lemma_global_slot(self.job.table(t), stage_slot(stage));
            self.job.lemma_name_len(self.current(t));
            assert(self.seek_ok(t));
            assert forall|h: int| 0 <= h < TOTAL_SLOTS && a.lens[h] > 0 implies #[trigger] b.lens[h]
                == a.lens[h] && b.slot_name(h) == a.slot_name(h) by {
                assert(self.slot_ok(h));
                if stage is Write {
                    assert(h != g);
                    assert(b.slot_name(h) =~= a.slot_name(h));
                }
            }
        }
    }

    /// As long as some thread is not through, there is a thread that does not have to wait for
    /// another one.
    pub proof fn lemma_no_deadlock(self)
        requires
            self.inv(),
            !self.finished(),
        ensures
            exists|t: int|
                0 <= t < self.job.threads() && !(self.st.stage(t) is Done) && !(#[trigger] self.waits(t)),
    {
        let t = choose|t: int|
            0 <= t < self.job.threads() && !(#[trigger] self.st.workers[t].stage is Done);
        if self.waits(t) {
            let u = self.lemma_waits_for(t);
            if self.waits(u) {
                let v = self.lemma_waits_for(u);
                if self.waits(v) {
                    let w = self.lemma_waits_for(v);
                    assert(!self.waits(w));
                }
            }
        }
    }

    /// The thread that another one waits for: one that writes a name for one that looks at it, one
    /// that sets the shared table up for one that waits to start, and one that has not read all
    /// its rows for one that waits at the end.
    proof fn lemma_waits_for(self, t: int) -> (u: int)
        requires
            self.inv(),
            0 <= t < self.job.threads(),
            self.waits(t),
        ensures
            0 <= u < self.job.threads(),
            !(self.st.stage(u) is Done),
            self.st.stage(t) is Probe ==> holding(self.st.stage(u)),
            self.st.stage(t) is Start ==> setting_up(self.st.stage(u)),
            self.st.stage(t) is Finish ==> !at_end(self.st.stage(u)),
    {
        if self.st.stage(t) is Probe {
            let g = self.at(t);
            assert(self.worker_ok(t));
            lemma_table(self.job, t);
            lemma_global_slot(self.job.table(t), stage_slot(self.st.stage(t)));
            assert(self.slot_ok(g));
            self.h.owner[g]
        } else {
            let start = self.st.stage(t) is Start;
            let u = choose|u: int|
                #![trigger self.st.workers[u]]
                0 <= u < self.job.threads() && u / self.job.block == t / self.job.block && !(if start {
                    !setting_up(self.st.stage(u))
                } else {
                    at_end(self.st.stage(u))
                });
            u
        }
    }

    /// The length that is stored for a slot moves from 0 to -1, when a thread claims the slot, and from
    /// there to the length of the name of that thread's row, which is written by then. No step changes
    /// it in any other way.
    pub proof fn lemma_len_moves(self, t: int, g: int)
        requires
            self.inv(),
            0 <= t < self.job.threads(),
            0 <= g < TOTAL_SLOTS,
        ensures
            -1 <= self.st.store.lens[g] <= NAME_MAX,
            ({
                let post = self.stepped(t).st.store;
                let len = self.st.store.lens[g];
                let name = self.job.name(self.current(t));
                ||| post.lens[g] == len
                ||| len == 0 && post.lens[g] == -1 && self.stepped(t).holds_slot(t, g)
                ||| len == -1 && self.holds_slot(t, g) && post.lens[g] == name.len()
                    && post.name_prefix(g, name.len() as int) == name
            }),
    {
        let stage = self.st.stage(t);
        assert(self.slot_ok(g));
        assert(self.worker_ok(t));
        if seeking(stage) {
            lemma_table(self.job, t);
            lemma_global_slot(self.job.table(t), stage_slot(stage));
            self.job.lemma_name_len(self.current(t));
            assert(self.row_ok(t));
            assert(self.seek_ok(t));
        }
    }

    /// A thread that sees a length above 0 sees a whole name: the one that the slot had before the
    /// launch, or that of a row that belongs to the slot.
    pub proof fn lemma_published(self, g: int)
        requires
            self.inv(),
            0 <= g < TOTAL_SLOTS,
            self.st.store.lens[g] > 0,
        ensures
            ({
                let name = self.st.store.slot_name(g);
                ||| self.base.lens[g] == self.st.store.lens[g] && self.base.slot_name(g) == name
                ||| exists|r: RowId| #[trigger]
                    self.job.has(r) && self.placed(r) && self.row_slot(r) == g && self.job.name(r)
                        == name
            }),
    {
        assert(self.slot_ok(g));
        if self.base.lens[g] <= 0 {
            assert(self.base.lens[g] == 0);
            assert(self.job.has(self.h.origin[g]));
        }
    }

    /// A row with a name whose slot is known has a slot with that name.
    pub proof fn lemma_found(self, r: RowId)
        requires
            self.inv(),
            self.job.has(r),
            self.placed(r),
            self.job.name(r).len() > 0,
        ensures
            0 <= self.row_slot(r) < TOTAL_SLOTS,
            self.st.store.lens[self.row_slot(r)] == self.job.name(r).len(),
            self.st.store.slot_name(self.row_slot(r)) == self.job.name(r),
    {
        let g = self.row_slot(r);
        assert(self.place_ok(r));
        lemma_table(self.job, r.thread);
        lemma_global_slot(self.job.table(r.thread), self.h.place[r.thread][r.index]);
        assert(self.slot_ok(g));
        assert(g * NAME_MAX + NAME_MAX <= self.st.store.names.len());
    }

    /// Rows of one table that have names, and whose slots are known, have the same slot if and only if
    /// their names are the same, whichever threads looked for them, and when.
    pub proof fn lemma_same_slot(self, r: RowId, q: RowId)
        requires
            self.inv(),
            self.job.has(r),
            self.job.has(q),
            self.placed(r),
            self.placed(q),
            self.job.table(r.thread) == self.job.table(q.thread),
            self.job.name(r).len() > 0,
            self.job.name(q).len() > 0,
        ensures
            self.row_slot(r) == self.row_slot(q) <==> self.job.name(r) == self.job.name(q),
    {
        let table = self.job.table(r.thread);
        let x = self.h.place[r.thread][r.index];
        let y = self.h.place[q.thread][q.index];
        self.lemma_found(r);
        self.lemma_found(q);
        assert(self.place_ok(r));
        assert(self.place_ok(q));
        lemma_table(self.job, r.thread);
        lemma_global_slot(table, x);
        lemma_global_slot(table, y);
        if self.job.name(r) == self.job.name(q) {
            assert(self.slot_ok(self.row_slot(r)));
            assert(self.slot_ok(self.row_slot(q)));
            lemma_name_once(self.st.store, table, x, y, self.job.name(r));
        }
    }

    /// A thread that looks for a name that its table has: its next step changes neither a length nor a
    /// name, nor does it make the thread wait. The thread goes on looking, or has found the slot.
    pub proof fn lemma_search_step(self, t: int, slot: int)
        requires
            self.inv(),
            0 <= t < self.job.threads(),
            seeking(self.st.stage(t)),
            self.job.name(self.current(t)).len() > 0,
            0 <= slot < TABLE_SIZE,
            self.st.store.bears(self.job.table(t), slot, self.job.name(self.current(t))),
        ensures
            self.stepped(t).st.store == self.st.store,
            self.stepped(t).st.blocks == self.st.blocks,
            self.stepped(t).current(t) == self.current(t),
            !holding(self.st.stage(t)),
            !self.waits(t),
            seeking(self.stepped(t).st.stage(t)) || self.stepped(t).st.stage(t) == (Stage::Pick {
                slot: slot as usize,
            }),
    {
        let table = self.job.table(t);
        let name = self.job.name(self.current(t));
        let stage = self.st.stage(t);
        let at = stage_slot(stage);
        let store = self.st.store;
        let from = home(name);
        let w = self.st.workers[t];
        assert(self.worker_ok(t));
        assert(self.row_ok(t));
        assert(self.seek_ok(t));
        lemma_table(self.job, t);
        lemma_global_slot(table, slot);
        lemma_global_slot(table, at);
        assert(self.slot_ok(global_slot(table, slot)));
        assert(self.slot_ok(self.at(t)));
        self.job.lemma_name_len(self.current(t));
        assert(name == self.job.text.subrange(w.pos as int, w.pos + w.name_len));
        assert(0 <= from < TABLE_SIZE);
        if distance(from, slot) < distance(from, at) {
            assert(store.taken(table, slot, name));
        } else if distance(from, at) < distance(from, slot) {
            assert(store.taken(table, at, name));
        } else {
            assert(at == slot);
        }
        assert(store.lens[self.at(t)] > 0);
        assert(store.slot_name(self.at(t)).len() == store.lens[self.at(t)]) by {
            assert(self.at(t) * NAME_MAX + NAME_MAX <= store.names.len());
        }
        assert(self.stepped(t).st.blocks =~= self.st.blocks);
    }

    /// A search for a name that the table has ends at the slot that has it, and leaves all of memory as
    /// it is: a name is claimed once.
    pub proof fn lemma_search_again(self, t: int, slot: int)
        requires
            self.inv(),
            0 <= t < self.job.threads(),
            seeking(self.st.stage(t)),
            self.job.name(self.current(t)).len() > 0,
            0 <= slot < TABLE_SIZE,
            self.st.store.bears(self.job.table(t), slot, self.job.name(self.current(t))),
        ensures
            self.driven(t, Goal::Found).st.stage(t) == (Stage::Pick { slot: slot as usize }),
            self.driven(t, Goal::Found).st.store == self.st.store,
            self.driven(t, Goal::Found).st.blocks == self.st.blocks,
            self.driven(t, Goal::Found).current(t) == self.current(t),
        decreases
                self.rows_left(t),
                phase(self.st.stage(t)),
                self.slots_left(t),
                self.turns_left(t),
    {
        let next = self.stepped(t);
        self.lemma_search_step(t, slot);
        self.lemma_progress(t);
        self.lemma_step(t);
        assert(self.goes_on(t, Goal::Found));
        if seeking(next.st.stage(t)) {
            next.lemma_search_again(t, slot);
        } else {
            assert(!next.goes_on(t, Goal::Found));
        }
    }

    /// While a thread writes the name of a slot, no other thread asks for the bytes there, neither to
    /// write nor to compare them: nobody sees a name that is half written.
    pub proof fn lemma_writer_alone(self, t: int, u: int, g: int)
        requires
            self.inv(),
            self.holds_slot(t, g),
            0 <= u < self.job.threads(),
            u != t,
        ensures
            self.st.workers[u].asks() matches Request::CopyName { slot, .. } ==> global_slot(
                self.job.table(u),
                slot as int,
            ) != g,
            self.st.workers[u].asks() matches Request::MatchName { slot, .. } ==> global_slot(
                self.job.table(u),
                slot as int,
            ) != g,
    {
        assert(self.worker_ok(t));
        assert(self.worker_ok(u));
        if self.holds_slot(u, g) {
            self.lemma_one_writer(t, u, g);
        }
    }

    /// While a thread compares the name of a slot, no thread asks to write the bytes there.
    pub proof fn lemma_reader_safe(self, t: int, u: int)
        requires
            self.inv(),
            0 <= t < self.job.threads(),
            0 <= u < self.job.threads(),
            self.st.stage(t) is Match,
        ensures
            self.st.workers[u].asks() matches Request::CopyName { slot, .. } ==> global_slot(
                self.job.table(u),
                slot as int,
            ) != self.at(t),
    {
        assert(self.worker_ok(t));
        assert(self.worker_ok(u));
    }

    /// Once a thread of a block adds the shared table to the table, no thread of the block asks to
    /// change the shared table.
    pub proof fn lemma_flush_safe(self, t: int, u: int)
        requires
            self.inv(),
            0 <= t < self.job.threads(),
            0 <= u < self.job.threads(),
            self.block(t) == self.block(u),
            past_end(self.st.stage(t)),
        ensures
            !(self.st.workers[u].asks() is Reset),
            !(self.st.workers[u].asks() is ClaimOwner),
            !(self.st.workers[u].asks() is AddShared),
    {
        assert(self.pair_ok(t, u));
    }

    /// While a thread holds a slot, what stands in the bytes of the name there makes no difference to any
    /// other thread, and no other thread changes it: to write some of them before a step of another
    /// thread is the same as to write them after it. So they may be written in any number of steps.
    pub proof fn lemma_copy_apart(self, t: int, u: int, g: int, bytes: Seq<u8>)
        requires
            self.inv(),
            self.holds_slot(t, g),
            0 <= u < self.job.threads(),
            u != t,
            bytes.len() <= NAME_MAX,
        ensures
            self.st.with_name(g, bytes).step(self.job, u) == self.st.step(self.job, u).with_name(
                g,
                bytes,
            ),
    {
        let put = self.st.with_name(g, bytes);
        let job = self.job;
        let stage = self.st.stage(u);
        self.lemma_writer_alone(t, u, g);
        assert(self.worker_ok(t));
        assert(self.worker_ok(u));
        lemma_table(job, t);
        lemma_global_slot(job.table(t), stage_slot(self.st.stage(t)));
        assert(put.gate_open(job, u) == self.st.gate_open(job, u));
        if seeking(stage) {
            let h = self.at(u);
            lemma_table(job, u);
            lemma_global_slot(job.table(u), stage_slot(stage));
            job.lemma_name_len(self.current(u));
            assert(self.row_ok(u));
            assert(self.seek_ok(u));
            if stage is Match {
                let len = self.st.workers[u].name_len as int;
                assert(put.store.name_prefix(h, len) =~= self.st.store.name_prefix(h, len));
            } else if stage is Write {
                assert(put.step(job, u).store.names =~= self.st.step(job, u).with_name(
                    g,
                    bytes,
                ).store.names);
            }
        }
    }

    /// While a thread compares its name with that of a slot, no step of a thread changes the length or
    /// the bytes there. So they may be read in any number of steps.
    pub proof fn lemma_compare_apart(self, t: int, u: int)
        requires
            self.inv(),
            0 <= t < self.job.threads(),
            0 <= u < self.job.threads(),
            self.st.stage(t) is Match,
        ensures
            self.st.store.lens[self.at(t)] == self.job.name(self.current(t)).len(),
            self.stepped(u).st.store.lens[self.at(t)] == self.st.store.lens[self.at(t)],
            self.stepped(u).st.store.slot_name(self.at(t)) == self.st.store.slot_name(self.at(t)),
    {
        assert(self.worker_ok(t));
        assert(self.row_ok(t));
        assert(self.seek_ok(t));
        lemma_table(self.job, t);
        lemma_global_slot(self.job.table(t), stage_slot(self.st.stage(t)));
        self.lemma_names_stay(u);
    }

    /// Once a thread of a block is past the end, no step of a thread changes the shared table of the
    /// block. So a value may be read from it before it is added to the table.
    pub proof fn lemma_drain_apart(self, t: int, u: int)
        requires
            self.inv(),
            0 <= t < self.job.threads(),
            0 <= u < self.job.threads(),
            past_end(self.st.stage(t)),
        ensures
            self.stepped(u).st.blocks[self.block(t)] == self.st.blocks[self.block(t)],
    {
        lemma_blocks(self.job, t);
        lemma_blocks(self.job, u);
        if self.block(t) == self.block(u) {
            self.lemma_flush_safe(t, u);
        }
    }
}

} // verus!
