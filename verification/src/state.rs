//! The whole launch as a transition system: the memory, the threads, and what one step of one
//! thread does to them. A step is one access to memory, but for two kinds: the bytes of a name are
//! written, or compared, in one step, and a value of the shared table is read and added to the table
//! in one step.
//!
//! What these two rest on is stated in `claims`. While a thread holds a slot, no other thread asks for
//! the bytes of the name there (`lemma_writer_alone`), and writing them commutes with every step of
//! another thread (`lemma_copy_apart`). While a thread compares a name, nobody asks to write it
//! (`lemma_reader_safe`) and no step changes it (`lemma_compare_apart`). Once a thread adds the shared
//! table to the table, no thread of the block asks to change the shared table (`lemma_flush_safe`) and
//! no step does (`lemma_drain_apart`). A launch that makes such a step in several is not modelled.

use vstd::prelude::*;
use crate::aggregate::Cell;
use crate::launch::Job;
use crate::tables::{global_slot, written, Block, Store};
use crate::worker::{Request, Stage, Worker};

verus! {

/// Everything that a launch changes.
pub struct State {
    pub store: Store,
    pub blocks: Seq<Block>,
    pub workers: Seq<Worker>,
}

/// The thread has not set up its part of the shared table.
pub open spec fn setting_up(stage: Stage) -> bool {
    stage is Init
}

/// The thread is past the barrier behind which the shared table is in use.
pub open spec fn started(stage: Stage) -> bool {
    !(stage is Init) && !(stage is Start)
}

/// The thread has read all its rows.
pub open spec fn at_end(stage: Stage) -> bool {
    stage is Finish || past_end(stage)
}

/// The thread is past the barrier behind which the shared table is only read.
pub open spec fn past_end(stage: Stage) -> bool {
    stage is Flush || stage is Drain || stage is Done
}

impl State {
    /// The stage of a thread.
    pub open spec fn stage(self, t: int) -> Stage {
        self.workers[t].stage
    }

    /// Whether all threads of the block have reached the barrier at which a thread waits.
    pub open spec fn gate_open(self, job: Job, t: int) -> bool {
        forall|u: int|
            #![trigger self.workers[u]]
            0 <= u < job.threads() && u / job.block == t / job.block ==> {
                if self.stage(t) is Start {
                    !setting_up(self.stage(u))
                } else {
                    at_end(self.stage(u))
                }
            }
    }

    /// The state with other lengths of names.
    pub open spec fn with_lens(self, lens: Seq<i32>) -> State {
        State { store: Store { lens, ..self.store }, ..self }
    }

    /// The state with `bytes` written at the start of the name of slot `g`.
    pub open spec fn with_name(self, g: int, bytes: Seq<u8>) -> State {
        State {
            store: Store { names: written(self.store.names, g, bytes), ..self.store },
            ..self
        }
    }

    /// The state with another table of block `b`.
    pub open spec fn with_block(self, b: int, block: Block) -> State {
        State { blocks: self.blocks.update(b, block), ..self }
    }

    /// The state with thread `t` moved on.
    pub open spec fn with_worker(self, t: int, w: Worker) -> State {
        State { workers: self.workers.update(t, w), ..self }
    }

    /// What an access by thread `t` does to memory, and its reply.
    pub open spec fn served(self, job: Job, t: int, request: Request) -> (State, int) {
        let b = t / job.block;
        let block = self.blocks[b];
        let store = self.store;
        let table = job.table(t);
        match request {
            Request::Reset { index } => (
                self.with_block(
                    b,
                    Block {
                        owner: block.owner.update(index as int, -1i32),
                        cells: block.cells.update(index as int, Cell::empty()),
                    },
                ),
                0,
            ),
            Request::Barrier => (
                self,
                if self.gate_open(job, t) {
                    1
                } else {
                    0
                },
            ),
            Request::LoadLen { slot } => (self, store.lens[global_slot(table, slot as int)] as int),
            Request::ClaimLen { slot } => {
                let g = global_slot(table, slot as int);
                if store.lens[g] == 0 {
                    (self.with_lens(store.lens.update(g, -1i32)), 1)
                } else {
                    (self, 0)
                }
            },
            Request::CopyName { slot, from, len } => {
                let g = global_slot(table, slot as int);
                let name = job.text.subrange(from as int, from + len);
                (self.with_name(g, name), 0)
            },
            Request::StoreLen { slot, len } => {
                let g = global_slot(table, slot as int);
                (self.with_lens(store.lens.update(g, len as i32)), 0)
            },
            Request::MatchName { slot, from, len } => {
                let g = global_slot(table, slot as int);
                (
                    self,
                    if store.name_prefix(g, len as int) == job.text.subrange(
                        from as int,
                        from + len,
                    ) {
                        1
                    } else {
                        0
                    },
                )
            },
            Request::LoadOwner { index } => (self, block.owner[index as int] as int),
            Request::ClaimOwner { index, slot } => if block.owner[index as int] == -1 {
                (
                    self.with_block(
                        b,
                        Block {
                            owner: block.owner.update(index as int, slot as i32),
                            ..block
                        },
                    ),
                    1,
                )
            } else {
                (self, 0)
            },
            Request::AddShared { index, k, value } => {
                let cell = block.cells[index as int].add(k, value as int);
                (
                    self.with_block(
                        b,
                        Block { cells: block.cells.update(index as int, cell), ..block },
                    ),
                    0,
                )
            },
            Request::AddGlobal { slot, k, value } => {
                let g = global_slot(table, slot as int);
                let cell = store.cells[g].add(k, value as int);
                (State { store: Store { cells: store.cells.update(g, cell), ..store }, ..self }, 0)
            },
            Request::Drain { index, slot, k } => {
                let g = global_slot(table, slot as int);
                let cell = store.cells[g].add(k, block.cells[index as int].get(k));
                (State { store: Store { cells: store.cells.update(g, cell), ..store }, ..self }, 0)
            },
            Request::Exit => (self, 0),
        }
    }

    /// One step of thread `t`: the access it asks for, and what it makes of the reply.
    pub open spec fn step(self, job: Job, t: int) -> State {
        let (next, reply) = self.served(job, t, self.workers[t].asks());
        next.with_worker(t, self.workers[t].resumed(job.text, reply))
    }
}

} // verus!
