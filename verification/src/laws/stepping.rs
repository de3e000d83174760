//! What a thread asks for next, after the answer to what it asked for.

use vstd::prelude::*;
use crate::aggregate::Aggregate;
use crate::hash::fnv1a;
use crate::launch::{row_result, Job};
use crate::parse::{line_fits, start_result};
use crate::worker::{Request, Stage, Worker};

verus! {

/// A thread begins with the slot of the block's table that has its number in the block, if there is one.
/// The part of the text that it reads is the one that it is given.
pub proof fn lemma_first_step(job: Job, t: int)
    requires
        job.wf(),
        0 <= t < job.threads(),
        job.text.len() <= usize::MAX,
        job.threads() <= usize::MAX,
        job.block <= usize::MAX,
        0 <= job.window_start(t) <= usize::MAX,
        0 <= job.window_end(t) <= usize::MAX,
    ensures
        ({
            let w = Worker::starting(job, t);
            let lane = t % job.block;
            &&& w.tid == t
            &&& w.lane == lane
            &&& w.stride == job.block
            &&& w.pos == job.window_start(t)
            &&& w.end == job.window_end(t)
            &&& lane < 2048 ==> w.stage == (Stage::Init { next: lane as usize }) && w.asks() == (
            Request::Reset { index: lane as usize })
            &&& lane >= 2048 ==> w.stage == Stage::Start && w.asks() == Request::Barrier
        }),
{
    assert(0 <= t % job.block < job.block) by (nonlinear_arith)
        requires
            job.block > 0,
    ;
}

/// A thread sets up every slot of the block's table whose number differs from its own by a multiple of
/// the threads of the block, and then waits for the others.
pub proof fn lemma_set_up(w: Worker, text: Seq<u8>, reply: int, next: usize)
    requires
        w.stage == (Stage::Init { next }),
        next < 2048,
    ensures
        w.asks() == (Request::Reset { index: next }),
        ({
            let to = w.resumed(text, reply);
            &&& next + w.stride < 2048 ==> to.stage == (Stage::Init {
                next: (next + w.stride) as usize,
            })
            &&& next + w.stride >= 2048 ==> to.stage == Stage::Start
            &&& to == (Worker { stage: to.stage, ..w })
        }),
{
}

/// At a barrier a thread waits until it is let through. Behind the first one it goes to its first row,
/// behind the second one it looks at the slots of the block's table.
pub proof fn lemma_barriers(w: Worker, text: Seq<u8>, reply: int)
    ensures
        w.stage is Start ==> w.asks() is Barrier,
        w.stage is Finish ==> w.asks() is Barrier,
        (w.stage is Start || w.stage is Finish) && reply != 1 ==> w.resumed(text, reply) == w,
        w.stage is Start && reply == 1 ==> {
            let to = w.resumed(text, reply);
            let first = start_result(text, w.tid as int, w.pos as int);
            &&& w.pos >= text.len() || first is None ==> to == (Worker {
                stage: Stage::Finish,
                ..w
            })
            &&& w.pos < text.len() && first is Some ==> to == w.at_row(text, first->0)
        },
        w.stage is Finish && reply == 1 ==> {
            let to = w.resumed(text, reply);
            &&& w.lane < 2048 ==> to == (Worker { stage: Stage::Flush { next: w.lane }, ..w })
            &&& w.lane >= 2048 ==> to == (Worker { stage: Stage::Done, ..w })
        },
        w.stage is Done ==> w.asks() is Exit && w.resumed(text, reply) == w,
{
}

/// A thread that comes to a row within its reach looks for its name, from the slot on that the lowest
/// bits of the hash of the name give. One that comes to no row, or to one beyond its reach, has read
/// all.
pub proof fn lemma_next_row(w: Worker, text: Seq<u8>, pos: int)
    requires
        0 <= pos <= usize::MAX,
    ensures
        ({
            let to = w.at_row(text, pos);
            &&& pos > w.end || pos >= text.len() || row_result(text, pos) is None ==> to == (Worker {
                pos: pos as usize,
                stage: Stage::Finish,
                ..w
            }) && to.asks() is Barrier
            &&& pos <= w.end && pos < text.len() ==> (row_result(text, pos) matches Some(
                (name_len, temp, len),
            ) ==> {
                &&& 0 <= name_len <= usize::MAX ==> to.name_len == name_len
                &&& i16::MIN <= temp <= i16::MAX ==> to.temp == temp
                &&& 0 <= len <= usize::MAX ==> to.line_len == len
                &&& to.asks() == (Request::LoadLen {
                    slot: (fnv1a(text.subrange(pos, pos + name_len)) as int % 16384) as usize,
                })
            })
            &&& to.pos == pos
            &&& to.tid == w.tid && to.lane == w.lane && to.stride == w.stride && to.end == w.end
        }),
{
}

/// The search for a name. An empty slot is claimed, one that is being written is looked at again, one
/// whose name is as long as that of the row is compared, and any other one is passed. Where another
/// thread was faster with a claim, the slot is looked at again. A claimed slot gets the name of the row,
/// and then its length.
pub proof fn lemma_search_turns(w: Worker, text: Seq<u8>, reply: int, slot: usize)
    requires
        slot < 16384,
    ensures
        ({
            let to = w.resumed(text, reply);
            let next: usize = if slot == 16383 {
                0
            } else {
                (slot + 1) as usize
            };
            let from = w.pos;
            let len = w.name_len;
            &&& w.stage == (Stage::Probe { slot }) ==> {
                &&& w.asks() == (Request::LoadLen { slot })
                &&& reply == 0 ==> to.asks() == (Request::ClaimLen { slot })
                &&& reply == -1 ==> to == w
                &&& reply > 0 && reply == len ==> to.asks() == (Request::MatchName {
                    slot,
                    from,
                    len,
                })
                &&& reply != 0 && reply != -1 && !(reply > 0 && reply == len) ==> to.asks() == (
                Request::LoadLen { slot: next })
            }
            &&& w.stage == (Stage::Claim { slot }) ==> {
                &&& w.asks() == (Request::ClaimLen { slot })
                &&& reply == 1 ==> to.asks() == (Request::CopyName { slot, from, len })
                &&& reply != 1 ==> to.asks() == (Request::LoadLen { slot })
            }
            &&& w.stage == (Stage::Write { slot }) ==> {
                &&& w.asks() == (Request::CopyName { slot, from, len })
                &&& to.asks() == (Request::StoreLen { slot, len })
            }
            &&& w.stage == (Stage::Publish { slot }) ==> {
                &&& w.asks() == (Request::StoreLen { slot, len })
                &&& to.stage == (Stage::Pick { slot })
            }
            &&& w.stage == (Stage::Match { slot }) ==> {
                &&& w.asks() == (Request::MatchName { slot, from, len })
                &&& reply == 1 ==> to.stage == (Stage::Pick { slot })
                &&& reply != 1 ==> to.asks() == (Request::LoadLen { slot: next })
            }
            &&& w.stage is Probe || w.stage is Claim || w.stage is Write || w.stage is Publish
                || w.stage is Match ==> to == (Worker { stage: to.stage, ..w })
        }),
{
}

/// Where a reading is added. A slot of the block's table that belongs to the slot of the name takes it.
/// One that belongs to nobody is claimed, and takes it if that succeeds. Otherwise the slot of the name
/// takes it itself.
pub proof fn lemma_place_turns(w: Worker, text: Seq<u8>, reply: int, slot: usize)
    ensures
        ({
            let to = w.resumed(text, reply);
            let index = (slot as int % 2048) as usize;
            let shared = Stage::Shared { slot, k: Aggregate::Sum };
            let global = Stage::Global { slot, k: Aggregate::Sum };
            &&& w.stage == (Stage::Pick { slot }) ==> {
                &&& w.asks() == (Request::LoadOwner { index })
                &&& reply == slot ==> to == (Worker { stage: shared, ..w })
                &&& reply == -1 ==> to == (Worker { stage: Stage::Grab { slot }, ..w })
                &&& reply != slot && reply != -1 ==> to == (Worker { stage: global, ..w })
            }
            &&& w.stage == (Stage::Grab { slot }) ==> {
                &&& w.asks() == (Request::ClaimOwner { index, slot })
                &&& reply == 1 ==> to == (Worker { stage: shared, ..w })
                &&& reply != 1 ==> to == (Worker { stage: global, ..w })
            }
        }),
{
}

/// A reading is added to the sum, counted, and held against the lowest and the highest one, in this
/// order, all in one place. Then the thread goes to where the row ends.
pub proof fn lemma_adding_turns(w: Worker, text: Seq<u8>, reply: int, slot: usize, k: Aggregate)
    ensures
        ({
            let to = w.resumed(text, reply);
            let index = (slot as int % 2048) as usize;
            let value: i32 = match k {
                Aggregate::Count => 1,
                _ => w.temp as i32,
            };
            let next = match k {
                Aggregate::Sum => Aggregate::Count,
                Aggregate::Count => Aggregate::Min,
                _ => Aggregate::Max,
            };
            &&& w.stage == (Stage::Shared { slot, k }) ==> {
                &&& w.asks() == (Request::AddShared { index, k, value })
                &&& k != Aggregate::Max ==> to == (Worker {
                    stage: Stage::Shared { slot, k: next },
                    ..w
                })
                &&& k == Aggregate::Max ==> to == w.at_row(text, w.pos + w.line_len)
            }
            &&& w.stage == (Stage::Global { slot, k }) ==> {
                &&& w.asks() == (Request::AddGlobal { slot, k, value })
                &&& k != Aggregate::Max ==> to == (Worker {
                    stage: Stage::Global { slot, k: next },
                    ..w
                })
                &&& k == Aggregate::Max ==> to == w.at_row(text, w.pos + w.line_len)
            }
        }),
{
}

/// What the reading of a row adds to each of the four values.
pub proof fn lemma_contribution(w: Worker)
    ensures
        w.contribution(Aggregate::Sum) == w.temp,
        w.contribution(Aggregate::Count) == 1,
        w.contribution(Aggregate::Min) == w.temp,
        w.contribution(Aggregate::Max) == w.temp,
{
}

/// In the end a thread looks at every slot of the block's table whose number differs from its own by a
/// multiple of the threads of the block, and adds the four values of each that belongs to a slot to that
/// slot.
pub proof fn lemma_flush_turns(
    w: Worker,
    text: Seq<u8>,
    reply: int,
    next: usize,
    slot: usize,
    k: Aggregate,
)
    ensures
        ({
            let to = w.resumed(text, reply);
            let on = if next + w.stride < 2048 {
                Stage::Flush { next: (next + w.stride) as usize }
            } else {
                Stage::Done
            };
            let then = match k {
                Aggregate::Sum => Aggregate::Count,
                Aggregate::Count => Aggregate::Min,
                _ => Aggregate::Max,
            };
            &&& w.stage == (Stage::Flush { next }) ==> {
                &&& w.asks() == (Request::LoadOwner { index: next })
                &&& reply >= 0 ==> to == (Worker {
                    stage: Stage::Drain { next, slot: reply as usize, k: Aggregate::Sum },
                    ..w
                })
                &&& reply < 0 ==> to == (Worker { stage: on, ..w })
            }
            &&& w.stage == (Stage::Drain { next, slot, k }) ==> {
                &&& w.asks() == (Request::Drain { index: next, slot, k })
                &&& k != Aggregate::Max ==> to == (Worker {
                    stage: Stage::Drain { next, slot, k: then },
                    ..w
                })
                &&& k == Aggregate::Max ==> to == (Worker { stage: on, ..w })
            }
        }),
{
}

/// When a thread can go on: its place is one that it can be at, and the reading of the row that it goes
/// to, if it goes to one within its reach, can be parsed.
pub proof fn lemma_resumable(w: Worker, text: Seq<u8>)
    ensures
        ({
            let first = start_result(text, w.tid as int, w.pos as int);
            let next = w.pos + w.line_len;
            let last = match w.stage {
                Stage::Shared { k, .. } => k == Aggregate::Max,
                Stage::Global { k, .. } => k == Aggregate::Max,
                _ => false,
            };
            let in_range = match w.stage {
                Stage::Init { next } => next < 2048,
                Stage::Flush { next } => next < 2048,
                Stage::Drain { next, .. } => next < 2048,
                Stage::Probe { slot } => slot < 16384,
                Stage::Match { slot } => slot < 16384,
                _ => true,
            };
            w.can_resume(text) <==> {
                &&& w.end <= text.len() < usize::MAX
                &&& in_range
                &&& w.stage is Start && w.pos < text.len() && first is Some ==> w.reads_well(
                    text,
                    first->0,
                )
                &&& last ==> next <= text.len() && w.reads_well(text, next)
            }
        }),
{
}

impl Worker {
    /// The row that begins at `pos` lies beyond the thread's reach, or its reading can be parsed.
    pub open spec fn reads_well(self, text: Seq<u8>, pos: int) -> bool {
        pos > self.end || pos >= text.len() || line_fits(text.skip(pos), text.len() - pos)
    }
}

} // verus!
