//! A thread of the launch as a state machine. It asks for one access to memory after the other
//! and goes on with what the access gave, so it can run over any memory and in any order with
//! other threads.

use vstd::prelude::*;
use crate::aggregate::Aggregate;
use crate::hash::{first_slot, home, next_slot, station_hash, TABLE_SIZE};
use crate::launch::{lemma_line_result, reads_on, row_result, Job, Launch};
use crate::parse::{can_parse_line, line_fits, line_start, parse_line, start_result};
use crate::tables::LOCAL_SIZE;

verus! {

/// What a thread is about to do. `slot` is a slot of the table of its block, `next` one of the
/// table that the block shares, `k` the value that is due.
#[derive(Clone, Copy, Debug, PartialEq, Eq, Structural)]
pub enum Stage {
    /// Set up the shared slot `next`.
    Init { next: usize },
    /// Wait until the whole shared table is set up.
    Start,
    /// Look at the length of the name in `slot`.
    Probe { slot: usize },
    /// Claim `slot`, which was empty.
    Claim { slot: usize },
    /// Write the name into the claimed slot.
    Write { slot: usize },
    /// Store the length of the name, which ends the claim.
    Publish { slot: usize },
    /// Hold the name in `slot`, which is of the right length, against the name of the row.
    Match { slot: usize },
    /// Look at whom the shared slot belongs to that `slot` maps to.
    Pick { slot: usize },
    /// Claim that shared slot, which was empty.
    Grab { slot: usize },
    /// Add the row to the shared slot.
    Shared { slot: usize, k: Aggregate },
    /// Add the row to the table itself.
    Global { slot: usize, k: Aggregate },
    /// Wait until every thread of the block has read its rows.
    Finish,
    /// Look at whom the shared slot `next` belongs to.
    Flush { next: usize },
    /// Add the shared slot `next` to `slot` of the table.
    Drain { next: usize, slot: usize, k: Aggregate },
    /// Nothing is left.
    Done,
}

/// One access to memory.
#[derive(Clone, Copy, Debug, PartialEq, Eq, Structural)]
pub enum Request {
    /// Shared slot `index` becomes one that belongs to nobody.
    Reset { index: usize },
    /// All threads of the block have to get here. Reply: 1 once they have, 0 before.
    Barrier,
    /// Reply: the length stored for `slot`.
    LoadLen { slot: usize },
    /// If the length stored for `slot` is 0 it becomes -1. Reply: 1 if it was, 0 if not.
    ClaimLen { slot: usize },
    /// The `len` bytes of the text from `from` on become the name of `slot`.
    CopyName { slot: usize, from: usize, len: usize },
    /// `len` becomes the length stored for `slot`.
    StoreLen { slot: usize, len: usize },
    /// Reply: 1 if the name of `slot` starts with those bytes of the text, 0 if not.
    MatchName { slot: usize, from: usize, len: usize },
    /// Reply: the slot that shared slot `index` belongs to, -1 for none.
    LoadOwner { index: usize },
    /// If shared slot `index` belongs to nobody it comes to belong to `slot`. Reply: 1 if it
    /// does now, 0 if not.
    ClaimOwner { index: usize, slot: usize },
    /// `value` is combined into value `k` of shared slot `index`.
    AddShared { index: usize, k: Aggregate, value: i32 },
    /// `value` is combined into value `k` of `slot`.
    AddGlobal { slot: usize, k: Aggregate, value: i32 },
    /// Value `k` of shared slot `index` is combined into that of `slot`.
    Drain { index: usize, slot: usize, k: Aggregate },
    /// The thread has nothing left to do.
    Exit,
}

/// A thread: who it is, what it still has to read, the row it is at, and its stage.
#[derive(Clone, Copy, Debug, PartialEq, Eq, Structural)]
pub struct Worker {
    pub tid: usize,
    pub lane: usize,
    pub stride: usize,
    pub pos: usize,
    pub end: usize,
    pub name_len: usize,
    pub temp: i16,
    pub line_len: usize,
    pub stage: Stage,
}

/// The shared slot that a slot maps to.
pub open spec fn local_slot(slot: int) -> int {
    slot % LOCAL_SIZE as int
}

/// The slot after which a probe goes on.
pub open spec fn after(slot: usize) -> usize {
    ((slot + 1) % TABLE_SIZE as int) as usize
}

/// The shared slot that a slot maps to: its lowest bits.
pub fn shared_index(slot: usize) -> (index: usize)
    ensures
        index as int == local_slot(slot as int),
{
    assert(slot & 0x7ff == slot % 0x800) by (bit_vector);
    slot & (LOCAL_SIZE - 1)
}

impl Worker {
    /// A thread before its first step.
    pub open spec fn starting(job: Job, t: int) -> Worker {
        Worker {
            tid: t as usize,
            lane: (t % job.block) as usize,
            stride: job.block as usize,
            pos: job.window_start(t) as usize,
            end: job.window_end(t) as usize,
            name_len: 0,
            temp: 0,
            line_len: 0,
            stage: if t % job.block < LOCAL_SIZE {
                Stage::Init { next: (t % job.block) as usize }
            } else {
                Stage::Start
            },
        }
    }

    /// Thread `tid` of a launch over a text of `total` bytes, with all its work ahead.
    pub fn new(launch: &Launch, tid: usize, total: usize) -> (r: Worker)
        requires
            launch.wf(),
            tid < launch.grid_dim * launch.block_dim,
            total + launch.grid_dim * launch.block_dim <= usize::MAX,
        ensures
            forall|text: Seq<u8>| #[trigger]
                text.len() == total ==> r == Worker::starting(launch.job(text), tid as int),
    {
        let stride: usize = launch.block_dim as usize;
        let lane: usize = tid % stride;
        let (pos, end): (usize, usize) = launch.window(total, tid);
        let stage: Stage = if lane < LOCAL_SIZE { Stage::Init { next: lane } } else { Stage::Start };
        Worker { tid, lane, stride, pos, end, name_len: 0, temp: 0, line_len: 0, stage }
    }

    /// What one reading adds to value `k`.
    pub open spec fn contribution(self, k: Aggregate) -> i32 {
        k.of_reading(self.temp as int) as i32
    }

    /// The access that the stage calls for.
    pub open spec fn asks(self) -> Request {
        match self.stage {
            Stage::Init { next } => Request::Reset { index: next },
            Stage::Start => Request::Barrier,
            Stage::Probe { slot } => Request::LoadLen { slot },
            Stage::Claim { slot } => Request::ClaimLen { slot },
            Stage::Write { slot } => Request::CopyName { slot, from: self.pos, len: self.name_len },
            Stage::Publish { slot } => Request::StoreLen { slot, len: self.name_len },
            Stage::Match { slot } => Request::MatchName { slot, from: self.pos, len: self.name_len },
            Stage::Pick { slot } => Request::LoadOwner { index: local_slot(slot as int) as usize },
            Stage::Grab { slot } => Request::ClaimOwner {
                index: local_slot(slot as int) as usize,
                slot,
            },
            Stage::Shared { slot, k } => Request::AddShared {
                index: local_slot(slot as int) as usize,
                k,
                value: self.contribution(k),
            },
            Stage::Global { slot, k } => Request::AddGlobal {
                slot,
                k,
                value: self.contribution(k),
            },
            Stage::Finish => Request::Barrier,
            Stage::Flush { next } => Request::LoadOwner { index: next },
            Stage::Drain { next, slot, k } => Request::Drain { index: next, slot, k },
            Stage::Done => Request::Exit,
        }
    }

    /// The access that the thread needs next.
    pub fn request(&self) -> (r: Request)
        ensures
            r == self.asks(),
    {
        match self.stage {
            Stage::Init { next } => Request::Reset { index: next },
            Stage::Start => Request::Barrier,
            Stage::Probe { slot } => Request::LoadLen { slot },
            Stage::Claim { slot } => Request::ClaimLen { slot },
            Stage::Write { slot } => Request::CopyName { slot, from: self.pos, len: self.name_len },
            Stage::Publish { slot } => Request::StoreLen { slot, len: self.name_len },
            Stage::Match { slot } => Request::MatchName { slot, from: self.pos, len: self.name_len },
            Stage::Pick { slot } => Request::LoadOwner { index: shared_index(slot) },
            Stage::Grab { slot } => Request::ClaimOwner { index: shared_index(slot), slot },
            Stage::Shared { slot, k } => Request::AddShared {
                index: shared_index(slot),
                k,
                value: self.reading(k),
            },
            Stage::Global { slot, k } => Request::AddGlobal { slot, k, value: self.reading(k) },
            Stage::Finish => Request::Barrier,
            Stage::Flush { next } => Request::LoadOwner { index: next },
            Stage::Drain { next, slot, k } => Request::Drain { index: next, slot, k },
            Stage::Done => Request::Exit,
        }
    }

    /// What the reading of the current row adds to value `k`.
    pub fn reading(&self, k: Aggregate) -> (v: i32)
        ensures
            v == self.contribution(k),
            v == k.of_reading(self.temp as int),
    {
        match k {
            Aggregate::Count => 1,
            _ => self.temp as i32,
        }
    }

    /// The thread, at the row that begins at `pos`, or past its last row.
    pub open spec fn at_row(self, text: Seq<u8>, pos: int) -> Worker {
        let nowhere = Worker { pos: pos as usize, stage: Stage::Finish, ..self };
        if reads_on(text, pos, self.end as int) {
            match row_result(text, pos) {
                None => nowhere,
                Some((name_len, temp, len)) => Worker {
                    pos: pos as usize,
                    name_len: name_len as usize,
                    temp: temp as i16,
                    line_len: len as usize,
                    stage: Stage::Probe { slot: home(text.subrange(pos, pos + name_len)) as usize },
                    ..self
                },
            }
        } else {
            nowhere
        }
    }

    /// The thread at its first row, or past its last one if it has none.
    pub open spec fn at_first_row(self, text: Seq<u8>) -> Worker {
        if self.pos < text.len() {
            match start_result(text, self.tid as int, self.pos as int) {
                None => Worker { stage: Stage::Finish, ..self },
                Some(pos) => self.at_row(text, pos),
            }
        } else {
            Worker { stage: Stage::Finish, ..self }
        }
    }

    /// The thread in another stage.
    pub open spec fn staged(self, stage: Stage) -> Worker {
        Worker { stage, ..self }
    }

    /// The stage in which the shared slots from `next` on are set up.
    pub open spec fn init_from(self, next: int) -> Stage {
        if next < LOCAL_SIZE {
            Stage::Init { next: next as usize }
        } else {
            Stage::Start
        }
    }

    /// The stage in which the shared slots from `next` on are added to the table.
    pub open spec fn flush_from(self, next: int) -> Stage {
        if next < LOCAL_SIZE {
            Stage::Flush { next: next as usize }
        } else {
            Stage::Done
        }
    }

    /// The search for the slot of the row's name, after the answer to an access. A slot that is
    /// being written is looked at again; one with another name is passed.
    pub open spec fn probed(self, reply: int) -> Stage {
        match self.stage {
            Stage::Probe { slot } => if reply == 0 {
                Stage::Claim { slot }
            } else if reply == -1 {
                Stage::Probe { slot }
            } else if reply > 0 && reply == self.name_len {
                Stage::Match { slot }
            } else {
                Stage::Probe { slot: after(slot) }
            },
            Stage::Claim { slot } => if reply == 1 {
                Stage::Write { slot }
            } else {
                Stage::Probe { slot }
            },
            Stage::Write { slot } => Stage::Publish { slot },
            Stage::Publish { slot } => Stage::Pick { slot },
            Stage::Match { slot } => if reply == 1 {
                Stage::Pick { slot }
            } else {
                Stage::Probe { slot: after(slot) }
            },
            other => other,
        }
    }

    /// The thread after the answer to the access it asked for.
    pub open spec fn resumed(self, text: Seq<u8>, reply: int) -> Worker {
        match self.stage {
            Stage::Init { next } => self.staged(self.init_from(next + self.stride)),
            Stage::Start => if reply == 1 {
                self.at_first_row(text)
            } else {
                self
            },
            Stage::Pick { slot } => if reply == slot {
                self.staged(Stage::Shared { slot, k: Aggregate::Sum })
            } else if reply == -1 {
                self.staged(Stage::Grab { slot })
            } else {
                self.staged(Stage::Global { slot, k: Aggregate::Sum })
            },
            Stage::Grab { slot } => if reply == 1 {
                self.staged(Stage::Shared { slot, k: Aggregate::Sum })
            } else {
                self.staged(Stage::Global { slot, k: Aggregate::Sum })
            },
            Stage::Shared { slot, k } => match k.successor() {
                Some(next) => self.staged(Stage::Shared { slot, k: next }),
                None => self.at_row(text, self.pos + self.line_len),
            },
            Stage::Global { slot, k } => match k.successor() {
                Some(next) => self.staged(Stage::Global { slot, k: next }),
                None => self.at_row(text, self.pos + self.line_len),
            },
            Stage::Finish => if reply == 1 {
                self.staged(self.flush_from(self.lane as int))
            } else {
                self
            },
            Stage::Flush { next } => if reply >= 0 {
                self.staged(Stage::Drain { next, slot: reply as usize, k: Aggregate::Sum })
            } else {
                self.staged(self.flush_from(next + self.stride))
            },
            Stage::Drain { next, slot, k } => match k.successor() {
                Some(k) => self.staged(Stage::Drain { next, slot, k }),
                None => self.staged(self.flush_from(next + self.stride)),
            },
            Stage::Done => self,
            _ => self.staged(self.probed(reply)),
        }
    }

    /// The row that begins at `pos` has a reading that can be parsed, if the thread reads it.
    pub open spec fn row_fits(self, text: Seq<u8>, pos: int) -> bool {
        reads_on(text, pos, self.end as int) ==> line_fits(text.skip(pos), text.len() - pos)
    }

    /// What `resume` needs: the place of the thread is one that it can be at, and where the next
    /// step reads a row, its reading can be parsed.
    pub open spec fn can_resume(self, text: Seq<u8>) -> bool {
        &&& self.end <= text.len() < usize::MAX
        &&& match self.stage {
            Stage::Init { next } => next < LOCAL_SIZE,
            Stage::Start => self.pos < text.len() ==> (start_result(
                text,
                self.tid as int,
                self.pos as int,
            ) matches Some(pos) ==> self.row_fits(text, pos)),
            Stage::Probe { slot } => slot < TABLE_SIZE,
            Stage::Match { slot } => slot < TABLE_SIZE,
            Stage::Shared { slot, k } => k == Aggregate::Max ==> {
                &&& self.pos + self.line_len <= text.len()
                &&& self.row_fits(text, self.pos + self.line_len)
            },
            Stage::Global { slot, k } => k == Aggregate::Max ==> {
                &&& self.pos + self.line_len <= text.len()
                &&& self.row_fits(text, self.pos + self.line_len)
            },
            Stage::Flush { next } => next < LOCAL_SIZE,
            Stage::Drain { next, .. } => next < LOCAL_SIZE,
            _ => true,
        }
    }

    /// Goes to the row that begins at `pos`.
    fn begin_row(&mut self, text: &[u8], pos: usize)
        requires
            pos <= text.len(),
            old(self).end <= text.len(),
            old(self).row_fits(text@, pos as int),
        ensures
            *final(self) == old(self).at_row(text@, pos as int),
    {
        self.pos = pos;
        self.stage = Stage::Finish;
        if pos <= self.end && pos < text.len() {
            let rest: &[u8] = &text[pos..text.len()];
            assert(rest@ =~= text@.skip(pos as int));
            if let Some((name_len, temp, line_len)) = parse_line(rest, text.len() - pos) {
                proof {
                    lemma_line_result(rest@, text.len() - pos);
                }
                let name: &[u8] = &text[pos..pos + name_len];
                let slot: usize = first_slot(station_hash(name));
                self.name_len = name_len;
                self.temp = temp;
                self.line_len = line_len;
                self.stage = Stage::Probe { slot };
            }
        }
    }

    /// Goes to the first row of the thread.
    fn begin(&mut self, text: &[u8])
        requires
            old(self).stage == Stage::Start,
            old(self).can_resume(text@),
        ensures
            *final(self) == old(self).at_first_row(text@),
    {
        if self.pos < text.len() {
            assert(text@.take(text.len() as int) =~= text@);
            match line_start(text, self.tid, self.pos, text.len()) {
                None => {
                    self.stage = Stage::Finish;
                },
                Some(pos) => {
                    self.begin_row(text, pos);
                },
            }
        } else {
            self.stage = Stage::Finish;
        }
    }

    /// One step of the search for the slot of a name: finds the slot that has the name, or
    /// claims the first empty one.
    fn find_or_claim_slot(&mut self, reply: i32)
        requires
            old(self).stage matches Stage::Probe { slot } ==> slot < TABLE_SIZE,
            old(self).stage matches Stage::Match { slot } ==> slot < TABLE_SIZE,
        ensures
            *final(self) == old(self).staged(old(self).probed(reply as int)),
    {
        match self.stage {
            Stage::Probe { slot } => {
                if reply == 0 {
                    self.stage = Stage::Claim { slot };
                } else if reply == -1 {
                } else if reply > 0 && reply as usize == self.name_len {
                    self.stage = Stage::Match { slot };
                } else {
                    self.stage = Stage::Probe { slot: next_slot(slot) };
                }
            },
            Stage::Claim { slot } => {
                if reply == 1 {
                    self.stage = Stage::Write { slot };
                } else {
                    self.stage = Stage::Probe { slot };
                }
            },
            Stage::Write { slot } => {
                self.stage = Stage::Publish { slot };
            },
            Stage::Publish { slot } => {
                self.stage = Stage::Pick { slot };
            },
            Stage::Match { slot } => {
                if reply == 1 {
                    self.stage = Stage::Pick { slot };
                } else {
                    self.stage = Stage::Probe { slot: next_slot(slot) };
                }
            },
            _ => {},
        }
    }

    fn flush_next(&mut self, next: usize)
        requires
            next < LOCAL_SIZE,
        ensures
            *final(self) == old(self).staged(old(self).flush_from(next + old(self).stride)),
    {
        if self.stride < LOCAL_SIZE - next {
            self.stage = Stage::Flush { next: next + self.stride };
        } else {
            self.stage = Stage::Done;
        }
    }

    /// Whether `row_fits` holds.
    fn can_begin_row(&self, text: &[u8], pos: usize) -> (r: bool)
        requires
            pos <= text.len(),
            self.end <= text.len(),
        ensures
            r == self.row_fits(text@, pos as int),
    {
        if pos > self.end || pos >= text.len() {
            return true;
        }
        let rest: &[u8] = &text[pos..text.len()];
        assert(rest@ =~= text@.skip(pos as int));
        can_parse_line(rest, text.len() - pos)
    }

    /// Whether the thread can go on over this text.
    pub fn is_resumable(&self, text: &[u8]) -> (r: bool)
        ensures
            r == self.can_resume(text@),
    {
        if self.end > text.len() || text.len() == usize::MAX {
            return false;
        }
        match self.stage {
            Stage::Init { next } => next < LOCAL_SIZE,
            Stage::Start => {
                if self.pos >= text.len() {
                    return true;
                }
                assert(text@.take(text.len() as int) =~= text@);
                match line_start(text, self.tid, self.pos, text.len()) {
                    None => true,
                    Some(pos) => self.can_begin_row(text, pos),
                }
            },
            Stage::Probe { slot } => slot < TABLE_SIZE,
            Stage::Match { slot } => slot < TABLE_SIZE,
            Stage::Shared { slot, k } => k != Aggregate::Max || self.line_len <= text.len()
                && self.pos <= text.len() - self.line_len && self.can_begin_row(
                text,
                self.pos + self.line_len,
            ),
            Stage::Global { slot, k } => k != Aggregate::Max || self.line_len <= text.len()
                && self.pos <= text.len() - self.line_len && self.can_begin_row(
                text,
                self.pos + self.line_len,
            ),
            Stage::Flush { next } => next < LOCAL_SIZE,
            Stage::Drain { next, .. } => next < LOCAL_SIZE,
            _ => true,
        }
    }

    /// Goes on with the answer to the access that the thread asked for.
    pub fn resume(&mut self, text: &[u8], reply: i32)
        requires
            old(self).can_resume(text@),
        ensures
            *final(self) == old(self).resumed(text@, reply as int),
    {
        match self.stage {
            Stage::Init { next } => {
                if self.stride < LOCAL_SIZE - next {
                    self.stage = Stage::Init { next: next + self.stride };
                } else {
                    self.stage = Stage::Start;
                }
            },
            Stage::Start => {
                if reply == 1 {
                    self.begin(text);
                }
            },
            Stage::Pick { slot } => {
                if reply >= 0 && reply as usize == slot {
                    self.stage = Stage::Shared { slot, k: Aggregate::Sum };
                } else if reply == -1 {
                    self.stage = Stage::Grab { slot };
                } else {
                    self.stage = Stage::Global { slot, k: Aggregate::Sum };
                }
            },
            Stage::Grab { slot } => {
                if reply == 1 {
                    self.stage = Stage::Shared { slot, k: Aggregate::Sum };
                } else {
                    self.stage = Stage::Global { slot, k: Aggregate::Sum };
                }
            },
            Stage::Shared { slot, k } => {
                match k.next() {
                    Some(next) => {
                        self.stage = Stage::Shared { slot, k: next };
                    },
                    None => {
                        self.begin_row(text, self.pos + self.line_len);
                    },
                }
            },
            Stage::Global { slot, k } => {
                match k.next() {
                    Some(next) => {
                        self.stage = Stage::Global { slot, k: next };
                    },
                    None => {
                        self.begin_row(text, self.pos + self.line_len);
                    },
                }
            },
            Stage::Finish => {
                if reply == 1 {
                    if self.lane < LOCAL_SIZE {
                        self.stage = Stage::Flush { next: self.lane };
                    } else {
                        self.stage = Stage::Done;
                    }
                }
            },
            Stage::Flush { next } => {
                if reply >= 0 {
                    self.stage = Stage::Drain { next, slot: reply as usize, k: Aggregate::Sum };
                } else {
                    self.flush_next(next);
                }
            },
            Stage::Drain { next, slot, k } => {
                match k.next() {
                    Some(k) => {
                        self.stage = Stage::Drain { next, slot, k };
                    },
                    None => {
                        self.flush_next(next);
                    },
                }
            },
            Stage::Done => {},
            _ => {
                self.find_or_claim_slot(reply);
            },
        }
    }
}

} // verus!
