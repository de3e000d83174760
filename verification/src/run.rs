//! What holds of a launch after every step, whatever the order of the steps.

use vstd::prelude::*;
use crate::aggregate::Aggregate;
use crate::hash::TABLE_SIZE;
use crate::launch::{rows_fit, rows_from, Job, RowId, NUM_TABLES};
use crate::parse::NAME_MAX;
use crate::state::{at_end, past_end, setting_up, started, State};
use crate::tables::{global_slot, written, Store, LOCAL_SIZE, TOTAL_SLOTS};
use crate::worker::{local_slot, Stage};

verus! {

/// The rows that were added to the four values of a slot, in the order in which they were.
pub struct Log {
    pub sum: Seq<RowId>,
    pub cnt: Seq<RowId>,
    pub min: Seq<RowId>,
    pub max: Seq<RowId>,
}

/// What has happened so far, as far as memory does not show it: the thread that writes a slot,
/// the row that gave a slot its name, the slot that each row was found to belong to, the rows
/// that each thread is done with, and the rows added to each slot, of the tables and of the
/// shared tables.
pub struct History {
    pub owner: Seq<int>,
    pub origin: Seq<RowId>,
    pub place: Seq<Seq<int>>,
    pub done: Seq<int>,
    pub glog: Seq<Log>,
    pub slog: Seq<Seq<Log>>,
}

impl Log {
    /// The rows that were added to one of the values.
    pub open spec fn get(self, k: Aggregate) -> Seq<RowId> {
        match k {
            Aggregate::Sum => self.sum,
            Aggregate::Count => self.cnt,
            Aggregate::Min => self.min,
            Aggregate::Max => self.max,
        }
    }

    /// The log with other rows for one of the values.
    pub open spec fn set(self, k: Aggregate, rows: Seq<RowId>) -> Log {
        match k {
            Aggregate::Sum => Log { sum: rows, ..self },
            Aggregate::Count => Log { cnt: rows, ..self },
            Aggregate::Min => Log { min: rows, ..self },
            Aggregate::Max => Log { max: rows, ..self },
        }
    }

    /// Nothing was added.
    pub open spec fn empty() -> Log {
        Log { sum: Seq::empty(), cnt: Seq::empty(), min: Seq::empty(), max: Seq::empty() }
    }
}

impl Job {
    /// `a` with the readings of `rows` combined into it, one after the other.
    pub open spec fn gather(self, k: Aggregate, a: int, rows: Seq<RowId>) -> int
        decreases rows.len(),
    {
        if rows.len() == 0 {
            a
        } else {
            k.combine(
                self.gather(k, a, rows.drop_last()),
                k.of_reading(self.row(rows.last()).temp),
            )
        }
    }

    /// The tables after the names of the first `n` rows of the first thread were entered.
    pub open spec fn entered(self, base: Store, n: int) -> Store
        decreases n,
    {
        if n <= 0 {
            base
        } else {
            self.entered(base, n - 1).entered(
                self.table(0),
                self.name(RowId { thread: 0, index: n - 1 }),
            )
        }
    }

    /// A name that a slot of the table may get or has: it is not empty, and a row that the
    /// table's threads read has it, or the table had it before.
    pub open spec fn uses(self, base: Store, table: int, name: Seq<u8>) -> bool {
        &&& name.len() > 0
        &&& ({
            ||| exists|r: RowId| self.row_named(table, r, name)
            ||| exists|slot: int| 0 <= slot < TABLE_SIZE && base.bears(table, slot, name)
        })
    }

    /// The row is read by a thread of the table, and `name` is its name.
    pub open spec fn row_named(self, table: int, r: RowId, name: Seq<u8>) -> bool {
        self.has(r) && self.table(r.thread) == table && self.name(r) == name
    }

    /// The table has room for the names that it is given: there are no more of them than it has
    /// slots, and fewer if a row has no name at all, since the search for its slot ends at an
    /// empty one.
    pub open spec fn has_room(self, base: Store, table: int) -> bool {
        forall|names: Seq<Seq<u8>>|
            (#[trigger] names.no_duplicates()) && (forall|i: int|
                0 <= i < names.len() ==> self.uses(base, table, #[trigger] names[i]))
                ==> names.len() <= TABLE_SIZE && ((exists|r: RowId|
                self.row_named(table, r, Seq::empty())) ==> names.len() < TABLE_SIZE)
    }

    /// Every table has room for the names that it is given.
    pub open spec fn rooms(self, base: Store) -> bool {
        forall|table: int| 0 <= table < NUM_TABLES ==> #[trigger] self.has_room(base, table)
    }
}

/// The thread looks for the slot of its row.
pub open spec fn seeking(stage: Stage) -> bool {
    stage is Probe || stage is Claim || stage is Write || stage is Publish || stage is Match
}

/// The thread knows the slot of its row, and adds the row to it.
pub open spec fn located(stage: Stage) -> bool {
    stage is Pick || stage is Grab || stage is Shared || stage is Global
}

/// The slot of the table that the thread is at, in the stages that have one.
pub open spec fn stage_slot(stage: Stage) -> int {
    match stage {
        Stage::Probe { slot } => slot as int,
        Stage::Claim { slot } => slot as int,
        Stage::Write { slot } => slot as int,
        Stage::Publish { slot } => slot as int,
        Stage::Match { slot } => slot as int,
        Stage::Pick { slot } => slot as int,
        Stage::Grab { slot } => slot as int,
        Stage::Shared { slot, .. } => slot as int,
        Stage::Global { slot, .. } => slot as int,
        Stage::Drain { slot, .. } => slot as int,
        _ => 0,
    }
}

/// The thread has claimed a slot and has not stored the length of the name yet.
pub open spec fn holding(stage: Stage) -> bool {
    stage is Write || stage is Publish
}

/// A launch, the tables as they were before it, and a point on its way.
pub struct Run {
    pub job: Job,
    pub base: Store,
    pub st: State,
    pub h: History,
}

impl Run {
    /// The block of a thread.
    pub open spec fn block(self, t: int) -> int {
        t / self.job.block
    }

    /// The row that a thread is at.
    pub open spec fn current(self, t: int) -> RowId {
        RowId { thread: t, index: self.h.done[t] }
    }

    /// The slot of all tables that the thread is at.
    pub open spec fn at(self, t: int) -> int {
        global_slot(self.job.table(t), stage_slot(self.st.stage(t)))
    }

    /// The slot of all tables that a row was found to belong to.
    pub open spec fn row_slot(self, r: RowId) -> int {
        global_slot(self.job.table(r.thread), self.h.place[r.thread][r.index])
    }

    /// The slot of a row is known.
    pub open spec fn placed(self, r: RowId) -> bool {
        ||| r.index < self.h.done[r.thread]
        ||| r.index == self.h.done[r.thread] && located(self.st.stage(r.thread))
    }

    /// The row was added to value `k`, of the table or of the shared table.
    pub open spec fn applied(self, r: RowId, k: Aggregate) -> bool {
        ||| r.index < self.h.done[r.thread]
        ||| r.index == self.h.done[r.thread] && match self.st.stage(r.thread) {
            Stage::Shared { k: due, .. } => k.rank() < due.rank(),
            Stage::Global { k: due, .. } => k.rank() < due.rank(),
            _ => false,
        }
    }

    /// The row was added to value `k` of slot `g`.
    pub open spec fn logged(self, k: Aggregate, g: int, r: RowId) -> bool {
        self.h.glog[g].get(k).contains(r)
    }

    /// The row was added to value `k` of shared slot `l` of block `b`, and is still there.
    pub open spec fn slogged(self, k: Aggregate, b: int, l: int, r: RowId) -> bool {
        self.h.slog[b][l].get(k).contains(r)
    }

    /// The thread that sets up shared slot `l` of block `b`, and adds it to the table.
    pub open spec fn keeper(self, b: int, l: int) -> int {
        b * self.job.block + l % self.job.block
    }

    /// Shared slot `l` of block `b` was set up.
    pub open spec fn inited(self, b: int, l: int) -> bool {
        self.st.stage(self.keeper(b, l)) matches Stage::Init { next } ==> l < next
    }

    /// Value `k` of shared slot `l` was added to the table.
    pub open spec fn flushed(self, b: int, l: int, k: Aggregate) -> bool {
        match self.st.stage(self.keeper(b, l)) {
            Stage::Flush { next } => l < next,
            Stage::Drain { next, k: due, .. } => l < next || l == next && k.rank() < due.rank(),
            Stage::Done => true,
            _ => false,
        }
    }

    /// The thread has its current row at hand, and the rows behind it ahead.
    pub open spec fn row_ok(self, t: int) -> bool {
        let w = self.st.workers[t];
        let rows = self.job.rows(t);
        let done = self.h.done[t];
        &&& done < rows.len()
        &&& w.pos == rows[done].pos
        &&& w.name_len == rows[done].name_len
        &&& w.temp == rows[done].temp
        &&& w.line_len == rows[done].len
        &&& rows_from(self.job.text, w.pos as int, w.end as int) == rows.skip(done)
        &&& rows_fit(self.job.text, w.pos as int, w.end as int)
    }

    /// The search has passed only slots with other names. A slot of which the name is compared has
    /// one of the same length; a slot that is held was claimed by this thread, and before its length
    /// is stored, its name is written.
    pub open spec fn seek_ok(self, t: int) -> bool {
        let stage = self.st.stage(t);
        let g = self.at(t);
        let name = self.job.name(self.current(t));
        let store = self.st.store;
        &&& stage_slot(stage) < TABLE_SIZE
        &&& store.passed(self.job.table(t), stage_slot(stage), name)
        &&& stage is Match ==> store.lens[g] > 0 && store.lens[g] == name.len()
        &&& holding(stage) ==> store.lens[g] == -1 && self.h.owner[g] == t
        &&& stage is Publish ==> store.name_prefix(g, name.len() as int) == name
    }

    /// The slot that the thread is at is the one that was recorded for the row, and a shared slot
    /// that it adds to belongs to that slot.
    pub open spec fn located_ok(self, t: int) -> bool {
        let stage = self.st.stage(t);
        let slot = stage_slot(stage);
        &&& slot < TABLE_SIZE
        &&& self.h.place[t][self.h.done[t]] == slot
        &&& stage is Shared ==> self.st.blocks[self.block(t)].owner[local_slot(slot)] == slot
    }

    /// What the stage of a thread says of its rows and of memory.
    pub open spec fn stage_ok(self, t: int) -> bool {
        let w = self.st.workers[t];
        let done = self.h.done[t];
        match w.stage {
            Stage::Init { next } => {
                &&& next < LOCAL_SIZE
                &&& next as int % self.job.block == w.lane
                &&& done == 0
                &&& w.pos == self.job.window_start(t)
            },
            Stage::Start => done == 0 && w.pos == self.job.window_start(t),
            Stage::Finish => done == self.job.rows(t).len(),
            Stage::Done => done == self.job.rows(t).len(),
            Stage::Flush { next } => {
                &&& done == self.job.rows(t).len()
                &&& next < LOCAL_SIZE
                &&& next as int % self.job.block == w.lane
            },
            Stage::Drain { next, slot, .. } => {
                &&& done == self.job.rows(t).len()
                &&& next < LOCAL_SIZE
                &&& next as int % self.job.block == w.lane
                &&& slot < TABLE_SIZE
                &&& self.st.blocks[self.block(t)].owner[next as int] == slot
            },
            stage => {
                &&& self.row_ok(t)
                &&& seeking(stage) ==> self.seek_ok(t)
                &&& located(stage) ==> self.located_ok(t)
            },
        }
    }

    /// The thread is who it is, and its stage is right.
    pub open spec fn worker_ok(self, t: int) -> bool {
        let w = self.st.workers[t];
        &&& w.tid == t
        &&& w.lane == t % self.job.block
        &&& w.stride == self.job.block
        &&& w.end == self.job.window_end(t)
        &&& 0 <= self.h.done[t] <= self.job.rows(t).len()
        &&& self.stage_ok(t)
    }

    /// `worker_ok` of all threads.
    pub open spec fn workers_ok(self) -> bool {
        forall|t: int| 0 <= t < self.job.threads() ==> #[trigger] self.worker_ok(t)
    }

    /// The thread writes slot `g`.
    pub open spec fn holds_slot(self, t: int, g: int) -> bool {
        0 <= t < self.job.threads() && holding(self.st.stage(t)) && self.at(t) == g
    }

    /// The row on record as the origin of the slot's name has that name and belongs to the slot.
    pub open spec fn origin_ok(self, g: int) -> bool {
        let r = self.h.origin[g];
        &&& self.job.has(r)
        &&& self.placed(r)
        &&& self.row_slot(r) == g
        &&& self.job.name(r) == self.st.store.slot_name(g)
    }

    /// A slot is empty, held by a thread, or named. A name can be reached from its home; it is the
    /// one that was there before the launch, or comes from a row that belongs to the slot.
    pub open spec fn slot_ok(self, g: int) -> bool {
        let store = self.st.store;
        &&& -1 <= store.lens[g] <= NAME_MAX
        &&& store.lens[g] == -1 ==> self.holds_slot(self.h.owner[g], g)
        &&& store.lens[g] > 0 ==> store.passed(
            g / TABLE_SIZE as int,
            g % TABLE_SIZE as int,
            store.slot_name(g),
        )
        &&& self.base.lens[g] > 0 ==> store.lens[g] == self.base.lens[g] && store.slot_name(g)
            == self.base.slot_name(g)
        &&& store.lens[g] > 0 && self.base.lens[g] == 0 ==> self.origin_ok(g)
    }

    /// `slot_ok` of all slots.
    pub open spec fn slots_ok(self) -> bool {
        forall|g: int| 0 <= g < TOTAL_SLOTS ==> #[trigger] self.slot_ok(g)
    }

    /// The slot on record for a row has the row's name, if the row has one.
    pub open spec fn place_ok(self, r: RowId) -> bool {
        let slot = self.h.place[r.thread][r.index];
        &&& 0 <= slot < TABLE_SIZE
        &&& self.job.name(r).len() > 0 ==> self.st.store.bears(
            self.job.table(r.thread),
            slot,
            self.job.name(r),
        )
    }

    /// `place_ok` of all rows whose slot is known.
    pub open spec fn places_ok(self) -> bool {
        forall|r: RowId| self.job.has(r) && self.placed(r) ==> #[trigger] self.place_ok(r)
    }

    /// A shared slot that was set up belongs to nobody or to a slot that maps to it.
    pub open spec fn shared_ok(self, b: int, l: int) -> bool {
        let owner = self.st.blocks[b].owner[l];
        self.inited(b, l) ==> owner == -1 || 0 <= owner < TABLE_SIZE && local_slot(owner as int) == l
    }

    /// `shared_ok` of all shared slots.
    pub open spec fn shareds_ok(self) -> bool {
        forall|b: int, l: int|
            0 <= b < self.job.grid && 0 <= l < LOCAL_SIZE ==> #[trigger] self.shared_ok(b, l)
    }

    /// Two threads of a block are never on different sides of a barrier that one has not reached.
    pub open spec fn pair_ok(self, t: int, u: int) -> bool {
        self.block(t) == self.block(u) ==> {
            &&& started(self.st.stage(t)) ==> !setting_up(self.st.stage(u))
            &&& past_end(self.st.stage(t)) ==> at_end(self.st.stage(u))
        }
    }

    /// `pair_ok` of any two threads.
    pub open spec fn pairs_ok(self) -> bool {
        forall|t: int, u: int|
            0 <= t < self.job.threads() && 0 <= u < self.job.threads() ==> #[trigger] self.pair_ok(
                t,
                u,
            )
    }

    /// A row in the log of a slot belongs there, and was added.
    pub open spec fn logged_ok(self) -> bool {
        forall|k: Aggregate, g: int, r: RowId|
            0 <= g < TOTAL_SLOTS && #[trigger] self.logged(k, g, r) ==> self.job.has(r)
                && self.applied(r, k) && self.row_slot(r) == g
    }

    /// A row in the log of a shared slot belongs there, was added, and has not gone on to the
    /// table.
    pub open spec fn slogged_ok(self) -> bool {
        forall|k: Aggregate, b: int, l: int, r: RowId|
            0 <= b < self.job.grid && 0 <= l < LOCAL_SIZE && #[trigger] self.slogged(k, b, l, r) ==> {
                &&& self.job.has(r)
                &&& self.applied(r, k)
                &&& self.block(r.thread) == b
                &&& self.st.blocks[b].owner[l] == self.h.place[r.thread][r.index]
                &&& !self.flushed(b, l, k)
                &&& !self.logged(k, self.row_slot(r), r)
            }
    }

    /// A row that was added is in one of the two logs.
    pub open spec fn applied_ok(self) -> bool {
        forall|r: RowId, k: Aggregate|
            self.job.has(r) && #[trigger] self.applied(r, k) ==> {
                ||| self.logged(k, self.row_slot(r), r)
                ||| self.slogged(
                    k,
                    self.block(r.thread),
                    local_slot(self.h.place[r.thread][r.index]),
                    r,
                )
            }
    }

    /// No log has a row twice.
    pub open spec fn logs_unique(self) -> bool {
        &&& forall|k: Aggregate, g: int|
            0 <= g < TOTAL_SLOTS ==> (#[trigger] self.h.glog[g].get(k)).no_duplicates()
        &&& forall|k: Aggregate, b: int, l: int|
            0 <= b < self.job.grid && 0 <= l < LOCAL_SIZE ==> (#[trigger] self.h.slog[b][l].get(
                k,
            )).no_duplicates()
    }

    /// Memory holds what the logs say was added to it.
    pub open spec fn cells_ok(self) -> bool {
        &&& forall|k: Aggregate, g: int|
            #![trigger self.h.glog[g].get(k)]
            0 <= g < TOTAL_SLOTS ==> self.st.store.cells[g].get(k) == self.job.gather(
                k,
                self.base.cells[g].get(k),
                self.h.glog[g].get(k),
            )
        &&& forall|k: Aggregate, b: int, l: int|
            #![trigger self.h.slog[b][l].get(k)]
            0 <= b < self.job.grid && 0 <= l < LOCAL_SIZE && self.inited(b, l) && !self.flushed(
                b,
                l,
                k,
            ) ==> self.st.blocks[b].cells[l].get(k) == self.job.gather(
                k,
                k.identity(),
                self.h.slog[b][l].get(k),
            )
    }

    /// Memory and history are of the right size.
    pub open spec fn shaped(self) -> bool {
        let n = self.job.threads();
        &&& self.st.store.shaped()
        &&& self.st.blocks.len() == self.job.grid
        &&& forall|b: int|
            0 <= b < self.job.grid ==> (#[trigger] self.st.blocks[b]).owner.len() == LOCAL_SIZE
                && self.st.blocks[b].cells.len() == LOCAL_SIZE
        &&& self.st.workers.len() == n
        &&& self.h.owner.len() == TOTAL_SLOTS
        &&& self.h.origin.len() == TOTAL_SLOTS
        &&& self.h.place.len() == n
        &&& forall|t: int| 0 <= t < n ==> (#[trigger] self.h.place[t]).len() == self.job.rows(t).len()
        &&& self.h.done.len() == n
        &&& self.h.glog.len() == TOTAL_SLOTS
        &&& self.h.slog.len() == self.job.grid
        &&& forall|b: int| 0 <= b < self.job.grid ==> (#[trigger] self.h.slog[b]).len() == LOCAL_SIZE
    }

    /// What the launch was given is as it has to be.
    pub open spec fn input_ok(self) -> bool {
        &&& self.job.wf()
        &&& self.job.text.len() + self.job.threads() <= usize::MAX
        &&& self.job.block <= usize::MAX
        &&& self.job.fits()
        &&& self.base.wf()
        &&& self.job.rooms(self.base)
    }

    /// How many bytes of the name of a slot the launch has written, or is about to make the name: all
    /// of a name that has its length, those of one that is written and waits for its length.
    pub open spec fn extent(self, g: int) -> int {
        let u = self.h.owner[g];
        if self.st.store.lens[g] > 0 {
            self.st.store.lens[g] as int
        } else if self.st.store.lens[g] == -1 && self.st.stage(u) is Publish {
            self.st.workers[u].name_len as int
        } else {
            0
        }
    }

    /// The byte belongs to a name that came into an empty slot in this launch.
    pub open spec fn written_at(self, i: int) -> bool {
        let g = i / NAME_MAX as int;
        self.base.lens[g] <= 0 && i % (NAME_MAX as int) < self.extent(g)
    }

    /// No other byte of the names was changed.
    pub open spec fn bytes_ok(self) -> bool {
        forall|i: int|
            0 <= i < self.st.store.names.len() && !self.written_at(i) ==> #[trigger] self.st.store.names[i]
                == self.base.names[i]
    }

    /// How many rows of the first thread have their slot.
    pub open spec fn placed_rows(self) -> int {
        if located(self.st.stage(0)) {
            self.h.done[0] + 1
        } else {
            self.h.done[0]
        }
    }

    /// A row of the first thread has the slot at which the search for its name ended.
    pub open spec fn solo_place(self, i: int) -> bool {
        self.job.entered(self.base, i).stops(
            self.job.table(0),
            self.h.place[0][i],
            self.job.name(RowId { thread: 0, index: i }),
        )
    }

    /// Memory holds the names that were entered, but for one that is being written.
    pub open spec fn solo_names(self) -> bool {
        let names = self.job.entered(self.base, self.placed_rows());
        let store = self.st.store;
        let stage = self.st.stage(0);
        let g = self.at(0);
        &&& names.shaped()
        &&& if holding(stage) {
            &&& names.lens[g] == 0
            &&& store.lens == names.lens.update(g, -1i32)
            &&& store.names == if stage is Publish {
                written(names.names, g, self.job.name(self.current(0)))
            } else {
                names.names
            }
        } else {
            store.lens == names.lens && store.names == names.names
        }
    }

    /// A thread that is alone has entered the names of its rows one after the other, each where the
    /// search for it ended.
    pub open spec fn solo_ok(self) -> bool {
        &&& forall|i: int| 0 <= i < self.placed_rows() ==> #[trigger] self.solo_place(i)
        &&& self.solo_names()
    }

    /// What holds of a launch before and after every step.
    pub open spec fn inv(self) -> bool {
        &&& self.basics()
        &&& self.bytes_ok()
        &&& self.job.threads() == 1 ==> self.solo_ok()
    }

    /// The part of `inv` that speaks of the threads, the slots and the rows added to them.
    pub open spec fn basics(self) -> bool {
        &&& self.input_ok()
        &&& self.shaped()
        &&& self.workers_ok()
        &&& self.slots_ok()
        &&& self.places_ok()
        &&& self.shareds_ok()
        &&& self.pairs_ok()
        &&& self.logged_ok()
        &&& self.slogged_ok()
        &&& self.applied_ok()
        &&& self.logs_unique()
        &&& self.cells_ok()
    }

    /// The history after one more step of thread `t`.
    pub open spec fn recorded(self, t: int) -> History {
        let h = self.h;
        let w = self.st.workers[t];
        let g = self.at(t);
        let r = self.current(t);
        let done = h.done[t];
        let next = self.st.step(self.job, t).stage(t);
        match w.stage {
            Stage::Claim { slot } => if next is Write {
                History { owner: h.owner.update(g, t), ..h }
            } else {
                h
            },
            Stage::Publish { slot } => History {
                place: h.place.update(t, h.place[t].update(done, slot as int)),
                origin: if w.name_len > 0 {
                    h.origin.update(g, r)
                } else {
                    h.origin
                },
                ..h
            },
            Stage::Match { slot } => if next is Pick {
                History { place: h.place.update(t, h.place[t].update(done, slot as int)), ..h }
            } else {
                h
            },
            Stage::Shared { slot, k } => {
                let b = self.block(t);
                let l = local_slot(slot as int);
                let log = h.slog[b][l];
                History {
                    slog: h.slog.update(b, h.slog[b].update(l, log.set(k, log.get(k).push(r)))),
                    done: if k == Aggregate::Max {
                        h.done.update(t, done + 1)
                    } else {
                        h.done
                    },
                    ..h
                }
            },
            Stage::Global { slot, k } => History {
                glog: h.glog.update(g, h.glog[g].set(k, h.glog[g].get(k).push(r))),
                done: if k == Aggregate::Max {
                    h.done.update(t, done + 1)
                } else {
                    h.done
                },
                ..h
            },
            Stage::Drain { next, slot, k } => {
                let b = self.block(t);
                let log = h.slog[b][next as int];
                History {
                    glog: h.glog.update(
                        g,
                        h.glog[g].set(k, h.glog[g].get(k) + log.get(k)),
                    ),
                    slog: h.slog.update(
                        b,
                        h.slog[b].update(next as int, log.set(k, Seq::empty())),
                    ),
                    ..h
                }
            },
            _ => h,
        }
    }

    /// The run after one more step of thread `t`.
    pub open spec fn stepped(self, t: int) -> Run {
        Run { st: self.st.step(self.job, t), h: self.recorded(t), ..self }
    }
}

} // verus!
