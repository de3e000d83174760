//! Running a launch: all threads over one memory, one access at a time, in a given order.

use vstd::prelude::*;
use crate::course::Goal;
use crate::frame::{lemma_blocks, lemma_first_row, lemma_table};
use crate::hash::TABLE_SIZE;
use crate::launch::{lemma_rows_from, lemma_rows_step, rows_fit, rows_from, Job, Launch, NUM_TABLES};
use crate::parse::NAME_MAX;
use crate::progress::phase;
use crate::run::{located, seeking, History, Run};
use crate::state::{at_end, setting_up, State};
use crate::tables::{Block, SharedTable, Store, Tables, LOCAL_SIZE};
use crate::worker::{Request, Stage, Worker};

verus! {

/// The threads of a launch and the shared tables of its blocks. The tables of the launch stand
/// apart.
pub struct Grid {
    shared: Vec<SharedTable>,
    workers: Vec<Worker>,
    block_dim: usize,
    job: Ghost<Job>,
    base: Ghost<Store>,
    history: Ghost<History>,
}

impl Grid {
    /// The launch at the point that it has reached.
    pub closed spec fn run(&self, tables: &Tables) -> Run {
        Run {
            job: self.job@,
            base: self.base@,
            st: State {
                store: tables@,
                blocks: Seq::new(self.shared.len() as nat, |b: int| self.shared[b]@),
                workers: self.workers@,
            },
            h: self.history@,
        }
    }

    /// The memory is of the right size, and the invariant of the launch holds.
    pub closed spec fn wf(&self, tables: &Tables) -> bool {
        &&& tables.shaped()
        &&& forall|b: int| 0 <= b < self.shared.len() ==> (#[trigger] self.shared[b]).shaped()
        &&& self.block_dim == self.job@.block
        &&& self.run(tables).inv()
    }

    /// All threads of a launch before their first step.
    fn new(launch: &Launch, raw_text: &[u8], tables: &Tables) -> (r: Grid)
        requires
            launch.wf(),
            raw_text.len() + launch.grid_dim * launch.block_dim <= usize::MAX,
            launch.job(raw_text@).fits(),
            tables.wf(),
            launch.job(raw_text@).rooms(tables@),
        ensures
            r.wf(tables),
            r.run(tables) == Run::starting(launch.job(raw_text@), tables@),
    {
        let ghost job = launch.job(raw_text@);
        let n: usize = launch.threads();
        let blocks: usize = launch.grid_dim as usize;
        let mut shared: Vec<SharedTable> = Vec::new();
        while shared.len() < blocks
            invariant
                shared.len() <= blocks,
                forall|b: int|
                    0 <= b < shared.len() ==> (#[trigger] shared[b]).shaped() && shared[b]@
                        == Block::empty(),
            decreases blocks - shared.len(),
        {
            let table = SharedTable::new();
            assert(table@.owner =~= Block::empty().owner);
            assert(table@.cells =~= Block::empty().cells);
            shared.push(table);
        }
        let mut workers: Vec<Worker> = Vec::new();
        while workers.len() < n
            invariant
                launch.wf(),
                n == launch.grid_dim * launch.block_dim,
                raw_text.len() + n <= usize::MAX,
                job == launch.job(raw_text@),
                workers.len() <= n,
                forall|t: int|
                    0 <= t < workers.len() ==> #[trigger] workers[t] == Worker::starting(job, t),
            decreases n - workers.len(),
        {
            let tid: usize = workers.len();
            workers.push(Worker::new(launch, tid, raw_text.len()));
            assert(raw_text@.len() == raw_text.len());
        }
        let r = Grid {
            shared,
            workers,
            block_dim: launch.block_dim as usize,
            job: Ghost(job),
            base: Ghost(tables@),
            history: Ghost(Run::no_history(job)),
        };
        proof {
            let run = r.run(tables);
            let start = Run::starting(job, tables@);
            assert(job.threads() == n);
            assert(run.st.blocks =~= start.st.blocks);
            assert(run.st.workers =~= start.st.workers);
            run.lemma_start();
        }
        r
    }

    /// Whether all threads of the block of `t` have reached the barrier at which `t` waits.
    fn gate_open(&self, tables: &Tables, t: usize) -> (r: bool)
        requires
            self.wf(tables),
            t < self.run(tables).job.threads(),
        ensures
            r == self.run(tables).st.gate_open(self.run(tables).job, t as int),
    {
        let ghost run = self.run(tables);
        let ghost job = run.job;
        let b: usize = t / self.block_dim;
        proof {
            lemma_blocks(job, t as int);
            assert(b * self.block_dim + self.block_dim <= job.threads()) by (nonlinear_arith)
                requires
                    0 <= b < job.grid,
                    self.block_dim == job.block,
                    job.threads() == job.grid * job.block,
            ;
        }
        let first: usize = b * self.block_dim;
        let starting: bool = matches!(self.workers[t].stage, Stage::Start);
        let mut i: usize = 0;
        while i < self.block_dim
            invariant
                self.wf(tables),
                run == self.run(tables),
                job == run.job,
                t < job.threads(),
                starting == (run.st.stage(t as int) is Start),
                i <= self.block_dim,
                self.block_dim == job.block,
                first == b * self.block_dim,
                b == t as int / job.block,
                first + self.block_dim <= job.threads(),
                forall|u: int|
                    #![trigger run.st.workers[u]]
                    first <= u < first + i ==> if starting {
                        !setting_up(run.st.stage(u))
                    } else {
                        at_end(run.st.stage(u))
                    },
            decreases self.block_dim - i,
        {
            let u: usize = first + i;
            let reached: bool = match self.workers[u].stage {
                Stage::Init { .. } => false,
                Stage::Finish => true,
                Stage::Flush { .. } => true,
                Stage::Drain { .. } => true,
                Stage::Done => true,
                _ => starting,
            };
            if !reached {
                proof {
                    vstd::arithmetic::div_mod::lemma_fundamental_div_mod_converse(
                        u as int,
                        job.block,
                        b as int,
                        i as int,
                    );
                    assert(run.st.workers[u as int].stage == self.workers[u as int].stage);
                }
                return false;
            }
            assert(run.st.workers[u as int].stage == self.workers[u as int].stage);
            i = i + 1;
        }
        proof {
            assert forall|u: int|
                #![trigger run.st.workers[u]]
                0 <= u < job.threads() && u / job.block == t as int / job.block implies (if run.st.stage(
                t as int,
            ) is Start {
                !setting_up(run.st.stage(u))
            } else {
                at_end(run.st.stage(u))
            }) by {
                lemma_blocks(job, u);
            }
        }
        true
    }

    /// One step of thread `t`.
    fn step(&mut self, tables: &mut Tables, raw_text: &[u8], t: usize)
        requires
            old(self).wf(old(tables)),
            old(self).run(old(tables)).job.text == raw_text@,
            t < old(self).run(old(tables)).job.threads(),
        ensures
            final(self).wf(final(tables)),
            final(self).run(final(tables)) == old(self).run(old(tables)).stepped(t as int),
    {
        let ghost run = self.run(tables);
        let ghost job = run.job;
        let b: usize = t / self.block_dim;
        let table: usize = b % NUM_TABLES;
        let base: usize = table * TABLE_SIZE;
        let mut w: Worker = self.workers[t];
        proof {
            run.lemma_step(t as int);
            lemma_blocks(job, t as int);
            lemma_table(job, t as int);
            assert(run.worker_ok(t as int));
            run.lemma_requests(t as int);
            lemma_first_row(job, t as int);
            assert(job.thread_fits(t as int));
        }
        let mut reply: i32 = 0;
        match w.request() {
            Request::Reset { index } => {
                self.shared[b].reset(index);
            },
            Request::Barrier => {
                if self.gate_open(tables, t) {
                    reply = 1;
                }
            },
            Request::LoadLen { slot } => {
                reply = tables.name_lens[base + slot];
            },
            Request::ClaimLen { slot } => {
                if tables.name_lens[base + slot] == 0 {
                    tables.name_lens.set(base + slot, -1);
                    reply = 1;
                }
            },
            Request::CopyName { slot, from, len } => {
                tables.copy_name(base + slot, &raw_text[from..from + len]);
            },
            Request::StoreLen { slot, len } => {
                tables.name_lens.set(base + slot, len as i32);
            },
            Request::MatchName { slot, from, len } => {
                if tables.slot_name_matches(base + slot, &raw_text[from..from + len]) {
                    reply = 1;
                }
            },
            Request::LoadOwner { index } => {
                reply = self.shared[b].slots[index];
            },
            Request::ClaimOwner { index, slot } => {
                if self.shared[b].slots[index] == -1 {
                    self.shared[b].slots.set(index, slot as i32);
                    reply = 1;
                }
            },
            Request::AddShared { index, k, value } => {
                self.shared[b].columns.update_aggregates(index, k, value as i64);
            },
            Request::AddGlobal { slot, k, value } => {
                tables.columns.update_aggregates(base + slot, k, value as i64);
            },
            Request::Drain { index, slot, k } => {
                let value: i64 = self.shared[b].columns.get(index, k);
                tables.columns.update_aggregates(base + slot, k, value);
            },
            Request::Exit => {},
        }
        w.resume(raw_text, reply);
        self.workers.set(t, w);
        proof {
            self.history@ = run.recorded(t as int);
            let after = self.run(tables);
            let (served, answer) = run.st.served(job, t as int, run.st.workers[t as int].asks());
            assert(reply == answer);
            assert(after.st.blocks =~= served.blocks);
            assert(after.st.store.lens =~= served.store.lens);
            assert(after.st.store.cells =~= served.store.cells);
            assert(after.st.workers =~= run.st.step(job, t as int).workers);
        }
    }

    /// Whether thread `t` has to wait for another one.
    fn waits(&self, tables: &Tables, t: usize) -> (r: bool)
        requires
            self.wf(tables),
            t < self.run(tables).job.threads(),
        ensures
            r == self.run(tables).waits(t as int),
    {
        let ghost run = self.run(tables);
        proof {
            assert(run.worker_ok(t as int));
            lemma_blocks(run.job, t as int);
            lemma_table(run.job, t as int);
        }
        match self.workers[t].stage {
            Stage::Start => !self.gate_open(tables, t),
            Stage::Finish => !self.gate_open(tables, t),
            Stage::Probe { slot } => {
                let table: usize = (t / self.block_dim) % NUM_TABLES;
                assert(run.seek_ok(t as int));
                tables.name_lens[table * TABLE_SIZE + slot] == -1
            },
            _ => false,
        }
    }

    /// Runs thread `t` up to the goal, or until it has to wait.
    fn drive(&mut self, tables: &mut Tables, raw_text: &[u8], t: usize, goal: Goal)
        requires
            old(self).wf(old(tables)),
            old(self).run(old(tables)).job.text == raw_text@,
            t < old(self).run(old(tables)).job.threads(),
        ensures
            final(self).wf(final(tables)),
            final(self).run(final(tables)) == old(self).run(old(tables)).driven(t as int, goal),
            final(self).run(final(tables)).job == old(self).run(old(tables)).job,
    {
        let ghost start = self.run(tables);
        while !matches!(self.workers[t].stage, Stage::Done) && !goal.reached(self.workers[t].stage)
            && !self.waits(tables, t)
            invariant
                self.wf(tables),
                self.run(tables).job == start.job,
                start.job.text == raw_text@,
                t < start.job.threads(),
                self.run(tables).driven(t as int, goal) == start.driven(t as int, goal),
            decreases
                self.run(tables).rows_left(t as int),
                phase(self.run(tables).st.stage(t as int)),
                self.run(tables).slots_left(t as int),
                self.run(tables).turns_left(t as int),
        {
            proof {
                self.run(tables).lemma_progress(t as int);
            }
            self.step(tables, raw_text, t);
        }
    }

    /// Runs all threads up to the goal, one after the other.
    fn drive_all(&mut self, tables: &mut Tables, raw_text: &[u8], goal: Goal)
        requires
            old(self).wf(old(tables)),
            old(self).run(old(tables)).job.text == raw_text@,
        ensures
            final(self).wf(final(tables)),
            final(self).run(final(tables)) == old(self).run(old(tables)).all_driven(
                old(self).run(old(tables)).job.threads(),
                goal,
            ),
            final(self).run(final(tables)).job == old(self).run(old(tables)).job,
    {
        let ghost start = self.run(tables);
        let n: usize = self.workers.len();
        let mut t: usize = 0;
        while t < n
            invariant
                t <= n,
                n == start.job.threads(),
                self.wf(tables),
                self.run(tables).job == start.job,
                start.job.text == raw_text@,
                self.run(tables) == start.all_driven(t as int, goal),
            decreases n - t,
        {
            self.drive(tables, raw_text, t, goal);
            t = t + 1;
        }
    }
}

/// Counts the rows of a text: the thread that reads a row adds it to the slot that has its name in
/// the table of the thread's block.
///
/// Nothing fixes the order in which the threads of a GPU get to memory. `schedule` stands for
/// it: it names, one after the other, the thread whose turn it is (modulo their number), and
/// each turn is one access to memory. Threads that are not through by its end are then run one
/// after the other. `outcome` says what exactly comes of it, and `counted` what holds for every
/// schedule.
pub fn process_measurements(
    raw_text: &[u8],
    launch: &Launch,
    tables: &mut Tables,
    schedule: &[usize],
)
    requires
        launch.wf(),
        raw_text.len() + launch.grid_dim * launch.block_dim <= usize::MAX,
        launch.job(raw_text@).fits(),
        old(tables).wf(),
        launch.job(raw_text@).rooms(old(tables)@),
    ensures
        final(tables).wf(),
        final(tables)@ == launch.job(raw_text@).outcome(old(tables)@, schedule@),
        exists|place: Seq<Seq<int>>|
            launch.job(raw_text@).counted(old(tables)@, final(tables)@, place),
{
    let ghost job = launch.job(raw_text@);
    let ghost base = tables@;
    let ghost start = Run::starting(job, base);
    let n: usize = launch.threads();
    let mut grid: Grid = Grid::new(launch, raw_text, tables);
    let mut i: usize = 0;
    assert(start.scheduled(schedule@.take(0)) == start);
    while i < schedule.len()
        invariant
            i <= schedule.len(),
            n > 0,
            n == job.threads(),
            job.text == raw_text@,
            start.job == job,
            grid.wf(tables),
            grid.run(tables) == start.scheduled(schedule@.take(i as int)),
            grid.run(tables).job == job,
        decreases schedule.len() - i,
    {
        grid.step(tables, raw_text, schedule[i] % n);
        i = i + 1;
        proof {
            let turns = schedule@.take(i as int);
            assert(turns.drop_last() =~= schedule@.take(i - 1));
            assert(turns.last() == schedule@[i - 1]);
        }
    }
    assert(schedule@.take(i as int) =~= schedule@);
    grid.drive_all(tables, raw_text, Goal::SetUp);
    grid.drive_all(tables, raw_text, Goal::Released);
    grid.drive_all(tables, raw_text, Goal::AllRead);
    grid.drive_all(tables, raw_text, Goal::Through);
    proof {
        assert(job.can_start(base));
        job.lemma_outcome(base, schedule@);
        assert(grid.run(tables) == job.course(base, schedule@));
    }
}

impl Run {
    /// The access that a thread asks for stays within memory.
    pub proof fn lemma_requests(self, t: int)
        requires
            self.inv(),
            0 <= t < self.job.threads(),
        ensures
            self.st.workers[t].can_resume(self.job.text),
            ({
                let w = self.st.workers[t];
                match w.asks() {
                    Request::Reset { index } => index < LOCAL_SIZE,
                    Request::LoadLen { slot } => slot < TABLE_SIZE,
                    Request::ClaimLen { slot } => slot < TABLE_SIZE,
                    Request::CopyName { slot, from, len } => slot < TABLE_SIZE && from + len
                        <= self.job.text.len() && len <= NAME_MAX,
                    Request::StoreLen { slot, len } => slot < TABLE_SIZE && len
                        <= NAME_MAX,
                    Request::MatchName { slot, from, len } => slot < TABLE_SIZE && from + len
                        <= self.job.text.len() && len <= NAME_MAX,
                    Request::LoadOwner { index } => index < LOCAL_SIZE,
                    Request::ClaimOwner { index, slot } => index < LOCAL_SIZE && slot < TABLE_SIZE,
                    Request::AddShared { index, k, value } => index < LOCAL_SIZE && k.holds(
                        value as int,
                    ),
                    Request::AddGlobal { slot, k, value } => slot < TABLE_SIZE && k.holds(
                        value as int,
                    ),
                    Request::Drain { index, slot, .. } => index < LOCAL_SIZE && slot < TABLE_SIZE,
                    _ => true,
                }
            }),
    {
        let w = self.st.workers[t];
        let text = self.job.text;
        assert(self.worker_ok(t));
        lemma_first_row(self.job, t);
        assert(self.job.thread_fits(t));
        if seeking(w.stage) || located(w.stage) {
            assert(self.row_ok(t));
            let r = self.current(t);
            self.job.lemma_name_len(r);
            let rows = self.job.rows(t);
            let done = self.h.done[t];
            lemma_rows_from(
                text,
                self.job.first_row(t)->0,
                self.job.window_end(t),
                done,
            );
            assert(rows_from(text, w.pos as int, w.end as int)[0] == rows[done]);
            lemma_rows_step(text, w.pos as int, w.end as int);
            assert(rows_fit(text, w.pos + w.line_len, w.end as int));
        }
    }
}

} // verus!
