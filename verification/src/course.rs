//! The course of a launch: how it starts, the steps of its threads in a given order, and how
//! threads that are not through are run to their end.

use vstd::prelude::*;
use crate::aggregate::Aggregate;
use crate::frame::{lemma_blocks, lemma_first_row, lemma_global_slot, lemma_split_slot, lemma_table};
use crate::hash::TABLE_SIZE;
use crate::launch::{Job, RowId};
use crate::progress::phase;
use crate::run::{holding, located, seeking, stage_slot, History, Log, Run};
use crate::state::{at_end, setting_up, State};
use crate::tables::{global_slot, Block, Store, LOCAL_SIZE, TOTAL_SLOTS};
use crate::worker::{Stage, Worker};

verus! {

/// How far a thread is run.
#[derive(Clone, Copy, Debug, PartialEq, Eq, Structural)]
pub enum Goal {
    /// Until it has set up its part of the shared table.
    SetUp,
    /// Until the search for the slot of its row is over.
    Found,
    /// Until it holds no slot.
    Released,
    /// Until it has read all its rows.
    AllRead,
    /// To its end.
    Through,
}

impl Goal {
    /// The stage is one at which the thread is left.
    pub open spec fn met(self, stage: Stage) -> bool {
        match self {
            Goal::SetUp => !setting_up(stage),
            Goal::Found => !seeking(stage),
            Goal::Released => !holding(stage),
            Goal::AllRead => at_end(stage),
            Goal::Through => stage is Done,
        }
    }

    /// Whether the stage is one at which the thread is left.
    pub fn reached(self, stage: Stage) -> (r: bool)
        ensures
            r == self.met(stage),
    {
        match self {
            Goal::SetUp => !matches!(stage, Stage::Init { .. }),
            Goal::Found => !matches!(
                stage,
                Stage::Probe { .. } | Stage::Claim { .. } | Stage::Write { .. }
                | Stage::Publish { .. } | Stage::Match { .. }
            ),
            Goal::Released => !matches!(stage, Stage::Write { .. } | Stage::Publish { .. }),
            Goal::AllRead => matches!(
                stage,
                Stage::Finish | Stage::Flush { .. } | Stage::Drain { .. } | Stage::Done
            ),
            Goal::Through => matches!(stage, Stage::Done),
        }
    }
}

impl Run {
    /// The history of a launch in which nothing has happened.
    pub open spec fn no_history(job: Job) -> History {
        History {
            owner: Seq::new(TOTAL_SLOTS as nat, |g: int| 0int),
            origin: Seq::new(TOTAL_SLOTS as nat, |g: int| RowId { thread: 0, index: 0 }),
            place: Seq::new(
                job.threads() as nat,
                |t: int| Seq::new(job.rows(t).len(), |i: int| 0int),
            ),
            done: Seq::new(job.threads() as nat, |t: int| 0int),
            glog: Seq::new(TOTAL_SLOTS as nat, |g: int| Log::empty()),
            slog: Seq::new(
                job.grid as nat,
                |b: int| Seq::new(LOCAL_SIZE as nat, |l: int| Log::empty()),
            ),
        }
    }

    /// A launch before its first step.
    pub open spec fn starting(job: Job, base: Store) -> Run {
        Run {
            job,
            base,
            st: State {
                store: base,
                blocks: Seq::new(job.grid as nat, |b: int| Block::empty()),
                workers: Seq::new(job.threads() as nat, |t: int| Worker::starting(job, t)),
            },
            h: Run::no_history(job),
        }
    }

    /// The invariant holds before the first step.
    pub proof fn lemma_start(self)
        requires
            self.input_ok(),
            self == Run::starting(self.job, self.base),
        ensures
            self.inv(),
    {
        let job = self.job;
        let store = self.st.store;
        assert forall|t: int| 0 <= t < job.threads() implies #[trigger] self.worker_ok(t) && !located(
            self.st.stage(t),
        ) && !seeking(self.st.stage(t)) by {
            assert(self.st.workers[t] == Worker::starting(job, t));
            lemma_blocks(job, t);
            lemma_first_row(job, t);
            assert(t < usize::MAX);
            self.lemma_window(t);
            vstd::arithmetic::div_mod::lemma_small_mod((t % job.block) as nat, job.block as nat);
        }
        assert forall|g: int| 0 <= g < TOTAL_SLOTS implies #[trigger] self.slot_ok(g) by {
            lemma_split_slot(g);
            assert(store.lens[g] >= 0);
            assert(global_slot(g / TABLE_SIZE as int, g % TABLE_SIZE as int) == g);
        }
        assert forall|r: RowId, k: Aggregate| job.has(r) implies !#[trigger] self.applied(r, k)
            && !self.placed(r) by {
            assert(self.worker_ok(r.thread));
        }
        assert forall|b: int, l: int| 0 <= b < job.grid && 0 <= l < LOCAL_SIZE implies !(
        #[trigger] self.inited(b, l)) by {
            self.lemma_keeper(b, l);
            let u = self.keeper(b, l);
            assert(self.st.workers[u] == Worker::starting(job, u));
            let s = job.block;
            assert(l % s <= l) by (nonlinear_arith)
                requires
                    l >= 0,
                    s > 0,
            ;
        }
        assert forall|r: RowId| job.has(r) && self.placed(r) implies #[trigger] self.place_ok(r) by {
            assert(!self.applied(r, Aggregate::Sum));
        }
        assert forall|b: int, l: int| 0 <= b < job.grid && 0 <= l < LOCAL_SIZE implies
            #[trigger] self.shared_ok(b, l) by {
            assert(!self.inited(b, l));
        }
        assert forall|t: int, u: int|
            0 <= t < job.threads() && 0 <= u < job.threads() implies #[trigger] self.pair_ok(
            t,
            u,
        ) by {
            assert(self.st.workers[t] == Worker::starting(job, t));
        }
        assert(self.job.threads() > 0) by (nonlinear_arith)
            requires
                self.job.threads() == self.job.grid * self.job.block,
                self.job.grid > 0,
                self.job.block > 0,
        ;
        assert(self.worker_ok(0));
        assert(self.cells_ok()) by {
            assert forall|k: Aggregate, b: int, l: int|
                #![trigger self.h.slog[b][l].get(k)]
                0 <= b < job.grid && 0 <= l < LOCAL_SIZE implies !self.inited(b, l) by {
                assert(!self.inited(b, l));
            }
        }
    }

    /// A thread's part of the text lies within the range of machine integers.
    proof fn lemma_window(self, t: int)
        requires
            self.input_ok(),
            0 <= t < self.job.threads(),
        ensures
            0 <= self.job.window_start(t) <= usize::MAX,
            0 <= self.job.window_end(t) <= usize::MAX,
    {
        let n = self.job.threads();
        let len = self.job.text.len() as int;
        let c = self.job.chunk();
        lemma_first_row(self.job, t);
        assert(t * c <= len + n - 1) by (nonlinear_arith)
            requires
                c == (len + n - 1) / n,
                n > 0,
                0 <= t < n,
                c >= 0,
        ;
    }
}

impl Run {
    /// The launch after the threads of `schedule` had their turn, one step each. Threads are counted
    /// modulo their number.
    pub open spec fn scheduled(self, schedule: Seq<usize>) -> Run
        decreases schedule.len(),
    {
        if schedule.len() == 0 {
            self
        } else {
            self.scheduled(schedule.drop_last()).stepped(
                schedule.last() as int % self.job.threads(),
            )
        }
    }

    /// Thread `t` has not reached the goal, and need not wait for another one.
    pub open spec fn goes_on(self, t: int, goal: Goal) -> bool {
        &&& self.inv()
        &&& 0 <= t < self.job.threads()
        &&& !goal.met(self.st.stage(t))
        &&& !(self.st.stage(t) is Done)
        &&& !self.waits(t)
    }

    /// The launch after thread `t` was run up to the goal, or until it has to wait.
    pub open spec fn driven(self, t: int, goal: Goal) -> Run
        decreases
                self.rows_left(t),
                phase(self.st.stage(t)),
                self.slots_left(t),
                self.turns_left(t),
    {
        if self.goes_on(t, goal) {
            proof {
                self.lemma_progress(t);
            }
            self.stepped(t).driven(t, goal)
        } else {
            self
        }
    }

    /// The launch after the first `n` threads were run up to the goal, one after the other.
    pub open spec fn all_driven(self, n: int, goal: Goal) -> Run
        decreases n,
    {
        if n <= 0 {
            self
        } else {
            self.all_driven(n - 1, goal).driven(n - 1, goal)
        }
    }

    /// The launch after all threads were run to their end: each up to the first barrier, then out of
    /// any slot that it holds, then through its rows, then through the flush.
    pub open spec fn ended(self) -> Run {
        let n = self.job.threads();
        self.all_driven(n, Goal::SetUp).all_driven(n, Goal::Released).all_driven(
            n,
            Goal::AllRead,
        ).all_driven(n, Goal::Through)
    }

    /// Only thread `t` has moved on.
    pub open spec fn only_moved(self, post: Run, t: int) -> bool {
        &&& post.job == self.job
        &&& post.base == self.base
        &&& post.st.workers.len() == self.st.workers.len()
        &&& forall|u: int|
            #![trigger post.st.workers[u]]
            0 <= u < self.job.threads() && u != t ==> post.st.workers[u] == self.st.workers[u]
        &&& !setting_up(self.st.stage(t)) ==> !setting_up(post.st.stage(t))
        &&& at_end(self.st.stage(t)) ==> at_end(post.st.stage(t))
    }

    proof fn lemma_driven(self, t: int, goal: Goal)
        requires
            self.inv(),
            0 <= t < self.job.threads(),
        ensures
            self.driven(t, goal).inv(),
            self.only_moved(self.driven(t, goal), t),
            !self.driven(t, goal).goes_on(t, goal),
        decreases
                self.rows_left(t),
                phase(self.st.stage(t)),
                self.slots_left(t),
                self.turns_left(t),
    {
        if self.goes_on(t, goal) {
            let next = self.stepped(t);
            self.lemma_progress(t);
            self.lemma_step(t);
            assert(self.only_moved(next, t)) by {
                assert(self.worker_ok(t));
            }
            next.lemma_driven(t, goal);
        }
    }

    /// Where thread `u` stands when the first `n` threads were run up to the goal.
    spec fn stands(self, n: int, goal: Goal, u: int) -> bool {
        let stage = self.st.stage(u);
        match goal {
            Goal::SetUp => u < n ==> !setting_up(stage),
            Goal::Found => false,
            Goal::Released => !setting_up(stage) && (u < n ==> !holding(stage)),
            Goal::AllRead => !setting_up(stage) && !holding(stage) && (u < n ==> at_end(stage)),
            Goal::Through => at_end(stage) && (u < n ==> stage is Done),
        }
    }

    spec fn all_stand(self, n: int, goal: Goal) -> bool {
        forall|u: int| 0 <= u < self.job.threads() ==> #[trigger] self.stands(n, goal, u)
    }

    /// A thread that is run up to a goal, when those before it have reached it, does not have to wait.
    proof fn lemma_reaches(self, t: int, goal: Goal)
        requires
            self.inv(),
            0 <= t < self.job.threads(),
            self.all_stand(t, goal),
        ensures
            self.driven(t, goal).all_stand(t + 1, goal),
            self.driven(t, goal).inv(),
            self.driven(t, goal).job == self.job,
            self.driven(t, goal).base == self.base,
    {
        let post = self.driven(t, goal);
        self.lemma_driven(t, goal);
        assert(self.stands(t, goal, t));
        assert(goal.met(post.st.stage(t))) by {
            if !goal.met(post.st.stage(t)) {
                assert(post.worker_ok(t));
                match post.st.stage(t) {
                    Stage::Start => {
                        assert forall|u: int|
                            #![trigger post.st.workers[u]]
                            0 <= u < post.job.threads() && u / post.job.block == t
                                / post.job.block implies !setting_up(post.st.stage(u)) by {
                            assert(self.stands(t, goal, u));
                        }
                        assert(post.st.gate_open(post.job, t));
                    },
                    Stage::Finish => {
                        assert forall|u: int|
                            #![trigger post.st.workers[u]]
                            0 <= u < post.job.threads() && u / post.job.block == t
                                / post.job.block implies at_end(post.st.stage(u)) by {
                            assert(self.stands(t, goal, u));
                        }
                        assert(post.st.gate_open(post.job, t));
                    },
                    Stage::Probe { .. } => {
                        let g = post.at(t);
                        lemma_table(post.job, t);
                        lemma_global_slot(post.job.table(t), stage_slot(post.st.stage(t)));
                        assert(post.slot_ok(g));
                        let u = post.h.owner[g];
                        assert(post.st.store.lens[g] == -1);
                        assert(post.holds_slot(u, g));
                        assert(self.stands(t, goal, u));
                        assert(post.st.workers[u] == self.st.workers[u]);
                    },
                    _ => {},
                }
            }
        }
        assert forall|u: int| 0 <= u < post.job.threads() implies #[trigger] post.stands(
            t + 1,
            goal,
            u,
        ) by {
            assert(self.stands(t, goal, u));
            if u != t {
                assert(post.st.workers[u] == self.st.workers[u]);
            }
        }
    }

    proof fn lemma_all_driven(self, n: int, goal: Goal)
        requires
            self.inv(),
            0 <= n <= self.job.threads(),
            self.all_stand(0, goal),
        ensures
            self.all_driven(n, goal).all_stand(n, goal),
            self.all_driven(n, goal).inv(),
            self.all_driven(n, goal).job == self.job,
            self.all_driven(n, goal).base == self.base,
        decreases n,
    {
        if n > 0 {
            self.lemma_all_driven(n - 1, goal);
            self.all_driven(n - 1, goal).lemma_reaches(n - 1, goal);
        }
    }

    /// In the end every thread is through.
    pub proof fn lemma_ended(self)
        requires
            self.inv(),
        ensures
            self.ended().inv(),
            self.ended().finished(),
            self.ended().job == self.job,
            self.ended().base == self.base,
    {
        let n = self.job.threads();
        assert(n >= 0) by {
            assert(self.st.workers.len() == n);
        }
        let a = self.all_driven(n, Goal::SetUp);
        let b = a.all_driven(n, Goal::Released);
        let c = b.all_driven(n, Goal::AllRead);
        let d = c.all_driven(n, Goal::Through);
        self.lemma_all_driven(n, Goal::SetUp);
        assert(a.all_stand(0, Goal::Released)) by {
            assert forall|u: int| 0 <= u < n implies #[trigger] a.stands(0, Goal::Released, u) by {
                assert(a.stands(n, Goal::SetUp, u));
            }
        }
        a.lemma_all_driven(n, Goal::Released);
        assert(b.all_stand(0, Goal::AllRead)) by {
            assert forall|u: int| 0 <= u < n implies #[trigger] b.stands(0, Goal::AllRead, u) by {
                assert(b.stands(n, Goal::Released, u));
            }
        }
        b.lemma_all_driven(n, Goal::AllRead);
        assert(c.all_stand(0, Goal::Through)) by {
            assert forall|u: int| 0 <= u < n implies #[trigger] c.stands(0, Goal::Through, u) by {
                assert(c.stands(n, Goal::AllRead, u));
            }
        }
        c.lemma_all_driven(n, Goal::Through);
        assert forall|t: int| 0 <= t < n implies #[trigger] d.st.workers[t].stage is Done by {
            assert(d.stands(n, Goal::Through, t));
        }
    }

    /// Any order of steps keeps the invariant.
    pub proof fn lemma_scheduled(self, schedule: Seq<usize>)
        requires
            self.inv(),
        ensures
            self.scheduled(schedule).inv(),
            self.scheduled(schedule).job == self.job,
            self.scheduled(schedule).base == self.base,
        decreases schedule.len(),
    {
        if schedule.len() > 0 {
            let rest = self.scheduled(schedule.drop_last());
            let n = self.job.threads();
            self.lemma_scheduled(schedule.drop_last());
            assert(n > 0) by (nonlinear_arith)
                requires
                    n == self.job.grid * self.job.block,
                    self.job.grid > 0,
                    self.job.block > 0,
            ;
            vstd::arithmetic::div_mod::lemma_mod_bound(schedule.last() as int, n);
            rest.lemma_step(schedule.last() as int % n);
        }
    }
}

impl Job {
    /// The launch over tables that hold `before`, run to its end: first the threads of `schedule`,
    /// one step each, then all that are not through.
    pub open spec fn course(self, before: Store, schedule: Seq<usize>) -> Run {
        Run::starting(self, before).scheduled(schedule).ended()
    }

    /// What the launch makes of the tables.
    pub open spec fn outcome(self, before: Store, schedule: Seq<usize>) -> Store {
        self.course(before, schedule).st.store
    }

    /// What a launch can be started with: a text that is not too long and in which all readings can
    /// be parsed, tables that are well-formed and have room for its names.
    pub open spec fn can_start(self, before: Store) -> bool {
        Run::starting(self, before).input_ok()
    }

    /// What is known of every launch in its end, whatever the order of its threads: the tables are
    /// well-formed, and every row that was read is counted.
    pub proof fn lemma_outcome(self, before: Store, schedule: Seq<usize>)
        requires
            self.can_start(before),
        ensures
            self.outcome(before, schedule).wf(),
            self.counted(
                before,
                self.outcome(before, schedule),
                self.course(before, schedule).h.place,
            ),
            self.course(before, schedule).inv(),
            self.course(before, schedule).finished(),
            self.course(before, schedule).job == self,
            self.course(before, schedule).base == before,
    {
        let start = Run::starting(self, before);
        start.lemma_start();
        start.lemma_scheduled(schedule);
        start.scheduled(schedule).lemma_ended();
        self.course(before, schedule).lemma_finished();
    }
}

} // verus!
