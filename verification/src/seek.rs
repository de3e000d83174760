//! The steps of the search for a name's slot: looking, claiming, writing, publishing.

use vstd::prelude::*;
use crate::frame::{lemma_global_slot, lemma_passed_kept, lemma_table};
use crate::hash::{home, TABLE_SIZE};
use crate::parse::NAME_MAX;
use crate::run::{seeking, stage_slot, Run};
use crate::tables::{distance, global_slot, written, Store, LOCAL_SIZE, TOTAL_SLOTS};

verus! {

/// Past a slot with another name, one more slot is passed.
pub proof fn lemma_passed_next(store: Store, table: int, slot: int, name: Seq<u8>)
    requires
        0 <= slot < TABLE_SIZE,
        store.passed(table, slot, name),
        store.taken(table, slot, name),
        distance(home(name), slot) < TABLE_SIZE - 1,
    ensures
        store.passed(table, (slot + 1) % TABLE_SIZE as int, name),
        0 <= (slot + 1) % TABLE_SIZE as int,
        (slot + 1) % (TABLE_SIZE as int) < TABLE_SIZE,
        distance(home(name), (slot + 1) % TABLE_SIZE as int) == distance(home(name), slot) + 1,
{
    let next = (slot + 1) % TABLE_SIZE as int;
    let from = home(name);
    assert(0 <= from < TABLE_SIZE);
    assert(next == if slot + 1 == TABLE_SIZE { 0 } else { slot + 1 });
    assert forall|x: int|
        0 <= x < TABLE_SIZE && distance(from, x) < distance(from, next) implies #[trigger] store.taken(
        table,
        x,
        name,
    ) by {
        if x != slot {
            assert(distance(from, x) < distance(from, slot));
        }
    }
}

/// A name that can be reached from its home is in one slot only.
pub proof fn lemma_name_once(store: Store, table: int, x: int, y: int, name: Seq<u8>)
    requires
        0 <= x < TABLE_SIZE,
        0 <= y < TABLE_SIZE,
        store.passed(table, x, name),
        store.passed(table, y, name),
        store.bears(table, x, name),
        store.bears(table, y, name),
    ensures
        x == y,
{
    let from = home(name);
    assert(0 <= from < TABLE_SIZE);
    if distance(from, x) < distance(from, y) {
        assert(store.taken(table, x, name));
    } else if distance(from, y) < distance(from, x) {
        assert(store.taken(table, y, name));
    }
}

impl Run {
    /// A thread that looks for a slot does not come round to where it began.
    pub proof fn lemma_not_full(self, t: int)
        requires
            self.basics(),
            0 <= t < self.job.threads(),
            seeking(self.st.stage(t)),
            self.st.store.taken(
                self.job.table(t),
                stage_slot(self.st.stage(t)),
                self.job.name(self.current(t)),
            ),
        ensures
            distance(home(self.job.name(self.current(t))), stage_slot(self.st.stage(t)))
                < TABLE_SIZE - 1,
    {
        let r = self.current(t);
        let name = self.job.name(r);
        let slot = stage_slot(self.st.stage(t));
        let table = self.job.table(t);
        let store = self.st.store;
        let from = home(name);
        assert(self.worker_ok(t));
        lemma_table(self.job, t);
        if distance(from, slot) >= TABLE_SIZE - 1 {
            assert forall|x: int| 0 <= x < TABLE_SIZE implies #[trigger] store.taken(
                table,
                x,
                name,
            ) by {
                assert(0 <= from < TABLE_SIZE);
                if x != slot {
                    assert(distance(from, x) < distance(from, slot));
                }
            }
            let names = Seq::new(
                TABLE_SIZE as nat,
                |x: int| store.slot_name(global_slot(table, x)),
            );
            assert forall|x: int| 0 <= x < TABLE_SIZE implies self.job.uses(
                self.base,
                table,
                #[trigger] names[x],
            ) by {
                assert(store.taken(table, x, name));
                lemma_global_slot(table, x);
                let g = global_slot(table, x);
                assert(self.slot_ok(g));
                assert(self.base.lens[g] >= 0);
                if self.base.lens[g] > 0 {
                    assert(self.base.bears(table, x, names[x]));
                } else {
                    let o = self.h.origin[g];
                    assert(self.placed(o));
                    assert(self.place_ok(o));
                    lemma_table(self.job, o.thread);
                    lemma_global_slot(
                        self.job.table(o.thread),
                        self.h.place[o.thread][o.index],
                    );
                    assert(self.job.row_named(table, o, names[x]));
                }
                assert(names[x].len() == store.lens[g]) by {
                    assert(g * NAME_MAX + store.lens[g] <= store.names.len());
                }
            }
            assert forall|x: int, y: int|
                0 <= x < names.len() && 0 <= y < names.len() && x != y implies names[x]
                != names[y] by {
                assert(store.taken(table, x, name));
                assert(store.taken(table, y, name));
                lemma_global_slot(table, x);
                lemma_global_slot(table, y);
                assert(self.slot_ok(global_slot(table, x)));
                assert(self.slot_ok(global_slot(table, y)));
                if names[x] == names[y] {
                    lemma_name_once(store, table, x, y, names[x]);
                }
            }
            assert(names.no_duplicates());
            assert(self.job.has_room(self.base, table));
            assert(self.job.has(r));
            assert(self.job.row_named(table, r, name));
            if name.len() == 0 {
                assert(name =~= Seq::<u8>::empty());
                assert(names.len() < TABLE_SIZE);
            } else {
                let more = names.push(name);
                assert forall|i: int| 0 <= i < more.len() implies self.job.uses(
                    self.base,
                    table,
                    #[trigger] more[i],
                ) by {
                    if i < names.len() {
                        assert(more[i] == names[i]);
                    }
                }
                assert(more.no_duplicates()) by {
                    assert forall|x: int, y: int|
                        0 <= x < more.len() && 0 <= y < more.len() && x != y implies more[x]
                        != more[y] by {
                        if x < names.len() && y < names.len() {
                            assert(more[x] == names[x] && more[y] == names[y]);
                        } else if x < names.len() {
                            assert(store.taken(table, x, name));
                        } else {
                            assert(store.taken(table, y, name));
                        }
                    }
                }
                assert(more.len() <= TABLE_SIZE);
            }
        }
    }

    /// A step that only looks: at the length of a name, at a name, or at a slot that another
    /// thread was faster to claim.
    pub proof fn lemma_step_look(self, t: int)
        requires
            self.basics(),
            0 <= t < self.job.threads(),
            ({
                let stage = self.st.stage(t);
                ||| stage is Probe
                ||| stage is Match
                ||| stage is Claim && self.st.store.lens[self.at(t)] != 0
            }),
        ensures
            self.stepped(t).basics(),
    {
        let post = self.stepped(t);
        let w = self.st.workers[t];
        let stage = w.stage;
        let slot = stage_slot(stage);
        let r = self.current(t);
        let name = self.job.name(r);
        let table = self.job.table(t);
        let g = self.at(t);
        let store = self.st.store;
        assert(self.worker_ok(t));
        assert(self.seek_ok(t));
        lemma_table(self.job, t);
        lemma_global_slot(table, slot);
        assert(self.slot_ok(g));
        self.job.lemma_name_len(r);
        assert(store.slot_name(g).len() == if store.lens[g] > 0 { store.lens[g] as int } else { 0 }
            || store.lens[g] < 0) by {
            assert(g * NAME_MAX + NAME_MAX <= store.names.len());
        }
        let to = post.st.stage(t);
        assert(name == self.job.text.subrange(w.pos as int, w.pos + w.name_len));
        assert(stage is Probe && to is Probe && stage_slot(to) != slot ==> store.taken(
            table,
            slot,
            name,
        ));
        assert(stage is Match && to is Probe ==> store.taken(table, slot, name));
        if store.taken(table, slot, name) {
            self.lemma_not_full(t);
            lemma_passed_next(store, table, slot, name);
        }
        self.lemma_move(post, t);
        assert(post.row_ok(t));
        assert(post.worker_ok(t));
        assert forall|x: int| 0 <= x < TOTAL_SLOTS implies #[trigger] post.slot_ok(x) by {
            assert(self.slot_ok(x));
            self.lemma_slot_kept(post, t, x);
        }
        self.lemma_places_kept(post, t);
        assert forall|b: int, l: int|
            0 <= b < self.job.grid && 0 <= l < LOCAL_SIZE implies #[trigger] post.shared_ok(b, l) by {
            assert(self.shared_ok(b, l));
            assert(post.inited(b, l) == self.inited(b, l));
        }
        self.lemma_logs_kept(post, t);
        self.lemma_assemble(post, t);
    }

    /// A step that leaves the shared tables alone leaves them right.
    pub proof fn lemma_shareds_same(self, post: Run)
        requires
            self.basics(),
            post.job == self.job,
            post.st.blocks == self.st.blocks,
            forall|b: int, l: int|
                #![trigger post.inited(b, l)]
                0 <= b < self.job.grid && 0 <= l < LOCAL_SIZE ==> post.inited(b, l) == self.inited(
                    b,
                    l,
                ),
        ensures
            post.shareds_ok(),
    {
        assert forall|b: int, l: int|
            0 <= b < self.job.grid && 0 <= l < LOCAL_SIZE implies #[trigger] post.shared_ok(b, l) by {
            assert(self.shared_ok(b, l));
            assert(post.inited(b, l) == self.inited(b, l));
        }
    }

    /// The thread claims an empty slot.
    pub proof fn lemma_step_claim(self, t: int)
        requires
            self.basics(),
            0 <= t < self.job.threads(),
            self.st.stage(t) is Claim,
            self.st.store.lens[self.at(t)] == 0,
        ensures
            self.stepped(t).basics(),
    {
        let post = self.stepped(t);
        let w = self.st.workers[t];
        let slot = stage_slot(w.stage);
        let table = self.job.table(t);
        let g = self.at(t);
        let store = self.st.store;
        assert(self.worker_ok(t));
        assert(self.seek_ok(t));
        lemma_table(self.job, t);
        lemma_global_slot(table, slot);
        assert(self.slot_ok(g));
        assert(post.st.store.lens =~= store.lens.update(g, -1i32));
        assert(post.st.stage(t) is Write);
        self.lemma_move(post, t);
        lemma_passed_kept(
            store,
            post.st.store,
            table,
            slot,
            self.job.name(self.current(t)),
        );
        assert(post.row_ok(t));
        assert(post.worker_ok(t));
        assert forall|x: int| 0 <= x < TOTAL_SLOTS implies #[trigger] post.slot_ok(x) by {
            assert(self.slot_ok(x));
            if x != g {
                self.lemma_slot_kept(post, t, x);
            }
        }
        self.lemma_places_kept(post, t);
        self.lemma_shareds_same(post);
        self.lemma_logs_kept(post, t);
        self.lemma_assemble(post, t);
    }

    /// The thread writes the name of its row into the slot that it holds.
    pub proof fn lemma_step_write(self, t: int)
        requires
            self.basics(),
            0 <= t < self.job.threads(),
            self.st.stage(t) is Write,
        ensures
            self.stepped(t).basics(),
    {
        let post = self.stepped(t);
        let w = self.st.workers[t];
        let slot = stage_slot(w.stage);
        let table = self.job.table(t);
        let g = self.at(t);
        let r = self.current(t);
        let name = self.job.name(r);
        let store = self.st.store;
        assert(self.worker_ok(t));
        assert(self.seek_ok(t));
        lemma_table(self.job, t);
        lemma_global_slot(table, slot);
        self.job.lemma_name_len(r);
        assert(name == self.job.text.subrange(w.pos as int, w.pos + w.name_len));
        assert(post.st.store.names == written(store.names, g, name));
        assert forall|x: int, len: int|
            0 <= x < TOTAL_SLOTS && x != g && 0 <= len <= NAME_MAX implies #[trigger] post.st.store.name_prefix(
            x,
            len,
        ) == store.name_prefix(x, len) by {
            assert(x * NAME_MAX + len <= store.names.len());
            assert(post.st.store.name_prefix(x, len) =~= store.name_prefix(x, len));
        }
        assert(g * NAME_MAX + NAME_MAX <= store.names.len());
        assert(post.st.store.name_prefix(g, name.len() as int) =~= name);
        assert forall|x: int| 0 <= x < TOTAL_SLOTS && store.lens[x] > 0 implies #[trigger] post.st.store.lens[x]
            == store.lens[x] && post.st.store.slot_name(x) == store.slot_name(x) by {
            assert(self.slot_ok(x));
            assert(x != g);
            assert(post.st.store.name_prefix(x, store.lens[x] as int) == store.name_prefix(
                x,
                store.lens[x] as int,
            ));
        }
        self.lemma_move(post, t);
        lemma_passed_kept(store, post.st.store, table, slot, name);
        assert(post.row_ok(t));
        assert(post.worker_ok(t));
        assert forall|x: int| 0 <= x < TOTAL_SLOTS implies #[trigger] post.slot_ok(x) by {
            assert(self.slot_ok(x));
            self.lemma_slot_kept(post, t, x);
        }
        self.lemma_places_kept(post, t);
        self.lemma_shareds_same(post);
        self.lemma_logs_kept(post, t);
        self.lemma_assemble(post, t);
    }

    /// The thread stores the length of the name that it has written, and gives the slot up.
    pub proof fn lemma_step_publish(self, t: int)
        requires
            self.basics(),
            0 <= t < self.job.threads(),
            self.st.stage(t) is Publish,
        ensures
            self.stepped(t).basics(),
    {
        let post = self.stepped(t);
        let w = self.st.workers[t];
        let slot = stage_slot(w.stage);
        let table = self.job.table(t);
        let g = self.at(t);
        let r = self.current(t);
        let name = self.job.name(r);
        let store = self.st.store;
        assert(self.worker_ok(t));
        assert(self.seek_ok(t));
        lemma_table(self.job, t);
        lemma_global_slot(table, slot);
        assert(self.slot_ok(g));
        self.job.lemma_name_len(r);
        assert(post.st.store.lens =~= store.lens.update(g, name.len() as i32));
        assert(post.st.store.slot_name(g) == name);
        assert(post.st.stage(t) is Pick);
        self.lemma_move(post, t);
        lemma_passed_kept(store, post.st.store, table, slot, name);
        assert(post.row_ok(t));
        assert(post.worker_ok(t));
        assert(post.placed(r));
        assert(post.row_slot(r) == g);
        assert(post.place_ok(r));
        assert forall|x: int| 0 <= x < TOTAL_SLOTS implies #[trigger] post.slot_ok(x) by {
            assert(self.slot_ok(x));
            if x != g {
                self.lemma_slot_kept(post, t, x);
            } else {
                assert(name.len() > 0 ==> post.origin_ok(g));
            }
        }
        self.lemma_places_kept(post, t);
        self.lemma_shareds_same(post);
        self.lemma_logs_kept(post, t);
        self.lemma_assemble(post, t);
    }
}

} // verus!
