//! Every step of every thread keeps what holds of a launch.

use vstd::prelude::*;
use crate::frame::{lemma_global_slot, lemma_table};
use crate::hash::{home, TABLE_SIZE};
use crate::parse::NAME_MAX;
use crate::run::{seeking, stage_slot, Run};
use crate::tables::{distance, written, Store, TOTAL_SLOTS};

verus! {

impl Store {
    /// The search for a name ends at one slot only.
    pub proof fn lemma_search_end(self, table: int, slot: int, name: Seq<u8>)
        requires
            self.stops(table, slot, name),
        ensures
            self.search_end(table, name) == slot,
    {
        let other = self.search_end(table, name);
        let from = home(name);
        assert(self.stops(table, other, name));
        assert(0 <= from < TABLE_SIZE);
        if distance(from, slot) < distance(from, other) {
            assert(self.taken(table, slot, name));
        } else if distance(from, other) < distance(from, slot) {
            assert(self.taken(table, other, name));
        }
    }
}

impl Run {
    /// Only a thread that writes a name changes bytes, and only those of the name.
    proof fn lemma_step_bytes(self, t: int)
        requires
            self.basics(),
            self.bytes_ok(),
            0 <= t < self.job.threads(),
        ensures
            self.stepped(t).bytes_ok(),
    {
        let post = self.stepped(t);
        let a = self.st.store;
        let b = post.st.store;
        let stage = self.st.stage(t);
        let g = self.at(t);
        let w = self.st.workers[t];
        assert(self.worker_ok(t));
        if seeking(stage) {
            lemma_table(self.job, t);
            lemma_global_slot(self.job.table(t), stage_slot(stage));
            self.job.lemma_name_len(self.current(t));
            assert(self.seek_ok(t));
            assert(self.slot_ok(g));
        }
        assert forall|i: int| 0 <= i < b.names.len() && !post.written_at(i) implies
            #[trigger] b.names[i] == self.base.names[i] by {
            let h = i / NAME_MAX as int;
            assert(0 <= h < TOTAL_SLOTS);
            assert(self.slot_ok(h));
            if a.lens[h] == -1 && h != g {
                assert(self.holds_slot(self.h.owner[h], h));
                assert(self.h.owner[h] != t);
            }
            assert(!self.written_at(i));
            assert(a.names[i] == self.base.names[i]);
        }
    }

    /// A thread that is alone ends the search for its name where the names entered so far make it
    /// end.
    proof fn lemma_solo_end(self, names: Store, slot: int)
        requires
            self.basics(),
            self.job.threads() == 1,
            seeking(self.st.stage(0)),
            slot == stage_slot(self.st.stage(0)),
            forall|x: int|
                0 <= x < TOTAL_SLOTS && x != self.at(0) ==> #[trigger] names.lens[x]
                    == self.st.store.lens[x] && (names.lens[x] > 0 ==> names.slot_name(x)
                    == self.st.store.slot_name(x)),
            !names.taken(self.job.table(0), slot, self.job.name(self.current(0))),
        ensures
            names.stops(self.job.table(0), slot, self.job.name(self.current(0))),
            names.search_end(self.job.table(0), self.job.name(self.current(0))) == slot,
    {
        let table = self.job.table(0);
        let name = self.job.name(self.current(0));
        let from = home(name);
        let store = self.st.store;
        assert(self.worker_ok(0));
        assert(self.seek_ok(0));
        lemma_table(self.job, 0);
        assert forall|x: int|
            0 <= x < TABLE_SIZE && distance(from, x) < distance(from, slot) implies #[trigger] names.taken(
            table,
            x,
            name,
        ) by {
            assert(store.taken(table, x, name));
            lemma_global_slot(table, x);
            lemma_global_slot(table, slot);
        }
        names.lemma_search_end(table, slot, name);
    }

    /// A thread that is alone stores the length of the name that it has written.
    proof fn lemma_solo_publish(self)
        requires
            self.basics(),
            self.job.threads() == 1,
            self.solo_ok(),
            self.st.stage(0) is Publish,
        ensures
            self.stepped(0).solo_ok(),
    {
        let post = self.stepped(0);
        let table = self.job.table(0);
        let done = self.h.done[0];
        let names = self.job.entered(self.base, done);
        let r = self.current(0);
        let name = self.job.name(r);
        let slot = stage_slot(self.st.stage(0));
        let g = self.at(0);
        let store = self.st.store;
        assert(self.worker_ok(0));
        lemma_table(self.job, 0);
        lemma_global_slot(table, slot);
        self.job.lemma_name_len(r);
        assert(self.row_ok(0));
        assert(self.placed_rows() == done);
        assert(store.lens.len() == TOTAL_SLOTS);
        assert(names.lens.update(g, -1i32).len() == names.lens.len());
        assert(written(names.names, g, name).len() == names.names.len());
        assert forall|x: int| 0 <= x < TOTAL_SLOTS && x != g implies #[trigger] names.lens[x]
            == store.lens[x] && (names.lens[x] > 0 ==> names.slot_name(x)
            == store.slot_name(x)) by {
            assert(names.lens.update(g, -1i32)[x] == names.lens[x]);
            assert(self.slot_ok(x));
            if names.lens[x] > 0 {
                assert(names.slot_name(x) =~= store.slot_name(x));
            }
        }
        self.lemma_solo_end(names, slot);
        let next = names.entered(table, name);
        assert(self.job.entered(self.base, done + 1) == next);
        assert(next.lens == names.lens.update(g, name.len() as i32));
        assert(post.st.store.lens =~= next.lens);
        assert(post.st.store.names == next.names);
        assert(post.placed_rows() == done + 1);
        assert forall|i: int| 0 <= i < done + 1 implies #[trigger] post.solo_place(i) by {
            if i < done {
                assert(self.solo_place(i));
            }
        }
    }

    /// A thread that is alone finds the name of its row.
    proof fn lemma_solo_match(self)
        requires
            self.basics(),
            self.job.threads() == 1,
            self.solo_ok(),
            self.st.stage(0) is Match,
        ensures
            self.stepped(0).solo_ok(),
    {
        let post = self.stepped(0);
        let table = self.job.table(0);
        let done = self.h.done[0];
        let names = self.job.entered(self.base, done);
        let r = self.current(0);
        let name = self.job.name(r);
        let slot = stage_slot(self.st.stage(0));
        let store = self.st.store;
        assert(self.worker_ok(0));
        lemma_table(self.job, 0);
        lemma_global_slot(table, slot);
        self.job.lemma_name_len(r);
        assert(self.row_ok(0));
        assert(self.seek_ok(0));
        assert(self.placed_rows() == done);
        if post.st.stage(0) is Pick {
            assert(store.slot_name(self.at(0)) == name);
            self.lemma_solo_end(names, slot);
            assert(self.job.entered(self.base, done + 1) == names);
            assert forall|i: int| 0 <= i < done + 1 implies #[trigger] post.solo_place(i) by {
                if i < done {
                    assert(self.solo_place(i));
                }
            }
        } else {
            assert forall|i: int| 0 <= i < done implies #[trigger] post.solo_place(i) by {
                assert(self.solo_place(i));
            }
        }
    }

    /// A thread that is alone does anything else.
    proof fn lemma_solo_rest(self)
        requires
            self.basics(),
            self.job.threads() == 1,
            self.solo_ok(),
            !(self.st.stage(0) is Publish),
            !(self.st.stage(0) is Match),
        ensures
            self.stepped(0).solo_ok(),
    {
        let post = self.stepped(0);
        let stage = self.st.stage(0);
        assert(self.worker_ok(0));
        if seeking(stage) {
            lemma_table(self.job, 0);
            lemma_global_slot(self.job.table(0), stage_slot(stage));
            assert(self.row_ok(0));
            assert(self.seek_ok(0));
        }
        assert(post.placed_rows() == self.placed_rows());
        assert(post.h.place == self.h.place);
        assert forall|i: int| 0 <= i < post.placed_rows() implies #[trigger] post.solo_place(i) by {
            assert(self.solo_place(i));
        }
    }

    /// Every step of every thread keeps the invariant.
    pub proof fn lemma_step(self, t: int)
        requires
            self.inv(),
            0 <= t < self.job.threads(),
        ensures
            self.stepped(t).inv(),
    {
        self.lemma_step_basics(t);
        self.lemma_step_bytes(t);
        if self.job.threads() == 1 {
            if self.st.stage(0) is Publish {
                self.lemma_solo_publish();
            } else if self.st.stage(0) is Match {
                self.lemma_solo_match();
            } else {
                self.lemma_solo_rest();
            }
        }
    }
}

} // verus!
