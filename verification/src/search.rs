//! The search for the slot of a name by a caller that is alone with the tables.

use vstd::prelude::*;
use crate::frame::lemma_global_slot;
use crate::hash::{first_slot, home, TABLE_SIZE};
use crate::launch::NUM_TABLES;
use crate::parse::NAME_MAX;
use crate::tables::{distance, global_slot, written, Store, Tables, TOTAL_SLOTS};
use crate::worker::{Request, Stage, Worker};

verus! {

impl Store {
    /// The slot has a name, and it is `name`: the length is the same, and so are the bytes.
    pub open spec fn has_at(self, g: int, name: Seq<u8>) -> bool {
        &&& self.lens[g] > 0
        &&& self.lens[g] == name.len()
        &&& self.name_prefix(g, name.len() as int) == name
    }

    /// A search passes the slot: it is neither empty nor being written, and does not have the name.
    pub open spec fn skips(self, table: int, slot: int, name: Seq<u8>) -> bool {
        let g = global_slot(table, slot);
        self.lens[g] != 0 && self.lens[g] != -1 && !self.has_at(g, name)
    }

    /// A search that begins at slot `from` ends at `slot`: it is empty or has the name, and all slots
    /// on the way are passed.
    pub open spec fn ends_at(self, table: int, from: int, slot: int, name: Seq<u8>) -> bool {
        let g = global_slot(table, slot);
        &&& 0 <= slot < TABLE_SIZE
        &&& self.lens[g] == 0 || self.has_at(g, name)
        &&& forall|x: int|
            0 <= x < TABLE_SIZE && distance(from, x) < distance(from, slot) ==> #[trigger] self.skips(
                table,
                x,
                name,
            )
    }

    /// A search that begins at slot `from` ends somewhere: it meets the name, or an empty slot, before
    /// a slot that is being written and before it has gone round.
    pub open spec fn has_end(self, table: int, from: int, name: Seq<u8>) -> bool {
        exists|slot: int| self.ends_at(table, from, slot, name)
    }

    /// The tables after a search that ended at `slot`: if that was empty, it has the name now.
    pub open spec fn claimed(self, table: int, slot: int, name: Seq<u8>) -> Store {
        let g = global_slot(table, slot);
        if self.lens[g] == 0 {
            Store {
                lens: self.lens.update(g, name.len() as i32),
                names: written(self.names, g, name),
                ..self
            }
        } else {
            self
        }
    }

    /// Every slot of `self` that is neither empty nor being written is the same in `later`.
    pub open spec fn kept_in(self, later: Store) -> bool {
        forall|g: int|
            0 <= g < TOTAL_SLOTS && self.lens[g] != 0 && self.lens[g] != -1 ==> #[trigger] later.lens[g]
                == self.lens[g] && (self.lens[g] > 0 ==> later.slot_name(g) == self.slot_name(g))
    }

    /// No name is longer than the room that there is for it.
    pub open spec fn in_room(self) -> bool {
        forall|g: int| 0 <= g < TOTAL_SLOTS ==> #[trigger] self.lens[g] <= NAME_MAX
    }

    /// A search ends at one slot only.
    pub proof fn lemma_ends_once(self, table: int, from: int, x: int, y: int, name: Seq<u8>)
        requires
            0 <= from < TABLE_SIZE,
            self.ends_at(table, from, x, name),
            self.ends_at(table, from, y, name),
        ensures
            x == y,
    {
        if distance(from, x) < distance(from, y) {
            assert(self.skips(table, x, name));
        } else if distance(from, y) < distance(from, x) {
            assert(self.skips(table, y, name));
        }
    }

    /// A search releases, renames and rewrites no slot.
    pub proof fn lemma_claimed_keeps(self, table: int, slot: int, name: Seq<u8>)
        requires
            self.shaped(),
            self.in_room(),
            0 <= table < NUM_TABLES,
            0 <= slot < TABLE_SIZE,
            name.len() <= NAME_MAX,
        ensures
            self.kept_in(self.claimed(table, slot, name)),
            self.claimed(table, slot, name).in_room(),
            self.claimed(table, slot, name).shaped(),
    {
        let g = global_slot(table, slot);
        let later = self.claimed(table, slot, name);
        lemma_global_slot(table, slot);
        assert forall|h: int|
            0 <= h < TOTAL_SLOTS && self.lens[h] != 0 && self.lens[h] != -1 implies #[trigger] later.lens[h]
            == self.lens[h] && (self.lens[h] > 0 ==> later.slot_name(h) == self.slot_name(h)) by {
            if self.lens[g] == 0 {
                assert(h != g);
                if self.lens[h] > 0 {
                    assert(later.slot_name(h) =~= self.slot_name(h));
                }
            }
        }
    }

    /// A name is claimed once: whatever searches came in between, the next search for it ends at the
    /// same slot and changes nothing.
    pub proof fn lemma_claimed_once(
        self,
        table: int,
        from: int,
        slot: int,
        name: Seq<u8>,
        later: Store,
    )
        requires
            self.shaped(),
            self.in_room(),
            0 <= table < NUM_TABLES,
            0 <= from < TABLE_SIZE,
            0 < name.len() <= NAME_MAX,
            self.ends_at(table, from, slot, name),
            self.claimed(table, slot, name).kept_in(later),
        ensures
            later.ends_at(table, from, slot, name),
            later.claimed(table, slot, name) == later,
            later.has_at(global_slot(table, slot), name),
    {
        let g = global_slot(table, slot);
        let mid = self.claimed(table, slot, name);
        lemma_global_slot(table, slot);
        self.lemma_claimed_keeps(table, slot, name);
        assert(mid.has_at(g, name)) by {
            if self.lens[g] == 0 {
                assert(mid.name_prefix(g, name.len() as int) =~= name);
            }
        }
        assert(later.lens[g] == mid.lens[g]);
        assert forall|x: int|
            0 <= x < TABLE_SIZE && distance(from, x) < distance(from, slot) implies #[trigger] later.skips(
            table,
            x,
            name,
        ) by {
            let h = global_slot(table, x);
            lemma_global_slot(table, x);
            assert(self.skips(table, x, name));
            assert(mid.lens[h] == self.lens[h]);
            assert(later.lens[h] == mid.lens[h]);
        }
    }

    /// A search for another name, wherever it begins, ends at another slot, and leaves the name where it
    /// is.
    pub proof fn lemma_names_separate(
        self,
        table: int,
        slot: int,
        name: Seq<u8>,
        from: int,
        end: int,
        other: Seq<u8>,
    )
        requires
            self.shaped(),
            self.in_room(),
            0 <= table < NUM_TABLES,
            0 <= slot < TABLE_SIZE,
            self.has_at(global_slot(table, slot), name),
            other != name,
            other.len() <= NAME_MAX,
            self.ends_at(table, from, end, other),
        ensures
            end != slot,
            self.claimed(table, end, other).has_at(global_slot(table, slot), name),
    {
        lemma_global_slot(table, slot);
        self.lemma_claimed_keeps(table, end, other);
        assert(self.claimed(table, end, other).lens[global_slot(table, slot)] == name.len());
    }

    /// In tables at rest, a search that begins at the home of a name is the one that a launch makes.
    pub proof fn lemma_home_search(self, table: int, slot: int, name: Seq<u8>)
        requires
            self.wf(),
            0 <= table < NUM_TABLES,
            name.len() <= NAME_MAX,
        ensures
            self.ends_at(table, home(name), slot, name) <==> self.stops(table, slot, name),
            self.stops(table, slot, name) ==> self.claimed(table, slot, name) == self.entered(
                table,
                name,
            ),
    {
        assert forall|x: int| 0 <= x < TABLE_SIZE implies {
            let g = global_slot(table, x);
            &&& #[trigger] self.skips(table, x, name) == self.taken(table, x, name)
            &&& 0 <= self.lens[g]
            &&& self.has_at(g, name) == (self.lens[g] > 0 && self.slot_name(g) == name)
        } by {
            let g = global_slot(table, x);
            lemma_global_slot(table, x);
            assert(0 <= self.lens[g] <= NAME_MAX);
            assert(self.slot_name(g).len() == self.lens[g]);
        }
        if 0 <= slot < TABLE_SIZE {
            assert(self.skips(table, slot, name) == self.taken(table, slot, name));
        }
        if self.ends_at(table, home(name), slot, name) {
            assert forall|x: int|
                0 <= x < TABLE_SIZE && distance(home(name), x) < distance(
                    home(name),
                    slot,
                ) implies #[trigger] self.taken(table, x, name) by {
                assert(self.skips(table, x, name));
            }
        }
        if self.stops(table, slot, name) {
            assert forall|x: int|
                0 <= x < TABLE_SIZE && distance(home(name), x) < distance(
                    home(name),
                    slot,
                ) implies #[trigger] self.skips(table, x, name) by {
                assert(self.taken(table, x, name));
            }
            self.lemma_search_end(table, slot, name);
            lemma_global_slot(table, slot);
        }
    }

    /// Searches that begin at the homes of their names leave tables in order: every name can be found
    /// from its home, and none stands in a table twice.
    pub proof fn lemma_claimed_wf(self, table: int, slot: int, name: Seq<u8>)
        requires
            self.wf(),
            0 <= table < NUM_TABLES,
            name.len() <= NAME_MAX,
            self.ends_at(table, home(name), slot, name),
        ensures
            self.claimed(table, slot, name).wf(),
    {
        let g = global_slot(table, slot);
        let later = self.claimed(table, slot, name);
        lemma_global_slot(table, slot);
        self.lemma_home_search(table, slot, name);
        self.lemma_claimed_keeps(table, slot, name);
        assert forall|t: int, s: int|
            #![trigger global_slot(t, s)]
            0 <= t < NUM_TABLES && 0 <= s < TABLE_SIZE && later.lens[global_slot(t, s)]
                > 0 implies later.passed(t, s, later.slot_name(global_slot(t, s))) by {
            let h = global_slot(t, s);
            let found = later.slot_name(h);
            lemma_global_slot(t, s);
            if self.lens[h] == 0 {
                assert(h == g);
                assert(found =~= name);
            } else {
                assert(later.lens[h] == self.lens[h]);
            }
            assert(self.passed(t, s, found));
            assert forall|x: int|
                0 <= x < TABLE_SIZE && distance(home(found), x) < distance(home(found), s) implies
                #[trigger] later.taken(t, x, found) by {
                let i = global_slot(t, x);
                lemma_global_slot(t, x);
                assert(self.taken(t, x, found));
                assert(later.lens[i] == self.lens[i]);
            }
        }
    }

    /// A search ends where no slot of the table is being written and one is empty or has the name.
    pub proof fn lemma_has_end(self, table: int, from: int, name: Seq<u8>, slot: int)
        requires
            0 <= from < TABLE_SIZE,
            forall|x: int|
                0 <= x < TABLE_SIZE ==> #[trigger] self.lens[global_slot(table, x)] != -1,
            0 <= slot < TABLE_SIZE,
            self.lens[global_slot(table, slot)] == 0 || self.has_at(global_slot(table, slot), name),
        ensures
            self.has_end(table, from, name),
        decreases distance(from, slot),
    {
        if forall|x: int|
            0 <= x < TABLE_SIZE && distance(from, x) < distance(from, slot) ==> #[trigger] self.skips(
                table,
                x,
                name,
            ) {
            assert(self.ends_at(table, from, slot, name));
        } else {
            let x = choose|x: int|
                0 <= x < TABLE_SIZE && distance(from, x) < distance(from, slot)
                    && !#[trigger] self.skips(table, x, name);
            assert(self.lens[global_slot(table, x)] != -1);
            self.lemma_has_end(table, from, name, x);
        }
    }

    /// One slot further, unless that leads back to where the search began.
    proof fn lemma_next(self, table: int, from: int, at: int, slot: int, name: Seq<u8>)
        requires
            0 <= from < TABLE_SIZE,
            0 <= at < TABLE_SIZE,
            self.ends_at(table, from, slot, name),
            self.skips(table, at, name),
            distance(from, at) <= distance(from, slot),
        ensures
            ({
                let next = (at + 1) % TABLE_SIZE as int;
                &&& 0 <= next < TABLE_SIZE
                &&& distance(from, next) == distance(from, at) + 1
                &&& distance(from, next) <= distance(from, slot)
            }),
    {
        if distance(from, at) == distance(from, slot) {
            assert(at == slot);
        }
        assert((at + 1) % TABLE_SIZE as int == if at + 1 == TABLE_SIZE {
            0
        } else {
            at + 1
        });
    }
}

/// What is left of a search at one slot.
spec fn turns(stage: Stage) -> int {
    match stage {
        Stage::Probe { .. } => 4,
        Stage::Claim { .. } => 3,
        Stage::Match { .. } => 3,
        Stage::Write { .. } => 2,
        Stage::Publish { .. } => 1,
        _ => 0,
    }
}

/// What the tables hold in the course of a search that ends at `slot`, at the stage that it has reached.
spec fn on_course(
    before: Store,
    now: Store,
    table: int,
    from: int,
    slot: int,
    name: Seq<u8>,
    stage: Stage,
) -> bool {
    let g = global_slot(table, slot);
    match stage {
        Stage::Probe { slot: at } => now == before && at < TABLE_SIZE && distance(from, at as int)
            <= distance(from, slot),
        Stage::Match { slot: at } => now == before && at < TABLE_SIZE && distance(from, at as int)
            <= distance(from, slot) && before.lens[global_slot(table, at as int)] == name.len()
            && name.len() > 0,
        Stage::Claim { slot: at } => now == before && at == slot && before.lens[g] == 0,
        Stage::Write { slot: at } => at == slot && before.lens[g] == 0 && now == (Store {
            lens: before.lens.update(g, -1i32),
            ..before
        }),
        Stage::Publish { slot: at } => at == slot && before.lens[g] == 0 && now == (Store {
            lens: before.lens.update(g, -1i32),
            names: written(before.names, g, name),
            ..before
        }),
        Stage::Pick { slot: at } => at == slot && now == before.claimed(table, slot, name),
        _ => false,
    }
}

/// The slot that a search is at.
spec fn slot_of(stage: Stage) -> int {
    match stage {
        Stage::Probe { slot } => slot as int,
        Stage::Match { slot } => slot as int,
        Stage::Claim { slot } => slot as int,
        Stage::Write { slot } => slot as int,
        Stage::Publish { slot } => slot as int,
        Stage::Pick { slot } => slot as int,
        _ => 0,
    }
}

impl Tables {
    /// Finds the slot of a table that has `name`, or claims the first empty one for it. The search
    /// begins at the slot that the lowest bits of `h` give, and takes the steps that a thread takes; no
    /// other thread is at work, so no slot on the way may be one that is being written.
    pub fn find_or_claim_slot(&mut self, table: usize, name: &[u8], h: u64) -> (slot: usize)
        requires
            old(self).shaped(),
            table < NUM_TABLES,
            name.len() <= NAME_MAX,
            old(self)@.has_end(table as int, h as int % TABLE_SIZE as int, name@),
        ensures
            final(self).shaped(),
            old(self)@.ends_at(
                table as int,
                h as int % TABLE_SIZE as int,
                slot as int,
                name@,
            ),
            final(self)@ == old(self)@.claimed(table as int, slot as int, name@),
    {
        let ghost before = self@;
        let ghost t = table as int;
        let ghost from = h as int % TABLE_SIZE as int;
        let ghost end = choose|x: int| before.ends_at(t, from, x, name@);
        let base: usize = table * TABLE_SIZE;
        let slot: usize = first_slot(h);
        let mut w: Worker = Worker {
            tid: 0,
            lane: 0,
            stride: 1,
            pos: 0,
            end: 0,
            name_len: name.len(),
            temp: 0,
            line_len: 0,
            stage: Stage::Probe { slot },
        };
        assert(distance(from, from) == 0);
        assert(name@.subrange(0, name@.len() as int) =~= name@);
        proof {
            lemma_global_slot(t, end);
        }
        while !matches!(w.stage, Stage::Pick { .. })
            invariant
                self.shaped(),
                before.shaped(),
                t == table,
                0 <= from < TABLE_SIZE,
                table < NUM_TABLES,
                base == table * TABLE_SIZE,
                name.len() <= NAME_MAX,
                name@.subrange(0, name@.len() as int) == name@,
                w.pos == 0,
                w.end == 0,
                w.name_len == name.len(),
                before.ends_at(t, from, end, name@),
                on_course(before, self@, t, from, end, name@, w.stage),
            decreases TABLE_SIZE - distance(from, slot_of(w.stage)), turns(w.stage),
        {
            let ghost at = slot_of(w.stage);
            let ghost stage = w.stage;
            let ghost now = self@;
            proof {
                lemma_global_slot(t, at);
                lemma_global_slot(t, end);
                if distance(from, at) < distance(from, end) {
                    assert(before.skips(t, at, name@));
                }
            }
            let mut reply: i32 = 0;
            match w.request() {
                Request::LoadLen { slot } => {
                    reply = self.name_lens[base + slot];
                },
                Request::ClaimLen { slot } => {
                    self.name_lens.set(base + slot, -1);
                    reply = 1;
                },
                Request::CopyName { slot, from, len } => {
                    self.copy_name(base + slot, &name[from..from + len]);
                },
                Request::StoreLen { slot, len } => {
                    self.name_lens.set(base + slot, len as i32);
                },
                Request::MatchName { slot, from, len } => {
                    if self.slot_name_matches(base + slot, &name[from..from + len]) {
                        reply = 1;
                    }
                },
                _ => {},
            }
            w.resume(name, reply);
            proof {
                if before.skips(t, at, name@) {
                    before.lemma_next(t, from, at, end, name@);
                } else if distance(from, at) <= distance(from, end) {
                    assert(at == end);
                }
                if stage is Publish {
                    assert(self@.lens =~= before.claimed(t, end, name@).lens);
                }
            }
        }
        match w.stage {
            Stage::Pick { slot } => slot,
            _ => 0,
        }
    }
}

} // verus!
