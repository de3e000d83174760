//! The memory that a launch works on: the tables of the whole grid and the small table of each
//! block, as parallel arrays.

use vstd::prelude::*;
use crate::aggregate::{lemma_wrapped, Aggregate, Cell};
use crate::hash::{home, TABLE_SIZE};
use crate::launch::NUM_TABLES;
use crate::parse::NAME_MAX;

verus! {

/// Slots of all tables together.
pub const TOTAL_SLOTS: usize = 65536;

/// Slots of the table that the threads of one block share.
pub const LOCAL_SIZE: usize = 2048;

/// The four values of each slot, one array per value.
pub struct Columns {
    pub sums: Vec<i64>,
    pub cnts: Vec<i32>,
    pub mins: Vec<i32>,
    pub maxs: Vec<i32>,
}

/// `NUM_TABLES` open-addressing tables, one behind the other. `name_lens` is 0 for an empty
/// slot, -1 while a thread writes the name of the slot, and the length of the name after that.
pub struct Tables {
    pub name_lens: Vec<i32>,
    pub names: Vec<u8>,
    pub columns: Columns,
}

/// The table of a block: each slot is empty (-1) or belongs to a slot of the block's table.
pub struct SharedTable {
    pub slots: Vec<i32>,
    pub columns: Columns,
}

/// What `Tables` hold.
pub struct Store {
    pub lens: Seq<i32>,
    pub names: Seq<u8>,
    pub cells: Seq<Cell>,
}

/// What a `SharedTable` holds.
pub struct Block {
    pub owner: Seq<i32>,
    pub cells: Seq<Cell>,
}

impl Block {
    /// A table of which no slot belongs to a station.
    pub open spec fn empty() -> Block {
        Block {
            owner: Seq::new(LOCAL_SIZE as nat, |l: int| -1i32),
            cells: Seq::new(LOCAL_SIZE as nat, |l: int| Cell::empty()),
        }
    }
}

/// How many slots one has to pass to get from `from` to `to`.
pub open spec fn distance(from: int, to: int) -> int {
    if to >= from {
        to - from
    } else {
        to - from + TABLE_SIZE
    }
}

/// The place of a slot of a table among the slots of all tables.
pub open spec fn global_slot(table: int, slot: int) -> int {
    table * TABLE_SIZE + slot
}

impl Store {
    /// The arrays are of the right size.
    pub open spec fn shaped(self) -> bool {
        &&& self.lens.len() == TOTAL_SLOTS
        &&& self.names.len() == TOTAL_SLOTS * NAME_MAX
        &&& self.cells.len() == TOTAL_SLOTS
    }

    /// The first `len` bytes of the name of a slot.
    pub open spec fn name_prefix(self, g: int, len: int) -> Seq<u8> {
        self.names.subrange(g * NAME_MAX, g * NAME_MAX + len)
    }

    /// The name of a slot.
    pub open spec fn slot_name(self, g: int) -> Seq<u8> {
        self.name_prefix(g, self.lens[g] as int)
    }

    /// The slot has a name, and it is `name`.
    pub open spec fn bears(self, table: int, slot: int, name: Seq<u8>) -> bool {
        let g = global_slot(table, slot);
        self.lens[g] > 0 && self.slot_name(g) == name
    }

    /// The slot has a name, and it is another one than `name`.
    pub open spec fn taken(self, table: int, slot: int, name: Seq<u8>) -> bool {
        let g = global_slot(table, slot);
        self.lens[g] > 0 && self.slot_name(g) != name
    }

    /// Every slot from the home of `name` up to `slot` has another name.
    pub open spec fn passed(self, table: int, slot: int, name: Seq<u8>) -> bool {
        forall|x: int|
            0 <= x < TABLE_SIZE && distance(home(name), x) < distance(home(name), slot)
                ==> #[trigger] self.taken(table, x, name)
    }

    /// The search for `name` ends at the slot: it has the name or is empty, and all slots before it
    /// have other names.
    pub open spec fn stops(self, table: int, slot: int, name: Seq<u8>) -> bool {
        &&& 0 <= slot < TABLE_SIZE
        &&& self.passed(table, slot, name)
        &&& !self.taken(table, slot, name)
    }

    /// The slot at which the search for `name` ends.
    pub open spec fn search_end(self, table: int, name: Seq<u8>) -> int {
        choose|slot: int| self.stops(table, slot, name)
    }

    /// The tables with `name` in the slot at which the search for it ends.
    pub open spec fn entered(self, table: int, name: Seq<u8>) -> Store {
        let g = global_slot(table, self.search_end(table, name));
        if self.lens[g] > 0 {
            self
        } else {
            Store {
                lens: self.lens.update(g, name.len() as i32),
                names: written(self.names, g, name),
                ..self
            }
        }
    }

    /// No slot is being written, and every name can be reached from its home without meeting an
    /// empty slot or the name itself: so no table holds a name twice.
    pub open spec fn wf(self) -> bool {
        &&& self.shaped()
        &&& forall|g: int| 0 <= g < TOTAL_SLOTS ==> 0 <= #[trigger] self.lens[g] <= NAME_MAX
        &&& forall|table: int, slot: int|
            #![trigger global_slot(table, slot)]
            0 <= table < NUM_TABLES && 0 <= slot < TABLE_SIZE && self.lens[global_slot(table, slot)]
                > 0 ==> self.passed(table, slot, self.slot_name(global_slot(table, slot)))
    }

    /// As `wf`; no slot has a name, and nothing was added to any.
    pub open spec fn fresh(self) -> bool {
        &&& self.shaped()
        &&& forall|g: int| 0 <= g < TOTAL_SLOTS ==> #[trigger] self.lens[g] == 0
        &&& forall|g: int| 0 <= g < TOTAL_SLOTS ==> #[trigger] self.cells[g] == Cell::empty()
    }
}

impl Columns {
    /// The four arrays have `n` elements each.
    pub open spec fn shaped(&self, n: int) -> bool {
        &&& self.sums.len() == n
        &&& self.cnts.len() == n
        &&& self.mins.len() == n
        &&& self.maxs.len() == n
    }

    /// The four values of a slot.
    pub open spec fn cell(&self, i: int) -> Cell {
        Cell { sum: self.sums@[i], cnt: self.cnts@[i], min: self.mins@[i], max: self.maxs@[i] }
    }

    /// `n` slots to which nothing was added.
    pub fn new(n: usize) -> (r: Columns)
        ensures
            r.shaped(n as int),
            forall|i: int| 0 <= i < n ==> #[trigger] r@[i] == Cell::empty(),
    {
        let r = Columns {
            sums: vec![0i64; n],
            cnts: vec![0i32; n],
            mins: vec![i32::MAX; n],
            maxs: vec![i32::MIN; n],
        };
        r
    }

    /// One value of a slot.
    pub fn get(&self, slot: usize, k: Aggregate) -> (v: i64)
        requires
            slot < self@.len(),
            self.shaped(self@.len() as int),
        ensures
            v as int == self@[slot as int].get(k),
    {
        match k {
            Aggregate::Sum => self.sums[slot],
            Aggregate::Count => self.cnts[slot] as i64,
            Aggregate::Min => self.mins[slot] as i64,
            Aggregate::Max => self.maxs[slot] as i64,
        }
    }

    /// Combines `value` into one of the four values of a slot. Sums and counts wrap around.
    pub fn update_aggregates(&mut self, slot: usize, k: Aggregate, value: i64)
        requires
            slot < old(self)@.len(),
            old(self).shaped(old(self)@.len() as int),
            k.holds(value as int),
        ensures
            final(self).shaped(old(self)@.len() as int),
            final(self)@ == old(self)@.update(
                slot as int,
                old(self)@[slot as int].add(k, value as int),
            ),
    {
        match k {
            Aggregate::Sum => {
                let old_value: i64 = self.sums[slot];
                proof {
                    lemma_wrapped(old_value + value, 0x8000_0000_0000_0000);
                }
                self.sums.set(slot, old_value.wrapping_add(value));
            },
            Aggregate::Count => {
                let old_value: i32 = self.cnts[slot];
                proof {
                    lemma_wrapped(old_value + value, 0x8000_0000);
                }
                self.cnts.set(slot, old_value.wrapping_add(value as i32));
            },
            Aggregate::Min => {
                let old_value: i32 = self.mins[slot];
                let other: i32 = value as i32;
                if other < old_value {
                    self.mins.set(slot, other);
                }
            },
            Aggregate::Max => {
                let old_value: i32 = self.maxs[slot];
                let other: i32 = value as i32;
                if other > old_value {
                    self.maxs.set(slot, other);
                }
            },
        }
        assert(self@ =~= old(self)@.update(slot as int, old(self)@[slot as int].add(k, value as int)));
    }
}

impl View for Columns {
    type V = Seq<Cell>;

    open spec fn view(&self) -> Seq<Cell> {
        Seq::new(self.sums.len() as nat, |i: int| self.cell(i))
    }
}

impl View for Tables {
    type V = Store;

    open spec fn view(&self) -> Store {
        Store { lens: self.name_lens@, names: self.names@, cells: self.columns@ }
    }
}

impl View for SharedTable {
    type V = Block;

    open spec fn view(&self) -> Block {
        Block { owner: self.slots@, cells: self.columns@ }
    }
}

impl SharedTable {
    /// The arrays are of the right size.
    pub open spec fn shaped(&self) -> bool {
        &&& self.slots.len() == LOCAL_SIZE
        &&& self.columns.shaped(LOCAL_SIZE as int)
    }

    /// A table of which no slot belongs to a station. The threads of a block set it up themselves
    /// and do not rely on this.
    pub fn new() -> (r: SharedTable)
        ensures
            r.shaped(),
            forall|i: int| 0 <= i < LOCAL_SIZE ==> #[trigger] r@.owner[i] == -1,
            forall|i: int| 0 <= i < LOCAL_SIZE ==> #[trigger] r@.cells[i] == Cell::empty(),
    {
        SharedTable { slots: vec![-1i32; LOCAL_SIZE], columns: Columns::new(LOCAL_SIZE) }
    }

    /// Sets a slot up as one that belongs to no station.
    pub fn reset(&mut self, index: usize)
        requires
            old(self).shaped(),
            index < LOCAL_SIZE,
        ensures
            final(self).shaped(),
            final(self)@.owner == old(self)@.owner.update(index as int, -1i32),
            final(self)@.cells == old(self)@.cells.update(index as int, Cell::empty()),
    {
        self.slots.set(index, -1);
        self.columns.sums.set(index, 0);
        self.columns.cnts.set(index, 0);
        self.columns.mins.set(index, i32::MAX);
        self.columns.maxs.set(index, i32::MIN);
        assert(self@.cells =~= old(self)@.cells.update(index as int, Cell::empty()));
    }
}

impl Tables {
    /// The arrays are of the right size.
    pub open spec fn shaped(&self) -> bool {
        &&& self@.shaped()
        &&& self.columns.shaped(TOTAL_SLOTS as int)
    }

    /// The tables are of the right size, and `Store::wf` holds of what is in them.
    pub open spec fn wf(&self) -> bool {
        &&& self.shaped()
        &&& self@.wf()
    }

    /// Empty tables.
    pub fn new() -> (r: Tables)
        ensures
            r.wf(),
            r@.fresh(),
            forall|i: int| 0 <= i < r@.names.len() ==> #[trigger] r@.names[i] == 0,
    {
        Tables {
            name_lens: vec![0i32; TOTAL_SLOTS],
            names: vec![0u8; TOTAL_SLOTS * NAME_MAX],
            columns: Columns::new(TOTAL_SLOTS),
        }
    }

    /// Whether the name of a slot starts with `name`.
    pub fn slot_name_matches(&self, slot: usize, name: &[u8]) -> (r: bool)
        requires
            self.shaped(),
            slot < TOTAL_SLOTS,
            name.len() <= NAME_MAX,
        ensures
            r == (self@.name_prefix(slot as int, name.len() as int) == name@),
    {
        let base: usize = slot * NAME_MAX;
        let ghost prefix = self@.name_prefix(slot as int, name.len() as int);
        let mut j: usize = 0;
        while j < name.len()
            invariant
                self.shaped(),
                slot < TOTAL_SLOTS,
                name.len() <= NAME_MAX,
                base == slot * NAME_MAX,
                j <= name.len(),
                prefix == self@.name_prefix(slot as int, name.len() as int),
                forall|i: int| 0 <= i < j ==> prefix[i] == name@[i],
            decreases name.len() - j,
        {
            if self.names[base + j] != name[j] {
                assert(prefix[j as int] != name@[j as int]);
                return false;
            }
            j = j + 1;
        }
        assert(prefix =~= name@);
        true
    }

    /// Writes `name` as the name of a slot; its length is stored apart.
    pub fn copy_name(&mut self, slot: usize, name: &[u8])
        requires
            old(self).shaped(),
            slot < TOTAL_SLOTS,
            name.len() <= NAME_MAX,
        ensures
            final(self).shaped(),
            final(self)@.lens == old(self)@.lens,
            final(self)@.cells == old(self)@.cells,
            final(self)@.names == written(old(self)@.names, slot as int, name@),
    {
        let base: usize = slot * NAME_MAX;
        let mut j: usize = 0;
        while j < name.len()
            invariant
                self.shaped(),
                slot < TOTAL_SLOTS,
                name.len() <= NAME_MAX,
                base == slot * NAME_MAX,
                j <= name.len(),
                self@.lens == old(self)@.lens,
                self.columns == old(self).columns,
                self@.names =~= written(old(self)@.names, slot as int, name@.take(j as int)),
            decreases name.len() - j,
        {
            self.names.set(base + j, name[j]);
            j = j + 1;
        }
        assert(name@.take(j as int) =~= name@);
    }
}

/// `names` with `name` written at the start of the name of slot `g`.
pub open spec fn written(names: Seq<u8>, g: int, name: Seq<u8>) -> Seq<u8> {
    Seq::new(
        names.len(),
        |i: int|
            if g * NAME_MAX <= i < g * NAME_MAX + name.len() {
                name[i - g * NAME_MAX]
            } else {
                names[i]
            },
    )
}

} // verus!
