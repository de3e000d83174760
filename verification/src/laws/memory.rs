//! What the tables hold, and what becomes of them when a name is looked for.

use vstd::prelude::*;
use vstd::utf8::{decode_utf8, valid_utf8};
use crate::aggregate::{Aggregate, Cell};
use crate::frame::{lemma_blocks, lemma_global_slot, lemma_table};
use crate::launch::Job;
use crate::run::Run;
use crate::state::State;
use crate::station::utf8_lossy;
use crate::tables::{distance, global_slot, written, Columns, SharedTable, Store, Tables};
use crate::worker::{Request, Worker};

verus! {

/// What tables hold is what their arrays say, and they are of the right size if there is one element for
/// each of 65536 slots, or 2048 of a block, and 100 bytes for each name.
pub proof fn lemma_arrays(t: Tables, s: SharedTable)
    ensures
        t.shaped() <==> t.name_lens.len() == 65536 && t.names.len() == 6553600 && t.columns.shaped(
            65536,
        ),
        s.shaped() <==> s.slots.len() == 2048 && s.columns.shaped(2048),
        t@.lens == t.name_lens@,
        t@.names == t.names@,
        t@.cells == t.columns@,
        s@.owner == s.slots@,
        s@.cells == s.columns@,
{
}

/// The four values of a slot are those of the four arrays.
pub proof fn lemma_columns(c: Columns, n: int, i: int)
    requires
        0 <= i < c.sums.len(),
    ensures
        c.shaped(n) <==> c.sums.len() == n && c.cnts.len() == n && c.mins.len() == n && c.maxs.len()
            == n,
        c@.len() == c.sums.len(),
        c@[i].sum == c.sums@[i],
        c@[i].cnt == c.cnts@[i],
        c@[i].min == c.mins@[i],
        c@[i].max == c.maxs@[i],
{
}

/// Empty tables have neither a name nor a reading.
pub proof fn lemma_empty_tables(store: Store, g: int)
    requires
        store.fresh(),
        0 <= g < 65536,
    ensures
        store.lens.len() == 65536,
        store.names.len() == 6553600,
        store.cells.len() == 65536,
        store.lens[g] == 0,
        store.cells[g].sum == 0,
        store.cells[g].cnt == 0,
        store.cells[g].min == i32::MAX,
        store.cells[g].max == i32::MIN,
{
    assert(store.cells[g].cnt == 0);
}

/// The name of a slot begins at 100 times its number, and is as long as its length says.
pub proof fn lemma_name_of_slot(store: Store, table: int, slot: int, n: int, i: int)
    requires
        store.lens.len() == 65536,
        store.names.len() == 6553600,
        0 <= table < 4,
        0 <= slot < 16384,
        0 <= i < n <= 100,
    ensures
        global_slot(table, slot) == table * 16384 + slot,
        0 <= table * 16384 + slot < 65536,
        store.name_prefix(table * 16384 + slot, n).len() == n,
        store.name_prefix(table * 16384 + slot, n)[i] == store.names[(table * 16384 + slot) * 100
            + i],
        store.lens[table * 16384 + slot] == n ==> store.slot_name(table * 16384 + slot)
            == store.name_prefix(table * 16384 + slot, n),
{
    lemma_global_slot(table, slot);
}

/// Writing a name changes its bytes, from where the name of the slot begins, and no others.
pub proof fn lemma_name_written(names: Seq<u8>, g: int, name: Seq<u8>, i: int)
    requires
        0 <= i < names.len(),
    ensures
        written(names, g, name).len() == names.len(),
        g * 100 <= i < g * 100 + name.len() ==> written(names, g, name)[i] == name[i - g * 100],
        i < g * 100 || i >= g * 100 + name.len() ==> written(names, g, name)[i] == names[i],
{
}

/// Names in UTF-8 are reported as the text that they encode.
pub proof fn lemma_decoded(store: Store)
    ensures
        store.decoded() <==> forall|g: int|
            0 <= g < 65536 && #[trigger] store.lens[g] > 0 && valid_utf8(
                store.names.subrange(g * 100, g * 100 + store.lens[g]),
            ) ==> utf8_lossy(store.names.subrange(g * 100, g * 100 + store.lens[g])) == decode_utf8(
                store.names.subrange(g * 100, g * 100 + store.lens[g]),
            ),
{
}

/// The names of tables can be read if each lies within the bytes that there are.
pub proof fn lemma_readable(store: Store)
    ensures
        store.readable() <==> forall|g: int|
            0 <= g < 65536 && #[trigger] store.lens[g] > 0 ==> g * 100 + store.lens[g]
                <= store.names.len(),
{
}

/// A search ends at a slot that is empty or has the name. It has passed every slot on the way there,
/// round the end of the table if need be: each of them has a length, and another name.
pub proof fn lemma_search_way(
    store: Store,
    table: int,
    from: int,
    slot: int,
    name: Seq<u8>,
    x: int,
)
    requires
        store.shaped(),
        0 <= table < 4,
        0 <= from < 16384,
        name.len() <= 100,
        store.ends_at(table, from, slot, name),
        0 <= x < 16384,
    ensures
        0 <= slot < 16384,
        ({
            let g = table * 16384 + slot;
            store.lens[g] == 0 || store.lens[g] == name.len() && store.names.subrange(
                g * 100,
                g * 100 + name.len(),
            ) == name
        }),
        (x - from) % 16384 < (slot - from) % 16384 ==> {
            let g = table * 16384 + x;
            &&& store.lens[g] != 0
            &&& store.lens[g] != -1
            &&& store.lens[g] == name.len() ==> store.names.subrange(g * 100, g * 100 + name.len())
                != name
        },
        distance(from, x) == (x - from) % 16384,
{
    lemma_global_slot(table, slot);
    lemma_global_slot(table, x);
    if distance(from, x) < distance(from, slot) {
        assert(store.skips(table, x, name));
    }
}

/// After a search the slot at which it ended has the name. All other lengths, all other bytes and all
/// values are as they were.
pub proof fn lemma_search_effect(store: Store, table: int, from: int, slot: int, name: Seq<u8>, i: int)
    requires
        store.shaped(),
        0 <= table < 4,
        name.len() <= 100,
        store.ends_at(table, from, slot, name),
        0 <= i < 6553600,
    ensures
        ({
            let g = table * 16384 + slot;
            let later = store.claimed(table, slot, name);
            &&& later.lens == store.lens.update(g, name.len() as i32)
            &&& later.names.len() == store.names.len()
            &&& g * 100 <= i < g * 100 + name.len() ==> later.names[i] == name[i - g * 100]
            &&& i < g * 100 || i >= g * 100 + name.len() ==> later.names[i] == store.names[i]
            &&& later.cells == store.cells
        }),
{
    let g = table * 16384 + slot;
    let later = store.claimed(table, slot, name);
    lemma_global_slot(table, slot);
    assert(later.lens =~= store.lens.update(g, name.len() as i32));
    if store.lens[g] != 0 {
        assert(store.has_at(g, name));
        if g * 100 <= i < g * 100 + name.len() {
            assert(store.name_prefix(g, name.len() as int)[i - g * 100] == store.names[i]);
        }
    }
}

/// A slot that is empty or has the name, where every slot on the way there is passed, is the one at which
/// a search ends.
pub proof fn lemma_search_end_is(store: Store, table: int, from: int, slot: int, name: Seq<u8>)
    requires
        store.shaped(),
        0 <= table < 4,
        0 <= from < 16384,
        0 <= slot < 16384,
        name.len() <= 100,
        ({
            let g = table * 16384 + slot;
            store.lens[g] == 0 || store.lens[g] > 0 && store.lens[g] == name.len()
                && store.names.subrange(g * 100, g * 100 + name.len()) == name
        }),
        forall|x: int|
            #![trigger global_slot(table, x)]
            0 <= x < 16384 && (x - from) % 16384 < (slot - from) % 16384 ==> {
                let g = global_slot(table, x);
                &&& store.lens[g] != 0
                &&& store.lens[g] != -1
                &&& store.lens[g] > 0 && store.lens[g] == name.len() ==> store.names.subrange(
                    g * 100,
                    g * 100 + name.len(),
                ) != name
            },
    ensures
        store.ends_at(table, from, slot, name),
        store.has_end(table, from, name),
{
    lemma_global_slot(table, slot);
    assert forall|x: int|
        0 <= x < 16384 && distance(from, x) < distance(from, slot) implies #[trigger] store.skips(
        table,
        x,
        name,
    ) by {
        let g = global_slot(table, x);
        lemma_global_slot(table, x);
        assert((x - from) % 16384 == distance(from, x));
        assert((slot - from) % 16384 == distance(from, slot));
    }
    assert(store.ends_at(table, from, slot, name));
}

/// What the accesses to the lengths and the names of slots do, and what they reply.
pub proof fn lemma_name_accesses(st: State, job: Job, t: int, slot: usize, from: usize, len: usize)
    requires
        job.wf(),
        0 <= t < job.threads(),
        st.store.shaped(),
        slot < 16384,
        len <= 100,
        from + len <= job.text.len(),
    ensures
        ({
            let g = job.table(t) * 16384 + slot;
            let name = job.text.subrange(from as int, from + len);
            let load = st.served(job, t, Request::LoadLen { slot });
            let claim = st.served(job, t, Request::ClaimLen { slot });
            let copy = st.served(job, t, Request::CopyName { slot, from, len });
            let store = st.served(job, t, Request::StoreLen { slot, len });
            let compare = st.served(job, t, Request::MatchName { slot, from, len });
            &&& load.0 == st
            &&& load.1 == st.store.lens[g]
            &&& st.store.lens[g] == 0 ==> claim.1 == 1 && claim.0.store.lens
                == st.store.lens.update(g, -1i32)
            &&& st.store.lens[g] != 0 ==> claim.1 == 0 && claim.0 == st
            &&& claim.0.store.names == st.store.names && claim.0.store.cells == st.store.cells
            &&& claim.0.blocks == st.blocks && claim.0.workers == st.workers
            &&& copy.0.store.lens == st.store.lens && copy.0.store.cells == st.store.cells
            &&& copy.0.blocks == st.blocks && copy.0.workers == st.workers
            &&& copy.0.store.names == st.store.names.take(g * 100) + name + st.store.names.skip(
                g * 100 + len,
            )
            &&& store.0.store.lens == st.store.lens.update(g, len as i32)
            &&& store.0.store.names == st.store.names && store.0.store.cells == st.store.cells
            &&& store.0.blocks == st.blocks && store.0.workers == st.workers
            &&& compare.0 == st
            &&& st.store.names.subrange(g * 100, g * 100 + len) == name ==> compare.1 == 1
            &&& st.store.names.subrange(g * 100, g * 100 + len) != name ==> compare.1 == 0
        }),
{
    let g = job.table(t) * 16384 + slot;
    let name = job.text.subrange(from as int, from + len);
    let copy = st.served(job, t, Request::CopyName { slot, from, len });
    lemma_table(job, t);
    lemma_global_slot(job.table(t), slot as int);
    assert(copy.0.store.names =~= st.store.names.take(g * 100) + name + st.store.names.skip(
        g * 100 + len,
    ));
}

/// What the accesses to the table of a block do, and what they reply. Each touches the table of the
/// thread's own block, and one slot of it.
pub proof fn lemma_block_accesses(
    st: State,
    job: Job,
    t: int,
    index: usize,
    slot: usize,
    k: Aggregate,
    value: i32,
)
    requires
        job.wf(),
        0 <= t < job.threads(),
        st.blocks.len() == job.grid,
        ({
            let block = st.blocks[t / job.block];
            block.owner.len() == 2048 && block.cells.len() == 2048
        }),
        index < 2048,
        slot < 16384,
    ensures
        ({
            let b = t / job.block;
            let i = index as int;
            let owner = st.blocks[b].owner;
            let cells = st.blocks[b].cells;
            let reset = st.served(job, t, Request::Reset { index }).0;
            let load = st.served(job, t, Request::LoadOwner { index });
            let claim = st.served(job, t, Request::ClaimOwner { index, slot });
            let more = st.served(job, t, Request::AddShared { index, k, value }).0;
            &&& reset.blocks.len() == st.blocks.len()
            &&& reset.blocks[b].owner == owner.update(i, -1i32)
            &&& reset.blocks[b].cells == cells.update(i, Cell::empty())
            &&& reset.store == st.store && reset.workers == st.workers
            &&& load.0 == st && load.1 == owner[i]
            &&& owner[i] == -1 ==> claim.1 == 1 && claim.0.blocks[b].owner == owner.update(
                i,
                slot as i32,
            )
            &&& owner[i] != -1 ==> claim.1 == 0 && claim.0.blocks == st.blocks
            &&& claim.0.blocks[b].cells == cells
            &&& claim.0.store == st.store && claim.0.workers == st.workers
            &&& more.blocks[b].owner == owner
            &&& more.blocks[b].cells == cells.update(i, cells[i].add(k, value as int))
            &&& more.store == st.store && more.workers == st.workers
            &&& forall|c: int|
                #![trigger st.blocks[c]]
                0 <= c < job.grid && c != b ==> reset.blocks[c] == st.blocks[c]
                    && claim.0.blocks[c] == st.blocks[c] && more.blocks[c] == st.blocks[c]
        }),
{
    lemma_blocks(job, t);
}

/// What the accesses to the values of a slot do: one value of one slot takes up a reading, or a value
/// of the block's table.
pub proof fn lemma_value_accesses(
    st: State,
    job: Job,
    t: int,
    index: usize,
    slot: usize,
    k: Aggregate,
    value: i32,
)
    ensures
        ({
            let g = job.table(t) * 16384 + slot;
            let held = st.blocks[t / job.block].cells[index as int].get(k);
            let more = st.served(job, t, Request::AddGlobal { slot, k, value }).0;
            let drain = st.served(job, t, Request::Drain { index, slot, k }).0;
            &&& more.store.cells == st.store.cells.update(
                g,
                st.store.cells[g].add(k, value as int),
            )
            &&& drain.store.cells == st.store.cells.update(g, st.store.cells[g].add(k, held))
            &&& more.store.lens == st.store.lens && more.store.names == st.store.names
            &&& drain.store.lens == st.store.lens && drain.store.names == st.store.names
            &&& more.blocks == st.blocks && more.workers == st.workers
            &&& drain.blocks == st.blocks && drain.workers == st.workers
        }),
{
}

/// A barrier lets a thread through once no thread of its block has slots left to set up, the second one
/// once all of them have read their rows. Nothing else changes, and a thread that is through changes
/// nothing.
pub proof fn lemma_barrier_access(st: State, job: Job, t: int)
    ensures
        ({
            let at = st.served(job, t, Request::Barrier);
            let open = forall|u: int|
                #![trigger st.workers[u]]
                0 <= u < job.grid * job.block && u / job.block == t / job.block ==> {
                    let stage = st.workers[u].stage;
                    if st.workers[t].stage is Start {
                        !(stage is Init)
                    } else {
                        stage is Finish || stage is Flush || stage is Drain || stage is Done
                    }
                };
            &&& at.0 == st
            &&& open ==> at.1 == 1
            &&& !open ==> at.1 == 0
            &&& st.served(job, t, Request::Exit).0 == st
        }),
{
}

/// A step of a thread is the access that it asks for, and what it makes of the reply. The threads of a
/// schedule take one step each, in its order, counted modulo their number.
pub proof fn lemma_step_is(run: Run, schedule: Seq<usize>, t: int, u: usize)
    ensures
        ({
            let w = run.st.workers[t];
            let (next, reply) = run.st.served(run.job, t, w.asks());
            let to = run.stepped(t);
            &&& to.job == run.job
            &&& to.base == run.base
            &&& to.st.store == next.store
            &&& to.st.blocks == next.blocks
            &&& to.st.workers == next.workers.update(t, w.resumed(run.job.text, reply))
        }),
        run.scheduled(Seq::empty()) == run,
        run.scheduled(schedule.push(u)) == run.scheduled(schedule).stepped(
            u as int % run.job.threads(),
        ),
{
    assert(schedule.push(u).drop_last() =~= schedule);
}

/// A launch begins with tables as they are, and with threads that have all their work ahead.
pub proof fn lemma_launch_begins(job: Job, before: Store, t: int, b: int)
    requires
        job.wf(),
        0 <= t < job.threads(),
        0 <= b < job.grid,
    ensures
        ({
            let st = Run::starting(job, before).st;
            &&& st.store == before
            &&& st.workers.len() == job.threads()
            &&& st.workers[t] == Worker::starting(job, t)
            &&& st.blocks.len() == job.grid
        }),
{
}

} // verus!
