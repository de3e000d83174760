//! The logs of what was added to which slot, through the steps that add nothing.

use vstd::prelude::*;
use crate::aggregate::Aggregate;
use crate::frame::{lemma_blocks, lemma_global_slot, lemma_table};
use crate::launch::RowId;
use crate::run::Run;
use crate::state::started;
use crate::tables::{LOCAL_SIZE, TOTAL_SLOTS};
use crate::worker::local_slot;

verus! {

impl Run {
    /// A row that was added has a slot, its thread reads rows, and its shared table is set up.
    pub proof fn lemma_applied(self, r: RowId, k: Aggregate, l: int)
        requires
            self.basics(),
            self.job.has(r),
            self.applied(r, k),
            0 <= l,
        ensures
            self.placed(r),
            self.place_ok(r),
            started(self.st.stage(r.thread)),
            self.inited(self.block(r.thread), l),
            0 <= self.block(r.thread) < self.job.grid,
            0 <= self.row_slot(r) < TOTAL_SLOTS,
    {
        assert(self.worker_ok(r.thread));
        assert(self.place_ok(r));
        lemma_blocks(self.job, r.thread);
        lemma_table(self.job, r.thread);
        lemma_global_slot(
            self.job.table(r.thread),
            self.h.place[r.thread][r.index],
        );
        self.lemma_all_inited(r.thread, l);
    }

    /// The step added nothing to any slot.
    pub open spec fn adds_nothing(self, post: Run) -> bool {
        &&& post.h.glog == self.h.glog
        &&& post.h.slog == self.h.slog
        &&& post.st.store.cells == self.st.store.cells
        &&& forall|b: int, l: int|
            #![trigger post.st.blocks[b].cells[l]]
            0 <= b < self.job.grid && 0 <= l < LOCAL_SIZE && self.inited(b, l)
                ==> post.st.blocks[b].cells[l] == self.st.blocks[b].cells[l]
        &&& forall|r: RowId, k: Aggregate|
            #![trigger post.applied(r, k)]
            #![trigger self.applied(r, k)]
            self.job.has(r) ==> (post.applied(r, k) <==> self.applied(r, k))
        &&& forall|b: int, l: int, k: Aggregate|
            #![trigger post.flushed(b, l, k)]
            0 <= b < self.job.grid && 0 <= l < LOCAL_SIZE && (post.flushed(b, l, k)
                <==> !self.flushed(b, l, k)) ==> post.flushed(b, l, k) && self.h.slog[b][l].get(
                k,
            ).len() == 0
        &&& forall|b: int, l: int|
            #![trigger post.inited(b, l)]
            0 <= b < self.job.grid && 0 <= l < LOCAL_SIZE && post.inited(b, l) && !self.inited(
                b,
                l,
            ) ==> forall|k: Aggregate|
                #![trigger self.h.slog[b][l].get(k)]
                self.h.slog[b][l].get(k).len() == 0 && post.st.blocks[b].cells[l].get(k)
                    == k.identity()
    }

    /// What the invariant says of the logs.
    pub open spec fn logs_ok(self) -> bool {
        &&& self.logged_ok()
        &&& self.slogged_ok()
        &&& self.applied_ok()
        &&& self.logs_unique()
        &&& self.cells_ok()
    }

    /// A step that adds no row leaves the logs right.
    pub proof fn lemma_logs_kept(self, post: Run, t: int)
        requires
            self.basics(),
            self.leads_to(post, t),
            self.adds_nothing(post),
        ensures
            post.logs_ok(),
    {
        assert forall|k: Aggregate, g: int, r: RowId|
            0 <= g < TOTAL_SLOTS && #[trigger] post.logged(k, g, r) implies post.job.has(r)
            && post.applied(r, k) && post.row_slot(r) == g by {
            assert(self.logged(k, g, r));
            self.lemma_applied(r, k, 0);
            assert(post.placed(r));
        }
        assert forall|k: Aggregate, b: int, l: int, r: RowId|
            0 <= b < post.job.grid && 0 <= l < LOCAL_SIZE && #[trigger] post.slogged(
                k,
                b,
                l,
                r,
            ) implies {
            &&& post.job.has(r)
            &&& post.applied(r, k)
            &&& post.block(r.thread) == b
            &&& post.st.blocks[b].owner[l] == post.h.place[r.thread][r.index]
            &&& !post.flushed(b, l, k)
            &&& !post.logged(k, post.row_slot(r), r)
        } by {
            assert(self.slogged(k, b, l, r));
            self.lemma_applied(r, k, l);
            assert(post.placed(r));
            assert(post.st.blocks[b].owner[l] == self.st.blocks[b].owner[l]);
            assert(!self.logged(k, self.row_slot(r), r));
            if post.flushed(b, l, k) {
                assert(self.h.slog[b][l].get(k).len() == 0);
            }
        }
        assert forall|r: RowId, k: Aggregate| post.job.has(r) && #[trigger] post.applied(r, k) implies {
            ||| post.logged(k, post.row_slot(r), r)
            ||| post.slogged(
                k,
                post.block(r.thread),
                local_slot(post.h.place[r.thread][r.index]),
                r,
            )
        } by {
            assert(self.applied(r, k));
            self.lemma_applied(r, k, 0);
            assert(post.placed(r));
            if self.logged(k, self.row_slot(r), r) {
                assert(post.logged(k, post.row_slot(r), r));
            } else {
                assert(self.slogged(
                    k,
                    self.block(r.thread),
                    local_slot(self.h.place[r.thread][r.index]),
                    r,
                ));
                assert(post.slogged(
                    k,
                    post.block(r.thread),
                    local_slot(post.h.place[r.thread][r.index]),
                    r,
                ));
            }
        }
        assert forall|k: Aggregate, b: int, l: int|
            #![trigger post.h.slog[b][l].get(k)]
            0 <= b < post.job.grid && 0 <= l < LOCAL_SIZE && post.inited(b, l) && !post.flushed(
                b,
                l,
                k,
            ) implies post.st.blocks[b].cells[l].get(k) == post.job.gather(
            k,
            k.identity(),
            post.h.slog[b][l].get(k),
        ) by {
            assert(self.h.slog[b][l].get(k) == post.h.slog[b][l].get(k));
            if self.inited(b, l) {
                assert(!self.flushed(b, l, k));
                assert(post.st.blocks[b].cells[l] == self.st.blocks[b].cells[l]);
            }
        }
        assert(post.logs_unique()) by {
            assert(self.logs_unique());
        }
        assert(post.cells_ok()) by {
            assert(self.cells_ok());
        }
    }
}

} // verus!
