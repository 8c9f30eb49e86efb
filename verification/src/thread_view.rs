//! Thread views: what each thread knows, and how a read or a write changes it.

use crate::fence_stamp::{FenceSequence, FenceStamp};
use crate::index::succ;
use crate::level::Level;
use crate::record::Record;
use crate::stamp::{stamp_join, stamp_le, stamp_raise, MemorySequence};
use vstd::prelude::*;

verus! {

/// What a thread view holds.
#[verifier::ext_equal]
pub ghost struct ViewState {
    /// The thread's own operation counter.
    pub seq: usize,
    /// The ticket of the thread's latest SeqCst fence, zero where there was
    /// none.
    pub min_seq_cst: usize,
    /// What the thread knows.
    pub mem: Map<usize, usize>,
    /// What a release of the thread publishes.
    pub fence: FenceStamp,
    /// What the thread has read and a later acquire fence takes over.
    pub read_fence: FenceStamp,
}

impl ViewState {
    /// The view of a thread that has done nothing.
    pub open spec fn fresh() -> ViewState {
        ViewState {
            seq: 0,
            min_seq_cst: 0,
            mem: Map::empty(),
            fence: FenceStamp::empty(),
            read_fence: FenceStamp::empty(),
        }
    }

    /// `later` knows at least what this view knows, in every stamp, and its
    /// SeqCst watermark is no lower.
    pub open spec fn le(self, later: ViewState) -> bool {
        &&& self.min_seq_cst <= later.min_seq_cst
        &&& stamp_le(self.mem, later.mem)
        &&& self.fence.le(later.fence)
        &&& self.read_fence.le(later.read_fence)
    }

    /// The view after its thread wrote `addr` at `level` under `ticket`: the
    /// thread knows its own write, and a releasing write lets the atomic
    /// channel take over all the thread knows.
    pub open spec fn after_write(self, ticket: usize, addr: usize, level: Level) -> ViewState {
        let mem = self.mem.insert(addr, ticket);
        ViewState {
            seq: succ(self.seq),
            mem,
            fence: if level.releases() {
                FenceStamp { atomic: stamp_join(self.fence.atomic, mem), fence: self.fence.fence }
            } else {
                self.fence
            },
            ..self
        }
    }

    /// What the thread knows once it read `rec` at `level`, before the record
    /// itself is noted.
    pub open spec fn acquired(self, rec: Record, level: Level) -> Map<usize, usize> {
        let taken = if rec.releasing() && level.acquires() {
            stamp_join(self.mem, rec.source)
        } else {
            self.mem
        };
        if level.acquires() {
            stamp_join(taken, rec.source_fence.fence)
        } else {
            taken
        }
    }

    /// The view after its thread read `rec` at `level`.
    pub open spec fn after_read(self, rec: Record, level: Level) -> ViewState {
        ViewState {
            mem: stamp_raise(self.acquired(rec, level), rec.address, rec.global),
            read_fence: self.read_fence.join(rec.source_fence),
            ..self
        }
    }
}

/// The state of one thread.
pub struct ThreadView {
    pub sequence: usize,
    pub min_seq_cst_sequence: usize,
    pub mem_sequence: MemorySequence,
    pub fence_sequence: FenceSequence,
    pub read_fence_sequence: FenceSequence,
}

impl View for ThreadView {
    type V = ViewState;

    open spec fn view(&self) -> ViewState {
        ViewState {
            seq: self.sequence,
            min_seq_cst: self.min_seq_cst_sequence,
            mem: self.mem_sequence@,
            fence: self.fence_sequence@,
            read_fence: self.read_fence_sequence@,
        }
    }
}

impl Default for ThreadView {
    /// The view of a thread that has done nothing.
    fn default() -> (r: Self)
        ensures
            r@ == ViewState::fresh(),
    {
        ThreadView {
            sequence: 0,
            min_seq_cst_sequence: 0,
            mem_sequence: MemorySequence::default(),
            fence_sequence: FenceSequence::default(),
            read_fence_sequence: FenceSequence::default(),
        }
    }
}

/// The views that a sequence of thread states holds.
pub open spec fn views(threads: Seq<ThreadView>) -> Seq<ViewState> {
    threads.map_values(|t: ThreadView| t@)
}

} // verus!
