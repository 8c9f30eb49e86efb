//! Fence stamps: a pair of sequence stamps that keeps apart what may ride a
//! release store and what may only ride a release fence.

use crate::stamp::{stamp_join, stamp_le, MemorySequence};
use vstd::prelude::*;

verus! {

/// What a fence stamp holds: the stamp of the atomic channel and the stamp of
/// the fence channel.
#[verifier::ext_equal]
pub ghost struct FenceStamp {
    pub atomic: Map<usize, usize>,
    pub fence: Map<usize, usize>,
}

impl FenceStamp {
    /// The fence stamp with both channels empty.
    pub open spec fn empty() -> FenceStamp {
        FenceStamp { atomic: Map::empty(), fence: Map::empty() }
    }

    /// The merge of two fence stamps, channel by channel.
    pub open spec fn join(self, other: FenceStamp) -> FenceStamp {
        FenceStamp {
            atomic: stamp_join(self.atomic, other.atomic),
            fence: stamp_join(self.fence, other.fence),
        }
    }

    /// This fence stamp with the atomic channel emptied.
    pub open spec fn masked(self) -> FenceStamp {
        FenceStamp { atomic: Map::empty(), fence: self.fence }
    }

    /// `other` holds at least what this fence stamp holds, in both channels.
    pub open spec fn le(self, other: FenceStamp) -> bool {
        stamp_le(self.atomic, other.atomic) && stamp_le(self.fence, other.fence)
    }
}

/// A fence stamp.
#[derive(Debug)]
pub struct FenceSequence {
    pub atomic: MemorySequence,
    pub fence: MemorySequence,
}

impl View for FenceSequence {
    type V = FenceStamp;

    open spec fn view(&self) -> FenceStamp {
        FenceStamp { atomic: self.atomic@, fence: self.fence@ }
    }
}

impl Default for FenceSequence {
    /// The fence stamp with both channels empty.
    fn default() -> (r: Self)
        ensures
            r@ == FenceStamp::empty(),
    {
        FenceSequence { atomic: MemorySequence::default(), fence: MemorySequence::default() }
    }
}

impl Clone for FenceSequence {
    fn clone(&self) -> (r: Self)
        ensures
            r@ == self@,
    {
        FenceSequence { atomic: self.atomic.clone(), fence: self.fence.clone() }
    }
}

impl FenceSequence {
    /// Merges `other` into this fence stamp, each channel on its own.
    pub fn synchronize(&mut self, other: &FenceSequence)
        ensures
            final(self)@ == old(self)@.join(other@),
    {
        self.atomic.synchronize(&other.atomic);
        self.fence.synchronize(&other.fence);
    }

    /// A copy with the atomic channel emptied and the fence channel kept.
    pub fn mask_atomic(&self) -> (r: FenceSequence)
        ensures
            r@ == self@.masked(),
    {
        FenceSequence { atomic: MemorySequence::default(), fence: self.fence.clone() }
    }
}

} // verus!
