//! Ordering levels: the synchronization strength of an operation.

use std::sync::atomic::Ordering;
use vstd::prelude::*;

verus! {

/// The strength of an operation, as the engine records and compares it.
#[derive(Clone, Copy, Debug, PartialEq, Eq, Structural)]
pub enum Level {
    Relaxed,
    Acquire,
    Release,
    AcqRel,
    SeqCst,
}

/// The level that an atomic ordering stands for.
pub open spec fn level_of(o: Ordering) -> Level {
    match o {
        Ordering::Relaxed => Level::Relaxed,
        Ordering::Acquire => Level::Acquire,
        Ordering::Release => Level::Release,
        Ordering::AcqRel => Level::AcqRel,
        _ => Level::SeqCst,
    }
}

/// Converts an atomic ordering to its level.
pub fn to_level(o: Ordering) -> (l: Level)
    ensures
        l == level_of(o),
{
    match o {
        Ordering::Relaxed => Level::Relaxed,
        Ordering::Acquire => Level::Acquire,
        Ordering::Release => Level::Release,
        Ordering::AcqRel => Level::AcqRel,
        _ => Level::SeqCst,
    }
}

impl Level {
    /// A level with acquire strength on the reading side: Acquire or SeqCst.
    pub open spec fn acquires(self) -> bool {
        self == Level::Acquire || self == Level::SeqCst
    }

    /// A level with release strength on the writing side: Release or SeqCst.
    pub open spec fn releases(self) -> bool {
        self == Level::Release || self == Level::SeqCst
    }

    /// The levels that a store accepts.
    pub open spec fn for_store(self) -> bool {
        self == Level::Relaxed || self == Level::Release || self == Level::SeqCst
    }

    /// The levels that a load, or the failure side of an update, accepts.
    pub open spec fn for_load(self) -> bool {
        self == Level::Relaxed || self == Level::Acquire || self == Level::SeqCst
    }

    /// The levels that a fence accepts.
    pub open spec fn for_fence(self) -> bool {
        self != Level::Relaxed
    }

    /// The level at which a successful update reads.
    pub open spec fn load_side(self) -> Level {
        if self == Level::AcqRel {
            Level::Acquire
        } else {
            self
        }
    }

    /// The level at which a successful update writes.
    pub open spec fn store_side(self) -> Level {
        if self == Level::AcqRel {
            Level::Release
        } else {
            self
        }
    }
}

} // verus!
