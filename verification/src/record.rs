//! Operation records: the entries of the log, one for each completed store
//! or update.

use crate::fence_stamp::{FenceSequence, FenceStamp};
use crate::level::Level;
use crate::stamp::{stamp_at, MemorySequence};
use vstd::prelude::*;

verus! {

/// What a record holds.
#[verifier::ext_equal]
pub ghost struct Record {
    /// The thread that wrote.
    pub thread: usize,
    /// That thread's own counter at the write.
    pub thread_seq: usize,
    /// The ticket of the write.
    pub global: usize,
    /// The level of the writing side.
    pub level: Level,
    /// The address written.
    pub address: usize,
    /// The value written.
    pub value: usize,
    /// Whether the write continues a release sequence.
    pub release_chain: bool,
    /// The stamp that the write publishes.
    pub source: Map<usize, usize>,
    /// The fence stamp that the write publishes.
    pub source_fence: FenceStamp,
}

impl Record {
    /// The record that stands for the initial value of an address.
    pub open spec fn genesis(address: usize) -> Record {
        Record {
            thread: 0,
            thread_seq: 0,
            global: 0,
            level: Level::Relaxed,
            address,
            value: 0,
            release_chain: false,
            source: Map::empty(),
            source_fence: FenceStamp::empty(),
        }
    }

    /// A record that stands for an initial value.
    pub open spec fn is_genesis(self) -> bool {
        self == Record::genesis(self.address)
    }

    /// A record that publishes, for the address it wrote, no ticket above
    /// its own.
    pub open spec fn knows_itself_newest(self) -> bool {
        &&& stamp_at(self.source, self.address) <= self.global
        &&& stamp_at(self.source_fence.atomic, self.address) <= self.global
        &&& stamp_at(self.source_fence.fence, self.address) <= self.global
    }

    /// A record that lets an acquiring reader take over the stamp it
    /// publishes.
    pub open spec fn releasing(self) -> bool {
        self.level.releases() || self.release_chain
    }
}

/// An entry of the log.
#[derive(Debug)]
pub struct MemoryOperation {
    pub thread: usize,
    pub thread_sequence: usize,
    pub global_sequence: usize,
    pub level: Level,
    pub address: usize,
    pub value: usize,
    pub release_chain: bool,
    pub source_sequence: MemorySequence,
    pub source_fence_sequence: FenceSequence,
}

impl View for MemoryOperation {
    type V = Record;

    open spec fn view(&self) -> Record {
        Record {
            thread: self.thread,
            thread_seq: self.thread_sequence,
            global: self.global_sequence,
            level: self.level,
            address: self.address,
            value: self.value,
            release_chain: self.release_chain,
            source: self.source_sequence@,
            source_fence: self.source_fence_sequence@,
        }
    }
}

impl MemoryOperation {
    /// The record of the initial value of the address `k`.
    pub open spec fn initial(k: int) -> Record {
        Record::genesis(k as usize)
    }
}

/// The records that a sequence of log entries holds.
pub open spec fn records(entries: Seq<MemoryOperation>) -> Seq<Record> {
    entries.map_values(|e: MemoryOperation| e@)
}

} // verus!
