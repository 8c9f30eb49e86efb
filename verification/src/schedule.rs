//! What a cooperative driver decides: which of the operations that its
//! threads have queued may run next.

use vstd::prelude::*;

verus! {

/// The memory model that the driver imitates.
#[derive(Copy, Clone, Debug, PartialEq, Eq, Structural)]
pub enum MemoryModel {
    ARM,
    Intel,
}

/// The kind of a queued memory operation.
#[derive(Copy, Clone, Debug, PartialEq, Eq, Structural)]
pub enum MemoryOpType {
    Get,
    Put,
    Fence,
}

impl MemoryOpType {
    /// A read or a write, as opposed to a fence.
    pub open spec fn is_access(self) -> bool {
        self == MemoryOpType::Put || self == MemoryOpType::Get
    }
}

/// A queued memory operation: its kind, the thread that queued it and the
/// location it is for.
#[derive(Copy, Clone, Debug)]
pub struct MemoryOp {
    pub op: MemoryOpType,
    pub thread: usize,
    pub location: u128,
}

impl MemoryOp {
    /// Whether this operation, queued earlier, has to run before `later`.
    ///
    /// Only operations of one thread hold each other back, and two for one
    /// location always do. For different locations, ARM lets reads and
    /// writes pass each other freely, and Intel lets only a read pass an
    /// earlier write. A fence never passes and is never passed.
    pub open spec fn holds_back(self, later: MemoryOp, model: MemoryModel) -> bool {
        &&& self.thread == later.thread
        &&& self.location == later.location || {
            &&& !(model == MemoryModel::ARM && self.op.is_access() && later.op.is_access())
            &&& !(self.op == MemoryOpType::Put && later.op == MemoryOpType::Get)
        }
    }

    /// Whether this operation, queued earlier, has to run before `other`
    /// under `model`.
    pub fn blocks(&self, other: &MemoryOp, model: MemoryModel) -> (b: bool)
        ensures
            b == self.holds_back(*other, model),
    {
        if self.thread != other.thread {
            return false;
        }
        if other.location == self.location {
            return true;
        }
        let self_access = self.op == MemoryOpType::Put || self.op == MemoryOpType::Get;
        let other_access = other.op == MemoryOpType::Put || other.op == MemoryOpType::Get;
        if model == MemoryModel::ARM && self_access && other_access {
            return false;
        }
        !(self.op == MemoryOpType::Put && other.op == MemoryOpType::Get)
    }
}

/// A queued operation, as the driver sees it.
pub trait Op: Sized {
    /// Whether this operation, queued earlier, has to run before `other`.
    spec fn holds_back(&self, other: &Self) -> bool;

    /// Whether this operation, queued earlier, has to run before `other`.
    fn blocks(&self, other: &Self) -> (b: bool)
        ensures
            b == self.holds_back(other),
    ;
}

/// A memory operation as it stands in the driver's queue, with the memory
/// model it was queued under.
#[derive(Copy, Clone, Debug)]
pub struct Operation {
    pub op: MemoryOp,
    pub model: MemoryModel,
}

impl Operation {
    /// Queues `op` under `model`.
    pub fn build(op: MemoryOp, model: MemoryModel) -> (r: Operation)
        ensures
            r.op == op,
            r.model == model,
    {
        Operation { op, model }
    }
}

impl Op for Operation {
    open spec fn holds_back(&self, other: &Self) -> bool {
        self.op.holds_back(other.op, self.model)
    }

    fn blocks(&self, other: &Self) -> (b: bool) {
        self.op.blocks(&other.op, self.model)
    }
}

/// The position that `ind` picks in a queue of `len` operations.
pub open spec fn picked(ind: usize, len: nat) -> int {
    (ind as int) % (len as int)
}

/// Whether an operation queued before position `at` holds back the one at
/// `at`.
pub open spec fn held_back<T: Op>(queue: Seq<T>, at: int) -> bool {
    exists|x: int| 0 <= x < at && (#[trigger] queue[x]).holds_back(&queue[at])
}

/// The driver.
#[derive(Default)]
pub struct System {}

impl System {
    /// A driver.
    pub fn new() -> Self {
        Self {  }
    }

    /// Takes the operation that `ind` picks out of the queue, unless the
    /// queue is empty or an operation queued before it holds it back.
    pub fn get_op<T: Op>(&self, ops: &mut Vec<T>, ind: usize) -> (r: Option<T>)
        ensures
            match r {
                Some(taken) => {
                    &&& old(ops)@.len() > 0
                    &&& !held_back(old(ops)@, picked(ind, old(ops)@.len()))
                    &&& taken == old(ops)@[picked(ind, old(ops)@.len())]
                    &&& final(ops)@ == old(ops)@.remove(picked(ind, old(ops)@.len()))
                },
                None => {
                    &&& final(ops)@ == old(ops)@
                    &&& old(ops)@.len() == 0 || held_back(
                        old(ops)@,
                        picked(ind, old(ops)@.len()),
                    )
                },
            },
    {
        if ops.is_empty() {
            return None;
        }
        let at = ind % ops.len();
        for x in 0..at
            invariant
                at == picked(ind, ops@.len()),
                at < ops.len(),
                *ops == *old(ops),
                forall|k: int| 0 <= k < x ==> !(#[trigger] ops@[k]).holds_back(&ops@[at as int]),
        {
            if ops[x].blocks(&ops[at]) {
                assert(ops@[x as int].holds_back(&ops@[at as int]));
                return None;
            }
        }
        Some(ops.remove(at))
    }
}

} // verus!
