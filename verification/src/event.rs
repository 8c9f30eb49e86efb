//! Runs of the engine: the events that the operations are made of, and
//! what a sequence of them makes of a state.

use crate::level::Level;
use crate::model::Engine;
use crate::stamp::stamp_le;
use vstd::prelude::*;

verus! {

/// One step of the engine.
pub ghost enum Event {
    /// Addresses are allocated.
    Allocate { size: usize },
    /// A thread is added.
    AddThread,
    /// A word is drawn from the random stream.
    Draw,
    /// A thread stores a value.
    Store { thread: usize, addr: usize, value: usize, level: Level },
    /// A thread loads an address and reads the record that `word` picks.
    Load { thread: usize, addr: usize, level: Level, word: u32 },
    /// A thread passes a fence.
    Fence { thread: usize, level: Level },
    /// A thread updates an address: it writes the value of `outcome`, or
    /// fails where there is none.
    Update { thread: usize, addr: usize, outcome: Option<usize>, success: Level, failure: Level },
}

impl Engine {
    /// The event is in order in this state.
    pub open spec fn admits(self, e: Event) -> bool {
        match e {
            Event::Allocate { size } => self.can_allocate(size),
            Event::AddThread => self.wf(),
            Event::Draw => self.wf() && self.draws < u64::MAX,
            Event::Store { thread, addr, value, level } => self.can_store(thread, addr, level),
            Event::Load { thread, addr, level, word } => self.can_load(thread, addr, level),
            Event::Fence { thread, level } => self.can_fence(thread, level),
            Event::Update { thread, addr, outcome, success, failure } => self.can_update(
                thread,
                addr,
                failure,
            ),
        }
    }

    /// The state after the event.
    pub open spec fn after(self, e: Event) -> Engine {
        match e {
            Event::Allocate { size } => self.after_allocate(size),
            Event::AddThread => self.after_add_thread(),
            Event::Draw => self.after_draw(),
            Event::Store { thread, addr, value, level } => self.after_store(
                thread,
                addr,
                value,
                level,
            ),
            Event::Load { thread, addr, level, word } => self.after_load(thread, addr, level, word),
            Event::Fence { thread, level } => self.after_fence(thread, level),
            Event::Update { thread, addr, outcome, success, failure } => self.after_update(
                thread,
                addr,
                outcome,
                success,
                failure,
            ),
        }
    }

    /// Every event of the run is in order in the state that the events
    /// before it lead to.
    pub open spec fn admits_all(self, run: Seq<Event>) -> bool
        decreases run.len(),
    {
        run.len() == 0 || (self.admits(run[0]) && self.after(run[0]).admits_all(run.drop_first()))
    }

    /// The state after the run.
    pub open spec fn after_all(self, run: Seq<Event>) -> Engine
        decreases run.len(),
    {
        if run.len() == 0 {
            self
        } else {
            self.after(run[0]).after_all(run.drop_first())
        }
    }

    /// This state comes after `earlier`: it holds the records of `earlier`
    /// in their places, and no counter, watermark or stamp has gone back.
    pub open spec fn follows(self, earlier: Engine) -> bool {
        &&& earlier.global <= self.global
        &&& earlier.genesis.len() <= self.genesis.len()
        &&& forall|a: int|
            0 <= a < earlier.genesis.len() ==> #[trigger] self.genesis[a] == earlier.genesis[a]
        &&& earlier.log.len() <= self.log.len()
        &&& forall|i: int| 0 <= i < earlier.log.len() ==> #[trigger] self.log[i] == earlier.log[i]
        &&& earlier.threads.len() <= self.threads.len()
        &&& forall|t: int|
            0 <= t < earlier.threads.len() ==> (#[trigger] earlier.threads[t]).le(self.threads[t])
        &&& stamp_le(earlier.seq_cst, self.seq_cst)
    }
}

} // verus!
