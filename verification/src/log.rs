//! The memory engine: the log of completed writes, the views of the threads,
//! and the operations that a driver performs on them one at a time.

use crate::history::{
    from_ticket, history, lemma_history_push, lemma_top_ticket_push, seq_cst_writes_below,
    seq_cst_writes_to, top_ticket, writes_to,
};
use crate::index::{nth, succ, widen};
use crate::event::Event;
use crate::growth::lemma_step;
use crate::laws::{
    law_allocate, law_fetch_update, law_load, law_store, law_update, lemma_drawn_weak_exchange,
};
use crate::level::{level_of, to_level, Level};
use crate::model::{Engine, FIRST_TICKET};
use crate::random::{chacha8_word, clock_seed, WordBlock};
use crate::record::{records, MemoryOperation, Record};
use crate::thread_view::{views, ThreadView};
use crate::wellformed::{
    lemma_after_add_thread_wf, lemma_after_allocate_wf, lemma_after_fence_wf,
    lemma_after_load_wf, lemma_after_store_wf, lemma_after_update_wf, lemma_candidates,
    lemma_fresh_wf,
};
use std::sync::atomic::Ordering;
use vstd::prelude::*;

pub use crate::fence_stamp::FenceSequence;
pub use crate::stamp::MemorySequence;

verus! {

/// A result that the contract of `f` admits for each value. Where `f`
/// returns on a value and makes the same of the same value every time, this
/// is what it returns; the contract of `f` alone does not say that it
/// returns at all, so `fetch_update` also states what `f` gave for the
/// value that it reports.
pub open spec fn outcome_of<F: Fn(usize) -> Option<usize>>(f: F) -> spec_fn(usize) -> Option<
    usize,
> {
    |v: usize| choose|o: Option<usize>| f.ensures((v,), o)
}

/// The engine. A driver holds it alone and performs one operation at a
/// time; the tickets follow the order of the calls.
pub struct MemorySystem {
    /// The ticket counter: the ticket of the latest store, update or fence.
    pub global_sequence: usize,
    /// What the SeqCst fences have made known to each other.
    pub seq_cst_sequence: MemorySequence,
    /// The records of all completed writes, in the order of their tickets.
    pub log: Vec<MemoryOperation>,
    /// The initial record of each address.
    pub acc: Vec<MemoryOperation>,
    /// The view of each thread.
    pub threads: Vec<ThreadView>,
    /// The seed of the random stream.
    pub seed: u64,
    /// How many words of the random stream were drawn.
    pub draws: u64,
    /// Words of the random stream that were fetched ahead.
    pub block: WordBlock,
}

impl View for MemorySystem {
    type V = Engine;

    open spec fn view(&self) -> Engine {
        Engine {
            global: self.global_sequence,
            seq_cst: self.seq_cst_sequence@,
            log: records(self.log@),
            genesis: records(self.acc@),
            threads: views(self.threads@),
            seed: self.seed,
            draws: self.draws,
        }
    }
}

impl Default for MemorySystem {
    /// An engine with nothing allocated, seeded from the clock.
    fn default() -> (r: Self)
        ensures
            r@ == Engine::fresh(r.seed),
            r@.wf(),
    {
        MemorySystem::with_seed(clock_seed())
    }
}

impl MemorySystem {
    /// An engine with nothing allocated, whose random choices follow from
    /// `seed`.
    pub fn with_seed(seed: u64) -> (r: Self)
        ensures
            r@ == Engine::fresh(seed),
            r@.wf(),
    {
        let r = MemorySystem {
            threads: Vec::new(),
            acc: Vec::new(),
            global_sequence: FIRST_TICKET,
            seq_cst_sequence: MemorySequence::default(),
            log: Vec::new(),
            seed,
            draws: 0,
            block: WordBlock::empty(),
        };
        proof {
            lemma_fresh_wf(seed);
            assert(r@ =~= Engine::fresh(seed));
        }
        r
    }

    /// Adds a thread and returns its index.
    pub fn add_thread(&mut self) -> (thread: usize)
        requires
            old(self)@.wf(),
        ensures
            thread == old(self)@.threads.len(),
            final(self)@ == old(self)@.after_add_thread(),
            final(self)@.wf(),
            final(self)@.follows(old(self)@),
    {
        let v = self.threads.len();
        self.threads.push(ThreadView::default());
        proof {
            lemma_after_add_thread_wf(old(self)@);
            lemma_step(old(self)@, Event::AddThread);
            assert(self@ =~= old(self)@.after_add_thread());
        }
        v
    }

    /// Allocates `size` addresses in a row, each with the initial value zero,
    /// and returns the first.
    pub fn malloc(&mut self, size: usize) -> (base: usize)
        requires
            old(self)@.can_allocate(size),
        ensures
            base == old(self)@.genesis.len(),
            final(self)@ == old(self)@.after_allocate(size),
            final(self)@.wf(),
            final(self)@.follows(old(self)@),
            forall|a: usize|
                base <= a < base + size ==> #[trigger] final(self)@.history(a) == seq![
                    Record::genesis(a),
                ],
            forall|a: usize| a < base ==> #[trigger] final(self)@.history(a) == old(self)@.history(a),
    {
        let base = self.acc.len();
        for i in 0..size
            invariant
                base == old(self).acc.len(),
                base + size <= usize::MAX,
                self.global_sequence == old(self).global_sequence,
                self.seq_cst_sequence == old(self).seq_cst_sequence,
                self.log == old(self).log,
                self.threads == old(self).threads,
                self.seed == old(self).seed,
                self.draws == old(self).draws,
                self.acc.len() == base + i,
                forall|k: int| 0 <= k < base ==> self.acc[k] == old(self).acc[k],
                forall|k: int|
                    base <= k < base + i ==> (#[trigger] self.acc[k])@ == MemoryOperation::initial(
                        k,
                    ),
        {
            self.acc.push(
                MemoryOperation {
                    thread: 0,
                    thread_sequence: 0,
                    global_sequence: 0,
                    level: Level::Relaxed,
                    release_chain: false,
                    address: base + i,
                    value: 0,
                    source_sequence: MemorySequence::default(),
                    source_fence_sequence: FenceSequence::default(),
                },
            );
        }
        proof {
            lemma_after_allocate_wf(old(self)@, size);
            lemma_step(old(self)@, Event::Allocate { size });
            assert forall|a: usize| a < base + size implies #[trigger] old(
                self,
            )@.after_allocate(size).history(a) == if a < base {
                old(self)@.history(a)
            } else {
                seq![Record::genesis(a)]
            } by {
                law_allocate(old(self)@, size, a);
            }
            assert(self@.genesis =~= old(self)@.after_allocate(size).genesis);
            assert(self@ =~= old(self)@.after_allocate(size));
        }
        base
    }

    /// Stores `val` to `addr` for `thread` at `level`, which is Relaxed,
    /// Release or SeqCst, and appends the record of the write to the log.
    pub fn store(&mut self, thread: usize, addr: usize, val: usize, level: Ordering)
        requires
            old(self)@.can_store(thread, addr, level_of(level)),
        ensures
            final(self)@ == old(self)@.after_store(thread, addr, val, level_of(level)),
            final(self)@.wf(),
            old(self)@.writes(
                final(self)@,
                thread,
                addr,
                old(self)@.stored(thread, addr, val, level_of(level)),
            ),
    {
        let level = to_level(level);
        proof {
            lemma_after_store_wf(self@, thread, addr, val, level);
            law_store(self@, thread, addr, val, level);
            assert(self@.view_ok(nth(self@.threads, thread)));
        }
        let view = &mut self.threads[thread];
        Self::write_synchronize(view, &mut self.global_sequence, addr, level);
        let fence_sequence = if level == Level::Relaxed {
            view.fence_sequence.mask_atomic()
        } else {
            view.fence_sequence.clone()
        };
        let entry = MemoryOperation {
            thread,
            thread_sequence: view.sequence,
            global_sequence: self.global_sequence,
            source_fence_sequence: fence_sequence,
            level,
            release_chain: false,
            source_sequence: view.mem_sequence.clone(),
            address: addr,
            value: val,
        };
        self.log.push(entry);
        proof {
            let next = old(self)@.after_store(thread, addr, val, level);
            assert(self@.threads =~= next.threads);
            assert(self@.log =~= next.log);
            assert(self@ =~= next);
        }
    }

    /// Passes a fence for `thread` at `level`, which is Acquire, Release,
    /// AcqRel or SeqCst.
    pub fn fence(&mut self, thread: usize, level: Ordering)
        requires
            old(self)@.can_fence(thread, level_of(level)),
        ensures
            final(self)@ == old(self)@.after_fence(thread, level_of(level)),
            final(self)@.wf(),
            final(self)@.follows(old(self)@),
    {
        let level = to_level(level);
        proof {
            lemma_after_fence_wf(self@, thread, level);
            lemma_step(self@, Event::Fence { thread, level });
            assert(self@.view_ok(nth(self@.threads, thread)));
        }
        self.global_sequence += 1;
        let view = &mut self.threads[thread];
        view.sequence += 1;
        if level == Level::SeqCst {
            view.mem_sequence.synchronize(&self.seq_cst_sequence);
            self.seq_cst_sequence.synchronize(&view.mem_sequence);
            view.min_seq_cst_sequence = self.global_sequence;
        }
        if level == Level::Release || level == Level::SeqCst || level == Level::AcqRel {
            view.fence_sequence.fence.synchronize(&view.mem_sequence);
        }
        if level == Level::Acquire || level == Level::SeqCst || level == Level::AcqRel {
            view.mem_sequence.synchronize(&view.read_fence_sequence.fence);
            view.mem_sequence.synchronize(&view.read_fence_sequence.atomic);
        }
        proof {
            let next = old(self)@.after_fence(thread, level);
            assert(self@.threads =~= next.threads);
            assert(self@ =~= next);
        }
    }

    /// The record at a place of the modification order of `addr`: the
    /// initial record at place zero, the log entry `pos - 1` at another.
    pub open spec fn entry(&self, addr: usize, pos: usize) -> Record {
        if pos == 0 {
            nth(self@.genesis, addr)
        } else {
            self@.log[pos - 1]
        }
    }

    /// The least ticket that `thread` may read from `addr` at `level`.
    fn floor_of(&self, thread: usize, addr: usize, level: Level) -> (floor: usize)
        requires
            thread < self.threads.len(),
        ensures
            floor == self@.floor(thread, addr, level),
    {
        let view = &self.threads[thread];
        let bound = view.min_seq_cst_sequence;
        let ghost log = self@.log;
        let ghost pred = if level == Level::SeqCst {
            seq_cst_writes_to(addr)
        } else {
            seq_cst_writes_below(addr, bound)
        };
        let mut hidden: usize = 0;
        proof {
            assert(log.take(0) =~= Seq::<Record>::empty());
            log.take(0).lemma_filter_len(pred);
            assert(log.take(0).filter(pred) =~= Seq::<Record>::empty());
        }
        for i in 0..self.log.len()
            invariant
                log == self@.log,
                bound == nth(self@.threads, thread).min_seq_cst,
                pred == if level == Level::SeqCst {
                    seq_cst_writes_to(addr)
                } else {
                    seq_cst_writes_below(addr, bound)
                },
                hidden == top_ticket(log.take(i as int).filter(pred)),
        {
            let e = &self.log[i];
            proof {
                assert(log.take(i + 1) =~= log.take(i as int).push(log[i as int]));
                log.take(i as int).lemma_filter_push(log[i as int], pred);
                lemma_top_ticket_push(log.take(i as int).filter(pred), log[i as int]);
            }
            if e.address == addr && e.level == Level::SeqCst && (level == Level::SeqCst
                || e.global_sequence < bound) {
                if e.global_sequence >= hidden {
                    hidden = e.global_sequence;
                }
            }
        }
        proof {
            assert(log.take(self.log.len() as int) =~= log);
        }
        if level == Level::SeqCst {
            let fenced = self.seq_cst_sequence.get(addr);
            if fenced > hidden {
                hidden = fenced;
            }
        }
        let known = view.mem_sequence.get(addr);
        if known >= hidden {
            known
        } else {
            hidden
        }
    }

    /// The places of the records of `addr` with a ticket of at least
    /// `floor`, in modification order.
    fn candidate_positions(&self, addr: usize, floor: usize) -> (picks: Vec<usize>)
        requires
            addr < self.acc.len(),
        ensures
            picks@.len() == self@.history(addr).filter(from_ticket(floor)).len(),
            forall|k: int|
                0 <= k < picks@.len() ==> {
                    &&& (#[trigger] picks@[k]) <= self.log.len()
                    &&& self.entry(addr, picks@[k]) == self@.history(addr).filter(
                        from_ticket(floor),
                    )[k]
                },
    {
        let ghost genesis = self@.genesis;
        let ghost log = self@.log;
        let ghost first = nth(genesis, addr);
        let mut picks: Vec<usize> = Vec::new();
        proof {
            assert(log.take(0) =~= Seq::<Record>::empty());
            log.take(0).lemma_filter_len(writes_to(addr));
            assert(history(genesis, log.take(0), addr) =~= Seq::<Record>::empty().push(first));
            Seq::<Record>::empty().lemma_filter_push(first, from_ticket(floor));
            Seq::<Record>::empty().lemma_filter_len(from_ticket(floor));
        }
        if self.acc[addr].global_sequence >= floor {
            picks.push(0);
        }
        for i in 0..self.log.len()
            invariant
                genesis == self@.genesis,
                log == self@.log,
                addr < self.acc.len(),
                picks@.len() == history(genesis, log.take(i as int), addr).filter(
                    from_ticket(floor),
                ).len(),
                forall|k: int|
                    0 <= k < picks@.len() ==> {
                        &&& (#[trigger] picks@[k]) <= i
                        &&& self.entry(addr, picks@[k]) == history(
                            genesis,
                            log.take(i as int),
                            addr,
                        ).filter(from_ticket(floor))[k]
                    },
        {
            let e = &self.log[i];
            proof {
                assert(log.take(i + 1) =~= log.take(i as int).push(log[i as int]));
                lemma_history_push(genesis, log.take(i as int), log[i as int], addr);
                history(genesis, log.take(i as int), addr).lemma_filter_push(
                    log[i as int],
                    from_ticket(floor),
                );
            }
            if e.address == addr && e.global_sequence >= floor {
                picks.push(i + 1);
            }
        }
        proof {
            assert(log.take(self.log.len() as int) =~= log);
        }
        picks
    }

    /// Loads `addr` for `thread` at `level`, which is Relaxed, Acquire or
    /// SeqCst, with `word` as the random word drawn: reads the record that
    /// the word picks among those the thread may read, and returns its
    /// value.
    pub fn load_with(&mut self, thread: usize, addr: usize, level: Ordering, word: u32) -> (value:
        usize)
        requires
            old(self)@.can_load(thread, addr, level_of(level)),
        ensures
            value == old(self)@.chosen(thread, addr, level_of(level), word).value,
            final(self)@ == old(self)@.after_load(thread, addr, level_of(level), word),
            final(self)@.wf(),
            old(self)@.reads(
                final(self)@,
                thread,
                addr,
                old(self)@.chosen(thread, addr, level_of(level), word),
            ),
    {
        let level = to_level(level);
        proof {
            lemma_candidates(self@, thread, addr, level);
            lemma_after_load_wf(self@, thread, addr, level, word);
            law_load(self@, thread, addr, level, word);
        }
        let floor = self.floor_of(thread, addr, level);
        let picks = self.candidate_positions(addr, floor);
        let k = widen(word) % picks.len();
        let pos = picks[k];
        let choice: &MemoryOperation = if pos == 0 {
            &self.acc[addr]
        } else {
            &self.log[pos - 1]
        };
        let view = &mut self.threads[thread];
        Self::read_synchronize(view, choice, level);
        proof {
            let next = old(self)@.after_load(thread, addr, level, word);
            assert(self@.threads =~= next.threads);
            assert(self@ =~= next);
        }
        choice.value
    }

    /// Draws the next word of the random stream.
    pub fn draw(&mut self) -> (word: u32)
        requires
            old(self).draws < u64::MAX,
        ensures
            word == chacha8_word(old(self).seed, old(self).draws),
            final(self)@ == old(self)@.after_draw(),
    {
        if !self.block.holds(self.seed, self.draws) {
            self.block = WordBlock::fetch(self.seed, self.draws);
        }
        let word = self.block.word(self.seed, self.draws);
        self.draws += 1;
        word
    }

    /// Loads `addr` for `thread` at `level`, which is Relaxed, Acquire or
    /// SeqCst: draws a word, reads the record that it picks among those the
    /// thread may read, and returns its value.
    pub fn load(&mut self, thread: usize, addr: usize, level: Ordering) -> (value: usize)
        requires
            old(self)@.can_load(thread, addr, level_of(level)),
            old(self).draws < u64::MAX,
        ensures
            value == old(self)@.chosen(
                thread,
                addr,
                level_of(level),
                chacha8_word(old(self).seed, old(self).draws),
            ).value,
            final(self)@ == old(self)@.after_load(
                thread,
                addr,
                level_of(level),
                chacha8_word(old(self).seed, old(self).draws),
            ).after_draw(),
            final(self)@.wf(),
            old(self)@.reads(
                final(self)@,
                thread,
                addr,
                old(self)@.chosen(
                    thread,
                    addr,
                    level_of(level),
                    chacha8_word(old(self).seed, old(self).draws),
                ),
            ),
    {
        let word = self.draw();
        self.load_with(thread, addr, level, word)
    }

    /// Whether a weak compare-and-exchange that drew `coin` fails without
    /// looking at the newest value.
    pub fn is_spurious(coin: u32) -> (b: bool)
        ensures
            b == Engine::spurious(coin),
    {
        coin % 2 == 1
    }

    /// A compare-and-exchange that may fail though the newest value of
    /// `addr` is `current`, with `coin` and `word` as the random words
    /// drawn. On an even `coin` it is a compare-and-exchange. On an odd one
    /// it only loads `addr` at `failure`, with `word`, and returns the value
    /// loaded as a failure.
    pub fn compare_exchange_weak_with(
        &mut self,
        thread: usize,
        addr: usize,
        current: usize,
        new: usize,
        success: Ordering,
        failure: Ordering,
        coin: u32,
        word: u32,
    ) -> (r: Result<usize, usize>)
        requires
            old(self)@.can_update(thread, addr, level_of(failure)),
        ensures
            final(self)@ == old(self)@.after_weak_exchange(
                thread,
                addr,
                current,
                new,
                level_of(success),
                level_of(failure),
                coin,
                word,
            ),
            r == old(self)@.weak_exchange_result(
                thread,
                addr,
                current,
                new,
                level_of(failure),
                coin,
                word,
            ),
            final(self)@.wf(),
            final(self)@.follows(old(self)@),
    {
        if Self::is_spurious(coin) {
            Err(self.load_with(thread, addr, failure, word))
        } else {
            self.compare_exchange(thread, addr, current, new, success, failure)
        }
    }

    /// A compare-and-exchange that may fail though the newest value of
    /// `addr` is `current`: it draws a coin, and where the coin makes it
    /// fail it draws the word of a load at `failure` and returns the value
    /// loaded as a failure.
    pub fn compare_exchange_weak(
        &mut self,
        thread: usize,
        addr: usize,
        current: usize,
        new: usize,
        success: Ordering,
        failure: Ordering,
    ) -> (r: Result<usize, usize>)
        requires
            old(self)@.can_update(thread, addr, level_of(failure)),
            old(self).draws < u64::MAX - 1,
        ensures
            final(self)@ == old(self)@.after_weak_exchange_drawn(
                thread,
                addr,
                current,
                new,
                level_of(success),
                level_of(failure),
            ),
            r == old(self)@.weak_exchange_result_drawn(
                thread,
                addr,
                current,
                new,
                level_of(failure),
            ),
            final(self)@.wf(),
            final(self)@.follows(old(self)@),
    {
        let coin = self.draw();
        let word = if Self::is_spurious(coin) {
            self.draw()
        } else {
            0
        };
        self.compare_exchange_weak_with(thread, addr, current, new, success, failure, coin, word)
    }

    /// Replaces the value of `addr` by what `f` makes of it, for `thread`:
    /// loads at `fetch_order` and tries a weak compare-and-exchange at
    /// `set_order`, again and again, until `f` has no new value for the
    /// value loaded, which comes back as a failure, or the exchange goes
    /// through, and the value it replaced comes back as a success.
    ///
    /// A failure reports a value that the address has held and for which
    /// `f` gave no new value; nothing is written. A success reports the
    /// value that was the newest, and the one new record of the log holds
    /// what `f` gave for it.
    ///
    /// `f` has to make the same of the same value every time.
    pub fn fetch_update<F: Fn(usize) -> Option<usize>>(
        &mut self,
        thread: usize,
        addr: usize,
        f: F,
        set_order: Ordering,
        fetch_order: Ordering,
    ) -> (r: Result<usize, usize>)
        requires
            old(self)@.can_update(thread, addr, level_of(fetch_order)),
            forall|k: int|
                0 <= k < old(self)@.history(addr).len() ==> f.requires(
                    ((#[trigger] old(self)@.history(addr)[k]).value,),
                ),
            forall|v: usize, a: Option<usize>, b: Option<usize>|
                f.ensures((v,), a) && f.ensures((v,), b) ==> a == b,
        ensures
            (final(self)@, r) == old(self)@.after_fetch_update(
                thread,
                addr,
                outcome_of(f),
                level_of(set_order),
                level_of(fetch_order),
            ),
            final(self)@.wf(),
            old(self)@.updated_once(final(self)@, r, thread, addr, outcome_of(f)),
            match r {
                Ok(v) => f.ensures((v,), Some(final(self)@.log.last().value)),
                Err(v) => f.ensures((v,), None::<usize>),
            },
            r matches Err(v) ==> exists|k: int|
                0 <= k < old(self)@.history(addr).len() && (#[trigger] old(self)@.history(
                    addr,
                )[k]).value == v,
    {
        let ghost set = level_of(set_order);
        let ghost fetch = level_of(fetch_order);
        let ghost g = outcome_of(f);
        let ghost goal = self@.after_fetch_update(thread, addr, g, set, fetch);
        proof {
            law_fetch_update(self@, thread, addr, g, set, fetch);
        }
        while self.draws <= u64::MAX - 3
            invariant
                old(self)@.updated_once(goal.0, goal.1, thread, addr, g),
                goal == old(self)@.after_fetch_update(thread, addr, g, set, fetch),
                set == level_of(set_order),
                fetch == level_of(fetch_order),
                g == outcome_of(f),
                self@.can_update(thread, addr, fetch),
                self@.history(addr) == old(self)@.history(addr),
                forall|k: int|
                    0 <= k < self@.history(addr).len() ==> f.requires(
                        ((#[trigger] self@.history(addr)[k]).value,),
                    ),
                forall|v: usize, a: Option<usize>, b: Option<usize>|
                    f.ensures((v,), a) && f.ensures((v,), b) ==> a == b,
                self@.after_fetch_update(thread, addr, g, set, fetch) == goal,
            decreases u64::MAX - self.draws,
        {
            let ghost before = self@;
            let ghost picked = before.chosen(thread, addr, fetch, before.drawn());
            proof {
                lemma_candidates(before, thread, addr, fetch);
                assert(before.candidates(thread, addr, fetch).contains(picked));
            }
            let ghost k = choose|k: int|
                0 <= k < before.history(addr).len() && before.history(addr)[k] == picked;
            assert(f.requires((before.history(addr)[k].value,)));
            let current = self.load(thread, addr, fetch_order);
            let made = f(current);
            assert(made == g(current));
            match made {
                None => {
                    assert(old(self)@.history(addr)[k].value == current);
                    return Err(current);
                },
                Some(new) => {
                    let ghost loaded = self@;
                    let tried = self.compare_exchange_weak(
                        thread,
                        addr,
                        current,
                        new,
                        set_order,
                        fetch_order,
                    );
                    if tried.is_ok() {
                        proof {
                            lemma_drawn_weak_exchange(
                                loaded,
                                thread,
                                addr,
                                current,
                                new,
                                set,
                                fetch,
                            );
                        }
                        return Ok(current);
                    }
                },
            }
        }
        proof {
            // The newest value is one that the address has held.
            assert(f.requires((self@.history(addr).last().value,)));
        }
        let r = self.op(thread, addr, f, set_order, fetch_order);
        proof {
            let h = old(self)@.history(addr);
            assert(h[h.len() - 1].value == old(self)@.history(addr).last().value);
        }
        r
    }

    /// The place of the newest record of `addr`: its index in the log, or
    /// `None` where only the initial record stands.
    fn newest_position(&self, addr: usize) -> (pos: Option<usize>)
        requires
            addr < self.acc.len(),
        ensures
            match pos {
                Some(i) => i < self.log.len() && self@.newest(addr) == nth(self@.log, i),
                None => self@.newest(addr) == nth(self@.genesis, addr),
            },
    {
        let mut pos: Option<usize> = None;
        let ghost genesis = self@.genesis;
        let ghost log = self@.log;
        proof {
            assert(log.take(0) =~= Seq::<Record>::empty());
            assert(log.take(0).filter(writes_to(addr)) =~= Seq::<Record>::empty()) by {
                log.take(0).lemma_filter_len(writes_to(addr));
            }
        }
        for i in 0..self.log.len()
            invariant
                genesis == self@.genesis,
                log == self@.log,
                addr < self.acc.len(),
                match pos {
                    Some(k) => k < i && history(genesis, log.take(i as int), addr).last() == log[k as int],
                    None => history(genesis, log.take(i as int), addr).last() == nth(genesis, addr),
                },
        {
            proof {
                assert(log.take(i + 1) =~= log.take(i as int).push(log[i as int]));
                lemma_history_push(genesis, log.take(i as int), log[i as int], addr);
            }
            if self.log[i].address == addr {
                pos = Some(i);
            }
        }
        proof {
            assert(log.take(self.log.len() as int) =~= log);
        }
        pos
    }

    /// The newest value of `addr`.
    pub fn latest(&self, addr: usize) -> (value: usize)
        requires
            addr < self.acc.len(),
        ensures
            value == self@.newest(addr).value,
    {
        match self.newest_position(addr) {
            Some(i) => self.log[i].value,
            None => self.acc[addr].value,
        }
    }

    /// Updates `addr` for `thread` in one step: reads the newest record and,
    /// where `outcome` holds a value, appends a record that writes it.
    ///
    /// A failed update reads at `failure`, which is Relaxed, Acquire or
    /// SeqCst. One that goes through reads and writes at `success`, an
    /// AcqRel one as Acquire and Release. Either way the value read comes
    /// back.
    pub fn rmw(
        &mut self,
        thread: usize,
        addr: usize,
        outcome: Option<usize>,
        success: Ordering,
        failure: Ordering,
    ) -> (r: Result<usize, usize>)
        requires
            old(self)@.can_update(thread, addr, level_of(failure)),
        ensures
            final(self)@ == old(self)@.after_update(
                thread,
                addr,
                outcome,
                level_of(success),
                level_of(failure),
            ),
            r == old(self)@.update_result(addr, outcome),
            final(self)@.wf(),
            old(self)@.updates(final(self)@, thread, addr, outcome, level_of(success)),
    {
        let success = to_level(success);
        let failure = to_level(failure);
        proof {
            lemma_after_update_wf(self@, thread, addr, outcome, success, failure);
            law_update(self@, thread, addr, outcome, success, failure);
            assert(self@.view_ok(nth(self@.threads, thread)));
        }
        let choice: &MemoryOperation = match self.newest_position(addr) {
            Some(i) => &self.log[i],
            None => &self.acc[addr],
        };
        let view = &mut self.threads[thread];
        let (load_ordering, store_ordering) = if success == Level::AcqRel {
            (Level::Acquire, Level::Release)
        } else {
            (success, success)
        };
        let v = choice.value;
        let value = match outcome {
            None => {
                Self::read_synchronize(view, choice, failure);
                proof {
                    let next = old(self)@.after_update(thread, addr, outcome, success, failure);
                    assert(self@.threads =~= next.threads);
                    assert(self@ =~= next);
                }
                return Err(v);
            },
            Some(value) => value,
        };
        Self::read_synchronize(view, choice, load_ordering);
        Self::write_synchronize(view, &mut self.global_sequence, addr, store_ordering);
        let release_chain = choice.level != Level::Relaxed;
        let republishes = success == Level::Release || success == Level::AcqRel || success
            == Level::SeqCst;
        let mut source = view.mem_sequence.clone();
        let mut source_fence = view.fence_sequence.clone();
        if release_chain {
            if republishes {
                source.synchronize(&choice.source_sequence);
                source_fence.synchronize(&choice.source_fence_sequence);
            } else {
                source = choice.source_sequence.clone();
                source_fence = choice.source_fence_sequence.clone();
            }
        }
        let fence_sequence = if store_ordering == Level::Relaxed {
            source_fence.mask_atomic()
        } else {
            source_fence
        };
        let entry = MemoryOperation {
            thread,
            thread_sequence: view.sequence,
            global_sequence: self.global_sequence,
            source_fence_sequence: fence_sequence,
            level: store_ordering,
            release_chain,
            source_sequence: source,
            address: addr,
            value,
        };
        self.log.push(entry);
        proof {
            let next = old(self)@.after_update(thread, addr, outcome, success, failure);
            assert(self@.threads =~= next.threads);
            assert(self@.log =~= next.log);
            assert(self@ =~= next);
        }
        Ok(v)
    }

    /// Updates `addr` for `thread` with what `f` makes of its newest value:
    /// the primitive under fetch-and-modify and compare-and-exchange.
    pub fn op<F: Fn(usize) -> Option<usize>>(
        &mut self,
        thread: usize,
        addr: usize,
        f: F,
        success: Ordering,
        failure: Ordering,
    ) -> (r: Result<usize, usize>)
        requires
            old(self)@.can_update(thread, addr, level_of(failure)),
            f.requires((old(self)@.newest(addr).value,)),
        ensures
            exists|outcome: Option<usize>|
                {
                    &&& f.ensures((old(self)@.newest(addr).value,), outcome)
                    &&& final(self)@ == #[trigger] old(self)@.after_update(
                        thread,
                        addr,
                        outcome,
                        level_of(success),
                        level_of(failure),
                    )
                    &&& r == old(self)@.update_result(addr, outcome)
                    &&& old(self)@.updates(final(self)@, thread, addr, outcome, level_of(success))
                },
            final(self)@.wf(),
            final(self)@.follows(old(self)@),
    {
        let v = self.latest(addr);
        let outcome = f(v);
        self.rmw(thread, addr, outcome, success, failure)
    }

    /// Replaces the newest value of `addr` by what `f` makes of it, for
    /// `thread` at `level`, and returns the value replaced. This cannot
    /// fail.
    pub fn fetch_op<F: Fn(usize) -> usize>(
        &mut self,
        thread: usize,
        addr: usize,
        f: F,
        level: Ordering,
    ) -> (r: usize)
        requires
            old(self)@.can_update(thread, addr, Level::Relaxed),
            f.requires((old(self)@.newest(addr).value,)),
        ensures
            r == old(self)@.newest(addr).value,
            exists|value: usize|
                {
                    &&& f.ensures((r,), value)
                    &&& final(self)@ == #[trigger] old(self)@.after_update(
                        thread,
                        addr,
                        Some(value),
                        level_of(level),
                        Level::Relaxed,
                    )
                    &&& old(self)@.updates(
                        final(self)@,
                        thread,
                        addr,
                        Some(value),
                        level_of(level),
                    )
                },
            final(self)@.wf(),
            final(self)@.follows(old(self)@),
    {
        let v = self.latest(addr);
        let value = f(v);
        // Relaxed stands for the failure level: this operation cannot fail.
        match self.rmw(thread, addr, Some(value), level, Ordering::Relaxed) {
            Ok(pre) => pre,
            Err(pre) => pre,
        }
    }

    /// Writes `new` to `addr` for `thread` where its newest value is
    /// `current`, and returns that value as a success; where it is another,
    /// writes nothing and returns it as a failure.
    pub fn compare_exchange(
        &mut self,
        thread: usize,
        addr: usize,
        current: usize,
        new: usize,
        success: Ordering,
        failure: Ordering,
    ) -> (r: Result<usize, usize>)
        requires
            old(self)@.can_update(thread, addr, level_of(failure)),
        ensures
            final(self)@ == old(self)@.after_update(
                thread,
                addr,
                old(self)@.exchange_outcome(addr, current, new),
                level_of(success),
                level_of(failure),
            ),
            r == old(self)@.update_result(addr, old(self)@.exchange_outcome(addr, current, new)),
            final(self)@.wf(),
            old(self)@.updates(
                final(self)@,
                thread,
                addr,
                old(self)@.exchange_outcome(addr, current, new),
                level_of(success),
            ),
    {
        let v = self.latest(addr);
        let outcome = if v == current {
            Some(new)
        } else {
            None
        };
        self.rmw(thread, addr, outcome, success, failure)
    }

    /// Notes in `view` a write of its thread to `addr` at `level`, under the
    /// next ticket of `global_sequence`.
    pub fn write_synchronize(
        view: &mut ThreadView,
        global_sequence: &mut usize,
        addr: usize,
        level: Level,
    )
        requires
            *old(global_sequence) < usize::MAX,
            old(view).sequence < usize::MAX,
        ensures
            *final(global_sequence) == succ(*old(global_sequence)),
            final(view)@ == old(view)@.after_write(*final(global_sequence), addr, level),
    {
        *global_sequence += 1;
        view.sequence += 1;
        view.mem_sequence.set(addr, *global_sequence);
        if level == Level::SeqCst || level == Level::Release {
            view.fence_sequence.atomic.synchronize(&view.mem_sequence);
        }
    }

    /// Notes in `view` a read by its thread of `choice` at `level`.
    pub fn read_synchronize(view: &mut ThreadView, choice: &MemoryOperation, level: Level)
        ensures
            final(view)@ == old(view)@.after_read(choice@, level),
    {
        let acquires = level == Level::SeqCst || level == Level::Acquire;
        if (choice.level == Level::Release || choice.level == Level::SeqCst
            || choice.release_chain) && acquires {
            view.mem_sequence.synchronize(&choice.source_sequence);
        }
        if acquires {
            view.mem_sequence.synchronize(&choice.source_fence_sequence.fence);
        }
        view.read_fence_sequence.synchronize(&choice.source_fence_sequence);
        view.mem_sequence.raise(choice.address, choice.global_sequence);
    }
}

} // verus!
