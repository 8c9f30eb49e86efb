//! The engine as a state machine over plain values: what each operation
//! makes of a state, and which states are well formed.

use crate::fence_stamp::FenceStamp;
use crate::history::{
    chained, from_ticket, history, in_program_order, rising, seq_cst_writes_below,
    seq_cst_writes_to, top_ticket,
};
use crate::index::{nth, pick, put, succ, succ64};
use crate::level::Level;
use crate::random::chacha8_word;
use crate::record::Record;
use crate::stamp::{stamp_at, stamp_join};
use crate::thread_view::ViewState;
use vstd::prelude::*;

verus! {

/// Where the ticket counter starts. The initial records hold ticket zero, and
/// the first write takes the ticket after this one.
pub const FIRST_TICKET: usize = 10;

/// The state of the engine.
#[verifier::ext_equal]
pub ghost struct Engine {
    /// The ticket counter.
    pub global: usize,
    /// What the SeqCst fences have made known to each other.
    pub seq_cst: Map<usize, usize>,
    /// The records of all completed writes, in the order of their tickets.
    pub log: Seq<Record>,
    /// The initial record of each address.
    pub genesis: Seq<Record>,
    /// The view of each thread.
    pub threads: Seq<ViewState>,
    /// The seed of the random stream.
    pub seed: u64,
    /// How many words of the random stream were drawn.
    pub draws: u64,
}

impl Engine {
    /// The engine before anything was allocated or done.
    pub open spec fn fresh(seed: u64) -> Engine {
        Engine {
            global: FIRST_TICKET,
            seq_cst: Map::empty(),
            log: Seq::empty(),
            genesis: Seq::empty(),
            threads: Seq::empty(),
            seed,
            draws: 0,
        }
    }

    /// The modification order of `addr`: its initial record, then the records
    /// of the log that wrote it, in log order.
    pub open spec fn history(self, addr: usize) -> Seq<Record> {
        history(self.genesis, self.log, addr)
    }

    /// The newest record of `addr`.
    pub open spec fn newest(self, addr: usize) -> Record {
        self.history(addr).last()
    }

    /// The ticket of the newest SeqCst write to `addr`, zero where there is
    /// none.
    pub open spec fn newest_seq_cst(self, addr: usize) -> usize {
        top_ticket(self.log.filter(seq_cst_writes_to(addr)))
    }

    /// The ticket of the newest SeqCst write to `addr` with a ticket below
    /// `bound`, zero where there is none.
    pub open spec fn newest_seq_cst_below(self, addr: usize, bound: usize) -> usize {
        top_ticket(self.log.filter(seq_cst_writes_below(addr, bound)))
    }

    /// The ticket below which sequential consistency hides the records of
    /// `addr` from a load by `thread` at `level`.
    ///
    /// A SeqCst load sees the newest SeqCst write and all that a SeqCst fence
    /// made known. Another load sees the newest SeqCst write from before the
    /// thread's own latest SeqCst fence.
    pub open spec fn seq_cst_floor(self, thread: usize, addr: usize, level: Level) -> usize {
        if level == Level::SeqCst {
            let written = self.newest_seq_cst(addr);
            let fenced = stamp_at(self.seq_cst, addr);
            if written >= fenced {
                written
            } else {
                fenced
            }
        } else {
            self.newest_seq_cst_below(addr, nth(self.threads, thread).min_seq_cst)
        }
    }

    /// The least ticket that a load of `addr` by `thread` at `level` may
    /// read: what the thread already knows of `addr`, or the SeqCst floor
    /// where that is higher.
    pub open spec fn floor(self, thread: usize, addr: usize, level: Level) -> usize {
        let known = stamp_at(nth(self.threads, thread).mem, addr);
        let hidden = self.seq_cst_floor(thread, addr, level);
        if known >= hidden {
            known
        } else {
            hidden
        }
    }

    /// The records that a load of `addr` by `thread` at `level` may read, in
    /// modification order.
    pub open spec fn candidates(self, thread: usize, addr: usize, level: Level) -> Seq<Record> {
        self.history(addr).filter(from_ticket(self.floor(thread, addr, level)))
    }

    /// The record that a load reads when it draws `word`.
    pub open spec fn chosen(self, thread: usize, addr: usize, level: Level, word: u32) -> Record {
        pick(self.candidates(thread, addr, level), word)
    }

    /// The state with `view` as the view of `thread`.
    pub open spec fn with_view(self, thread: usize, view: ViewState) -> Engine {
        Engine { threads: put(self.threads, thread, view), ..self }
    }

    /// The state after `size` addresses were allocated.
    pub open spec fn after_allocate(self, size: usize) -> Engine {
        let base = self.genesis.len();
        Engine {
            genesis: self.genesis + Seq::new(
                size as nat,
                |i: int| Record::genesis((base + i) as usize),
            ),
            ..self
        }
    }

    /// The state after a thread was added.
    pub open spec fn after_add_thread(self) -> Engine {
        Engine { threads: self.threads.push(ViewState::fresh()), ..self }
    }

    /// The state after a word was drawn from the random stream.
    pub open spec fn after_draw(self) -> Engine {
        Engine { draws: succ64(self.draws), ..self }
    }

    /// The record that a store appends.
    pub open spec fn stored(self, thread: usize, addr: usize, value: usize, level: Level) -> Record {
        let view = nth(self.threads, thread).after_write(succ(self.global), addr, level);
        Record {
            thread,
            thread_seq: view.seq,
            global: succ(self.global),
            level,
            address: addr,
            value,
            release_chain: false,
            source: view.mem,
            source_fence: if level == Level::Relaxed {
                view.fence.masked()
            } else {
                view.fence
            },
        }
    }

    /// The state after `thread` stored `value` to `addr` at `level`.
    pub open spec fn after_store(self, thread: usize, addr: usize, value: usize, level: Level) -> Engine {
        let view = nth(self.threads, thread).after_write(succ(self.global), addr, level);
        Engine {
            global: succ(self.global),
            threads: put(self.threads, thread, view),
            log: self.log.push(self.stored(thread, addr, value, level)),
            ..self
        }
    }

    /// The state after `thread` loaded `addr` at `level` and drew `word`.
    pub open spec fn after_load(self, thread: usize, addr: usize, level: Level, word: u32) -> Engine {
        let rec = self.chosen(thread, addr, level, word);
        self.with_view(thread, nth(self.threads, thread).after_read(rec, level))
    }

    /// The view of `thread` after a fence at `level` under `ticket`.
    pub open spec fn fenced_view(self, thread: usize, level: Level, ticket: usize) -> ViewState {
        let view = nth(self.threads, thread);
        let met = if level == Level::SeqCst {
            stamp_join(view.mem, self.seq_cst)
        } else {
            view.mem
        };
        let releases = level == Level::Release || level == Level::AcqRel || level == Level::SeqCst;
        let acquires = level == Level::Acquire || level == Level::AcqRel || level == Level::SeqCst;
        ViewState {
            seq: succ(view.seq),
            min_seq_cst: if level == Level::SeqCst {
                ticket
            } else {
                view.min_seq_cst
            },
            mem: if acquires {
                stamp_join(stamp_join(met, view.read_fence.fence), view.read_fence.atomic)
            } else {
                met
            },
            fence: if releases {
                FenceStamp {
                    atomic: view.fence.atomic,
                    fence: stamp_join(view.fence.fence, met),
                }
            } else {
                view.fence
            },
            read_fence: view.read_fence,
        }
    }

    /// The state after `thread` passed a fence at `level`.
    pub open spec fn after_fence(self, thread: usize, level: Level) -> Engine {
        let view = nth(self.threads, thread);
        Engine {
            global: succ(self.global),
            seq_cst: if level == Level::SeqCst {
                stamp_join(self.seq_cst, stamp_join(view.mem, self.seq_cst))
            } else {
                self.seq_cst
            },
            threads: put(self.threads, thread, self.fenced_view(thread, level, succ(self.global))),
            ..self
        }
    }

    /// The view of `thread` after an update of `addr` that succeeded at
    /// `success`.
    pub open spec fn updating_view(self, thread: usize, addr: usize, success: Level) -> ViewState {
        nth(self.threads, thread).after_read(self.newest(addr), success.load_side()).after_write(
            succ(self.global),
            addr,
            success.store_side(),
        )
    }

    /// The record that an update of `addr` by `thread` appends when it
    /// succeeds at `success` and writes `value`.
    ///
    /// After a Relaxed predecessor it publishes the thread's own stamps. After
    /// another it continues the release sequence: with release strength it
    /// publishes its own stamps merged with the predecessor's, without it the
    /// predecessor's alone.
    pub open spec fn updated(self, thread: usize, addr: usize, value: usize, success: Level) -> Record {
        let pred = self.newest(addr);
        let view = self.updating_view(thread, addr, success);
        let republishes = success == Level::Release || success == Level::AcqRel || success
            == Level::SeqCst;
        let source = if pred.level == Level::Relaxed {
            view.mem
        } else if republishes {
            stamp_join(view.mem, pred.source)
        } else {
            pred.source
        };
        let source_fence = if pred.level == Level::Relaxed {
            view.fence
        } else if republishes {
            view.fence.join(pred.source_fence)
        } else {
            pred.source_fence
        };
        Record {
            thread,
            thread_seq: view.seq,
            global: succ(self.global),
            level: success.store_side(),
            address: addr,
            value,
            release_chain: pred.level != Level::Relaxed,
            source,
            source_fence: if success.store_side() == Level::Relaxed {
                source_fence.masked()
            } else {
                source_fence
            },
        }
    }

    /// The state after an update of `addr` by `thread`: `outcome` is the new
    /// value where the update goes through, `None` where it fails. A failed
    /// update only reads the newest record, at `failure`.
    pub open spec fn after_update(
        self,
        thread: usize,
        addr: usize,
        outcome: Option<usize>,
        success: Level,
        failure: Level,
    ) -> Engine {
        match outcome {
            None => self.with_view(
                thread,
                nth(self.threads, thread).after_read(self.newest(addr), failure),
            ),
            Some(value) => Engine {
                global: succ(self.global),
                threads: put(self.threads, thread, self.updating_view(thread, addr, success)),
                log: self.log.push(self.updated(thread, addr, value, success)),
                ..self
            },
        }
    }

    /// What an update reports: the value it read, as a success where it went
    /// through and as a failure where it did not.
    pub open spec fn update_result(self, addr: usize, outcome: Option<usize>) -> Result<
        usize,
        usize,
    > {
        match outcome {
            Some(_) => Ok(self.newest(addr).value),
            None => Err(self.newest(addr).value),
        }
    }

    /// What a compare-and-exchange makes of the newest value of `addr`: `new`
    /// where that value is `current`, and no write where it is not.
    pub open spec fn exchange_outcome(self, addr: usize, current: usize, new: usize) -> Option<
        usize,
    > {
        if self.newest(addr).value == current {
            Some(new)
        } else {
            None
        }
    }

    /// Whether a weak compare-and-exchange that drew `coin` fails without
    /// looking at the newest value: it does on an odd word, half of the time.
    pub open spec fn spurious(coin: u32) -> bool {
        coin % 2 == 1
    }

    /// The state after a weak compare-and-exchange that drew `coin`: that of
    /// a load at `failure` that drew `word` where it fails spuriously, that
    /// of a compare-and-exchange where it does not.
    pub open spec fn after_weak_exchange(
        self,
        thread: usize,
        addr: usize,
        current: usize,
        new: usize,
        success: Level,
        failure: Level,
        coin: u32,
        word: u32,
    ) -> Engine {
        if Self::spurious(coin) {
            self.after_load(thread, addr, failure, word)
        } else {
            self.after_update(
                thread,
                addr,
                self.exchange_outcome(addr, current, new),
                success,
                failure,
            )
        }
    }

    /// What a weak compare-and-exchange that drew `coin` reports: the value
    /// loaded, as a failure, where it fails spuriously, and what a
    /// compare-and-exchange reports where it does not.
    pub open spec fn weak_exchange_result(
        self,
        thread: usize,
        addr: usize,
        current: usize,
        new: usize,
        failure: Level,
        coin: u32,
        word: u32,
    ) -> Result<usize, usize> {
        if Self::spurious(coin) {
            Err(self.chosen(thread, addr, failure, word).value)
        } else {
            self.update_result(addr, self.exchange_outcome(addr, current, new))
        }
    }

    /// The next word of the random stream.
    pub open spec fn drawn(self) -> u32 {
        chacha8_word(self.seed, self.draws)
    }

    /// The state after a weak compare-and-exchange that draws its words from
    /// the random stream: the coin first, then, where the coin makes it fail
    /// spuriously, the word of the load.
    pub open spec fn after_weak_exchange_drawn(
        self,
        thread: usize,
        addr: usize,
        current: usize,
        new: usize,
        success: Level,
        failure: Level,
    ) -> Engine {
        if Self::spurious(self.drawn()) {
            self.after_draw().after_load(
                thread,
                addr,
                failure,
                self.after_draw().drawn(),
            ).after_draw()
        } else {
            self.after_draw().after_update(
                thread,
                addr,
                self.exchange_outcome(addr, current, new),
                success,
                failure,
            )
        }
    }

    /// What a weak compare-and-exchange that draws its words from the random
    /// stream reports.
    pub open spec fn weak_exchange_result_drawn(
        self,
        thread: usize,
        addr: usize,
        current: usize,
        new: usize,
        failure: Level,
    ) -> Result<usize, usize> {
        self.weak_exchange_result(
            thread,
            addr,
            current,
            new,
            failure,
            self.drawn(),
            self.after_draw().drawn(),
        )
    }

    /// The state after a fetch-and-update of `addr` by `thread`, and what it
    /// reports, where `g` makes the new value of the one read.
    ///
    /// Each round loads `addr` at `fetch`. Where `g` has no new value for
    /// the value loaded, that value comes back as a failure. Where it has
    /// one, a weak compare-and-exchange tries to write it at `set`: the
    /// value loaded comes back as a success where that goes through, and
    /// another round follows where it fails. A round draws up to three
    /// words; once the random stream has fewer left, the update reads the
    /// newest value itself, as a round does whose load picks the newest
    /// record and whose exchange does not fail spuriously.
    pub open spec fn after_fetch_update(
        self,
        thread: usize,
        addr: usize,
        g: spec_fn(usize) -> Option<usize>,
        set: Level,
        fetch: Level,
    ) -> (Engine, Result<usize, usize>)
        decreases u64::MAX - self.draws,
    {
        if self.draws > u64::MAX - 3 {
            let outcome = g(self.newest(addr).value);
            (
                self.after_update(thread, addr, outcome, set, fetch),
                self.update_result(addr, outcome),
            )
        } else {
            let loaded = self.after_load(thread, addr, fetch, self.drawn()).after_draw();
            let current = self.chosen(thread, addr, fetch, self.drawn()).value;
            match g(current) {
                None => (loaded, Err(current)),
                Some(new) => {
                    let tried = loaded.after_weak_exchange_drawn(
                        thread,
                        addr,
                        current,
                        new,
                        set,
                        fetch,
                    );
                    if loaded.weak_exchange_result_drawn(thread, addr, current, new, fetch) is Ok {
                        (tried, Ok(current))
                    } else {
                        tried.after_fetch_update(thread, addr, g, set, fetch)
                    }
                },
            }
        }
    }

    /// A store by `thread` to `addr` at `level` is in order.
    pub open spec fn can_store(self, thread: usize, addr: usize, level: Level) -> bool {
        &&& self.wf()
        &&& thread < self.threads.len()
        &&& addr < self.genesis.len()
        &&& level.for_store()
        &&& self.global < usize::MAX
    }

    /// A load by `thread` of `addr` at `level` is in order.
    pub open spec fn can_load(self, thread: usize, addr: usize, level: Level) -> bool {
        &&& self.wf()
        &&& thread < self.threads.len()
        &&& addr < self.genesis.len()
        &&& level.for_load()
    }

    /// A fence of `thread` at `level` is in order.
    pub open spec fn can_fence(self, thread: usize, level: Level) -> bool {
        &&& self.wf()
        &&& thread < self.threads.len()
        &&& level.for_fence()
        &&& self.global < usize::MAX
    }

    /// An update of `addr` by `thread` that fails at `failure` is in order.
    pub open spec fn can_update(self, thread: usize, addr: usize, failure: Level) -> bool {
        &&& self.wf()
        &&& thread < self.threads.len()
        &&& addr < self.genesis.len()
        &&& failure.for_load()
        &&& self.global < usize::MAX
    }

    /// An allocation of `size` addresses is in order.
    pub open spec fn can_allocate(self, size: usize) -> bool {
        &&& self.wf()
        &&& self.genesis.len() + size <= usize::MAX
    }

    /// The state `end` differs from this state in the view of `thread` and
    /// in the place in the random stream at most.
    pub open spec fn same_but_view(self, end: Engine, thread: usize) -> bool {
        &&& end.global == self.global
        &&& end.seq_cst == self.seq_cst
        &&& end.log == self.log
        &&& end.genesis == self.genesis
        &&& end.seed == self.seed
        &&& end.threads.len() == self.threads.len()
        &&& forall|t: int|
            0 <= t < self.threads.len() && t != thread ==> #[trigger] end.threads[t]
                == self.threads[t]
    }

    /// The ticket that no stamp may pass for `addr`: that of its newest
    /// record.
    pub open spec fn cap(self, addr: usize) -> usize {
        if addr < self.genesis.len() {
            self.newest(addr).global
        } else {
            0
        }
    }

    /// A stamp that knows of no write that was not made.
    pub open spec fn bounded(self, stamp: Map<usize, usize>) -> bool {
        forall|a: usize| #[trigger] stamp_at(stamp, a) <= self.cap(a)
    }

    /// A fence stamp that is bounded in both channels.
    pub open spec fn bounded_pair(self, pair: FenceStamp) -> bool {
        self.bounded(pair.atomic) && self.bounded(pair.fence)
    }

    /// What holds of every record of the log.
    pub open spec fn record_ok(self, r: Record) -> bool {
        &&& r.address < self.genesis.len()
        &&& r.thread < self.threads.len()
        &&& 0 < r.global <= self.global
        &&& 0 < r.thread_seq <= nth(self.threads, r.thread).seq
        &&& r.level != Level::AcqRel
        &&& r.knows_itself_newest()
        &&& self.bounded(r.source)
        &&& self.bounded_pair(r.source_fence)
    }

    /// What holds of every thread view.
    pub open spec fn view_ok(self, v: ViewState) -> bool {
        &&& v.seq <= self.global
        &&& v.min_seq_cst <= self.global
        &&& self.bounded(v.mem)
        &&& self.bounded_pair(v.fence)
        &&& self.bounded_pair(v.read_fence)
    }

    /// The well-formed states: every address has its initial record, the
    /// tickets of the log rise strictly, the records of each thread stand in
    /// the order of its own counter, a record continues a release sequence
    /// only after a record that is not Relaxed, and no stamp knows of a write
    /// that was not made.
    pub open spec fn wf(self) -> bool {
        &&& forall|a: int|
            0 <= a < self.genesis.len() ==> (#[trigger] self.genesis[a]).is_genesis()
                && self.genesis[a].address == a
        &&& forall|i: int| 0 <= i < self.log.len() ==> self.record_ok(#[trigger] self.log[i])
        &&& rising(self.log)
        &&& in_program_order(self.log)
        &&& forall|a: usize| a < self.genesis.len() ==> #[trigger] chained(self.genesis, self.log, a)
        &&& forall|t: int| 0 <= t < self.threads.len() ==> self.view_ok(#[trigger] self.threads[t])
        &&& self.bounded(self.seq_cst)
    }
}

} // verus!
