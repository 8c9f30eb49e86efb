//! What holds of every run of the engine.

use crate::event::Event;
use crate::fence_stamp::FenceStamp;
use crate::growth::{lemma_read_grows, lemma_run, lemma_step, lemma_write_grows};
use crate::history::{
    history, lemma_history_members, lemma_top_ticket_bounds, rising, seq_cst_writes_to,
};
use crate::index::{nth, succ};
use crate::level::Level;
use crate::model::Engine;
use crate::record::Record;
use crate::stamp::{
    lemma_le_into_join, lemma_le_join, lemma_le_reflexive, lemma_le_transitive, stamp_at,
    stamp_join, stamp_le,
};
use crate::wellformed::{lemma_candidates, lemma_cap_within_global, lemma_newest};
use vstd::prelude::*;

verus! {

impl Engine {
    /// The event is a store, a load or an update of `addr` by `thread`.
    pub open spec fn touches(e: Event, thread: usize, addr: usize) -> bool {
        match e {
            Event::Store { thread: t, addr: a, .. } => t == thread && a == addr,
            Event::Load { thread: t, addr: a, .. } => t == thread && a == addr,
            Event::Update { thread: t, addr: a, .. } => t == thread && a == addr,
            _ => false,
        }
    }

    /// The ticket of the record that the event reads or appends: for a
    /// store and for an update that goes through the next ticket, for a
    /// load that of the record read, for a failed update that of the newest
    /// record.
    pub open spec fn observed(self, e: Event) -> usize {
        match e {
            Event::Store { .. } => succ(self.global),
            Event::Load { thread, addr, level, word } => self.chosen(
                thread,
                addr,
                level,
                word,
            ).global,
            Event::Update { addr, outcome, .. } => if outcome is Some {
                succ(self.global)
            } else {
                self.newest(addr).global
            },
            _ => 0,
        }
    }

    /// What `thread` knows.
    pub open spec fn knows(self, thread: usize) -> Map<usize, usize> {
        nth(self.threads, thread).mem
    }

    /// In the state `end`, `thread` has read `rec` and nothing else has
    /// happened: `rec` is a record of `addr` that is no older than what the
    /// thread knew of `addr`, the thread now knows of `addr` exactly the
    /// ticket of `rec`, no view has lost anything, and all but the view of
    /// `thread` and the place in the random stream is as it was.
    pub open spec fn reads(self, end: Engine, thread: usize, addr: usize, rec: Record) -> bool {
        &&& rec.address == addr
        &&& self.history(addr).contains(rec)
        &&& stamp_at(self.knows(thread), addr) <= rec.global
        &&& stamp_at(end.knows(thread), addr) == rec.global
        &&& self.same_but_view(end, thread)
        &&& end.follows(self)
    }

    /// In the state `end`, `thread` has written `rec` to `addr` and nothing
    /// else has happened: `rec` is the one new record of the log, the newest
    /// in the modification order of `addr`, and holds the next ticket, the thread now knows of `addr` exactly that ticket,
    /// no view has lost anything, and the initial records, what the SeqCst
    /// fences know and the views of the other threads are as they were.
    pub open spec fn writes(self, end: Engine, thread: usize, addr: usize, rec: Record) -> bool {
        &&& end.log == self.log.push(rec)
        &&& end.history(addr) == self.history(addr).push(rec)
        &&& rec.address == addr
        &&& rec.thread == thread
        &&& rec.global == succ(self.global)
        &&& end.global == succ(self.global)
        &&& stamp_at(end.knows(thread), addr) == rec.global
        &&& end.seq_cst == self.seq_cst
        &&& end.genesis == self.genesis
        &&& end.seed == self.seed
        &&& end.threads.len() == self.threads.len()
        &&& forall|t: int|
            0 <= t < self.threads.len() && t != thread ==> #[trigger] end.threads[t]
                == self.threads[t]
        &&& end.follows(self)
    }

    /// In the state `end`, `thread` has updated `addr` and nothing else has
    /// happened: without an outcome it has read the newest record, with one
    /// it has written a record that holds the outcome.
    pub open spec fn updates(
        self,
        end: Engine,
        thread: usize,
        addr: usize,
        outcome: Option<usize>,
        success: Level,
    ) -> bool {
        match outcome {
            None => self.reads(end, thread, addr, self.newest(addr)),
            Some(value) => {
                &&& self.writes(end, thread, addr, self.updated(thread, addr, value, success))
                &&& self.updated(thread, addr, value, success).value == value
            },
        }
    }

    /// The state `end` and the report `r` are those of one update of `addr`
    /// by `thread` that started in this state, with `g` making the new
    /// value: `end` is well formed and comes after this state; a success
    /// reports the value that was the newest, and the one new record of the
    /// log holds what `g` makes of it; a failure reports a value for which
    /// `g` has no new value, and leaves the log as it was.
    pub open spec fn updated_once(
        self,
        end: Engine,
        r: Result<usize, usize>,
        thread: usize,
        addr: usize,
        g: spec_fn(usize) -> Option<usize>,
    ) -> bool {
        &&& end.wf()
        &&& end.follows(self)
        &&& end.seed == self.seed
        &&& match r {
            Ok(v) => {
                &&& v == self.newest(addr).value
                &&& g(v) is Some
                &&& end.global == succ(self.global)
                &&& end.log.len() == self.log.len() + 1
                &&& end.log.last().value == g(v)->0
                &&& end.log.last().address == addr
                &&& end.log.last().thread == thread
                &&& end.log.last().global == end.global
            },
            Err(v) => g(v) is None && end.log == self.log && end.global == self.global,
        }
    }
}

/// A load reads a record of the address that is no older than what its
/// thread knows of the address.
pub proof fn lemma_load_reads_known(e: Engine, thread: usize, addr: usize, level: Level, word: u32)
    requires
        e.can_load(thread, addr, level),
    ensures
        e.chosen(thread, addr, level, word).address == addr,
        e.chosen(thread, addr, level, word).global >= stamp_at(e.knows(thread), addr),
        e.chosen(thread, addr, level, word).global >= e.seq_cst_floor(thread, addr, level),
        e.history(addr).contains(e.chosen(thread, addr, level, word)),
{
    lemma_candidates(e, thread, addr, level);
    let c = e.candidates(thread, addr, level);
    let k = (word as int) % (c.len() as int);
    assert(e.chosen(thread, addr, level, word) == c[k]);
}

/// What a thread knows, it knows after every run, and a load after the run
/// reads no record older than it.
pub proof fn lemma_known_stays(
    e: Engine,
    run: Seq<Event>,
    thread: usize,
    known: Map<usize, usize>,
    addr: usize,
    level: Level,
    word: u32,
)
    requires
        e.wf(),
        thread < e.threads.len(),
        stamp_le(known, e.knows(thread)),
        e.admits_all(run),
        e.after_all(run).can_load(thread, addr, level),
    ensures
        stamp_le(known, e.after_all(run).knows(thread)),
        e.after_all(run).chosen(thread, addr, level, word).global >= stamp_at(known, addr),
{
    let end = e.after_all(run);
    lemma_run(e, run);
    assert(nth(e.threads, thread).le(nth(end.threads, thread)));
    lemma_le_transitive(known, e.knows(thread), end.knows(thread));
    lemma_load_reads_known(end, thread, addr, level, word);
    assert(stamp_at(known, addr) <= stamp_at(end.knows(thread), addr));
}

/// A ticket that a thread knows of an address, it knows after every run,
/// and a load of the address after the run reads no record older than it.
pub proof fn lemma_ticket_stays(
    e: Engine,
    run: Seq<Event>,
    thread: usize,
    ticket: usize,
    addr: usize,
    level: Level,
    word: u32,
)
    requires
        e.wf(),
        thread < e.threads.len(),
        ticket <= stamp_at(e.knows(thread), addr),
        e.admits_all(run),
        e.after_all(run).can_load(thread, addr, level),
    ensures
        e.after_all(run).chosen(thread, addr, level, word).global >= ticket,
{
    let end = e.after_all(run);
    lemma_run(e, run);
    assert(nth(e.threads, thread).le(nth(end.threads, thread)));
    lemma_load_reads_known(end, thread, addr, level, word);
    assert(stamp_at(e.knows(thread), addr) <= stamp_at(end.knows(thread), addr));
}

/// Program order: once a thread has read or written an address, no later
/// load of the address by that thread reads a record with a lower ticket
/// than the one it read or wrote, whatever happens in between.
pub proof fn law_program_order(
    e: Engine,
    first: Event,
    between: Seq<Event>,
    thread: usize,
    addr: usize,
    level: Level,
    word: u32,
)
    requires
        e.admits(first),
        Engine::touches(first, thread, addr),
        e.after(first).admits_all(between),
        e.after(first).after_all(between).can_load(thread, addr, level),
    ensures
        e.after(first).after_all(between).chosen(thread, addr, level, word).global >= e.observed(
            first,
        ),
{
    let next = e.after(first);
    let v = nth(e.threads, thread);
    lemma_step(e, first);
    assert(stamp_at(next.knows(thread), addr) >= e.observed(first)) by {
        match first {
            Event::Store { thread: t, addr: a, value, level: l } => {
                assert(e.view_ok(v));
                assert(stamp_at(v.mem, addr) <= e.cap(addr));
                lemma_cap_within_global(e, addr);
                lemma_write_grows(v, succ(e.global), addr, l);
            },
            Event::Load { thread: t, addr: a, level: l, word: w } => {
                lemma_load_reads_known(e, thread, addr, l, w);
                lemma_read_grows(v, e.chosen(thread, addr, l, w), l);
            },
            Event::Update { thread: t, addr: a, outcome, success, failure } => {
                lemma_newest(e, addr);
                let pred = e.newest(addr);
                match outcome {
                    None => {
                        lemma_read_grows(v, pred, failure);
                    },
                    Some(value) => {
                        let read = v.after_read(pred, success.load_side());
                        assert(e.view_ok(v));
                        crate::wellformed::lemma_read_bounded(e, v, pred, success.load_side());
                        assert(stamp_at(read.mem, addr) <= e.cap(addr));
                        lemma_write_grows(read, succ(e.global), addr, success.store_side());
                    },
                }
            },
            _ => {},
        }
    }
    lemma_ticket_stays(next, between, thread, e.observed(first), addr, level, word);
}

/// The tickets of a modification order rise strictly.
pub proof fn lemma_history_rises(genesis: Seq<Record>, log: Seq<Record>, addr: usize, i: int, j: int)
    requires
        rising(log),
        forall|k: int| 0 <= k < log.len() ==> (#[trigger] log[k]).global > 0,
        nth(genesis, addr).global == 0,
        0 <= i < j < history(genesis, log, addr).len(),
    ensures
        history(genesis, log, addr)[i].global < history(genesis, log, addr)[j].global,
    decreases log.len(),
{
    let h = history(genesis, log, addr);
    if log.len() == 0 {
        log.lemma_filter_len(crate::history::writes_to(addr));
    } else {
        let init = log.drop_last();
        let r = log.last();
        assert(init.push(r) =~= log);
        crate::history::lemma_history_push(genesis, init, r, addr);
        let hi = history(genesis, init, addr);
        assert(rising(init)) by {
            assert forall|a: int, b: int| 0 <= a < b < init.len() implies (#[trigger] init[a]).global
                < (#[trigger] init[b]).global by {
                assert(log[a].global < log[b].global);
            }
        }
        assert forall|k: int| 0 <= k < init.len() implies (#[trigger] init[k]).global > 0 by {
            assert(log[k].global > 0);
        }
        if r.address == addr && j == h.len() - 1 {
            lemma_history_members(genesis, init, addr, i);
            if i > 0 {
                let m = choose|m: int| 0 <= m < init.len() && init[m] == hi[i];
                assert(log[m].global < log[log.len() - 1].global);
            } else {
                assert(log[log.len() - 1].global > 0);
            }
        } else {
            lemma_history_rises(genesis, init, addr, i, j);
        }
    }
}

/// Modification order: the records of an address stand in the order in
/// which they were appended, with strictly rising tickets.
pub proof fn law_modification_order(e: Engine, addr: usize, i: int, j: int)
    requires
        e.wf(),
        addr < e.genesis.len(),
        0 <= i < j < e.history(addr).len(),
    ensures
        e.history(addr)[i].global < e.history(addr)[j].global,
{
    assert forall|k: int| 0 <= k < e.log.len() implies (#[trigger] e.log[k]).global > 0 by {
        assert(e.record_ok(e.log[k]));
    }
    assert(nth(e.genesis, addr).is_genesis());
    lemma_history_rises(e.genesis, e.log, addr, i, j);
}

/// The log only grows: after every run it holds the records it held
/// before, in their places, and the state is well formed.
pub proof fn law_log_only_grows(e: Engine, run: Seq<Event>, i: int)
    requires
        e.wf(),
        e.admits_all(run),
        0 <= i < e.log.len(),
    ensures
        e.after_all(run).wf(),
        e.after_all(run).follows(e),
        i < e.after_all(run).log.len(),
        e.after_all(run).log[i] == e.log[i],
{
    lemma_run(e, run);
}

/// Release and acquire: when a load with acquire strength reads a record
/// that was written with release strength, or that continues a release
/// sequence, its thread knows all that the record publishes. No later load
/// by that thread, of any address, reads a record with a ticket below the
/// one that the record publishes for the address.
pub proof fn law_release_acquire(
    e: Engine,
    reader: usize,
    addr: usize,
    level: Level,
    word: u32,
    between: Seq<Event>,
    other: usize,
    other_level: Level,
    other_word: u32,
)
    requires
        e.can_load(reader, addr, level),
        level.acquires(),
        e.chosen(reader, addr, level, word).releasing(),
        e.after_load(reader, addr, level, word).admits_all(between),
        e.after_load(reader, addr, level, word).after_all(between).can_load(
            reader,
            other,
            other_level,
        ),
    ensures
        stamp_le(
            e.chosen(reader, addr, level, word).source,
            e.after_load(reader, addr, level, word).knows(reader),
        ),
        e.after_load(reader, addr, level, word).after_all(between).chosen(
            reader,
            other,
            other_level,
            other_word,
        ).global >= stamp_at(e.chosen(reader, addr, level, word).source, other),
{
    let rec = e.chosen(reader, addr, level, word);
    let next = e.after_load(reader, addr, level, word);
    let v = nth(e.threads, reader);
    lemma_step(e, Event::Load { thread: reader, addr, level, word });
    lemma_acquire_takes_source(v, rec, level);
    lemma_known_stays(next, between, reader, rec.source, other, other_level, other_word);
}

/// A read with acquire strength of a record that releases leaves the view
/// knowing all that the record publishes.
pub proof fn lemma_acquire_takes_source(v: crate::thread_view::ViewState, rec: Record, level: Level)
    requires
        level.acquires(),
        rec.releasing(),
    ensures
        stamp_le(rec.source, v.after_read(rec, level).mem),
{
    lemma_le_join(v.mem, rec.source);
    lemma_le_into_join(rec.source, stamp_join(v.mem, rec.source), rec.source_fence.fence);
    crate::stamp::lemma_le_raise(v.acquired(rec, level), rec.address, rec.global);
    lemma_le_transitive(rec.source, v.acquired(rec, level), v.after_read(rec, level).mem);
}

/// A store publishes what its thread knows: all that it knew before, and
/// the store itself.
pub proof fn law_store_publishes(e: Engine, thread: usize, addr: usize, value: usize, level: Level)
    requires
        e.can_store(thread, addr, level),
    ensures
        e.after_store(thread, addr, value, level).log.last() == e.stored(
            thread,
            addr,
            value,
            level,
        ),
        stamp_le(e.knows(thread), e.stored(thread, addr, value, level).source),
        stamp_at(e.stored(thread, addr, value, level).source, addr) == succ(e.global),
        !e.stored(thread, addr, value, level).release_chain,
        e.stored(thread, addr, value, level).releasing() == level.releases(),
{
    let v = nth(e.threads, thread);
    assert(e.view_ok(v));
    assert(stamp_at(v.mem, addr) <= e.cap(addr));
    lemma_cap_within_global(e, addr);
    lemma_write_grows(v, succ(e.global), addr, level);
}

/// Release sequences: an update that goes through after a predecessor that
/// is not Relaxed continues the release sequence, whatever its own level.
/// Its record publishes at least what the predecessor published, so a load
/// with acquire strength that reads it knows all that the predecessor
/// published, and no later load by that thread reads a record with a ticket
/// below the one that the predecessor published for the address.
pub proof fn law_release_sequence(
    e: Engine,
    thread: usize,
    addr: usize,
    value: usize,
    success: Level,
    failure: Level,
    before: Seq<Event>,
    reader: usize,
    level: Level,
    word: u32,
    between: Seq<Event>,
    other: usize,
    other_level: Level,
    other_word: u32,
)
    requires
        e.can_update(thread, addr, failure),
        e.newest(addr).level != Level::Relaxed,
        e.after_update(thread, addr, Some(value), success, failure).admits_all(before),
        ({
            let read = e.after_update(thread, addr, Some(value), success, failure).after_all(
                before,
            );
            &&& read.can_load(reader, addr, level)
            &&& level.acquires()
            &&& read.chosen(reader, addr, level, word) == e.updated(thread, addr, value, success)
            &&& read.after_load(reader, addr, level, word).admits_all(between)
            &&& read.after_load(reader, addr, level, word).after_all(between).can_load(
                reader,
                other,
                other_level,
            )
        }),
    ensures
        e.updated(thread, addr, value, success).release_chain,
        stamp_le(e.newest(addr).source, e.updated(thread, addr, value, success).source),
        e.after_update(thread, addr, Some(value), success, failure).after_all(before).after_load(
            reader,
            addr,
            level,
            word,
        ).after_all(between).chosen(reader, other, other_level, other_word).global >= stamp_at(
            e.newest(addr).source,
            other,
        ),
{
    let pred = e.newest(addr);
    let rec = e.updated(thread, addr, value, success);
    let read = e.after_update(thread, addr, Some(value), success, failure).after_all(before);
    lemma_le_reflexive(pred.source);
    lemma_le_join(e.updating_view(thread, addr, success).mem, pred.source);
    law_release_acquire(read, reader, addr, level, word, between, other, other_level, other_word);
    assert(stamp_at(pred.source, other) <= stamp_at(rec.source, other));
}

/// The number of draws in a run.
pub open spec fn draws_in(run: Seq<Event>) -> nat
    decreases run.len(),
{
    if run.len() == 0 {
        0
    } else if run[0] is Draw {
        1 + draws_in(run.drop_first())
    } else {
        draws_in(run.drop_first())
    }
}

/// A run can be cut in two at any place: the second part starts where the
/// first part ends.
pub proof fn lemma_run_split(e: Engine, run: Seq<Event>, k: int)
    requires
        e.admits_all(run),
        0 <= k <= run.len(),
    ensures
        e.admits_all(run.take(k)),
        e.after_all(run.take(k)).admits_all(run.skip(k)),
        e.after_all(run) == e.after_all(run.take(k)).after_all(run.skip(k)),
    decreases k,
{
    if k == 0 {
        assert(run.skip(0) =~= run);
    } else {
        let rest = run.drop_first();
        lemma_run_split(e.after(run[0]), rest, k - 1);
        assert(run.take(k).drop_first() =~= rest.take(k - 1));
        assert(run.skip(k) =~= rest.skip(k - 1));
        assert(run.take(k)[0] == run[0]);
    }
}

/// The state before the event at place `k` of a run admits that event, and
/// the state before a later place `m` is the state after the event and
/// after the events between the two places.
pub proof fn lemma_run_between(e: Engine, run: Seq<Event>, k: int, m: int)
    requires
        e.wf(),
        e.admits_all(run),
        0 <= k < m <= run.len(),
    ensures
        e.after_all(run.take(k)).wf(),
        e.after_all(run.take(k)).admits(run[k]),
        e.after_all(run.take(k)).after(run[k]).admits_all(run.subrange(k + 1, m)),
        e.after_all(run.take(m)) == e.after_all(run.take(k)).after(run[k]).after_all(
            run.subrange(k + 1, m),
        ),
{
    lemma_run_split(e, run, m);
    let head = run.take(m);
    lemma_run_split(e, head, k);
    assert(head.take(k) =~= run.take(k));
    let tail = head.skip(k);
    assert(tail[0] == run[k]);
    assert(tail.drop_first() =~= run.subrange(k + 1, m));
    lemma_run(e, run.take(k));
}

/// A read with acquire strength leaves the view knowing all that the
/// fence channel of the record holds.
pub proof fn lemma_acquire_takes_fence(v: crate::thread_view::ViewState, rec: Record, level: Level)
    requires
        level.acquires(),
    ensures
        stamp_le(rec.source_fence.fence, v.after_read(rec, level).mem),
{
    lemma_le_join(v.mem, rec.source_fence.fence);
    lemma_le_join(stamp_join(v.mem, rec.source), rec.source_fence.fence);
    crate::stamp::lemma_le_raise(v.acquired(rec, level), rec.address, rec.global);
    lemma_le_transitive(
        rec.source_fence.fence,
        v.acquired(rec, level),
        v.after_read(rec, level).mem,
    );
}

/// A fence with release strength lets the fence channel of its thread take
/// over all that the thread knows.
pub proof fn lemma_release_fence_takes(e: Engine, thread: usize, level: Level)
    requires
        e.can_fence(thread, level),
        level != Level::Acquire,
    ensures
        stamp_le(e.knows(thread), nth(e.after_fence(thread, level).threads, thread).fence.fence),
{
    let v = nth(e.threads, thread);
    lemma_le_reflexive(v.mem);
    lemma_le_join(v.mem, e.seq_cst);
    lemma_le_into_join(v.mem, v.fence.fence, v.mem);
    lemma_le_into_join(v.mem, v.fence.fence, stamp_join(v.mem, e.seq_cst));
}

/// A fence with acquire strength lets its thread know all that its reads
/// have gathered.
pub proof fn lemma_acquire_fence_takes(e: Engine, thread: usize, level: Level)
    requires
        e.can_fence(thread, level),
        level != Level::Release,
    ensures
        nth(e.threads, thread).read_fence.le(
            FenceStamp {
                atomic: e.after_fence(thread, level).knows(thread),
                fence: e.after_fence(thread, level).knows(thread),
            },
        ),
{
    let v = nth(e.threads, thread);
    let met = stamp_join(v.mem, e.seq_cst);
    lemma_le_join(v.mem, v.read_fence.fence);
    lemma_le_join(met, v.read_fence.fence);
    lemma_le_join(stamp_join(v.mem, v.read_fence.fence), v.read_fence.atomic);
    lemma_le_join(stamp_join(met, v.read_fence.fence), v.read_fence.atomic);
    lemma_le_into_join(
        v.read_fence.fence,
        stamp_join(v.mem, v.read_fence.fence),
        v.read_fence.atomic,
    );
    lemma_le_into_join(
        v.read_fence.fence,
        stamp_join(met, v.read_fence.fence),
        v.read_fence.atomic,
    );
}

/// Fence and atomic: what a thread knows when it passes a fence with
/// release strength rides every store that it makes afterwards, at any
/// level. A load with acquire strength that reads such a store knows it
/// all, and no later load by that thread reads a record with a ticket below
/// the one that the writer knew for the address at its fence.
pub proof fn law_fence_atomic(
    e: Engine,
    writer: usize,
    fence_level: Level,
    before: Seq<Event>,
    addr: usize,
    value: usize,
    store_level: Level,
    between: Seq<Event>,
    reader: usize,
    level: Level,
    word: u32,
    after: Seq<Event>,
    other: usize,
    other_level: Level,
    other_word: u32,
)
    requires
        e.can_fence(writer, fence_level),
        fence_level != Level::Acquire,
        e.after_fence(writer, fence_level).admits_all(before),
        ({
            let fenced = e.after_fence(writer, fence_level).after_all(before);
            &&& fenced.can_store(writer, addr, store_level)
            &&& fenced.after_store(writer, addr, value, store_level).admits_all(between)
            &&& ({
                let read = fenced.after_store(writer, addr, value, store_level).after_all(
                    between,
                );
                &&& read.can_load(reader, addr, level)
                &&& level.acquires()
                &&& read.chosen(reader, addr, level, word) == fenced.stored(
                    writer,
                    addr,
                    value,
                    store_level,
                )
                &&& read.after_load(reader, addr, level, word).admits_all(after)
                &&& read.after_load(reader, addr, level, word).after_all(after).can_load(
                    reader,
                    other,
                    other_level,
                )
            })
        }),
    ensures
        e.after_fence(writer, fence_level).after_all(before).after_store(
            writer,
            addr,
            value,
            store_level,
        ).after_all(between).after_load(reader, addr, level, word).after_all(after).chosen(
            reader,
            other,
            other_level,
            other_word,
        ).global >= stamp_at(e.knows(writer), other),
{
    let known = e.knows(writer);
    let first = e.after_fence(writer, fence_level);
    let fenced = first.after_all(before);
    let rec = fenced.stored(writer, addr, value, store_level);
    let read = fenced.after_store(writer, addr, value, store_level).after_all(between);
    let got = read.after_load(reader, addr, level, word);
    lemma_release_fence_takes(e, writer, fence_level);
    lemma_step(e, Event::Fence { thread: writer, level: fence_level });
    lemma_run(first, before);
    assert(nth(first.threads, writer).le(nth(fenced.threads, writer)));
    lemma_le_transitive(
        known,
        nth(first.threads, writer).fence.fence,
        nth(fenced.threads, writer).fence.fence,
    );
    assert(rec.source_fence.fence == nth(fenced.threads, writer).fence.fence);
    lemma_acquire_takes_fence(nth(read.threads, reader), rec, level);
    lemma_le_transitive(known, rec.source_fence.fence, got.knows(reader));
    lemma_step(read, Event::Load { thread: reader, addr, level, word });
    lemma_known_stays(got, after, reader, known, other, other_level, other_word);
}

/// Atomic and fence: when a load at any level reads a store that was made
/// with release strength and its thread later passes a fence with acquire
/// strength, the thread knows all that the store published. No later load
/// by that thread reads a record with a ticket below the one that the store
/// published for the address.
pub proof fn law_atomic_fence(
    e: Engine,
    writer: usize,
    addr: usize,
    value: usize,
    store_level: Level,
    before: Seq<Event>,
    reader: usize,
    level: Level,
    word: u32,
    between: Seq<Event>,
    fence_level: Level,
    after: Seq<Event>,
    other: usize,
    other_level: Level,
    other_word: u32,
)
    requires
        e.can_store(writer, addr, store_level),
        store_level.releases(),
        e.after_store(writer, addr, value, store_level).admits_all(before),
        ({
            let read = e.after_store(writer, addr, value, store_level).after_all(before);
            &&& read.can_load(reader, addr, level)
            &&& read.chosen(reader, addr, level, word) == e.stored(
                writer,
                addr,
                value,
                store_level,
            )
            &&& read.after_load(reader, addr, level, word).admits_all(between)
            &&& ({
                let met = read.after_load(reader, addr, level, word).after_all(between);
                &&& met.can_fence(reader, fence_level)
                &&& fence_level != Level::Release
                &&& met.after_fence(reader, fence_level).admits_all(after)
                &&& met.after_fence(reader, fence_level).after_all(after).can_load(
                    reader,
                    other,
                    other_level,
                )
            })
        }),
    ensures
        e.after_store(writer, addr, value, store_level).after_all(before).after_load(
            reader,
            addr,
            level,
            word,
        ).after_all(between).after_fence(reader, fence_level).after_all(after).chosen(
            reader,
            other,
            other_level,
            other_word,
        ).global >= stamp_at(e.stored(writer, addr, value, store_level).source, other),
{
    let rec = e.stored(writer, addr, value, store_level);
    let read = e.after_store(writer, addr, value, store_level).after_all(before);
    let got = read.after_load(reader, addr, level, word);
    let met = got.after_all(between);
    let fenced = met.after_fence(reader, fence_level);
    let w = nth(e.threads, writer).after_write(succ(e.global), addr, store_level);
    lemma_le_join(nth(e.threads, writer).fence.atomic, w.mem);
    assert(stamp_le(rec.source, rec.source_fence.atomic));
    lemma_le_join(nth(read.threads, reader).read_fence.atomic, rec.source_fence.atomic);
    lemma_le_transitive(
        rec.source,
        rec.source_fence.atomic,
        nth(got.threads, reader).read_fence.atomic,
    );
    lemma_step(read, Event::Load { thread: reader, addr, level, word });
    lemma_run(got, between);
    assert(nth(got.threads, reader).le(nth(met.threads, reader)));
    lemma_le_transitive(
        rec.source,
        nth(got.threads, reader).read_fence.atomic,
        nth(met.threads, reader).read_fence.atomic,
    );
    lemma_acquire_fence_takes(met, reader, fence_level);
    lemma_le_transitive(
        rec.source,
        nth(met.threads, reader).read_fence.atomic,
        fenced.knows(reader),
    );
    lemma_step(met, Event::Fence { thread: reader, level: fence_level });
    lemma_known_stays(fenced, after, reader, rec.source, other, other_level, other_word);
}

/// Sequential consistency: a SeqCst load reads no record older than any
/// SeqCst write to the address that stands in the log.
pub proof fn law_seq_cst_order(e: Engine, reader: usize, addr: usize, word: u32, i: int)
    requires
        e.can_load(reader, addr, Level::SeqCst),
        0 <= i < e.log.len(),
        e.log[i].address == addr,
        e.log[i].level == Level::SeqCst,
    ensures
        e.chosen(reader, addr, Level::SeqCst, word).global >= e.log[i].global,
{
    lemma_load_reads_known(e, reader, addr, Level::SeqCst, word);
    let f = e.log.filter(seq_cst_writes_to(addr));
    e.log.lemma_filter_contains(seq_cst_writes_to(addr), i);
    let k = choose|k: int| 0 <= k < f.len() && f[k] == e.log[i];
    lemma_top_ticket_bounds(f, k);
}

/// Sequential consistency: once a SeqCst store is made, every SeqCst load
/// of the address, by any thread, reads that store or a newer record.
pub proof fn law_seq_cst_store_visible(
    e: Engine,
    writer: usize,
    addr: usize,
    value: usize,
    between: Seq<Event>,
    reader: usize,
    word: u32,
)
    requires
        e.can_store(writer, addr, Level::SeqCst),
        e.after_store(writer, addr, value, Level::SeqCst).admits_all(between),
        e.after_store(writer, addr, value, Level::SeqCst).after_all(between).can_load(
            reader,
            addr,
            Level::SeqCst,
        ),
    ensures
        e.after_store(writer, addr, value, Level::SeqCst).after_all(between).chosen(
            reader,
            addr,
            Level::SeqCst,
            word,
        ).global >= succ(e.global),
{
    let next = e.after_store(writer, addr, value, Level::SeqCst);
    let end = next.after_all(between);
    lemma_step(e, Event::Store { thread: writer, addr, value, level: Level::SeqCst });
    lemma_run(next, between);
    let i = e.log.len() as int;
    assert(next.log[i] == e.stored(writer, addr, value, Level::SeqCst));
    assert(end.log[i] == next.log[i]);
    law_seq_cst_order(end, reader, addr, word, i);
}

/// The store buffer: where two threads each make a SeqCst store and then a
/// SeqCst load of the address that the other stores to, in any order of
/// the four and with anything in between, at least one of the loads reads
/// the store of the other thread or a newer record. Both reading older
/// values does not happen.
pub proof fn law_store_buffer(
    e: Engine,
    run: Seq<Event>,
    left: usize,
    right: usize,
    a: usize,
    b: usize,
    store_left: int,
    load_left: int,
    store_right: int,
    load_right: int,
)
    requires
        e.wf(),
        e.admits_all(run),
        0 <= store_left < load_left < run.len(),
        0 <= store_right < load_right < run.len(),
        run[store_left] matches Event::Store { thread, addr, level, .. } && thread == left && addr
            == a && level == Level::SeqCst,
        run[load_left] matches Event::Load { thread, addr, level, .. } && thread == left && addr
            == b && level == Level::SeqCst,
        run[store_right] matches Event::Store { thread, addr, level, .. } && thread == right
            && addr == b && level == Level::SeqCst,
        run[load_right] matches Event::Load { thread, addr, level, .. } && thread == right && addr
            == a && level == Level::SeqCst,
    ensures
        e.after_all(run.take(load_left)).observed(run[load_left]) >= e.after_all(
            run.take(store_right),
        ).observed(run[store_right]) || e.after_all(run.take(load_right)).observed(
            run[load_right],
        ) >= e.after_all(run.take(store_left)).observed(run[store_left]),
{
    if store_left < load_right {
        lemma_store_then_load(e, run, store_left, load_right);
    } else {
        lemma_store_then_load(e, run, store_right, load_left);
    }
}

/// Within a run, a SeqCst load that comes after a SeqCst store to its
/// address reads that store or a newer record.
pub proof fn lemma_store_then_load(e: Engine, run: Seq<Event>, k: int, m: int)
    requires
        e.wf(),
        e.admits_all(run),
        0 <= k < m < run.len(),
        run[k] is Store,
        run[m] is Load,
        run[k]->Store_level == Level::SeqCst,
        run[m]->Load_level == Level::SeqCst,
        run[k]->Store_addr == run[m]->Load_addr,
    ensures
        e.after_all(run.take(m)).observed(run[m]) >= e.after_all(run.take(k)).observed(run[k]),
{
    lemma_run_between(e, run, k, m);
    lemma_run_split(e, run, m);
    let at = e.after_all(run.take(k));
    assert(run.skip(m)[0] == run[m]);
    match run[k] {
        Event::Store { thread: writer, addr, value, level } => {
            match run[m] {
                Event::Load { thread: reader, addr: read, level: l, word } => {
                    law_seq_cst_store_visible(
                        at,
                        writer,
                        addr,
                        value,
                        run.subrange(k + 1, m),
                        reader,
                        word,
                    );
                },
                _ => {},
            }
        },
        _ => {},
    }
}

/// The SeqCst floor: a SeqCst load reads no record older than the newest
/// SeqCst write to the address, nor older than what the SeqCst fences have
/// made known of it.
pub proof fn law_seq_cst_floor(e: Engine, reader: usize, addr: usize, word: u32)
    requires
        e.can_load(reader, addr, Level::SeqCst),
    ensures
        e.chosen(reader, addr, Level::SeqCst, word).global >= e.newest_seq_cst(addr),
        e.chosen(reader, addr, Level::SeqCst, word).global >= stamp_at(e.seq_cst, addr),
{
    lemma_load_reads_known(e, reader, addr, Level::SeqCst, word);
}

/// The SeqCst floor: what a thread knows when it passes a SeqCst fence is
/// known to every later SeqCst load, by any thread: none reads a record
/// with a ticket below the one that the thread knew for the address.
pub proof fn law_seq_cst_fence_publishes(
    e: Engine,
    thread: usize,
    between: Seq<Event>,
    reader: usize,
    addr: usize,
    word: u32,
)
    requires
        e.can_fence(thread, Level::SeqCst),
        e.after_fence(thread, Level::SeqCst).admits_all(between),
        e.after_fence(thread, Level::SeqCst).after_all(between).can_load(
            reader,
            addr,
            Level::SeqCst,
        ),
    ensures
        e.after_fence(thread, Level::SeqCst).after_all(between).chosen(
            reader,
            addr,
            Level::SeqCst,
            word,
        ).global >= stamp_at(e.knows(thread), addr),
{
    let next = e.after_fence(thread, Level::SeqCst);
    let end = next.after_all(between);
    lemma_le_join(e.knows(thread), e.seq_cst);
    lemma_le_into_join(e.knows(thread), e.seq_cst, stamp_join(e.knows(thread), e.seq_cst));
    lemma_step(e, Event::Fence { thread, level: Level::SeqCst });
    lemma_run(next, between);
    lemma_le_transitive(e.knows(thread), next.seq_cst, end.seq_cst);
    law_seq_cst_floor(end, reader, addr, word);
    assert(stamp_at(e.knows(thread), addr) <= stamp_at(end.seq_cst, addr));
}

/// The SeqCst floor: what a thread knows when it passes a SeqCst fence is
/// known to every thread that passes a SeqCst fence later. No load by such
/// a thread, at any level, reads a record with a ticket below the one that
/// the first thread knew for the address.
pub proof fn law_seq_cst_fences_meet(
    e: Engine,
    first: usize,
    before: Seq<Event>,
    second: usize,
    between: Seq<Event>,
    addr: usize,
    level: Level,
    word: u32,
)
    requires
        e.can_fence(first, Level::SeqCst),
        e.after_fence(first, Level::SeqCst).admits_all(before),
        ({
            let met = e.after_fence(first, Level::SeqCst).after_all(before);
            &&& met.can_fence(second, Level::SeqCst)
            &&& met.after_fence(second, Level::SeqCst).admits_all(between)
            &&& met.after_fence(second, Level::SeqCst).after_all(between).can_load(
                second,
                addr,
                level,
            )
        }),
    ensures
        e.after_fence(first, Level::SeqCst).after_all(before).after_fence(
            second,
            Level::SeqCst,
        ).after_all(between).chosen(second, addr, level, word).global >= stamp_at(
            e.knows(first),
            addr,
        ),
{
    let known = e.knows(first);
    let next = e.after_fence(first, Level::SeqCst);
    let met = next.after_all(before);
    let fenced = met.after_fence(second, Level::SeqCst);
    lemma_le_join(known, e.seq_cst);
    lemma_le_into_join(known, e.seq_cst, stamp_join(known, e.seq_cst));
    lemma_step(e, Event::Fence { thread: first, level: Level::SeqCst });
    lemma_run(next, before);
    lemma_le_transitive(known, next.seq_cst, met.seq_cst);
    let v = nth(met.threads, second);
    let joined = stamp_join(v.mem, met.seq_cst);
    lemma_le_into_join(known, v.mem, met.seq_cst);
    lemma_le_into_join(known, joined, v.read_fence.fence);
    lemma_le_into_join(known, stamp_join(joined, v.read_fence.fence), v.read_fence.atomic);
    lemma_step(met, Event::Fence { thread: second, level: Level::SeqCst });
    lemma_known_stays(fenced, between, second, known, addr, level, word);
}

/// A fixed seed fixes the run: no event changes the seed, and the place in
/// the random stream moves on by one with every draw. The words that a run
/// draws follow from the seed and the events alone, and so does the state
/// it ends in.
pub proof fn law_fixed_seed(e: Engine, run: Seq<Event>)
    requires
        e.wf(),
        e.admits_all(run),
    ensures
        e.after_all(run).seed == e.seed,
        e.after_all(run).draws == e.draws + draws_in(run),
    decreases run.len(),
{
    if run.len() > 0 {
        lemma_step(e, run[0]);
        law_fixed_seed(e.after(run[0]), run.drop_first());
    }
}

/// Fence and fence: what a thread knows when it passes a fence with
/// release strength rides every store that it makes afterwards. When
/// another thread reads such a store, at any level, and later passes a
/// fence with acquire strength, it knows it all: no later load by that
/// thread reads a record with a ticket below the one that the writer knew
/// for the address at its fence.
pub proof fn law_fence_fence(
    e: Engine,
    writer: usize,
    release_level: Level,
    before: Seq<Event>,
    addr: usize,
    value: usize,
    store_level: Level,
    between: Seq<Event>,
    reader: usize,
    level: Level,
    word: u32,
    until: Seq<Event>,
    acquire_level: Level,
    after: Seq<Event>,
    other: usize,
    other_level: Level,
    other_word: u32,
)
    requires
        e.can_fence(writer, release_level),
        release_level != Level::Acquire,
        e.after_fence(writer, release_level).admits_all(before),
        ({
            let fenced = e.after_fence(writer, release_level).after_all(before);
            &&& fenced.can_store(writer, addr, store_level)
            &&& fenced.after_store(writer, addr, value, store_level).admits_all(between)
            &&& ({
                let read = fenced.after_store(writer, addr, value, store_level).after_all(
                    between,
                );
                &&& read.can_load(reader, addr, level)
                &&& read.chosen(reader, addr, level, word) == fenced.stored(
                    writer,
                    addr,
                    value,
                    store_level,
                )
                &&& read.after_load(reader, addr, level, word).admits_all(until)
                &&& ({
                    let met = read.after_load(reader, addr, level, word).after_all(until);
                    &&& met.can_fence(reader, acquire_level)
                    &&& acquire_level != Level::Release
                    &&& met.after_fence(reader, acquire_level).admits_all(after)
                    &&& met.after_fence(reader, acquire_level).after_all(after).can_load(
                        reader,
                        other,
                        other_level,
                    )
                })
            })
        }),
    ensures
        e.after_fence(writer, release_level).after_all(before).after_store(
            writer,
            addr,
            value,
            store_level,
        ).after_all(between).after_load(reader, addr, level, word).after_all(until).after_fence(
            reader,
            acquire_level,
        ).after_all(after).chosen(reader, other, other_level, other_word).global >= stamp_at(
            e.knows(writer),
            other,
        ),
{
    let known = e.knows(writer);
    let first = e.after_fence(writer, release_level);
    let fenced = first.after_all(before);
    let rec = fenced.stored(writer, addr, value, store_level);
    let read = fenced.after_store(writer, addr, value, store_level).after_all(between);
    let got = read.after_load(reader, addr, level, word);
    let met = got.after_all(until);
    let last = met.after_fence(reader, acquire_level);
    lemma_release_fence_takes(e, writer, release_level);
    lemma_step(e, Event::Fence { thread: writer, level: release_level });
    lemma_run(first, before);
    assert(nth(first.threads, writer).le(nth(fenced.threads, writer)));
    lemma_le_transitive(
        known,
        nth(first.threads, writer).fence.fence,
        nth(fenced.threads, writer).fence.fence,
    );
    assert(rec.source_fence.fence == nth(fenced.threads, writer).fence.fence);
    lemma_le_join(nth(read.threads, reader).read_fence.fence, rec.source_fence.fence);
    lemma_le_transitive(
        known,
        rec.source_fence.fence,
        nth(got.threads, reader).read_fence.fence,
    );
    lemma_step(read, Event::Load { thread: reader, addr, level, word });
    lemma_run(got, until);
    assert(nth(got.threads, reader).le(nth(met.threads, reader)));
    lemma_le_transitive(
        known,
        nth(got.threads, reader).read_fence.fence,
        nth(met.threads, reader).read_fence.fence,
    );
    lemma_acquire_fence_takes(met, reader, acquire_level);
    lemma_le_transitive(known, nth(met.threads, reader).read_fence.fence, last.knows(reader));
    lemma_step(met, Event::Fence { thread: reader, level: acquire_level });
    lemma_known_stays(last, after, reader, known, other, other_level, other_word);
}

/// Tickets: a store, a fence and an update that goes through each take the
/// next ticket, and nothing else moves the counter.
pub proof fn law_tickets_rise(e: Engine, event: Event)
    requires
        e.admits(event),
    ensures
        e.after(event).global == if event is Store || event is Fence || (event matches Event::Update {
            outcome,
            ..
        } && outcome is Some) {
            e.global + 1
        } else {
            e.global as int
        },
{
}

/// Program order in the log: of two records of one thread, the one with the
/// lower thread counter has the lower ticket.
pub proof fn law_thread_order(e: Engine, i: int, j: int)
    requires
        e.wf(),
        0 <= i < e.log.len(),
        0 <= j < e.log.len(),
        e.log[i].thread == e.log[j].thread,
        e.log[i].thread_seq < e.log[j].thread_seq,
    ensures
        e.log[i].global < e.log[j].global,
{
    if j < i {
        assert(e.log[j].thread_seq < e.log[i].thread_seq);
    }
}

/// Release sequences start at a release: a record continues a release
/// sequence only where it follows, in the modification order of its
/// address, a record that is not Relaxed. The initial record continues
/// none, and neither does the record of a store.
pub proof fn law_release_chain_origin(e: Engine, addr: usize, k: int)
    requires
        e.wf(),
        addr < e.genesis.len(),
        0 <= k < e.history(addr).len(),
        e.history(addr)[k].release_chain,
    ensures
        k > 0,
        e.history(addr)[k - 1].level != Level::Relaxed,
{
    crate::wellformed::lemma_history_record(e, addr, k);
    assert(crate::history::chained(e.genesis, e.log, addr));
}

/// Views are bounded: what a thread knows of an address is at most the
/// ticket of the newest record of the address, and nothing for an address
/// that is not allocated.
pub proof fn law_view_bounded(e: Engine, thread: usize, addr: usize)
    requires
        e.wf(),
        thread < e.threads.len(),
    ensures
        addr < e.genesis.len() ==> stamp_at(e.knows(thread), addr) <= e.newest(addr).global,
        addr >= e.genesis.len() ==> stamp_at(e.knows(thread), addr) == 0,
{
    assert(e.view_ok(nth(e.threads, thread)));
    assert(stamp_at(e.knows(thread), addr) <= e.cap(addr));
}

/// A load that draws its word leaves the log as it was.
pub proof fn lemma_drawn_load(e: Engine, thread: usize, addr: usize, level: Level)
    requires
        e.can_load(thread, addr, level),
        e.draws < u64::MAX,
    ensures
        ({
            let next = e.after_load(thread, addr, level, e.drawn()).after_draw();
            &&& next.wf()
            &&& next.follows(e)
            &&& next.log == e.log
            &&& next.genesis == e.genesis
            &&& next.global == e.global
            &&& next.threads.len() == e.threads.len()
            &&& next.seed == e.seed
            &&& next.draws == e.draws + 1
        }),
{
    let loaded = e.after_load(thread, addr, level, e.drawn());
    lemma_step(e, Event::Load { thread, addr, level, word: e.drawn() });
    lemma_step(loaded, Event::Draw);
    crate::growth::lemma_follows_transitive(e, loaded, loaded.after_draw());
}

/// A weak compare-and-exchange that draws its words goes through only over
/// the newest value, and then appends the record of the update; where it
/// fails it leaves the log as it was.
pub proof fn lemma_drawn_weak_exchange(
    e: Engine,
    thread: usize,
    addr: usize,
    current: usize,
    new: usize,
    success: Level,
    failure: Level,
)
    requires
        e.can_update(thread, addr, failure),
        e.draws < u64::MAX - 1,
    ensures
        ({
            let next = e.after_weak_exchange_drawn(thread, addr, current, new, success, failure);
            let r = e.weak_exchange_result_drawn(thread, addr, current, new, failure);
            &&& next.wf()
            &&& next.follows(e)
            &&& next.genesis == e.genesis
            &&& next.threads.len() == e.threads.len()
            &&& next.seed == e.seed
            &&& e.draws < next.draws <= e.draws + 2
            &&& r is Ok ==> {
                &&& r == Ok::<usize, usize>(current)
                &&& e.newest(addr).value == current
                &&& next.global == succ(e.global)
                &&& next.log == e.log.push(e.updated(thread, addr, new, success))
            }
            &&& r is Err ==> next.log == e.log && next.global == e.global
        }),
{
    let first = e.after_draw();
    lemma_step(e, Event::Draw);
    if Engine::spurious(e.drawn()) {
        lemma_drawn_load(first, thread, addr, failure);
        crate::growth::lemma_follows_transitive(
            e,
            first,
            first.after_load(thread, addr, failure, first.drawn()).after_draw(),
        );
    } else {
        let outcome = e.exchange_outcome(addr, current, new);
        lemma_step(first, Event::Update { thread, addr, outcome, success, failure });
        crate::growth::lemma_follows_transitive(
            e,
            first,
            first.after_update(thread, addr, outcome, success, failure),
        );
        assert(first.updated(thread, addr, new, success) == e.updated(
            thread,
            addr,
            new,
            success,
        ));
    }
}

/// Fetch-and-update is one update: where it reports a success, the value
/// it reports is the value that was the newest when it wrote, the value it
/// wrote is what the function makes of it, and its record is the one new
/// record of the log. Where it reports a failure, the function has no new
/// value for the value reported, and the log is as it was. Either way the
/// state it ends in is well formed and comes after the state before.
pub proof fn law_fetch_update(
    e: Engine,
    thread: usize,
    addr: usize,
    g: spec_fn(usize) -> Option<usize>,
    set: Level,
    fetch: Level,
)
    requires
        e.can_update(thread, addr, fetch),
    ensures
        e.updated_once(
            e.after_fetch_update(thread, addr, g, set, fetch).0,
            e.after_fetch_update(thread, addr, g, set, fetch).1,
            thread,
            addr,
            g,
        ),
    decreases u64::MAX - e.draws,
{
    if e.draws > u64::MAX - 3 {
        let outcome = g(e.newest(addr).value);
        lemma_step(e, Event::Update { thread, addr, outcome, success: set, failure: fetch });
    } else {
        let loaded = e.after_load(thread, addr, fetch, e.drawn()).after_draw();
        let current = e.chosen(thread, addr, fetch, e.drawn()).value;
        lemma_drawn_load(e, thread, addr, fetch);
        match g(current) {
            None => {},
            Some(new) => {
                let tried = loaded.after_weak_exchange_drawn(
                    thread,
                    addr,
                    current,
                    new,
                    set,
                    fetch,
                );
                lemma_drawn_weak_exchange(loaded, thread, addr, current, new, set, fetch);
                crate::growth::lemma_follows_transitive(e, loaded, tried);
                if loaded.weak_exchange_result_drawn(thread, addr, current, new, fetch) is Ok {
                    assert(loaded.newest(addr) == e.newest(addr));
                } else {
                    law_fetch_update(tried, thread, addr, g, set, fetch);
                    let end = tried.after_fetch_update(thread, addr, g, set, fetch).0;
                    crate::growth::lemma_follows_transitive(e, tried, end);
                    assert(tried.newest(addr) == e.newest(addr));
                }
            },
        }
    }
}

/// A load is never stuck: in a well-formed state there is always a record
/// that it may read, and the newest record of the address is one.
pub proof fn law_load_finds_a_record(e: Engine, thread: usize, addr: usize, level: Level)
    requires
        e.wf(),
        thread < e.threads.len(),
        addr < e.genesis.len(),
    ensures
        e.candidates(thread, addr, level).len() > 0,
        e.candidates(thread, addr, level).contains(e.newest(addr)),
{
    lemma_candidates(e, thread, addr, level);
    crate::wellformed::lemma_floor_within_cap(e, thread, addr, level);
    lemma_newest(e, addr);
    let h = e.history(addr);
    h.lemma_filter_contains(crate::history::from_ticket(e.floor(thread, addr, level)), h.len() - 1);
}

/// Initial records: every address has one, with the value zero, ticket zero,
/// the level Relaxed and empty stamps, and it stands first in the
/// modification order of the address.
pub proof fn law_initial_record(e: Engine, addr: usize)
    requires
        e.wf(),
        addr < e.genesis.len(),
    ensures
        nth(e.genesis, addr) == Record::genesis(addr),
        e.history(addr)[0] == Record::genesis(addr),
{
    assert(nth(e.genesis, addr).is_genesis());
}

/// A read of a record that is no older than what the view knows of its
/// address leaves the view knowing exactly the ticket of the record.
pub proof fn lemma_read_notes(v: crate::thread_view::ViewState, rec: Record, level: Level)
    requires
        rec.knows_itself_newest(),
        stamp_at(v.mem, rec.address) <= rec.global,
    ensures
        stamp_at(v.after_read(rec, level).mem, rec.address) == rec.global,
{
    crate::stamp::lemma_join_at(v.mem, rec.source, rec.address);
    crate::stamp::lemma_join_at(v.mem, rec.source_fence.fence, rec.address);
    crate::stamp::lemma_join_at(
        stamp_join(v.mem, rec.source),
        rec.source_fence.fence,
        rec.address,
    );
}

/// A load reads a record of its address that is no older than what its
/// thread knew, leaves the thread knowing exactly that record, and changes
/// nothing but the view of its thread.
pub proof fn law_load(e: Engine, thread: usize, addr: usize, level: Level, word: u32)
    requires
        e.can_load(thread, addr, level),
    ensures
        e.after_load(thread, addr, level, word).wf(),
        e.after_load(thread, addr, level, word).draws == e.draws,
        e.reads(
            e.after_load(thread, addr, level, word),
            thread,
            addr,
            e.chosen(thread, addr, level, word),
        ),
{
    let rec = e.chosen(thread, addr, level, word);
    lemma_candidates(e, thread, addr, level);
    lemma_load_reads_known(e, thread, addr, level, word);
    lemma_read_notes(nth(e.threads, thread), rec, level);
    lemma_step(e, Event::Load { thread, addr, level, word });
}

/// A store appends its record under the next ticket, leaves its thread
/// knowing exactly that ticket of the address, and changes no other view.
pub proof fn law_store(e: Engine, thread: usize, addr: usize, value: usize, level: Level)
    requires
        e.can_store(thread, addr, level),
    ensures
        e.after_store(thread, addr, value, level).wf(),
        e.after_store(thread, addr, value, level).draws == e.draws,
        e.writes(
            e.after_store(thread, addr, value, level),
            thread,
            addr,
            e.stored(thread, addr, value, level),
        ),
        e.stored(thread, addr, value, level).value == value,
        e.stored(thread, addr, value, level).level == level,
{
    lemma_step(e, Event::Store { thread, addr, value, level });
    crate::history::lemma_history_push(
        e.genesis,
        e.log,
        e.stored(thread, addr, value, level),
        addr,
    );
}

/// An update reads the newest record of its address. Where it fails, that
/// is all it does; where it goes through, it appends its record under the
/// next ticket and leaves its thread knowing exactly that ticket of the
/// address.
pub proof fn law_update(
    e: Engine,
    thread: usize,
    addr: usize,
    outcome: Option<usize>,
    success: Level,
    failure: Level,
)
    requires
        e.can_update(thread, addr, failure),
    ensures
        e.after_update(thread, addr, outcome, success, failure).wf(),
        e.after_update(thread, addr, outcome, success, failure).draws == e.draws,
        e.history(addr).contains(e.newest(addr)),
        match outcome {
            None => e.reads(
                e.after_update(thread, addr, outcome, success, failure),
                thread,
                addr,
                e.newest(addr),
            ),
            Some(value) => {
                &&& e.writes(
                    e.after_update(thread, addr, outcome, success, failure),
                    thread,
                    addr,
                    e.updated(thread, addr, value, success),
                )
                &&& e.updated(thread, addr, value, success).value == value
                &&& e.updated(thread, addr, value, success).level == success.store_side()
            },
        },
{
    let pred = e.newest(addr);
    let v = nth(e.threads, thread);
    lemma_newest(e, addr);
    lemma_step(e, Event::Update { thread, addr, outcome, success, failure });
    assert(e.view_ok(v));
    assert(stamp_at(v.mem, addr) <= e.cap(addr));
    let h = e.history(addr);
    assert(h[h.len() - 1] == pred);
    match outcome {
        None => {
            lemma_read_notes(v, pred, failure);
        },
        Some(value) => {
            crate::history::lemma_history_push(
                e.genesis,
                e.log,
                e.updated(thread, addr, value, success),
                addr,
            );
        },
    }
}

/// An allocation gives every new address a modification order of its
/// initial record alone, and leaves the modification orders of the other
/// addresses as they were.
pub proof fn law_allocate(e: Engine, size: usize, addr: usize)
    requires
        e.can_allocate(size),
    ensures
        e.after_allocate(size).wf(),
        e.after_allocate(size).follows(e),
        e.after_allocate(size).genesis.len() == e.genesis.len() + size,
        addr < e.genesis.len() ==> e.after_allocate(size).history(addr) == e.history(addr),
        e.genesis.len() <= addr < e.genesis.len() + size ==> e.after_allocate(size).history(addr)
            == seq![Record::genesis(addr)],
{
    let next = e.after_allocate(size);
    lemma_step(e, Event::Allocate { size });
    if addr < e.genesis.len() {
        assert(nth(next.genesis, addr) == nth(e.genesis, addr));
        assert(next.history(addr) =~= e.history(addr));
    } else if addr < e.genesis.len() + size {
        crate::wellformed::lemma_unwritten(e, addr);
        assert(nth(next.genesis, addr) == Record::genesis(addr));
        assert(next.history(addr) =~= seq![Record::genesis(addr)]);
    }
}

} // verus!
