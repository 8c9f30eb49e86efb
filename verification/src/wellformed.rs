//! Why the operations keep the engine well formed.

use crate::fence_stamp::FenceStamp;
use crate::history::{
    chained, from_ticket, history, in_program_order, lemma_history_members, lemma_history_push,
    lemma_newest_tops, lemma_top_ticket_attained, rising, seq_cst_writes_below,
    seq_cst_writes_to, top_ticket, writes_to,
};
use crate::index::{nth, put, succ};
use crate::level::Level;
use crate::model::Engine;
use crate::record::Record;
use crate::stamp::{lemma_join_at, stamp_at, stamp_join, stamp_raise};
use crate::thread_view::ViewState;
use vstd::prelude::*;

verus! {

/// The merge of two bounded stamps is bounded.
pub proof fn lemma_bounded_join(e: Engine, m: Map<usize, usize>, o: Map<usize, usize>)
    requires
        e.bounded(m),
        e.bounded(o),
    ensures
        e.bounded(stamp_join(m, o)),
{
    assert forall|a: usize| #[trigger] stamp_at(stamp_join(m, o), a) <= e.cap(a) by {
        lemma_join_at(m, o, a);
        assert(stamp_at(m, a) <= e.cap(a));
        assert(stamp_at(o, a) <= e.cap(a));
    }
}

/// The merge of two bounded fence stamps is bounded.
pub proof fn lemma_bounded_pair_join(e: Engine, p: FenceStamp, q: FenceStamp)
    requires
        e.bounded_pair(p),
        e.bounded_pair(q),
    ensures
        e.bounded_pair(p.join(q)),
{
    lemma_bounded_join(e, p.atomic, q.atomic);
    lemma_bounded_join(e, p.fence, q.fence);
}

/// A bounded stamp stays bounded when a ticket in it is set within the cap.
pub proof fn lemma_bounded_insert(e: Engine, m: Map<usize, usize>, addr: usize, ticket: usize)
    requires
        e.bounded(m),
        ticket <= e.cap(addr),
    ensures
        e.bounded(m.insert(addr, ticket)),
        e.bounded(stamp_raise(m, addr, ticket)),
{
    assert forall|a: usize| #[trigger] stamp_at(m.insert(addr, ticket), a) <= e.cap(a) by {
        assert(stamp_at(m, a) <= e.cap(a));
    }
    assert forall|a: usize| #[trigger] stamp_at(stamp_raise(m, addr, ticket), a) <= e.cap(a) by {
        assert(stamp_at(m, a) <= e.cap(a));
    }
}

/// The empty stamp is bounded.
pub proof fn lemma_bounded_empty(e: Engine)
    ensures
        e.bounded(Map::empty()),
        e.bounded_pair(FenceStamp::empty()),
{
}

/// What holds of every record in the modification order of an address.
pub proof fn lemma_history_record(e: Engine, addr: usize, k: int)
    requires
        e.wf(),
        addr < e.genesis.len(),
        0 <= k < e.history(addr).len(),
    ensures
        e.history(addr)[k].address == addr,
        e.history(addr)[k].global <= e.cap(addr),
        e.history(addr)[k].global <= e.global,
        e.history(addr)[k].level != Level::AcqRel,
        e.history(addr)[k].knows_itself_newest(),
        e.bounded(e.history(addr)[k].source),
        e.bounded_pair(e.history(addr)[k].source_fence),
        k == 0 ==> e.history(addr)[k] == Record::genesis(addr),
        k > 0 ==> e.log.contains(e.history(addr)[k]),
{
    let r = e.history(addr)[k];
    lemma_history_members(e.genesis, e.log, addr, k);
    if k == 0 {
        assert(nth(e.genesis, addr).is_genesis());
        lemma_bounded_empty(e);
    } else {
        let i = choose|i: int| 0 <= i < e.log.len() && e.log[i] == r;
        assert(e.record_ok(e.log[i]));
        lemma_newest_tops(e.genesis, e.log, addr, i);
    }
}

/// The newest record of an address is a record of its modification order.
pub proof fn lemma_newest(e: Engine, addr: usize)
    requires
        e.wf(),
        addr < e.genesis.len(),
    ensures
        e.newest(addr).address == addr,
        e.newest(addr).global == e.cap(addr),
        e.cap(addr) <= e.global,
        e.newest(addr).level != Level::AcqRel,
        e.newest(addr).knows_itself_newest(),
        e.bounded(e.newest(addr).source),
        e.bounded_pair(e.newest(addr).source_fence),
{
    lemma_history_record(e, addr, e.history(addr).len() - 1);
}

/// No stamp passes the ticket counter.
pub proof fn lemma_cap_within_global(e: Engine, addr: usize)
    requires
        e.wf(),
    ensures
        e.cap(addr) <= e.global,
{
    if addr < e.genesis.len() {
        lemma_newest(e, addr);
    }
}

/// The floor of a load is within the cap of its address.
pub proof fn lemma_floor_within_cap(e: Engine, thread: usize, addr: usize, level: Level)
    requires
        e.wf(),
        thread < e.threads.len(),
        addr < e.genesis.len(),
    ensures
        e.floor(thread, addr, level) <= e.cap(addr),
{
    let view = nth(e.threads, thread);
    assert(e.view_ok(nth(e.threads, thread)));
    assert(stamp_at(view.mem, addr) <= e.cap(addr));
    assert(stamp_at(e.seq_cst, addr) <= e.cap(addr));
    let pred = if level == Level::SeqCst {
        seq_cst_writes_to(addr)
    } else {
        seq_cst_writes_below(addr, view.min_seq_cst)
    };
    let f = e.log.filter(pred);
    lemma_top_ticket_attained(f);
    if top_ticket(f) != 0 {
        let i = choose|i: int| 0 <= i < f.len() && f[i].global == top_ticket(f);
        e.log.lemma_filter_pred(pred, i);
        assert(f.contains(f[i]));
        e.log.lemma_filter_contains_rev(pred, f[i]);
        let j = choose|j: int| 0 <= j < e.log.len() && e.log[j] == f[i];
        lemma_newest_tops(e.genesis, e.log, addr, j);
    }
}

/// A load always has a record to read, and every record it may read wrote
/// the address, is no older than the floor, and is bounded.
pub proof fn lemma_candidates(e: Engine, thread: usize, addr: usize, level: Level)
    requires
        e.wf(),
        thread < e.threads.len(),
        addr < e.genesis.len(),
    ensures
        e.candidates(thread, addr, level).len() > 0,
        forall|k: int|
            0 <= k < e.candidates(thread, addr, level).len() ==> {
                let c = #[trigger] e.candidates(thread, addr, level)[k];
                &&& c.address == addr
                &&& e.floor(thread, addr, level) <= c.global <= e.cap(addr)
                &&& e.history(addr).contains(c)
                &&& c.knows_itself_newest()
                &&& e.bounded(c.source)
                &&& e.bounded_pair(c.source_fence)
            },
{
    let floor = e.floor(thread, addr, level);
    let h = e.history(addr);
    let c = e.candidates(thread, addr, level);
    lemma_floor_within_cap(e, thread, addr, level);
    lemma_newest(e, addr);
    h.lemma_filter_contains(from_ticket(floor), h.len() - 1);
    assert forall|k: int| 0 <= k < c.len() implies {
        let r = #[trigger] c[k];
        &&& r.address == addr
        &&& floor <= r.global <= e.cap(addr)
        &&& h.contains(r)
        &&& r.knows_itself_newest()
        &&& e.bounded(r.source)
        &&& e.bounded_pair(r.source_fence)
    } by {
        h.lemma_filter_pred(from_ticket(floor), k);
        assert(c.contains(c[k]));
        h.lemma_filter_contains_rev(from_ticket(floor), c[k]);
        let i = choose|i: int| 0 <= i < h.len() && h[i] == c[k];
        lemma_history_record(e, addr, i);
    }
}

/// The caps after a record was appended under the next ticket: that ticket
/// for the address written, and as before for every other.
pub proof fn lemma_cap_append(e: Engine, next: Engine, r: Record, addr: usize)
    requires
        e.wf(),
        e.global < usize::MAX,
        next.genesis == e.genesis,
        next.log == e.log.push(r),
        r.global == succ(e.global),
        r.address < e.genesis.len(),
    ensures
        next.cap(addr) == if addr == r.address {
            r.global
        } else {
            e.cap(addr)
        },
        e.cap(addr) <= next.cap(addr),
{
    lemma_history_push(e.genesis, e.log, r, addr);
    lemma_cap_within_global(e, addr);
}

/// A stamp that was bounded before a record was appended is bounded after.
pub proof fn lemma_bounded_append(e: Engine, next: Engine, r: Record, m: Map<usize, usize>)
    requires
        e.wf(),
        e.global < usize::MAX,
        next.genesis == e.genesis,
        next.log == e.log.push(r),
        r.global == succ(e.global),
        r.address < e.genesis.len(),
        e.bounded(m),
    ensures
        next.bounded(m),
{
    assert forall|a: usize| #[trigger] stamp_at(m, a) <= next.cap(a) by {
        lemma_cap_append(e, next, r, a);
        assert(stamp_at(m, a) <= e.cap(a));
    }
}

/// The engine stays well formed when a thread appends a record under the
/// next ticket and takes a new view, both bounded by the caps that result.
pub proof fn lemma_append_wf(e: Engine, thread: usize, view: ViewState, r: Record)
    requires
        e.wf(),
        e.global < usize::MAX,
        thread < e.threads.len(),
        r.global == succ(e.global),
        r.address < e.genesis.len(),
        r.thread == thread,
        r.thread_seq == view.seq,
        nth(e.threads, thread).seq < view.seq,
        r.release_chain ==> e.newest(r.address).level != Level::Relaxed,
        r.level != Level::AcqRel,
        ({
            let next = Engine {
                global: succ(e.global),
                threads: put(e.threads, thread, view),
                log: e.log.push(r),
                ..e
            };
            &&& next.view_ok(view)
            &&& next.bounded(r.source)
            &&& next.bounded_pair(r.source_fence)
        }),
    ensures
        (Engine {
            global: succ(e.global),
            threads: put(e.threads, thread, view),
            log: e.log.push(r),
            ..e
        }).wf(),
{
    let next = Engine {
        global: succ(e.global),
        threads: put(e.threads, thread, view),
        log: e.log.push(r),
        ..e
    };
    assert forall|i: int| 0 <= i < next.log.len() implies next.record_ok(#[trigger] next.log[i]) by {
        if i < e.log.len() {
            let q = e.log[i];
            assert(e.record_ok(q));
            lemma_bounded_append(e, next, r, q.source);
            lemma_bounded_append(e, next, r, q.source_fence.atomic);
            lemma_bounded_append(e, next, r, q.source_fence.fence);
        } else {
            lemma_cap_append(e, next, r, r.address);
            assert(stamp_at(r.source, r.address) <= next.cap(r.address));
            assert(stamp_at(r.source_fence.atomic, r.address) <= next.cap(r.address));
            assert(stamp_at(r.source_fence.fence, r.address) <= next.cap(r.address));
        }
    }
    assert(rising(next.log)) by {
        assert forall|i: int, j: int| 0 <= i < j < next.log.len() implies (
        #[trigger] next.log[i]).global < (#[trigger] next.log[j]).global by {
            assert(e.record_ok(e.log[i]));
            if j < e.log.len() {
                assert(e.log[i].global < e.log[j].global);
            }
        }
    }
    assert(in_program_order(next.log)) by {
        assert forall|i: int, j: int|
            0 <= i < j < next.log.len() && (#[trigger] next.log[i]).thread == (
            #[trigger] next.log[j]).thread implies next.log[i].thread_seq
            < next.log[j].thread_seq by {
            assert(e.record_ok(e.log[i]));
            if j < e.log.len() {
                assert(e.log[i].thread == e.log[j].thread);
            }
        }
    }
    assert forall|a: usize| a < next.genesis.len() implies #[trigger] chained(
        next.genesis,
        next.log,
        a,
    ) by {
        lemma_history_push(e.genesis, e.log, r, a);
        assert(chained(e.genesis, e.log, a));
        let h = history(e.genesis, e.log, a);
        let g = history(next.genesis, next.log, a);
        assert forall|k: int| 0 < k < g.len() && (#[trigger] g[k]).release_chain implies g[k
            - 1].level != Level::Relaxed by {
            if k < h.len() {
                assert(h[k].release_chain);
            }
        }
    }
    assert forall|t: int| 0 <= t < next.threads.len() implies next.view_ok(
        #[trigger] next.threads[t],
    ) by {
        if t != thread {
            let v = e.threads[t];
            assert(e.view_ok(v));
            lemma_bounded_append(e, next, r, v.mem);
            lemma_bounded_append(e, next, r, v.fence.atomic);
            lemma_bounded_append(e, next, r, v.fence.fence);
            lemma_bounded_append(e, next, r, v.read_fence.atomic);
            lemma_bounded_append(e, next, r, v.read_fence.fence);
        }
    }
    lemma_bounded_append(e, next, r, e.seq_cst);
}

/// The engine stays well formed when a thread takes a new bounded view.
pub proof fn lemma_view_wf(e: Engine, thread: usize, view: ViewState)
    requires
        e.wf(),
        thread < e.threads.len(),
        e.view_ok(view),
        nth(e.threads, thread).seq <= view.seq,
    ensures
        e.with_view(thread, view).wf(),
{
    let next = e.with_view(thread, view);
    assert forall|a: usize| next.cap(a) == e.cap(a) by {}
    assert forall|i: int| 0 <= i < next.log.len() implies next.record_ok(#[trigger] next.log[i]) by {
        assert(e.record_ok(e.log[i]));
    }
    assert forall|t: int| 0 <= t < next.threads.len() implies next.view_ok(
        #[trigger] next.threads[t],
    ) by {
        if t != thread {
            assert(e.view_ok(e.threads[t]));
        }
    }
}

/// A read of a bounded record within the cap of its address leaves a view
/// bounded.
pub proof fn lemma_read_bounded(e: Engine, view: ViewState, rec: Record, level: Level)
    requires
        e.view_ok(view),
        e.bounded(rec.source),
        e.bounded_pair(rec.source_fence),
        rec.global <= e.cap(rec.address),
    ensures
        e.view_ok(view.after_read(rec, level)),
{
    lemma_bounded_join(e, view.mem, rec.source);
    lemma_bounded_join(e, stamp_join(view.mem, rec.source), rec.source_fence.fence);
    lemma_bounded_join(e, view.mem, rec.source_fence.fence);
    lemma_bounded_pair_join(e, view.read_fence, rec.source_fence);
    lemma_bounded_insert(e, view.acquired(rec, level), rec.address, rec.global);
}

/// A load keeps the engine well formed.
pub proof fn lemma_after_load_wf(e: Engine, thread: usize, addr: usize, level: Level, word: u32)
    requires
        e.wf(),
        thread < e.threads.len(),
        addr < e.genesis.len(),
    ensures
        e.after_load(thread, addr, level, word).wf(),
{
    lemma_candidates(e, thread, addr, level);
    let c = e.candidates(thread, addr, level);
    let k = (word as int) % (c.len() as int);
    let rec = c[k];
    assert(e.view_ok(nth(e.threads, thread)));
    lemma_read_bounded(e, nth(e.threads, thread), rec, level);
    lemma_view_wf(e, thread, nth(e.threads, thread).after_read(rec, level));
}

/// A write under the next ticket leaves a view bounded by the caps that
/// result from appending its record.
pub proof fn lemma_write_bounded(
    e: Engine,
    next: Engine,
    view: ViewState,
    r: Record,
    level: Level,
)
    requires
        e.wf(),
        e.global < usize::MAX,
        next.genesis == e.genesis,
        next.log == e.log.push(r),
        next.global == succ(e.global),
        r.global == succ(e.global),
        r.address < e.genesis.len(),
        e.view_ok(view),
    ensures
        next.view_ok(view.after_write(succ(e.global), r.address, level)),
{
    let after = view.after_write(succ(e.global), r.address, level);
    lemma_bounded_append(e, next, r, view.mem);
    lemma_bounded_append(e, next, r, view.fence.atomic);
    lemma_bounded_append(e, next, r, view.fence.fence);
    lemma_bounded_append(e, next, r, view.read_fence.atomic);
    lemma_bounded_append(e, next, r, view.read_fence.fence);
    lemma_cap_append(e, next, r, r.address);
    lemma_bounded_insert(next, view.mem, r.address, succ(e.global));
    lemma_bounded_join(next, view.fence.atomic, after.mem);
}

/// A store keeps the engine well formed.
pub proof fn lemma_after_store_wf(e: Engine, thread: usize, addr: usize, value: usize, level: Level)
    requires
        e.can_store(thread, addr, level),
    ensures
        e.after_store(thread, addr, value, level).wf(),
{
    let next = e.after_store(thread, addr, value, level);
    let r = e.stored(thread, addr, value, level);
    let view = nth(e.threads, thread);
    assert(e.view_ok(nth(e.threads, thread)));
    lemma_write_bounded(e, next, view, r, level);
    lemma_bounded_empty(next);
    lemma_append_wf(e, thread, view.after_write(succ(e.global), addr, level), r);
}

/// An update keeps the engine well formed, whether it goes through or fails.
pub proof fn lemma_after_update_wf(
    e: Engine,
    thread: usize,
    addr: usize,
    outcome: Option<usize>,
    success: Level,
    failure: Level,
)
    requires
        e.can_update(thread, addr, failure),
    ensures
        e.after_update(thread, addr, outcome, success, failure).wf(),
{
    let view = nth(e.threads, thread);
    let pred = e.newest(addr);
    assert(e.view_ok(nth(e.threads, thread)));
    lemma_newest(e, addr);
    match outcome {
        None => {
            lemma_read_bounded(e, view, pred, failure);
            lemma_view_wf(e, thread, view.after_read(pred, failure));
        },
        Some(value) => {
            let next = e.after_update(thread, addr, outcome, success, failure);
            let r = e.updated(thread, addr, value, success);
            let read = view.after_read(pred, success.load_side());
            let after = e.updating_view(thread, addr, success);
            lemma_read_bounded(e, view, pred, success.load_side());
            lemma_write_bounded(e, next, read, r, success.store_side());
            lemma_bounded_append(e, next, r, pred.source);
            lemma_bounded_append(e, next, r, pred.source_fence.atomic);
            lemma_bounded_append(e, next, r, pred.source_fence.fence);
            lemma_bounded_join(next, after.mem, pred.source);
            lemma_bounded_pair_join(next, after.fence, pred.source_fence);
            lemma_bounded_empty(next);
            lemma_append_wf(e, thread, after, r);
        },
    }
}

/// A fence keeps the engine well formed.
pub proof fn lemma_after_fence_wf(e: Engine, thread: usize, level: Level)
    requires
        e.can_fence(thread, level),
    ensures
        e.after_fence(thread, level).wf(),
{
    let next = e.after_fence(thread, level);
    let view = nth(e.threads, thread);
    let after = e.fenced_view(thread, level, succ(e.global));
    assert(e.view_ok(nth(e.threads, thread)));
    assert forall|a: usize| next.cap(a) == e.cap(a) by {}
    let met = stamp_join(view.mem, e.seq_cst);
    lemma_bounded_join(e, view.mem, e.seq_cst);
    lemma_bounded_join(e, e.seq_cst, met);
    lemma_bounded_join(e, view.fence.fence, met);
    lemma_bounded_join(e, view.fence.fence, view.mem);
    lemma_bounded_join(e, met, view.read_fence.fence);
    lemma_bounded_join(e, view.mem, view.read_fence.fence);
    lemma_bounded_join(e, stamp_join(met, view.read_fence.fence), view.read_fence.atomic);
    lemma_bounded_join(e, stamp_join(view.mem, view.read_fence.fence), view.read_fence.atomic);
    assert(next.view_ok(after));
    assert forall|i: int| 0 <= i < next.log.len() implies next.record_ok(#[trigger] next.log[i]) by {
        assert(e.record_ok(e.log[i]));
    }
    assert forall|t: int| 0 <= t < next.threads.len() implies next.view_ok(
        #[trigger] next.threads[t],
    ) by {
        if t != thread {
            assert(e.view_ok(e.threads[t]));
        }
    }
}

/// Adding a thread keeps the engine well formed.
pub proof fn lemma_after_add_thread_wf(e: Engine)
    requires
        e.wf(),
    ensures
        e.after_add_thread().wf(),
{
    let next = e.after_add_thread();
    assert forall|a: usize| next.cap(a) == e.cap(a) by {}
    lemma_bounded_empty(next);
    assert forall|i: int| 0 <= i < next.log.len() implies next.record_ok(#[trigger] next.log[i]) by {
        assert(e.record_ok(e.log[i]));
    }
    assert forall|t: int| 0 <= t < next.threads.len() implies next.view_ok(
        #[trigger] next.threads[t],
    ) by {
        if t < e.threads.len() {
            assert(e.view_ok(e.threads[t]));
        }
    }
}

/// No record of a well-formed log wrote an address that is not allocated.
pub proof fn lemma_unwritten(e: Engine, addr: usize)
    requires
        e.wf(),
        addr >= e.genesis.len(),
    ensures
        e.log.filter(writes_to(addr)).len() == 0,
{
    let f = e.log.filter(writes_to(addr));
    if f.len() > 0 {
        e.log.lemma_filter_pred(writes_to(addr), 0);
        assert(f.contains(f[0]));
        e.log.lemma_filter_contains_rev(writes_to(addr), f[0]);
        let i = choose|i: int| 0 <= i < e.log.len() && e.log[i] == f[0];
        assert(e.record_ok(e.log[i]));
    }
}

/// An allocation keeps the engine well formed.
pub proof fn lemma_after_allocate_wf(e: Engine, size: usize)
    requires
        e.can_allocate(size),
    ensures
        e.after_allocate(size).wf(),
{
    let next = e.after_allocate(size);
    assert forall|a: usize| next.cap(a) == e.cap(a) by {
        if a < e.genesis.len() {
            assert(nth(next.genesis, a) == nth(e.genesis, a));
        } else {
            lemma_unwritten(e, a);
            if a < next.genesis.len() {
                assert(nth(next.genesis, a) == Record::genesis(a));
                assert(next.history(a) =~= seq![Record::genesis(a)]);
            }
        }
    }
    assert forall|i: int| 0 <= i < next.log.len() implies next.record_ok(#[trigger] next.log[i]) by {
        assert(e.record_ok(e.log[i]));
    }
    assert forall|t: int| 0 <= t < next.threads.len() implies next.view_ok(
        #[trigger] next.threads[t],
    ) by {
        assert(e.view_ok(e.threads[t]));
    }
    assert forall|a: int| 0 <= a < next.genesis.len() implies (
    #[trigger] next.genesis[a]).is_genesis() && next.genesis[a].address == a by {
        if a < e.genesis.len() {
            assert(e.genesis[a].is_genesis());
        }
    }
    assert forall|a: usize| a < next.genesis.len() implies #[trigger] chained(
        next.genesis,
        next.log,
        a,
    ) by {
        if a < e.genesis.len() {
            assert(nth(next.genesis, a) == nth(e.genesis, a));
            assert(next.history(a) =~= e.history(a));
            assert(chained(e.genesis, e.log, a));
        } else {
            lemma_unwritten(e, a);
            assert(next.history(a) =~= seq![nth(next.genesis, a)]);
        }
    }
}

/// The engine before anything was done is well formed.
pub proof fn lemma_fresh_wf(seed: u64)
    ensures
        Engine::fresh(seed).wf(),
{
}

} // verus!
