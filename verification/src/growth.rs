//! Why nothing goes back: every event keeps the records in their places
//! and lets counters, watermarks and stamps only grow.

use crate::event::Event;
use crate::fence_stamp::FenceStamp;
use crate::index::{nth, succ};
use crate::level::Level;
use crate::model::Engine;
use crate::record::Record;
use crate::stamp::{
    lemma_le_insert, lemma_le_into_join, lemma_le_join, lemma_le_raise, lemma_le_reflexive,
    lemma_le_transitive, stamp_at, stamp_join, stamp_le,
};
use crate::thread_view::ViewState;
use crate::wellformed::{
    lemma_after_add_thread_wf, lemma_after_allocate_wf, lemma_after_fence_wf,
    lemma_after_load_wf, lemma_after_store_wf, lemma_after_update_wf, lemma_cap_within_global,
};
use vstd::prelude::*;

verus! {

/// A fence stamp holds at least what it holds.
pub proof fn lemma_pair_le_reflexive(p: FenceStamp)
    ensures
        p.le(p),
{
}

/// Holding at least as much carries over from fence stamp to fence stamp.
pub proof fn lemma_pair_le_transitive(p: FenceStamp, q: FenceStamp, r: FenceStamp)
    requires
        p.le(q),
        q.le(r),
    ensures
        p.le(r),
{
    lemma_le_transitive(p.atomic, q.atomic, r.atomic);
    lemma_le_transitive(p.fence, q.fence, r.fence);
}

/// A merge of fence stamps holds at least what each of the two holds.
pub proof fn lemma_pair_le_join(p: FenceStamp, q: FenceStamp)
    ensures
        p.le(p.join(q)),
        q.le(p.join(q)),
{
    lemma_le_join(p.atomic, q.atomic);
    lemma_le_join(p.fence, q.fence);
}

/// A view knows at least what it knows.
pub proof fn lemma_view_le_reflexive(v: ViewState)
    ensures
        v.le(v),
{
}

/// Knowing at least as much carries over from view to view.
pub proof fn lemma_view_le_transitive(u: ViewState, v: ViewState, w: ViewState)
    requires
        u.le(v),
        v.le(w),
    ensures
        u.le(w),
{
    lemma_le_transitive(u.mem, v.mem, w.mem);
    lemma_pair_le_transitive(u.fence, v.fence, w.fence);
    lemma_pair_le_transitive(u.read_fence, v.read_fence, w.read_fence);
}

/// What a thread knows once it read a record holds all it knew before.
pub proof fn lemma_acquired_le(v: ViewState, rec: Record, level: Level)
    ensures
        stamp_le(v.mem, v.acquired(rec, level)),
{
    lemma_le_reflexive(v.mem);
    lemma_le_join(v.mem, rec.source);
    lemma_le_join(v.mem, rec.source_fence.fence);
    lemma_le_into_join(v.mem, stamp_join(v.mem, rec.source), rec.source_fence.fence);
}

/// A read takes nothing from a view, and the view knows the record read.
pub proof fn lemma_read_grows(v: ViewState, rec: Record, level: Level)
    ensures
        v.le(v.after_read(rec, level)),
        stamp_at(v.after_read(rec, level).mem, rec.address) >= rec.global,
{
    lemma_acquired_le(v, rec, level);
    lemma_le_raise(v.acquired(rec, level), rec.address, rec.global);
    lemma_le_transitive(v.mem, v.acquired(rec, level), v.after_read(rec, level).mem);
    lemma_pair_le_join(v.read_fence, rec.source_fence);
    lemma_pair_le_reflexive(v.fence);
}

/// A write under a ticket that is no lower than what the view knows of the
/// address takes nothing from the view.
pub proof fn lemma_write_grows(v: ViewState, ticket: usize, addr: usize, level: Level)
    requires
        stamp_at(v.mem, addr) <= ticket,
    ensures
        v.le(v.after_write(ticket, addr, level)),
        stamp_at(v.after_write(ticket, addr, level).mem, addr) == ticket,
{
    lemma_le_insert(v.mem, addr, ticket);
    lemma_le_join(v.fence.atomic, v.mem.insert(addr, ticket));
    lemma_le_reflexive(v.fence.atomic);
    lemma_le_reflexive(v.fence.fence);
    lemma_pair_le_reflexive(v.read_fence);
}

/// A fence takes nothing from the view of its thread.
pub proof fn lemma_fence_grows(e: Engine, thread: usize, level: Level)
    requires
        e.can_fence(thread, level),
    ensures
        nth(e.threads, thread).le(e.fenced_view(thread, level, succ(e.global))),
{
    let v = nth(e.threads, thread);
    let met = stamp_join(v.mem, e.seq_cst);
    assert(e.view_ok(v));
    lemma_le_reflexive(v.mem);
    lemma_le_join(v.mem, e.seq_cst);
    lemma_le_into_join(v.mem, v.mem, v.read_fence.fence);
    lemma_le_into_join(v.mem, met, v.read_fence.fence);
    lemma_le_into_join(v.mem, stamp_join(v.mem, v.read_fence.fence), v.read_fence.atomic);
    lemma_le_into_join(v.mem, stamp_join(met, v.read_fence.fence), v.read_fence.atomic);
    lemma_le_reflexive(v.fence.atomic);
    lemma_le_reflexive(v.fence.fence);
    lemma_le_join(v.fence.fence, met);
    lemma_le_join(v.fence.fence, v.mem);
    lemma_pair_le_reflexive(v.read_fence);
}

/// A state comes after itself.
pub proof fn lemma_follows_reflexive(e: Engine)
    ensures
        e.follows(e),
{
    lemma_le_reflexive(e.seq_cst);
    assert forall|t: int| 0 <= t < e.threads.len() implies (#[trigger] e.threads[t]).le(
        e.threads[t],
    ) by {
        lemma_view_le_reflexive(e.threads[t]);
    }
}

/// Coming after carries over from state to state.
pub proof fn lemma_follows_transitive(a: Engine, b: Engine, c: Engine)
    requires
        b.follows(a),
        c.follows(b),
    ensures
        c.follows(a),
{
    lemma_le_transitive(a.seq_cst, b.seq_cst, c.seq_cst);
    assert forall|t: int| 0 <= t < a.threads.len() implies (#[trigger] a.threads[t]).le(
        c.threads[t],
    ) by {
        assert(a.threads[t].le(b.threads[t]));
        assert(b.threads[t].le(c.threads[t]));
        lemma_view_le_transitive(a.threads[t], b.threads[t], c.threads[t]);
    }
    assert forall|i: int| 0 <= i < a.log.len() implies #[trigger] c.log[i] == a.log[i] by {
        assert(b.log[i] == a.log[i]);
    }
    assert forall|i: int| 0 <= i < a.genesis.len() implies #[trigger] c.genesis[i]
        == a.genesis[i] by {
        assert(b.genesis[i] == a.genesis[i]);
    }
}

/// The state with a new view for one thread comes after the state before
/// where the new view knows at least what the old one did.
pub proof fn lemma_with_view_follows(e: Engine, next: Engine, thread: usize, view: ViewState)
    requires
        thread < e.threads.len(),
        nth(e.threads, thread).le(view),
        next.threads == e.threads.update(thread as int, view),
        next.genesis == e.genesis,
        e.log.len() <= next.log.len(),
        forall|i: int| 0 <= i < e.log.len() ==> #[trigger] next.log[i] == e.log[i],
        e.global <= next.global,
        stamp_le(e.seq_cst, next.seq_cst),
    ensures
        next.follows(e),
{
    assert forall|t: int| 0 <= t < e.threads.len() implies (#[trigger] e.threads[t]).le(
        next.threads[t],
    ) by {
        if t != thread {
            lemma_view_le_reflexive(e.threads[t]);
        }
    }
}

/// Every event leads to a well-formed state that comes after the state
/// before.
pub proof fn lemma_step(e: Engine, event: Event)
    requires
        e.admits(event),
    ensures
        e.after(event).wf(),
        e.after(event).follows(e),
{
    let next = e.after(event);
    lemma_le_reflexive(e.seq_cst);
    match event {
        Event::Allocate { size } => {
            lemma_after_allocate_wf(e, size);
            lemma_follows_reflexive(e);
        },
        Event::AddThread => {
            lemma_after_add_thread_wf(e);
            lemma_follows_reflexive(e);
        },
        Event::Draw => {
            lemma_follows_reflexive(e);
            assert(next.wf()) by {
                assert forall|a: usize| next.cap(a) == e.cap(a) by {}
                assert forall|i: int| 0 <= i < next.log.len() implies next.record_ok(
                    #[trigger] next.log[i],
                ) by {
                    assert(e.record_ok(e.log[i]));
                }
                assert forall|t: int| 0 <= t < next.threads.len() implies next.view_ok(
                    #[trigger] next.threads[t],
                ) by {
                    assert(e.view_ok(e.threads[t]));
                }
            }
        },
        Event::Store { thread, addr, value, level } => {
            lemma_after_store_wf(e, thread, addr, value, level);
            let v = nth(e.threads, thread);
            assert(e.view_ok(v));
            assert(stamp_at(v.mem, addr) <= e.cap(addr));
            lemma_cap_within_global(e, addr);
            lemma_write_grows(v, succ(e.global), addr, level);
            lemma_with_view_follows(
                e,
                next,
                thread,
                v.after_write(succ(e.global), addr, level),
            );
        },
        Event::Load { thread, addr, level, word } => {
            lemma_after_load_wf(e, thread, addr, level, word);
            let v = nth(e.threads, thread);
            let rec = e.chosen(thread, addr, level, word);
            lemma_read_grows(v, rec, level);
            lemma_with_view_follows(e, next, thread, v.after_read(rec, level));
        },
        Event::Fence { thread, level } => {
            lemma_after_fence_wf(e, thread, level);
            lemma_fence_grows(e, thread, level);
            let v = nth(e.threads, thread);
            lemma_le_join(e.seq_cst, stamp_join(v.mem, e.seq_cst));
            lemma_with_view_follows(
                e,
                next,
                thread,
                e.fenced_view(thread, level, succ(e.global)),
            );
        },
        Event::Update { thread, addr, outcome, success, failure } => {
            lemma_after_update_wf(e, thread, addr, outcome, success, failure);
            let v = nth(e.threads, thread);
            let pred = e.newest(addr);
            match outcome {
                None => {
                    lemma_read_grows(v, pred, failure);
                    lemma_with_view_follows(e, next, thread, v.after_read(pred, failure));
                },
                Some(value) => {
                    let read = v.after_read(pred, success.load_side());
                    lemma_read_grows(v, pred, success.load_side());
                    assert(e.view_ok(v));
                    crate::wellformed::lemma_newest(e, addr);
                    crate::wellformed::lemma_read_bounded(e, v, pred, success.load_side());
                    assert(stamp_at(read.mem, addr) <= e.cap(addr));
                    lemma_write_grows(read, succ(e.global), addr, success.store_side());
                    lemma_view_le_transitive(v, read, e.updating_view(thread, addr, success));
                    lemma_with_view_follows(
                        e,
                        next,
                        thread,
                        e.updating_view(thread, addr, success),
                    );
                },
            }
        },
    }
}

/// Every run leads to a well-formed state that comes after the state
/// before.
pub proof fn lemma_run(e: Engine, run: Seq<Event>)
    requires
        e.wf(),
        e.admits_all(run),
    ensures
        e.after_all(run).wf(),
        e.after_all(run).follows(e),
    decreases run.len(),
{
    if run.len() == 0 {
        lemma_follows_reflexive(e);
    } else {
        lemma_step(e, run[0]);
        lemma_run(e.after(run[0]), run.drop_first());
        lemma_follows_transitive(e, e.after(run[0]), e.after_all(run));
    }
}

} // verus!
