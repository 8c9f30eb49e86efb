//! The engine on given values: what each operation returns and what it
//! leaves in the log and in the views.

use memlog::level::{to_level, Level};
use memlog::log::{MemorySequence, MemorySystem};
use memlog::random::WordBlock;
use memlog::thread_view::ThreadView;
use rand::{RngCore, SeedableRng};
use rand_chacha::ChaCha8Rng;
use std::collections::HashMap;
use std::sync::atomic::Ordering;

fn map(pairs: &[(usize, usize)]) -> HashMap<usize, usize> {
    pairs.iter().copied().collect()
}

fn engine(threads: usize, addrs: usize) -> MemorySystem {
    let mut ms = MemorySystem::with_seed(1);
    assert_eq!(ms.malloc(addrs), 0);
    for i in 0..threads {
        assert_eq!(ms.add_thread(), i);
    }
    ms
}

fn mem(ms: &MemorySystem, thread: usize) -> &HashMap<usize, usize> {
    &ms.threads[thread].mem_sequence.sequence
}

fn assert_fresh_view(v: &ThreadView) {
    assert_eq!(v.sequence, 0);
    assert_eq!(v.min_seq_cst_sequence, 0);
    assert!(v.mem_sequence.sequence.is_empty());
    assert!(v.fence_sequence.atomic.sequence.is_empty());
    assert!(v.fence_sequence.fence.sequence.is_empty());
    assert!(v.read_fence_sequence.atomic.sequence.is_empty());
    assert!(v.read_fence_sequence.fence.sequence.is_empty());
}

#[test]
fn store_then_load_same_thread() {
    let mut ms = MemorySystem::with_seed(7);
    let base = ms.malloc(4);
    assert_eq!(base, 0);
    let t = ms.add_thread();
    assert_eq!(t, 0);
    assert_eq!(ms.load(t, 1, Ordering::Relaxed), 0);
    ms.store(t, 1, 42, Ordering::Relaxed);
    assert_eq!(ms.load(t, 1, Ordering::Relaxed), 42);
    assert_eq!(ms.global_sequence, 11);
    assert_eq!(ms.log.len(), 1);
}

#[test]
fn a_new_engine_holds_nothing() {
    let ms = MemorySystem::with_seed(5);
    assert_eq!(ms.global_sequence, 10);
    assert_eq!(ms.seed, 5);
    assert_eq!(ms.draws, 0);
    assert!(ms.log.is_empty() && ms.acc.is_empty() && ms.threads.is_empty());
    assert!(ms.seq_cst_sequence.sequence.is_empty());
    let ms = MemorySystem::default();
    assert_eq!(ms.global_sequence, 10);
    assert_eq!(ms.draws, 0);
    assert!(ms.log.is_empty() && ms.acc.is_empty() && ms.threads.is_empty());
}

#[test]
fn malloc_adds_initial_records_and_returns_the_base() {
    let mut ms = MemorySystem::with_seed(1);
    assert_eq!(ms.malloc(3), 0);
    assert_eq!(ms.malloc(2), 3);
    assert_eq!(ms.malloc(0), 5);
    assert_eq!(ms.acc.len(), 5);
    for (i, r) in ms.acc.iter().enumerate() {
        assert_eq!(r.address, i);
        assert_eq!(r.value, 0);
        assert_eq!(r.global_sequence, 0);
        assert_eq!(r.thread, 0);
        assert_eq!(r.thread_sequence, 0);
        assert_eq!(r.level, Level::Relaxed);
        assert!(!r.release_chain);
        assert!(r.source_sequence.sequence.is_empty());
        assert!(r.source_fence_sequence.atomic.sequence.is_empty());
        assert!(r.source_fence_sequence.fence.sequence.is_empty());
    }
    assert_eq!(ms.global_sequence, 10);
    assert!(ms.log.is_empty());
    // An address of the second range reads as zero and can be written.
    let t = ms.add_thread();
    assert_eq!(ms.load_with(t, 4, Ordering::SeqCst, 9), 0);
    ms.store(t, 4, 6, Ordering::Relaxed);
    assert_eq!(ms.latest(4), 6);
    assert_eq!(ms.latest(3), 0);
}

#[test]
fn add_thread_adds_a_view_that_knows_nothing() {
    let mut ms = MemorySystem::with_seed(1);
    assert_eq!(ms.add_thread(), 0);
    assert_eq!(ms.add_thread(), 1);
    assert_eq!(ms.threads.len(), 2);
    assert_fresh_view(&ms.threads[0]);
    assert_fresh_view(&ms.threads[1]);
    assert_fresh_view(&ThreadView::default());
    assert_eq!(ms.global_sequence, 10);
}

#[test]
fn levels_of_orderings() {
    assert_eq!(to_level(Ordering::Relaxed), Level::Relaxed);
    assert_eq!(to_level(Ordering::Acquire), Level::Acquire);
    assert_eq!(to_level(Ordering::Release), Level::Release);
    assert_eq!(to_level(Ordering::AcqRel), Level::AcqRel);
    assert_eq!(to_level(Ordering::SeqCst), Level::SeqCst);
}

#[test]
fn a_relaxed_store_publishes_no_atomic_channel() {
    let mut ms = engine(2, 3);
    ms.store(0, 0, 7, Ordering::Relaxed);
    assert_eq!(ms.global_sequence, 11);
    assert_eq!(ms.threads[0].sequence, 1);
    assert_eq!(mem(&ms, 0), &map(&[(0, 11)]));
    assert!(ms.threads[0].fence_sequence.atomic.sequence.is_empty());
    assert!(ms.threads[0].fence_sequence.fence.sequence.is_empty());
    assert_fresh_view(&ms.threads[1]);
    assert_eq!(ms.log.len(), 1);
    let r = &ms.log[0];
    assert_eq!((r.thread, r.thread_sequence, r.global_sequence), (0, 1, 11));
    assert_eq!((r.address, r.value, r.level), (0, 7, Level::Relaxed));
    assert!(!r.release_chain);
    assert_eq!(r.source_sequence.sequence, map(&[(0, 11)]));
    assert!(r.source_fence_sequence.atomic.sequence.is_empty());
    assert!(r.source_fence_sequence.fence.sequence.is_empty());
    assert!(ms.seq_cst_sequence.sequence.is_empty());
}

#[test]
fn a_release_store_publishes_all_its_thread_knows() {
    for (order, level) in [
        (Ordering::Release, Level::Release),
        (Ordering::SeqCst, Level::SeqCst),
    ] {
        let mut ms = engine(2, 3);
        ms.store(0, 0, 7, Ordering::Relaxed);
        ms.store(0, 1, 8, order);
        assert_eq!(ms.global_sequence, 12);
        assert_eq!(ms.threads[0].sequence, 2);
        assert_eq!(mem(&ms, 0), &map(&[(0, 11), (1, 12)]));
        assert_eq!(
            ms.threads[0].fence_sequence.atomic.sequence,
            map(&[(0, 11), (1, 12)])
        );
        assert!(ms.threads[0].fence_sequence.fence.sequence.is_empty());
        let r = &ms.log[1];
        assert_eq!((r.thread, r.thread_sequence, r.global_sequence), (0, 2, 12));
        assert_eq!((r.address, r.value, r.level), (1, 8, level));
        assert!(!r.release_chain);
        assert_eq!(r.source_sequence.sequence, map(&[(0, 11), (1, 12)]));
        assert_eq!(
            r.source_fence_sequence.atomic.sequence,
            map(&[(0, 11), (1, 12)])
        );
        assert!(r.source_fence_sequence.fence.sequence.is_empty());
        // A store leaves what the SeqCst fences know as it is.
        assert!(ms.seq_cst_sequence.sequence.is_empty());
    }
}

#[test]
fn a_load_picks_among_the_records_its_thread_may_read() {
    let mut ms = engine(2, 1);
    ms.store(0, 0, 5, Ordering::Relaxed);
    ms.store(0, 0, 6, Ordering::Relaxed);
    ms.store(0, 0, 7, Ordering::Relaxed);
    // A thread that knows nothing may read any of the four records.
    for (word, value) in [(0, 0), (1, 5), (2, 6), (3, 7), (4, 0), (7, 7), (u32::MAX, 7)] {
        let mut ms = engine(2, 1);
        ms.store(0, 0, 5, Ordering::Relaxed);
        ms.store(0, 0, 6, Ordering::Relaxed);
        ms.store(0, 0, 7, Ordering::Relaxed);
        assert_eq!(ms.load_with(1, 0, Ordering::Relaxed, word), value);
        assert_eq!(ms.draws, 0);
        assert_eq!(ms.log.len(), 3);
        assert_eq!(ms.global_sequence, 13);
    }
    // Once it has read the second write, it reads that or the third.
    assert_eq!(ms.load_with(1, 0, Ordering::Relaxed, 2), 6);
    assert_eq!(mem(&ms, 1), &map(&[(0, 12)]));
    assert_eq!(ms.threads[1].sequence, 0);
    assert_eq!(ms.load_with(1, 0, Ordering::Relaxed, 0), 6);
    assert_eq!(ms.load_with(1, 0, Ordering::Relaxed, 2), 6);
    assert_eq!(ms.load_with(1, 0, Ordering::Relaxed, 1), 7);
    assert_eq!(mem(&ms, 1), &map(&[(0, 13)]));
    for word in 0..5 {
        assert_eq!(ms.load_with(1, 0, Ordering::Relaxed, word), 7);
        // The writer reads its own newest write.
        assert_eq!(ms.load_with(0, 0, Ordering::Relaxed, word), 7);
    }
}

#[test]
fn a_load_of_the_initial_record_notes_ticket_zero() {
    let mut ms = engine(1, 2);
    assert_eq!(ms.load_with(0, 1, Ordering::Acquire, 0), 0);
    assert_eq!(mem(&ms, 0), &map(&[(1, 0)]));
    assert!(ms.threads[0].read_fence_sequence.atomic.sequence.is_empty());
    assert_eq!(ms.global_sequence, 10);
}

#[test]
fn an_acquire_load_of_a_release_store_takes_over_its_stamp() {
    let mut ms = engine(2, 3);
    ms.store(0, 0, 7, Ordering::Relaxed);
    ms.store(0, 1, 8, Ordering::Release);
    assert_eq!(ms.load_with(1, 1, Ordering::Acquire, 1), 8);
    assert_eq!(mem(&ms, 1), &map(&[(0, 11), (1, 12)]));
    assert_eq!(
        ms.threads[1].read_fence_sequence.atomic.sequence,
        map(&[(0, 11), (1, 12)])
    );
    assert!(ms.threads[1].read_fence_sequence.fence.sequence.is_empty());
    assert_eq!(ms.threads[1].sequence, 0);
    assert_eq!(ms.global_sequence, 12);
    for word in 0..4 {
        assert_eq!(ms.load_with(1, 0, Ordering::Relaxed, word), 7);
    }
}

#[test]
fn a_relaxed_load_of_a_release_store_only_gathers_for_a_fence() {
    let mut ms = engine(2, 3);
    ms.store(0, 0, 7, Ordering::Relaxed);
    ms.store(0, 1, 8, Ordering::Release);
    assert_eq!(ms.load_with(1, 1, Ordering::Relaxed, 1), 8);
    assert_eq!(mem(&ms, 1), &map(&[(1, 12)]));
    assert_eq!(
        ms.threads[1].read_fence_sequence.atomic.sequence,
        map(&[(0, 11), (1, 12)])
    );
    // The store to the other address may still be missed.
    assert_eq!(ms.load_with(1, 0, Ordering::Relaxed, 0), 0);
}

#[test]
fn an_acquire_load_of_a_relaxed_store_takes_over_nothing() {
    let mut ms = engine(2, 3);
    ms.store(0, 0, 7, Ordering::Relaxed);
    ms.store(0, 1, 8, Ordering::Relaxed);
    assert_eq!(ms.load_with(1, 1, Ordering::Acquire, 1), 8);
    assert_eq!(mem(&ms, 1), &map(&[(1, 12)]));
    assert!(ms.threads[1].read_fence_sequence.atomic.sequence.is_empty());
    assert_eq!(ms.load_with(1, 0, Ordering::Relaxed, 0), 0);
}

/// Thread 1 stores to address 2 and releases at address 1; thread 0 reads the
/// release with a relaxed load, so that its reads have gathered what its
/// view does not know.
fn engine_before_fence() -> MemorySystem {
    let mut ms = engine(2, 3);
    ms.store(1, 2, 4, Ordering::Relaxed);
    ms.store(1, 1, 8, Ordering::Release);
    assert_eq!(ms.load_with(0, 1, Ordering::Relaxed, 1), 8);
    assert_eq!(mem(&ms, 0), &map(&[(1, 12)]));
    assert_eq!(
        ms.threads[0].read_fence_sequence.atomic.sequence,
        map(&[(2, 11), (1, 12)])
    );
    ms
}

#[test]
fn an_acquire_fence_takes_over_what_the_reads_gathered() {
    let mut ms = engine_before_fence();
    ms.fence(0, Ordering::Acquire);
    assert_eq!(ms.global_sequence, 13);
    assert_eq!(ms.threads[0].sequence, 1);
    assert_eq!(ms.threads[0].min_seq_cst_sequence, 0);
    assert_eq!(mem(&ms, 0), &map(&[(1, 12), (2, 11)]));
    assert!(ms.threads[0].fence_sequence.atomic.sequence.is_empty());
    assert!(ms.threads[0].fence_sequence.fence.sequence.is_empty());
    assert!(ms.seq_cst_sequence.sequence.is_empty());
    assert_eq!(ms.log.len(), 2);
    for word in 0..3 {
        assert_eq!(ms.load_with(0, 2, Ordering::Relaxed, word), 4);
    }
}

#[test]
fn a_release_fence_fills_the_fence_channel() {
    let mut ms = engine_before_fence();
    ms.fence(0, Ordering::Release);
    assert_eq!(ms.global_sequence, 13);
    assert_eq!(ms.threads[0].sequence, 1);
    assert_eq!(ms.threads[0].min_seq_cst_sequence, 0);
    assert_eq!(mem(&ms, 0), &map(&[(1, 12)]));
    assert!(ms.threads[0].fence_sequence.atomic.sequence.is_empty());
    assert_eq!(ms.threads[0].fence_sequence.fence.sequence, map(&[(1, 12)]));
    assert!(ms.seq_cst_sequence.sequence.is_empty());
    // A relaxed store made after the fence carries the fence channel.
    ms.store(0, 0, 3, Ordering::Relaxed);
    let r = &ms.log[2];
    assert_eq!(r.global_sequence, 14);
    assert_eq!(r.thread_sequence, 2);
    assert!(r.source_fence_sequence.atomic.sequence.is_empty());
    assert_eq!(r.source_fence_sequence.fence.sequence, map(&[(1, 12)]));
}

#[test]
fn an_acq_rel_fence_does_both() {
    let mut ms = engine_before_fence();
    ms.fence(0, Ordering::AcqRel);
    assert_eq!(ms.global_sequence, 13);
    assert_eq!(ms.threads[0].min_seq_cst_sequence, 0);
    assert_eq!(mem(&ms, 0), &map(&[(1, 12), (2, 11)]));
    assert_eq!(ms.threads[0].fence_sequence.fence.sequence, map(&[(1, 12)]));
    assert!(ms.seq_cst_sequence.sequence.is_empty());
}

#[test]
fn a_seq_cst_fence_meets_the_other_seq_cst_fences() {
    let mut ms = engine_before_fence();
    ms.fence(0, Ordering::SeqCst);
    assert_eq!(ms.global_sequence, 13);
    assert_eq!(ms.threads[0].sequence, 1);
    assert_eq!(ms.threads[0].min_seq_cst_sequence, 13);
    assert_eq!(mem(&ms, 0), &map(&[(1, 12), (2, 11)]));
    assert_eq!(ms.threads[0].fence_sequence.fence.sequence, map(&[(1, 12)]));
    assert_eq!(ms.seq_cst_sequence.sequence, map(&[(1, 12)]));
    // The fence of another thread takes over what the first made known.
    ms.add_thread();
    ms.fence(2, Ordering::SeqCst);
    assert_eq!(ms.global_sequence, 14);
    assert_eq!(ms.threads[2].min_seq_cst_sequence, 14);
    assert_eq!(mem(&ms, 2), &map(&[(1, 12)]));
    assert_eq!(ms.seq_cst_sequence.sequence, map(&[(1, 12)]));
    for word in 0..3 {
        assert_eq!(ms.load_with(2, 1, Ordering::Relaxed, word), 8);
    }
    // And the fence of the writer adds what the writer knows.
    ms.fence(1, Ordering::SeqCst);
    assert_eq!(ms.seq_cst_sequence.sequence, map(&[(1, 12), (2, 11)]));
    assert_eq!(ms.threads[1].min_seq_cst_sequence, 15);
}

#[test]
fn a_seq_cst_load_reads_no_older_than_the_newest_seq_cst_store() {
    let mut ms = engine(2, 1);
    ms.store(0, 0, 5, Ordering::Relaxed);
    ms.store(0, 0, 6, Ordering::SeqCst);
    ms.store(0, 0, 7, Ordering::Relaxed);
    for (word, value) in [(0, 6), (1, 7), (2, 6), (3, 7)] {
        let mut ms = engine(2, 1);
        ms.store(0, 0, 5, Ordering::Relaxed);
        ms.store(0, 0, 6, Ordering::SeqCst);
        ms.store(0, 0, 7, Ordering::Relaxed);
        assert_eq!(ms.load_with(1, 0, Ordering::SeqCst, word), value);
    }
    // A load at another level may read any of the four records.
    for order in [Ordering::Relaxed, Ordering::Acquire] {
        for (word, value) in [(0, 0), (1, 5), (2, 6), (3, 7)] {
            let mut ms = engine(2, 1);
            ms.store(0, 0, 5, Ordering::Relaxed);
            ms.store(0, 0, 6, Ordering::SeqCst);
            ms.store(0, 0, 7, Ordering::Relaxed);
            assert_eq!(ms.load_with(1, 0, order, word), value);
        }
    }
    // After a SeqCst fence of its own, a relaxed load is held to the same
    // floor.
    ms.fence(1, Ordering::SeqCst);
    assert_eq!(ms.threads[1].min_seq_cst_sequence, 14);
    assert!(mem(&ms, 1).is_empty());
    assert_eq!(ms.load_with(1, 0, Ordering::Relaxed, 0), 6);
}

#[test]
fn a_seq_cst_fence_hides_only_the_seq_cst_stores_made_before_it() {
    let mut ms = engine(2, 1);
    ms.fence(1, Ordering::SeqCst);
    assert_eq!(ms.threads[1].min_seq_cst_sequence, 11);
    ms.store(0, 0, 5, Ordering::Relaxed);
    ms.store(0, 0, 6, Ordering::SeqCst);
    for (word, value) in [(0, 0), (1, 5), (2, 6)] {
        let mut ms = engine(2, 1);
        ms.fence(1, Ordering::SeqCst);
        ms.store(0, 0, 5, Ordering::Relaxed);
        ms.store(0, 0, 6, Ordering::SeqCst);
        assert_eq!(ms.load_with(1, 0, Ordering::Relaxed, word), value);
    }
    // A SeqCst load is held to the SeqCst store all the same.
    for word in 0..3 {
        assert_eq!(ms.load_with(1, 0, Ordering::SeqCst, word), 6);
    }
}

#[test]
fn a_seq_cst_load_reads_no_older_than_what_a_seq_cst_fence_made_known() {
    for (order, values) in [
        (Ordering::SeqCst, [5, 5]),
        (Ordering::Relaxed, [0, 5]),
        (Ordering::Acquire, [0, 5]),
    ] {
        for word in 0..2 {
            let mut ms = engine(2, 1);
            ms.store(0, 0, 5, Ordering::Relaxed);
            ms.fence(0, Ordering::SeqCst);
            assert_eq!(ms.seq_cst_sequence.sequence, map(&[(0, 11)]));
            assert_eq!(ms.load_with(1, 0, order, word), values[word as usize]);
        }
    }
}

#[test]
fn latest_reads_the_newest_value() {
    let mut ms = engine(2, 2);
    assert_eq!(ms.latest(0), 0);
    ms.store(0, 0, 5, Ordering::Relaxed);
    ms.store(1, 1, 9, Ordering::Relaxed);
    ms.store(1, 0, 6, Ordering::Relaxed);
    assert_eq!(ms.latest(0), 6);
    assert_eq!(ms.latest(1), 9);
    assert_eq!(ms.global_sequence, 13);
}

#[test]
fn a_failed_update_only_reads_at_the_failure_level() {
    let mut ms = engine(2, 3);
    ms.store(0, 0, 7, Ordering::Relaxed);
    ms.store(0, 1, 8, Ordering::Release);
    assert_eq!(ms.rmw(1, 1, None, Ordering::SeqCst, Ordering::Acquire), Err(8));
    assert_eq!(ms.log.len(), 2);
    assert_eq!(ms.global_sequence, 12);
    assert_eq!(ms.threads[1].sequence, 0);
    assert_eq!(mem(&ms, 1), &map(&[(0, 11), (1, 12)]));
    assert_eq!(
        ms.threads[1].read_fence_sequence.atomic.sequence,
        map(&[(0, 11), (1, 12)])
    );
    // With a relaxed failure level the stamp of the store is not taken.
    let mut ms = engine(2, 3);
    ms.store(0, 0, 7, Ordering::Relaxed);
    ms.store(0, 1, 8, Ordering::Release);
    assert_eq!(ms.rmw(1, 1, None, Ordering::SeqCst, Ordering::Relaxed), Err(8));
    assert_eq!(mem(&ms, 1), &map(&[(1, 12)]));
    assert_eq!(ms.log.len(), 2);
}

#[test]
fn a_relaxed_update_forwards_the_stamps_of_a_release() {
    let mut ms = engine(3, 3);
    ms.store(0, 0, 7, Ordering::Relaxed);
    ms.store(0, 1, 8, Ordering::Release);
    assert_eq!(
        ms.rmw(1, 1, Some(9), Ordering::Relaxed, Ordering::Relaxed),
        Ok(8)
    );
    assert_eq!(ms.global_sequence, 13);
    assert_eq!(ms.threads[1].sequence, 1);
    assert_eq!(mem(&ms, 1), &map(&[(1, 13)]));
    assert!(ms.threads[1].fence_sequence.atomic.sequence.is_empty());
    assert_eq!(
        ms.threads[1].read_fence_sequence.atomic.sequence,
        map(&[(0, 11), (1, 12)])
    );
    let r = &ms.log[2];
    assert_eq!((r.thread, r.thread_sequence, r.global_sequence), (1, 1, 13));
    assert_eq!((r.address, r.value, r.level), (1, 9, Level::Relaxed));
    assert!(r.release_chain);
    assert_eq!(r.source_sequence.sequence, map(&[(0, 11), (1, 12)]));
    assert!(r.source_fence_sequence.atomic.sequence.is_empty());
    assert!(r.source_fence_sequence.fence.sequence.is_empty());
    // The updating thread itself may still miss the first store.
    assert_eq!(ms.load_with(1, 0, Ordering::Relaxed, 0), 0);
    // An acquire load of the update knows what the release published.
    assert_eq!(ms.load_with(2, 1, Ordering::Acquire, 2), 9);
    assert_eq!(mem(&ms, 2), &map(&[(0, 11), (1, 13)]));
    for word in 0..3 {
        assert_eq!(ms.load_with(2, 0, Ordering::Relaxed, word), 7);
    }
}

#[test]
fn an_update_after_a_relaxed_store_publishes_its_own_stamps() {
    let mut ms = engine(2, 3);
    ms.store(0, 0, 5, Ordering::Relaxed);
    assert_eq!(
        ms.rmw(1, 0, Some(6), Ordering::Release, Ordering::Relaxed),
        Ok(5)
    );
    assert_eq!(ms.global_sequence, 12);
    assert_eq!(mem(&ms, 1), &map(&[(0, 12)]));
    assert_eq!(ms.threads[1].fence_sequence.atomic.sequence, map(&[(0, 12)]));
    let r = &ms.log[1];
    assert_eq!((r.thread, r.thread_sequence, r.global_sequence), (1, 1, 12));
    assert_eq!((r.address, r.value, r.level), (0, 6, Level::Release));
    assert!(!r.release_chain);
    assert_eq!(r.source_sequence.sequence, map(&[(0, 12)]));
    assert_eq!(r.source_fence_sequence.atomic.sequence, map(&[(0, 12)]));
    assert!(r.source_fence_sequence.fence.sequence.is_empty());
}

#[test]
fn an_acq_rel_update_reads_as_acquire_and_writes_as_release() {
    let mut ms = engine(2, 3);
    ms.store(0, 1, 3, Ordering::Relaxed);
    ms.store(0, 0, 5, Ordering::Release);
    ms.store(1, 2, 9, Ordering::Relaxed);
    assert_eq!(
        ms.rmw(1, 0, Some(6), Ordering::AcqRel, Ordering::Relaxed),
        Ok(5)
    );
    assert_eq!(ms.global_sequence, 14);
    assert_eq!(ms.threads[1].sequence, 2);
    assert_eq!(mem(&ms, 1), &map(&[(0, 14), (1, 11), (2, 13)]));
    assert_eq!(
        ms.threads[1].fence_sequence.atomic.sequence,
        map(&[(0, 14), (1, 11), (2, 13)])
    );
    let r = &ms.log[3];
    assert_eq!((r.thread, r.thread_sequence, r.global_sequence), (1, 2, 14));
    assert_eq!((r.address, r.value, r.level), (0, 6, Level::Release));
    assert!(r.release_chain);
    assert_eq!(
        r.source_sequence.sequence,
        map(&[(0, 14), (1, 11), (2, 13)])
    );
    assert_eq!(
        r.source_fence_sequence.atomic.sequence,
        map(&[(0, 14), (1, 11), (2, 13)])
    );
    assert!(r.source_fence_sequence.fence.sequence.is_empty());
}

#[test]
fn an_acquire_update_forwards_without_its_own_stamps() {
    let mut ms = engine(2, 3);
    ms.store(0, 1, 3, Ordering::Relaxed);
    ms.store(0, 0, 5, Ordering::Release);
    ms.store(1, 2, 9, Ordering::Relaxed);
    assert_eq!(
        ms.rmw(1, 0, Some(6), Ordering::Acquire, Ordering::Relaxed),
        Ok(5)
    );
    assert_eq!(mem(&ms, 1), &map(&[(0, 14), (1, 11), (2, 13)]));
    assert!(ms.threads[1].fence_sequence.atomic.sequence.is_empty());
    let r = &ms.log[3];
    assert_eq!(r.level, Level::Acquire);
    assert!(r.release_chain);
    assert_eq!(r.source_sequence.sequence, map(&[(0, 12), (1, 11)]));
    assert_eq!(
        r.source_fence_sequence.atomic.sequence,
        map(&[(0, 12), (1, 11)])
    );
}

#[test]
fn op_applies_the_function_to_the_newest_value() {
    let mut ms = engine(2, 1);
    ms.store(0, 0, 5, Ordering::Relaxed);
    let double = |v: usize| if v < 8 { Some(v * 2) } else { None };
    assert_eq!(ms.op(1, 0, double, Ordering::Relaxed, Ordering::Relaxed), Ok(5));
    assert_eq!(ms.latest(0), 10);
    assert_eq!(ms.log.len(), 2);
    assert_eq!(
        ms.op(1, 0, double, Ordering::Relaxed, Ordering::Relaxed),
        Err(10)
    );
    assert_eq!(ms.latest(0), 10);
    assert_eq!(ms.log.len(), 2);
    assert_eq!(ms.global_sequence, 12);
}

#[test]
fn fetch_op_returns_the_value_it_replaced() {
    let mut ms = engine(2, 1);
    assert_eq!(ms.fetch_op(0, 0, |v| v + 23, Ordering::Relaxed), 0);
    assert_eq!(ms.fetch_op(1, 0, |v| v + 23, Ordering::SeqCst), 23);
    assert_eq!(ms.latest(0), 46);
    assert_eq!(ms.global_sequence, 12);
    assert_eq!(ms.log[0].value, 23);
    assert_eq!(ms.log[1].value, 46);
    assert_eq!(ms.log[1].level, Level::SeqCst);
    // An update never reads a stale value, whatever its thread knows.
    assert!(mem(&ms, 1).get(&0) == Some(&12));
}

#[test]
fn compare_exchange_writes_only_over_the_expected_value() {
    let mut ms = engine(2, 1);
    ms.store(0, 0, 5, Ordering::Relaxed);
    assert_eq!(
        ms.compare_exchange(1, 0, 4, 9, Ordering::SeqCst, Ordering::Relaxed),
        Err(5)
    );
    assert_eq!(ms.log.len(), 1);
    assert_eq!(ms.global_sequence, 11);
    assert_eq!(
        ms.compare_exchange(1, 0, 5, 9, Ordering::SeqCst, Ordering::Relaxed),
        Ok(5)
    );
    assert_eq!(ms.log.len(), 2);
    assert_eq!(ms.log[1].value, 9);
    assert_eq!(ms.log[1].level, Level::SeqCst);
    assert_eq!(ms.global_sequence, 12);
    assert_eq!(ms.latest(0), 9);
}

#[test]
fn a_weak_exchange_fails_spuriously_on_an_odd_coin() {
    assert!(MemorySystem::is_spurious(1));
    assert!(MemorySystem::is_spurious(u32::MAX));
    assert!(!MemorySystem::is_spurious(0));
    assert!(!MemorySystem::is_spurious(6));
    let mut ms = engine(2, 1);
    ms.store(0, 0, 5, Ordering::Relaxed);
    ms.store(0, 0, 6, Ordering::Relaxed);
    // On an odd coin it loads with the word: here the first write, though
    // the newest is the expected value.
    assert_eq!(
        ms.compare_exchange_weak_with(1, 0, 6, 9, Ordering::Relaxed, Ordering::Relaxed, 3, 1),
        Err(5)
    );
    assert_eq!(ms.log.len(), 2);
    assert_eq!(mem(&ms, 1), &map(&[(0, 11)]));
    // On an even coin it is a compare-and-exchange.
    assert_eq!(
        ms.compare_exchange_weak_with(1, 0, 5, 9, Ordering::Relaxed, Ordering::Relaxed, 2, 1),
        Err(6)
    );
    assert_eq!(ms.log.len(), 2);
    assert_eq!(
        ms.compare_exchange_weak_with(1, 0, 6, 9, Ordering::Relaxed, Ordering::Relaxed, 2, 1),
        Ok(6)
    );
    assert_eq!(ms.log.len(), 3);
    assert_eq!(ms.latest(0), 9);
    assert_eq!(ms.draws, 0);
}

fn words(seed: u64, from: u64, count: usize) -> Vec<u32> {
    let mut rng = ChaCha8Rng::seed_from_u64(seed);
    rng.set_word_pos(from as u128);
    (0..count).map(|_| rng.next_u32()).collect()
}

#[test]
fn draws_follow_the_stream_of_the_seed() {
    for seed in [0, 7, 0xdead_beef, u64::MAX] {
        let mut ms = MemorySystem::with_seed(seed);
        let expected = words(seed, 0, 200);
        for (i, w) in expected.iter().enumerate() {
            assert_eq!(ms.draws, i as u64);
            assert_eq!(ms.draw(), *w);
        }
        assert_eq!(ms.draws, 200);
        assert_eq!(ms.seed, seed);
    }
    assert_ne!(words(1, 0, 4), words(2, 0, 4));
    assert_ne!(words(1, 0, 4), vec![1, 1, 1, 1]);
    assert_ne!(words(1, 0, 4), vec![0, 1, 2, 3]);
}

#[test]
fn draws_start_at_the_place_the_engine_stands_at() {
    let mut ms = MemorySystem::with_seed(3);
    ms.draws = 1000;
    let expected = words(3, 1000, 70);
    for w in expected {
        assert_eq!(ms.draw(), w);
    }
    // Moving the place or the seed moves the words.
    ms.draws = 5;
    assert_eq!(ms.draw(), words(3, 5, 1)[0]);
    ms.seed = 4;
    assert_eq!(ms.draw(), words(4, 6, 1)[0]);
    ms.draws = u64::MAX - 2;
    assert_eq!(ms.draw(), words(4, u64::MAX - 2, 1)[0]);
    assert_eq!(ms.draw(), words(4, u64::MAX - 1, 1)[0]);
    assert_eq!(ms.draws, u64::MAX);
}

#[test]
fn a_word_block_holds_the_words_from_its_base_on() {
    let b = WordBlock::fetch(9, 100);
    assert!(b.holds(9, 100));
    assert!(b.holds(9, 163));
    assert!(!b.holds(9, 164));
    assert!(!b.holds(9, 99));
    assert!(!b.holds(8, 100));
    let expected = words(9, 100, 64);
    for (i, w) in expected.iter().enumerate() {
        assert_eq!(b.word(9, 100 + i as u64), *w);
    }
    assert!(!WordBlock::empty().holds(0, 0));
    // Near the end of the stream a block is shorter.
    let b = WordBlock::fetch(9, u64::MAX - 3);
    assert!(b.holds(9, u64::MAX - 1));
    assert!(!b.holds(9, u64::MAX));
}

#[test]
fn a_load_reads_the_record_that_the_drawn_word_picks() {
    for seed in 0..50 {
        let mut ms = MemorySystem::with_seed(seed);
        ms.malloc(1);
        ms.add_thread();
        ms.add_thread();
        ms.store(0, 0, 5, Ordering::Relaxed);
        ms.store(0, 0, 6, Ordering::Relaxed);
        ms.store(0, 0, 7, Ordering::Relaxed);
        let w = words(seed, 0, 2);
        let values = [0, 5, 6, 7];
        let first = (w[0] as usize) % 4;
        assert_eq!(ms.load(1, 0, Ordering::Relaxed), values[first]);
        assert_eq!(ms.draws, 1);
        let second = first + (w[1] as usize) % (4 - first);
        assert_eq!(ms.load(1, 0, Ordering::Relaxed), values[second]);
        assert_eq!(ms.draws, 2);
    }
}

#[test]
fn a_weak_exchange_draws_a_coin_and_then_the_word_of_its_load() {
    let mut spurious = 0;
    for seed in 0..100 {
        let mut ms = MemorySystem::with_seed(seed);
        ms.malloc(1);
        ms.add_thread();
        ms.add_thread();
        ms.store(0, 0, 5, Ordering::Relaxed);
        let w = words(seed, 0, 2);
        let r = ms.compare_exchange_weak(1, 0, 5, 9, Ordering::Relaxed, Ordering::Relaxed);
        if w[0] % 2 == 1 {
            spurious += 1;
            assert_eq!(r, Err([0, 5][(w[1] as usize) % 2]));
            assert_eq!(ms.draws, 2);
            assert_eq!(ms.log.len(), 1);
        } else {
            assert_eq!(r, Ok(5));
            assert_eq!(ms.draws, 1);
            assert_eq!(ms.log.len(), 2);
            assert_eq!(ms.latest(0), 9);
        }
    }
    assert!(spurious > 20 && spurious < 80);
}

#[test]
fn fetch_update_fails_with_the_value_loaded_where_there_is_no_new_value() {
    for seed in 0..50 {
        let mut ms = MemorySystem::with_seed(seed);
        ms.malloc(1);
        ms.add_thread();
        ms.add_thread();
        ms.store(0, 0, 5, Ordering::Relaxed);
        let w = words(seed, 0, 1);
        let r = ms.fetch_update(1, 0, |_| None, Ordering::SeqCst, Ordering::Relaxed);
        assert_eq!(r, Err([0, 5][(w[0] as usize) % 2]));
        assert_eq!(ms.log.len(), 1);
        assert_eq!(ms.global_sequence, 11);
        assert_eq!(ms.draws, 1);
    }
}

#[test]
fn fetch_update_on_a_new_address_fails_with_zero_where_there_is_no_new_value() {
    let mut ms = MemorySystem::default();
    ms.malloc(1);
    ms.add_thread();
    let r = ms.fetch_update(0, 0, |_| None, Ordering::SeqCst, Ordering::Relaxed);
    assert_eq!(r, Err(0));
    assert!(ms.log.is_empty());
    assert_eq!(ms.global_sequence, 10);
    // With a new value for every value it goes through at once.
    let r = ms.fetch_update(0, 0, |v| Some(v + 7), Ordering::SeqCst, Ordering::Relaxed);
    assert_eq!(r, Ok(0));
    assert_eq!(ms.log.len(), 1);
    assert_eq!(ms.log[0].value, 7);
    assert_eq!(ms.log[0].address, 0);
    assert_eq!(ms.global_sequence, 11);
}

#[test]
fn a_load_leaves_its_thread_knowing_the_record_it_read() {
    for word in 0..4 {
        let mut ms = engine(2, 2);
        ms.store(0, 0, 5, Ordering::Relaxed);
        ms.store(0, 1, 6, Ordering::Release);
        ms.store(0, 0, 7, Ordering::Release);
        let before_other = mem(&ms, 0).clone();
        let v = ms.load_with(1, 0, Ordering::Acquire, word);
        let ticket = [0, 11, 13][(word % 3) as usize];
        assert_eq!(v, [0, 5, 7][(word % 3) as usize]);
        assert_eq!(ms.threads[1].mem_sequence.get(0), ticket);
        // Nothing but the view of the reader has changed.
        assert_eq!(ms.log.len(), 3);
        assert_eq!(ms.acc.len(), 2);
        assert_eq!(ms.global_sequence, 13);
        assert!(ms.seq_cst_sequence.sequence.is_empty());
        assert_eq!(mem(&ms, 0), &before_other);
    }
}

#[test]
fn fetch_update_retries_until_the_exchange_goes_through() {
    for seed in 0..50 {
        let mut ms = MemorySystem::with_seed(seed);
        ms.malloc(1);
        ms.add_thread();
        ms.add_thread();
        ms.store(0, 0, 5, Ordering::Relaxed);
        ms.store(0, 0, 6, Ordering::Relaxed);
        let r = ms.fetch_update(1, 0, |v| Some(v + 10), Ordering::Release, Ordering::Relaxed);
        // Only the newest value can be replaced.
        assert_eq!(r, Ok(6));
        assert_eq!(ms.log.len(), 3);
        assert_eq!(ms.log[2].value, 16);
        assert_eq!(ms.log[2].level, Level::Release);
        assert_eq!(ms.log[2].thread, 1);
        assert_eq!(ms.global_sequence, 13);
        assert_eq!(ms.latest(0), 16);
        assert!(ms.draws >= 2);
    }
}

#[test]
fn fetch_update_reads_the_newest_value_once_the_stream_is_used_up() {
    let mut ms = engine(2, 1);
    ms.store(0, 0, 5, Ordering::Relaxed);
    ms.store(0, 0, 6, Ordering::Relaxed);
    ms.draws = u64::MAX - 2;
    let r = ms.fetch_update(1, 0, |v| Some(v + 10), Ordering::Relaxed, Ordering::Relaxed);
    assert_eq!(r, Ok(6));
    assert_eq!(ms.draws, u64::MAX - 2);
    assert_eq!(ms.latest(0), 16);
    let r = ms.fetch_update(1, 0, |_| None, Ordering::Relaxed, Ordering::Relaxed);
    assert_eq!(r, Err(16));
    assert_eq!(ms.log.len(), 3);
}

/// A run of a few threads that store and load at random, with the values
/// that the loads and updates returned.
fn random_run(seed: u64) -> (Vec<usize>, MemorySystem) {
    let mut ms = MemorySystem::with_seed(seed);
    ms.malloc(3);
    for _ in 0..3 {
        ms.add_thread();
    }
    let orders = [Ordering::Relaxed, Ordering::Acquire, Ordering::SeqCst];
    let stores = [Ordering::Relaxed, Ordering::Release, Ordering::SeqCst];
    let fences = [
        Ordering::Acquire,
        Ordering::Release,
        Ordering::AcqRel,
        Ordering::SeqCst,
    ];
    let mut out = vec![];
    let mut script = ChaCha8Rng::seed_from_u64(99);
    for step in 0..300 {
        let thread = (script.next_u32() % 3) as usize;
        let addr = (script.next_u32() % 3) as usize;
        let pick = script.next_u32() as usize;
        match script.next_u32() % 6 {
            0 => ms.store(thread, addr, step, stores[pick % 3]),
            1 => out.push(ms.load(thread, addr, orders[pick % 3])),
            2 => ms.fence(thread, fences[pick % 4]),
            3 => out.push(ms.fetch_op(thread, addr, |v| v + 1000, orders[pick % 3])),
            4 => {
                let current = ms.latest(addr);
                let r = ms.compare_exchange_weak(
                    thread,
                    addr,
                    current,
                    step,
                    fences[pick % 4],
                    orders[pick % 3],
                );
                out.push(r.unwrap_or_else(|v| v + 1));
            }
            _ => {
                let r = ms.fetch_update(
                    thread,
                    addr,
                    |v| if v % 2 == 0 { Some(v + 1) } else { None },
                    stores[pick % 3],
                    orders[pick % 3],
                );
                out.push(r.unwrap_or_else(|v| v + 1));
            }
        }
    }
    (out, ms)
}

fn snapshot(ms: &MemorySystem) -> Vec<(usize, usize, usize, usize, usize, bool, Vec<(usize, usize)>)> {
    ms.log
        .iter()
        .map(|r| {
            let mut source: Vec<(usize, usize)> =
                r.source_sequence.sequence.iter().map(|(k, v)| (*k, *v)).collect();
            source.sort();
            (
                r.thread,
                r.thread_sequence,
                r.global_sequence,
                r.address,
                r.value,
                r.release_chain,
                source,
            )
        })
        .collect()
}

#[test]
fn the_same_seed_and_the_same_calls_give_the_same_outcomes() {
    let (a, ma) = random_run(17);
    let (b, mb) = random_run(17);
    assert_eq!(a, b);
    assert_eq!(snapshot(&ma), snapshot(&mb));
    assert_eq!(ma.draws, mb.draws);
    assert_eq!(ma.global_sequence, mb.global_sequence);
    for t in 0..3 {
        assert_eq!(mem(&ma, t), mem(&mb, t));
    }
    let (c, _) = random_run(18);
    assert_ne!(a, c);
}

#[test]
fn the_log_keeps_its_records_in_ticket_order() {
    for seed in 0..20 {
        let (_, ms) = random_run(seed);
        let mut last = 10;
        let mut per_thread = [0usize; 3];
        for r in ms.log.iter() {
            assert!(r.global_sequence > last);
            last = r.global_sequence;
            assert!(r.global_sequence <= ms.global_sequence);
            assert!(r.thread_sequence > per_thread[r.thread]);
            per_thread[r.thread] = r.thread_sequence;
            assert!(r.level != Level::AcqRel);
            assert_eq!(r.source_sequence.sequence.get(&r.address).is_some(), true);
        }
        for t in 0..3 {
            assert!(per_thread[t] <= ms.threads[t].sequence);
            for addr in 0..3 {
                let newest = ms
                    .log
                    .iter()
                    .filter(|r| r.address == addr)
                    .map(|r| r.global_sequence)
                    .max()
                    .unwrap_or(0);
                assert!(ms.threads[t].mem_sequence.get(addr) <= newest);
            }
        }
    }
}

#[test]
fn a_record_continues_a_release_sequence_only_after_a_record_that_is_not_relaxed() {
    for seed in 0..20 {
        let (_, ms) = random_run(seed);
        for addr in 0..3 {
            let mut before = Level::Relaxed;
            for r in ms.log.iter().filter(|r| r.address == addr) {
                assert_eq!(r.release_chain && before == Level::Relaxed, false);
                before = r.level;
            }
        }
    }
}

#[test]
fn loads_of_one_thread_never_go_back() {
    for seed in 0..20 {
        let mut ms = MemorySystem::with_seed(seed);
        ms.malloc(2);
        for _ in 0..3 {
            ms.add_thread();
        }
        let mut script = ChaCha8Rng::seed_from_u64(seed + 1000);
        let mut seen = [[0usize; 2]; 3];
        let orders = [Ordering::Relaxed, Ordering::Acquire, Ordering::SeqCst];
        for step in 1..200 {
            let thread = (script.next_u32() % 3) as usize;
            let addr = (script.next_u32() % 2) as usize;
            if script.next_u32() % 3 == 0 {
                // The values stored rise with the tickets.
                ms.store(thread, addr, step, Ordering::Relaxed);
                seen[thread][addr] = step;
            } else {
                let v = ms.load(thread, addr, orders[(script.next_u32() % 3) as usize]);
                assert!(v >= seen[thread][addr]);
                seen[thread][addr] = v;
            }
        }
    }
}

#[test]
fn memory_sequence_is_exported_with_the_engine() {
    let s = MemorySequence::default();
    assert_eq!(s.get(0), 0);
}
