//! Background work.
use std::cell::RefCell;
use std::sync::Arc;

use lore::drop_record::DropRecord;
use lore::error::{InternalError, StorageError};
use lore::gc_event::{
    current_gc_event_sink, deliver, no_gc_event_sink_provider, set_gc_event_sink_provider, GcEvent,
    GcEventSink,
};
use lore::maintenance::{
    compactor, evictor, run_if_here, spawn_gc, CompactorAction, CompactorEvent, EvictorAction,
    EvictorEvent, GcAction, GcCounters, GcPass, GcStep, ImmutableStoreCreateOptions,
};
use lore::types::{Address, Context, Fragment};
use lore::write_tracker::{Drained, WriteTracker};

struct Recorder {
    seen: RefCell<Vec<(&'static str, u64)>>,
}

impl GcEventSink for Recorder {
    fn eviction_begin(&self, n: u64) {
        self.seen.borrow_mut().push(("eviction_begin", n));
    }
    fn eviction_progress(&self, n: u64) {
        self.seen.borrow_mut().push(("eviction_progress", n));
    }
    fn eviction_end(&self, n: u64) {
        self.seen.borrow_mut().push(("eviction_end", n));
    }
    fn compaction_begin(&self, n: u64) {
        self.seen.borrow_mut().push(("compaction_begin", n));
    }
    fn compaction_progress(&self, n: u64) {
        self.seen.borrow_mut().push(("compaction_progress", n));
    }
    fn compaction_end(&self, n: u64) {
        self.seen.borrow_mut().push(("compaction_end", n));
    }
}

#[test]
fn events_reach_the_sink_in_order() {
    let sink = Recorder { seen: RefCell::new(vec![]) };
    deliver(
        &vec![
            GcEvent::EvictionBegin(1),
            GcEvent::EvictionProgress(2),
            GcEvent::EvictionEnd(3),
            GcEvent::CompactionBegin(4),
            GcEvent::CompactionProgress(5),
            GcEvent::CompactionEnd(6),
        ],
        &sink,
    );
    assert_eq!(
        *sink.seen.borrow(),
        vec![
            ("eviction_begin", 1),
            ("eviction_progress", 2),
            ("eviction_end", 3),
            ("compaction_begin", 4),
            ("compaction_progress", 5),
            ("compaction_end", 6),
        ]
    );
}

#[test]
fn the_first_sink_provider_wins() {
    let mut holder = no_gc_event_sink_provider::<fn() -> Option<u32>>();
    assert_eq!(current_gc_event_sink(&holder), None);
    set_gc_event_sink_provider(&mut holder, (|| Some(1)) as fn() -> Option<u32>);
    set_gc_event_sink_provider(&mut holder, (|| Some(2)) as fn() -> Option<u32>);
    assert_eq!(current_gc_event_sink(&holder), Some(1));
}

#[test]
fn counters_fire_once_for_each_limit() {
    let mut counters = GcCounters::new();
    // Without limits nothing is counted.
    assert_eq!(counters.add_loaded_size(1000), None);
    assert_eq!(counters.add_loaded_fragments(1000), None);
    assert_eq!((counters.total_size, counters.fragment_count), (0, 0));
    counters.set_caps(100, 10, true);
    counters.set_store(7);
    counters.set_store(8);
    assert_eq!(counters.add_loaded_size(100), None);
    assert_eq!(
        counters.add_loaded_size(1),
        Some((7, GcPass { max_size: 100, max_capacity: 0, sync_data: true }))
    );
    assert_eq!(counters.add_loaded_size(1000), None);
    assert_eq!(counters.add_loaded_fragments(0), None);
    assert_eq!(
        counters.add_loaded_fragments(11),
        Some((7, GcPass { max_size: 0, max_capacity: 10, sync_data: true }))
    );
    assert_eq!(counters.add_loaded_fragments(11), None);
    assert_eq!((counters.total_size, counters.fragment_count), (1101, 22));
}

#[test]
fn counters_of_an_unknown_store_run_nothing() {
    let mut counters = GcCounters::new();
    counters.set_caps(100, 10, false);
    assert_eq!(counters.add_loaded_size(101), None);
    assert!(counters.compaction_fired);
    counters.set_store(1);
    assert_eq!(counters.add_loaded_size(101), None);
}

#[test]
fn tasks_are_started_for_limits() {
    assert_eq!(spawn_gc(&ImmutableStoreCreateOptions::none()), (None, None));
    let mut options = ImmutableStoreCreateOptions::none();
    options.max_capacity = Some(0);
    options.max_size = Some(0);
    assert_eq!(spawn_gc(&options), (None, None));
    options.max_capacity = Some(2_000_000);
    options.max_size = Some(5);
    options.compaction_delay = Some(77);
    let (evicts, compacts) = spawn_gc(&options);
    assert_eq!(evicts, Some(evictor(2_000_000, None)));
    assert_eq!(compacts, Some(compactor(5, Some(77))));
    // The evictor has a least capacity and a pause of ten seconds.
    assert_eq!(evictor(5, None).max_capacity, 1024 * 1024);
    assert_eq!(evictor(2_000_000, None).max_capacity, 2_000_000);
    assert_eq!(evictor(5, None).delay, 10_000);
    assert_eq!(compactor(5, None).delay, 24 * 60 * 60 * 1000);
}

#[test]
fn evictor_exits_when_store_dropped() {
    let task = evictor(1024 * 1024, Some(10));
    assert_eq!(task.step(EvictorEvent::Started), EvictorAction::Sleep(10));
    assert_eq!(task.step(EvictorEvent::Awake), EvictorAction::Evict(1024 * 1024));
    assert_eq!(task.step(EvictorEvent::Evicted), EvictorAction::Sleep(10));
    assert_eq!(task.step(EvictorEvent::StoreGone), EvictorAction::Exit);
}

#[test]
fn compactor_exits_when_store_dropped() {
    let mut task = compactor(1024, Some(10));
    // A pass that was left goes on at once.
    assert_eq!(task.step(CompactorEvent::Started(Some(3))), CompactorAction::Check);
    assert_eq!(
        task.step(CompactorEvent::StoreHere),
        CompactorAction::Compact(1024, Some(3))
    );
    assert_eq!(task.step(CompactorEvent::Stepped(Some(11))), CompactorAction::Check);
    assert_eq!(
        task.step(CompactorEvent::StoreHere),
        CompactorAction::Compact(1024, Some(11))
    );
    assert_eq!(task.step(CompactorEvent::Stepped(None)), CompactorAction::Sleep(10));
    assert_eq!(task.step(CompactorEvent::StoreGone), CompactorAction::Exit);
    assert_eq!(task.step(CompactorEvent::Failed), CompactorAction::Exit);
}

#[test]
fn gc_skips_compaction_when_max_size_zero() {
    let pass = GcPass { max_size: 0, max_capacity: 0, sync_data: false };
    assert_eq!(pass.gc(GcStep::Started(Some(4))), GcAction::Done);
    let pass = GcPass { max_size: 0, max_capacity: 1, sync_data: true };
    assert_eq!(
        pass.gc(GcStep::Started(None)),
        GcAction::Evict { max_capacity: 1, sync_data: true }
    );
    assert_eq!(pass.gc(GcStep::Evicted), GcAction::Done);
}

#[test]
fn gc_compacts_and_then_evicts() {
    let pass = GcPass { max_size: 9, max_capacity: 1, sync_data: false };
    let compact = |at| GcAction::Compact { max_size: 9, at, sync_data: false };
    assert_eq!(pass.gc(GcStep::Started(Some(8))), compact(Some(8)));
    assert_eq!(pass.gc(GcStep::Compacted(Some(16))), compact(Some(16)));
    let evict = GcAction::Evict { max_capacity: 1, sync_data: false };
    assert_eq!(pass.gc(GcStep::Compacted(None)), evict);
    assert_eq!(pass.gc(GcStep::CompactionFailed), evict);
}

type Tracker = WriteTracker<fn(&Fragment, bool)>;

fn ok_result() -> Result<(Address, Fragment), StorageError> {
    Ok((
        Address {
            hash: lore::types::Hash::zero(),
            context: Context { value: 0 },
        },
        Fragment { flags: 0, size_payload: 1, size_content: 1 },
    ))
}

#[test]
fn await_all_empty_returns_ok() {
    assert_eq!(Tracker::new().await_all(1), Drained::Done(Ok(())));
}

#[test]
fn await_all_leader_and_follower_success() {
    let mut tracker = Tracker::new();
    tracker.spawn_leader();
    tracker.register_follower();
    assert_eq!(tracker.await_all(1), Drained::Waiting);
    assert!(!tracker.finish(ok_result()));
    assert!(tracker.finish(ok_result()));
    assert_eq!(tracker.await_all(1), Drained::Done(Ok(())));
}

#[test]
fn await_all_drains_all_leaders_even_when_one_fails() {
    let mut tracker = Tracker::new();
    for _ in 0..4 {
        tracker.spawn_leader();
    }
    tracker.finish(Err(StorageError::Oversized));
    for _ in 0..3 {
        assert_eq!(tracker.await_all(1), Drained::Waiting);
        tracker.finish(ok_result());
    }
    assert_eq!(tracker.await_all(1), Drained::Done(Err(StorageError::Oversized)));
}

#[test]
fn in_flight_counter_returns_to_zero() {
    let mut tracker = Tracker::new();
    for _ in 0..1000 {
        tracker.spawn_leader();
    }
    for _ in 0..1000 {
        tracker.finish(ok_result());
    }
    assert_eq!(tracker.in_flight, 0);
    assert_eq!(tracker.await_all(1), Drained::Done(Ok(())));
}

#[test]
fn await_all_returns_first_error_drops_later() {
    let mut tracker = Tracker::new();
    tracker.spawn_leader();
    tracker.spawn_leader();
    tracker.finish(Err(StorageError::SlowDown));
    tracker.finish(Err(StorageError::Oversized));
    assert_eq!(tracker.await_all(1), Drained::Done(Err(StorageError::SlowDown)));
}

#[test]
fn arc_into_inner_uniqueness_check() {
    assert_eq!(
        Tracker::new().await_all(2),
        Drained::Done(Err(StorageError::Internal(InternalError::TrackerShared)))
    );
}

#[test]
fn observers_are_told_and_handed_on() {
    let seen = Arc::new(std::sync::Mutex::new(vec![]));
    let inner = seen.clone();
    let observer = Arc::new(move |f: &Fragment, d: bool| inner.lock().unwrap().push((f.flags, d)));
    let tracker = WriteTracker::with_observer(observer);
    let other = tracker.new_like();
    let fragment = Fragment { flags: 5, size_payload: 1, size_content: 1 };
    assert!(tracker.notify_fragment(&fragment, true));
    assert!(other.notify_fragment(&fragment, false));
    assert_eq!(*seen.lock().unwrap(), vec![(5, true), (5, false)]);
    assert!(!Tracker::new().notify_fragment(&fragment, true));
}

#[test]
fn a_record_counts() {
    let mut record = DropRecord::new();
    record.add(2);
    record.add(3);
    assert_eq!(record.get(), 5);
    record.set(1);
    assert_eq!(record.get(), 1);
}

#[test]
fn a_pass_runs_on_the_store_that_came_first() {
    for (here, runs) in [(vec![1, 2], true), (vec![1], true), (vec![2], false), (vec![], false)] {
        let mut counters = GcCounters::new();
        counters.set_caps(10, 0, true);
        counters.set_store(1);
        counters.set_store(2);
        let due = counters.add_loaded_size(11);
        let pass = GcPass { max_size: 10, max_capacity: 0, sync_data: true };
        assert_eq!(due, Some((1, pass)));
        assert_eq!(run_if_here(due, &here), if runs { due } else { None });
        assert_eq!(run_if_here(counters.add_loaded_size(11), &here), None);
    }
}
