//! Several parts of the library at work together.
use lore::error::{InternalError, StorageError, StoreError};
use lore::gc_event::GcEvent;
use lore::in_flight::InFlight;
use lore::local::gc::CompactStep;
use lore::local::group::ImmutableStoreGroup;
use lore::local::immutable_store::{
    ImmutableStoreSettings, LocalImmutableStore, Step, StoreLayout,
};
use lore::local::store::{StoreOutcome, StoreRequest};
use lore::maintenance::{GcAction, GcPass, GcStep};
use lore::protocol::copy::{check_session, handle_copy, CopyResponse, MessageHandleError};
use lore::quic::client_container::{ClientContainer, GenerateClientReason, RegenerateAction};
use lore::store::replica::{
    check_health, handle_service_response, join_matches, make_get, make_put, reconnect,
    request_header, ReconnectAction, ReconnectEvent, ReplicationStoreClientError,
};
use lore::types::{
    Address, Context, Fragment, PackRef, Partition, StoreMatch, StoreQueryResult,
    PAYLOAD_STORED_DURABLE, PAYLOAD_STORED_LOCAL,
};
use lore::write::{
    follower_future, write_raw, Leader, LeaderAction, PutStep, StoreAction, StoreCall, StoreEvent,
    StoreFlow,
};
use lore::write_tracker::{Drained, WriteTracker};

type Tracker = WriteTracker<fn(&Fragment, bool)>;

fn store(on_disk: bool) -> LocalImmutableStore {
    LocalImmutableStore::new(
        &StoreLayout {
            on_disk,
            index_existed: false,
            markers: vec![None; 256],
            directories: vec![],
            verify_write: None,
        },
        ImmutableStoreSettings::default(),
    )
}

fn address(seed: u8) -> Address {
    Address {
        hash: lore::types::Hash::from_bytes(&[seed; 32]),
        context: Context::from_bytes(&[seed; 16]),
    }
}

fn request(repository: Partition, a: Address) -> StoreRequest {
    StoreRequest {
        partition: repository,
        address: a,
        fragment: Fragment {
            flags: 0,
            size_payload: 64,
            size_content: 64,
        },
        payload: Some(64),
        force: false,
        size_threshold: 65536,
        allow_partial: true,
        packed: None,
        now: 1,
    }
}

fn done<T>(step: Step<T>) -> T {
    match step {
        Step::Done(value) => value,
        Step::LoadBucket { group, bucket } => panic!("asks for {group} {bucket}"),
    }
}

/// Puts a fragment as a caller does that writes the payload when it is asked for it.
fn put(store: &mut LocalImmutableStore, repository: Partition, a: Address, place: PackRef) {
    let mut asked = request(repository, a);
    if done(store.put(&asked, Ok(()))) == Ok(StoreOutcome::NeedsPayload) {
        asked.packed = Some(place);
        assert!(matches!(
            done(store.put(&asked, Ok(()))),
            Ok(StoreOutcome::Stored(_))
        ));
    }
}

fn handle(
    store: &mut LocalImmutableStore,
    message: lore::protocol::copy::Copy,
    destination: Option<Partition>,
) -> Result<CopyResponse, MessageHandleError> {
    let repository = message.handle(destination, None)?;
    check_session(None)?;
    handle_copy(done(store.copy(&message.copy_request(repository, 5))))
}

const REPO_A: Partition = Partition { value: 0xa };
const REPO_B: Partition = Partition { value: 0xb };
const PLACE: PackRef = PackRef { id: 1, offset: 40 };

fn copy_of(a: Address) -> lore::protocol::copy::Copy {
    lore::protocol::copy::Copy {
        source_repository: REPO_A,
        source_address: a,
        target_context: a.context,
    }
}

#[test]
fn test_copy_full_pipeline_success() {
    let mut store = store(false);
    let a = address(7);
    put(&mut store, REPO_A, a, PLACE);
    assert_eq!(
        handle(&mut store, copy_of(a), Some(REPO_B)),
        Ok(CopyResponse::default())
    );
    for repository in [REPO_B, REPO_A] {
        let (fragment, data) =
            done(store.get(repository, a, StoreMatch::MatchFull, 9)).unwrap();
        assert_eq!((fragment.size_payload, fragment.size_content), (64, 64));
        assert_eq!((data.pack_file, data.pack_offset), (1, 40));
        // The copy counts as durable, and says nothing of its source.
        assert_eq!(fragment.flags & PAYLOAD_STORED_DURABLE != 0, repository == REPO_B);
    }
    assert_eq!(
        handle(&mut store, copy_of(a), Some(REPO_B)),
        Ok(CopyResponse::default())
    );
    assert_eq!(store.fragment_count(), 2);
}

#[test]
fn test_copy_idempotent_via_handler() {
    let mut store = store(false);
    put(&mut store, REPO_A, address(7), PLACE);
    let mut copies = vec![];
    for _ in 0..2 {
        assert_eq!(
            handle(&mut store, copy_of(address(7)), Some(REPO_B)),
            Ok(CopyResponse::default())
        );
        assert_eq!(store.fragment_count(), 2);
        copies.push(done(store.get(REPO_B, address(7), StoreMatch::MatchFull, 9)).unwrap());
    }
    assert_eq!(copies[0], copies[1]);
}

#[test]
fn test_copy_pipeline_not_found() {
    let mut store = store(false);
    assert_eq!(
        handle(&mut store, copy_of(address(7)), Some(REPO_B)),
        Err(MessageHandleError::FragmentNotFound)
    );
}

#[test]
fn test_copy_stream_continuity_not_found_in_middle() {
    let mut store = store(false);
    put(&mut store, REPO_A, address(1), PLACE);
    put(&mut store, REPO_A, address(2), PackRef { id: 1, offset: 104 });
    let answers: Vec<_> = [1u8, 9, 2]
        .iter()
        .map(|seed| handle(&mut store, copy_of(address(*seed)), Some(REPO_B)))
        .collect();
    assert_eq!(
        answers,
        vec![
            Ok(CopyResponse::default()),
            Err(MessageHandleError::FragmentNotFound),
            Ok(CopyResponse::default()),
        ]
    );
}

#[test]
fn a_put_is_read_back_and_the_rest_stays() {
    let mut store = store(false);
    put(&mut store, REPO_A, address(1), PLACE);
    put(&mut store, REPO_A, address(2), PackRef { id: 3, offset: 104 });
    let (_, first) = done(store.get(REPO_A, address(1), StoreMatch::MatchFull, 9)).unwrap();
    assert_eq!((first.pack_file, first.pack_offset), (1, 40));
    let (_, second) = done(store.get(REPO_A, address(2), StoreMatch::MatchFull, 9)).unwrap();
    assert_eq!((second.pack_file, second.pack_offset), (3, 104));
    assert_eq!(
        done(store.get(REPO_B, address(1), StoreMatch::MatchFull, 9)),
        Err(StoreError::AddressNotFound(address(1)))
    );
}

#[test]
fn a_bucket_is_the_same_after_a_restart() {
    let mut before = store(false);
    for seed in [4u8, 2, 3] {
        let mut a = address(seed);
        a.hash = address(1).hash;
        put(&mut before, REPO_A, a, PLACE);
    }
    assert_eq!(before.group[1].flush_delayed(), vec![0]);
    let file = before.group[1].serialize(0).unwrap();
    assert!(before.group[1].flush_delayed().is_empty());

    let mut after = store(true);
    let mut a = address(2);
    a.hash = address(1).hash;
    assert!(matches!(
        after.get(REPO_A, a, StoreMatch::MatchFull, 9),
        Step::LoadBucket { group: 1, bucket: 0 }
    ));
    assert_eq!(after.load_bucket(1, 0, &Some(file)), Ok((false, None)));
    assert_eq!(after.group[1].bucket[0].entry, before.group[1].bucket[0].entry);
    assert_eq!(
        after.group[1].bucket[0].sorted_index,
        before.group[1].bucket[0].sorted_index
    );
    let (_, data) = done(after.get(REPO_A, a, StoreMatch::MatchFull, 9)).unwrap();
    assert_eq!((data.pack_file, data.pack_offset), (1, 40));
}

#[test]
fn marks_reach_the_whole_store() {
    let mut store = store(false);
    put(&mut store, REPO_A, address(1), PLACE);
    put(&mut store, REPO_A, address(2), PackRef { id: 3, offset: 104 });
    store.mark_all_as_durably_stored();
    done(store.mark_as_not_durably_stored(REPO_A, address(2)));
    // Nothing is there to be marked.
    done(store.mark_as_not_durably_stored(REPO_B, address(1)));
    let flags: Vec<u32> = [1u8, 2]
        .iter()
        .map(|seed| {
            done(store.query(REPO_A, address(*seed), StoreMatch::MatchFull, 9))
                .unwrap()
                .fragment
                .flags
        })
        .collect();
    assert_eq!(
        flags,
        vec![
            PAYLOAD_STORED_DURABLE | PAYLOAD_STORED_LOCAL,
            PAYLOAD_STORED_LOCAL
        ]
    );
}

/// Carries out a pass on a store whose groups have these sizes. Every payload of the first pack file
/// is written again, to the second. Gives what was reported.
fn gc(store: &mut LocalImmutableStore, pass: GcPass, sizes: &Vec<Option<usize>>) -> Vec<GcEvent> {
    let mut reported = vec![];
    let mut action = pass.gc(GcStep::Started(None));
    loop {
        match action {
            GcAction::Compact { max_size, at, .. } => {
                let total = LocalImmutableStore::packstore_total_size(sizes);
                let (step, events) = store.compact_begin(max_size, at, total);
                reported.extend(events);
                let CompactStep::Run { from, to, .. } = step else {
                    action = pass.gc(GcStep::Compacted(None));
                    continue;
                };
                for g in from..to {
                    let group = &mut store.group[g];
                    let bucket = &mut group.bucket[0];
                    let moves = vec![Some(PackRef { id: 2, offset: 8 }); bucket.entry.len()];
                    bucket.compact_bucket_packfile_impl(1, &moves, &mut group.dirty[0]);
                }
                let (_, next, events) = store.compact_end(to, Ok(()));
                reported.extend(events);
                action = pass.gc(GcStep::Compacted(next.unwrap()));
            }
            GcAction::Evict { max_capacity, .. } => {
                let (_, events) = store.evict_oldest(max_capacity);
                reported.extend(events);
                action = pass.gc(GcStep::Evicted);
            }
            GcAction::Done => return reported,
        }
    }
}

#[test]
fn gc_compaction_reduces_fragment_count() {
    let mut store = store(false);
    for i in 0u8..10 {
        put(&mut store, Partition::from_bytes(&[1; 16]), address(i + 1), PLACE);
    }
    let before = store.fragment_count();
    assert_eq!(before, 10);
    let pass = GcPass { max_size: 1, max_capacity: 1, sync_data: false };
    let sizes = vec![Some(600), None, Some(40)];
    // The compaction alone moves the payloads and loses none.
    let mut compacted = GcPass { max_capacity: 0, ..pass };
    assert_eq!(
        gc(&mut store, compacted, &sizes),
        vec![GcEvent::CompactionBegin(1), GcEvent::CompactionEnd(0)]
    );
    assert_eq!(store.fragment_count(), before);
    for group in &store.group[1..11] {
        assert!(group.bucket[0].entry.iter().all(|e| e.data.pack_file == 2));
    }
    // With room enough there is nothing to do.
    compacted.max_size = 640;
    assert!(gc(&mut store, compacted, &sizes).is_empty());
    let reported = gc(&mut store, pass, &sizes);
    assert_eq!(reported.first(), Some(&GcEvent::CompactionBegin(1)));
    assert_eq!(reported.last(), Some(&GcEvent::EvictionEnd(10)));
    assert!(store.fragment_count() < before);
}

#[test]
fn gc_runs_eviction_only() {
    let mut store = store(false);
    for i in 0u8..5 {
        put(&mut store, Partition::from_bytes(&[2; 16]), address(i), PLACE);
    }
    let pass = GcPass { max_size: 0, max_capacity: 1, sync_data: false };
    let reported = gc(&mut store, pass, &vec![Some(600)]);
    assert_eq!(reported.first(), Some(&GcEvent::EvictionBegin(1)));
    assert!(store.fragment_count() < 5);
}

#[test]
fn what_was_evicted_stays_away_after_a_restart() {
    let mut before = store(false);
    let (a, b) = (address(7), address(9));
    put(&mut before, REPO_A, a, PLACE);
    put(&mut before, REPO_A, b, PLACE);
    // The files of the first flush hold both.
    let old = before.group[7].serialize(0).unwrap();
    assert!(before.group[9].serialize(0).is_some());
    assert_eq!(old.len(), 16 + 4 + 96);
    assert_eq!(before.evict_oldest(1).0, 2);
    // The empty bucket is written as well, and what is read of it is empty.
    assert_eq!(before.group[7].flush_delayed(), vec![0]);
    let file = before.group[7].serialize(0).unwrap();
    assert_eq!(file.len(), 16);
    assert!(!before.group[7].dirty[0]);
    assert!(before.group[7].serialize(0).is_none());
    let mut after = store(true);
    assert_eq!(after.load_bucket(7, 0, &Some(file)), Ok((false, None)));
    assert_eq!(
        done(after.exist(REPO_A, a, StoreMatch::MatchFull, 9)),
        Ok(StoreMatch::MatchNone)
    );
    let mut stale = store(true);
    assert_eq!(stale.load_bucket(7, 0, &Some(old)), Ok((false, None)));
    assert_eq!(
        done(stale.exist(REPO_A, a, StoreMatch::MatchFull, 9)),
        Ok(StoreMatch::MatchFull)
    );
}

fn unhealthy() -> ClientContainer<u32> {
    let mut container = ClientContainer::new(1);
    let epoch = container.epoch();
    assert_eq!(
        container.regenerate_client(epoch, GenerateClientReason::ConnectionFailed),
        RegenerateAction::Sleep
    );
    container
}

#[test]
fn put_returns_error_when_unhealthy() {
    let container = unhealthy();
    assert!(!container.is_healthy());
    assert!(matches!(
        check_health(container.is_healthy()),
        Err(StoreError::Internal(_))
    ));
}

#[test]
fn get_returns_error_when_unhealthy() {
    let mut container = unhealthy();
    assert!(!container.is_healthy());
    assert_eq!(
        check_health(container.is_healthy()),
        Err(StoreError::Internal(InternalError::ClientUnhealthy))
    );
    // With a new client requests are made again.
    container.install(2);
    assert_eq!(check_health(container.is_healthy()), Ok(()));
}

#[test]
fn exist_returns_error_when_unhealthy() {
    let container = unhealthy();
    assert!(!container.is_healthy());
    assert!(matches!(
        check_health(container.is_healthy()),
        Err(StoreError::Internal(_))
    ));
}

#[test]
fn exist_batch_returns_error_when_unhealthy() {
    let container = unhealthy();
    assert!(!container.is_healthy());
    assert!(matches!(
        check_health(container.is_healthy()),
        Err(StoreError::Internal(_))
    ));
}

#[test]
fn query_returns_error_when_unhealthy() {
    let container = unhealthy();
    assert!(!container.is_healthy());
    assert!(matches!(
        check_health(container.is_healthy()),
        Err(StoreError::Internal(_))
    ));
}

#[test]
fn replica_service_error_transformation_works() {
    // An error of the other server is passed on, whatever the answer would have been.
    let refused = || ReplicationStoreClientError::Refused(StoreError::SlowDown);
    assert_eq!(
        handle_service_response::<Vec<StoreMatch>>(Err(refused()), 0),
        (Err(StoreError::SlowDown), None)
    );
    assert_eq!(
        handle_service_response::<StoreQueryResult>(Err(refused()), 0),
        (Err(StoreError::SlowDown), None)
    );
    assert_eq!(
        handle_service_response::<(Fragment, Vec<u8>)>(Err(refused()), 0),
        (Err(StoreError::SlowDown), None)
    );
    // A batch of which one part was refused is refused.
    let (first, _) = handle_service_response(Ok(vec![StoreMatch::MatchFull]), 0);
    let (second, _) = handle_service_response::<Vec<StoreMatch>>(Err(refused()), 0);
    assert_eq!(
        join_matches(&vec![first, second], 2),
        Err(StoreError::SlowDown)
    );
}

#[test]
fn connection_failed_regenerates_client() {
    let mut container = ClientContainer::new(1);
    let start = container.epoch();
    let (result, lost) =
        handle_service_response::<()>(Err(ReplicationStoreClientError::ConnectionFailed), start);
    assert!(matches!(result, Err(StoreError::Internal(_))));
    let epoch = lost.unwrap();
    assert_eq!(epoch, start);

    assert_eq!(reconnect(ReconnectEvent::Started, epoch), ReconnectAction::Check);
    let action = reconnect(ReconnectEvent::ReplicaHere, epoch);
    let ReconnectAction::Regenerate(expected) = action else {
        panic!("{action:?}");
    };
    assert_eq!(
        container.regenerate_client(expected, GenerateClientReason::ConnectionFailed),
        RegenerateAction::Sleep
    );
    // While the new client is being made the replica serves nothing.
    assert_eq!(container.slept(), RegenerateAction::Make(None));
    assert!(!container.is_healthy());
    assert_eq!(container.install(2), 1);
    assert_eq!(reconnect(ReconnectEvent::Regenerated, epoch), ReconnectAction::Stop);
    assert!(container.is_healthy());
    assert_eq!(container.epoch(), start + 1);
}

#[test]
fn connection_failed_loop_stops_when_replica_dropped() {
    let container = ClientContainer::new(1);
    let (_, lost) = handle_service_response::<()>(
        Err(ReplicationStoreClientError::ConnectionFailed),
        container.epoch(),
    );
    let epoch = lost.unwrap();
    drop(container);
    assert_eq!(reconnect(ReconnectEvent::Started, epoch), ReconnectAction::Check);
    assert_eq!(reconnect(ReconnectEvent::ReplicaGone, epoch), ReconnectAction::Stop);
    // So it does where a first try has failed.
    assert_eq!(reconnect(ReconnectEvent::Failed, epoch), ReconnectAction::Check);
    assert_eq!(reconnect(ReconnectEvent::ReplicaGone, epoch), ReconnectAction::Stop);
}

#[test]
fn a_copy_asks_the_store_for_what_its_message_says() {
    let message = lore::protocol::copy::Copy {
        source_repository: REPO_A,
        source_address: address(7),
        target_context: Context { value: 44 },
    };
    let asked = message.copy_request(REPO_B, 5);
    assert_eq!(asked.source_partition, REPO_A);
    assert_eq!(asked.source_address, address(7));
    assert_eq!(asked.destination_partition, REPO_B);
    assert_eq!(asked.destination_context, Context { value: 44 });
    assert!(asked.durable);
    assert_eq!(asked.now, 5);
}

#[test]
fn successful_put_request_transformation_works() {
    let id = uuid::Uuid::from_u128(0x1234_5678);
    let header = request_header(&id.as_hyphenated().to_string(), REPO_A);
    let fragment = Fragment {
        flags: 0,
        size_payload: 3,
        size_content: 3,
    };
    let put = make_put(header, address(3), fragment, Some(vec![1u8, 2, 3]), false);
    assert_eq!(put.header.correlation_id, 0x1234_5678);
    assert_eq!(put.header.repository, REPO_A);
    assert_eq!((put.address, put.fragment), (address(3), fragment));
    assert!(!put.force);
    assert_eq!(put.payload, Some(vec![1u8, 2, 3]));
    assert!(make_put::<Vec<u8>>(header, address(3), fragment, None, true).force);
}

#[test]
fn service_error_put_request_transformation_works() {
    let (result, epoch) = handle_service_response::<()>(
        Err(ReplicationStoreClientError::Refused(StoreError::SlowDown)),
        0,
    );
    assert_eq!(result, Err(StoreError::SlowDown));
    assert_eq!(epoch, None);
}

#[test]
fn successful_request_transformation_works() {
    let id = uuid::Uuid::from_u128(0x1234_5678);
    let header = request_header(&id.as_hyphenated().to_string(), REPO_A);
    assert_eq!(header.correlation_id, 0x1234_5678);
    let get = make_get(header, address(3), StoreMatch::MatchFull);
    assert_eq!((get.header, get.address), (header, address(3)));
    assert_eq!(get.header.repository, REPO_A);
    assert_eq!(get.match_required, StoreMatch::MatchFull);
    let fragment = Fragment {
        flags: 0,
        size_payload: 3,
        size_content: 3,
    };
    let answer = (fragment, vec![1u8, 2, 3]);
    assert_eq!(
        handle_service_response(Ok(answer.clone()), 0),
        (Ok(answer), None)
    );
}

fn call(seed: u8) -> StoreCall {
    StoreCall {
        address: address(seed),
        fragment: Fragment {
            flags: 0,
            size_payload: 64,
            size_content: 64,
        },
        cache_local: true,
        remote: false,
        dispatched: true,
    }
}

/// Does what a leader without a remote store does: records the fragment with its payload.
fn lead(
    store: &mut LocalImmutableStore,
    flow: &StoreFlow,
    query: &StoreQueryResult,
) -> Result<(Address, Fragment), StorageError> {
    let (_, action) = Leader::leader_body(&flow.call, query, false);
    let LeaderAction::Write { fragment, with_payload } = action else {
        panic!("{action:?}");
    };
    let mut asked = request(REPO_A, flow.call.address);
    asked.fragment = fragment;
    asked.payload = if with_payload { Some(64) } else { None };
    if done(store.put(&asked, Ok(()))) == Ok(StoreOutcome::NeedsPayload) {
        asked.packed = Some(PLACE);
        done(store.put(&asked, Ok(()))).map_err(|e| e.forward())?;
    }
    Ok((flow.call.address, fragment))
}

fn stored(store: &mut LocalImmutableStore, a: Address) -> StoreQueryResult {
    done(store.query(REPO_A, a, StoreMatch::MatchFull, 9)).unwrap()
}

#[test]
fn store_fragment_leader_path_spawns_into_tracker_no_remote() {
    let mut store = store(false);
    let mut tracker = Tracker::new();
    let a = address(0x40);
    let (mut flow, action) = StoreFlow::store_fragment(call(0x40));
    assert_eq!(action, StoreAction::TryAcquire);
    assert_eq!(flow.step(StoreEvent::Acquired), StoreAction::Query);
    let found = stored(&mut store, a);
    assert_eq!(found.match_made, StoreMatch::MatchNone);
    let StoreAction::SpawnLeader(query, result) = flow.step(StoreEvent::Queried(Some(found)))
    else {
        panic!("nothing is there yet");
    };
    assert!(!result.deduplicated);
    assert_eq!(result.address, a);
    tracker.spawn_leader();
    let led = lead(&mut store, &flow, &query);
    tracker.finish(led);
    assert_eq!(tracker.await_all(1), Drained::Done(Ok(())));
    let query = stored(&mut store, a);
    assert_eq!(query.match_made, StoreMatch::MatchFull);
    assert_ne!(query.fragment.flags & PAYLOAD_STORED_LOCAL, 0);
}

#[test]
fn concurrent_writers_of_same_address_dedup_through_tracker() {
    let mut store = store(false);
    let mut table = InFlight::new();
    let mut tracker = Tracker::new();
    let a = address(0x50);
    let mut results = vec![];
    let mut leader = None;
    // Both ask before either has ended.
    for _ in 0..2 {
        let (mut flow, action) = StoreFlow::store_fragment(call(0x50));
        assert_eq!(action, StoreAction::TryAcquire);
        match table.try_acquire_in_flight(REPO_A, a) {
            Ok(guard) => {
                assert_eq!(flow.step(StoreEvent::Acquired), StoreAction::Query);
                let found = stored(&mut store, a);
                let action = flow.step(StoreEvent::Queried(Some(found)));
                let StoreAction::SpawnLeader(query, result) = action else {
                    panic!("{action:?}");
                };
                tracker.spawn_leader();
                results.push(result);
                leader = Some((flow, query, guard));
            }
            Err(_) => {
                let action = flow.step(StoreEvent::Busy);
                let StoreAction::Follow(result) = action else {
                    panic!("{action:?}");
                };
                tracker.register_follower();
                results.push(result);
            }
        }
    }
    assert_eq!(results.iter().filter(|r| !r.deduplicated).count(), 1);
    assert!(results.iter().all(|r| r.address == a));
    assert_eq!(tracker.await_all(1), Drained::Waiting);
    let (flow, query, guard) = leader.unwrap();
    let led = lead(&mut store, &flow, &query);
    tracker.finish(led);
    assert!(table.release(guard).is_some());
    let found = stored(&mut store, a);
    tracker.finish(follower_future(a, Some(found)));
    assert_eq!(tracker.await_all(1), Drained::Done(Ok(())));
    assert_eq!(store.fragment_count(), 1);
    let query = stored(&mut store, a);
    assert_eq!(query.match_made, StoreMatch::MatchFull);
    assert_ne!(query.fragment.flags & PAYLOAD_STORED_LOCAL, 0);
}

#[test]
fn leader_error_surfaces_through_tracker_await_all() {
    let mut store = store(false);
    let mut tracker = Tracker::new();
    let a = address(0x60);
    let (mut flow, action) = StoreFlow::store_fragment(call(0x60));
    assert_eq!(action, StoreAction::TryAcquire);
    assert_eq!(flow.step(StoreEvent::Acquired), StoreAction::Query);
    let found = stored(&mut store, a);
    let StoreAction::SpawnLeader(query, result) = flow.step(StoreEvent::Queried(Some(found)))
    else {
        panic!("nothing is there yet");
    };
    assert!(!result.deduplicated);
    tracker.spawn_leader();
    let (_, action) = Leader::leader_body(&flow.call, &query, false);
    assert!(matches!(action, LeaderAction::Write { with_payload: true, .. }));
    let failed = Err(StoreError::Internal(InternalError::PackstoreWrite));
    let PutStep::Fail(error) = write_raw(failed) else {
        panic!("the put failed");
    };
    tracker.finish(Err(error));
    assert_eq!(tracker.await_all(1), Drained::Done(Err(error)));
    assert_eq!(stored(&mut store, a).match_made, StoreMatch::MatchNone);
    assert_eq!(store.fragment_count(), 0);
}

#[test]
fn store_fragment_no_tracker_writes_synchronously() {
    let mut store = store(false);
    let a = address(0x10);
    let mut asked = call(0x10);
    asked.dispatched = false;
    let (mut flow, action) = StoreFlow::store_fragment(asked);
    assert_eq!(action, StoreAction::Query);
    let found = stored(&mut store, a);
    let action = flow.step(StoreEvent::Queried(Some(found)));
    let StoreAction::Lead(query) = action else {
        panic!("{action:?}");
    };
    let (_, fragment) = lead(&mut store, &flow, &query).unwrap();
    let action = flow.step(StoreEvent::Led(fragment));
    let StoreAction::Return(result) = action else {
        panic!("{action:?}");
    };
    assert_eq!(result.address, a);
    assert!(!result.deduplicated);
    let query = stored(&mut store, a);
    assert_eq!(query.match_made, StoreMatch::MatchFull);
    assert_ne!(query.fragment.flags & PAYLOAD_STORED_LOCAL, 0);
}

#[test]
fn store_fragment_already_durable_short_circuits() {
    let mut store = store(false);
    let a = address(0x20);
    let mut durable = request(REPO_A, a);
    durable.fragment.flags = PAYLOAD_STORED_DURABLE;
    durable.packed = Some(PLACE);
    assert!(matches!(
        done(store.put(&durable, Ok(()))),
        Ok(StoreOutcome::Stored(_))
    ));

    let mut tracker = Tracker::new();
    let mut asked = call(0x20);
    asked.cache_local = false;
    let (mut flow, action) = StoreFlow::store_fragment(asked);
    assert_eq!(action, StoreAction::TryAcquire);
    assert_eq!(flow.step(StoreEvent::Acquired), StoreAction::Query);
    let found = stored(&mut store, a);
    let action = flow.step(StoreEvent::Queried(Some(found)));
    let StoreAction::Return(result) = action else {
        panic!("{action:?}");
    };
    assert!(result.deduplicated);
    assert_ne!(result.fragment.flags & PAYLOAD_STORED_DURABLE, 0);
    assert_eq!(tracker.await_all(1), Drained::Done(Ok(())));
}

#[test]
fn store_fragment_follower_path_registers_in_tracker() {
    let mut store = store(false);
    let mut table = InFlight::new();
    let mut tracker = Tracker::new();
    let a = address(0x30);
    let held = table.try_acquire_in_flight(REPO_A, a).unwrap();

    let mut asked = call(0x30);
    asked.cache_local = false;
    let (mut flow, action) = StoreFlow::store_fragment(asked);
    assert_eq!(action, StoreAction::TryAcquire);
    assert!(table.try_acquire_in_flight(REPO_A, a).is_err());
    let action = flow.step(StoreEvent::Busy);
    let StoreAction::Follow(result) = action else {
        panic!("{action:?}");
    };
    assert!(result.deduplicated);
    tracker.register_follower();
    assert_eq!(tracker.await_all(1), Drained::Waiting);

    // The one that held the address ends without having stored anything.
    assert!(table.release(held).is_some());
    let found = stored(&mut store, a);
    tracker.finish(follower_future(a, Some(found)));
    assert_eq!(
        tracker.await_all(1),
        Drained::Done(Err(StorageError::Internal(InternalError::LeaderFailed)))
    );
}

#[test]
fn follower_returns_ok_when_leader_wrote_terminal_entry() {
    let mut store = store(false);
    let a = address(0xaa);
    let mut written = request(REPO_A, a);
    written.fragment.flags = PAYLOAD_STORED_LOCAL;
    written.packed = Some(PLACE);
    assert!(matches!(
        done(store.put(&written, Ok(()))),
        Ok(StoreOutcome::Stored(_))
    ));
    let found = stored(&mut store, a);
    let (at, fragment) = follower_future(a, Some(found)).unwrap();
    assert_eq!(at, a);
    assert_ne!(fragment.flags & PAYLOAD_STORED_LOCAL, 0);
    assert_eq!((fragment.size_payload, fragment.size_content), (64, 64));
}

#[test]
fn follower_waits_for_token_before_querying() {
    let mut store = store(false);
    let mut table = InFlight::new();
    let mut tracker = Tracker::new();
    let a = address(0xcc);
    let held = table.try_acquire_in_flight(REPO_A, a).unwrap();
    let (mut flow, _) = StoreFlow::store_fragment(call(0xcc));
    assert!(table.try_acquire_in_flight(REPO_A, a).is_err());
    assert!(matches!(flow.step(StoreEvent::Busy), StoreAction::Follow(_)));
    tracker.register_follower();
    // The follower has not ended while the address is held.
    assert_eq!(tracker.await_all(1), Drained::Waiting);
    put(&mut store, REPO_A, a, PLACE);
    assert!(table.release(held).is_some());
    let found = stored(&mut store, a);
    tracker.finish(follower_future(a, Some(found)));
    assert_eq!(tracker.await_all(1), Drained::Done(Ok(())));
}

#[test]
fn follower_returns_err_when_no_entry_exists() {
    let mut store = store(false);
    let found = stored(&mut store, address(0xbb));
    assert_eq!(
        follower_future(address(0xbb), Some(found)),
        Err(StorageError::Internal(InternalError::LeaderFailed))
    );
}

#[test]
fn many_concurrent_writers_all_succeed_with_single_upload() {
    let mut store = store(false);
    let mut table = InFlight::new();
    let mut tracker = Tracker::new();
    let a = address(0x51);
    let mut results = vec![];
    let mut leaders = vec![];
    for _ in 0..64 {
        let (mut flow, action) = StoreFlow::store_fragment(call(0x51));
        assert_eq!(action, StoreAction::TryAcquire);
        match table.try_acquire_in_flight(REPO_A, a) {
            Ok(guard) => {
                assert_eq!(flow.step(StoreEvent::Acquired), StoreAction::Query);
                let found = stored(&mut store, a);
                let action = flow.step(StoreEvent::Queried(Some(found)));
                let StoreAction::SpawnLeader(query, result) = action else {
                    panic!("{action:?}");
                };
                tracker.spawn_leader();
                results.push(result);
                leaders.push((flow, query, guard));
            }
            Err(_) => {
                let action = flow.step(StoreEvent::Busy);
                let StoreAction::Follow(result) = action else {
                    panic!("{action:?}");
                };
                tracker.register_follower();
                results.push(result);
            }
        }
    }
    assert_eq!(results.len(), 64);
    assert_eq!(results.iter().filter(|r| !r.deduplicated).count(), 1);
    assert_eq!(leaders.len(), 1);
    let (flow, query, guard) = leaders.pop().unwrap();
    let led = lead(&mut store, &flow, &query);
    tracker.finish(led);
    assert!(table.release(guard).is_some());
    for _ in 0..63 {
        let found = stored(&mut store, a);
        tracker.finish(follower_future(a, Some(found)));
    }
    assert_eq!(tracker.await_all(1), Drained::Done(Ok(())));
    assert_eq!(store.fragment_count(), 1);
    assert_eq!(stored(&mut store, a).match_made, StoreMatch::MatchFull);
}

#[test]
fn a_failed_leader_fails_its_followers() {
    let mut tracker = Tracker::new();
    tracker.register_follower();
    tracker.finish(follower_future(address(9), None));
    assert_eq!(
        tracker.await_all(1),
        Drained::Done(Err(StorageError::Internal(InternalError::LeaderFailed)))
    );
}

#[test]
fn a_new_group_has_nothing_to_flush() {
    let group = ImmutableStoreGroup::new(4, 5, 1000, 0);
    assert!(group.flush_delayed().is_empty());
    assert!(!group.any_dirty());
}
