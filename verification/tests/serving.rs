//! Servers and replicas.
use lore::error::{InternalError, StoreError};
use lore::quic::client_container::{
    make_client, observe_regenerate, ClientContainer, GenerateClientReason, RegenerateAction,
};
use lore::quic::quinn_server::{
    close_code, get_protocol, handle_conn, ConnectionAction, ConnectionEvent, ProtocolLookupError,
    QuinnConfig, QuinnServer, StartError,
};
use lore::quic::service::{StreamHandlerFactory, NO_CONNECTION_ID, NO_USER_ID};
use lore::store::grpc_replica::{
    do_put, from_status, no_stream, put, put_waited, GetStreamError, GrpcReplica, PutAction,
    ReplicationClientError, ReplicationClientImpl, SendOutcome, StreamInFlight, StreamStep,
};
use lore::store::replica::{
    check_health, exist, exist_batch, handle_service_response, join_matches, make_get, make_header,
    make_query, obliterate, query, reconnect, request_header, QueryResponse, ReconnectAction,
    ReconnectEvent, ReplicationHeader, ReplicationStoreClientError,
};
use lore::types::{Address, Context, Fragment, Partition, StoreMatch};

fn address(n: u32) -> Address {
    Address {
        hash: lore::types::Hash {
            high: n as u128,
            low: 1,
        },
        context: Context { value: 2 },
    }
}

const HEADER: ReplicationHeader = ReplicationHeader {
    correlation_id: 5,
    repository: Partition { value: 6 },
};

#[test]
fn buffers_follow_the_bandwidth() {
    let config = QuinnConfig {
        transport_bits_per_second: 1_000_000_000,
        transport_rtt: 100,
        num_listeners: 3,
        max_bidi_streams: 100,
    };
    let server = QuinnServer::start(&config).unwrap();
    assert_eq!(server.windows.receive, 12_500_000);
    assert_eq!(server.windows.stream_receive, 3_125_000);
    assert_eq!(server.windows.send, 12_500_000);
    assert_eq!(server.num_listeners, 3);
    let mut large = config;
    large.transport_rtt = 100_000;
    // Only the send buffer is set with more than 32 bits.
    let server = QuinnServer::start(&large).unwrap();
    assert_eq!(server.windows.send, 12_500_000_000);
    assert_eq!(server.windows.receive, (12_500_000_000u64 % (1 << 32)) as u32);
    assert_eq!(server.windows.stream_receive, server.windows.receive / 4);
    large.max_bidi_streams = 1 << 62;
    assert_eq!(QuinnServer::start(&large), Err(StartError::TooManyStreams));
}

#[test]
fn the_protocol_comes_from_the_handshake() {
    assert_eq!(get_protocol(None), Err(ProtocolLookupError::NoHandshakeData));
    assert_eq!(get_protocol(Some(None)), Err(ProtocolLookupError::NoProtocol));
    assert_eq!(
        get_protocol(Some(Some(b"lore-storage/0.4".to_vec()))),
        Ok("lore-storage/0.4".to_string())
    );
    assert_eq!(
        get_protocol(Some(Some(vec![0xc3, 0xa9]))),
        Ok("\u{e9}".to_string())
    );
    assert_eq!(
        get_protocol(Some(Some(vec![0xff, 0xfe]))),
        Err(ProtocolLookupError::NotText)
    );
}

#[test]
fn connections_end_as_they_should() {
    assert_eq!(
        handle_conn(ConnectionEvent::ServiceLookup(false)),
        ConnectionAction::Fail
    );
    assert_eq!(
        handle_conn(ConnectionEvent::ServiceLookup(true)),
        ConnectionAction::Accept
    );
    assert_eq!(handle_conn(ConnectionEvent::StreamOpened), ConnectionAction::Handle);
    assert_eq!(handle_conn(ConnectionEvent::ClosedByPeer), ConnectionAction::Close);
    assert_eq!(handle_conn(ConnectionEvent::Lost), ConnectionAction::Fail);
    assert_eq!(close_code(true), None);
    assert_eq!(close_code(false), Some(u32::MAX));
}

struct OneService;

impl StreamHandlerFactory for OneService {
    type Builder = u32;

    fn supported_protocols(&self) -> Vec<String> {
        vec!["one".to_string()]
    }

    fn get_stream_handler_builder(&self, protocol: &str) -> Option<(&'static str, &u32)> {
        if protocol == "one" {
            Some(("one", &7))
        } else {
            None
        }
    }
}

#[test]
fn factories_have_a_name() {
    assert_eq!(OneService.name(), "Unknown StreamHandlerFactory");
    assert_eq!(OneService.get_stream_handler_builder("one"), Some(("one", &7)));
    assert_eq!(OneService.supported_protocols().len(), 1);
    assert_eq!(NO_CONNECTION_ID, "<no_connection_id>");
    assert_eq!(NO_USER_ID, "<no_user_id>");
}

#[test]
fn regenerate_client_guarded_by_permit() {
    let mut container = ClientContainer::new(1);
    let epoch = container.epoch();
    assert_eq!(epoch, 0);
    assert_eq!(
        container.regenerate_client(epoch, GenerateClientReason::ConnectionFailed),
        RegenerateAction::Sleep
    );
    assert_eq!(
        container.regenerate_client(epoch, GenerateClientReason::ConnectionFailed),
        RegenerateAction::Skip
    );
    assert_eq!(container.install(2), 1);
    assert_eq!(container.epoch(), epoch + 1);
    assert_eq!(*container.client(), 2);
    // A caller that saw the old client comes too late.
    assert_eq!(
        container.regenerate_client(epoch, GenerateClientReason::ConnectionFailed),
        RegenerateAction::Skip
    );
    assert!(container.is_healthy());
}

#[test]
fn regenerate_unhealthy_client_eventually_succeeds() {
    let mut container = ClientContainer::new(1);
    assert!(container.is_healthy());
    assert_eq!(
        container.regenerate_client(0, GenerateClientReason::ConnectionFailed),
        RegenerateAction::Sleep
    );
    assert_eq!(container.slept(), RegenerateAction::Make(None));
    for _ in 1..10 {
        assert_eq!(container.make_failed(true), RegenerateAction::Make(None));
        assert!(!container.is_healthy());
    }
    container.install(2);
    assert!(container.is_healthy());
}

#[test]
fn a_replacement_can_be_given_up() {
    let mut container = ClientContainer::new(1);
    container.regenerate_client(0, GenerateClientReason::ConnectionFailed);
    assert_eq!(container.make_failed(false), RegenerateAction::Fail);
    assert!(!container.is_healthy());
    assert_eq!(container.epoch(), 0);
    // Another may try.
    assert_eq!(
        container.regenerate_client(0, GenerateClientReason::ConnectionFailed),
        RegenerateAction::Sleep
    );
}

/// Replaces a client, and records the congestion window that each client is made with.
fn replace(
    container: &mut ClientContainer<u32>,
    reason: GenerateClientReason,
    stats: Option<u64>,
    mut failures: usize,
    calls: &mut Vec<Option<u64>>,
) -> bool {
    let epoch = container.epoch();
    let mut action = container.regenerate_client(epoch, reason);
    loop {
        action = match action {
            RegenerateAction::Skip | RegenerateAction::Fail => return false,
            RegenerateAction::ReadStats => container.stats_read(stats),
            RegenerateAction::Sleep => container.slept(),
            RegenerateAction::Make(initial_cwnd) => {
                calls.push(initial_cwnd);
                if failures == 0 {
                    container.install(2);
                    return true;
                }
                failures -= 1;
                container.make_failed(true)
            }
        };
    }
}

fn first_client(calls: &mut Vec<Option<u64>>) -> ClientContainer<u32> {
    let RegenerateAction::Make(initial_cwnd) = ClientContainer::<u32>::first() else {
        panic!("no first client");
    };
    calls.push(initial_cwnd);
    ClientContainer::new(1)
}

#[test]
fn periodic_refresh_sets_initial_cwnd_from_connection_stats() {
    let mut calls = vec![];
    let mut container = first_client(&mut calls);
    assert!(replace(
        &mut container,
        GenerateClientReason::PeriodicRefresh,
        Some(12345),
        0,
        &mut calls
    ));
    assert_eq!(calls, vec![None, Some(12345)]);
    assert!(container.is_healthy());
    assert_eq!((*container.client(), container.epoch()), (2, 1));
    // A client that does not know its window leaves the next one without.
    calls.clear();
    assert!(replace(&mut container, GenerateClientReason::PeriodicRefresh, None, 1, &mut calls));
    assert_eq!(calls, vec![None, None]);
    // Another attempt starts with the same window, and a later replacement forgets it.
    calls.clear();
    assert!(replace(&mut container, GenerateClientReason::PeriodicRefresh, Some(9), 1, &mut calls));
    assert!(replace(&mut container, GenerateClientReason::ConnectionFailed, Some(9), 0, &mut calls));
    assert_eq!(calls, vec![Some(9), Some(9), None]);
    assert_eq!(make_client(None, Some(42_000)), Some(42_000));
    assert_eq!(make_client(Some(7), Some(42_000)), Some(42_000));
}

#[test]
fn connection_failed_passes_none_for_initial_cwnd() {
    let mut calls = vec![];
    let mut container = first_client(&mut calls);
    assert!(replace(
        &mut container,
        GenerateClientReason::ConnectionFailed,
        Some(12345),
        0,
        &mut calls
    ));
    assert_eq!(calls, vec![None, None]);
    assert!(container.is_healthy());
    assert_eq!(make_client(None, None), None);
    assert_eq!(make_client(Some(7), None), Some(7));
}

#[test]
fn replacements_are_recorded_by_what_they_did() {
    assert_eq!(observe_regenerate(&Ok(true)), Some("regenerated"));
    assert_eq!(observe_regenerate(&Ok(false)), Some("skipped"));
    assert_eq!(observe_regenerate(&Err(())), None);
}

#[test]
fn correlations_are_read_from_text() {
    let text = "550e8400-e29b-41d4-a716-446655440000";
    assert_eq!(
        request_header(text, Partition { value: 6 }),
        ReplicationHeader {
            correlation_id: 0x550e8400_e29b_41d4_a716_446655440000,
            repository: Partition { value: 6 }
        }
    );
    assert_eq!(request_header("", Partition { value: 6 }).correlation_id, 0);
    assert_eq!(make_header(Some(9), Partition { value: 6 }).correlation_id, 9);
    assert_eq!(make_header(None, Partition { value: 6 }).correlation_id, 0);
}

#[test]
fn successful_transformation_with_order_preserved() {
    // Four full batches.
    let most = 250;
    let addresses: Vec<Address> = (0..4 * most as u32).map(address).collect();
    let requests = exist_batch(HEADER, &addresses, StoreMatch::MatchHash, most);
    assert_eq!(requests.len(), 4);
    for (request, part) in requests.iter().zip(addresses.chunks(most)) {
        assert_eq!(request.addresses, part.to_vec());
        assert_eq!(request.header, HEADER);
        assert_eq!(request.store_match, StoreMatch::MatchHash);
    }
    let answer = |a: &Address| match (a.hash.high * 7 + a.hash.high / 3) % 4 {
        0 => StoreMatch::MatchNone,
        1 => StoreMatch::MatchHash,
        2 => StoreMatch::MatchPartition,
        _ => StoreMatch::MatchFull,
    };
    let responses = requests
        .iter()
        .map(|r| Ok(r.addresses.iter().map(answer).collect()))
        .collect();
    let matches = join_matches(&responses, addresses.len()).unwrap();
    assert_eq!(matches.len(), addresses.len());
    for (index, store_match) in matches.iter().enumerate() {
        assert_eq!(*store_match, answer(&addresses[index]));
    }
    assert_eq!(
        join_matches(&responses, addresses.len() - 1),
        Err(StoreError::Internal(InternalError::ResponseMismatch))
    );
}

#[test]
fn the_last_batch_need_not_be_full() {
    let addresses: Vec<Address> = (0..10).map(address).collect();
    let requests = exist_batch(HEADER, &addresses, StoreMatch::MatchHash, 4);
    assert_eq!(requests.len(), 3);
    assert_eq!(requests[2].addresses, addresses[8..].to_vec());
    assert!(exist_batch(HEADER, &vec![], StoreMatch::MatchHash, 4).is_empty());
}

#[test]
fn replicas_look_after_themselves() {
    assert_eq!(lore::store::replica::evict(), Ok(0));
    assert_eq!(lore::store::replica::compact(), Ok(None));
    assert_eq!(lore::store::replica::compact_resume_at(), None);
    assert_eq!(lore::store::replica::max_query_batch(), None);
    assert_eq!(lore::store::replica::flush(), Ok(()));
    assert_eq!(lore::store::replica::verify(), Ok(()));
    assert_eq!(GrpcReplica::obliterate(), Ok(()));
    assert_eq!(GrpcReplica::evict(), Ok(0));
    assert_eq!(GrpcReplica::compact(), Ok(None));
    assert_eq!(GrpcReplica::compact_resume_at(), None);
    assert_eq!(GrpcReplica::max_query_batch(), None);
    assert_eq!(GrpcReplica::flush(), Ok(()));
    assert_eq!(GrpcReplica::verify(), Ok(()));
}

#[test]
fn what_was_left_unfinished_is_begun_again() {
    let mut container = ClientContainer::new(1);
    let reason = GenerateClientReason::ConnectionFailed;
    assert_eq!(container.regenerate_client(0, reason), RegenerateAction::Sleep);
    assert_eq!(container.regenerate_client(0, reason), RegenerateAction::Skip);
    container.abandoned();
    assert!(!container.is_healthy());
    assert_eq!(container.regenerate_client(0, reason), RegenerateAction::Sleep);

    let mut client = ReplicationClientImpl::new();
    assert_eq!(client.get_or_initialize_stream(), StreamStep::Create);
    assert_eq!(client.get_or_initialize_stream(), StreamStep::Busy);
    client.creation_abandoned();
    assert_eq!(client.get_or_initialize_stream(), StreamStep::Create);
}

#[test]
fn the_first_failed_part_fails_the_batch() {
    let responses = vec![
        Ok(vec![StoreMatch::MatchFull]),
        Err(StoreError::SlowDown),
        Err(StoreError::Oversized),
    ];
    assert_eq!(join_matches(&responses, 3), Err(StoreError::SlowDown));
}

#[test]
fn successful_exist_transform_works() {
    let id = uuid::Uuid::from_u128(0x1234_5678);
    let header = request_header(&id.as_hyphenated().to_string(), HEADER.repository);
    let requests = exist_batch(header, &vec![address(3)], StoreMatch::MatchFull, 1);
    assert_eq!(requests.len(), 1);
    assert_eq!(requests[0].header.correlation_id, 0x1234_5678);
    assert_eq!(requests[0].header.repository, HEADER.repository);
    assert_eq!(requests[0].store_match, StoreMatch::MatchFull);
    assert_eq!(requests[0].addresses, vec![address(3)]);
    assert_eq!(
        exist(&vec![StoreMatch::MatchPartition]),
        Ok(StoreMatch::MatchPartition)
    );
    let mismatch = Err(StoreError::Internal(InternalError::ResponseMismatch));
    assert_eq!(exist(&vec![]), mismatch);
    assert_eq!(
        exist(&vec![StoreMatch::MatchNone, StoreMatch::MatchNone]),
        mismatch
    );
}

#[test]
fn successful_transform_works() {
    let request = make_query(HEADER, address(1), StoreMatch::MatchFull);
    assert_eq!(request.0.addresses, vec![address(1)]);
    let fragment = Fragment {
        flags: 1,
        size_payload: 2,
        size_content: 3,
    };
    let output = query(QueryResponse {
        fragment,
        match_made: StoreMatch::MatchPartition,
    });
    assert_eq!(output.match_made, StoreMatch::MatchPartition);
    assert_eq!(output.fragment, fragment);
    let get = make_get(HEADER, address(1), StoreMatch::MatchFull);
    assert_eq!((get.header, get.address), (HEADER, address(1)));
}

#[test]
fn requests_need_a_healthy_client() {
    assert_eq!(check_health(true), Ok(()));
    assert_eq!(
        check_health(false),
        Err(StoreError::Internal(InternalError::ClientUnhealthy))
    );
}

#[test]
fn obliterate_returns_error() {
    assert_eq!(
        obliterate(),
        Err(StoreError::Internal(InternalError::OperationNotSupported))
    );
}

#[test]
fn a_failed_connection_is_made_again() {
    let (result, epoch) = handle_service_response::<()>(
        Err(ReplicationStoreClientError::ConnectionFailed),
        3,
    );
    assert_eq!(
        result,
        Err(StoreError::Internal(InternalError::ConnectionFailed))
    );
    assert_eq!(epoch, Some(3));
    assert_eq!(reconnect(ReconnectEvent::Started, 3), ReconnectAction::Check);
    assert_eq!(
        reconnect(ReconnectEvent::ReplicaHere, 3),
        ReconnectAction::Regenerate(3)
    );
    assert_eq!(reconnect(ReconnectEvent::Failed, 3), ReconnectAction::Check);
    assert_eq!(reconnect(ReconnectEvent::Regenerated, 3), ReconnectAction::Stop);
}

#[test]
fn service_errors_are_mapped_to_store_errors() {
    for error in [StoreError::AddressNotFound(address(1)), StoreError::SlowDown] {
        assert_eq!(
            handle_service_response::<()>(Err(ReplicationStoreClientError::Refused(error)), 3),
            (Err(error), None)
        );
    }
    assert_eq!(handle_service_response(Ok(5), 3), (Ok(5), None));
}

#[test]
fn test_put() {
    assert_eq!(GrpcReplica::put(Ok(())), Ok(()));
    assert_eq!(
        GrpcReplica::new(ReplicationClientImpl::new()).client.current_epoch,
        0
    );
    assert_eq!(
        GrpcReplica::lookup(),
        StoreError::Internal(InternalError::OperationNotSupported)
    );
}

#[test]
fn test_put_fails_with_slowdown() {
    assert_eq!(
        GrpcReplica::put(Err(ReplicationClientError::SlowDown)),
        Err(StoreError::SlowDown)
    );
}

#[test]
fn test_put_fails_with_other_error() {
    assert_eq!(
        GrpcReplica::put(Err(ReplicationClientError::RequestFailed(13))),
        Err(StoreError::Internal(InternalError::ReplicationFailed))
    );
}

#[test]
fn statuses_say_when_to_slow_down() {
    assert_eq!(from_status(14), ReplicationClientError::SlowDown);
    assert_eq!(from_status(8), ReplicationClientError::SlowDown);
    assert_eq!(from_status(13), ReplicationClientError::RequestFailed(13));
    assert_eq!(from_status(tonic::Code::Unavailable as i32), ReplicationClientError::SlowDown);
    assert_eq!(
        from_status(tonic::Code::ResourceExhausted as i32),
        ReplicationClientError::SlowDown
    );
    assert_eq!(
        put_waited(false),
        Err(ReplicationClientError::RequestFailed(
            tonic::Code::DeadlineExceeded as i32
        ))
    );
    assert_eq!(put_waited(true), Ok(()));
}

#[test]
fn requests_for_one_address_are_sent_once() {
    let mut stream = StreamInFlight::new();
    assert!(stream.subscribe(&address(1), 10));
    assert!(!stream.subscribe(&address(1), 11));
    assert!(stream.subscribe(&address(2), 12));
    assert_eq!(stream.answered(None), Vec::<u64>::new());
    assert_eq!(stream.answered(Some(address(1))), vec![10, 11]);
    assert_eq!(stream.answered(Some(address(1))), Vec::<u64>::new());
    // The next request is sent again.
    assert!(stream.subscribe(&address(1), 13));
    assert_eq!(stream.answered(Some(address(2))), vec![12]);
}

#[test]
fn test_inflight_requests_resolve_on_stream_error() {
    let mut stream = StreamInFlight::new();
    for i in 0..20u32 {
        stream.subscribe(&address(i), i as u64);
    }
    stream.drop_all();
    for i in 0..20u32 {
        assert!(stream.answered(Some(address(i))).is_empty());
    }
    assert_eq!(
        do_put(SendOutcome::AnswerLost, 4).0,
        Err(ReplicationClientError::ReceiveError { observed_epoch: 4 })
    );
}

#[test]
fn test_client_recovers_after_stream_error() {
    let mut client = ReplicationClientImpl::new();
    assert_eq!(client.current_epoch, 0);
    assert_eq!(client.get_or_initialize_stream(), StreamStep::Create);
    assert_eq!(client.get_or_initialize_stream(), StreamStep::Busy);
    assert_eq!(client.stream_created(), 1);
    for _ in 0..3 {
        assert_eq!(client.get_or_initialize_stream(), StreamStep::Use(1));
        assert_eq!(put(do_put(SendOutcome::Answered, 1).0), PutAction::Done);
    }
    assert_eq!(client.current_epoch, 1);
    // The stream fails under the next put, is dropped, and no time is left to try again.
    assert_eq!(client.get_or_initialize_stream(), StreamStep::Use(1));
    let PutAction::Reconnect(epoch) = put(do_put(SendOutcome::AnswerLost, 1).0) else {
        panic!("worth another attempt");
    };
    client.clear_stream_handle(epoch);
    assert_eq!(client.put_stream, None);
    assert!(put_waited(false).is_err());
    // The put after it makes a stream, which one that saw the first fail does not drop.
    assert_eq!(client.get_or_initialize_stream(), StreamStep::Create);
    assert_eq!(client.stream_created(), 2);
    assert_eq!(put(do_put(SendOutcome::Answered, 2).0), PutAction::Done);
    assert_eq!(put(do_put(SendOutcome::Closed, 1).0), PutAction::Reconnect(1));
    client.clear_stream_handle(epoch);
    assert_eq!(client.put_stream, Some(2));
    assert_eq!((client.connects, client.disconnects), (2, 1));
    assert_eq!(client.current_epoch, 2);
}

#[test]
fn puts_are_dropped_rather_than_held_back() {
    assert_eq!(
        do_put(SendOutcome::Full, 1),
        (Err(ReplicationClientError::SlowDown), Some("stream_full"))
    );
    assert_eq!(
        do_put(SendOutcome::Refused(ReplicationClientError::RequestFailed(3)), 1),
        (Err(ReplicationClientError::RequestFailed(3)), None)
    );
    assert_eq!(
        put(Err(ReplicationClientError::SlowDown)),
        PutAction::Fail(ReplicationClientError::SlowDown)
    );
    assert_eq!(
        no_stream(GetStreamError::CreationInProgress),
        (ReplicationClientError::SlowDown, "stream_creation_in_progress")
    );
    assert_eq!(
        no_stream(GetStreamError::ClientError(
            ReplicationClientError::RequestFailed(2)
        )),
        (ReplicationClientError::RequestFailed(2), "error_creating_stream")
    );
}
