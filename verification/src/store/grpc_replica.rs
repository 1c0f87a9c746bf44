//! Replicating fragments to another server over gRPC.
//!
//! All puts go through one stream. Requests for one address that are on their way at the same time
//! are sent once, and all who wait for the answer get it. A stream that fails is dropped, and the
//! next request makes a new one.
use vstd::prelude::*;

use crate::error::{InternalError, StoreError};
use crate::types::Address;

verus! {

/// Under which key the reason is recorded for which a request was dropped.
pub const MESSAGE_DROPPED_REASON: &'static str = "reason";

/// Why no stream could be had.
#[derive(Clone, Copy, Debug, PartialEq, Eq, Structural)]
pub enum GetStreamError {
    /// Another request makes the stream.
    CreationInProgress,
    /// The stream could not be made.
    ClientError(ReplicationClientError),
}

/// Why a put was not replicated.
#[derive(Clone, Copy, Debug, PartialEq, Eq, Structural)]
pub enum ReplicationClientError {
    /// The server refused, with this status code.
    RequestFailed(i32),
    /// The stream ended before the answer.
    ReceiveError { observed_epoch: u64 },
    /// The stream had ended before the request.
    SendError { observed_epoch: u64 },
    /// The server, or the stream to it, is overloaded.
    SlowDown,
}

/// The status of a server that is overloaded.
pub const STATUS_RESOURCE_EXHAUSTED: i32 = 8;

/// The status of a server that is not there.
pub const STATUS_UNAVAILABLE: i32 = 14;

/// The status of a request that took too long.
pub const STATUS_DEADLINE_EXCEEDED: i32 = 4;

/// The error for a status code: a server that is overloaded, or not there, is to be given time.
pub open spec fn error_of(code: i32) -> ReplicationClientError {
    if code == STATUS_UNAVAILABLE || code == STATUS_RESOURCE_EXHAUSTED {
        ReplicationClientError::SlowDown
    } else {
        ReplicationClientError::RequestFailed(code)
    }
}

/// The error for a status code.
pub fn from_status(code: i32) -> (r: ReplicationClientError)
    ensures
        r == error_of(code),
{
    if code == STATUS_UNAVAILABLE || code == STATUS_RESOURCE_EXHAUSTED {
        ReplicationClientError::SlowDown
    } else {
        ReplicationClientError::RequestFailed(code)
    }
}

/// Who waits for which address, as a map of the dashmap crate holds it.
pub uninterp spec fn subscribers_of(
    map: dashmap::DashMap<(u128, u128, u128), Vec<u64>>,
) -> Map<(u128, u128, u128), Seq<u64>>;

/// No one waits.
pub open spec fn no_subscribers() -> Map<(u128, u128, u128), Seq<u64>> {
    Map::empty()
}

/// `DashMap::new`: the map is empty.
#[verifier::external_body]
fn new_subscribers() -> (r: dashmap::DashMap<(u128, u128, u128), Vec<u64>>)
    ensures
        subscribers_of(r) == no_subscribers(),
{
    dashmap::DashMap::new()
}

/// `DashMap::insert`: the list of the key is the one given, and the one that it had before, where it
/// had one, is given back. Nothing else changes.
#[verifier::external_body]
fn set_subscribers(
    map: &mut dashmap::DashMap<(u128, u128, u128), Vec<u64>>,
    key: (u128, u128, u128),
    list: Vec<u64>,
) -> (r: Option<Vec<u64>>)
    ensures
        r is Some <==> subscribers_of(*old(map)).contains_key(key),
        r is Some ==> r->0@ == subscribers_of(*old(map))[key],
        subscribers_of(*final(map)) == subscribers_of(*old(map)).insert(key, list@),
{
    map.insert(key, list)
}

/// `DashMap::remove`: the key is gone, and its list, where it was there, is given back.
#[verifier::external_body]
fn take_subscribers(
    map: &mut dashmap::DashMap<(u128, u128, u128), Vec<u64>>,
    key: &(u128, u128, u128),
) -> (r: Option<Vec<u64>>)
    ensures
        r is Some <==> subscribers_of(*old(map)).contains_key(*key),
        r is Some ==> r->0@ == subscribers_of(*old(map))[*key],
        subscribers_of(*final(map)) == subscribers_of(*old(map)).remove(*key),
{
    map.remove(key).map(|entry| entry.1)
}

/// `DashMap::clear`: the map is empty.
#[verifier::external_body]
fn clear_subscribers(map: &mut dashmap::DashMap<(u128, u128, u128), Vec<u64>>)
    ensures
        subscribers_of(*final(map)) == no_subscribers(),
{
    map.clear();
}

/// Who waits for a key.
pub open spec fn waiting(
    subscribers: Map<(u128, u128, u128), Seq<u64>>,
    key: (u128, u128, u128),
) -> Seq<u64> {
    if subscribers.contains_key(key) {
        subscribers[key]
    } else {
        Seq::empty()
    }
}

/// Who waits once one more waits for an address.
pub open spec fn subscribed(
    before: Map<(u128, u128, u128), Seq<u64>>,
    key: (u128, u128, u128),
    subscriber: u64,
) -> Map<(u128, u128, u128), Seq<u64>> {
    before.insert(key, waiting(before, key).push(subscriber))
}

/// An address as numbers.
pub open spec fn address_key(address: Address) -> (u128, u128, u128) {
    (address.hash.high, address.hash.low, address.context.value)
}

/// The requests of a stream that are on their way: for each address, who waits for the answer.
pub struct StreamInFlight {
    map: dashmap::DashMap<(u128, u128, u128), Vec<u64>>,
}

impl StreamInFlight {
    /// Who waits for which address.
    pub closed spec fn subscribers(self) -> Map<(u128, u128, u128), Seq<u64>> {
        subscribers_of(self.map)
    }

    /// Whoever is listed waits for something: no list is empty.
    pub open spec fn wf(self) -> bool {
        forall|key: (u128, u128, u128)| #[trigger]
            self.subscribers().contains_key(key) ==> self.subscribers()[key].len() > 0
    }

    /// A stream without requests.
    pub fn new() -> (r: StreamInFlight)
        ensures
            r.wf(),
            r.subscribers() == no_subscribers(),
    {
        StreamInFlight { map: new_subscribers() }
    }

    /// Adds one who waits for an address. The result says whether the request is to be sent: not
    /// where one for the same address is on its way.
    pub fn subscribe(&mut self, address: &Address, subscriber: u64) -> (r: bool)
        requires
            old(self).wf(),
        ensures
            final(self).wf(),
            r == !old(self).subscribers().contains_key(address_key(*address)),
            final(self).subscribers() == old(self).subscribers().insert(
                address_key(*address),
                waiting(old(self).subscribers(), address_key(*address)).push(subscriber),
            ),
            final(self).subscribers() == subscribed(
                old(self).subscribers(),
                address_key(*address),
                subscriber,
            ),
    {
        let key = (address.hash.high, address.hash.low, address.context.value);
        let taken = take_subscribers(&mut self.map, &key);
        let first = taken.is_none();
        let mut list: Vec<u64> = match taken {
            Some(list) => list,
            None => Vec::new(),
        };
        assert(list@ =~= waiting(old(self).subscribers(), key));
        list.push(subscriber);
        set_subscribers(&mut self.map, key, list);
        assert(self.subscribers() =~= old(self).subscribers().insert(
            key,
            waiting(old(self).subscribers(), key).push(subscriber),
        ));
        assert forall|k: (u128, u128, u128)| #[trigger]
            self.subscribers().contains_key(k) implies self.subscribers()[k].len() > 0 by {
            if k != key {
                assert(old(self).subscribers().contains_key(k));
            }
        }
        first
    }

    /// Takes those who wait for the address of an answer. An answer without an address, or one that
    /// no one waits for, is for no one.
    pub fn answered(&mut self, address: Option<Address>) -> (r: Vec<u64>)
        requires
            old(self).wf(),
        ensures
            final(self).wf(),
            match address {
                None => r@.len() == 0 && final(self).subscribers() == old(self).subscribers(),
                Some(a) => r@ == waiting(old(self).subscribers(), address_key(a)) && final(self).subscribers() == old(self).subscribers().remove(address_key(a)),
            },
    {
        match address {
            None => Vec::new(),
            Some(address) => {
                let key = (address.hash.high, address.hash.low, address.context.value);
                let taken = take_subscribers(&mut self.map, &key);
                assert forall|k: (u128, u128, u128)| #[trigger]
                    self.subscribers().contains_key(k) implies self.subscribers()[k].len() > 0 by {
                    assert(old(self).subscribers().contains_key(k));
                }
                match taken {
                    Some(list) => list,
                    None => {
                        let none: Vec<u64> = Vec::new();
                        assert(none@ =~= Seq::empty());
                        none
                    },
                }
            },
        }
    }

    /// Forgets all who wait: the stream has ended, and they learn that no answer comes.
    pub fn drop_all(&mut self)
        ensures
            final(self).wf(),
            final(self).subscribers() == no_subscribers(),
    {
        clear_subscribers(&mut self.map);
    }
}

/// The stream of a client, if it has one.
#[derive(Clone, Copy, Debug, PartialEq, Eq, Structural)]
pub struct ReplicationClientImpl {
    /// The epoch of the stream.
    pub put_stream: Option<u64>,
    /// Whether a stream is being made.
    pub creating: bool,
    /// The number of streams that were made.
    pub current_epoch: u64,
    /// How often a stream was made.
    pub connects: u64,
    /// How often a stream was dropped.
    pub disconnects: u64,
}

/// What a request does to get a stream.
#[derive(Clone, Copy, Debug, PartialEq, Eq, Structural)]
pub enum StreamStep {
    /// Use the stream of this epoch.
    Use(u64),
    /// Make a stream.
    Create,
    /// Give up: another request makes the stream.
    Busy,
}

/// What came of handing a request to the stream and waiting for its answer.
#[derive(Clone, Copy, Debug, PartialEq, Eq, Structural)]
pub enum SendOutcome {
    /// The answer came.
    Answered,
    /// The answer was an error.
    Refused(ReplicationClientError),
    /// The stream ended before the answer.
    AnswerLost,
    /// The stream has no room.
    Full,
    /// The stream has ended.
    Closed,
}

/// What a put does next.
#[derive(Clone, Copy, Debug, PartialEq, Eq, Structural)]
pub enum PutAction {
    /// End: the fragment was replicated.
    Done,
    /// Drop the stream of this epoch, wait, and try again where that is still allowed.
    Reconnect(u64),
    /// End with an error.
    Fail(ReplicationClientError),
}

impl ReplicationClientImpl {
    /// A client without a stream.
    pub fn new() -> (r: ReplicationClientImpl)
        ensures
            r == (ReplicationClientImpl {
                put_stream: None,
                creating: false,
                current_epoch: 0,
                connects: 0,
                disconnects: 0,
            }),
    {
        ReplicationClientImpl {
            put_stream: None,
            creating: false,
            current_epoch: 0,
            connects: 0,
            disconnects: 0,
        }
    }

    /// What a request that needs a stream is told, and the client after that.
    pub open spec fn asked_for_stream(self) -> (StreamStep, ReplicationClientImpl) {
        if self.put_stream is Some {
            (StreamStep::Use(self.put_stream->0), self)
        } else if self.creating {
            (StreamStep::Busy, self)
        } else {
            (StreamStep::Create, ReplicationClientImpl { creating: true, ..self })
        }
    }

    /// The client with a new stream.
    pub open spec fn with_stream(self) -> ReplicationClientImpl {
        let epoch = (self.current_epoch + 1) as u64;
        ReplicationClientImpl {
            put_stream: Some(epoch),
            creating: false,
            current_epoch: epoch,
            connects: (self.connects + 1) as u64,
            ..self
        }
    }

    /// The client once a stream was seen to fail.
    pub open spec fn cleared(self, observed_epoch: u64) -> ReplicationClientImpl {
        if self.put_stream == Some(observed_epoch) {
            ReplicationClientImpl {
                put_stream: None,
                disconnects: (self.disconnects + 1) as u64,
                ..self
            }
        } else {
            self
        }
    }

    /// Looks for the stream. Only one request makes a stream; the others do not wait for it.
    pub fn get_or_initialize_stream(&mut self) -> (r: StreamStep)
        ensures
            r == match old(self).put_stream {
                Some(epoch) => StreamStep::Use(epoch),
                None => if old(self).creating {
                    StreamStep::Busy
                } else {
                    StreamStep::Create
                },
            },
            *final(self) == (ReplicationClientImpl {
                creating: old(self).creating || r == StreamStep::Create,
                ..*old(self)
            }),
            (r, *final(self)) == old(self).asked_for_stream(),
    {
        match self.put_stream {
            Some(epoch) => StreamStep::Use(epoch),
            None => if self.creating {
                StreamStep::Busy
            } else {
                self.creating = true;
                StreamStep::Create
            },
        }
    }

    /// Records the stream that was made, with an epoch of its own.
    pub fn stream_created(&mut self) -> (r: u64)
        requires
            old(self).creating,
            old(self).current_epoch < u64::MAX,
            old(self).connects < u64::MAX,
        ensures
            r == old(self).current_epoch + 1,
            *final(self) == (ReplicationClientImpl {
                put_stream: Some(r),
                creating: false,
                current_epoch: r,
                connects: (old(self).connects + 1) as u64,
                ..*old(self)
            }),
            *final(self) == old(self).with_stream(),
    {
        self.current_epoch = self.current_epoch + 1;
        self.put_stream = Some(self.current_epoch);
        self.creating = false;
        self.connects = self.connects + 1;
        self.current_epoch
    }

    /// Gives up making a stream, where it was still being made: the next request makes one.
    pub fn creation_abandoned(&mut self)
        ensures
            *final(self) == (ReplicationClientImpl { creating: false, ..*old(self) }),
    {
        self.creating = false;
    }

    /// Drops the stream that was seen to fail, unless another has taken its place.
    pub fn clear_stream_handle(&mut self, observed_epoch: u64)
        requires
            old(self).disconnects < u64::MAX,
        ensures
            *final(self) == if old(self).put_stream == Some(observed_epoch) {
                ReplicationClientImpl {
                    put_stream: None,
                    disconnects: (old(self).disconnects + 1) as u64,
                    ..*old(self)
                }
            } else {
                *old(self)
            },
            *final(self) == old(self).cleared(observed_epoch),
    {
        if let Some(epoch) = self.put_stream {
            if epoch == observed_epoch {
                self.put_stream = None;
                self.disconnects = self.disconnects + 1;
            }
        }
    }
}

/// The error of a put that got no stream, and the reason that is recorded.
pub fn no_stream(error: GetStreamError) -> (r: (ReplicationClientError, &'static str))
    ensures
        match error {
            GetStreamError::CreationInProgress => r.0 == ReplicationClientError::SlowDown
                && r.1@ == "stream_creation_in_progress"@,
            GetStreamError::ClientError(e) => r.0 == e && r.1@ == "error_creating_stream"@,
        },
{
    match error {
        GetStreamError::CreationInProgress => (
            ReplicationClientError::SlowDown,
            "stream_creation_in_progress",
        ),
        GetStreamError::ClientError(e) => (e, "error_creating_stream"),
    }
}

/// What a put through the stream of an epoch comes to. A request that the stream has no room for is
/// dropped rather than held back.
pub open spec fn put_result(outcome: SendOutcome, epoch: u64) -> Result<(), ReplicationClientError> {
    match outcome {
        SendOutcome::Answered => Ok(()),
        SendOutcome::Refused(e) => Err(e),
        SendOutcome::AnswerLost => Err(
            ReplicationClientError::ReceiveError { observed_epoch: epoch },
        ),
        SendOutcome::Full => Err(ReplicationClientError::SlowDown),
        SendOutcome::Closed => Err(ReplicationClientError::SendError { observed_epoch: epoch }),
    }
}

/// What a put through the stream of an epoch comes to, and the reason that is recorded where it was
/// dropped.
pub fn do_put(outcome: SendOutcome, epoch: u64) -> (r: (
    Result<(), ReplicationClientError>,
    Option<&'static str>,
))
    ensures
        r.0 == put_result(outcome, epoch),
        r.1 is Some <==> outcome == SendOutcome::Full,
        r.1 is Some ==> r.1->0@ == "stream_full"@,
{
    match outcome {
        SendOutcome::Answered => (Ok(()), None),
        SendOutcome::Refused(e) => (Err(e), None),
        SendOutcome::AnswerLost => (
            Err(ReplicationClientError::ReceiveError { observed_epoch: epoch }),
            None,
        ),
        SendOutcome::Full => (Err(ReplicationClientError::SlowDown), Some("stream_full")),
        SendOutcome::Closed => (
            Err(ReplicationClientError::SendError { observed_epoch: epoch }),
            None,
        ),
    }
}

/// What a put does after an attempt.
pub open spec fn action_after(attempt: Result<(), ReplicationClientError>) -> PutAction {
    if attempt is Ok {
        PutAction::Done
    } else {
        match attempt->Err_0 {
            ReplicationClientError::SendError { observed_epoch } => PutAction::Reconnect(
                observed_epoch,
            ),
            ReplicationClientError::ReceiveError { observed_epoch } => PutAction::Reconnect(
                observed_epoch,
            ),
            e => PutAction::Fail(e),
        }
    }
}

/// What a put does after an attempt: only a stream that failed is worth another.
pub fn put(attempt: Result<(), ReplicationClientError>) -> (r: PutAction)
    ensures
        r == action_after(attempt),
        r == match attempt {
            Ok(()) => PutAction::Done,
            Err(ReplicationClientError::SendError { observed_epoch }) => PutAction::Reconnect(
                observed_epoch,
            ),
            Err(ReplicationClientError::ReceiveError { observed_epoch }) => PutAction::Reconnect(
                observed_epoch,
            ),
            Err(e) => PutAction::Fail(e),
        },
{
    match attempt {
        Ok(()) => PutAction::Done,
        Err(ReplicationClientError::SendError { observed_epoch }) => PutAction::Reconnect(
            observed_epoch,
        ),
        Err(ReplicationClientError::ReceiveError { observed_epoch }) => PutAction::Reconnect(
            observed_epoch,
        ),
        Err(e) => PutAction::Fail(e),
    }
}

/// What a put does after a wait: another attempt where it is still allowed, and otherwise it has
/// taken too long.
pub fn put_waited(allowed: bool) -> (r: Result<(), ReplicationClientError>)
    ensures
        r is Ok <==> allowed,
        r is Err ==> r->Err_0 == ReplicationClientError::RequestFailed(STATUS_DEADLINE_EXCEEDED),
{
    if allowed {
        Ok(())
    } else {
        Err(ReplicationClientError::RequestFailed(STATUS_DEADLINE_EXCEEDED))
    }
}

/// A store that hands every put to another server and offers nothing else.
#[derive(Clone, Copy, Debug, PartialEq, Eq, Structural)]
pub struct GrpcReplica {
    pub client: ReplicationClientImpl,
}

impl GrpcReplica {
    /// A store that uses a client.
    pub fn new(client: ReplicationClientImpl) -> (r: GrpcReplica)
        ensures
            r.client == client,
    {
        GrpcReplica { client }
    }

    /// What callers are told of a replicated put.
    pub open spec fn put_answer(outcome: Result<(), ReplicationClientError>) -> Result<
        (),
        StoreError,
    > {
        if outcome is Ok {
            Ok(())
        } else if outcome->Err_0 is SlowDown {
            Err(StoreError::SlowDown)
        } else {
            Err(StoreError::Internal(InternalError::ReplicationFailed))
        }
    }

    /// What a put comes to as callers of a store see it.
    pub fn put(outcome: Result<(), ReplicationClientError>) -> (r: Result<(), StoreError>)
        ensures
            r == match outcome {
                Ok(()) => Ok::<(), StoreError>(()),
                Err(e) => Err(
                    if e == ReplicationClientError::SlowDown {
                        StoreError::SlowDown
                    } else {
                        StoreError::Internal(InternalError::ReplicationFailed)
                    },
                ),
            },
            r == Self::put_answer(outcome),
    {
        match outcome {
            Ok(()) => Ok(()),
            Err(e) => if e == ReplicationClientError::SlowDown {
                Err(StoreError::SlowDown)
            } else {
                Err(StoreError::Internal(InternalError::ReplicationFailed))
            },
        }
    }

    /// Nothing is obliterated over this store, and no one is told of it.
    pub fn obliterate() -> (r: Result<(), StoreError>)
        ensures
            r is Ok,
    {
        Ok(())
    }

    /// Nothing is evicted over this store.
    pub fn evict() -> (r: Result<usize, StoreError>)
        ensures
            r == Ok::<usize, StoreError>(0),
    {
        Ok(0)
    }

    /// Nothing is compacted over this store, and no pass goes on anywhere.
    pub fn compact() -> (r: Result<Option<usize>, StoreError>)
        ensures
            r == Ok::<Option<usize>, StoreError>(None),
    {
        Ok(None)
    }

    /// No compaction was left unfinished.
    pub fn compact_resume_at() -> (r: Option<usize>)
        ensures
            r is None,
    {
        None
    }

    /// There is no limit to the queries of a batch.
    pub fn max_query_batch() -> (r: Option<usize>)
        ensures
            r is None,
    {
        None
    }

    /// Nothing is held back that could be flushed.
    pub fn flush() -> (r: Result<(), StoreError>)
        ensures
            r is Ok,
    {
        Ok(())
    }

    /// The other server is not checked from here.
    pub fn verify() -> (r: Result<(), StoreError>)
        ensures
            r is Ok,
    {
        Ok(())
    }

    /// What all lookups come to.
    pub fn lookup() -> (r: StoreError)
        ensures
            r == StoreError::Internal(InternalError::OperationNotSupported),
    {
        StoreError::Internal(InternalError::OperationNotSupported)
    }
}

/// Those who wait for an address all get the answer, in the order in which they asked, and the
/// request was sent for the first of them alone.
pub proof fn law_one_request_answers_all(
    before: Map<(u128, u128, u128), Seq<u64>>,
    key: (u128, u128, u128),
    first: u64,
    second: u64,
)
    requires
        !before.contains_key(key),
    ensures
        ({
            let one = before.insert(key, waiting(before, key).push(first));
            let two = one.insert(key, waiting(one, key).push(second));
            &&& one.contains_key(key)
            &&& waiting(two, key) == seq![first, second]
            &&& two.remove(key) == before
        }),
{
    let one = before.insert(key, waiting(before, key).push(first));
    let two = one.insert(key, waiting(one, key).push(second));
    assert(waiting(two, key) =~= seq![first, second]);
    assert(two.remove(key) =~= before);
}

/// A stream that failed is dropped once: a request that saw it fail later does not drop the stream
/// that took its place.
pub proof fn law_late_failures_leave_the_new_stream(
    client: ReplicationClientImpl,
    observed_epoch: u64,
)
    requires
        client.put_stream is Some,
        client.put_stream->0 == client.current_epoch,
        observed_epoch < client.current_epoch,
    ensures
        client.put_stream != Some(observed_epoch),
{
}

/// All who wait for an address, after more have begun to wait for it.
pub open spec fn subscribed_all(
    before: Map<(u128, u128, u128), Seq<u64>>,
    key: (u128, u128, u128),
    subscribers: Seq<u64>,
) -> Map<(u128, u128, u128), Seq<u64>>
    decreases subscribers.len(),
{
    if subscribers.len() == 0 {
        before
    } else {
        subscribed(
            subscribed_all(before, key, subscribers.drop_last()),
            key,
            subscribers.last(),
        )
    }
}

/// However many wait for an address, they wait in the order in which they asked, and those who wait
/// for other addresses are left alone. Once they were answered it is as if none had asked.
pub proof fn law_all_who_wait_are_answered(
    before: Map<(u128, u128, u128), Seq<u64>>,
    key: (u128, u128, u128),
    subscribers: Seq<u64>,
    other: (u128, u128, u128),
)
    requires
        !before.contains_key(key),
        other != key,
    ensures
        ({
            let after = subscribed_all(before, key, subscribers);
            &&& waiting(after, key) == subscribers
            &&& after.contains_key(key) <==> subscribers.len() > 0
            &&& waiting(after, other) == waiting(before, other)
            &&& after.contains_key(other) <==> before.contains_key(other)
            &&& after.remove(key) == before
        }),
    decreases subscribers.len(),
{
    let after = subscribed_all(before, key, subscribers);
    if subscribers.len() > 0 {
        law_all_who_wait_are_answered(before, key, subscribers.drop_last(), other);
        assert(waiting(after, key) =~= subscribers);
        assert(after.remove(key) =~= subscribed_all(
            before,
            key,
            subscribers.drop_last(),
        ).remove(key));
    } else {
        assert(waiting(after, key) =~= subscribers);
        assert(after.remove(key) =~= before);
    }
}

/// Addresses are told apart by their keys.
pub proof fn law_addresses_have_keys_of_their_own(a: Address, b: Address)
    ensures
        address_key(a) == address_key(b) <==> a == b,
{
}

/// One request makes the stream, and the others give up until it is there. All who ask then use it. A
/// stream that is seen to fail is dropped, and the next request makes another, with an epoch of its
/// own. Whoever sees the old one fail after that changes nothing.
pub proof fn law_one_request_makes_the_stream(client: ReplicationClientImpl)
    requires
        client.put_stream is None,
        !client.creating,
        client.current_epoch < u64::MAX - 1,
        client.connects < u64::MAX - 1,
        client.disconnects < u64::MAX,
    ensures
        ({
            let (told, making) = client.asked_for_stream();
            let made = making.with_stream();
            let epoch = made.current_epoch;
            let dropped = made.cleared(epoch);
            let again = dropped.asked_for_stream().1.with_stream();
            &&& told == StreamStep::Create
            &&& making.asked_for_stream() == (StreamStep::Busy, making)
            &&& made.asked_for_stream() == (StreamStep::Use(epoch), made)
            &&& epoch > client.current_epoch
            &&& made.connects == client.connects + 1
            &&& made.disconnects == client.disconnects
            &&& dropped.put_stream is None && !dropped.creating && dropped.disconnects
                == client.disconnects + 1
            &&& dropped.asked_for_stream().0 == StreamStep::Create
            &&& again.put_stream == Some(again.current_epoch) && again.current_epoch > epoch
            &&& again.cleared(epoch) == again
        }),
{
}

/// A put is tried again exactly if the stream ended, before the request or before the answer, and
/// then the stream that is dropped is the one that was used. Everything else is final.
pub proof fn law_put_reconnects_only_after_a_lost_stream(outcome: SendOutcome, epoch: u64)
    requires
        outcome is Refused ==> !(outcome->Refused_0 is SendError) && !(outcome->Refused_0
            is ReceiveError),
    ensures
        ({
            let action = action_after(put_result(outcome, epoch));
            &&& action is Done <==> outcome is Answered
            &&& action is Reconnect <==> outcome is Closed || outcome is AnswerLost
            &&& action is Reconnect ==> action == PutAction::Reconnect(epoch)
            &&& outcome is Full ==> action == PutAction::Fail(ReplicationClientError::SlowDown)
            &&& outcome is Refused ==> action == PutAction::Fail(outcome->Refused_0)
        }),
{
}

/// A status says that the server is overloaded, or that the request failed with it.
pub proof fn law_only_overload_slows_down(code: i32)
    ensures
        error_of(code) == ReplicationClientError::SlowDown <==> code == 14 || code == 8,
        error_of(code) != ReplicationClientError::SlowDown ==> error_of(code)
            == ReplicationClientError::RequestFailed(code),
{
}

/// Callers of a replicated put are told to slow down exactly if the server, or the stream to it, is
/// overloaded. Any other failure is one of the replication.
pub proof fn law_overload_is_passed_on(outcome: Result<(), ReplicationClientError>)
    ensures
        GrpcReplica::put_answer(outcome) is Ok <==> outcome is Ok,
        GrpcReplica::put_answer(outcome) == Err::<(), StoreError>(StoreError::SlowDown) <==> outcome
            == Err::<(), ReplicationClientError>(ReplicationClientError::SlowDown),
        outcome is Err && outcome->Err_0 != ReplicationClientError::SlowDown
            ==> GrpcReplica::put_answer(outcome) == Err::<(), StoreError>(
            StoreError::Internal(InternalError::ReplicationFailed),
        ),
{
}

} // verus!
