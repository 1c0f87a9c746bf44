//! A store on another server, reached over QUIC.
use vstd::prelude::*;

use crate::error::{InternalError, StoreError};
use crate::types::{Address, Fragment, Partition, StoreMatch, StoreQueryResult};

verus! {

/// The number of a text that is a UUID, in any of its forms.
pub uninterp spec fn uuid_value(text: Seq<char>) -> Option<u128>;

/// `Uuid::try_parse`, with `Uuid::as_u128`: the number of a text that is a UUID, and nothing for
/// another text. Which texts are UUIDs is for the uuid crate to say.
#[verifier::external_body]
fn parse_uuid(text: &str) -> (r: Option<u128>)
    ensures
        r == uuid_value(text@),
{
    uuid::Uuid::try_parse(text).ok().map(|id| id.as_u128())
}

/// What every request to a replica carries.
#[derive(Clone, Copy, Debug, PartialEq, Eq, Structural)]
pub struct ReplicationHeader {
    pub correlation_id: u128,
    pub repository: Partition,
}

/// The header for a correlation that was read, or the one of none.
pub open spec fn header_for(correlation: Option<u128>, repository: Partition) -> ReplicationHeader {
    ReplicationHeader {
        correlation_id: match correlation {
            Some(id) => id,
            None => 0,
        },
        repository,
    }
}

/// The header of a request whose correlation was read. One that is no UUID counts as none.
pub fn make_header(correlation: Option<u128>, repository: Partition) -> (r: ReplicationHeader)
    ensures
        r == header_for(correlation, repository),
{
    ReplicationHeader {
        correlation_id: match correlation {
            Some(id) => id,
            None => 0,
        },
        repository,
    }
}

/// The header of a request.
pub fn request_header(correlation: &str, repository: Partition) -> (r: ReplicationHeader)
    ensures
        r == header_for(uuid_value(correlation@), repository),
{
    make_header(parse_uuid(correlation), repository)
}

/// Asks for some addresses.
pub struct ExistsBatch {
    pub header: ReplicationHeader,
    pub store_match: StoreMatch,
    pub addresses: Vec<Address>,
}

/// Asks what is known of one address.
pub struct Query(pub ExistsBatch);

/// Asks for a fragment and its payload.
#[derive(Clone, Copy, Debug, PartialEq, Eq, Structural)]
pub struct Get {
    pub header: ReplicationHeader,
    pub address: Address,
    pub match_required: StoreMatch,
}

/// Puts a fragment.
pub struct Put<P> {
    pub header: ReplicationHeader,
    pub address: Address,
    pub fragment: Fragment,
    /// Whether to write the payload though one is there.
    pub force: bool,
    pub payload: Option<P>,
}

/// Asks what is known of one address.
pub fn make_query(header: ReplicationHeader, address: Address, match_requested: StoreMatch) -> (r:
    Query)
    ensures
        r.0.header == header,
        r.0.store_match == match_requested,
        r.0.addresses@ == seq![address],
{
    let mut addresses: Vec<Address> = Vec::new();
    addresses.push(address);
    assert(addresses@ =~= seq![address]);
    Query(ExistsBatch { header, store_match: match_requested, addresses })
}

/// Asks for a fragment and its payload.
pub fn make_get(header: ReplicationHeader, address: Address, match_required: StoreMatch) -> (r: Get)
    ensures
        r == (Get { header, address, match_required }),
{
    Get { header, address, match_required }
}

/// Puts a fragment, with its payload where it is given.
pub fn make_put<P>(
    header: ReplicationHeader,
    address: Address,
    fragment: Fragment,
    payload: Option<P>,
    force: bool,
) -> (r: Put<P>)
    ensures
        r == (Put { header, address, fragment, force, payload }),
{
    Put { header, address, fragment, force, payload }
}

/// Lets a request through only if the client is thought to work.
pub fn check_health(is_healthy: bool) -> (r: Result<(), StoreError>)
    ensures
        r is Ok <==> is_healthy,
        r is Err ==> r->Err_0 == StoreError::Internal(InternalError::ClientUnhealthy),
{
    if is_healthy {
        Ok(())
    } else {
        Err(StoreError::Internal(InternalError::ClientUnhealthy))
    }
}

/// Some values in runs of at most `most`.
pub open spec fn chunks<A>(s: Seq<A>, most: int) -> Seq<Seq<A>>
    decreases s.len(),
{
    if s.len() == 0 || most <= 0 {
        Seq::empty()
    } else if s.len() <= most {
        seq![s]
    } else {
        seq![s.take(most)] + chunks(s.skip(most), most)
    }
}

/// Runs of values, one after the other.
pub open spec fn joined<A>(runs: Seq<Seq<A>>) -> Seq<A>
    decreases runs.len(),
{
    if runs.len() == 0 {
        Seq::empty()
    } else {
        joined(runs.drop_last()) + runs.last()
    }
}

/// Where a run begins among the values of all.
pub open spec fn run_start<A>(runs: Seq<Seq<A>>, i: int) -> int
    decreases i,
{
    if i <= 0 {
        0
    } else {
        run_start(runs, i - 1) + runs[i - 1].len()
    }
}

/// The requests for some addresses, with at most `most` in each, in the order of the addresses.
pub fn exist_batch(
    header: ReplicationHeader,
    addresses: &Vec<Address>,
    match_requested: StoreMatch,
    most: usize,
) -> (r: Vec<ExistsBatch>)
    requires
        most > 0,
    ensures
        r@.len() == chunks(addresses@, most as int).len(),
        forall|i: int|
            0 <= i < r@.len() ==> (#[trigger] r@[i]).header == header && r@[i].store_match
                == match_requested && r@[i].addresses@ == chunks(addresses@, most as int)[i],
{
    let count: usize = addresses.len();
    let mut requests: Vec<ExistsBatch> = Vec::new();
    let ghost goal = chunks(addresses@, most as int);
    let mut from: usize = 0;
    assert(addresses@.skip(0) =~= addresses@);
    while from < count
        invariant
            most > 0,
            count == addresses@.len(),
            from <= count,
            requests@.len() + chunks(addresses@.skip(from as int), most as int).len()
                == goal.len(),
            forall|i: int|
                0 <= i < requests@.len() ==> (#[trigger] requests@[i]).header == header
                    && requests@[i].store_match == match_requested && requests@[i].addresses@
                    == goal[i],
            forall|i: int|
                0 <= i < chunks(addresses@.skip(from as int), most as int).len() ==> goal[
                requests@.len() + i] == #[trigger] chunks(
                    addresses@.skip(from as int),
                    most as int,
                )[i],
        decreases count - from,
    {
        let to: usize = if most < count - from {
            from + most
        } else {
            count
        };
        let mut part: Vec<Address> = Vec::new();
        let mut i: usize = from;
        while i < to
            invariant
                from <= i <= to <= addresses@.len(),
                part@ =~= addresses@.subrange(from as int, i as int),
            decreases to - i,
        {
            part.push(addresses[i]);
            i = i + 1;
        }
        let ghost rest = addresses@.skip(from as int);
        let ghost before = requests@;
        let ghost left = chunks(rest, most as int);
        proof {
            if to < count {
                assert(rest.take(most as int) =~= part@);
                assert(rest.skip(most as int) =~= addresses@.skip(to as int));
                assert(left =~= seq![part@] + chunks(addresses@.skip(to as int), most as int));
            } else {
                assert(rest =~= part@);
                assert(addresses@.skip(to as int) =~= Seq::empty());
                assert(left =~= seq![part@]);
            }
            assert(left[0] == part@);
            assert(goal[before.len() + (0int)] == left[0]);
        }
        requests.push(ExistsBatch { header, store_match: match_requested, addresses: part });
        proof {
            let next = chunks(addresses@.skip(to as int), most as int);
            assert forall|k: int| 0 <= k < next.len() implies goal[requests@.len() + k]
                == #[trigger] next[k] by {
                assert(left[k + 1] == next[k]);
                assert(goal[before.len() + (k + 1)] == left[k + 1]);
            }
        }
        from = to;
    }
    requests
}

/// The matches of some answers, where all went well.
pub open spec fn matches_in(
    responses: Seq<Result<Vec<StoreMatch>, StoreError>>,
) -> Result<Seq<StoreMatch>, StoreError>
    decreases responses.len(),
{
    if responses.len() == 0 {
        Ok(Seq::empty())
    } else {
        match matches_in(responses.drop_last()) {
            Err(e) => Err(e),
            Ok(before) => match responses.last() {
                Err(e) => Err(e),
                Ok(matches) => Ok(before + matches@),
            },
        }
    }
}

/// Puts the answers to the parts of a batch together, in their order. The first answer that failed
/// fails the batch, and so do answers for another number of addresses than were asked for.
pub fn join_matches(responses: &Vec<Result<Vec<StoreMatch>, StoreError>>, asked: usize) -> (r:
    Result<Vec<StoreMatch>, StoreError>)
    ensures
        match matches_in(responses@) {
            Err(e) => r == Err::<Vec<StoreMatch>, StoreError>(e),
            Ok(matches) => if matches.len() == asked {
                r is Ok && r->Ok_0@ == matches
            } else {
                r == Err::<Vec<StoreMatch>, StoreError>(
                    StoreError::Internal(InternalError::ResponseMismatch),
                )
            },
        },
{
    let mut all: Vec<StoreMatch> = Vec::new();
    let mut i: usize = 0;
    let count: usize = responses.len();
    assert(responses@.take(0) =~= Seq::empty());
    assert(all@ =~= Seq::empty());
    while i < count
        invariant
            i <= count == responses@.len(),
            matches_in(responses@.take(i as int)) == Ok::<Seq<StoreMatch>, StoreError>(all@),
        decreases count - i,
    {
        proof {
            assert(responses@.take(i + 1).drop_last() =~= responses@.take(i as int));
            assert(responses@.take(i + 1).last() == responses@[i as int]);
        }
        match &responses[i] {
            Err(e) => {
                let e: StoreError = *e;
                proof {
                    lemma_failure_stays(responses@, i + 1, e);
                }
                return Err(e);
            },
            Ok(matches) => {
                let ghost before = all@;
                let mut k: usize = 0;
                while k < matches.len()
                    invariant
                        k <= matches@.len(),
                        all@ =~= before + matches@.take(k as int),
                    decreases matches@.len() - k,
                {
                    all.push(matches[k]);
                    k = k + 1;
                }
                assert(all@ =~= before + matches@);
            },
        }
        i = i + 1;
    }
    assert(responses@.take(i as int) =~= responses@);
    if all.len() != asked {
        return Err(StoreError::Internal(InternalError::ResponseMismatch));
    }
    Ok(all)
}

/// A failure among the first answers is the failure of all.
proof fn lemma_failure_stays(
    responses: Seq<Result<Vec<StoreMatch>, StoreError>>,
    n: int,
    e: StoreError,
)
    requires
        0 <= n <= responses.len(),
        matches_in(responses.take(n)) == Err::<Seq<StoreMatch>, StoreError>(e),
    ensures
        matches_in(responses) == Err::<Seq<StoreMatch>, StoreError>(e),
    decreases responses.len() - n,
{
    if n == responses.len() {
        assert(responses.take(n) =~= responses);
    } else {
        assert(responses.take(n + 1).drop_last() =~= responses.take(n));
        lemma_failure_stays(responses, n + 1, e);
    }
}

/// The answer for one address: the one match of a batch of one.
pub fn exist(matches: &Vec<StoreMatch>) -> (r: Result<StoreMatch, StoreError>)
    ensures
        r == if matches@.len() == 1 {
            Ok::<StoreMatch, StoreError>(matches@[0])
        } else {
            Err(StoreError::Internal(InternalError::ResponseMismatch))
        },
{
    if matches.len() == 1 {
        Ok(matches[0])
    } else {
        Err(StoreError::Internal(InternalError::ResponseMismatch))
    }
}

/// What a replica answers to a query.
#[derive(Clone, Copy, Debug, PartialEq, Eq, Structural)]
pub struct QueryResponse {
    pub fragment: Fragment,
    pub match_made: StoreMatch,
}

/// The answer to a query.
pub fn query(response: QueryResponse) -> (r: StoreQueryResult)
    ensures
        r == (StoreQueryResult { fragment: response.fragment, match_made: response.match_made }),
{
    StoreQueryResult { fragment: response.fragment, match_made: response.match_made }
}

/// Why a request to a replica failed.
#[derive(Clone, Copy, Debug, PartialEq, Eq, Structural)]
pub enum ReplicationStoreClientError {
    /// The connection is gone, and the client has given up on it.
    ConnectionFailed,
    /// The replica refused, for a reason that a store can have.
    Refused(StoreError),
}

/// What a response of a replica comes to, and the epoch of the client to replace, if any.
pub open spec fn service_answer<T>(
    result: Result<T, ReplicationStoreClientError>,
    client_epoch: u64,
) -> (Result<T, StoreError>, Option<u64>) {
    if result is Ok {
        (Ok(result->Ok_0), None)
    } else if result->Err_0 is ConnectionFailed {
        (Err(StoreError::Internal(InternalError::ConnectionFailed)), Some(client_epoch))
    } else {
        (Err(result->Err_0->Refused_0), None)
    }
}

/// The answer to a request that a replica answered or did not, and the epoch of the client to
/// replace, where the connection is gone.
pub fn handle_service_response<T>(
    result: Result<T, ReplicationStoreClientError>,
    client_epoch: u64,
) -> (r: (Result<T, StoreError>, Option<u64>))
    ensures
        match result {
            Ok(output) => r.0 == Ok::<T, StoreError>(output) && r.1 is None,
            Err(ReplicationStoreClientError::ConnectionFailed) => r.0 == Err::<T, StoreError>(
                StoreError::Internal(InternalError::ConnectionFailed),
            ) && r.1 == Some(client_epoch),
            Err(ReplicationStoreClientError::Refused(e)) => r.0 == Err::<T, StoreError>(e)
                && r.1 is None,
        },
        r == service_answer(result, client_epoch),
{
    match result {
        Ok(output) => (Ok(output), None),
        Err(ReplicationStoreClientError::ConnectionFailed) => (
            Err(StoreError::Internal(InternalError::ConnectionFailed)),
            Some(client_epoch),
        ),
        Err(ReplicationStoreClientError::Refused(e)) => (Err(e), None),
    }
}

/// What the task that replaces a client does next.
#[derive(Clone, Copy, Debug, PartialEq, Eq, Structural)]
pub enum ReconnectAction {
    /// Ask whether the replica is still in use.
    Check,
    /// Replace the client that was seen in an epoch.
    Regenerate(u64),
    /// End.
    Stop,
}

/// What happened to the task that replaces a client.
#[derive(Clone, Copy, Debug, PartialEq, Eq, Structural)]
pub enum ReconnectEvent {
    /// The task starts.
    Started,
    /// The replica is still in use.
    ReplicaHere,
    /// The replica is gone.
    ReplicaGone,
    /// The client was replaced, here or elsewhere.
    Regenerated,
    /// The client could not be replaced.
    Failed,
}

/// What the task that replaces a client does after an event.
pub open spec fn reconnect_on(event: ReconnectEvent, client_epoch: u64) -> ReconnectAction {
    if event is ReplicaHere {
        ReconnectAction::Regenerate(client_epoch)
    } else if event is Started || event is Failed {
        ReconnectAction::Check
    } else {
        ReconnectAction::Stop
    }
}

/// What is done after an event. Requests are turned away while the client does not work, so that no
/// one else would try: the task goes on until the client works or the replica is gone.
pub fn reconnect(event: ReconnectEvent, client_epoch: u64) -> (r: ReconnectAction)
    ensures
        r == match event {
            ReconnectEvent::Started | ReconnectEvent::Failed => ReconnectAction::Check,
            ReconnectEvent::ReplicaHere => ReconnectAction::Regenerate(client_epoch),
            ReconnectEvent::ReplicaGone | ReconnectEvent::Regenerated => ReconnectAction::Stop,
        },
        r == reconnect_on(event, client_epoch),
{
    match event {
        ReconnectEvent::Started | ReconnectEvent::Failed => ReconnectAction::Check,
        ReconnectEvent::ReplicaHere => ReconnectAction::Regenerate(client_epoch),
        ReconnectEvent::ReplicaGone | ReconnectEvent::Regenerated => ReconnectAction::Stop,
    }
}

/// A replica is only read from: nothing is obliterated there.
pub fn obliterate() -> (r: Result<(), StoreError>)
    ensures
        r == Err::<(), StoreError>(StoreError::Internal(InternalError::OperationNotSupported)),
{
    Err(StoreError::Internal(InternalError::OperationNotSupported))
}

/// Nothing is evicted from a replica: it looks after itself.
pub fn evict() -> (r: Result<usize, StoreError>)
    ensures
        r == Ok::<usize, StoreError>(0),
{
    Ok(0)
}

/// A replica has nothing to compact, and no pass goes on anywhere.
pub fn compact() -> (r: Result<Option<usize>, StoreError>)
    ensures
        r == Ok::<Option<usize>, StoreError>(None),
{
    Ok(None)
}

/// No compaction of a replica was left unfinished.
pub fn compact_resume_at() -> (r: Option<usize>)
    ensures
        r is None,
{
    None
}

/// A replica sets no limit to the queries of a batch.
pub fn max_query_batch() -> (r: Option<usize>)
    ensures
        r is None,
{
    None
}

/// A replica holds nothing back that could be flushed.
pub fn flush() -> (r: Result<(), StoreError>)
    ensures
        r is Ok,
{
    Ok(())
}

/// A replica is not checked from here.
pub fn verify() -> (r: Result<(), StoreError>)
    ensures
        r is Ok,
{
    Ok(())
}

/// The parts of a batch make up the batch: one after the other they are the addresses that were
/// asked for.
pub proof fn law_parts_make_up_the_batch<A>(s: Seq<A>, most: int)
    requires
        most > 0,
    ensures
        joined(chunks(s, most)) == s,
        forall|i: int| 0 <= i < chunks(s, most).len() ==> (#[trigger] chunks(s, most)[i]).len()
            <= most,
    decreases s.len(),
{
    let parts = chunks(s, most);
    if s.len() == 0 {
        assert(joined(parts) =~= s);
    } else if s.len() <= most {
        assert(parts.drop_last() =~= Seq::<Seq<A>>::empty());
        assert(joined(parts.drop_last()) =~= Seq::<A>::empty());
        assert(joined(parts) =~= s);
    } else {
        let first = s.take(most);
        let rest = chunks(s.skip(most), most);
        law_parts_make_up_the_batch(s.skip(most), most);
        lemma_joined_first(first, rest);
        assert(first + s.skip(most) =~= s);
        assert forall|i: int| 0 <= i < parts.len() implies (#[trigger] parts[i]).len() <= most by {
            if i > 0 {
                assert(parts[i] == rest[i - 1]);
            }
        }
    }
}

/// One more run in front.
proof fn lemma_joined_first<A>(first: Seq<A>, rest: Seq<Seq<A>>)
    ensures
        joined(seq![first] + rest) == first + joined(rest),
    decreases rest.len(),
{
    let all = seq![first] + rest;
    if rest.len() == 0 {
        assert(all =~= seq![first]);
        assert(all.drop_last() =~= Seq::<Seq<A>>::empty());
        assert(joined(all.drop_last()) =~= Seq::<A>::empty());
        assert(joined(all) =~= first + joined(rest));
    } else {
        assert(all.drop_last() =~= seq![first] + rest.drop_last());
        lemma_joined_first(first, rest.drop_last());
        assert(joined(all) =~= first + joined(rest));
    }
}

/// Where the values of a run are found among all.
proof fn lemma_run_position<A>(runs: Seq<Seq<A>>, i: int, j: int)
    requires
        0 <= i < runs.len(),
        0 <= j < runs[i].len(),
    ensures
        0 <= run_start(runs, i) + j < joined(runs).len(),
        joined(runs)[run_start(runs, i) + j] == runs[i][j],
        joined(runs).len() == run_start(runs, runs.len() as int),
    decreases runs.len(),
{
    lemma_joined_length(runs);
    let before = runs.drop_last();
    if i < runs.len() - 1 {
        lemma_run_position(before, i, j);
        lemma_starts_agree(before, runs, i);
    } else {
        lemma_joined_length(before);
        lemma_starts_agree(before, runs, i);
        lemma_start_nonnegative(runs, i);
    }
}

/// The length of all runs.
proof fn lemma_joined_length<A>(runs: Seq<Seq<A>>)
    ensures
        joined(runs).len() == run_start(runs, runs.len() as int),
    decreases runs.len(),
{
    if runs.len() > 0 {
        let before = runs.drop_last();
        lemma_joined_length(before);
        lemma_starts_agree(before, runs, before.len() as int);
    }
}

/// Runs begin where earlier runs end, whatever follows.
proof fn lemma_starts_agree<A>(a: Seq<Seq<A>>, b: Seq<Seq<A>>, i: int)
    requires
        i <= a.len(),
        a.len() <= b.len(),
        forall|k: int| 0 <= k < a.len() ==> a[k] == #[trigger] b[k],
    ensures
        run_start(a, i) == run_start(b, i),
    decreases i,
{
    if i > 0 {
        lemma_starts_agree(a, b, i - 1);
        assert(a[i - 1] == b[i - 1]);
    }
}

/// No run begins before the first.
proof fn lemma_start_nonnegative<A>(runs: Seq<Seq<A>>, i: int)
    ensures
        run_start(runs, i) >= 0,
    decreases i,
{
    if i > 0 {
        lemma_start_nonnegative(runs, i - 1);
    }
}

/// Runs of the same lengths begin at the same places.
proof fn lemma_same_lengths_same_starts<A, B>(a: Seq<Seq<A>>, b: Seq<Seq<B>>, i: int)
    requires
        a.len() == b.len(),
        i <= a.len(),
        forall|k: int| 0 <= k < a.len() ==> a[k].len() == (#[trigger] b[k]).len(),
    ensures
        run_start(a, i) == run_start(b, i),
    decreases i,
{
    if i > 0 {
        lemma_same_lengths_same_starts(a, b, i - 1);
        assert(a[i - 1].len() == b[i - 1].len());
    }
}

/// Answers for as many addresses as each part has keep the order: the match for an address stands
/// where the address stands.
pub proof fn law_answers_keep_the_order(
    addresses: Seq<Address>,
    most: int,
    answers: Seq<Seq<StoreMatch>>,
    i: int,
    j: int,
)
    requires
        most > 0,
        answers.len() == chunks(addresses, most).len(),
        forall|k: int|
            0 <= k < answers.len() ==> chunks(addresses, most)[k].len() == (
            #[trigger] answers[k]).len(),
        0 <= i < answers.len(),
        0 <= j < answers[i].len(),
    ensures
        joined(answers).len() == addresses.len(),
        ({
            let at = run_start(answers, i) + j;
            &&& 0 <= at < addresses.len()
            &&& addresses[at] == chunks(addresses, most)[i][j]
            &&& joined(answers)[at] == answers[i][j]
        }),
{
    let parts = chunks(addresses, most);
    law_parts_make_up_the_batch(addresses, most);
    assert(parts[i].len() == answers[i].len());
    lemma_run_position(parts, i, j);
    lemma_run_position(answers, i, j);
    lemma_same_lengths_same_starts(parts, answers, i);
    lemma_same_lengths_same_starts(parts, answers, parts.len() as int);
}

/// The parts of a batch are as large as they may be but for the last, and none is empty.
pub proof fn law_parts_of_a_batch_are_full<A>(s: Seq<A>, most: int, i: int)
    requires
        most > 0,
        0 <= i < chunks(s, most).len(),
    ensures
        chunks(s, most)[i].len() > 0,
        i < chunks(s, most).len() - 1 ==> chunks(s, most)[i].len() == most,
        chunks(s, most)[i].len() <= most,
        s.len() <= most ==> chunks(s, most).len() == 1,
    decreases s.len(),
{
    if s.len() > most {
        let rest = chunks(s.skip(most), most);
        if i > 0 {
            law_parts_of_a_batch_are_full(s.skip(most), most, i - 1);
            assert(chunks(s, most)[i] == rest[i - 1]);
        }
    }
}

/// The answers to the parts of a batch are one answer exactly if all went well, and are then one after
/// the other. Otherwise the first failure is the answer.
pub proof fn law_first_failure_answers_the_batch(
    responses: Seq<Result<Vec<StoreMatch>, StoreError>>,
)
    ensures
        match matches_in(responses) {
            Ok(matches) => (forall|i: int| 0 <= i < responses.len() ==> (#[trigger] responses[i]) is Ok)
                && matches == joined(
                Seq::new(responses.len(), |i: int| responses[i]->Ok_0@),
            ),
            Err(e) => exists|i: int|
                0 <= i < responses.len() && #[trigger] responses[i] == Err::<
                    Vec<StoreMatch>,
                    StoreError,
                >(e) && forall|j: int| 0 <= j < i ==> (#[trigger] responses[j]) is Ok,
        },
    decreases responses.len(),
{
    let answers = Seq::new(responses.len(), |i: int| responses[i]->Ok_0@);
    if responses.len() > 0 {
        let head = responses.drop_last();
        let n = responses.len() - 1;
        law_first_failure_answers_the_batch(head);
        assert(responses[n] == responses.last());
        assert(answers.drop_last() =~= Seq::new(head.len(), |i: int| head[i]->Ok_0@));
        match matches_in(head) {
            Ok(before) => {
                assert forall|i: int| 0 <= i < n implies (#[trigger] responses[i]) is Ok by {
                    assert(head[i] is Ok);
                }
                if responses[n] is Ok {
                    assert(answers.last() == responses[n]->Ok_0@);
                }
            },
            Err(e) => {
                let i = choose|i: int|
                    0 <= i < head.len() && #[trigger] head[i] == Err::<
                        Vec<StoreMatch>,
                        StoreError,
                    >(e) && forall|j: int| 0 <= j < i ==> (#[trigger] head[j]) is Ok;
                assert(responses[i] == head[i]);
                assert forall|j: int| 0 <= j < i implies (#[trigger] responses[j]) is Ok by {
                    assert(head[j] is Ok);
                }
            },
        }
    } else {
        assert(joined(answers) =~= Seq::empty());
    }
}

/// A request carries the repository that it is for, and the correlation that it was made under where
/// that is known.
pub proof fn law_requests_carry_their_repository(correlation: Option<u128>, repository: Partition)
    ensures
        header_for(correlation, repository).repository == repository,
        correlation is Some ==> header_for(correlation, repository).correlation_id == correlation->0,
        correlation is None ==> header_for(correlation, repository).correlation_id == 0,
{
}

/// A client is replaced exactly if its connection failed, and then the one that was used. What the
/// replica answered, or why it refused, is passed on as it is.
pub proof fn law_only_failed_connections_are_replaced<T>(
    result: Result<T, ReplicationStoreClientError>,
    client_epoch: u64,
)
    ensures
        ({
            let (answer, replace) = service_answer(result, client_epoch);
            &&& replace is Some <==> result is Err && result->Err_0
                == ReplicationStoreClientError::ConnectionFailed
            &&& replace is Some ==> replace->0 == client_epoch
            &&& answer is Ok <==> result is Ok
            &&& result is Ok ==> answer->Ok_0 == result->Ok_0
            &&& result is Err && result->Err_0 is Refused ==> answer == Err::<T, StoreError>(
                result->Err_0->Refused_0,
            )
        }),
{
}

/// The task that replaces a client asks whether the replica is in use before each attempt, tries
/// again after a failure, and ends once the client was replaced or the replica is gone.
pub proof fn law_reconnecting_ends_with_success(event: ReconnectEvent, client_epoch: u64)
    ensures
        reconnect_on(event, client_epoch) is Regenerate <==> event is ReplicaHere,
        reconnect_on(event, client_epoch) is Regenerate ==> reconnect_on(event, client_epoch)
            == ReconnectAction::Regenerate(client_epoch),
        reconnect_on(event, client_epoch) is Stop <==> event is Regenerated || event is ReplicaGone,
        reconnect_on(event, client_epoch) is Check <==> event is Started || event is Failed,
{
}

} // verus!
