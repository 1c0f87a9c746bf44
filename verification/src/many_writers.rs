//! Many writers of one fragment at once: one of them writes it, and all see it written.
use vstd::prelude::*;

use crate::error::{StorageError, StoreError};
use crate::in_flight::{ask_in_turn, InFlight, StoreInFlightGuard, StoreInFlightKey};
use crate::local::bucket::{data_at, found, law_lookup_finds_the_best_match, sorted};
use crate::local::data::{ImmutableData, ImmutableStoreEntry};
use crate::local::find::{find_result, is_obliterated, query_result};
use crate::local::put::{put_refusal, put_result};
use crate::local::queries::looked_up;
use crate::local::store::{
    law_store_keeps_the_order, law_stored_fragment_is_found, StoreOutcome, StoreRequest,
};
use crate::types::{
    Address, Fragment, Partition, StoreMatch, StoreQueryResult, PAYLOAD_OBLITERATED,
    PAYLOAD_STORED_LOCAL,
};
use crate::write::{
    answer_of, followed, found_durable, found_local, law_one_of_many_calls_leads, told, Leader,
    LeaderAction, LeaderEvent, StoreAction, StoreEvent, StoreFlow, StoreResult,
};
use crate::write_tracker::{
    after_finishing, first_failure, law_tracker_drains_to_the_first_error, Drained, WriteTracker,
};

verus! {

/// What a query for the very address says of a bucket.
pub open spec fn queried(
    s: Seq<ImmutableStoreEntry>,
    partition: Partition,
    address: Address,
    atime: bool,
    implicit_durable: bool,
    now: u64,
) -> Option<StoreQueryResult> {
    match looked_up(s, partition, address, StoreMatch::MatchFull, atime, now) {
        Ok((data, matching)) => Some(query_result(data, matching, implicit_durable)),
        Err(_) => None,
    }
}

/// A bucket once it was queried for an address, at some times.
pub open spec fn after_queries(
    s: Seq<ImmutableStoreEntry>,
    partition: Partition,
    address: Address,
    atime: bool,
    times: Seq<u64>,
) -> Seq<ImmutableStoreEntry>
    decreases times.len(),
{
    if times.len() == 0 {
        s
    } else {
        find_result(
            after_queries(s, partition, address, atime, times.drop_last()),
            partition,
            address,
            StoreMatch::MatchFull,
            atime,
            times.last(),
        ).1
    }
}

/// Whether a bucket has an entry with a payload at the very address.
pub open spec fn has_payload(
    s: Seq<ImmutableStoreEntry>,
    partition: Partition,
    address: Address,
) -> bool {
    &&& sorted(s)
    &&& data_at(s, partition, address) is Some
    &&& data_at(s, partition, address)->0.pack_file != 0
    &&& !is_obliterated(data_at(s, partition, address)->0)
}

/// The one who leads a call when its work begins.
pub open spec fn leading(flow: StoreFlow, found: Option<StoreQueryResult>, compresses: bool) -> Leader {
    Leader {
        address: flow.call.address,
        fragment: flow.call.fragment,
        cache_local: flow.call.cache_local,
        remote: flow.call.remote,
        compresses,
        match_made: answer_of(found).match_made,
        stored_local: found_local(answer_of(found)),
        stored_durable: found_durable(answer_of(found)),
    }
}

/// The one who leads a call when it comes to writing: as it began, or after the payload was
/// compressed, or could not be.
pub open spec fn ready(
    flow: StoreFlow,
    found: Option<StoreQueryResult>,
    compressed: Option<LeaderEvent>,
) -> Leader {
    match compressed {
        Some(event) => leading(flow, found, true).after(event),
        None => leading(flow, found, false),
    }
}

/// Queries see an entry with a payload, and leave it there.
proof fn lemma_queries_see_the_payload(
    s: Seq<ImmutableStoreEntry>,
    partition: Partition,
    address: Address,
    atime: bool,
    implicit_durable: bool,
    times: Seq<u64>,
    now: u64,
)
    requires
        has_payload(s, partition, address),
    ensures
        ({
            let t = after_queries(s, partition, address, atime, times);
            let query = queried(t, partition, address, atime, implicit_durable, now);
            &&& has_payload(t, partition, address)
            &&& query is Some
            &&& query->0.match_made == StoreMatch::MatchFull
            &&& query->0.fragment.flags & PAYLOAD_STORED_LOCAL != 0
            &&& followed(address, query) == Ok::<(Address, Fragment), StorageError>(
                (address, query->0.fragment),
            )
        }),
    decreases times.len(),
{
    if times.len() > 0 {
        let before = after_queries(s, partition, address, atime, times.drop_last());
        lemma_queries_see_the_payload(
            s,
            partition,
            address,
            atime,
            implicit_durable,
            times.drop_last(),
            now,
        );
        lemma_one_query(before, partition, address, atime, times.last());
    }
    let t = after_queries(s, partition, address, atime, times);
    law_lookup_finds_the_best_match(t, partition, address, StoreMatch::MatchFull);
    let query = queried(t, partition, address, atime, implicit_durable, now);
    let (slot, insert, made) = found(t, partition, address, StoreMatch::MatchFull);
    let flags = t[slot].data.flags;
    let f = query->0.fragment.flags;
    assert(f == flags | 0x0000_0100u32 || f == (flags | 0x0000_0100u32) | 0x0000_0200u32);
    assert(f & 0x0000_0100u32 != 0 && f & (0x0000_0200u32 | 0x0000_0100u32) != 0) by (bit_vector)
        requires
            f == flags | 0x0000_0100u32 || f == (flags | 0x0000_0100u32) | 0x0000_0200u32,
    ;
}

/// A query leaves an entry with a payload where it is.
proof fn lemma_one_query(
    s: Seq<ImmutableStoreEntry>,
    partition: Partition,
    address: Address,
    atime: bool,
    now: u64,
)
    requires
        has_payload(s, partition, address),
    ensures
        has_payload(
            find_result(s, partition, address, StoreMatch::MatchFull, atime, now).1,
            partition,
            address,
        ),
{
    let t = find_result(s, partition, address, StoreMatch::MatchFull, atime, now).1;
    law_lookup_finds_the_best_match(s, partition, address, StoreMatch::MatchFull);
    assert forall|i: int| 0 <= i < s.len() implies (#[trigger] s[i]).key() == t[i].key() by {}
    assert forall|i: int, j: int| 0 <= i < j < t.len() implies (#[trigger] t[i]).key().before(
        (#[trigger] t[j]).key(),
    ) by {
        assert(s[i].key().before(s[j].key()));
    }
    crate::local::bucket::lemma_search_by_keys(
        s,
        t,
        partition,
        address,
        StoreMatch::MatchFull,
        0,
        s.len() as int,
        0,
        StoreMatch::MatchNone,
    );
}

/// Tasks that all went well leave no error.
proof fn lemma_no_failure(results: Seq<Result<(Address, Fragment), StorageError>>)
    requires
        forall|i: int| 0 <= i < results.len() ==> (#[trigger] results[i]) is Ok,
    ensures
        first_failure(results) is None,
    decreases results.len(),
{
    if results.len() > 0 {
        assert forall|i: int| 0 <= i < results.drop_last().len() implies (
        #[trigger] results.drop_last()[i]) is Ok by {
            assert(results[i] is Ok);
        }
        lemma_no_failure(results.drop_last());
        assert(results[results.len() - 1] is Ok);
    }
}

/// How the tasks of many calls end once the leader has written: the leader with what it recorded,
/// and each follower with what it then finds in the store.
pub open spec fn ends(
    flow: StoreFlow,
    fragment: Fragment,
    after: Seq<ImmutableStoreEntry>,
    partition: Partition,
    atime: bool,
    implicit_durable: bool,
    times: Seq<u64>,
) -> Seq<Result<(Address, Fragment), StorageError>> {
    let address = flow.call.address;
    seq![Ok::<(Address, Fragment), StorageError>((address, fragment))] + Seq::new(
        times.len(),
        |i: int|
            followed(
                address,
                queried(
                    after_queries(after, partition, address, atime, times.take(i)),
                    partition,
                    address,
                    atime,
                    implicit_durable,
                    times[i],
                ),
            ),
    )
}

/// Many calls for one fragment, all with the same tracker, that is to be held locally and of whose
/// hash the store has nothing: all give its address, and exactly the first reports that the fragment
/// was not there. The first writes it, in the form that it was given or was compressed to, and that
/// succeeds where the request is a valid one. Then, in whatever order the tasks end, all have ended
/// well, the tracker is drained without an error, and a query for the fragment finds it, held
/// locally.
pub proof fn law_many_writers_store_once<O>(
    before: Seq<InFlight>,
    after: Seq<InFlight>,
    answers: Seq<Result<StoreInFlightGuard, u64>>,
    flow: StoreFlow,
    compressed: Option<LeaderEvent>,
    request: StoreRequest,
    check: Result<(), StoreError>,
    s: Seq<ImmutableStoreEntry>,
    atime: bool,
    implicit_durable: bool,
    times: Seq<u64>,
    now: u64,
    tracker: WriteTracker<O>,
)
    requires
        answers.len() >= 1,
        ask_in_turn(
            before,
            after,
            StoreInFlightKey { partition: request.partition, address: flow.call.address },
            answers,
        ),
        !before[0].tickets().contains_key(
            (StoreInFlightKey {
                partition: request.partition,
                address: flow.call.address,
            }).numbers(),
        ),
        flow.call.dispatched,
        flow.call.cache_local,
        !flow.call.remote,
        // The store has nothing of the hash.
        sorted(s),
        forall|i: int|
            0 <= i < s.len() ==> (#[trigger] s[i]).address.hash != flow.call.address.hash,
        // What is written is what the leader says.
        compressed is Some ==> compressed->0 is Compressed || compressed->0 is NotCompressed,
        request.address == flow.call.address,
        request.fragment == ready(
            flow,
            queried(s, request.partition, flow.call.address, atime, implicit_durable, request.now),
            compressed,
        ).terminal(),
        request.payload is Some,
        check is Ok,
        request.invalid() is None,
        request.packed is Some,
        request.packed->0.id != 0,
        request.fragment.flags & PAYLOAD_OBLITERATED == 0,
        // One task for each call.
        times.len() == answers.len() - 1,
        tracker.in_flight == answers.len(),
        tracker.first_error is None,
    ensures
        ({
            let address = flow.call.address;
            let partition = request.partition;
            let seen = queried(s, partition, address, atime, implicit_durable, request.now);
            let leader = ready(flow, seen, compressed);
            let put = put_result(request, check, atime, s);
            let tasks = ends(
                flow,
                request.fragment,
                put.1,
                partition,
                atime,
                implicit_durable,
                times,
            );
            let result = |deduplicated: bool|
                StoreResult { address, fragment: flow.call.fragment, deduplicated };
            // The first leads, and all others follow.
            &&& flow.next(told(answers[0])) == StoreAction::Query
            &&& flow.next(StoreEvent::Queried(seen)) == StoreAction::SpawnLeader(
                answer_of(seen),
                result(false),
            )
            &&& forall|i: int|
                0 < i < answers.len() ==> flow.next(told(#[trigger] answers[i]))
                    == StoreAction::Follow(result(true))
            // The leader writes the fragment with its payload.
            &&& leading(flow, seen, compressed is Some).compressing() == match compressed {
                Some(_) => LeaderAction::Compress,
                None => leader.uploading(),
            }
            &&& leader.uploading() == (LeaderAction::Write {
                fragment: request.fragment,
                with_payload: true,
            })
            &&& put.0 is Ok && put.0->Ok_0 is Stored
            // All tasks end well, and so does waiting for them.
            &&& forall|i: int| 0 <= i < tasks.len() ==> (#[trigger] tasks[i]) is Ok
            &&& forall|order: Seq<Result<(Address, Fragment), StorageError>>|
                order.len() == tasks.len() && (forall|i: int|
                    0 <= i < order.len() ==> tasks.contains(#[trigger] order[i]))
                    ==> #[trigger] after_finishing(tracker, order).drained(1) == Drained::Done(
                    Ok(()),
                )
            // The fragment is there.
            &&& ({
                let query = queried(
                    after_queries(put.1, partition, address, atime, times),
                    partition,
                    address,
                    atime,
                    implicit_durable,
                    now,
                );
                query is Some && query->0.match_made == StoreMatch::MatchFull
                    && query->0.fragment.flags & PAYLOAD_STORED_LOCAL != 0
            })
        }),
{
    let address = flow.call.address;
    let partition = request.partition;
    let key = StoreInFlightKey { partition, address };
    let seen = queried(s, partition, address, atime, implicit_durable, request.now);
    law_lookup_finds_the_best_match(s, partition, address, StoreMatch::MatchFull);
    let (slot, insert, made) = found(s, partition, address, StoreMatch::MatchFull);
    if made != StoreMatch::MatchNone {
        assert(s[slot].address.hash == address.hash);
    }
    assert(answer_of(seen).match_made == StoreMatch::MatchNone);
    law_one_of_many_calls_leads(before, after, key, answers, flow, seen, 0);
    assert forall|i: int| 0 < i < answers.len() implies flow.next(told(#[trigger] answers[i]))
        == StoreAction::Follow(
        StoreResult { address, fragment: flow.call.fragment, deduplicated: true },
    ) by {
        law_one_of_many_calls_leads(before, after, key, answers, flow, seen, i);
    }
    // The put.
    let put = put_result(request, check, atime, s);
    assert(put.0 == Ok::<StoreOutcome, StoreError>(StoreOutcome::Stored(request.record(s)))
        && put.1 == request.result(s).1) by {
        reveal(put_result);
        assert(put_refusal(request, check) is None);
        assert(!request.known(s));
    }
    law_stored_fragment_is_found(request, s);
    law_store_keeps_the_order(request, s);
    assert(has_payload(put.1, partition, address));
    // The tasks.
    let tasks = ends(flow, request.fragment, put.1, partition, atime, implicit_durable, times);
    assert forall|i: int| 0 <= i < tasks.len() implies (#[trigger] tasks[i]) is Ok by {
        if i > 0 {
            lemma_queries_see_the_payload(
                put.1,
                partition,
                address,
                atime,
                implicit_durable,
                times.take(i - 1),
                times[i - 1],
            );
        }
    }
    assert forall|order: Seq<Result<(Address, Fragment), StorageError>>|
        order.len() == tasks.len() && (forall|i: int|
            0 <= i < order.len() ==> tasks.contains(
                #[trigger] order[i],
            )) implies #[trigger] after_finishing(tracker, order).drained(1) == Drained::Done(
        Ok(()),
    ) by {
        assert forall|i: int| 0 <= i < order.len() implies (#[trigger] order[i]) is Ok by {
            assert(tasks.contains(order[i]));
        }
        lemma_no_failure(order);
        law_tracker_drains_to_the_first_error(tracker, order);
    }
    lemma_queries_see_the_payload(
        put.1,
        partition,
        address,
        atime,
        implicit_durable,
        times,
        now,
    );
}

} // verus!
