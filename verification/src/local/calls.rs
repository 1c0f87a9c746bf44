//! What the calls of a store come to, one after the other.
use vstd::prelude::*;

use crate::error::StoreError;
use crate::local::bucket::data_at;
use crate::local::copy::CopyRequest;
use crate::local::data::ImmutableData;
use crate::local::entry_laws::{law_copy_takes_the_source, law_obliterating_leaves_nothing};
use crate::local::find::{find_result, get_result, query_result};
use crate::local::immutable_store::LocalImmutableStore;
use crate::local::obliterate::{obliterate_result, ObliterateOutcome};
use crate::local::put::{put_marks, put_refusal, put_result};
use crate::local::put_laws::{law_put_leaves_a_payload, law_put_stores_what_it_reports};
use crate::local::queries::looked_up;
use crate::local::read_laws::{
    law_get_reads_what_is_recorded, law_lookup_answers_with_an_entry,
    law_lookup_changes_only_the_access, law_query_reports_what_is_recorded,
};
use crate::local::store::{StoreOutcome, StoreRequest};
use crate::local::whole::{lemma_bucket_of_hash, lemma_other_buckets_stay};
use crate::types::{
    Address, Fragment, Partition, StoreMatch, StoreQueryResult, PAYLOAD_OBLITERATED,
    PAYLOAD_STORED_DURABLE, PAYLOAD_STORED_LOCAL,
};

verus! {

impl LocalImmutableStore {
    /// Whether a call that asks how much of an address there is comes to this.
    pub open spec fn did_exist(
        before: LocalImmutableStore,
        after: LocalImmutableStore,
        partition: Partition,
        address: Address,
        request: StoreMatch,
        now: u64,
        result: Result<StoreMatch, StoreError>,
    ) -> bool {
        let hit = looked_up(
            before.slots_of(address.hash),
            partition,
            address,
            request,
            before.settings.atime,
            now,
        );
        &&& result is Ok <==> hit is Ok
        &&& result is Ok ==> result->Ok_0 == (hit->Ok_0).1
        &&& result is Err ==> result->Err_0 == hit->Err_0
        &&& Self::after_lookup(before, after, partition, address, request, now)
    }

    /// Whether a query comes to this.
    pub open spec fn did_query(
        before: LocalImmutableStore,
        after: LocalImmutableStore,
        partition: Partition,
        address: Address,
        request: StoreMatch,
        now: u64,
        result: Result<StoreQueryResult, StoreError>,
    ) -> bool {
        let hit = looked_up(
            before.slots_of(address.hash),
            partition,
            address,
            request,
            before.settings.atime,
            now,
        );
        &&& result is Ok <==> hit is Ok
        &&& result is Ok ==> result->Ok_0 == query_result(
            (hit->Ok_0).0,
            (hit->Ok_0).1,
            before.settings.implicit_durable_stored,
        )
        &&& result is Err ==> result->Err_0 == hit->Err_0
        &&& Self::after_lookup(before, after, partition, address, request, now)
    }

    /// Whether a read comes to this.
    pub open spec fn did_get(
        before: LocalImmutableStore,
        after: LocalImmutableStore,
        partition: Partition,
        address: Address,
        request: StoreMatch,
        now: u64,
        result: Result<(Fragment, ImmutableData), StoreError>,
    ) -> bool {
        let hit = looked_up(
            before.slots_of(address.hash),
            partition,
            address,
            request,
            before.settings.atime,
            now,
        );
        &&& hit is Ok ==> result == get_result(
            hit->Ok_0,
            address,
            request,
            before.settings.implicit_durable_stored,
        )
        &&& hit is Err ==> result == Err::<(Fragment, ImmutableData), StoreError>(hit->Err_0)
        &&& Self::after_lookup(before, after, partition, address, request, now)
    }

    /// Whether a put comes to this.
    pub open spec fn did_put(
        before: LocalImmutableStore,
        after: LocalImmutableStore,
        request: StoreRequest,
        check: Result<(), StoreError>,
        result: Result<StoreOutcome, StoreError>,
    ) -> bool {
        let hash = request.address.hash;
        let s = before.slots_of(hash);
        let atime = before.settings.atime;
        &&& result == put_result(request, check, atime, s).0
        &&& put_refusal(request, check) is Some ==> after == before
        &&& put_refusal(request, check) is None ==> Self::updated(
            before,
            after,
            hash,
            put_result(request, check, atime, s).1,
            before.dirty_at(hash) || put_marks(request, check, atime, s),
        )
    }

    /// Whether a copy comes to this.
    pub open spec fn did_copy(
        before: LocalImmutableStore,
        after: LocalImmutableStore,
        request: CopyRequest,
        result: Result<(), StoreError>,
    ) -> bool {
        let hash = request.source_address.hash;
        let s = before.slots_of(hash);
        &&& result == request.result(s).0
        &&& Self::updated(
            before,
            after,
            hash,
            request.result(s).1,
            before.dirty_at(hash) || (result is Ok && request.target(s) != Some(
                request.copied(s),
            )),
        )
    }

    /// Whether obliterating an entry comes to this.
    pub open spec fn did_obliterate(
        before: LocalImmutableStore,
        after: LocalImmutableStore,
        partition: Partition,
        address: Address,
        erased: bool,
        result: Result<ObliterateOutcome, StoreError>,
    ) -> bool {
        let s = before.slots_of(address.hash);
        &&& result == obliterate_result(s, partition, address, erased).0
        &&& Self::updated(
            before,
            after,
            address.hash,
            obliterate_result(s, partition, address, erased).1,
            before.dirty_at(address.hash) || (result is Ok && result->Ok_0 is Obliterated),
        )
    }
}

/// A fragment that was put is seen by the next query for its address, and read by the next read, with
/// the content size that was put. It is reported as stored durably if the put said so or the store
/// takes all for durable, and as stored locally if it was put with its payload.
pub proof fn law_what_is_put_is_seen(
    before: LocalImmutableStore,
    put: LocalImmutableStore,
    queried: LocalImmutableStore,
    request: StoreRequest,
    check: Result<(), StoreError>,
    data: ImmutableData,
    now: u64,
    query: Result<StoreQueryResult, StoreError>,
    later: u64,
    read: LocalImmutableStore,
    get: Result<(Fragment, ImmutableData), StoreError>,
)
    requires
        before.wf(),
        LocalImmutableStore::did_put(
            before,
            put,
            request,
            check,
            Ok(StoreOutcome::Stored(data)),
        ),
        data.flags & PAYLOAD_OBLITERATED == 0,
        request.packed is Some ==> request.packed->0.id != 0,
        LocalImmutableStore::did_query(
            put,
            queried,
            request.partition,
            request.address,
            StoreMatch::MatchFull,
            now,
            query,
        ),
        LocalImmutableStore::did_get(
            queried,
            read,
            request.partition,
            request.address,
            StoreMatch::MatchFull,
            later,
            get,
        ),
    ensures
        query is Ok,
        query->Ok_0.match_made == StoreMatch::MatchFull,
        query->Ok_0.fragment.size_content == request.fragment.size_content,
        query->Ok_0.fragment.size_payload == data.size_payload,
        request.fragment.flags & PAYLOAD_STORED_DURABLE != 0
            || before.settings.implicit_durable_stored ==> query->Ok_0.fragment.flags
            & PAYLOAD_STORED_DURABLE != 0,
        request.payload is Some ==> query->Ok_0.fragment.flags & PAYLOAD_STORED_LOCAL != 0,
        request.payload is Some ==> get is Ok,
        get is Ok ==> (get->Ok_0).0.size_content == request.fragment.size_content,
        get is Ok ==> (get->Ok_0).0.size_payload == data.size_payload,
        get is Ok ==> (get->Ok_0).1.pack_file == data.pack_file,
        get is Ok ==> (get->Ok_0).1.pack_offset == data.pack_offset,
        get is Ok <==> data.pack_file != 0,
{
    let (p, a) = (request.partition, request.address);
    let s = before.slots_of(a.hash);
    let atime = before.settings.atime;
    lemma_bucket_of_hash(before, a.hash);
    reveal(put_result);
    law_put_stores_what_it_reports(request, check, atime, s, data);
    let t = put_result(request, check, atime, s).1;
    lemma_other_buckets_stay(
        before,
        put,
        a.hash,
        t,
        before.dirty_at(a.hash) || put_marks(request, check, atime, s),
        a.hash,
    );
    if request.payload is Some {
        law_put_leaves_a_payload(request, check, atime, s);
    }
    law_query_reports_what_is_recorded(
        t,
        p,
        a,
        atime,
        before.settings.implicit_durable_stored,
        now,
    );
    law_lookup_changes_only_the_access(t, p, a, StoreMatch::MatchFull, atime, now);
    let u = find_result(t, p, a, StoreMatch::MatchFull, atime, now).1;
    crate::local::put_laws::lemma_lookup_keeps_order(t, p, a, StoreMatch::MatchFull, atime, now);
    law_get_reads_what_is_recorded(
        u,
        p,
        a,
        atime,
        before.settings.implicit_durable_stored,
        later,
    );
}

/// Whatever a call changes is written by the next flush: its bucket is dirty once an entry of it has
/// changed.
pub proof fn law_changes_are_flushed(
    before: LocalImmutableStore,
    after: LocalImmutableStore,
    hash: crate::types::Hash,
)
    requires
        before.wf(),
        after.slots_of(hash) != before.slots_of(hash),
        ({
            ||| exists|
                partition: Partition,
                address: Address,
                request: StoreMatch,
                now: u64,
                result: Result<StoreMatch, StoreError>,
            | #[trigger]
                LocalImmutableStore::did_exist(
                    before,
                    after,
                    partition,
                    address,
                    request,
                    now,
                    result,
                ) && address.hash == hash
            ||| exists|
                request: StoreRequest,
                check: Result<(), StoreError>,
                result: Result<StoreOutcome, StoreError>,
            | #[trigger]
                LocalImmutableStore::did_put(before, after, request, check, result)
                    && request.address.hash == hash
            ||| exists|request: CopyRequest, result: Result<(), StoreError>| #[trigger]
                LocalImmutableStore::did_copy(before, after, request, result)
                    && request.source_address.hash == hash
            ||| exists|
                partition: Partition,
                address: Address,
                erased: bool,
                result: Result<ObliterateOutcome, StoreError>,
            | #[trigger]
                LocalImmutableStore::did_obliterate(
                    before,
                    after,
                    partition,
                    address,
                    erased,
                    result,
                ) && address.hash == hash
        }),
    ensures
        after.dirty_at(hash),
{
    lemma_bucket_of_hash(before, hash);
    reveal(put_marks);
    reveal(put_result);
    if exists|
        partition: Partition,
        address: Address,
        request: StoreMatch,
        now: u64,
        result: Result<StoreMatch, StoreError>,
    | #[trigger]
        LocalImmutableStore::did_exist(before, after, partition, address, request, now, result)
            && address.hash == hash {
    } else if exists|request: CopyRequest, result: Result<(), StoreError>| #[trigger]
        LocalImmutableStore::did_copy(before, after, request, result)
            && request.source_address.hash == hash {
        let (request, result) = choose|request: CopyRequest, result: Result<(), StoreError>|
            #[trigger]
            LocalImmutableStore::did_copy(before, after, request, result)
                && request.source_address.hash == hash;
        let s = before.slots_of(hash);
        crate::local::bucket::law_lookup_finds_the_best_match(
            s,
            request.destination_partition,
            request.destination(),
            StoreMatch::MatchFull,
        );
        if request.target(s) == Some(request.copied(s)) && result is Ok {
            assert(request.result(s).1 =~= s);
        }
    }
}

/// A copy is read as its source: the next read of the destination gives the payload and the sizes of
/// the source, and is refused exactly if the source has no payload.
pub proof fn law_copies_are_read(
    before: LocalImmutableStore,
    copied: LocalImmutableStore,
    read: LocalImmutableStore,
    request: CopyRequest,
    now: u64,
    get: Result<(Fragment, ImmutableData), StoreError>,
)
    requires
        before.wf(),
        LocalImmutableStore::did_copy(before, copied, request, Ok(())),
        before.data_in(request.source_partition, request.source_address) is Some,
        before.data_in(request.source_partition, request.source_address)->0.flags
            & PAYLOAD_OBLITERATED == 0,
        LocalImmutableStore::did_get(
            copied,
            read,
            request.destination_partition,
            Address {
                hash: request.source_address.hash,
                context: request.destination_context,
            },
            StoreMatch::MatchFull,
            now,
            get,
        ),
    ensures
        ({
            let source = before.data_in(request.source_partition, request.source_address)->0;
            &&& get is Ok <==> source.pack_file != 0
            &&& get is Ok ==> (get->Ok_0).0.size_content == source.size_content
            &&& get is Ok ==> (get->Ok_0).0.size_payload == source.size_payload
            &&& get is Ok ==> (get->Ok_0).1.pack_file == source.pack_file
            &&& get is Ok ==> (get->Ok_0).1.pack_offset == source.pack_offset
            &&& get is Ok && request.durable ==> (get->Ok_0).0.flags & PAYLOAD_STORED_DURABLE != 0
        }),
{
    let hash = request.source_address.hash;
    let s = before.slots_of(hash);
    let destination = Address { hash, context: request.destination_context };
    lemma_bucket_of_hash(before, hash);
    law_copy_takes_the_source(request, s);
    crate::local::copy::law_copy_keeps_the_order(request, s);
    let t = request.result(s).1;
    lemma_other_buckets_stay(
        before,
        copied,
        hash,
        t,
        before.dirty_at(hash) || request.target(s) != Some(request.copied(s)),
        hash,
    );
    lemma_plain_flag(
        request.source(s)->0.flags,
        data_at(t, request.destination_partition, destination)->0.flags,
    );
    law_get_reads_what_is_recorded(
        t,
        request.destination_partition,
        destination,
        before.settings.atime,
        before.settings.implicit_durable_stored,
        now,
    );
}

/// Flags that agree but for where a payload is stored agree on whether it was obliterated.
proof fn lemma_plain_flag(a: u32, b: u32)
    by (bit_vector)
    ensures
        a & !0x300u32 == b & !0x300u32 ==> a & 0x1000u32 == b & 0x1000u32,
{
}

/// What was obliterated cannot be read any more: a read of the address is refused for want of a
/// payload, and a query says that it was obliterated, that it is held nowhere, and nothing else.
pub proof fn law_obliterated_is_not_read(
    before: LocalImmutableStore,
    gone: LocalImmutableStore,
    read: LocalImmutableStore,
    partition: Partition,
    address: Address,
    erased: bool,
    now: u64,
    get: Result<(Fragment, ImmutableData), StoreError>,
    queried: LocalImmutableStore,
    query: Result<StoreQueryResult, StoreError>,
)
    requires
        before.wf(),
        LocalImmutableStore::did_obliterate(
            before,
            gone,
            partition,
            address,
            erased,
            Ok(ObliterateOutcome::Obliterated),
        ),
        LocalImmutableStore::did_get(
            gone,
            read,
            partition,
            address,
            StoreMatch::MatchFull,
            now,
            get,
        ),
        LocalImmutableStore::did_query(
            gone,
            queried,
            partition,
            address,
            StoreMatch::MatchFull,
            now,
            query,
        ),
        !before.settings.implicit_durable_stored,
    ensures
        get == Err::<(Fragment, ImmutableData), StoreError>(
            StoreError::PayloadNotFound(address.hash),
        ),
        query == Ok::<StoreQueryResult, StoreError>(
            StoreQueryResult {
                fragment: Fragment {
                    flags: PAYLOAD_OBLITERATED,
                    size_payload: 0,
                    size_content: 0,
                },
                match_made: StoreMatch::MatchFull,
            },
        ),
{
    let s = before.slots_of(address.hash);
    lemma_bucket_of_hash(before, address.hash);
    law_obliterating_leaves_nothing(s, partition, address, erased);
    let t = obliterate_result(s, partition, address, erased).1;
    lemma_other_buckets_stay(before, gone, address.hash, t, true, address.hash);
    lemma_gone_flag();
}

/// The flag of an obliterated entry.
proof fn lemma_gone_flag()
    by (bit_vector)
    ensures
        0x1000u32 & 0x1000u32 == 0x1000u32,
{
}

/// A call that changes nothing leaves its bucket clean if it was: a put that stored nothing, a copy, an
/// obliteration or a lookup that left every entry as it was, without an access to note.
pub proof fn law_unchanged_buckets_stay_clean(
    before: LocalImmutableStore,
    after: LocalImmutableStore,
    put: StoreRequest,
    check: Result<(), StoreError>,
    stored: Result<StoreOutcome, StoreError>,
    copy: CopyRequest,
    copied: Result<(), StoreError>,
)
    requires
        before.wf(),
        !before.settings.atime,
    ensures
        LocalImmutableStore::did_put(before, after, put, check, stored) && after.slots_of(
            put.address.hash,
        ) == before.slots_of(put.address.hash) && !(stored is Ok && stored->Ok_0 is Stored)
            ==> after.dirty_at(put.address.hash) == before.dirty_at(put.address.hash),
        LocalImmutableStore::did_copy(before, after, copy, copied) && after.slots_of(
            copy.source_address.hash,
        ) == before.slots_of(copy.source_address.hash) ==> after.dirty_at(
            copy.source_address.hash,
        ) == before.dirty_at(copy.source_address.hash),
{
    reveal(put_marks);
    lemma_bucket_of_hash(before, put.address.hash);
    lemma_bucket_of_hash(before, copy.source_address.hash);
    let s = before.slots_of(copy.source_address.hash);
    if LocalImmutableStore::did_copy(before, after, copy, copied) && after.slots_of(
        copy.source_address.hash,
    ) == s {
        let t = copy.result(s).1;
        lemma_other_buckets_stay(
            before,
            after,
            copy.source_address.hash,
            t,
            after.dirty_at(copy.source_address.hash),
            copy.source_address.hash,
        );
        if copy.source(s) is Some {
            crate::local::copy::law_copy_is_found(copy, s);
        }
    }
}

/// A call that asks for no match at all is refused, and changes nothing.
pub proof fn law_asking_for_nothing_is_refused(
    before: LocalImmutableStore,
    after: LocalImmutableStore,
    partition: Partition,
    address: Address,
    now: u64,
    exist: Result<StoreMatch, StoreError>,
    query: Result<StoreQueryResult, StoreError>,
    get: Result<(Fragment, ImmutableData), StoreError>,
)
    ensures
        ({
            let none = StoreMatch::MatchNone;
            let refusal = StoreError::Internal(crate::error::InternalError::InvalidQuery);
            &&& LocalImmutableStore::did_exist(before, after, partition, address, none, now, exist)
                ==> exist == Err::<StoreMatch, StoreError>(refusal) && after == before
            &&& LocalImmutableStore::did_query(before, after, partition, address, none, now, query)
                ==> query == Err::<StoreQueryResult, StoreError>(refusal) && after == before
            &&& LocalImmutableStore::did_get(before, after, partition, address, none, now, get)
                ==> get == Err::<(Fragment, ImmutableData), StoreError>(refusal) && after == before
        }),
{
}

/// The three ways to look an address up agree: what exists is what a query matches, and a read
/// succeeds only with the match that was asked for.
pub proof fn law_lookups_agree(
    before: LocalImmutableStore,
    after: LocalImmutableStore,
    partition: Partition,
    address: Address,
    request: StoreMatch,
    now: u64,
    exist: Result<StoreMatch, StoreError>,
    query: Result<StoreQueryResult, StoreError>,
    get: Result<(Fragment, ImmutableData), StoreError>,
)
    requires
        before.wf(),
        request != StoreMatch::MatchNone,
        LocalImmutableStore::did_exist(before, after, partition, address, request, now, exist),
        LocalImmutableStore::did_query(before, after, partition, address, request, now, query),
        LocalImmutableStore::did_get(before, after, partition, address, request, now, get),
    ensures
        exist is Ok && query is Ok,
        query->Ok_0.match_made == exist->Ok_0,
        get is Ok ==> exist->Ok_0 == request,
        get is Err ==> get->Err_0 == if exist->Ok_0 == request {
            StoreError::PayloadNotFound(address.hash)
        } else {
            StoreError::AddressNotFound(address)
        },
        get is Ok ==> (get->Ok_0).0.size_content == query->Ok_0.fragment.size_content
            && (get->Ok_0).0.size_payload == query->Ok_0.fragment.size_payload,
{
    lemma_bucket_of_hash(before, address.hash);
    law_lookup_answers_with_an_entry(
        before.slots_of(address.hash),
        partition,
        address,
        request,
        before.settings.atime,
        now,
    );
}

/// A lookup in a store that keeps no times of access leaves the bucket as it is, and clean if it was.
/// So does obliterating what was obliterated before, or is to be erased first, or is not there.
pub proof fn law_reading_leaves_the_store(
    before: LocalImmutableStore,
    after: LocalImmutableStore,
    partition: Partition,
    address: Address,
    request: StoreMatch,
    now: u64,
    exist: Result<StoreMatch, StoreError>,
    query: Result<StoreQueryResult, StoreError>,
    get: Result<(Fragment, ImmutableData), StoreError>,
    erased: bool,
    gone: Result<ObliterateOutcome, StoreError>,
)
    requires
        before.wf(),
        ({
            ||| !before.settings.atime && LocalImmutableStore::did_exist(
                before,
                after,
                partition,
                address,
                request,
                now,
                exist,
            )
            ||| !before.settings.atime && LocalImmutableStore::did_query(
                before,
                after,
                partition,
                address,
                request,
                now,
                query,
            )
            ||| !before.settings.atime && LocalImmutableStore::did_get(
                before,
                after,
                partition,
                address,
                request,
                now,
                get,
            )
            ||| LocalImmutableStore::did_obliterate(
                before,
                after,
                partition,
                address,
                erased,
                gone,
            ) && gone != Ok::<ObliterateOutcome, StoreError>(ObliterateOutcome::Obliterated)
        }),
    ensures
        after.slots_of(address.hash) == before.slots_of(address.hash),
        after.dirty_at(address.hash) == before.dirty_at(address.hash),
{
    lemma_bucket_of_hash(before, address.hash);
    law_obliterating_leaves_nothing(before.slots_of(address.hash), partition, address, erased);
}

} // verus!
