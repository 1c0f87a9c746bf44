//! What a put does to a bucket, as callers can see it.
use vstd::prelude::*;

use crate::error::{InternalError, StoreError};
use crate::local::bucket::{
    data_at, found, law_every_entry_is_found, law_lookup_finds_the_best_match, lemma_search_by_keys,
    sorted,
};
use crate::local::data::{ImmutableData, ImmutableStoreEntry};
use crate::local::find::find_result;
use crate::local::put::{merged, put_result, sanitised};
use crate::local::store::{
    law_store_adds_only_its_address, law_store_keeps_the_order, law_store_leaves_other_hashes,
    law_store_loses_nothing, law_stored_fragment_is_found, StoreOutcome, StoreRequest,
};
use crate::types::{
    Address, Fragment, Partition, StoreMatch, PAYLOAD_OBLITERATED, PAYLOAD_STORED,
    PAYLOAD_STORED_DURABLE,
};

verus! {

/// What is asked of the bucket once the lookup is done.
spec fn asked_of(request: StoreRequest, atime: bool, s: Seq<ImmutableStoreEntry>) -> StoreRequest {
    let (data, made) = find_result(
        s,
        request.partition,
        request.address,
        StoreMatch::MatchFull,
        atime,
        request.now,
    ).0->Ok_0;
    merged(request, data, made)
}

/// The bucket once the lookup is done.
spec fn looked_at(request: StoreRequest, atime: bool, s: Seq<ImmutableStoreEntry>) -> Seq<
    ImmutableStoreEntry,
> {
    if request.force && request.payload is Some {
        s
    } else {
        find_result(
            s,
            request.partition,
            request.address,
            StoreMatch::MatchFull,
            atime,
            request.now,
        ).1
    }
}

/// The lookup of a put changes no more than the time of the last access.
proof fn lemma_looking(request: StoreRequest, atime: bool, s: Seq<ImmutableStoreEntry>)
    requires
        sorted(s),
    ensures
        ({
            let t = looked_at(request, atime, s);
            &&& sorted(t)
            &&& t.len() == s.len()
            &&& forall|i: int|
                0 <= i < s.len() ==> (#[trigger] t[i]).key() == s[i].key() && (t[i] == s[i] || t[i]
                    == s[i].with_data(
                    ImmutableData { last_access: request.now, ..s[i].data },
                ) && s[i].address.hash == request.address.hash)
            &&& found(t, request.partition, request.address, StoreMatch::MatchFull) == found(
                s,
                request.partition,
                request.address,
                StoreMatch::MatchFull,
            )
        }),
{
    let (p, a) = (request.partition, request.address);
    let t = looked_at(request, atime, s);
    law_lookup_finds_the_best_match(s, p, a, StoreMatch::MatchFull);
    assert forall|i: int, j: int| 0 <= i < j < t.len() implies (#[trigger] t[i]).key().before(
        (#[trigger] t[j]).key(),
    ) by {
        assert(s[i].key().before(s[j].key()));
    }
    lemma_search_by_keys(
        s,
        t,
        p,
        a,
        StoreMatch::MatchFull,
        0,
        s.len() as int,
        0,
        StoreMatch::MatchNone,
    );
}

/// A lookup leaves a bucket in order.
pub proof fn lemma_lookup_keeps_order(
    s: Seq<ImmutableStoreEntry>,
    partition: Partition,
    address: Address,
    request: StoreMatch,
    atime: bool,
    now: u64,
)
    requires
        sorted(s),
    ensures
        sorted(find_result(s, partition, address, request, atime, now).1),
{
    law_lookup_finds_the_best_match(s, partition, address, request);
    let t = find_result(s, partition, address, request, atime, now).1;
    assert forall|i: int, j: int| 0 <= i < j < t.len() implies (#[trigger] t[i]).key().before(
        (#[trigger] t[j]).key(),
    ) by {
        assert(s[i].key().before(s[j].key()));
    }
}

/// A put that succeeds, and has nothing left to write, leaves the entry at its address durable if
/// the put says so. Unless the entry was obliterated, it is durable exactly if the put says so or it
/// was durable before.
pub proof fn law_put_makes_durable(
    request: StoreRequest,
    check: Result<(), StoreError>,
    atime: bool,
    s: Seq<ImmutableStoreEntry>,
)
    requires
        sorted(s),
        put_result(request, check, atime, s).0 is Ok,
        put_result(request, check, atime, s).0->Ok_0 != StoreOutcome::NeedsPayload,
    ensures
        ({
            let before = data_at(s, request.partition, request.address);
            let after = data_at(
                put_result(request, check, atime, s).1,
                request.partition,
                request.address,
            );
            &&& after is Some
            &&& request.fragment.flags & PAYLOAD_STORED_DURABLE != 0 ==> after->0.flags
                & PAYLOAD_STORED_DURABLE != 0
            &&& before is None ==> (after->0.flags & PAYLOAD_STORED_DURABLE != 0 <==>
                request.fragment.flags & PAYLOAD_STORED_DURABLE != 0)
            &&& before is Some && before->0.flags & PAYLOAD_OBLITERATED == 0 ==> (after->0.flags
                & PAYLOAD_STORED_DURABLE != 0 <==> request.fragment.flags & PAYLOAD_STORED_DURABLE
                != 0 || before->0.flags & PAYLOAD_STORED_DURABLE != 0)
        }),
{
    reveal(put_result);
    lemma_looking(request, atime, s);
    let (p, a) = (request.partition, request.address);
    let t = looked_at(request, atime, s);
    let asked = asked_of(request, atime, s);
    let slot = found(s, p, a, StoreMatch::MatchFull).0;
    law_lookup_finds_the_best_match(s, p, a, StoreMatch::MatchFull);
    law_store_keeps_the_order(asked, t);
    let f = request.fragment.flags;
    let g = asked.fragment.flags;
    let h = t[slot].data.flags;
    lemma_stored_bits(f, h, g);
    lemma_stored_bits(f, PAYLOAD_OBLITERATED, g);
    if asked.result(t).0 is Ok && asked.result(t).0->Ok_0 is Stored {
        law_stored_fragment_is_found(asked, t);
    }
    if asked.exact(t) {
        law_every_entry_is_found(s, slot);
        law_every_entry_is_found(t, slot);
        if !(asked.result(t).0 is Ok && asked.result(t).0->Ok_0 is Stored) {
            law_every_entry_is_found(asked.result(t).1, slot);
        }
    }
}

/// What a put reports to have stored is what the bucket has at the address afterwards: with the
/// content size of the put, durable if the put says so, and accessed when the put was made.
pub proof fn law_put_stores_what_it_reports(
    request: StoreRequest,
    check: Result<(), StoreError>,
    atime: bool,
    s: Seq<ImmutableStoreEntry>,
    data: ImmutableData,
)
    requires
        sorted(s),
        put_result(request, check, atime, s).0 == Ok::<StoreOutcome, StoreError>(
            StoreOutcome::Stored(data),
        ),
    ensures
        sorted(put_result(request, check, atime, s).1),
        data_at(put_result(request, check, atime, s).1, request.partition, request.address) == Some(
            data,
        ),
        data.size_content == request.fragment.size_content,
        data.last_access == request.now,
        request.fragment.flags & PAYLOAD_STORED_DURABLE != 0 ==> data.flags & PAYLOAD_STORED_DURABLE
            != 0,
        data.pack_file == 0 ==> data.size_payload == request.fragment.size_payload && data.flags
            & !PAYLOAD_STORED == request.fragment.flags & !PAYLOAD_STORED,
{
    law_put_makes_durable(request, check, atime, s);
    reveal(put_result);
    lemma_looking(request, atime, s);
    let t = looked_at(request, atime, s);
    let asked = asked_of(request, atime, s);
    law_stored_fragment_is_found(asked, t);
    law_store_keeps_the_order(asked, t);
    let (found, made) = find_result(
        s,
        request.partition,
        request.address,
        StoreMatch::MatchFull,
        atime,
        request.now,
    ).0->Ok_0;
    lemma_inherited_bits(request.fragment.flags, found.flags);
}

/// Carrying the durable flag over changes no other flag.
proof fn lemma_inherited_bits(f: u32, h: u32)
    by (bit_vector)
    ensures
        (f | (h & 0x200u32)) & !0x300u32 == f & !0x300u32,
{
}

/// A put with a payload that succeeds, and has nothing left to write, leaves the entry at its
/// address with a payload. A forced put leaves it with the payload that was written, as the put
/// describes it. Without force an entry that has a payload keeps it where it lies; where no entry of
/// the hash has one, the payload lies where it was written.
pub proof fn law_put_leaves_a_payload(
    request: StoreRequest,
    check: Result<(), StoreError>,
    atime: bool,
    s: Seq<ImmutableStoreEntry>,
)
    requires
        sorted(s),
        put_result(request, check, atime, s).0 is Ok,
        put_result(request, check, atime, s).0->Ok_0 != StoreOutcome::NeedsPayload,
        request.payload is Some,
        request.packed is Some ==> request.packed->0.id != 0,
    ensures
        ({
            let before = data_at(s, request.partition, request.address);
            let after = data_at(
                put_result(request, check, atime, s).1,
                request.partition,
                request.address,
            );
            let written = request.force || forall|i: int|
                0 <= i < s.len() && (#[trigger] s[i]).address.hash == request.address.hash
                    ==> s[i].data.pack_file == 0;
            &&& after is Some
            &&& after->0.pack_file != 0
            &&& !request.force && before is Some && before->0.pack_file != 0 ==> after->0.pack_file
                == before->0.pack_file && after->0.pack_offset == before->0.pack_offset
                && after->0.size_payload == before->0.size_payload && after->0.size_content
                == before->0.size_content
            &&& written ==> request.packed is Some && after->0.pack_file == request.packed->0.id
                && after->0.pack_offset == request.packed->0.offset && after->0.size_payload
                == request.fragment.size_payload && after->0.size_content
                == request.fragment.size_content
        }),
{
    reveal(put_result);
    lemma_looking(request, atime, s);
    let (p, a) = (request.partition, request.address);
    let t = looked_at(request, atime, s);
    let asked = asked_of(request, atime, s);
    let slot = found(s, p, a, StoreMatch::MatchFull).0;
    law_lookup_finds_the_best_match(s, p, a, StoreMatch::MatchFull);
    law_store_keeps_the_order(asked, t);
    lemma_stored_bits(0, t[slot].data.flags, 0);
    if asked.result(t).0 is Ok && asked.result(t).0->Ok_0 is Stored {
        law_stored_fragment_is_found(asked, t);
    }
    if asked.exact(t) {
        law_every_entry_is_found(s, slot);
        law_every_entry_is_found(t, slot);
        if !(asked.result(t).0 is Ok && asked.result(t).0->Ok_0 is Stored) {
            law_every_entry_is_found(asked.result(t).1, slot);
        }
    }
}

/// The first put of a hash records what the caller gave: the flags, the sizes, the time, and the
/// place of the payload where it came with one.
pub proof fn law_first_put_records_what_was_given(
    request: StoreRequest,
    check: Result<(), StoreError>,
    atime: bool,
    s: Seq<ImmutableStoreEntry>,
)
    requires
        sorted(s),
        forall|i: int| 0 <= i < s.len() ==> (#[trigger] s[i]).address.hash != request.address.hash,
        put_result(request, check, atime, s).0 is Ok,
        put_result(request, check, atime, s).0->Ok_0 != StoreOutcome::NeedsPayload,
    ensures
        ({
            let data = ImmutableData {
                flags: request.fragment.flags,
                size_payload: request.fragment.size_payload,
                size_content: request.fragment.size_content,
                pack_file: if request.payload is Some {
                    request.packed->0.id
                } else {
                    0
                },
                pack_offset: if request.payload is Some {
                    request.packed->0.offset
                } else {
                    0
                },
                last_access: request.now,
            };
            &&& put_result(request, check, atime, s).0 == Ok::<StoreOutcome, StoreError>(
                StoreOutcome::Stored(data),
            )
            &&& data_at(
                put_result(request, check, atime, s).1,
                request.partition,
                request.address,
            ) == Some(data)
            &&& request.payload is Some ==> request.packed is Some
        }),
{
    reveal(put_result);
    lemma_looking(request, atime, s);
    let t = looked_at(request, atime, s);
    let asked = asked_of(request, atime, s);
    crate::local::find::law_find_answers_what_was_asked(
        s,
        request.partition,
        request.address,
        StoreMatch::MatchFull,
        atime,
        request.now,
    );
    law_stored_fragment_is_found(asked, t);
}

/// Where the entries of a hash have a payload, a put that is not forced shares it: nothing is
/// written, and the entry at the address has the place, the payload size and the flags of one of
/// them, but for the flags that say where the payload is stored.
pub proof fn law_known_payload_is_shared(
    request: StoreRequest,
    check: Result<(), StoreError>,
    atime: bool,
    s: Seq<ImmutableStoreEntry>,
    known: int,
)
    requires
        sorted(s),
        !request.force,
        0 <= known < s.len(),
        s[known].address.hash == request.address.hash,
        forall|i: int|
            0 <= i < s.len() && (#[trigger] s[i]).address.hash == request.address.hash
                ==> s[i].data.pack_file != 0 && s[i].data.flags & PAYLOAD_OBLITERATED == 0,
        put_result(request, check, atime, s).0 is Ok,
    ensures
        ({
            let after = data_at(
                put_result(request, check, atime, s).1,
                request.partition,
                request.address,
            );
            &&& put_result(request, check, atime, s).0->Ok_0 != StoreOutcome::NeedsPayload
            &&& after is Some
            &&& exists|i: int|
                0 <= i < s.len() && (#[trigger] s[i]).address.hash == request.address.hash
                    && after->0.pack_file == s[i].data.pack_file && after->0.pack_offset
                    == s[i].data.pack_offset && after->0.size_payload == s[i].data.size_payload
                    && after->0.flags & !PAYLOAD_STORED == s[i].data.flags & !PAYLOAD_STORED
        }),
{
    reveal(put_result);
    lemma_looking(request, atime, s);
    let (p, a) = (request.partition, request.address);
    let t = looked_at(request, atime, s);
    let asked = asked_of(request, atime, s);
    let slot = found(s, p, a, StoreMatch::MatchFull).0;
    law_lookup_finds_the_best_match(s, p, a, StoreMatch::MatchFull);
    crate::local::find::law_find_answers_what_was_asked(
        s,
        p,
        a,
        StoreMatch::MatchFull,
        atime,
        request.now,
    );
    law_store_keeps_the_order(asked, t);
    lemma_stored_bits(0, t[slot].data.flags, asked.fragment.flags);
    assert(s[known].address.hash == a.hash);
    assert(s[slot].address.hash == a.hash);
    if asked.result(t).0 is Ok && asked.result(t).0->Ok_0 is Stored {
        law_stored_fragment_is_found(asked, t);
    }
    if asked.exact(t) {
        law_every_entry_is_found(t, slot);
        if !(asked.result(t).0 is Ok && asked.result(t).0->Ok_0 is Stored) {
            law_every_entry_is_found(asked.result(t).1, slot);
        }
    }
}

/// A put succeeds where the fragment is not empty and not too large, its payload has the right
/// length and was found to be in order, the entries of its hash are content of the same size, and
/// there is either a payload, or an entry of the hash in the partition, or leave to do without.
pub proof fn law_put_succeeds(
    request: StoreRequest,
    check: Result<(), StoreError>,
    atime: bool,
    s: Seq<ImmutableStoreEntry>,
)
    requires
        sorted(s),
        0 < request.fragment.size_payload <= request.size_threshold,
        request.payload is Some ==> check is Ok && request.payload->0
            == request.fragment.size_payload,
        forall|i: int|
            0 <= i < s.len() && (#[trigger] s[i]).address.hash == request.address.hash
                ==> s[i].data.size_content == request.fragment.size_content || s[i].data.flags
                & PAYLOAD_OBLITERATED != 0,
        request.payload is Some || request.allow_partial || exists|i: int|
            0 <= i < s.len() && (#[trigger] s[i]).address.hash == request.address.hash
                && s[i].partition == request.partition,
    ensures
        put_result(request, check, atime, s).0 is Ok,
{
    reveal(put_result);
    lemma_looking(request, atime, s);
    let (p, a) = (request.partition, request.address);
    let t = looked_at(request, atime, s);
    let slot = found(s, p, a, StoreMatch::MatchFull).0;
    law_lookup_finds_the_best_match(s, p, a, StoreMatch::MatchFull);
    lemma_stored_bits(0, s[slot].data.flags, 0);
    if asked_of(request, atime, s).known(t) {
        assert(s[slot].address.hash == a.hash);
    }
    if exists|i: int|
        0 <= i < s.len() && (#[trigger] s[i]).address.hash == a.hash && s[i].partition == p {
        let i = choose|i: int|
            0 <= i < s.len() && (#[trigger] s[i]).address.hash == a.hash && s[i].partition == p;
        assert(crate::local::bucket::capped(
            crate::local::bucket::match_of(s[i], p, a),
            StoreMatch::MatchFull,
        ).rank() <= found(s, p, a, StoreMatch::MatchFull).2.rank());
    }
}

/// A put is refused where its payload was found not to be in order, where a fragment without a
/// payload is too large, and, unless it finds what it says recorded already, where it is empty or
/// its payload has another length than it says. It is refused where the hash is taken by content of
/// another size, and where it came without a payload, the partition has no entry of the hash, and
/// there is no leave to do without. None of these records anything.
pub proof fn law_put_is_refused(
    request: StoreRequest,
    check: Result<(), StoreError>,
    atime: bool,
    s: Seq<ImmutableStoreEntry>,
)
    requires
        sorted(s),
        ({
            ||| request.payload is Some && check is Err
            ||| request.payload is None && request.fragment.size_payload > request.size_threshold
            ||| data_at(s, request.partition, request.address) is None && (
            request.fragment.size_payload == 0 || request.fragment.size_payload
                > request.size_threshold || (request.payload is Some && request.payload->0
                != request.fragment.size_payload))
            ||| (exists|i: int|
                0 <= i < s.len() && (#[trigger] s[i]).address.hash == request.address.hash)
                && forall|i: int|
                0 <= i < s.len() && (#[trigger] s[i]).address.hash == request.address.hash
                    ==> s[i].data.flags & PAYLOAD_OBLITERATED == 0 && s[i].data.size_content
                    != request.fragment.size_content
            ||| request.payload is None && !request.allow_partial && forall|i: int|
                0 <= i < s.len() ==> (#[trigger] s[i]).address.hash != request.address.hash
                    || s[i].partition != request.partition
        }),
    ensures
        put_result(request, check, atime, s).0 is Err,
        request.payload is Some && check is Err ==> put_result(request, check, atime, s).0 == Err::<
            StoreOutcome,
            StoreError,
        >(check->Err_0),
{
    reveal(put_result);
    lemma_looking(request, atime, s);
    let (p, a) = (request.partition, request.address);
    let t = looked_at(request, atime, s);
    let slot = found(s, p, a, StoreMatch::MatchFull).0;
    law_lookup_finds_the_best_match(s, p, a, StoreMatch::MatchFull);
    crate::local::find::law_find_answers_what_was_asked(
        s,
        p,
        a,
        StoreMatch::MatchFull,
        atime,
        request.now,
    );
    lemma_stored_bits(0, s[slot].data.flags, 0);
    if asked_of(request, atime, s).known(t) {
        assert(s[slot].address.hash == a.hash);
    }
}

/// What the first put of a hash is told when it is refused: that the fragment is empty, that it is too
/// large, that the payload has another length than it says, or that a payload is required. A put
/// whose hash is taken by content of another size is told of the collision.
pub proof fn law_refused_put_is_told_why(
    request: StoreRequest,
    atime: bool,
    s: Seq<ImmutableStoreEntry>,
)
    requires
        sorted(s),
    ensures
        ({
            let why = put_result(request, Ok(()), atime, s).0;
            let size = request.fragment.size_payload;
            let told = |e: InternalError| why == Err::<StoreOutcome, StoreError>(
                StoreError::Internal(e),
            );
            let fresh = forall|i: int|
                0 <= i < s.len() ==> (#[trigger] s[i]).address.hash != request.address.hash;
            let taken = !fresh && forall|i: int|
                0 <= i < s.len() && (#[trigger] s[i]).address.hash == request.address.hash
                    ==> s[i].data.flags & PAYLOAD_OBLITERATED == 0 && s[i].data.size_content
                    != request.fragment.size_content;
            let fits = 0 < size <= request.size_threshold;
            &&& fresh && size == 0 ==> told(InternalError::InvalidPayload)
            &&& request.payload is None && size > request.size_threshold ==> why == Err::<
                StoreOutcome,
                StoreError,
            >(StoreError::Oversized)
            &&& fresh && request.payload is Some && size > request.size_threshold ==> told(
                InternalError::FragmentTooLarge,
            )
            &&& fresh && request.payload is Some && fits && request.payload->0 != size ==> told(
                InternalError::PayloadLengthMismatch,
            )
            &&& fresh && request.payload is None && fits && !request.allow_partial ==> told(
                InternalError::PayloadRequired,
            )
            &&& taken && fits && (request.payload is Some ==> request.payload->0 == size) ==> told(
                InternalError::HashCollision,
            )
        }),
{
    reveal(put_result);
    lemma_looking(request, atime, s);
    let (p, a) = (request.partition, request.address);
    let t = looked_at(request, atime, s);
    let slot = found(s, p, a, StoreMatch::MatchFull).0;
    law_lookup_finds_the_best_match(s, p, a, StoreMatch::MatchFull);
    crate::local::find::law_find_answers_what_was_asked(
        s,
        p,
        a,
        StoreMatch::MatchFull,
        atime,
        request.now,
    );
    lemma_stored_bits(0, s[slot].data.flags, 0);
    if asked_of(request, atime, s).known(t) {
        assert(s[slot].address.hash == a.hash);
    }
}

/// A put without a payload that succeeds leaves the entry at its address with a payload only if some
/// entry of the hash has that payload, and with the content size that the put gives unless the entry
/// was obliterated.
pub proof fn law_put_invents_no_payload(
    request: StoreRequest,
    check: Result<(), StoreError>,
    atime: bool,
    s: Seq<ImmutableStoreEntry>,
)
    requires
        sorted(s),
        put_result(request, check, atime, s).0 is Ok,
        request.payload is None,
    ensures
        ({
            let before = data_at(s, request.partition, request.address);
            let after = data_at(
                put_result(request, check, atime, s).1,
                request.partition,
                request.address,
            );
            &&& put_result(request, check, atime, s).0->Ok_0 != StoreOutcome::NeedsPayload
            &&& after is Some
            &&& after->0.pack_file != 0 ==> exists|i: int|
                0 <= i < s.len() && (#[trigger] s[i]).address.hash == request.address.hash
                    && s[i].data.pack_file == after->0.pack_file && s[i].data.pack_offset
                    == after->0.pack_offset && s[i].data.size_payload == after->0.size_payload
            &&& before is None || before->0.flags & PAYLOAD_OBLITERATED == 0
                ==> after->0.size_content == request.fragment.size_content
            &&& before is Some ==> after->0 == (ImmutableData {
                flags: after->0.flags,
                last_access: after->0.last_access,
                ..before->0
            })
        }),
{
    reveal(put_result);
    lemma_looking(request, atime, s);
    let (p, a) = (request.partition, request.address);
    let t = looked_at(request, atime, s);
    let asked = asked_of(request, atime, s);
    let slot = found(s, p, a, StoreMatch::MatchFull).0;
    law_lookup_finds_the_best_match(s, p, a, StoreMatch::MatchFull);
    law_store_keeps_the_order(asked, t);
    lemma_stored_bits(0, t[slot].data.flags, 0);
    if asked.result(t).0 is Ok && asked.result(t).0->Ok_0 is Stored {
        law_stored_fragment_is_found(asked, t);
        if asked.known(t) {
            assert(s[slot].address.hash == a.hash);
        }
    }
    if asked.exact(t) {
        law_every_entry_is_found(s, slot);
        law_every_entry_is_found(t, slot);
        law_every_entry_is_found(asked.result(t).1, slot);
    }
}

/// A put that is refused, or that waits for its payload, records nothing: every entry stays where it
/// is, with its payload and its sizes. A put that is refused leaves the flags alone too.
pub proof fn law_refused_put_records_nothing(
    request: StoreRequest,
    check: Result<(), StoreError>,
    atime: bool,
    s: Seq<ImmutableStoreEntry>,
)
    requires
        sorted(s),
        put_result(request, check, atime, s).0 is Err || put_result(
            request,
            check,
            atime,
            s,
        ).0->Ok_0 == StoreOutcome::NeedsPayload,
    ensures
        ({
            let after = put_result(request, check, atime, s).1;
            &&& after.len() == s.len()
            &&& forall|i: int|
                0 <= i < s.len() ==> (#[trigger] after[i]).address == s[i].address
                    && after[i].partition == s[i].partition && after[i].data == (ImmutableData {
                    flags: after[i].data.flags,
                    last_access: after[i].data.last_access,
                    ..s[i].data
                }) && (put_result(request, check, atime, s).0 is Err ==> after[i].data.flags
                    == s[i].data.flags)
        }),
{
    reveal(put_result);
    lemma_looking(request, atime, s);
    law_lookup_finds_the_best_match(
        s,
        request.partition,
        request.address,
        StoreMatch::MatchFull,
    );
}

/// A put waits for a payload to be written only if it came with one that is not written yet, and is
/// forced or finds an entry at its very address, or none, without a payload.
pub proof fn law_put_waits_only_for_new_payloads(
    request: StoreRequest,
    check: Result<(), StoreError>,
    atime: bool,
    s: Seq<ImmutableStoreEntry>,
)
    requires
        sorted(s),
        put_result(request, check, atime, s).0 == Ok::<StoreOutcome, StoreError>(
            StoreOutcome::NeedsPayload,
        ),
    ensures
        request.payload is Some,
        request.packed is None,
        !request.force && data_at(s, request.partition, request.address) is Some ==> data_at(
            s,
            request.partition,
            request.address,
        )->0.pack_file == 0,
        !request.force ==> exists|i: int|
            0 <= i < s.len() && (#[trigger] s[i]).address.hash == request.address.hash
                && s[i].data.pack_file == 0 || forall|i: int|
            0 <= i < s.len() ==> (#[trigger] s[i]).address.hash != request.address.hash,
{
    reveal(put_result);
    lemma_looking(request, atime, s);
    let (p, a) = (request.partition, request.address);
    let t = looked_at(request, atime, s);
    let slot = found(s, p, a, StoreMatch::MatchFull).0;
    law_lookup_finds_the_best_match(s, p, a, StoreMatch::MatchFull);
    crate::local::find::law_find_answers_what_was_asked(
        s,
        p,
        a,
        StoreMatch::MatchFull,
        atime,
        request.now,
    );
    lemma_stored_bits(0, t[slot].data.flags, 0);
    if asked_of(request, atime, s).known(t) {
        assert(s[slot].address.hash == a.hash);
    }
}

/// A put leaves what is recorded at every address of another hash as it was. At another address of
/// its hash an entry is there exactly if it was, keeps its content size and whether it is durable,
/// and never loses its payload.
pub proof fn law_put_leaves_other_addresses(
    request: StoreRequest,
    check: Result<(), StoreError>,
    atime: bool,
    s: Seq<ImmutableStoreEntry>,
    partition: Partition,
    address: Address,
)
    requires
        sorted(s),
        partition != request.partition || address != request.address,
    ensures
        ({
            let before = data_at(s, partition, address);
            let after = data_at(put_result(request, check, atime, s).1, partition, address);
            &&& address.hash != request.address.hash ==> after == before
            &&& after is Some <==> before is Some
            &&& before is Some ==> after->0.size_content == before->0.size_content
                && after->0.flags & PAYLOAD_STORED_DURABLE == before->0.flags
                & PAYLOAD_STORED_DURABLE
            &&& before is Some && before->0.pack_file != 0 ==> after->0.pack_file != 0
        }),
{
    reveal(put_result);
    lemma_looking(request, atime, s);
    let t = looked_at(request, atime, s);
    let asked = asked_of(request, atime, s);
    lemma_search_by_keys(
        s,
        t,
        partition,
        address,
        StoreMatch::MatchFull,
        0,
        s.len() as int,
        0,
        StoreMatch::MatchNone,
    );
    law_lookup_finds_the_best_match(s, partition, address, StoreMatch::MatchFull);
    let before = data_at(t, partition, address);
    let after = data_at(asked.result(t).1, partition, address);
    assert(before is Some <==> data_at(s, partition, address) is Some);
    if before is Some {
        law_store_loses_nothing(asked, t, partition, address);
        lemma_shared_bits(asked.record(t).flags, before->0.flags);
    } else {
        law_store_adds_only_its_address(asked, t, partition, address);
    }
    if address.hash != request.address.hash {
        law_store_leaves_other_hashes(asked, t, partition, address);
    }
}

/// Sharing a payload leaves it open where else it is stored.
proof fn lemma_shared_bits(g: u32, h: u32)
    by (bit_vector)
    ensures
        (((g & !0x300u32) | (h & 0x300u32)) | 0x100u32) & 0x200u32 == h & 0x200u32,
        (((g & !0x300u32) | (h & 0x300u32)) & !0x100u32) & 0x200u32 == h & 0x200u32,
{
}

/// The flags that say where a payload is stored, taken over from other flags.
proof fn lemma_stored_bits(f: u32, h: u32, g: u32)
    by (bit_vector)
    ensures
        (f | (h & 0x200u32)) & 0x200u32 != 0 <==> f & 0x200u32 != 0 || h & 0x200u32 != 0,
        ((h & !0x300u32) | (g & 0x300u32)) & 0x200u32 == g & 0x200u32,
        ((h & !0x300u32) | (g & 0x300u32)) & !0x300u32 == h & !0x300u32,
        g & 0x300u32 == h & 0x300u32 ==> g & 0x200u32 == h & 0x200u32,
        h & 0x1000u32 == 0 || h & 0x1000u32 == 0x1000u32,
        0x1000u32 & 0x200u32 == 0,
        0x1000u32 & 0x1000u32 == 0x1000u32,
{
}

/// Flags that only steer how a fragment is written are cleared, and no others. The sizes stay.
pub proof fn law_only_behavior_flags_are_cleared(fragment: Fragment, behavior: u32)
    ensures
        sanitised(fragment, behavior).flags & behavior == 0,
        sanitised(fragment, behavior).flags & !behavior == fragment.flags & !behavior,
        sanitised(fragment, behavior).size_payload == fragment.size_payload,
        sanitised(fragment, behavior).size_content == fragment.size_content,
{
    let f = fragment.flags;
    assert((f & !behavior) & behavior == 0 && (f & !behavior) & !behavior == f & !behavior)
        by (bit_vector);
}

} // verus!
