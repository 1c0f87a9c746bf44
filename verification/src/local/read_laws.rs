//! What readers see of a bucket.
use vstd::prelude::*;

use crate::error::StoreError;
use crate::local::bucket::{
    capped, data_at, found, law_every_entry_is_found, law_lookup_finds_the_best_match, match_of,
    sorted,
};
use crate::local::data::{ImmutableData, ImmutableStoreEntry};
use crate::local::find::{find_result, get_result, query_result};
use crate::local::put::put_result;
use crate::local::put_laws::law_put_stores_what_it_reports;
use crate::local::queries::looked_up;
use crate::local::store::{StoreOutcome, StoreRequest};
use crate::types::{
    Address, Fragment, Partition, StoreMatch, PAYLOAD_OBLITERATED, PAYLOAD_STORED,
    PAYLOAD_STORED_DURABLE, PAYLOAD_STORED_LOCAL,
};

verus! {

/// Whether an entry matches an address as far as a match says.
pub open spec fn matches_as(
    entry: ImmutableStoreEntry,
    partition: Partition,
    address: Address,
    matching: StoreMatch,
) -> bool {
    match matching {
        StoreMatch::MatchNone => true,
        StoreMatch::MatchHash => entry.address.hash == address.hash,
        StoreMatch::MatchPartition => entry.address.hash == address.hash && entry.partition
            == partition,
        StoreMatch::MatchFull => entry.address == address && entry.partition == partition,
    }
}

/// A lookup answers with an entry that matches as far as the answer says, with all that the entry
/// records but for the time of the access. An obliterated entry is answered with nothing but that it
/// was obliterated. No entry matches better, up to what was asked for.
pub proof fn law_lookup_answers_with_an_entry(
    s: Seq<ImmutableStoreEntry>,
    partition: Partition,
    address: Address,
    request: StoreMatch,
    atime: bool,
    now: u64,
)
    requires
        sorted(s),
        request != StoreMatch::MatchNone,
    ensures
        ({
            let hit = find_result(s, partition, address, request, atime, now).0;
            let (data, made) = hit->Ok_0;
            &&& hit is Ok
            &&& made != StoreMatch::MatchNone ==> exists|i: int|
                0 <= i < s.len() && matches_as(#[trigger] s[i], partition, address, made) && if s[i].data.flags
                    & PAYLOAD_OBLITERATED != 0 {
                    data == (ImmutableData { flags: PAYLOAD_OBLITERATED, ..ImmutableData::zero() })
                } else {
                    data == (ImmutableData {
                        last_access: if atime {
                            now
                        } else {
                            s[i].data.last_access
                        },
                        ..s[i].data
                    })
                }
            &&& made == StoreMatch::MatchNone ==> data == ImmutableData::zero()
            &&& made != request ==> forall|i: int|
                0 <= i < s.len() ==> !matches_as(#[trigger] s[i], partition, address, request)
            &&& made == StoreMatch::MatchHash && request == StoreMatch::MatchFull ==> forall|i: int|
                0 <= i < s.len() ==> !matches_as(
                    #[trigger] s[i],
                    partition,
                    address,
                    StoreMatch::MatchPartition,
                )
            &&& made == StoreMatch::MatchNone ==> forall|i: int|
                0 <= i < s.len() ==> (#[trigger] s[i]).address.hash != address.hash
        }),
{
    law_lookup_finds_the_best_match(s, partition, address, request);
    let (slot, insert, made) = found(s, partition, address, request);
    if made != StoreMatch::MatchNone {
        lemma_read_bits(s[slot].data.flags);
        assert(matches_as(s[slot], partition, address, made));
    }
    assert forall|i: int|
        0 <= i < s.len() && matches_as(#[trigger] s[i], partition, address, request) implies made
        == request by {
        assert(capped(match_of(s[i], partition, address), request).rank() <= made.rank());
    }
    assert forall|i: int|
        0 <= i < s.len() && made == StoreMatch::MatchHash && request
            == StoreMatch::MatchFull implies !matches_as(
        #[trigger] s[i],
        partition,
        address,
        StoreMatch::MatchPartition,
    ) by {
        assert(capped(match_of(s[i], partition, address), request).rank() <= made.rank());
    }
    assert forall|i: int| 0 <= i < s.len() && made == StoreMatch::MatchNone implies (
    #[trigger] s[i]).address.hash != address.hash by {
        assert(capped(match_of(s[i], partition, address), request).rank() <= made.rank());
    }
}

/// A lookup changes nothing but the time of the last access, of one entry that it answers with, and
/// that only where such times are kept. An obliterated entry does not change.
pub proof fn law_lookup_changes_only_the_access(
    s: Seq<ImmutableStoreEntry>,
    partition: Partition,
    address: Address,
    request: StoreMatch,
    atime: bool,
    now: u64,
)
    requires
        sorted(s),
    ensures
        ({
            let (hit, after) = find_result(s, partition, address, request, atime, now);
            &&& after.len() == s.len()
            &&& forall|i: int|
                0 <= i < s.len() ==> #[trigger] after[i] == s[i] || (atime && after[i]
                    == s[i].with_data(ImmutableData { last_access: now, ..s[i].data })
                    && matches_as(s[i], partition, address, (hit->Ok_0).1) && hit is Ok)
            &&& forall|i: int, j: int|
                0 <= i < s.len() && 0 <= j < s.len() && #[trigger] after[i] != s[i]
                    && #[trigger] after[j] != s[j] ==> i == j
            &&& !atime ==> after == s
            &&& forall|i: int|
                0 <= i < s.len() && s[i].data.flags & PAYLOAD_OBLITERATED != 0
                    ==> #[trigger] after[i] == s[i]
            &&& atime && hit is Ok && (hit->Ok_0).1 != StoreMatch::MatchNone && (hit->Ok_0).0.flags
                & PAYLOAD_OBLITERATED == 0 ==> exists|i: int|
                0 <= i < s.len() && #[trigger] after[i] == s[i].with_data(
                    ImmutableData { last_access: now, ..s[i].data },
                ) && matches_as(s[i], partition, address, (hit->Ok_0).1)
            &&& atime && request == StoreMatch::MatchFull && data_at(s, partition, address) is Some
                && data_at(s, partition, address)->0.flags & PAYLOAD_OBLITERATED == 0 ==> data_at(
                after,
                partition,
                address,
            ) == Some(
                ImmutableData { last_access: now, ..data_at(s, partition, address)->0 },
            )
        }),
{
    law_lookup_finds_the_best_match(s, partition, address, request);
    let (slot, insert, made) = found(s, partition, address, request);
    let after = find_result(s, partition, address, request, atime, now).1;
    lemma_read_bits(PAYLOAD_OBLITERATED);
    if made != StoreMatch::MatchNone {
        lemma_read_bits(s[slot].data.flags);
        assert(after.len() == s.len());
        assert(after[slot].key() == s[slot].key());
    }
    if request == StoreMatch::MatchFull && data_at(s, partition, address) is Some {
        assert forall|i: int, j: int| 0 <= i < j < after.len() implies (
        #[trigger] after[i]).key().before((#[trigger] after[j]).key()) by {
            assert(s[i].key().before(s[j].key()));
        }
        law_every_entry_is_found(after, slot);
    }
}

/// A query for a recorded fragment reports what is recorded: the sizes, and the flags but for those
/// that say where the payload is stored. It is reported as stored locally where it has a payload or
/// says so, and as stored durably where it or the store says so.
pub proof fn law_query_reports_what_is_recorded(
    s: Seq<ImmutableStoreEntry>,
    partition: Partition,
    address: Address,
    atime: bool,
    implicit_durable: bool,
    now: u64,
)
    requires
        sorted(s),
        data_at(s, partition, address) is Some,
        data_at(s, partition, address)->0.flags & PAYLOAD_OBLITERATED == 0,
    ensures
        ({
            let data = data_at(s, partition, address)->0;
            let hit = looked_up(s, partition, address, StoreMatch::MatchFull, atime, now);
            let (seen, made) = hit->Ok_0;
            let query = query_result(seen, made, implicit_durable);
            &&& hit is Ok
            &&& query.match_made == StoreMatch::MatchFull
            &&& query.fragment.size_payload == data.size_payload
            &&& query.fragment.size_content == data.size_content
            &&& query.fragment.flags & !PAYLOAD_STORED == data.flags & !PAYLOAD_STORED
            &&& query.fragment.flags & PAYLOAD_STORED_LOCAL != 0 <==> data.pack_file != 0
                || data.flags & PAYLOAD_STORED_LOCAL != 0
            &&& query.fragment.flags & PAYLOAD_STORED_DURABLE != 0 <==> implicit_durable
                || data.flags & PAYLOAD_STORED_DURABLE != 0
        }),
{
    let flags = data_at(s, partition, address)->0.flags;
    lemma_read_bits(flags);
    lemma_read_bits(flags | PAYLOAD_STORED_LOCAL);
}

/// A read of a recorded fragment succeeds exactly if the fragment has a payload. It gives the sizes
/// and flags that are recorded, durable where the store says so, and the place of the payload.
pub proof fn law_get_reads_what_is_recorded(
    s: Seq<ImmutableStoreEntry>,
    partition: Partition,
    address: Address,
    atime: bool,
    implicit_durable: bool,
    now: u64,
)
    requires
        sorted(s),
        data_at(s, partition, address) is Some,
        data_at(s, partition, address)->0.flags & PAYLOAD_OBLITERATED == 0,
    ensures
        ({
            let data = data_at(s, partition, address)->0;
            let hit = looked_up(s, partition, address, StoreMatch::MatchFull, atime, now);
            let get = get_result(hit->Ok_0, address, StoreMatch::MatchFull, implicit_durable);
            let (fragment, place) = get->Ok_0;
            &&& hit is Ok
            &&& data.pack_file == 0 ==> get == Err::<(Fragment, ImmutableData), StoreError>(
                StoreError::PayloadNotFound(address.hash),
            )
            &&& data.pack_file != 0 ==> get is Ok
            &&& get is Ok ==> {
                &&& fragment.size_payload == data.size_payload
                &&& fragment.size_content == data.size_content
                &&& fragment.flags & !PAYLOAD_STORED_DURABLE == data.flags & !PAYLOAD_STORED_DURABLE
                &&& fragment.flags & PAYLOAD_STORED_DURABLE != 0 <==> implicit_durable
                    || data.flags & PAYLOAD_STORED_DURABLE != 0
                &&& place.pack_file == data.pack_file
                &&& place.pack_offset == data.pack_offset
                &&& place.size_payload == data.size_payload
            }
        }),
{
    lemma_read_bits(data_at(s, partition, address)->0.flags);
}

/// A query and a read that saw the same entry agree on its sizes, on whether it is durable, and on
/// all that its flags say but where the payload is stored.
pub proof fn law_query_and_get_agree(
    found: (ImmutableData, StoreMatch),
    address: Address,
    required: StoreMatch,
    implicit_durable: bool,
)
    ensures
        ({
            let query = query_result(found.0, found.1, implicit_durable);
            let get = get_result(found, address, required, implicit_durable);
            let fragment = (get->Ok_0).0;
            &&& get is Ok ==> fragment.size_payload == query.fragment.size_payload
            &&& get is Ok ==> fragment.size_content == query.fragment.size_content
            &&& get is Ok ==> fragment.flags & PAYLOAD_STORED_DURABLE == query.fragment.flags
                & PAYLOAD_STORED_DURABLE
            &&& get is Ok ==> fragment.flags & !PAYLOAD_STORED == query.fragment.flags
                & !PAYLOAD_STORED
            &&& get is Ok ==> query.match_made == required && query.fragment.flags
                & PAYLOAD_STORED_LOCAL != 0
            &&& found.1 != required ==> get == Err::<(Fragment, ImmutableData), StoreError>(
                StoreError::AddressNotFound(address),
            )
            &&& found.1 == required && found.0.pack_file == 0 ==> get == Err::<
                (Fragment, ImmutableData),
                StoreError,
            >(StoreError::PayloadNotFound(address.hash))
            &&& found.1 == required && found.0.pack_file != 0 ==> get is Ok && (get->Ok_0).1
                == found.0
        }),
{
    lemma_read_bits(found.0.flags);
    lemma_read_bits(found.0.flags | PAYLOAD_STORED_LOCAL);
    lemma_durable_after_local(found.0.flags);
}

/// Once a put stored data at an address, a query for the very address reports the sizes that the put
/// stored, the content size that it was asked to store, and flags that differ from those that it
/// stored only in where the payload is stored.
pub proof fn law_put_is_queried(
    request: StoreRequest,
    check: Result<(), StoreError>,
    atime: bool,
    s: Seq<ImmutableStoreEntry>,
    data: ImmutableData,
    implicit_durable: bool,
    now: u64,
)
    requires
        sorted(s),
        put_result(request, check, atime, s).0 == Ok::<StoreOutcome, StoreError>(
            StoreOutcome::Stored(data),
        ),
        data.flags & PAYLOAD_OBLITERATED == 0,
    ensures
        ({
            let after = put_result(request, check, atime, s).1;
            let hit = looked_up(
                after,
                request.partition,
                request.address,
                StoreMatch::MatchFull,
                atime,
                now,
            );
            let query = query_result((hit->Ok_0).0, (hit->Ok_0).1, implicit_durable);
            &&& hit is Ok
            &&& query.match_made == StoreMatch::MatchFull
            &&& query.fragment.size_payload == data.size_payload
            &&& query.fragment.size_content == data.size_content
            &&& query.fragment.size_content == request.fragment.size_content
            &&& query.fragment.flags & !PAYLOAD_STORED == data.flags & !PAYLOAD_STORED
            &&& request.fragment.flags & PAYLOAD_STORED_DURABLE != 0 ==> query.fragment.flags
                & PAYLOAD_STORED_DURABLE != 0
            &&& data.pack_file != 0 ==> query.fragment.flags & PAYLOAD_STORED_LOCAL != 0
        }),
{
    law_put_stores_what_it_reports(request, check, atime, s, data);
    let after = put_result(request, check, atime, s).1;
    law_query_reports_what_is_recorded(
        after,
        request.partition,
        request.address,
        atime,
        implicit_durable,
        now,
    );
}

/// The flags that a reader sees.
proof fn lemma_read_bits(h: u32)
    by (bit_vector)
    ensures
        h & 0x1000u32 == 0 || h & 0x1000u32 == 0x1000u32,
        0x1000u32 & 0x1000u32 == 0x1000u32,
        (h | 0x100u32) & !0x300u32 == h & !0x300u32,
        (h | 0x200u32) & !0x300u32 == h & !0x300u32,
        (h | 0x200u32) & !0x200u32 == h & !0x200u32,
        (h | 0x100u32) & 0x100u32 != 0,
        (h | 0x200u32) & 0x200u32 != 0,
        (h | 0x200u32) & 0x100u32 == h & 0x100u32,
        (h | 0x100u32) & 0x200u32 == h & 0x200u32,
{
}

/// Whether the durable flag is set before or after the local one.
proof fn lemma_durable_after_local(h: u32)
    by (bit_vector)
    ensures
        ((h | 0x100u32) | 0x200u32) & 0x200u32 == (h | 0x200u32) & 0x200u32,
{
}

} // verus!
