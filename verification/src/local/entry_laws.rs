//! What copying, marking and obliterating do to entries, as callers can see it.
use vstd::prelude::*;

use crate::error::StoreError;
use crate::local::bucket::{
    data_at, found, law_every_entry_is_found, law_lookup_finds_the_best_match, sorted,
};
use crate::local::copy::{law_copy_is_found, CopyRequest};
use crate::local::data::{law_copy_never_spreads_durability, ImmutableData, ImmutableStoreEntry};
use crate::local::group::ImmutableStoreGroup;
use crate::local::marks::{marked, marked_below, unmarked};
use crate::local::obliterate::{obliterate_result, ObliterateOutcome};
use crate::types::{
    Address, Partition, StoreMatch, PAYLOAD_OBLITERATED, PAYLOAD_STORED, PAYLOAD_STORED_DURABLE,
    PAYLOAD_STORED_LOCAL,
};

verus! {

/// Data that shares a payload has the place, the size and the flags of the payload. It keeps its own
/// content size, its own time of the last access, and whether it is durable.
pub proof fn law_sharing_takes_the_payload(target: ImmutableData, source: ImmutableData)
    ensures
        ({
            let shared = target.deduplicated(source);
            &&& shared.pack_file == source.pack_file
            &&& shared.pack_offset == source.pack_offset
            &&& shared.size_payload == source.size_payload
            &&& shared.size_content == target.size_content
            &&& shared.last_access == target.last_access
            &&& shared.flags & !PAYLOAD_STORED == source.flags & !PAYLOAD_STORED
            &&& shared.flags & PAYLOAD_STORED_DURABLE == target.flags & PAYLOAD_STORED_DURABLE
            &&& shared.flags & PAYLOAD_STORED_LOCAL != 0 <==> source.pack_file != 0
        }),
{
    lemma_shared_flags(source.flags, target.flags);
}

/// A copy fails exactly if its source is not recorded, and then changes nothing. Otherwise its
/// destination has the payload, the sizes and the flags of the source. The destination is durable
/// exactly if it was before or the caller says so, local exactly if the source has a payload, and
/// was accessed at the time of the copy unless the copy changed nothing.
pub proof fn law_copy_takes_the_source(request: CopyRequest, s: Seq<ImmutableStoreEntry>)
    requires
        sorted(s),
    ensures
        ({
            let source = data_at(s, request.source_partition, request.source_address);
            let destination = Address {
                hash: request.source_address.hash,
                context: request.destination_context,
            };
            let before = data_at(s, request.destination_partition, destination);
            let (r, t) = request.result(s);
            let after = data_at(t, request.destination_partition, destination);
            &&& source is None ==> r == Err::<(), StoreError>(
                StoreError::AddressNotFound(request.source_address),
            ) && t == s
            &&& source is Some ==> {
                &&& r is Ok
                &&& after is Some
                &&& after->0.pack_file == source->0.pack_file
                &&& after->0.pack_offset == source->0.pack_offset
                &&& after->0.size_payload == source->0.size_payload
                &&& after->0.size_content == source->0.size_content
                &&& after->0.flags & !PAYLOAD_STORED == source->0.flags & !PAYLOAD_STORED
                &&& after->0.flags & PAYLOAD_STORED_DURABLE != 0 <==> request.durable || (before
                    is Some && before->0.flags & PAYLOAD_STORED_DURABLE != 0)
                &&& after->0.flags & PAYLOAD_STORED_LOCAL != 0 <==> source->0.pack_file != 0
                &&& after != before ==> after->0.last_access == request.now
                &&& before is Some && (ImmutableData { last_access: 0, ..after->0 }) == (
                ImmutableData { last_access: 0, ..before->0 }) ==> after == before
            }
        }),
{
    let source = request.source(s);
    if source is Some {
        law_copy_is_found(request, s);
        let target = match request.target(s) {
            Some(target) => target,
            None => ImmutableData::zero(),
        };
        let with_size = ImmutableData { size_content: source->0.size_content, ..target };
        law_sharing_takes_the_payload(with_size, source->0);
        law_copy_never_spreads_durability(target, source->0, request.durable);
        lemma_durable_flag(with_size.deduplicated(source->0).flags);
        lemma_durable_flag(0);
    }
}

/// Marking all as durable leaves every entry durable and local, and changes nothing else.
pub proof fn law_marking_makes_durable(entry: ImmutableStoreEntry)
    ensures
        marked(entry).data.flags & PAYLOAD_STORED_DURABLE != 0,
        marked(entry).data.flags & PAYLOAD_STORED_LOCAL != 0,
        marked(entry).data.flags & !PAYLOAD_STORED == entry.data.flags & !PAYLOAD_STORED,
        marked(entry) == entry.with_data(
            ImmutableData { flags: marked(entry).data.flags, ..entry.data },
        ),
{
    lemma_marked_flags(entry.data.flags);
}

/// Marking an address as not durable takes the durable flag from the entry at that very address, and
/// changes no other flag, no other field and no other entry.
pub proof fn law_unmarking_takes_the_durable_flag(
    s: Seq<ImmutableStoreEntry>,
    partition: Partition,
    address: Address,
)
    requires
        sorted(s),
    ensures
        ({
            let after = unmarked(s, partition, address);
            &&& after.len() == s.len()
            &&& sorted(after)
            &&& forall|i: int|
                0 <= i < s.len() ==> if s[i].partition == partition && s[i].address == address {
                    &&& (#[trigger] after[i]).data.flags & PAYLOAD_STORED_DURABLE == 0
                    &&& after[i].data.flags & !PAYLOAD_STORED_DURABLE == s[i].data.flags
                        & !PAYLOAD_STORED_DURABLE
                    &&& after[i] == s[i].with_data(
                        ImmutableData { flags: after[i].data.flags, ..s[i].data },
                    )
                } else {
                    after[i] == s[i]
                }
        }),
{
    law_lookup_finds_the_best_match(s, partition, address, StoreMatch::MatchFull);
    let after = unmarked(s, partition, address);
    let (slot, insert, made) = found(s, partition, address, StoreMatch::MatchFull);
    assert forall|i: int| 0 <= i < s.len() implies if s[i].partition == partition && s[i].address
        == address {
        &&& (#[trigger] after[i]).data.flags & PAYLOAD_STORED_DURABLE == 0
        &&& after[i].data.flags & !PAYLOAD_STORED_DURABLE == s[i].data.flags
            & !PAYLOAD_STORED_DURABLE
        &&& after[i] == s[i].with_data(ImmutableData { flags: after[i].data.flags, ..s[i].data })
    } else {
        after[i] == s[i]
    } by {
        lemma_unmarked_flags(s[i].data.flags);
        if s[i].partition == partition && s[i].address == address {
            law_every_entry_is_found(s, i);
        }
    }
    assert forall|i: int, j: int| 0 <= i < j < after.len() implies (#[trigger] after[i]).key().before(
        (#[trigger] after[j]).key(),
    ) by {
        assert(s[i].key().before(s[j].key()));
    }
}

/// Obliterating an address that is not recorded fails. An entry that was obliterated before is left
/// alone. A payload is to be erased first exactly if it was not erased yet and every other entry of
/// the hash is obliterated; nothing changes until then. Otherwise nothing is left of the entry but
/// that it was obliterated. No other entry changes in any case.
pub proof fn law_obliterating_leaves_nothing(
    s: Seq<ImmutableStoreEntry>,
    partition: Partition,
    address: Address,
    erased: bool,
)
    requires
        sorted(s),
    ensures
        ({
            let before = data_at(s, partition, address);
            let (r, t) = obliterate_result(s, partition, address, erased);
            let gone = ImmutableData {
                flags: PAYLOAD_OBLITERATED,
                size_payload: 0,
                size_content: 0,
                pack_offset: 0,
                pack_file: 0,
                last_access: 0,
            };
            let others_gone = forall|i: int|
                0 <= i < s.len() && (#[trigger] s[i]).address.hash == address.hash && (s[i].partition
                    != partition || s[i].address != address) ==> s[i].data.flags
                    == PAYLOAD_OBLITERATED;
            &&& before is None ==> r == Err::<ObliterateOutcome, StoreError>(
                StoreError::AddressNotFound(address),
            )
            &&& before is Some && before->0.flags & PAYLOAD_OBLITERATED != 0 ==> r == Ok::<
                ObliterateOutcome,
                StoreError,
            >(ObliterateOutcome::AlreadyGone)
            &&& before is Some && before->0.flags & PAYLOAD_OBLITERATED == 0 ==> {
                if before->0.pack_file != 0 && !erased && others_gone {
                    r == Ok::<ObliterateOutcome, StoreError>(
                        ObliterateOutcome::ErasePayload(before->0),
                    )
                } else {
                    &&& r == Ok::<ObliterateOutcome, StoreError>(ObliterateOutcome::Obliterated)
                    &&& data_at(t, partition, address) == Some(gone)
                }
            }
            &&& !(r is Ok && r->Ok_0 is Obliterated) ==> t == s
            &&& t.len() == s.len()
            &&& forall|i: int|
                0 <= i < s.len() && (s[i].partition != partition || s[i].address != address)
                    ==> #[trigger] t[i] == s[i]
            &&& forall|i: int| 0 <= i < s.len() ==> (#[trigger] t[i]).key() == s[i].key()
        }),
{
    law_lookup_finds_the_best_match(s, partition, address, StoreMatch::MatchFull);
    let (r, t) = obliterate_result(s, partition, address, erased);
    let (slot, insert, made) = found(s, partition, address, StoreMatch::MatchFull);
    if made == StoreMatch::MatchFull {
        lemma_unmarked_flags(s[slot].data.flags);
        assert forall|i: int|
            0 <= i < s.len() && i != slot implies (#[trigger] s[i]).partition != partition
            || s[i].address != address by {
            if i < slot {
                assert(s[i].key().before(s[slot].key()));
            } else {
                assert(s[slot].key().before(s[i].key()));
            }
        }
        assert forall|i: int, j: int| 0 <= i < j < t.len() implies (#[trigger] t[i]).key().before(
            (#[trigger] t[j]).key(),
        ) by {
            assert(s[i].key().before(s[j].key()));
        }
        law_every_entry_is_found(t, slot);
    }
}

/// The flags of shared data.
proof fn lemma_shared_flags(s: u32, t: u32)
    by (bit_vector)
    ensures
        (((s & !0x300u32) | (t & 0x300u32)) | 0x100u32) & !0x300u32 == s & !0x300u32,
        (((s & !0x300u32) | (t & 0x300u32)) & !0x100u32) & !0x300u32 == s & !0x300u32,
        (((s & !0x300u32) | (t & 0x300u32)) | 0x100u32) & 0x200u32 == t & 0x200u32,
        (((s & !0x300u32) | (t & 0x300u32)) & !0x100u32) & 0x200u32 == t & 0x200u32,
        (((s & !0x300u32) | (t & 0x300u32)) | 0x100u32) & 0x100u32 != 0,
        (((s & !0x300u32) | (t & 0x300u32)) & !0x100u32) & 0x100u32 == 0,
{
}

/// The durable flag and the others.
proof fn lemma_durable_flag(h: u32)
    by (bit_vector)
    ensures
        (h | 0x200u32) & !0x300u32 == h & !0x300u32,
        (h | 0x200u32) & 0x100u32 == h & 0x100u32,
        0u32 & 0x200u32 == 0,
{
}

/// The flags of marked entries.
proof fn lemma_marked_flags(h: u32)
    by (bit_vector)
    ensures
        (h | (0x200u32 | 0x100u32)) & 0x200u32 != 0,
        (h | (0x200u32 | 0x100u32)) & 0x100u32 != 0,
        (h | (0x200u32 | 0x100u32)) & !0x300u32 == h & !0x300u32,
{
}

/// The flags of entries that are not durable any more, or obliterated.
proof fn lemma_unmarked_flags(h: u32)
    by (bit_vector)
    ensures
        (h & !0x200u32) & 0x200u32 == 0,
        (h & !0x200u32) & !0x200u32 == h & !0x200u32,
        h & 0x1000u32 == 0 || h & 0x1000u32 == 0x1000u32,
{
}

/// Marking all as durable reaches every entry of every bucket of a group, and leaves the buckets
/// otherwise as they are, clean if they were.
pub proof fn law_marking_reaches_every_entry(
    before: ImmutableStoreGroup,
    after: ImmutableStoreGroup,
    b: int,
    i: int,
)
    requires
        before.wf(),
        marked_below(before, after, 256),
        0 <= b < 256,
        0 <= i < before.bucket@[b].slots().len(),
    ensures
        ({
            let e = before.bucket@[b].slots()[i];
            let f = after.bucket@[b].slots()[i];
            &&& after.bucket@[b].slots().len() == before.bucket@[b].slots().len()
            &&& f.data.flags & PAYLOAD_STORED_DURABLE != 0
            &&& f.data.flags & !PAYLOAD_STORED == e.data.flags & !PAYLOAD_STORED
            &&& f == e.with_data(ImmutableData { flags: f.data.flags, ..e.data })
            &&& after.dirty@ == before.dirty@ && after.bucket_count == before.bucket_count
        }),
{
    let s = before.bucket@[b].slots();
    assert(after.bucket@[b].slots() == s.map_values(|e: ImmutableStoreEntry| marked(e)));
    law_marking_makes_durable(s[i]);
}

} // verus!
