//! Looking fragments up in their bucket.
use vstd::prelude::*;

use crate::error::{InternalError, LocalImmutableStoreError, StoreError};
use crate::local::bucket::{found, law_lookup_finds_the_best_match, ImmutableStoreBucket};
use crate::local::data::{ImmutableData, ImmutableStoreEntry};
use crate::types::{
    Address, Fragment, Partition, StoreMatch, StoreQueryResult, PAYLOAD_OBLITERATED,
    PAYLOAD_STORED_DURABLE, PAYLOAD_STORED_LOCAL,
};

verus! {

/// What a lookup in the store found.
#[derive(Clone, Copy, Debug, PartialEq, Eq, Structural)]
pub struct ImmutableStoreFindResult {
    pub group: usize,
    pub data: ImmutableData,
    pub matching: StoreMatch,
}

/// What callers see of an obliterated entry.
pub open spec fn obliterated_data() -> ImmutableData {
    ImmutableData { flags: PAYLOAD_OBLITERATED, ..ImmutableData::zero() }
}

/// Whether an entry was obliterated.
pub open spec fn is_obliterated(data: ImmutableData) -> bool {
    data.flags & PAYLOAD_OBLITERATED == PAYLOAD_OBLITERATED
}

/// Whether a lookup stamps the time on the entry it hits.
pub open spec fn stamps(
    s: Seq<ImmutableStoreEntry>,
    partition: Partition,
    address: Address,
    request: StoreMatch,
    atime: bool,
) -> bool {
    let (slot, insert, made) = found(s, partition, address, request);
    request != StoreMatch::MatchNone && made != StoreMatch::MatchNone && !is_obliterated(
        s[slot].data,
    ) && atime
}

/// What a lookup finds, and the bucket that it leaves.
pub open spec fn find_result(
    s: Seq<ImmutableStoreEntry>,
    partition: Partition,
    address: Address,
    request: StoreMatch,
    atime: bool,
    now: u64,
) -> (Result<(ImmutableData, StoreMatch), LocalImmutableStoreError>, Seq<ImmutableStoreEntry>) {
    let (slot, insert, made) = found(s, partition, address, request);
    if request == StoreMatch::MatchNone {
        (Err(LocalImmutableStoreError::Internal(InternalError::InvalidQuery)), s)
    } else if made == StoreMatch::MatchNone {
        (Ok((ImmutableData::zero(), StoreMatch::MatchNone)), s)
    } else if is_obliterated(s[slot].data) {
        (Ok((obliterated_data(), made)), s)
    } else if atime {
        let data = ImmutableData { last_access: now, ..s[slot].data };
        (Ok((data, made)), s.update(slot, s[slot].with_data(data)))
    } else {
        (Ok((s[slot].data, made)), s)
    }
}

/// What a query reports of an entry.
pub open spec fn query_result(
    data: ImmutableData,
    matching: StoreMatch,
    implicit_durable: bool,
) -> StoreQueryResult {
    let local = if data.pack_file != 0 {
        data.flags | PAYLOAD_STORED_LOCAL
    } else {
        data.flags
    };
    StoreQueryResult {
        fragment: Fragment {
            flags: if implicit_durable {
                local | PAYLOAD_STORED_DURABLE
            } else {
                local
            },
            size_payload: data.size_payload,
            size_content: data.size_content,
        },
        match_made: matching,
    }
}

/// What a reader gets of an entry: the fragment, and where its payload lies.
pub open spec fn get_result(
    found: (ImmutableData, StoreMatch),
    address: Address,
    required: StoreMatch,
    implicit_durable: bool,
) -> Result<(Fragment, ImmutableData), StoreError> {
    let (data, matching) = found;
    if matching != required {
        Err(StoreError::AddressNotFound(address))
    } else if data.pack_file == 0 {
        Err(StoreError::PayloadNotFound(address.hash))
    } else {
        Ok(
            (
                Fragment {
                    flags: if implicit_durable {
                        data.flags | PAYLOAD_STORED_DURABLE
                    } else {
                        data.flags
                    },
                    size_payload: data.size_payload,
                    size_content: data.size_content,
                },
                data,
            ),
        )
    }
}

/// Reports an entry to a query: where it is stored follows the data and the store's settings.
pub fn query_data(data: ImmutableData, matching: StoreMatch, implicit_durable: bool) -> (r:
    StoreQueryResult)
    ensures
        r == query_result(data, matching, implicit_durable),
{
    let mut flags: u32 = data.flags;
    if data.pack_file != 0 {
        flags = flags | PAYLOAD_STORED_LOCAL;
    }
    if implicit_durable {
        flags = flags | PAYLOAD_STORED_DURABLE;
    }
    StoreQueryResult {
        fragment: Fragment {
            flags,
            size_payload: data.size_payload,
            size_content: data.size_content,
        },
        match_made: matching,
    }
}

/// Says what a reader is to load, or why there is nothing to load.
pub fn get_data(
    found: (ImmutableData, StoreMatch),
    address: Address,
    required: StoreMatch,
    implicit_durable: bool,
) -> (r: Result<(Fragment, ImmutableData), StoreError>)
    ensures
        r == get_result(found, address, required, implicit_durable),
{
    let (data, matching) = found;
    if matching != required {
        return Err(StoreError::AddressNotFound(address));
    }
    if data.pack_file == 0 {
        return Err(StoreError::PayloadNotFound(address.hash));
    }
    let mut flags: u32 = data.flags;
    if implicit_durable {
        flags = flags | PAYLOAD_STORED_DURABLE;
    }
    Ok(
        (
            Fragment {
                flags,
                size_payload: data.size_payload,
                size_content: data.size_content,
            },
            data,
        ),
    )
}

impl ImmutableStoreBucket {
    /// Finds an entry. Where `atime` is set, stamps the time of the access on it.
    pub fn find(
        &mut self,
        partition: Partition,
        address: Address,
        match_request: StoreMatch,
        atime: bool,
        now: u64,
        dirty: &mut bool,
    ) -> (r: Result<(ImmutableData, StoreMatch), LocalImmutableStoreError>)
        requires
            old(self).wf(),
        ensures
            final(self).wf(),
            (r, final(self).slots()) == find_result(
                old(self).slots(),
                partition,
                address,
                match_request,
                atime,
                now,
            ),
            *final(dirty) == (*old(dirty) || stamps(
                old(self).slots(),
                partition,
                address,
                match_request,
                atime,
            )),
            final(self).deserialized == old(self).deserialized,
            final(self).upgrade_packfile == old(self).upgrade_packfile,
            final(self).entry@.len() == old(self).entry@.len(),
            final(self).sorted_index == old(self).sorted_index,
            !stamps(old(self).slots(), partition, address, match_request, atime) ==> *final(self)
                == *old(self),
    {
        if match_request == StoreMatch::MatchNone {
            return Err(LocalImmutableStoreError::Internal(InternalError::InvalidQuery));
        }
        let (match_slot, _, match_made) = self.lookup(partition, address, match_request);
        if match_made == StoreMatch::MatchNone {
            return Ok((ImmutableData::default(), StoreMatch::MatchNone));
        }
        let mut data = self.at(match_slot).data;
        if data.flags & PAYLOAD_OBLITERATED == PAYLOAD_OBLITERATED {
            let mut gone = ImmutableData::default();
            gone.flags = PAYLOAD_OBLITERATED;
            return Ok((gone, match_made));
        }
        if atime {
            data.last_access = now;
            self.set_data(match_slot, data);
            *dirty = true;
        }
        Ok((data, match_made))
    }
}

/// A lookup answers with a match no stronger than what was asked for, and with a match wherever
/// some entry has the hash.
pub proof fn law_find_answers_what_was_asked(
    s: Seq<ImmutableStoreEntry>,
    partition: Partition,
    address: Address,
    request: StoreMatch,
    atime: bool,
    now: u64,
)
    requires
        crate::local::bucket::sorted(s),
        request != StoreMatch::MatchNone,
    ensures
        ({
            let r = find_result(s, partition, address, request, atime, now).0;
            &&& r is Ok
            &&& r->Ok_0.1.rank() <= request.rank()
            &&& r->Ok_0.1 != StoreMatch::MatchNone <==> exists|i: int|
                0 <= i < s.len() && (#[trigger] s[i]).address.hash == address.hash
        }),
{
    law_lookup_finds_the_best_match(s, partition, address, request);
    let made = found(s, partition, address, request).2;
    if exists|i: int| 0 <= i < s.len() && (#[trigger] s[i]).address.hash == address.hash {
        let i = choose|i: int| 0 <= i < s.len() && (#[trigger] s[i]).address.hash == address.hash;
        assert(crate::local::bucket::capped(
            crate::local::bucket::match_of(s[i], partition, address),
            request,
        ).rank() <= made.rank());
    }
}

} // verus!
