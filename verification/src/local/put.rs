//! Putting a fragment: recording it unless the bucket knows as much already.
use vstd::prelude::*;

use crate::error::{InternalError, LocalImmutableStoreError, StoreError};
use crate::local::bucket::{
    data_at, found, law_every_entry_is_found, law_lookup_finds_the_best_match,
    lemma_search_by_keys, sorted, ImmutableStoreBucket,
};
use crate::local::data::{ImmutableData, ImmutableStoreEntry};
use crate::local::find::{find_result, is_obliterated, stamps};
use crate::local::store::{
    law_store_keeps_the_order, law_stored_fragment_is_found, StoreOutcome, StoreRequest,
};
use crate::types::{Fragment, StoreMatch, PAYLOAD_OBLITERATED, PAYLOAD_STORED_DURABLE};

verus! {

/// The request with the durable flag of an entry carried over.
pub open spec fn inheriting(request: StoreRequest, data: ImmutableData) -> StoreRequest {
    StoreRequest {
        fragment: Fragment {
            flags: request.fragment.flags | (data.flags & PAYLOAD_STORED_DURABLE),
            ..request.fragment
        },
        ..request
    }
}

/// What is asked of the bucket: the durable flag of the entry at the very address is carried over.
pub open spec fn merged(
    request: StoreRequest,
    data: ImmutableData,
    made: StoreMatch,
) -> StoreRequest {
    if made == StoreMatch::MatchFull {
        inheriting(request, data)
    } else {
        request
    }
}

/// Whether a request tells a bucket something that the entry at its address lacks.
pub open spec fn adds(request: StoreRequest, data: ImmutableData) -> bool {
    ||| data.pack_file == 0 && request.payload is Some
    ||| data.flags & PAYLOAD_STORED_DURABLE == 0 && request.fragment.flags & PAYLOAD_STORED_DURABLE
        != 0
    ||| request.force
}

/// A bucket's answer as callers of the store see it.
pub open spec fn forwarded(
    r: (Result<StoreOutcome, LocalImmutableStoreError>, Seq<ImmutableStoreEntry>),
) -> (Result<StoreOutcome, StoreError>, Seq<ImmutableStoreEntry>) {
    (
        match r.0 {
            Ok(outcome) => Ok(outcome),
            Err(e) => Err(e.forwarded()),
        },
        r.1,
    )
}

/// A fragment without some flags.
pub open spec fn sanitised(fragment: Fragment, behavior: u32) -> Fragment {
    Fragment { flags: fragment.flags & !behavior, ..fragment }
}

/// A fragment without the flags that only steer how it is written. They are not recorded.
pub fn sanitise_fragment_behavior_flags(fragment: Fragment, behavior: u32) -> (r: Fragment)
    ensures
        r == (Fragment { flags: fragment.flags & !behavior, ..fragment }),
        r == sanitised(fragment, behavior),
{
    Fragment {
        flags: fragment.flags & !behavior,
        size_payload: fragment.size_payload,
        size_content: fragment.size_content,
    }
}

/// Why a put is refused whatever the bucket holds. `check` is what validating the payload against
/// the fragment said.
pub open spec fn put_refusal(request: StoreRequest, check: Result<(), StoreError>) -> Option<
    StoreError,
> {
    if request.payload is Some && check is Err {
        Some(check->Err_0)
    } else if request.payload is None && request.fragment.size_payload as int
        > request.size_threshold as int {
        Some(StoreError::Oversized)
    } else {
        None
    }
}

/// Checks of a put that need no bucket.
pub fn check_put(request: &StoreRequest, check: Result<(), StoreError>) -> (r: Result<
    (),
    StoreError,
>)
    ensures
        r == match put_refusal(*request, check) {
            Some(e) => Err::<(), StoreError>(e),
            None => Ok(()),
        },
{
    if request.payload.is_some() {
        match check {
            Ok(()) => Ok(()),
            Err(e) => Err(e),
        }
    } else if request.fragment.size_payload as u64 > request.size_threshold as u64 {
        Err(StoreError::Oversized)
    } else {
        Ok(())
    }
}

/// What a put comes to, and the bucket that it leaves. `check` is what validating the payload
/// against the fragment said.
#[verifier::opaque]
pub open spec fn put_result(
    request: StoreRequest,
    check: Result<(), StoreError>,
    atime: bool,
    s: Seq<ImmutableStoreEntry>,
) -> (Result<StoreOutcome, StoreError>, Seq<ImmutableStoreEntry>) {
    let (hit, t) = find_result(
        s,
        request.partition,
        request.address,
        StoreMatch::MatchFull,
        atime,
        request.now,
    );
    let (data, made) = hit->Ok_0;
    if put_refusal(request, check) is Some {
        (Err(put_refusal(request, check)->0), s)
    } else if request.force && request.payload is Some {
        forwarded(merged(request, data, made).result(s))
    } else if made != StoreMatch::MatchNone && request.fragment.size_content != data.size_content
        && data.flags & PAYLOAD_OBLITERATED == 0 {
        (Err(StoreError::Internal(InternalError::HashCollision)), t)
    } else if made != StoreMatch::MatchFull || adds(request, data) {
        forwarded(merged(request, data, made).result(t))
    } else {
        (Ok(StoreOutcome::Kept), t)
    }
}

/// Whether a put counts as an access to the entry that it finds. A forced write does not.
pub open spec fn touches(
    request: StoreRequest,
    check: Result<(), StoreError>,
    atime: bool,
    s: Seq<ImmutableStoreEntry>,
) -> bool {
    stamps(s, request.partition, request.address, StoreMatch::MatchFull, atime) && !(
    request.payload is Some && request.force) && put_refusal(request, check) is None
}

/// Whether a put marks the bucket for the next flush.
#[verifier::opaque]
pub open spec fn put_marks(
    request: StoreRequest,
    check: Result<(), StoreError>,
    atime: bool,
    s: Seq<ImmutableStoreEntry>,
) -> bool {
    let (r, after) = put_result(request, check, atime, s);
    ||| after != s
    ||| r is Ok && r->Ok_0 is Stored
    ||| touches(request, check, atime, s)
}

impl ImmutableStoreBucket {
    /// Puts a fragment. Flags that only steer behaviour are taken to be cleared, and `check` to be
    /// what validating the payload against the fragment said.
    pub fn put(
        &mut self,
        request: &StoreRequest,
        check: Result<(), StoreError>,
        atime: bool,
        dirty: &mut bool,
    ) -> (r: Result<StoreOutcome, StoreError>)
        requires
            old(self).wf(),
            old(self).entry@.len() < u32::MAX,
        ensures
            final(self).wf(),
            (r, final(self).slots()) == put_result(*request, check, atime, old(self).slots()),
            *final(dirty) == (*old(dirty) || put_marks(*request, check, atime, old(self).slots())),
            r is Err && !touches(*request, check, atime, old(self).slots()) ==> *final(self)
                == *old(self) && *final(dirty) == *old(dirty),
            r is Err ==> final(self).sorted_index == old(self).sorted_index,
            final(self).deserialized == old(self).deserialized,
            final(self).upgrade_packfile == old(self).upgrade_packfile,
    {
        let ghost s = self.slots();
        proof {
            reveal(put_result);
            reveal(put_marks);
        }
        if let Err(e) = check_put(request, check) {
            return Err(e);
        }
        // A forced write does not count as an access to what it replaces.
        let forced = request.force && request.payload.is_some();
        let hit = self.find(
            request.partition,
            request.address,
            StoreMatch::MatchFull,
            atime && !forced,
            request.now,
            dirty,
        );
        let (data, made) = match hit {
            Ok(hit) => hit,
            Err(e) => {
                return Err(e.forward());
            },
        };
        if !forced && made != StoreMatch::MatchNone && request.fragment.size_content != data.size_content
            && data.flags & PAYLOAD_OBLITERATED == 0 {
            return Err(StoreError::Internal(InternalError::HashCollision));
        }
        let ghost t = self.slots();
        proof {
            law_lookup_finds_the_best_match(
                s,
                request.partition,
                request.address,
                StoreMatch::MatchFull,
            );
            if !atime || forced {
                assert(t == s);
            }
        }
        let mut asked = *request;
        if made == StoreMatch::MatchFull {
            let new_payload = data.pack_file == 0 && request.payload.is_some();
            let local_to_durable = data.flags & PAYLOAD_STORED_DURABLE == 0
                && request.fragment.flags & PAYLOAD_STORED_DURABLE != 0;
            if !(new_payload || local_to_durable || request.force) {
                return Ok(StoreOutcome::Kept);
            }
            asked.fragment.flags = request.fragment.flags | (data.flags & PAYLOAD_STORED_DURABLE);
        }
        assert(asked == merged(*request, data, made));
        match self.store(&asked, dirty) {
            Ok(outcome) => Ok(outcome),
            Err(e) => Err(e.forward()),
        }
    }
}

/// A put never takes the durable flag from the entry at its address, be it forced or not.
pub proof fn law_put_keeps_durability(
    request: StoreRequest,
    check: Result<(), StoreError>,
    atime: bool,
    s: Seq<ImmutableStoreEntry>,
)
    requires
        sorted(s),
        data_at(s, request.partition, request.address) is Some,
        !is_obliterated(data_at(s, request.partition, request.address)->0),
        data_at(s, request.partition, request.address)->0.durable(),
    ensures
        data_at(
            put_result(request, check, atime, s).1,
            request.partition,
            request.address,
        ) is Some,
        data_at(
            put_result(request, check, atime, s).1,
            request.partition,
            request.address,
        )->0.durable(),
{
    reveal(put_result);
    let (p, a) = (request.partition, request.address);
    law_lookup_finds_the_best_match(s, p, a, StoreMatch::MatchFull);
    let (hit, t) = find_result(s, p, a, StoreMatch::MatchFull, atime, request.now);
    let (data, made) = hit->Ok_0;
    let slot = found(s, p, a, StoreMatch::MatchFull).0;
    assert forall|i: int, j: int| 0 <= i < j < t.len() implies (#[trigger] t[i]).key().before(
        (#[trigger] t[j]).key(),
    ) by {
        assert(s[i].key().before(s[j].key()));
    }
    lemma_search_by_keys(
        s,
        t,
        p,
        a,
        StoreMatch::MatchFull,
        0,
        s.len() as int,
        0,
        StoreMatch::MatchNone,
    );
    let forced = request.force && request.payload is Some;
    let from = if forced {
        s
    } else {
        t
    };
    law_every_entry_is_found(s, slot);
    law_every_entry_is_found(t, slot);
    let asked = inheriting(request, data);
    let d = data.flags;
    let f = request.fragment.flags;
    let g = asked.fragment.flags;
    let h = data_at(from, p, a)->0.flags;
    assert((f | (d & 0x0000_0200u32)) & 0x0000_0200u32 != 0) by (bit_vector)
        requires
            d & 0x0000_0200u32 != 0,
    ;
    assert(((h & !0x0000_0300u32) | (g & 0x0000_0300u32)) & 0x0000_0200u32 != 0) by (bit_vector)
        requires
            g & 0x0000_0200u32 != 0,
    ;
    law_store_keeps_the_order(asked, from);
    let after = asked.result(from).1;
    if asked.result(from).0 is Ok && asked.result(from).0->Ok_0 is Stored {
        law_stored_fragment_is_found(asked, from);
    } else {
        assert(after[slot].key() == from[slot].key());
        law_every_entry_is_found(after, slot);
    }
}

/// A put that succeeds, and has nothing left to write, leaves the address recorded.
pub proof fn law_put_fragment_is_found(
    request: StoreRequest,
    check: Result<(), StoreError>,
    atime: bool,
    s: Seq<ImmutableStoreEntry>,
)
    requires
        sorted(s),
        put_result(request, check, atime, s).0 is Ok,
        put_result(request, check, atime, s).0->Ok_0 != StoreOutcome::NeedsPayload,
    ensures
        sorted(put_result(request, check, atime, s).1),
        data_at(
            put_result(request, check, atime, s).1,
            request.partition,
            request.address,
        ) is Some,
{
    reveal(put_result);
    let (p, a) = (request.partition, request.address);
    law_lookup_finds_the_best_match(s, p, a, StoreMatch::MatchFull);
    let (hit, t) = find_result(s, p, a, StoreMatch::MatchFull, atime, request.now);
    let (data, made) = hit->Ok_0;
    assert forall|i: int, j: int| 0 <= i < j < t.len() implies (#[trigger] t[i]).key().before(
        (#[trigger] t[j]).key(),
    ) by {
        assert(s[i].key().before(s[j].key()));
    }
    lemma_search_by_keys(
        s,
        t,
        p,
        a,
        StoreMatch::MatchFull,
        0,
        s.len() as int,
        0,
        StoreMatch::MatchNone,
    );
    let from = if request.force && request.payload is Some {
        s
    } else {
        t
    };
    let asked = merged(request, data, made);
    law_lookup_finds_the_best_match(from, p, a, StoreMatch::MatchFull);
    law_store_keeps_the_order(asked, from);
    if asked.result(from).0 is Ok && asked.result(from).0->Ok_0 is Stored {
        law_stored_fragment_is_found(asked, from);
    }
    let slot = found(from, p, a, StoreMatch::MatchFull).0;
    if made == StoreMatch::MatchFull {
        law_every_entry_is_found(t, slot);
        if asked.result(from).0 is Ok && asked.result(from).0->Ok_0 is Kept {
            law_every_entry_is_found(asked.result(from).1, slot);
        }
    }
}

} // verus!
