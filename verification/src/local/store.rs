//! Recording a fragment in its bucket.
use vstd::prelude::*;

use crate::error::{InternalError, LocalImmutableStoreError};
use crate::local::bucket::{
    data_at, found, law_every_entry_is_found, law_lookup_finds_the_best_match, lemma_found_entry,
    lemma_insert_keeps_sorted, lemma_not_found, lemma_search_by_keys, sorted, ImmutableStoreBucket,
};
use crate::local::data::{ImmutableData, ImmutableStoreEntry};
use crate::types::{
    key_of, Address, Fragment, PackRef, Partition, StoreMatch, PAYLOAD_OBLITERATED,
    PAYLOAD_STORED,
};

verus! {

/// A fragment to record. The payload itself goes to the pack files; the bucket learns its length
/// and, once it was written, its place.
#[derive(Clone, Copy)]
pub struct StoreRequest {
    pub partition: Partition,
    pub address: Address,
    pub fragment: Fragment,
    /// The length of the payload that came with the fragment.
    pub payload: Option<usize>,
    /// Whether to write the payload though one is there.
    pub force: bool,
    /// The most bytes that a payload may have.
    pub size_threshold: usize,
    /// Whether an entry may be recorded without a payload.
    pub allow_partial: bool,
    /// Where the payload was written, once it was.
    pub packed: Option<PackRef>,
    /// The time to stamp on the entry.
    pub now: u64,
}

/// How a request to record a fragment went.
#[derive(Clone, Copy, Debug, PartialEq, Eq, Structural)]
pub enum StoreOutcome {
    /// The fragment was there, and nothing more is to be written.
    Kept,
    /// The payload must be written to the pack files first. The request is made again with the
    /// place where it lies.
    NeedsPayload,
    /// The fragment was recorded with this data.
    Stored(ImmutableData),
}

/// Whether every entry from `slot` to `pivot`, the latter left out, has the hash.
pub open spec fn reached(
    s: Seq<ImmutableStoreEntry>,
    pivot: int,
    slot: int,
    hash: crate::types::Hash,
) -> bool {
    &&& slot != pivot
    &&& forall|k: int| slot <= k < pivot ==> (#[trigger] s[k]).address.hash == hash
    &&& forall|k: int| pivot < k <= slot ==> (#[trigger] s[k]).address.hash == hash
}

/// The entries of a bucket once the entries of `hash` around `pivot` share a payload.
pub open spec fn spread(
    s: Seq<ImmutableStoreEntry>,
    pivot: int,
    hash: crate::types::Hash,
    data: ImmutableData,
) -> Seq<ImmutableStoreEntry> {
    Seq::new(s.len(), |i: int| spread_one(s[i], reached(s, pivot, i, hash), data))
}

/// One entry of a bucket, once it shares a payload where it was reached.
pub open spec fn spread_one(
    entry: ImmutableStoreEntry,
    reached: bool,
    data: ImmutableData,
) -> ImmutableStoreEntry {
    if reached && (entry.data.pack_file != data.pack_file || entry.data.pack_offset
        != data.pack_offset) {
        entry.with_data(entry.data.deduplicated(data))
    } else {
        entry
    }
}

impl StoreRequest {
    /// Why the request is refused whatever the bucket holds.
    pub open spec fn invalid(self) -> Option<InternalError> {
        if self.fragment.size_payload == 0 {
            Some(InternalError::InvalidPayload)
        } else if self.fragment.size_payload as int > self.size_threshold as int {
            Some(InternalError::FragmentTooLarge)
        } else if self.payload is Some && self.payload->0 as int
            != self.fragment.size_payload as int {
            Some(InternalError::PayloadLengthMismatch)
        } else {
            None
        }
    }

    /// What a lookup of the address finds.
    pub open spec fn hit(self, s: Seq<ImmutableStoreEntry>) -> (int, int, StoreMatch) {
        found(s, self.partition, self.address, StoreMatch::MatchFull)
    }

    /// Whether some entry has the hash.
    pub open spec fn known(self, s: Seq<ImmutableStoreEntry>) -> bool {
        self.hit(s).2 != StoreMatch::MatchNone
    }

    /// Whether the very address is there.
    pub open spec fn exact(self, s: Seq<ImmutableStoreEntry>) -> bool {
        self.hit(s).2 == StoreMatch::MatchFull
    }

    /// The data of the entry that the lookup hit.
    pub open spec fn hit_data(self, s: Seq<ImmutableStoreEntry>) -> ImmutableData {
        s[self.hit(s).0].data
    }

    /// Whether the hash is taken by content of another size.
    pub open spec fn collides(self, s: Seq<ImmutableStoreEntry>) -> bool {
        self.known(s) && self.hit_data(s).size_content != self.fragment.size_content
            && self.hit_data(s).flags & PAYLOAD_OBLITERATED == 0
    }

    /// The flags of the entry at the very address, with the request's word on where it is stored.
    pub open spec fn restored_flags(self, s: Seq<ImmutableStoreEntry>) -> u32 {
        (self.hit_data(s).flags & !PAYLOAD_STORED) | (self.fragment.flags & PAYLOAD_STORED)
    }

    /// Whether the entry at the very address says something else about where it is stored.
    pub open spec fn restores(self, s: Seq<ImmutableStoreEntry>) -> bool {
        self.exact(s) && self.fragment.flags & PAYLOAD_STORED != self.hit_data(s).flags
            & PAYLOAD_STORED
    }

    /// The bucket once the entry at the very address took over where it is stored.
    pub open spec fn reflagged(self, s: Seq<ImmutableStoreEntry>) -> Seq<ImmutableStoreEntry> {
        let slot = self.hit(s).0;
        if self.restores(s) {
            s.update(
                slot,
                s[slot].with_data(
                    ImmutableData { flags: self.restored_flags(s), ..s[slot].data },
                ),
            )
        } else {
            s
        }
    }

    /// Whether the entry is there and no payload is to be written.
    pub open spec fn settled(self, s: Seq<ImmutableStoreEntry>) -> bool {
        self.exact(s) && ((!self.force && self.hit_data(s).pack_file != 0) || self.payload is None)
    }

    /// Whether the payload of the entry that was hit may be used.
    pub open spec fn reuses(self, s: Seq<ImmutableStoreEntry>) -> bool {
        self.known(s) && (!self.force || self.payload is None)
    }

    /// Whether the payload of the entry that was hit is used.
    pub open spec fn shares(self, s: Seq<ImmutableStoreEntry>) -> bool {
        self.reuses(s) && self.hit_data(s).pack_file != 0
    }

    /// Whether the payload must be written.
    pub open spec fn writes(self, s: Seq<ImmutableStoreEntry>) -> bool {
        self.payload is Some && !self.shares(s)
    }

    /// Whether an entry would be recorded without the payload that the store demands.
    pub open spec fn unproven(self, s: Seq<ImmutableStoreEntry>) -> bool {
        self.payload is None && self.hit(s).2.rank() < StoreMatch::MatchPartition.rank()
            && !self.allow_partial
    }

    /// The data to record.
    pub open spec fn record(self, s: Seq<ImmutableStoreEntry>) -> ImmutableData {
        let hit = self.hit_data(s);
        ImmutableData {
            flags: if self.shares(s) {
                (hit.flags & !PAYLOAD_STORED) | (self.fragment.flags & PAYLOAD_STORED)
            } else {
                self.fragment.flags
            },
            size_payload: if self.shares(s) {
                hit.size_payload
            } else {
                self.fragment.size_payload
            },
            size_content: self.fragment.size_content,
            pack_file: if self.shares(s) {
                hit.pack_file
            } else if self.writes(s) {
                self.packed->0.id
            } else {
                0
            },
            pack_offset: if self.writes(s) {
                self.packed->0.offset
            } else if self.reuses(s) {
                hit.pack_offset
            } else {
                0
            },
            last_access: self.now,
        }
    }

    /// The slot of the recorded entry.
    pub open spec fn own_slot(self, s: Seq<ImmutableStoreEntry>) -> int {
        if self.exact(s) {
            self.hit(s).0
        } else {
            self.hit(s).1
        }
    }

    /// The bucket with the entry in its slot.
    pub open spec fn placed(self, s: Seq<ImmutableStoreEntry>) -> Seq<ImmutableStoreEntry> {
        let entry = ImmutableStoreEntry {
            address: self.address,
            partition: self.partition,
            data: self.record(s),
        };
        if self.exact(s) {
            s.update(self.own_slot(s), entry)
        } else {
            s.insert(self.own_slot(s), entry)
        }
    }

    /// The bucket once the fragment was recorded: the other entries of its hash share its payload,
    /// where it has one.
    pub open spec fn stored(self, s: Seq<ImmutableStoreEntry>) -> Seq<ImmutableStoreEntry> {
        if self.record(s).pack_file != 0 {
            spread(self.placed(s), self.own_slot(s), self.address.hash, self.record(s))
        } else {
            self.placed(s)
        }
    }

    /// What the request comes to, and the bucket that it leaves.
    pub open spec fn result(self, s: Seq<ImmutableStoreEntry>) -> (
        Result<StoreOutcome, LocalImmutableStoreError>,
        Seq<ImmutableStoreEntry>,
    ) {
        if self.invalid() is Some {
            (Err(LocalImmutableStoreError::Internal(self.invalid()->0)), s)
        } else if self.collides(s) {
            (Err(LocalImmutableStoreError::Internal(InternalError::HashCollision)), s)
        } else if self.settled(s) {
            (Ok(StoreOutcome::Kept), self.reflagged(s))
        } else if self.unproven(s) {
            (Err(LocalImmutableStoreError::Internal(InternalError::PayloadRequired)), s)
        } else if self.writes(s) && self.packed is None {
            (Ok(StoreOutcome::NeedsPayload), self.reflagged(s))
        } else {
            (Ok(StoreOutcome::Stored(self.record(s))), self.stored(s))
        }
    }

    /// Checks that need no bucket.
    pub fn validate(&self) -> (r: Result<(), InternalError>)
        ensures
            r == match self.invalid() {
                Some(e) => Err::<(), InternalError>(e),
                None => Ok(()),
            },
    {
        if self.fragment.size_payload == 0 {
            return Err(InternalError::InvalidPayload);
        }
        if self.fragment.size_payload as u64 > self.size_threshold as u64 {
            return Err(InternalError::FragmentTooLarge);
        }
        if let Some(length) = self.payload {
            if length as u64 != self.fragment.size_payload as u64 {
                return Err(InternalError::PayloadLengthMismatch);
            }
        }
        Ok(())
    }
}

impl ImmutableStoreBucket {
    /// Makes the entries of a hash around a slot share a payload.
    fn spread_payload(&mut self, pivot: usize, hash: crate::types::Hash, data: ImmutableData)
        requires
            old(self).wf(),
            pivot < old(self).slots().len(),
        ensures
            final(self).wf(),
            final(self).slots() == spread(old(self).slots(), pivot as int, hash, data),
            final(self).deserialized == old(self).deserialized,
            final(self).upgrade_packfile == old(self).upgrade_packfile,
            final(self).entry@.len() == old(self).entry@.len(),
    {
        let ghost s = self.slots();
        let ghost goal = spread(s, pivot as int, hash, data);
        let count: usize = self.sorted_index.len();
        let mut slot: usize = pivot;
        while slot > 0
            invariant_except_break
                forall|i: int| slot <= i <= pivot ==> #[trigger] self.slots()[i] == goal[i],
                forall|i: int| slot <= i < pivot ==> (#[trigger] s[i]).address.hash == hash,
                forall|i: int| 0 <= i < slot ==> #[trigger] self.slots()[i] == s[i],
            invariant
                self.wf(),
                s.len() == count,
                goal == spread(s, pivot as int, hash, data),
                self.slots().len() == s.len(),
                self.entry@.len() == s.len(),
                slot <= pivot < count,
                forall|i: int| pivot < i < count ==> #[trigger] self.slots()[i] == s[i],
                self.deserialized == old(self).deserialized,
                self.upgrade_packfile == old(self).upgrade_packfile,
            ensures
                forall|i: int| 0 <= i <= pivot ==> #[trigger] self.slots()[i] == goal[i],
            decreases slot,
        {
            let entry = self.at(slot - 1);
            if entry.address.hash != hash {
                proof {
                    assert forall|i: int| 0 <= i <= pivot implies #[trigger] self.slots()[i]
                        == goal[i] by {
                        if i < slot {
                            assert(s[slot - 1].address.hash != hash);
                            assert(!reached(s, pivot as int, i, hash));
                        }
                    }
                }
                break ;
            }
            slot = slot - 1;
            assert(reached(s, pivot as int, slot as int, hash));
            if entry.data.pack_file != data.pack_file || entry.data.pack_offset
                != data.pack_offset {
                let mut shared = entry.data;
                shared.assign_deduplicated_payload(data);
                self.set_data(slot, shared);
            }
        }
        slot = pivot + 1;
        while slot < count
            invariant_except_break
                forall|i: int| 0 <= i < slot ==> #[trigger] self.slots()[i] == goal[i],
                forall|i: int| pivot < i < slot ==> (#[trigger] s[i]).address.hash == hash,
                forall|i: int| slot <= i < count ==> #[trigger] self.slots()[i] == s[i],
            invariant
                self.wf(),
                s.len() == count,
                goal == spread(s, pivot as int, hash, data),
                self.slots().len() == s.len(),
                self.entry@.len() == s.len(),
                pivot < slot <= count,
                self.deserialized == old(self).deserialized,
                self.upgrade_packfile == old(self).upgrade_packfile,
            ensures
                forall|i: int| 0 <= i < count ==> #[trigger] self.slots()[i] == goal[i],
            decreases count - slot,
        {
            let entry = self.at(slot);
            if entry.address.hash != hash {
                proof {
                    assert forall|i: int| 0 <= i < count implies #[trigger] self.slots()[i]
                        == goal[i] by {
                        if i >= slot {
                            assert(s[slot as int].address.hash != hash);
                            assert(!reached(s, pivot as int, i, hash));
                        }
                    }
                }
                break ;
            }
            assert(reached(s, pivot as int, slot as int, hash));
            if entry.data.pack_file != data.pack_file || entry.data.pack_offset
                != data.pack_offset {
                let mut shared = entry.data;
                shared.assign_deduplicated_payload(data);
                self.set_data(slot, shared);
            }
            slot = slot + 1;
        }
        assert(self.slots() =~= goal);
    }

    /// Records a fragment. Sets `dirty` where an entry changed. The payload is taken to have the
    /// hash of the address: nothing is hashed here.
    pub fn store(&mut self, request: &StoreRequest, dirty: &mut bool) -> (r: Result<
        StoreOutcome,
        LocalImmutableStoreError,
    >)
        requires
            old(self).wf(),
            old(self).entry@.len() < u32::MAX,
        ensures
            final(self).wf(),
            (r, final(self).slots()) == request.result(old(self).slots()),
            *final(dirty) == (*old(dirty) || final(self).slots() != old(self).slots() || (r is Ok
                && r->Ok_0 is Stored)),
            r is Err ==> *final(self) == *old(self) && *final(dirty) == *old(dirty),
            final(self).deserialized == old(self).deserialized,
            final(self).upgrade_packfile == old(self).upgrade_packfile,
    {
        let ghost s = self.slots();
        match request.validate() {
            Err(e) => {
                return Err(LocalImmutableStoreError::Internal(e));
            },
            Ok(()) => {},
        }
        let (match_slot, insert_slot, match_made) = self.lookup(
            request.partition,
            request.address,
            StoreMatch::MatchFull,
        );
        let matched_hash = match_made != StoreMatch::MatchNone;
        let matched_partition = match_made == StoreMatch::MatchPartition || match_made
            == StoreMatch::MatchFull;
        let mut size_payload: u32 = request.fragment.size_payload;
        let mut flags: u32 = request.fragment.flags;
        let mut pack_file: u32 = 0;
        let mut pack_offset: u32 = 0;
        if matched_hash {
            let data = self.at(match_slot).data;
            if data.size_content != request.fragment.size_content && data.flags
                & PAYLOAD_OBLITERATED == 0 {
                return Err(LocalImmutableStoreError::Internal(InternalError::HashCollision));
            }
            if match_made == StoreMatch::MatchFull {
                if request.fragment.flags & PAYLOAD_STORED != data.flags & PAYLOAD_STORED {
                    let mut restored = data;
                    restored.flags = (data.flags & !PAYLOAD_STORED) | (request.fragment.flags
                        & PAYLOAD_STORED);
                    proof {
                        lemma_restored_flags_differ(data.flags, request.fragment.flags);
                    }
                    self.set_data(match_slot, restored);
                    assert(self.slots()[match_slot as int] != s[match_slot as int]);
                    *dirty = true;
                }
                assert(self.slots() == request.reflagged(s));
                if (!request.force && data.pack_file != 0) || request.payload.is_none() {
                    return Ok(StoreOutcome::Kept);
                }
            }
            if !request.force || request.payload.is_none() {
                pack_file = data.pack_file;
                pack_offset = data.pack_offset;
                if pack_file != 0 {
                    flags = (data.flags & !PAYLOAD_STORED) | (request.fragment.flags
                        & PAYLOAD_STORED);
                    size_payload = data.size_payload;
                }
            }
        }
        if request.payload.is_some() {
            if pack_file == 0 {
                match request.packed {
                    Some(packref) => {
                        pack_file = packref.id;
                        pack_offset = packref.offset;
                    },
                    None => {
                        return Ok(StoreOutcome::NeedsPayload);
                    },
                }
            }
        } else if !matched_partition && !request.allow_partial {
            return Err(LocalImmutableStoreError::Internal(InternalError::PayloadRequired));
        }
        let data = ImmutableData {
            flags,
            size_payload,
            size_content: request.fragment.size_content,
            pack_offset,
            pack_file,
            last_access: request.now,
        };
        assert(data == request.record(s));
        let own_slot: usize = if match_made == StoreMatch::MatchFull {
            match_slot
        } else {
            insert_slot
        };
        if match_made == StoreMatch::MatchFull {
            self.set_data(own_slot, data);
        } else {
            let entry = ImmutableStoreEntry {
                address: request.address,
                partition: request.partition,
                data,
            };
            assert(entry.key() == key_of(request.partition, request.address));
            self.insert_at(own_slot, entry);
        }
        assert(self.slots() =~= request.placed(s));
        if data.pack_file != 0 {
            self.spread_payload(own_slot, request.address.hash, data);
        }
        *dirty = true;
        Ok(StoreOutcome::Stored(data))
    }
}

/// The bucket that a request leaves is sorted.
pub proof fn law_store_keeps_the_order(request: StoreRequest, s: Seq<ImmutableStoreEntry>)
    requires
        sorted(s),
    ensures
        sorted(request.result(s).1),
{
    law_lookup_finds_the_best_match(s, request.partition, request.address, StoreMatch::MatchFull);
    let reflagged = request.reflagged(s);
    let placed = request.placed(s);
    assert forall|i: int, j: int| 0 <= i < j < reflagged.len() implies (
    #[trigger] reflagged[i]).key().before((#[trigger] reflagged[j]).key()) by {
        assert(s[i].key().before(s[j].key()));
    }
    if request.exact(s) {
        assert forall|i: int, j: int| 0 <= i < j < placed.len() implies (
        #[trigger] placed[i]).key().before((#[trigger] placed[j]).key()) by {
            assert(s[i].key().before(s[j].key()));
        }
    } else {
        let entry = placed[request.own_slot(s)];
        assert(entry.key() == key_of(request.partition, request.address));
        lemma_insert_keeps_sorted(s, request.own_slot(s), entry);
    }
    let stored = request.stored(s);
    assert forall|i: int, j: int| 0 <= i < j < stored.len() implies (
    #[trigger] stored[i]).key().before((#[trigger] stored[j]).key()) by {
        assert(placed[i].key().before(placed[j].key()));
    }
}

/// A fragment that was recorded is found at its address, with the data that was recorded.
pub proof fn law_stored_fragment_is_found(request: StoreRequest, s: Seq<ImmutableStoreEntry>)
    requires
        sorted(s),
        request.result(s).0 is Ok,
        request.result(s).0->Ok_0 is Stored,
    ensures
        data_at(request.result(s).1, request.partition, request.address) == Some(
            request.record(s),
        ),
        request.result(s).0 == Ok::<StoreOutcome, LocalImmutableStoreError>(
            StoreOutcome::Stored(request.record(s)),
        ),
{
    law_lookup_finds_the_best_match(s, request.partition, request.address, StoreMatch::MatchFull);
    law_store_keeps_the_order(request, s);
    let after = request.result(s).1;
    let own = request.own_slot(s);
    assert(after[own] == request.placed(s)[own]);
    law_every_entry_is_found(after, own);
}

/// Once a fragment with a payload was recorded, every entry of its hash has that payload.
pub proof fn law_one_hash_shares_one_payload(request: StoreRequest, s: Seq<ImmutableStoreEntry>)
    requires
        sorted(s),
        request.result(s).0 is Ok,
        request.result(s).0->Ok_0 is Stored,
        request.record(s).pack_file != 0,
    ensures
        forall|i: int|
            0 <= i < request.result(s).1.len() && (
            #[trigger] request.result(s).1[i]).address.hash == request.address.hash ==> {
                &&& request.result(s).1[i].data.pack_file == request.record(s).pack_file
                &&& request.result(s).1[i].data.pack_offset == request.record(s).pack_offset
            },
{
    law_lookup_finds_the_best_match(s, request.partition, request.address, StoreMatch::MatchFull);
    law_store_keeps_the_order(request, s);
    let placed = request.placed(s);
    let own = request.own_slot(s);
    let hash = request.address.hash;
    let entry = placed[own];
    assert(entry.key() == key_of(request.partition, request.address));
    if request.exact(s) {
        assert forall|i: int, j: int| 0 <= i < j < placed.len() implies (
        #[trigger] placed[i]).key().before((#[trigger] placed[j]).key()) by {
            assert(s[i].key().before(s[j].key()));
        }
    } else {
        lemma_insert_keeps_sorted(s, own, entry);
    }
    assert forall|i: int|
        0 <= i < request.result(s).1.len() && (#[trigger] request.result(s).1[i]).address.hash
            == request.address.hash implies request.result(s).1[i].data.pack_file == request.record(
        s,
    ).pack_file && request.result(s).1[i].data.pack_offset == request.record(s).pack_offset by {
        if i != own {
            assert(placed[i].address.hash == hash);
            assert forall|k: int| i <= k < own implies (#[trigger] placed[k]).address.hash
                == hash by {
                assert(placed[k].key().before(placed[own].key()));
                if i < k {
                    assert(placed[i].key().before(placed[k].key()));
                }
            }
            assert forall|k: int| own < k <= i implies (#[trigger] placed[k]).address.hash
                == hash by {
                assert(placed[own].key().before(placed[k].key()));
                if k < i {
                    assert(placed[k].key().before(placed[i].key()));
                }
            }
            assert(reached(placed, own, i, hash));
        }
    }
}

/// A request leaves what is recorded at every address of another hash as it was.
pub proof fn law_store_leaves_other_hashes(
    request: StoreRequest,
    s: Seq<ImmutableStoreEntry>,
    partition: Partition,
    address: Address,
)
    requires
        sorted(s),
        address.hash != request.address.hash,
    ensures
        data_at(request.result(s).1, partition, address) == data_at(s, partition, address),
{
    law_lookup_finds_the_best_match(s, request.partition, request.address, StoreMatch::MatchFull);
    law_store_keeps_the_order(request, s);
    let after = request.result(s).1;
    lemma_kept_slots(request, s);
    if data_at(s, partition, address) is Some {
        lemma_found_entry(s, partition, address);
        let slot = found(s, partition, address, StoreMatch::MatchFull).0;
        let now = kept_slot(request, s, slot);
        assert(after[now] == s[slot]);
        law_every_entry_is_found(after, now);
    } else if data_at(after, partition, address) is Some {
        lemma_not_found(s, partition, address);
        lemma_found_entry(after, partition, address);
        let now = found(after, partition, address, StoreMatch::MatchFull).0;
        let grown = after.len() > s.len();
        let slot = if grown && now > request.own_slot(s) { now - 1 } else { now };
        if !(grown && now == request.own_slot(s)) {
            assert(kept_slot(request, s, slot) == now);
            assert(after[now].key() == s[slot].key());
        }
    }
}

/// A request never loses an address: what was recorded in a bucket stays recorded, with the same
/// content size.
pub proof fn law_store_loses_nothing(
    request: StoreRequest,
    s: Seq<ImmutableStoreEntry>,
    partition: Partition,
    address: Address,
)
    requires
        sorted(s),
        data_at(s, partition, address) is Some,
    ensures
        data_at(request.result(s).1, partition, address) is Some,
        key_of(partition, address) != key_of(request.partition, request.address) ==> {
            let before = data_at(s, partition, address)->0;
            let after = data_at(request.result(s).1, partition, address)->0;
            after == before || (request.record(s).pack_file != 0 && after == before.deduplicated(
                request.record(s),
            ))
        },
{
    law_lookup_finds_the_best_match(s, request.partition, request.address, StoreMatch::MatchFull);
    law_store_keeps_the_order(request, s);
    lemma_kept_slots(request, s);
    lemma_found_entry(s, partition, address);
    let slot = found(s, partition, address, StoreMatch::MatchFull).0;
    let now = kept_slot(request, s, slot);
    law_every_entry_is_found(request.result(s).1, now);
}

/// A request records its own address and no other: an address that was not recorded before is not
/// recorded after.
pub proof fn law_store_adds_only_its_address(
    request: StoreRequest,
    s: Seq<ImmutableStoreEntry>,
    partition: Partition,
    address: Address,
)
    requires
        sorted(s),
        partition != request.partition || address != request.address,
        data_at(s, partition, address) is None,
    ensures
        data_at(request.result(s).1, partition, address) is None,
{
    law_lookup_finds_the_best_match(s, request.partition, request.address, StoreMatch::MatchFull);
    law_store_keeps_the_order(request, s);
    lemma_kept_slots(request, s);
    let after = request.result(s).1;
    if data_at(after, partition, address) is Some {
        lemma_not_found(s, partition, address);
        lemma_found_entry(after, partition, address);
        let now = found(after, partition, address, StoreMatch::MatchFull).0;
        let grown = after.len() > s.len();
        let slot = if grown && now > request.own_slot(s) { now - 1 } else { now };
        if !(grown && now == request.own_slot(s)) {
            assert(kept_slot(request, s, slot) == now);
            assert(after[now].key() == s[slot].key());
        }
    }
}

/// A request that goes through has the last word on where the fragment is stored: the entry at its
/// address has the stored flags of the request, whether it was there before or not. An entry that was
/// there, and needed no payload, changes in nothing else.
pub proof fn law_request_says_where_it_is_stored(request: StoreRequest, s: Seq<ImmutableStoreEntry>)
    requires
        sorted(s),
        request.result(s).0 is Ok,
        request.result(s).0->Ok_0 != StoreOutcome::NeedsPayload,
    ensures
        ({
            let before = data_at(s, request.partition, request.address);
            let after = data_at(request.result(s).1, request.partition, request.address);
            &&& after is Some
            &&& after->0.flags & PAYLOAD_STORED == request.fragment.flags & PAYLOAD_STORED
            &&& request.result(s).0->Ok_0 is Kept ==> before is Some && after->0.flags
                & !PAYLOAD_STORED == before->0.flags & !PAYLOAD_STORED && after->0 == (
            ImmutableData { flags: after->0.flags, ..before->0 })
        }),
{
    law_lookup_finds_the_best_match(s, request.partition, request.address, StoreMatch::MatchFull);
    law_store_keeps_the_order(request, s);
    let after = request.result(s).1;
    lemma_taken_over(request.hit_data(s).flags, request.fragment.flags);
    if request.result(s).0->Ok_0 is Stored {
        law_stored_fragment_is_found(request, s);
    } else {
        law_every_entry_is_found(s, request.hit(s).0);
        law_every_entry_is_found(after, request.hit(s).0);
    }
}

/// Flags that are taken over.
proof fn lemma_taken_over(h: u32, g: u32)
    by (bit_vector)
    ensures
        ((h & !0x300u32) | (g & 0x300u32)) & 0x300u32 == g & 0x300u32,
        ((h & !0x300u32) | (g & 0x300u32)) & !0x300u32 == h & !0x300u32,
{
}

/// A request that had to wait for its payload ends, once the payload was written, as it would have
/// with the payload written before.
pub proof fn law_waiting_for_the_payload_changes_nothing(
    request: StoreRequest,
    s: Seq<ImmutableStoreEntry>,
    packed: PackRef,
)
    requires
        sorted(s),
        request.result(s).0 == Ok::<StoreOutcome, LocalImmutableStoreError>(
            StoreOutcome::NeedsPayload,
        ),
    ensures
        (StoreRequest { packed: Some(packed), ..request }).result(request.result(s).1) == (
        StoreRequest { packed: Some(packed), ..request }).result(s),
{
    law_lookup_finds_the_best_match(s, request.partition, request.address, StoreMatch::MatchFull);
    let waited = request.result(s).1;
    let again = StoreRequest { packed: Some(packed), ..request };
    let slot = request.hit(s).0;
    lemma_search_by_keys(
        s,
        waited,
        request.partition,
        request.address,
        StoreMatch::MatchFull,
        0,
        s.len() as int,
        0,
        StoreMatch::MatchNone,
    );
    if request.restores(s) {
        let a = s[slot].data.flags;
        let b = request.fragment.flags;
        assert(((a & !0x0000_0300u32) | (b & 0x0000_0300u32)) & 0x0000_1000u32 == a & 0x0000_1000u32)
            by (bit_vector);
        assert(again.placed(waited) =~= again.placed(s));
    }
    assert(again.record(waited) == again.record(s));
}

/// The slot that an entry has after a request.
spec fn kept_slot(request: StoreRequest, s: Seq<ImmutableStoreEntry>, slot: int) -> int {
    if request.result(s).1.len() > s.len() && slot >= request.own_slot(s) {
        slot + 1
    } else {
        slot
    }
}

/// What becomes of the entries that were there.
proof fn lemma_kept_slots(request: StoreRequest, s: Seq<ImmutableStoreEntry>)
    requires
        sorted(s),
    ensures
        forall|i: int|
            0 <= i < s.len() ==> {
                let now = #[trigger] kept_slot(request, s, i);
                let after = request.result(s).1;
                &&& 0 <= now < after.len()
                &&& after[now].key() == s[i].key()
                &&& s[i].address.hash != request.address.hash ==> after[now] == s[i]
                &&& s[i].key() != key_of(request.partition, request.address) ==> (after[now].data
                    == s[i].data || (request.record(s).pack_file != 0 && after[now].data
                    == s[i].data.deduplicated(request.record(s))))
            },
        request.result(s).1.len() > s.len() ==> request.result(s).1.len() == s.len() + 1
            && request.result(s).1[request.own_slot(s)].key() == key_of(
            request.partition,
            request.address,
        ),
{
    law_lookup_finds_the_best_match(s, request.partition, request.address, StoreMatch::MatchFull);
}

/// Taking over other stored flags changes the flags.
proof fn lemma_restored_flags_differ(own: u32, other: u32)
    requires
        other & PAYLOAD_STORED != own & PAYLOAD_STORED,
    ensures
        (own & !PAYLOAD_STORED) | (other & PAYLOAD_STORED) != own,
{
    assert(other & 0x0000_0300u32 != own & 0x0000_0300u32 ==> (own & !0x0000_0300u32) | (other
        & 0x0000_0300u32) != own) by (bit_vector);
}

} // verus!
