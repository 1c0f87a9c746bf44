//! Copying an entry to another partition or context.
use vstd::prelude::*;

use crate::error::StoreError;
use crate::local::bucket::{
    data_at, found, law_every_entry_is_found, law_lookup_finds_the_best_match, lemma_found_entry,
    lemma_insert_keeps_sorted, lemma_not_found, sorted, ImmutableStoreBucket,
};
use crate::local::data::{
    law_copy_is_idempotent, law_copy_onto_itself_settles, ImmutableData, ImmutableStoreEntry,
};
use crate::types::{key_of, Address, Context, Partition, StoreMatch};

verus! {

/// An entry to copy, and where to. The hash stays the same, so that the copy lands in the bucket
/// of its source.
#[derive(Clone, Copy)]
pub struct CopyRequest {
    pub source_partition: Partition,
    pub source_address: Address,
    pub destination_partition: Partition,
    pub destination_context: Context,
    /// Whether the destination is known to be stored durably.
    pub durable: bool,
    /// The time to stamp on an entry that changes.
    pub now: u64,
}

impl CopyRequest {
    /// Where the copy is found.
    pub open spec fn destination(self) -> Address {
        Address { hash: self.source_address.hash, context: self.destination_context }
    }

    /// What is recorded at the source.
    pub open spec fn source(self, s: Seq<ImmutableStoreEntry>) -> Option<ImmutableData> {
        data_at(s, self.source_partition, self.source_address)
    }

    /// What is recorded at the destination.
    pub open spec fn target(self, s: Seq<ImmutableStoreEntry>) -> Option<ImmutableData> {
        data_at(s, self.destination_partition, self.destination())
    }

    /// What the copy records at the destination.
    pub open spec fn copied(self, s: Seq<ImmutableStoreEntry>) -> ImmutableData {
        match self.target(s) {
            Some(target) => {
                let merged = target.copied_from(self.source(s)->0, self.durable);
                if merged == target {
                    target
                } else {
                    ImmutableData { last_access: self.now, ..merged }
                }
            },
            None => ImmutableData {
                last_access: self.now,
                ..ImmutableData::zero().copied_from(self.source(s)->0, self.durable)
            },
        }
    }

    /// What the copy comes to, and the bucket that it leaves.
    pub open spec fn result(self, s: Seq<ImmutableStoreEntry>) -> (
        Result<(), StoreError>,
        Seq<ImmutableStoreEntry>,
    ) {
        let (slot, insert, made) = found(
            s,
            self.destination_partition,
            self.destination(),
            StoreMatch::MatchFull,
        );
        if self.source(s) is None {
            (Err(StoreError::AddressNotFound(self.source_address)), s)
        } else if self.target(s) is Some {
            (Ok(()), s.update(slot, s[slot].with_data(self.copied(s))))
        } else {
            (
                Ok(()),
                s.insert(
                    insert,
                    ImmutableStoreEntry {
                        address: self.destination(),
                        partition: self.destination_partition,
                        data: self.copied(s),
                    },
                ),
            )
        }
    }
}

impl ImmutableStoreBucket {
    /// Copies an entry within the bucket. Sets `dirty` where the bucket changed.
    pub fn copy(&mut self, request: &CopyRequest, dirty: &mut bool) -> (r: Result<(), StoreError>)
        requires
            old(self).wf(),
            old(self).entry@.len() < u32::MAX,
        ensures
            final(self).wf(),
            (r, final(self).slots()) == request.result(old(self).slots()),
            *final(dirty) == (*old(dirty) || (r is Ok && request.target(old(self).slots()) != Some(
                request.copied(old(self).slots()),
            ))),
            r is Err ==> *final(self) == *old(self),
            final(self).deserialized == old(self).deserialized,
            final(self).upgrade_packfile == old(self).upgrade_packfile,
    {
        let ghost s = self.slots();
        let destination = Address {
            hash: request.source_address.hash,
            context: request.destination_context,
        };
        let (source_slot, _, source_match) = self.lookup(
            request.source_partition,
            request.source_address,
            StoreMatch::MatchFull,
        );
        if source_match != StoreMatch::MatchFull {
            return Err(StoreError::AddressNotFound(request.source_address));
        }
        let source = self.at(source_slot).data;
        let (dest_slot, insert_slot, dest_match) = self.lookup(
            request.destination_partition,
            destination,
            StoreMatch::MatchFull,
        );
        if dest_match == StoreMatch::MatchFull {
            let before = self.at(dest_slot).data;
            let mut data = before;
            data.merge_from_copy_source(source, request.durable);
            if data != before {
                data.last_access = request.now;
                self.set_data(dest_slot, data);
                *dirty = true;
            }
            assert(self.slots() =~= request.result(s).1);
            return Ok(());
        }
        let mut data = ImmutableData::default();
        data.merge_from_copy_source(source, request.durable);
        data.last_access = request.now;
        let entry = ImmutableStoreEntry {
            address: destination,
            partition: request.destination_partition,
            data,
        };
        assert(entry.key() == key_of(request.destination_partition, destination));
        self.insert_at(insert_slot, entry);
        assert(self.slots().len() != s.len());
        *dirty = true;
        Ok(())
    }
}

/// The bucket that a copy leaves is sorted.
pub proof fn law_copy_keeps_the_order(request: CopyRequest, s: Seq<ImmutableStoreEntry>)
    requires
        sorted(s),
    ensures
        sorted(request.result(s).1),
{
    let (p, d) = (request.destination_partition, request.destination());
    law_lookup_finds_the_best_match(s, p, d, StoreMatch::MatchFull);
    let after = request.result(s).1;
    let (slot, insert, made) = found(s, p, d, StoreMatch::MatchFull);
    if request.source(s) is Some && request.target(s) is None {
        assert(after[insert].key() == key_of(p, d));
        lemma_insert_keeps_sorted(s, insert, after[insert]);
    } else {
        assert forall|i: int, j: int| 0 <= i < j < after.len() implies (
        #[trigger] after[i]).key().before((#[trigger] after[j]).key()) by {
            assert(s[i].key().before(s[j].key()));
        }
    }
}

/// After a copy the destination has the payload and the content size of the source.
pub proof fn law_copy_is_found(request: CopyRequest, s: Seq<ImmutableStoreEntry>)
    requires
        sorted(s),
        request.source(s) is Some,
    ensures
        request.result(s).0 is Ok,
        request.target(request.result(s).1) == Some(request.copied(s)),
        request.copied(s).pack_file == request.source(s)->0.pack_file,
        request.copied(s).pack_offset == request.source(s)->0.pack_offset,
        request.copied(s).size_payload == request.source(s)->0.size_payload,
        request.copied(s).size_content == request.source(s)->0.size_content,
{
    let (p, d) = (request.destination_partition, request.destination());
    law_lookup_finds_the_best_match(s, p, d, StoreMatch::MatchFull);
    law_copy_keeps_the_order(request, s);
    let after = request.result(s).1;
    let (slot, insert, made) = found(s, p, d, StoreMatch::MatchFull);
    if request.target(s) is Some {
        law_every_entry_is_found(after, slot);
    } else {
        law_every_entry_is_found(after, insert);
    }
}

/// A copy leaves every other address as it was, its source among them.
pub proof fn law_copy_leaves_other_addresses(
    request: CopyRequest,
    s: Seq<ImmutableStoreEntry>,
    partition: Partition,
    address: Address,
)
    requires
        sorted(s),
        key_of(partition, address) != key_of(request.destination_partition, request.destination()),
    ensures
        data_at(request.result(s).1, partition, address) == data_at(s, partition, address),
{
    let (p, d) = (request.destination_partition, request.destination());
    law_lookup_finds_the_best_match(s, p, d, StoreMatch::MatchFull);
    law_copy_keeps_the_order(request, s);
    let after = request.result(s).1;
    let (slot, insert, made) = found(s, p, d, StoreMatch::MatchFull);
    let grown = after.len() > s.len();
    if data_at(s, partition, address) is Some {
        lemma_found_entry(s, partition, address);
        let was = found(s, partition, address, StoreMatch::MatchFull).0;
        let now = if grown && was >= insert { was + 1 } else { was };
        assert(after[now] == s[was]);
        law_every_entry_is_found(after, now);
    } else if data_at(after, partition, address) is Some {
        lemma_not_found(s, partition, address);
        lemma_found_entry(after, partition, address);
        let now = found(after, partition, address, StoreMatch::MatchFull).0;
        let was = if grown && now > insert { now - 1 } else { now };
        assert(after[now].key() == s[was].key());
    }
}

/// Making the same copy again, at whatever time, changes nothing, also where it is a copy onto its
/// own source.
pub proof fn law_copying_twice_is_copying_once(
    request: CopyRequest,
    s: Seq<ImmutableStoreEntry>,
    later: u64,
)
    requires
        sorted(s),
    ensures
        (CopyRequest { now: later, ..request }).result(request.result(s).1).1 == request.result(
            s,
        ).1,
{
    let again = CopyRequest { now: later, ..request };
    let after = request.result(s).1;
    let own = key_of(request.source_partition, request.source_address) == key_of(
        request.destination_partition,
        request.destination(),
    );
    law_copy_keeps_the_order(request, s);
    if !own {
        law_copy_leaves_other_addresses(
            request,
            s,
            request.source_partition,
            request.source_address,
        );
    }
    if request.source(s) is Some {
        law_copy_is_found(request, s);
        let source = request.source(s)->0;
        let (p, d) = (request.destination_partition, request.destination());
        let (slot, insert, made) = found(after, p, d, StoreMatch::MatchFull);
        lemma_found_entry(after, p, d);
        let zero = ImmutableData::zero();
        law_copy_is_idempotent(zero, source, request.durable);
        if request.target(s) is Some {
            law_copy_is_idempotent(request.target(s)->0, source, request.durable);
        }
        if own {
            law_copy_onto_itself_settles(source, request.durable, request.now);
        }
        assert(again.copied(after) == request.copied(s));
        assert(again.result(after).1 =~= after);
    }
}

} // verus!
