//! Obliterating an entry for good.
use vstd::prelude::*;

use crate::error::StoreError;
use crate::local::bucket::{
    data_at, found, law_every_entry_is_found, law_lookup_finds_the_best_match, sorted,
    ImmutableStoreBucket,
};
use crate::local::data::{ImmutableData, ImmutableStoreEntry};
use crate::local::find::{is_obliterated, obliterated_data};
use crate::types::{
    counted, Address, Partition, StoreMatch, PAYLOAD_FRAGMENTED, PAYLOAD_OBLITERATED,
};

verus! {

/// How much was obliterated.
#[derive(Clone, Copy, Debug, PartialEq, Eq, Structural)]
pub struct StoreObliterateStats {
    pub num_fragments: u64,
    pub num_payloads: u64,
}

/// How a request to obliterate an entry went.
#[derive(Clone, Copy, Debug, PartialEq, Eq, Structural)]
pub enum ObliterateOutcome {
    /// The entry was obliterated before.
    AlreadyGone,
    /// The payload that lies here has no other use and must be erased first. The request is made
    /// again once it was.
    ErasePayload(ImmutableData),
    /// The entry is obliterated.
    Obliterated,
}

/// Whether no other entry of the hash is alive.
pub open spec fn is_last(s: Seq<ImmutableStoreEntry>, slot: int) -> bool {
    forall|i: int|
        0 <= i < s.len() && i != slot && (#[trigger] s[i]).address.hash == s[slot].address.hash
            ==> s[i].data.flags == PAYLOAD_OBLITERATED
}

/// What a request to obliterate comes to, and the bucket that it leaves. `erased` says that the
/// payload is gone already.
pub open spec fn obliterate_result(
    s: Seq<ImmutableStoreEntry>,
    partition: Partition,
    address: Address,
    erased: bool,
) -> (Result<ObliterateOutcome, StoreError>, Seq<ImmutableStoreEntry>) {
    let (slot, insert, made) = found(s, partition, address, StoreMatch::MatchFull);
    if made != StoreMatch::MatchFull {
        (Err(StoreError::AddressNotFound(address)), s)
    } else if is_obliterated(s[slot].data) {
        (Ok(ObliterateOutcome::AlreadyGone), s)
    } else if is_last(s, slot) && s[slot].data.pack_file != 0 && !erased {
        (Ok(ObliterateOutcome::ErasePayload(s[slot].data)), s)
    } else {
        (
            Ok(ObliterateOutcome::Obliterated),
            s.update(slot, s[slot].with_data(obliterated_data())),
        )
    }
}

/// The data of an entry that lists other fragments, which go before it; nothing where it lists none.
pub open spec fn children_in(
    s: Seq<ImmutableStoreEntry>,
    partition: Partition,
    address: Address,
) -> Result<Option<ImmutableData>, StoreError> {
    let data = data_at(s, partition, address);
    if data is None {
        Err(StoreError::AddressNotFound(address))
    } else if data->0.flags & PAYLOAD_FRAGMENTED == 0 {
        Ok(None)
    } else {
        Ok(data)
    }
}

impl ImmutableStoreBucket {
    /// The data of an entry to obliterate, where its payload lists other fragments that are to be
    /// obliterated first.
    pub fn obliterate_children(&self, partition: Partition, address: Address) -> (r: Result<
        Option<ImmutableData>,
        StoreError,
    >)
        requires
            self.wf(),
        ensures
            r == match data_at(self.slots(), partition, address) {
                None => Err::<Option<ImmutableData>, StoreError>(
                    StoreError::AddressNotFound(address),
                ),
                Some(data) => Ok(
                    if data.flags & PAYLOAD_FRAGMENTED != 0 {
                        Some(data)
                    } else {
                        None
                    },
                ),
            },
            r == children_in(self.slots(), partition, address),
    {
        let (slot, _, made) = self.lookup(partition, address, StoreMatch::MatchFull);
        if made != StoreMatch::MatchFull {
            return Err(StoreError::AddressNotFound(address));
        }
        let data = self.at(slot).data;
        if data.flags & PAYLOAD_FRAGMENTED != 0 {
            Ok(Some(data))
        } else {
            Ok(None)
        }
    }

    /// Whether no other entry has the hash of this one and is alive.
    fn is_last_fragment(&self, slot: usize) -> (r: bool)
        requires
            self.wf(),
            slot < self.slots().len(),
        ensures
            r == is_last(self.slots(), slot as int),
    {
        let hash = self.at(slot).address.hash;
        let ghost s = self.slots();
        let mut previous: usize = slot;
        while previous > 0
            invariant_except_break
                forall|i: int|
                    previous <= i < slot ==> (#[trigger] s[i]).data.flags == PAYLOAD_OBLITERATED,
            invariant
                self.wf(),
                s == self.slots(),
                previous <= slot < s.len(),
                hash == s[slot as int].address.hash,
            ensures
                forall|i: int|
                    0 <= i < slot && (#[trigger] s[i]).address.hash == hash ==> s[i].data.flags
                        == PAYLOAD_OBLITERATED,
            decreases previous,
        {
            let entry = self.at(previous - 1);
            if entry.address.hash != hash {
                proof {
                    assert forall|i: int|
                        0 <= i < slot && (#[trigger] s[i]).address.hash == hash implies s[i].data.flags
                        == PAYLOAD_OBLITERATED by {
                        if i < previous {
                            assert(s[previous - 1].key().before(s[slot as int].key()));
                            if i < previous - 1 {
                                assert(s[i].key().before(s[previous - 1].key()));
                            }
                        }
                    }
                }
                break ;
            }
            if entry.data.flags != PAYLOAD_OBLITERATED {
                return false;
            }
            previous = previous - 1;
        }
        let count: usize = self.sorted_index.len();
        let mut next: usize = slot + 1;
        while next < count
            invariant_except_break
                forall|i: int|
                    slot < i < next ==> (#[trigger] s[i]).data.flags == PAYLOAD_OBLITERATED,
            invariant
                self.wf(),
                s == self.slots(),
                count == s.len(),
                slot < next <= count,
                hash == s[slot as int].address.hash,
                forall|i: int|
                    0 <= i < slot && (#[trigger] s[i]).address.hash == hash ==> s[i].data.flags
                        == PAYLOAD_OBLITERATED,
            ensures
                forall|i: int|
                    slot < i < count && (#[trigger] s[i]).address.hash == hash ==> s[i].data.flags
                        == PAYLOAD_OBLITERATED,
            decreases count - next,
        {
            let entry = self.at(next);
            if entry.address.hash != hash {
                proof {
                    assert forall|i: int|
                        slot < i < count && (#[trigger] s[i]).address.hash
                            == hash implies s[i].data.flags == PAYLOAD_OBLITERATED by {
                        if i >= next {
                            assert(s[slot as int].key().before(s[next as int].key()));
                            if i > next {
                                assert(s[next as int].key().before(s[i].key()));
                            }
                        }
                    }
                }
                break ;
            }
            if entry.data.flags != PAYLOAD_OBLITERATED {
                return false;
            }
            next = next + 1;
        }
        true
    }

    /// Obliterates an entry whose listed fragments are gone. A payload that no other entry uses is
    /// erased from the pack files first: `erased` says that it was.
    pub fn obliterate(
        &mut self,
        partition: Partition,
        address: Address,
        erased: bool,
        stats: &mut StoreObliterateStats,
        dirty: &mut bool,
    ) -> (r: Result<ObliterateOutcome, StoreError>)
        requires
            old(self).wf(),
        ensures
            final(self).wf(),
            (r, final(self).slots()) == obliterate_result(
                old(self).slots(),
                partition,
                address,
                erased,
            ),
            *final(stats) == (StoreObliterateStats {
                num_fragments: if r is Ok && r->Ok_0 is Obliterated {
                    counted(old(stats).num_fragments)
                } else {
                    old(stats).num_fragments
                },
                num_payloads: if r is Ok && r->Ok_0 is ErasePayload {
                    counted(old(stats).num_payloads)
                } else {
                    old(stats).num_payloads
                },
            }),
            *final(dirty) == (*old(dirty) || (r is Ok && r->Ok_0 is Obliterated)),
            !(r is Ok && r->Ok_0 is Obliterated) ==> *final(self) == *old(self),
            final(self).sorted_index == old(self).sorted_index,
            final(self).deserialized == old(self).deserialized,
            final(self).upgrade_packfile == old(self).upgrade_packfile,
            final(self).entry@.len() == old(self).entry@.len(),
    {
        let (slot, _, made) = self.lookup(partition, address, StoreMatch::MatchFull);
        if made != StoreMatch::MatchFull {
            return Err(StoreError::AddressNotFound(address));
        }
        let data = self.at(slot).data;
        let last = self.is_last_fragment(slot);
        if data.flags & PAYLOAD_OBLITERATED == PAYLOAD_OBLITERATED {
            return Ok(ObliterateOutcome::AlreadyGone);
        }
        if last && data.pack_file != 0 && !erased {
            stats.num_payloads = stats.num_payloads.wrapping_add(1);
            return Ok(ObliterateOutcome::ErasePayload(data));
        }
        stats.num_fragments = stats.num_fragments.wrapping_add(1);
        let mut gone = ImmutableData::default();
        gone.flags = PAYLOAD_OBLITERATED;
        self.set_data(slot, gone);
        *dirty = true;
        Ok(ObliterateOutcome::Obliterated)
    }
}

/// An obliterated entry is still there, without a payload, and obliterating it again does nothing.
pub proof fn law_obliterated_stays_obliterated(
    s: Seq<ImmutableStoreEntry>,
    partition: Partition,
    address: Address,
    erased: bool,
    erased_later: bool,
)
    requires
        sorted(s),
        obliterate_result(s, partition, address, erased).0 == Ok::<ObliterateOutcome, StoreError>(
            ObliterateOutcome::Obliterated,
        ),
    ensures
        ({
            let after = obliterate_result(s, partition, address, erased).1;
            &&& sorted(after)
            &&& data_at(after, partition, address) == Some(obliterated_data())
            &&& obliterate_result(after, partition, address, erased_later) == (
                Ok::<ObliterateOutcome, StoreError>(ObliterateOutcome::AlreadyGone),
                after,
            )
        }),
{
    law_lookup_finds_the_best_match(s, partition, address, StoreMatch::MatchFull);
    let after = obliterate_result(s, partition, address, erased).1;
    let slot = found(s, partition, address, StoreMatch::MatchFull).0;
    assert forall|i: int, j: int| 0 <= i < j < after.len() implies (#[trigger] after[i]).key().before(
        (#[trigger] after[j]).key(),
    ) by {
        assert(s[i].key().before(s[j].key()));
    }
    law_every_entry_is_found(after, slot);
    assert(0x0000_1000u32 & 0x0000_1000u32 == 0x0000_1000u32) by (bit_vector);
}

/// A payload that another living entry of the hash may use is never erased.
pub proof fn law_shared_payload_is_not_erased(
    s: Seq<ImmutableStoreEntry>,
    partition: Partition,
    address: Address,
    erased: bool,
    other: int,
)
    requires
        sorted(s),
        0 <= other < s.len(),
        s[other].address.hash == address.hash,
        s[other].key() != crate::types::key_of(partition, address),
        s[other].data.flags != PAYLOAD_OBLITERATED,
    ensures
        ({
            let r = obliterate_result(s, partition, address, erased).0;
            !(r is Ok && r->Ok_0 is ErasePayload)
        }),
{
    law_lookup_finds_the_best_match(s, partition, address, StoreMatch::MatchFull);
}

/// An entry is asked for what it lists exactly if it is a list, and an address that is not recorded
/// fails.
pub proof fn law_lists_are_asked_for_their_fragments(
    s: Seq<ImmutableStoreEntry>,
    partition: Partition,
    address: Address,
)
    ensures
        ({
            let r = children_in(s, partition, address);
            let data = data_at(s, partition, address);
            &&& r is Err <==> data is None
            &&& r is Err ==> r->Err_0 == StoreError::AddressNotFound(address)
            &&& data is Some ==> (r->Ok_0 is Some <==> data->0.flags & PAYLOAD_FRAGMENTED != 0)
            &&& r is Ok && r->Ok_0 is Some ==> r->Ok_0 == data
        }),
{
}

} // verus!
