//! Marking entries as stored durably or not.
use vstd::prelude::*;

use crate::local::bucket::{found, law_lookup_finds_the_best_match, ImmutableStoreBucket};
use crate::local::data::{ImmutableData, ImmutableStoreEntry};
use crate::local::group::{bucket_index_for, bucket_of, routed, ImmutableStoreGroup};
use crate::local::group_ops::{bucket_updated, lemma_group_still_wf};
use crate::local::immutable_store::{LocalImmutableStore, Step};
use crate::types::{
    Address, Partition, StoreMatch, PAYLOAD_STORED_DURABLE, PAYLOAD_STORED_LOCAL,
};

verus! {

/// An entry that is marked as stored durably and locally.
pub open spec fn marked(e: ImmutableStoreEntry) -> ImmutableStoreEntry {
    e.with_data(
        ImmutableData {
            flags: e.data.flags | (PAYLOAD_STORED_DURABLE | PAYLOAD_STORED_LOCAL),
            ..e.data
        },
    )
}

/// Entries of which the one at an address is marked as not stored durably.
pub open spec fn unmarked(
    s: Seq<ImmutableStoreEntry>,
    partition: Partition,
    address: Address,
) -> Seq<ImmutableStoreEntry> {
    let (slot, insert, made) = found(s, partition, address, StoreMatch::MatchFull);
    if made == StoreMatch::MatchFull {
        s.update(
            slot,
            s[slot].with_data(
                ImmutableData {
                    flags: s[slot].data.flags & !PAYLOAD_STORED_DURABLE,
                    ..s[slot].data
                },
            ),
        )
    } else {
        s
    }
}

/// Whether a group differs from another in no more than that the entries of its first buckets are
/// marked.
pub open spec fn marked_below(
    before: ImmutableStoreGroup,
    after: ImmutableStoreGroup,
    n: int,
) -> bool {
    &&& after == (ImmutableStoreGroup { bucket: after.bucket, ..before })
    &&& after.bucket@.len() == before.bucket@.len()
    &&& forall|b: int|
        0 <= b < n ==> {
            &&& (#[trigger] after.bucket@[b]).slots() == before.bucket@[b].slots().map_values(
                |e: ImmutableStoreEntry| marked(e),
            )
            &&& after.bucket@[b].deserialized == before.bucket@[b].deserialized
            &&& after.bucket@[b].upgrade_packfile == before.bucket@[b].upgrade_packfile
        }
    &&& forall|b: int|
        n <= b < before.bucket@.len() ==> #[trigger] after.bucket@[b] == before.bucket@[b]
}

impl ImmutableStoreBucket {
    /// Marks every entry as stored durably and locally.
    pub fn mark_all_as_durably_stored(&mut self)
        requires
            old(self).wf(),
        ensures
            final(self).wf(),
            final(self).slots() == old(self).slots().map_values(
                |e: ImmutableStoreEntry| marked(e),
            ),
            final(self).deserialized == old(self).deserialized,
            final(self).upgrade_packfile == old(self).upgrade_packfile,
            final(self).entry@.len() == old(self).entry@.len(),
    {
        let ghost s = self.slots();
        let ghost goal = s.map_values(|e: ImmutableStoreEntry| marked(e));
        let count: usize = self.sorted_index.len();
        let mut slot: usize = 0;
        while slot < count
            invariant
                self.wf(),
                count == s.len(),
                goal.len() == s.len(),
                self.slots().len() == s.len(),
                self.entry@.len() == s.len(),
                slot <= count,
                forall|i: int| 0 <= i < slot ==> #[trigger] self.slots()[i] == goal[i],
                forall|i: int| slot <= i < count ==> #[trigger] self.slots()[i] == s[i],
                forall|i: int| 0 <= i < count ==> #[trigger] goal[i] == marked(s[i]),
                self.deserialized == old(self).deserialized,
                self.upgrade_packfile == old(self).upgrade_packfile,
            decreases count - slot,
        {
            let mut data = self.at(slot).data;
            data.flags = data.flags | (PAYLOAD_STORED_DURABLE | PAYLOAD_STORED_LOCAL);
            self.set_data(slot, data);
            slot = slot + 1;
        }
        assert(self.slots() =~= goal);
    }

    /// Marks one entry as not stored durably.
    pub fn mark_as_not_durably_stored(&mut self, partition: Partition, address: Address)
        requires
            old(self).wf(),
        ensures
            final(self).wf(),
            final(self).slots() == unmarked(old(self).slots(), partition, address),
            final(self).deserialized == old(self).deserialized,
            final(self).upgrade_packfile == old(self).upgrade_packfile,
            final(self).entry@.len() == old(self).entry@.len(),
    {
        let (slot, _, made) = self.lookup(partition, address, StoreMatch::MatchFull);
        if made == StoreMatch::MatchFull {
            let mut data = self.at(slot).data;
            data.flags = data.flags & !PAYLOAD_STORED_DURABLE;
            self.set_data(slot, data);
        }
    }
}

impl ImmutableStoreGroup {
    /// Marks every entry as stored durably and locally. The buckets are not written for it.
    pub fn mark_all_as_durably_stored(&mut self)
        requires
            old(self).wf(),
        ensures
            final(self).wf(),
            marked_below(*old(self), *final(self), 256),
    {
        let ghost was = *self;
        let mut b: usize = 0;
        while b < 256
            invariant
                b <= 256,
                was.wf(),
                self.wf(),
                marked_below(was, *self, b as int),
            decreases 256 - b,
        {
            let ghost before = *self;
            assert(self.bucket@[b as int] == was.bucket@[b as int]);
            assert(was.bucket@[b as int].wf());
            let bucket = &mut self.bucket[b];
            bucket.mark_all_as_durably_stored();
            proof {
                let s = was.bucket@[b as int].slots();
                let t = self.bucket@[b as int].slots();
                assert(t =~= s.map_values(|e: ImmutableStoreEntry| marked(e)));
                assert forall|i: int| 0 <= i < t.len() implies bucket_of(
                    (#[trigger] t[i]).address.hash,
                    was.bucket_count as int,
                ) == b by {
                    assert(bucket_of(s[i].address.hash, was.bucket_count as int) == b);
                }
                assert forall|k: int| 0 <= k < 256 implies (#[trigger] self.bucket@[k]).wf()
                    && routed(self.bucket@[k].slots(), was.bucket_count as int, k) by {
                    if k != b {
                        assert(self.bucket@[k] == before.bucket@[k]);
                    }
                }
                assert forall|k: int| 0 <= k < 256 && !#[trigger] self.touched@[k] implies
                    self.bucket@[k].slots().len() == 0 && !self.dirty@[k] by {
                    assert(!before.touched@[k]);
                    assert(before.bucket@[k].slots().len() == 0);
                    if k != b {
                        assert(self.bucket@[k] == before.bucket@[k]);
                    }
                }
                assert forall|k: int| 0 <= k < b + 1 implies {
                    &&& (#[trigger] self.bucket@[k]).slots()
                        == was.bucket@[k].slots().map_values(|e: ImmutableStoreEntry| marked(e))
                    &&& self.bucket@[k].deserialized == was.bucket@[k].deserialized
                    &&& self.bucket@[k].upgrade_packfile == was.bucket@[k].upgrade_packfile
                } by {
                    if k != b {
                        assert(self.bucket@[k] == before.bucket@[k]);
                    }
                }
            }
            b = b + 1;
        }
    }

    /// Marks one entry as not stored durably.
    pub fn mark_as_not_durably_stored(&mut self, partition: Partition, address: Address)
        requires
            old(self).wf(),
        ensures
            final(self).wf(),
            bucket_updated(
                *old(self),
                *final(self),
                old(self).home(address.hash),
                unmarked(old(self).home_slots(address.hash), partition, address),
                old(self).dirty@[old(self).home(address.hash)],
            ),
    {
        let b: usize = bucket_index_for(&address.hash, self.bucket_count);
        self.touched.set(b, true);
        let bucket = &mut self.bucket[b];
        bucket.mark_as_not_durably_stored(partition, address);
        proof {
            let s = old(self).home_slots(address.hash);
            let t = unmarked(s, partition, address);
            law_lookup_finds_the_best_match(s, partition, address, StoreMatch::MatchFull);
            assert forall|i: int| 0 <= i < t.len() implies bucket_of(
                (#[trigger] t[i]).address.hash,
                self.bucket_count as int,
            ) == b by {
                assert(bucket_of(s[i].address.hash, self.bucket_count as int) == b);
            }
            assert(self.dirty@ =~= old(self).dirty@.update(b as int, old(self).dirty@[b as int]));
            lemma_group_still_wf(*old(self), *self, b as int, t, self.dirty@[b as int]);
        }
    }
}

impl LocalImmutableStore {
    /// Marks every fragment in memory as stored durably and locally.
    pub fn mark_all_as_durably_stored(&mut self)
        requires
            old(self).wf(),
        ensures
            final(self).wf(),
            *final(self) == (LocalImmutableStore { group: final(self).group, ..*old(self) }),
            forall|g: int|
                0 <= g < 256 ==> marked_below(
                    old(self).group@[g],
                    #[trigger] final(self).group@[g],
                    256,
                ),
    {
        let ghost was = *self;
        let mut g: usize = 0;
        while g < 256
            invariant
                g <= 256,
                was.wf(),
                self.wf(),
                *self == (LocalImmutableStore { group: self.group, ..was }),
                forall|k: int| g <= k < 256 ==> #[trigger] self.group@[k] == was.group@[k],
                forall|k: int|
                    0 <= k < g ==> marked_below(was.group@[k], #[trigger] self.group@[k], 256),
            decreases 256 - g,
        {
            assert(self.group@[g as int] == was.group@[g as int]);
            assert(was.group@[g as int].wf());
            let group = &mut self.group[g];
            group.mark_all_as_durably_stored();
            g = g + 1;
        }
    }

    /// Marks one fragment as not stored durably.
    pub fn mark_as_not_durably_stored(&mut self, partition: Partition, address: Address) -> (r: Step<
        (),
    >)
        requires
            old(self).wf(),
        ensures
            final(self).wf(),
            match r {
                Step::LoadBucket { group, bucket } => Self::asks_for(
                    *old(self),
                    *final(self),
                    address.hash,
                    group,
                    bucket,
                ),
                Step::Done(_) => Self::updated(
                    *old(self),
                    *final(self),
                    address.hash,
                    unmarked(old(self).slots_of(address.hash), partition, address),
                    old(self).dirty_at(address.hash),
                ),
            },
    {
        if let Some((group, bucket)) = self.needed(&address.hash) {
            return Step::LoadBucket { group, bucket };
        }
        let g: usize = address.hash.group_index();
        let group = &mut self.group[g];
        group.mark_as_not_durably_stored(partition, address);
        Step::Done(())
    }
}

} // verus!
