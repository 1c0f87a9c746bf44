//! Moving payloads from the pack files that all groups once shared to those of a group.
use vstd::prelude::*;

use crate::local::bucket::ImmutableStoreBucket;
use crate::local::data::{ImmutableData, ImmutableStoreEntry};
use crate::types::PackRef;

verus! {

/// A walk over a bucket that moves its payloads.
pub struct UpgradePass {
    /// The slot to look at next.
    pub slot: usize,
    /// The hash whose payload was moved last.
    pub last_hash: crate::types::Hash,
    /// The data of the entry whose payload was moved last.
    pub last_data: ImmutableData,
}

impl UpgradePass {
    /// Whether an entry needs no payload of its own: it has none, or it has the hash whose payload
    /// was moved last.
    pub open spec fn passes_over(self, e: ImmutableStoreEntry) -> bool {
        e.data.pack_file == 0 || e.address.hash == self.last_hash
    }

    /// An entry that the walk passed over.
    pub open spec fn passed(self, e: ImmutableStoreEntry) -> ImmutableStoreEntry {
        if e.data.pack_file != 0 && e.address.hash == self.last_hash {
            e.with_data(e.data.deduplicated(self.last_data))
        } else {
            e
        }
    }

    /// A walk that has not begun.
    pub fn new() -> (r: UpgradePass)
        ensures
            r.slot == 0,
            r.last_hash == (crate::types::Hash { high: 0, low: 0 }),
            r.last_data == ImmutableData::zero(),
    {
        UpgradePass {
            slot: 0,
            last_hash: crate::types::Hash::zero(),
            last_data: ImmutableData::default(),
        }
    }

    /// Goes on to the next entry whose payload is to be moved, and gives its data. Entries of the
    /// hash that was moved last share its new payload.
    pub fn next(&mut self, bucket: &mut ImmutableStoreBucket) -> (r: Option<ImmutableData>)
        requires
            old(bucket).wf(),
            old(self).slot <= old(bucket).slots().len(),
        ensures
            final(bucket).wf(),
            final(bucket).slots().len() == old(bucket).slots().len(),
            old(self).slot <= final(self).slot <= old(bucket).slots().len(),
            forall|i: int|
                0 <= i < old(bucket).slots().len() ==> #[trigger] final(bucket).slots()[i] == if old(self).slot <= i < final(self).slot {
                    old(self).passed(old(bucket).slots()[i])
                } else {
                    old(bucket).slots()[i]
                },
            forall|i: int|
                old(self).slot <= i < final(self).slot ==> old(self).passes_over(
                    #[trigger] old(bucket).slots()[i],
                ),
            match r {
                Some(data) => {
                    &&& final(self).slot < old(bucket).slots().len()
                    &&& data == old(bucket).slots()[final(self).slot as int].data
                    &&& !old(self).passes_over(old(bucket).slots()[final(self).slot as int])
                    &&& final(self).last_hash == (crate::types::Hash { high: 0, low: 0 })
                    &&& final(self).last_data == ImmutableData::zero()
                },
                None => {
                    &&& final(self).slot == old(bucket).slots().len()
                    &&& final(self).last_hash == old(self).last_hash
                    &&& final(self).last_data == old(self).last_data
                },
            },
            final(bucket).deserialized == old(bucket).deserialized,
            final(bucket).upgrade_packfile == old(bucket).upgrade_packfile,
    {
        let ghost s = bucket.slots();
        let ghost start = *self;
        let count: usize = bucket.sorted_index.len();
        while self.slot < count
            invariant
                bucket.wf(),
                s == old(bucket).slots(),
                start == *old(self),
                count == s.len(),
                bucket.slots().len() == count,
                start.slot <= self.slot <= count,
                self.last_hash == start.last_hash,
                self.last_data == start.last_data,
                forall|i: int|
                    0 <= i < count ==> #[trigger] bucket.slots()[i] == if start.slot <= i
                        < self.slot {
                        start.passed(s[i])
                    } else {
                        s[i]
                    },
                forall|i: int| start.slot <= i < self.slot ==> start.passes_over(#[trigger] s[i]),
                bucket.deserialized == old(bucket).deserialized,
                bucket.upgrade_packfile == old(bucket).upgrade_packfile,
            decreases count - self.slot,
        {
            let entry = bucket.at(self.slot);
            assert(entry == s[self.slot as int]);
            if entry.data.pack_file != 0 {
                if entry.address.hash == self.last_hash {
                    let mut data = entry.data;
                    data.assign_deduplicated_payload(self.last_data);
                    bucket.set_data(self.slot, data);
                } else {
                    self.last_hash = crate::types::Hash::zero();
                    self.last_data = ImmutableData::default();
                    return Some(entry.data);
                }
            }
            self.slot = self.slot + 1;
        }
        None
    }

    /// Records where the payload of the entry that `next` stopped at lies now. Without a place it
    /// could not be moved, and the entry loses it.
    pub fn settle(&mut self, bucket: &mut ImmutableStoreBucket, moved: Option<PackRef>)
        requires
            old(bucket).wf(),
            old(self).slot < old(bucket).slots().len(),
        ensures
            final(bucket).wf(),
            final(self).slot == old(self).slot + 1,
            ({
                let slot = old(self).slot as int;
                let e = old(bucket).slots()[slot];
                let data = match moved {
                    Some(packref) => ImmutableData {
                        pack_file: packref.id,
                        pack_offset: packref.offset,
                        ..e.data
                    },
                    None => ImmutableData { pack_file: 0, pack_offset: 0, ..e.data },
                };
                &&& final(bucket).slots() == old(bucket).slots().update(slot, e.with_data(data))
                &&& moved is Some ==> final(self).last_hash == e.address.hash && final(self).last_data == data
                &&& moved is None ==> final(self).last_hash == old(self).last_hash && final(self).last_data == old(self).last_data
            }),
            final(bucket).deserialized == old(bucket).deserialized,
            final(bucket).upgrade_packfile == old(bucket).upgrade_packfile,
    {
        let entry = bucket.at(self.slot);
        let mut data = entry.data;
        match moved {
            Some(packref) => {
                data.pack_file = packref.id;
                data.pack_offset = packref.offset;
                self.last_hash = entry.address.hash;
                self.last_data = data;
            },
            None => {
                data.pack_file = 0;
                data.pack_offset = 0;
            },
        }
        bucket.set_data(self.slot, data);
        self.slot = self.slot + 1;
    }
}

/// Whether the payloads of a bucket are still to be moved: not if its group has payloads of its own
/// and the bucket was written since.
pub fn upgrade_needed(group_size: u64, upgrade_packfile: bool) -> (r: bool)
    ensures
        r == (group_size == 0 || upgrade_packfile),
{
    group_size == 0 || upgrade_packfile
}

/// An entry that a pass goes over takes the place that the payload of its hash was moved to last.
/// Others that it goes over stay as they are, and it stops at every other entry with a payload.
pub proof fn law_upgrade_moves_every_payload(pass: UpgradePass, e: ImmutableStoreEntry)
    ensures
        ({
            let after = pass.passed(e);
            &&& !pass.passes_over(e) <==> e.data.pack_file != 0 && e.address.hash != pass.last_hash
            &&& e.data.pack_file != 0 && e.address.hash == pass.last_hash
                ==> after.data.pack_file == pass.last_data.pack_file && after.data.pack_offset
                == pass.last_data.pack_offset && after.data.size_payload
                == pass.last_data.size_payload && after.data.size_content == e.data.size_content
                && after.key() == e.key()
            &&& e.data.pack_file == 0 || e.address.hash != pass.last_hash ==> after == e
        }),
{
}

} // verus!
