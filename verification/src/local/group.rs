//! A group: the buckets of all hashes with one first byte.
use vstd::prelude::*;

use crate::error::LocalImmutableStoreError;
use crate::local::bucket::{data_at, in_order, sorted, ImmutableStoreBucket};
use crate::local::codec::{file_view, recovered, BucketFileView};
use crate::local::data::{ImmutableData, ImmutableStoreEntry};
use crate::types::{Address, Partition};

verus! {

/// How many groups a store has.
pub const GROUP_COUNT: usize = 256;

/// How many buckets a group can have.
pub const BUCKET_COUNT: usize = 256;

/// The most buckets that a group fans out to.
pub const FAN_OUT_LEVEL_MAX: usize = 256;

/// The number of entries of a bucket above which its group fans out, unless set otherwise.
pub const FAN_OUT_THRESHOLD_DEFAULT: usize = 1000;

/// The buckets of a group. The first `bucket_count` are in use.
pub struct ImmutableStoreGroup {
    pub bucket: Vec<ImmutableStoreBucket>,
    /// Whether a bucket was ever used. One that was not is empty.
    pub touched: Vec<bool>,
    /// Whether a bucket changed since it was written.
    pub dirty: Vec<bool>,
    /// How many buckets are in use.
    pub bucket_count: usize,
    /// The version to write into bucket files.
    pub serialize_version: u32,
    /// The number of entries of a bucket above which the group fans out.
    pub fan_out_threshold: usize,
    /// The number of buckets that the marker on disk records; zero where there is no marker.
    pub committed_level: usize,
}

/// The bucket of a hash in a group that uses `level` buckets.
pub open spec fn bucket_of(hash: crate::types::Hash, level: int) -> int {
    hash.second_byte() % level
}

/// The bucket of a hash in a group that uses `level` buckets.
pub fn bucket_index_for(hash: &crate::types::Hash, level: usize) -> (r: usize)
    requires
        level > 0,
    ensures
        r == bucket_of(*hash, level as int),
        r < level,
{
    let byte: usize = ((hash.high / 0x1_0000_0000_0000_0000_0000_0000_0000) % 256) as usize;
    byte % level
}

/// Whether every entry of a bucket belongs there.
pub open spec fn routed(s: Seq<ImmutableStoreEntry>, level: int, bucket: int) -> bool {
    forall|i: int|
        0 <= i < s.len() ==> bucket_of((#[trigger] s[i]).address.hash, level) == bucket
}

/// Whether the index of a bucket file has a place for every entry and names only entries.
pub open spec fn contents_in_range(contents: BucketFileView) -> bool {
    &&& contents.entry.len() == contents.sorted_index.len() <= u32::MAX
    &&& forall|i: int|
        0 <= i < contents.sorted_index.len() ==> (#[trigger] contents.sorted_index[i])
            < contents.entry.len()
}

/// Whether the contents of a bucket file are a bucket: the index names every entry once and sorts
/// them, and every entry belongs to the bucket.
pub open spec fn contents_fit(contents: BucketFileView, level: int, bucket: int) -> bool {
    let s = in_order(contents.entry, contents.sorted_index);
    &&& contents_in_range(contents)
    &&& sorted(s)
    &&& routed(s, level, bucket)
}

/// Whether a bucket is what its file holds, as it was read.
pub open spec fn read_as(bucket: ImmutableStoreBucket, contents: BucketFileView) -> bool {
    &&& bucket.deserialized
    &&& bucket.upgrade_packfile == contents.upgrade_packfile
    &&& bucket.entry@ == contents.entry
    &&& bucket.sorted_index@ == contents.sorted_index
}

impl ImmutableStoreGroup {
    /// What holds of a group: its buckets are in order and every entry is in the bucket of its
    /// hash; buckets that are not in use are empty and clean, as are those that were never used.
    pub open spec fn wf(self) -> bool {
        &&& self.bucket@.len() == 256
        &&& self.touched@.len() == 256
        &&& self.dirty@.len() == 256
        &&& 1 <= self.bucket_count <= 256
        &&& forall|b: int|
            0 <= b < 256 ==> (#[trigger] self.bucket@[b]).wf() && routed(
                self.bucket@[b].slots(),
                self.bucket_count as int,
                b,
            )
        &&& forall|b: int|
            0 <= b < 256 && !#[trigger] self.touched@[b] ==> self.bucket@[b].slots().len() == 0
                && !self.dirty@[b]
        &&& forall|b: int|
            self.bucket_count <= b < 256 ==> !#[trigger] self.dirty@[b]
    }

    /// What holds of a group whatever entries one of its buckets has.
    pub open spec fn wf_but(self, except: int) -> bool {
        &&& self.bucket@.len() == 256
        &&& self.touched@.len() == 256
        &&& self.dirty@.len() == 256
        &&& 1 <= self.bucket_count <= 256
        &&& forall|b: int|
            0 <= b < 256 && b != except ==> (#[trigger] self.bucket@[b]).wf() && routed(
                self.bucket@[b].slots(),
                self.bucket_count as int,
                b,
            )
        &&& forall|b: int|
            0 <= b < 256 && !#[trigger] self.touched@[b] ==> self.bucket@[b].slots().len() == 0
                && !self.dirty@[b]
        &&& forall|b: int|
            self.bucket_count <= b < 256 ==> !#[trigger] self.dirty@[b]
    }

    /// Whether no bucket was ever used.
    pub open spec fn untouched(self) -> bool {
        forall|b: int|
            0 <= b < 256 ==> (#[trigger] self.bucket@[b]).slots().len() == 0
                && !self.bucket@[b].deserialized && !self.touched@[b] && !self.dirty@[b]
    }

    /// What the group records at an address.
    pub open spec fn data_in(self, partition: Partition, address: Address) -> Option<
        ImmutableData,
    > {
        data_at(
            self.bucket@[bucket_of(address.hash, self.bucket_count as int)].slots(),
            partition,
            address,
        )
    }

    /// A group without entries.
    pub fn new(
        bucket_count: usize,
        serialize_version: u32,
        fan_out_threshold: usize,
        committed_level: usize,
    ) -> (r: ImmutableStoreGroup)
        requires
            1 <= bucket_count <= 256,
        ensures
            r.wf(),
            r.bucket_count == bucket_count,
            r.serialize_version == serialize_version,
            r.fan_out_threshold == fan_out_threshold,
            r.committed_level == committed_level,
            r.untouched(),
    {
        let mut bucket: Vec<ImmutableStoreBucket> = Vec::new();
        let mut touched: Vec<bool> = Vec::new();
        let mut dirty: Vec<bool> = Vec::new();
        let mut i: usize = 0;
        while i < BUCKET_COUNT
            invariant
                i <= 256,
                bucket@.len() == i,
                touched@.len() == i,
                dirty@.len() == i,
                forall|b: int|
                    0 <= b < i ==> (#[trigger] bucket@[b]).wf() && bucket@[b].slots().len() == 0
                        && !bucket@[b].deserialized,
                forall|b: int| 0 <= b < i ==> !#[trigger] touched@[b],
                forall|b: int| 0 <= b < i ==> !#[trigger] dirty@[b],
            decreases 256 - i,
        {
            bucket.push(ImmutableStoreBucket::new());
            touched.push(false);
            dirty.push(false);
            i = i + 1;
        }
        ImmutableStoreGroup {
            bucket,
            touched,
            dirty,
            bucket_count,
            serialize_version,
            fan_out_threshold,
            committed_level,
        }
    }

    /// The bucket at an index, where it was ever used.
    pub fn try_bucket(&self, index: usize) -> (r: Option<&ImmutableStoreBucket>)
        requires
            self.wf(),
            index < 256,
        ensures
            r == if self.touched@[index as int] {
                Some(&self.bucket@[index as int])
            } else {
                None
            },
    {
        if self.touched[index] {
            Some(&self.bucket[index])
        } else {
            None
        }
    }

    /// Whether every entry of a bucket is in the bucket of its hash.
    pub(crate) fn is_routed(bucket: &ImmutableStoreBucket, level: usize, index: usize) -> (r: bool)
        requires
            bucket.wf(),
            level > 0,
        ensures
            r == routed(bucket.slots(), level as int, index as int),
    {
        let count: usize = bucket.sorted_index.len();
        let mut i: usize = 0;
        while i < count
            invariant
                bucket.wf(),
                level > 0,
                count == bucket.slots().len(),
                i <= count,
                forall|k: int|
                    0 <= k < i ==> bucket_of(
                        (#[trigger] bucket.slots()[k]).address.hash,
                        level as int,
                    ) == index,
            decreases count - i,
        {
            let entry = bucket.at(i);
            if bucket_index_for(&entry.address.hash, level) != index {
                assert(bucket_of(bucket.slots()[i as int].address.hash, level as int) != index);
                return false;
            }
            i = i + 1;
        }
        true
    }

    /// Whether the entries of a bucket are in order and belong there.
    pub fn bucket_fits(&self, index: usize) -> (r: bool)
        requires
            self.wf_but(index as int),
            index < 256,
        ensures
            r == self.wf(),
    {
        self.bucket[index].is_well_formed() && Self::is_routed(
            &self.bucket[index],
            self.bucket_count,
            index,
        )
    }

    /// Reads a bucket from its file, unless that was done before. The result says how many entries
    /// were read and whether the file is to be removed. The bucket gets what the file holds, as it
    /// is: `bucket_fits` says whether that is in order.
    pub fn load_bucket(&mut self, index: usize, file: &Option<Vec<u8>>) -> (r: Result<
        (usize, bool),
        LocalImmutableStoreError,
    >)
        requires
            old(self).wf(),
            index < old(self).bucket_count,
        ensures
            final(self).wf_but(index as int),
            final(self).bucket_count == old(self).bucket_count,
            final(self).serialize_version == old(self).serialize_version,
            final(self).fan_out_threshold == old(self).fan_out_threshold,
            final(self).committed_level == old(self).committed_level,
            final(self).touched@ == old(self).touched@.update(index as int, true),
            forall|b: int|
                0 <= b < 256 && b != index ==> #[trigger] final(self).bucket@[b]
                    == old(self).bucket@[b],
            ({
                let before = old(self).bucket@[index as int];
                let after = final(self).bucket@[index as int];
                let dirty = old(self).dirty@[index as int];
                if before.deserialized {
                    &&& r == Ok::<(usize, bool), LocalImmutableStoreError>((0, false))
                    &&& after == before
                    &&& final(self).dirty@ == old(self).dirty@
                    &&& final(self).wf()
                } else {
                    match recovered(file_view(*file)) {
                        Err(e) => {
                            &&& r == Err::<(usize, bool), LocalImmutableStoreError>(e)
                            &&& after == before
                            &&& final(self).dirty@ == old(self).dirty@
                            &&& final(self).wf()
                        },
                        Ok((contents, remove)) => {
                            &&& r == Ok::<(usize, bool), LocalImmutableStoreError>(
                                (contents.entry.len() as usize, remove),
                            )
                            &&& read_as(after, contents)
                            &&& final(self).dirty@ == old(self).dirty@.update(
                                index as int,
                                dirty || contents.mark_dirty,
                            )
                            &&& final(self).wf() == contents_fit(
                                contents,
                                old(self).bucket_count as int,
                                index as int,
                            )
                        },
                    }
                }
            }),
    {
        self.touched.set(index, true);
        if self.bucket[index].deserialized {
            assert(self.dirty@ =~= old(self).dirty@);
            return Ok((0, false));
        }
        let mut bucket = ImmutableStoreBucket::new();
        let mut dirty = self.dirty[index];
        match bucket.deserialize(file, &mut dirty) {
            Err(e) => Err(e),
            Ok(read) => {
                let ghost contents = recovered(file_view(*file))->Ok_0.0;
                assert(in_order(contents.entry, contents.sorted_index) == bucket.slots());
                let ghost slots = bucket.slots();
                self.bucket.set(index, bucket);
                self.dirty.set(index, dirty);
                proof {
                    let level = self.bucket_count as int;
                    let here = self.bucket@[index as int];
                    assert(here.slots() == slots);
                    assert(contents_fit(contents, level, index as int) == (here.wf() && routed(
                        slots,
                        level,
                        index as int,
                    )));
                    assert(self.wf() ==> here.wf() && routed(slots, level, index as int));
                }
                Ok(read)
            },
        }
    }

    /// Whether any bucket changed since it was written.
    pub fn any_dirty(&self) -> (r: bool)
        requires
            self.wf(),
        ensures
            r == exists|b: int| 0 <= b < 256 && #[trigger] self.dirty@[b],
    {
        let mut i: usize = 0;
        while i < BUCKET_COUNT
            invariant
                i <= 256,
                self.dirty@.len() == 256,
                forall|b: int| 0 <= b < i ==> !#[trigger] self.dirty@[b],
            decreases 256 - i,
        {
            if self.dirty[i] {
                return true;
            }
            i = i + 1;
        }
        false
    }
}

impl ImmutableStoreBucket {
    /// A bucket without entries that was not read from disk.
    pub fn new() -> (r: ImmutableStoreBucket)
        ensures
            r.wf(),
            r.slots().len() == 0,
            r.entry@.len() == 0,
            !r.deserialized,
            !r.upgrade_packfile,
    {
        ImmutableStoreBucket {
            entry: Vec::new(),
            sorted_index: Vec::new(),
            deserialized: false,
            upgrade_packfile: false,
        }
    }
}

/// A hash has one bucket at every level, and the buckets of a level split into those of a multiple of
/// it: the bucket at the finer level says which one it was at the coarser.
pub proof fn law_buckets_split(hash: crate::types::Hash, level: int, factor: int)
    requires
        level > 0,
        factor > 0,
    ensures
        0 <= bucket_of(hash, level) < level,
        bucket_of(hash, level * factor) % level == bucket_of(hash, level),
        level >= 256 ==> bucket_of(hash, level) == hash.second_byte(),
{
    let byte = hash.second_byte();
    vstd::arithmetic::div_mod::lemma_mod_mod(byte, level, factor);
    if level >= 256 {
        vstd::arithmetic::div_mod::lemma_small_mod(byte as nat, level as nat);
    }
}

} // verus!
