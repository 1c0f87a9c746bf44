//! The store of fragments on this machine.
use vstd::prelude::*;

use crate::error::{LocalImmutableStoreError, StoreError};
use crate::local::bucket::{data_at, ImmutableStoreBucket};
use crate::local::codec::{
    detect_any_older_immutable_bucket, directory_is_older, ImmutableStoreVersion, ScannedFile,
};
use crate::local::copy::CopyRequest;
use crate::local::data::{ImmutableData, ImmutableStoreEntry};
use crate::local::find::{find_result, stamps, ImmutableStoreFindResult};
use crate::local::group::{
    bucket_index_for, ImmutableStoreGroup, FAN_OUT_THRESHOLD_DEFAULT, GROUP_COUNT,
};
use crate::local::group_ops::bucket_updated;
use crate::local::obliterate::{obliterate_result, ObliterateOutcome, StoreObliterateStats};
use crate::local::put::{check_put, put_marks, put_refusal, put_result, touches};
use crate::local::store::{StoreOutcome, StoreRequest};
use crate::maintenance::GcCounters;
use crate::types::{counted, Address, Partition, StoreMatch};

verus! {

/// The pause before a delayed flush, in seconds, unless set otherwise.
pub const DEFAULT_FLUSH_DELAY_SECONDS: u64 = 5;

/// How a store behaves.
#[derive(Clone, Copy, Debug, PartialEq, Eq, Structural)]
pub struct ImmutableStoreSettings {
    /// Allow partial fragments (true for clients, false for server)
    pub allow_partial_fragment: bool,
    /// Protect local fragments during eviction/compaction (true for clients, false for server)
    pub protect_local_fragment: bool,
    /// Consider all fragments durably stored (false for clients, generally true for server)
    pub implicit_durable_stored: bool,
    /// Flush in the background
    pub flush_background: bool,
    /// Flush delay in seconds
    pub flush_delay_seconds: u64,
    /// Eviction target capacity as a percentage of the max capacity (0-100)
    pub target_capacity_percentage: usize,
    /// Compaction target size as a percentage of the max size (0-100)
    pub target_size_percentage: usize,
    /// Number of groups done in parallel during compaction (1-256)
    pub compaction_parallel_groups: usize,
    /// Verify writes by read back and rehash data
    pub verify_write: bool,
    /// Update last access timestamps on reads
    pub atime: bool,
    /// Number of buckets per group at store creation. Existing stores load at the level that their
    /// markers record.
    pub initial_fan_out_level: usize,
    /// Per-bucket entry threshold that triggers fan-out at the next flush
    pub fan_out_threshold: usize,
}

impl Default for ImmutableStoreSettings {
    fn default() -> (r: ImmutableStoreSettings)
        ensures
            r == (ImmutableStoreSettings {
                allow_partial_fragment: true,
                protect_local_fragment: true,
                implicit_durable_stored: false,
                flush_background: false,
                flush_delay_seconds: 5,
                target_capacity_percentage: 70,
                target_size_percentage: 70,
                compaction_parallel_groups: 8,
                verify_write: false,
                atime: false,
                initial_fan_out_level: 1,
                fan_out_threshold: 1000,
            }),
    {
        ImmutableStoreSettings {
            allow_partial_fragment: true,
            protect_local_fragment: true,
            implicit_durable_stored: false,
            flush_background: false,
            flush_delay_seconds: DEFAULT_FLUSH_DELAY_SECONDS,
            target_capacity_percentage: 70,
            target_size_percentage: 70,
            compaction_parallel_groups: 8,
            verify_write: false,
            atime: false,
            initial_fan_out_level: 1,
            fan_out_threshold: FAN_OUT_THRESHOLD_DEFAULT,
        }
    }
}

/// A percentage as it is, or the default where it asks for nothing or for everything.
pub open spec fn valid_percentage(percentage: usize) -> usize {
    if percentage == 0 || percentage >= 100 {
        70
    } else {
        percentage
    }
}

/// Whether the value of an environment variable switches something on: `1`, or `true` in whatever
/// case.
pub open spec fn switches_on(value: Seq<u8>) -> bool {
    ||| value == seq![0x31u8]
    ||| {
        &&& value.len() == 4
        &&& (value[0] == 0x74 || value[0] == 0x54)
        &&& (value[1] == 0x72 || value[1] == 0x52)
        &&& (value[2] == 0x75 || value[2] == 0x55)
        &&& (value[3] == 0x65 || value[3] == 0x45)
    }
}

/// Whether the value of an environment variable switches something on.
fn is_switched_on(value: &Vec<u8>) -> (r: bool)
    ensures
        r == switches_on(value@),
{
    if value.len() == 1 {
        assert(value@ =~= seq![value@[0]]);
        return value[0] == 0x31;
    }
    value.len() == 4 && (value[0] == 0x74 || value[0] == 0x54) && (value[1] == 0x72 || value[1]
        == 0x52) && (value[2] == 0x75 || value[2] == 0x55) && (value[3] == 0x65 || value[3] == 0x45)
}

/// What was found on disk when a store is opened.
pub struct StoreLayout {
    /// Whether the store keeps anything on disk.
    pub on_disk: bool,
    /// Whether the directory of bucket files was there.
    pub index_existed: bool,
    /// The number of buckets that the marker of each group records.
    pub markers: Vec<Option<usize>>,
    /// The files of the groups' directories, for a look at their version.
    pub directories: Vec<Vec<ScannedFile>>,
    /// What the environment says about reading back what was written.
    pub verify_write: Option<Vec<u8>>,
}

impl StoreLayout {
    /// A layout that can be: a marker for each group at most, each with a possible number of
    /// buckets, and nothing on disk for a store that is not there.
    pub open spec fn valid(self) -> bool {
        &&& self.markers@.len() == 256
        &&& forall|g: int|
            0 <= g < 256 && (#[trigger] self.markers@[g]) is Some ==> 1 <= self.markers@[g]->0
                <= 256
        &&& !self.on_disk ==> !self.index_existed && forall|g: int|
            0 <= g < 256 ==> (#[trigger] self.markers@[g]) is None
    }

    /// Whether any group has a marker.
    pub open spec fn any_marker(self) -> bool {
        exists|g: int| 0 <= g < 256 && (#[trigger] self.markers@[g]) is Some
    }

    /// Whether the bucket files are from before entries held their last access.
    pub open spec fn any_older(self) -> bool {
        self.index_existed && !self.any_marker() && exists|d: int|
            0 <= d < self.directories@.len() && #[trigger] directory_is_older(
                self.directories@[d]@,
            )
    }

    /// The number of buckets of a group: that of its marker, or of the flat layout where the store
    /// is older than markers, or that of a new store.
    pub open spec fn level(self, g: int, initial: usize) -> usize {
        match self.markers@[g] {
            Some(level) => level,
            None => if self.index_existed {
                256
            } else {
                initial
            },
        }
    }

    /// The version to write: stores that older readers can still read stay so.
    pub open spec fn version(self) -> u32 {
        if !self.index_existed || self.any_marker() || self.any_older() {
            ImmutableStoreVersion::LazyFanOut.value()
        } else {
            ImmutableStoreVersion::LastAccessInEntry.value()
        }
    }
}

impl StoreLayout {
    /// Whether a group is as it is right after the store was opened.
    pub open spec fn opens(
        self,
        group: ImmutableStoreGroup,
        g: int,
        initial: usize,
        threshold: usize,
    ) -> bool {
        &&& group.bucket_count == self.level(g, initial)
        &&& group.committed_level == match self.markers@[g] {
            Some(level) => level,
            None => 0,
        }
        &&& group.serialize_version == self.version()
        &&& group.fan_out_threshold == threshold
        &&& group.untouched()
    }
}

/// A store of fragments.
pub struct LocalImmutableStore {
    /// Whether the store keeps anything on disk.
    pub on_disk: bool,
    pub group: Vec<ImmutableStoreGroup>,
    pub settings: ImmutableStoreSettings,
    /// Whether garbage collection is to stop.
    pub stop_gc: bool,
    /// The bytes that the compaction pass on its way has reclaimed.
    pub compaction_reclaimed: u64,
    /// Whether all buckets were read from disk.
    pub deserialized_all: bool,
    pub gc_counters: GcCounters,
}

/// An operation that may need a bucket from disk first. It is then made again.
pub enum Step<T> {
    /// Read a bucket first.
    LoadBucket { group: usize, bucket: usize },
    /// The operation is done.
    Done(T),
}

/// What is left to do after a fragment was recorded.
#[derive(Clone, Copy, Debug, PartialEq, Eq, Structural)]
pub struct StoreFollowUp {
    /// Start a delayed flush of the group.
    pub flush: bool,
    /// Read the payload back and compare its hash.
    pub verify: bool,
}

impl LocalImmutableStore {
    /// What holds of a store: it has all its groups, and they are well-formed.
    pub open spec fn wf(self) -> bool {
        &&& self.group@.len() == 256
        &&& forall|g: int| 0 <= g < 256 ==> (#[trigger] self.group@[g]).wf()
    }

    /// The group of a hash.
    pub open spec fn group_of(self, hash: crate::types::Hash) -> ImmutableStoreGroup {
        self.group@[hash.first_byte()]
    }

    /// The bucket of a hash.
    pub open spec fn bucket_at(self, hash: crate::types::Hash) -> ImmutableStoreBucket {
        self.group_of(hash).bucket@[self.group_of(hash).home(hash)]
    }

    /// The entries of the bucket of a hash.
    pub open spec fn slots_of(self, hash: crate::types::Hash) -> Seq<ImmutableStoreEntry> {
        self.group_of(hash).home_slots(hash)
    }

    /// Whether the bucket of a hash must be read from disk first.
    pub open spec fn unread(self, hash: crate::types::Hash) -> bool {
        let group = self.group_of(hash);
        self.on_disk && !group.bucket@[group.home(hash)].deserialized
    }

    /// Whether the bucket of a hash is dirty.
    pub open spec fn dirty_at(self, hash: crate::types::Hash) -> bool {
        let group = self.group_of(hash);
        group.dirty@[group.home(hash)]
    }

    /// What the store records at an address.
    pub open spec fn data_in(self, partition: Partition, address: Address) -> Option<
        ImmutableData,
    > {
        data_at(self.slots_of(address.hash), partition, address)
    }

    /// Whether the bucket of a hash can take one more entry.
    pub open spec fn has_room(self, hash: crate::types::Hash) -> bool {
        self.group_of(hash).has_room(hash)
    }

    /// Whether an answer asks for the bucket of a hash, with the store as it was.
    pub open spec fn asks_for(
        before: LocalImmutableStore,
        after: LocalImmutableStore,
        hash: crate::types::Hash,
        group: usize,
        bucket: usize,
    ) -> bool {
        &&& before.unread(hash)
        &&& group == hash.first_byte()
        &&& bucket == before.group_of(hash).home(hash)
        &&& after == before
    }

    /// Whether an operation changed no more than the bucket of a hash.
    pub open spec fn updated(
        before: LocalImmutableStore,
        after: LocalImmutableStore,
        hash: crate::types::Hash,
        slots: Seq<ImmutableStoreEntry>,
        dirty: bool,
    ) -> bool {
        let g = hash.first_byte();
        &&& !before.unread(hash)
        &&& after == (LocalImmutableStore { group: after.group, ..before })
        &&& after.group@ == before.group@.update(g, after.group@[g])
        &&& bucket_updated(
            before.group@[g],
            after.group@[g],
            before.group@[g].home(hash),
            slots,
            dirty,
        )
    }

    /// Opens a store: decides how many buckets each group has and which version is written. Invalid
    /// percentages become the default.
    pub fn new(layout: &StoreLayout, settings: ImmutableStoreSettings) -> (r: LocalImmutableStore)
        requires
            layout.valid(),
            1 <= settings.initial_fan_out_level <= 256,
        ensures
            r.wf(),
            r.on_disk == layout.on_disk,
            r.settings == (ImmutableStoreSettings {
                target_size_percentage: valid_percentage(settings.target_size_percentage),
                target_capacity_percentage: valid_percentage(settings.target_capacity_percentage),
                verify_write: settings.verify_write || (layout.verify_write is Some
                    && switches_on(layout.verify_write->0@)),
                ..settings
            }),
            !r.stop_gc,
            r.compaction_reclaimed == 0,
            !r.deserialized_all,
            r.gc_counters.max_size == 0 && r.gc_counters.max_capacity == 0,
            r.gc_counters.total_size == 0 && r.gc_counters.fragment_count == 0,
            !r.gc_counters.compaction_fired && !r.gc_counters.eviction_fired,
            r.gc_counters.store is None,
            forall|g: int|
                0 <= g < 256 ==> layout.opens(
                    #[trigger] r.group@[g],
                    g,
                    settings.initial_fan_out_level,
                    settings.fan_out_threshold,
                ),
    {
        let mut settings = settings;
        if settings.target_size_percentage == 0 || settings.target_size_percentage >= 100 {
            settings.target_size_percentage = 70;
        }
        if settings.target_capacity_percentage == 0 || settings.target_capacity_percentage >= 100 {
            settings.target_capacity_percentage = 70;
        }
        if !settings.verify_write {
            if let Some(value) = &layout.verify_write {
                settings.verify_write = is_switched_on(value);
            }
        }
        let mut any_marker = false;
        let mut g: usize = 0;
        while g < GROUP_COUNT
            invariant
                layout.markers@.len() == 256,
                g <= 256,
                any_marker == exists|k: int| 0 <= k < g && (#[trigger] layout.markers@[k]) is Some,
            decreases 256 - g,
        {
            if layout.markers[g].is_some() {
                any_marker = true;
                assert(layout.markers@[g as int] is Some);
            }
            g = g + 1;
        }
        let any_older = if layout.index_existed && !any_marker {
            detect_any_older_immutable_bucket(&layout.directories)
        } else {
            false
        };
        assert(any_marker == layout.any_marker());
        assert(any_older == layout.any_older());
        let version: u32 = if !layout.index_existed || any_marker || any_older {
            ImmutableStoreVersion::LazyFanOut.number()
        } else {
            ImmutableStoreVersion::LastAccessInEntry.number()
        };
        let mut group: Vec<ImmutableStoreGroup> = Vec::new();
        g = 0;
        while g < GROUP_COUNT
            invariant
                layout.valid(),
                1 <= settings.initial_fan_out_level <= 256,
                g <= 256,
                version == layout.version(),
                group@.len() == g,
                forall|k: int|
                    0 <= k < g ==> (#[trigger] group@[k]).wf() && layout.opens(
                        group@[k],
                        k,
                        settings.initial_fan_out_level,
                        settings.fan_out_threshold,
                    ),
            decreases 256 - g,
        {
            let (level, committed): (usize, usize) = match layout.markers[g] {
                Some(level) => (level, level),
                None => if layout.index_existed {
                    (256, 0)
                } else {
                    (settings.initial_fan_out_level, 0)
                },
            };
            assert(layout.markers@[g as int] is Some ==> 1 <= layout.markers@[g as int]->0 <= 256);
            group.push(
                ImmutableStoreGroup::new(level, version, settings.fan_out_threshold, committed),
            );
            g = g + 1;
        }
        LocalImmutableStore {
            on_disk: layout.on_disk,
            group,
            settings,
            stop_gc: false,
            compaction_reclaimed: 0,
            deserialized_all: false,
            gc_counters: GcCounters::new(),
        }
    }

    /// Sets the limits that fire garbage collection while data is loaded.
    pub fn set_gc_caps(&mut self, max_size: usize, max_capacity: usize, sync_data: bool)
        ensures
            *final(self) == (LocalImmutableStore {
                gc_counters: GcCounters {
                    max_size: max_size as u64,
                    max_capacity,
                    sync_data,
                    ..old(self).gc_counters
                },
                ..*old(self)
            }),
    {
        self.gc_counters.set_caps(max_size, max_capacity, sync_data);
    }

    /// The bucket of a hash, where it must be read from disk first.
    pub(crate) fn needed(&self, hash: &crate::types::Hash) -> (r: Option<(usize, usize)>)
        requires
            self.wf(),
        ensures
            r == if self.unread(*hash) {
                Some((hash.first_byte() as usize, self.group_of(*hash).home(*hash) as usize))
            } else {
                None
            },
    {
        let g: usize = hash.group_index();
        let b: usize = bucket_index_for(hash, self.group[g].bucket_count);
        if self.on_disk && !self.group[g].bucket[b].deserialized {
            Some((g, b))
        } else {
            None
        }
    }

    /// Records a fragment. The payload is taken to have the hash of the address.
    pub fn store(&mut self, request: &StoreRequest) -> (r: Step<
        Result<StoreOutcome, LocalImmutableStoreError>,
    >)
        requires
            old(self).wf(),
            old(self).has_room(request.address.hash),
        ensures
            final(self).wf(),
            match r {
                Step::LoadBucket { group, bucket } => Self::asks_for(
                    *old(self),
                    *final(self),
                    request.address.hash,
                    group,
                    bucket,
                ) && request.invalid() is None,
                Step::Done(result) => {
                    let s = old(self).slots_of(request.address.hash);
                    let (outcome, after) = request.result(s);
                    &&& result == outcome
                    &&& result is Err ==> final(self).bucket_at(request.address.hash) == old(self).bucket_at(request.address.hash)
                    &&& request.invalid() is Some ==> *final(self) == *old(self)
                    &&& request.invalid() is None ==> Self::updated(
                        *old(self),
                        *final(self),
                        request.address.hash,
                        after,
                        old(self).dirty_at(request.address.hash) || after != s || (result is Ok
                            && result->Ok_0 is Stored),
                    )
                },
            },
    {
        if let Err(e) = request.validate() {
            return Step::Done(Err(LocalImmutableStoreError::Internal(e)));
        }
        if let Some((group, bucket)) = self.needed(&request.address.hash) {
            return Step::LoadBucket { group, bucket };
        }
        let g: usize = request.address.hash.group_index();
        let group = &mut self.group[g];
        let r = group.store(request);
        Step::Done(r)
    }

    /// Finds an entry.
    pub fn find(
        &mut self,
        partition: Partition,
        address: Address,
        match_request: StoreMatch,
        now: u64,
    ) -> (r: Step<Result<ImmutableStoreFindResult, LocalImmutableStoreError>>)
        requires
            old(self).wf(),
        ensures
            final(self).wf(),
            match r {
                Step::LoadBucket { group, bucket } => Self::asks_for(
                    *old(self),
                    *final(self),
                    address.hash,
                    group,
                    bucket,
                ) && match_request != StoreMatch::MatchNone,
                Step::Done(result) => {
                    let s = old(self).slots_of(address.hash);
                    let atime = old(self).settings.atime;
                    let (outcome, after) = find_result(
                        s,
                        partition,
                        address,
                        match_request,
                        atime,
                        now,
                    );
                    &&& result == match outcome {
                        Err(e) => Err::<ImmutableStoreFindResult, LocalImmutableStoreError>(e),
                        Ok((data, matching)) => Ok(
                            ImmutableStoreFindResult {
                                group: address.hash.first_byte() as usize,
                                data,
                                matching,
                            },
                        ),
                    }
                    &&& match_request == StoreMatch::MatchNone ==> *final(self) == *old(self)
                    &&& match_request != StoreMatch::MatchNone ==> Self::updated(
                        *old(self),
                        *final(self),
                        address.hash,
                        after,
                        old(self).dirty_at(address.hash) || stamps(
                            s,
                            partition,
                            address,
                            match_request,
                            atime,
                        ),
                    )
                },
            },
    {
        if match_request == StoreMatch::MatchNone {
            return Step::Done(
                Err(
                    LocalImmutableStoreError::Internal(crate::error::InternalError::InvalidQuery),
                ),
            );
        }
        if let Some((group, bucket)) = self.needed(&address.hash) {
            return Step::LoadBucket { group, bucket };
        }
        let g: usize = address.hash.group_index();
        let atime = self.settings.atime;
        let group = &mut self.group[g];
        match group.find(partition, address, match_request, atime, now) {
            Err(e) => Step::Done(Err(e)),
            Ok((data, matching)) => Step::Done(
                Ok(ImmutableStoreFindResult { group: g, data, matching }),
            ),
        }
    }

    /// Puts a fragment. `check` is what validating the payload against the fragment said.
    pub fn put(&mut self, request: &StoreRequest, check: Result<(), StoreError>) -> (r: Step<
        Result<StoreOutcome, StoreError>,
    >)
        requires
            old(self).wf(),
            old(self).has_room(request.address.hash),
        ensures
            final(self).wf(),
            match r {
                Step::LoadBucket { group, bucket } => Self::asks_for(
                    *old(self),
                    *final(self),
                    request.address.hash,
                    group,
                    bucket,
                ) && put_refusal(*request, check) is None,
                Step::Done(result) => {
                    let s = old(self).slots_of(request.address.hash);
                    let atime = old(self).settings.atime;
                    let (outcome, after) = put_result(*request, check, atime, s);
                    &&& Self::did_put(*old(self), *final(self), *request, check, result)
                    &&& result == outcome
                    &&& result is Err && !touches(*request, check, atime, s) ==> final(self).bucket_at(
                        request.address.hash,
                    ) == old(self).bucket_at(request.address.hash)
                    &&& put_refusal(*request, check) is Some ==> *final(self) == *old(self)
                    &&& put_refusal(*request, check) is None ==> Self::updated(
                        *old(self),
                        *final(self),
                        request.address.hash,
                        after,
                        old(self).dirty_at(request.address.hash) || put_marks(
                            *request,
                            check,
                            atime,
                            s,
                        ),
                    )
                },
            },
    {
        if let Err(e) = check_put(request, check) {
            proof {
                reveal(put_result);
            }
            return Step::Done(Err(e));
        }
        if let Some((group, bucket)) = self.needed(&request.address.hash) {
            return Step::LoadBucket { group, bucket };
        }
        let g: usize = request.address.hash.group_index();
        let atime = self.settings.atime;
        let group = &mut self.group[g];
        let r = group.put(request, check, atime);
        Step::Done(r)
    }

    /// Copies an entry to another partition or context.
    pub fn copy(&mut self, request: &CopyRequest) -> (r: Step<Result<(), StoreError>>)
        requires
            old(self).wf(),
            old(self).has_room(request.source_address.hash),
        ensures
            final(self).wf(),
            match r {
                Step::LoadBucket { group, bucket } => Self::asks_for(
                    *old(self),
                    *final(self),
                    request.source_address.hash,
                    group,
                    bucket,
                ),
                Step::Done(result) => {
                    let s = old(self).slots_of(request.source_address.hash);
                    let (outcome, after) = request.result(s);
                    &&& Self::did_copy(*old(self), *final(self), *request, result)
                    &&& result == outcome
                    &&& result is Err ==> final(self).bucket_at(request.source_address.hash) == old(self).bucket_at(request.source_address.hash)
                    &&& Self::updated(
                        *old(self),
                        *final(self),
                        request.source_address.hash,
                        after,
                        old(self).dirty_at(request.source_address.hash) || (result is Ok
                            && request.target(s) != Some(request.copied(s))),
                    )
                },
            },
    {
        if let Some((group, bucket)) = self.needed(&request.source_address.hash) {
            return Step::LoadBucket { group, bucket };
        }
        let g: usize = request.source_address.hash.group_index();
        let group = &mut self.group[g];
        let r = group.copy(request);
        Step::Done(r)
    }

    /// Obliterates an entry whose listed fragments are gone. `erased` says that its payload was
    /// erased from the pack files.
    pub fn obliterate(
        &mut self,
        partition: Partition,
        address: Address,
        erased: bool,
        stats: &mut StoreObliterateStats,
    ) -> (r: Step<Result<ObliterateOutcome, StoreError>>)
        requires
            old(self).wf(),
        ensures
            final(self).wf(),
            match r {
                Step::LoadBucket { group, bucket } => Self::asks_for(
                    *old(self),
                    *final(self),
                    address.hash,
                    group,
                    bucket,
                ) && *final(stats) == *old(stats),
                Step::Done(result) => {
                    let s = old(self).slots_of(address.hash);
                    let (outcome, after) = obliterate_result(s, partition, address, erased);
                    let gone = result is Ok && result->Ok_0 is Obliterated;
                    &&& Self::did_obliterate(
                        *old(self),
                        *final(self),
                        partition,
                        address,
                        erased,
                        result,
                    )
                    &&& result == outcome
                    &&& !(result is Ok && result->Ok_0 is Obliterated) ==> final(self).bucket_at(
                        address.hash,
                    ) == old(self).bucket_at(address.hash)
                    &&& Self::updated(
                        *old(self),
                        *final(self),
                        address.hash,
                        after,
                        old(self).dirty_at(address.hash) || gone,
                    )
                    &&& *final(stats) == (StoreObliterateStats {
                        num_fragments: if gone {
                            counted(old(stats).num_fragments)
                        } else {
                            old(stats).num_fragments
                        },
                        num_payloads: if result is Ok && result->Ok_0 is ErasePayload {
                            counted(old(stats).num_payloads)
                        } else {
                            old(stats).num_payloads
                        },
                    })
                },
            },
    {
        if let Some((group, bucket)) = self.needed(&address.hash) {
            return Step::LoadBucket { group, bucket };
        }
        let g: usize = address.hash.group_index();
        let group = &mut self.group[g];
        let r = group.obliterate(partition, address, erased, stats);
        Step::Done(r)
    }
}

/// A group opens with as many buckets as its marker records. One without a marker opens flat, with
/// all buckets, where the store was there before, and with as many as a new store has where it was
/// not. What the disk is said to record is the marker, or nothing.
pub proof fn law_groups_open_as_they_were_left(
    layout: StoreLayout,
    group: ImmutableStoreGroup,
    g: int,
    initial: usize,
    threshold: usize,
)
    requires
        layout.valid(),
        0 <= g < 256,
        layout.opens(group, g, initial, threshold),
    ensures
        layout.markers@[g] is Some ==> group.bucket_count == layout.markers@[g]->0
            && group.committed_level == layout.markers@[g]->0,
        layout.markers@[g] is None ==> group.committed_level == 0,
        layout.markers@[g] is None && layout.index_existed ==> group.bucket_count == 256,
        layout.markers@[g] is None && !layout.index_existed ==> group.bucket_count == initial,
        group.fan_out_threshold == threshold,
{
}

/// A store writes the newest version where it is new, has markers, or has files that are to be
/// written again anyway. A store of the version before that, without markers, stays with it.
pub proof fn law_stores_keep_their_version(layout: StoreLayout)
    ensures
        !layout.index_existed ==> layout.version() == 5,
        layout.index_existed && (exists|g: int|
            0 <= g < 256 && (#[trigger] layout.markers@[g]) is Some) ==> layout.version() == 5,
        layout.index_existed && (forall|g: int|
            0 <= g < 256 ==> (#[trigger] layout.markers@[g]) is None) ==> layout.version() == if (
        exists|d: int|
            0 <= d < layout.directories@.len() && #[trigger] directory_is_older(
                layout.directories@[d]@,
            )) {
            5u32
        } else {
            4u32
        },
{
}

/// A percentage that leaves nothing, or takes nothing away, is not used.
pub proof fn law_percentages_are_in_range(percentage: usize)
    ensures
        0 < valid_percentage(percentage) < 100,
        0 < percentage < 100 ==> valid_percentage(percentage) == percentage,
        !(0 < percentage < 100) ==> valid_percentage(percentage) == 70,
{
}

/// A letter in lower case.
pub open spec fn lower_case(byte: u8) -> u8 {
    if 0x41 <= byte <= 0x5a {
        (byte + 0x20) as u8
    } else {
        byte
    }
}

/// A setting is switched on by a one, or by the word for true in whatever case.
pub proof fn law_one_and_true_switch_on(value: Seq<u8>)
    ensures
        switches_on(value) <==> value == seq![0x31u8] || value.map_values(|b: u8| lower_case(b))
            == seq![0x74u8, 0x72u8, 0x75u8, 0x65u8],
{
    let lower = value.map_values(|b: u8| lower_case(b));
    let word = seq![0x74u8, 0x72u8, 0x75u8, 0x65u8];
    if lower == word {
        assert(value.len() == lower.len());
        assert(lower_case(value[0]) == lower[0] && lower_case(value[1]) == lower[1] && lower_case(
            value[2],
        ) == lower[2] && lower_case(value[3]) == lower[3]);
        assert(lower[0] == 0x74 && lower[1] == 0x72 && lower[2] == 0x75 && lower[3] == 0x65);
    } else if switches_on(value) && value != seq![0x31u8] {
        assert(lower =~= word);
    }
}

} // verus!
