//! Reading from the store, and the upkeep around its operations.
use vstd::prelude::*;

use crate::error::{InternalError, LocalImmutableStoreError, StoreError};
use crate::local::bucket::{data_at, found, law_lookup_finds_the_best_match, sorted};
use crate::local::codec::{file_view, recovered};
use crate::local::data::{ImmutableData, ImmutableStoreEntry};
use crate::local::find::{
    find_result, get_data, get_result, is_obliterated, query_data, query_result, stamps,
};
use crate::local::group::{contents_fit, read_as, ImmutableStoreGroup, GROUP_COUNT};
use crate::local::immutable_store::{LocalImmutableStore, Step, StoreFollowUp};
use crate::local::put::{merged, put_result};
use crate::local::store::{law_stored_fragment_is_found, StoreOutcome, StoreRequest};
use crate::maintenance::GcPass;
use crate::types::{
    Address, Fragment, Partition, StoreMatch, StoreQueryResult, PAYLOAD_OBLITERATED,
    PAYLOAD_STORED_DURABLE,
};

verus! {

/// What a lookup says, as callers of the store see it.
pub open spec fn looked_up(
    s: Seq<ImmutableStoreEntry>,
    partition: Partition,
    address: Address,
    request: StoreMatch,
    atime: bool,
    now: u64,
) -> Result<(ImmutableData, StoreMatch), StoreError> {
    match find_result(s, partition, address, request, atime, now).0 {
        Ok(hit) => Ok(hit),
        Err(e) => Err(e.forwarded()),
    }
}

impl LocalImmutableStore {
    /// Whether an answer to a lookup leaves the store as the lookup does.
    pub open spec fn after_lookup(
        before: LocalImmutableStore,
        after: LocalImmutableStore,
        partition: Partition,
        address: Address,
        request: StoreMatch,
        now: u64,
    ) -> bool {
        let s = before.slots_of(address.hash);
        let atime = before.settings.atime;
        if request == StoreMatch::MatchNone {
            after == before
        } else {
            Self::updated(
                before,
                after,
                address.hash,
                find_result(s, partition, address, request, atime, now).1,
                before.dirty_at(address.hash) || stamps(s, partition, address, request, atime),
            )
        }
    }

    /// How much of an address the store has.
    pub fn exist(
        &mut self,
        partition: Partition,
        address: Address,
        match_requested: StoreMatch,
        now: u64,
    ) -> (r: Step<Result<StoreMatch, StoreError>>)
        requires
            old(self).wf(),
        ensures
            final(self).wf(),
            match r {
                Step::LoadBucket { group, bucket } => Self::asks_for(
                    *old(self),
                    *final(self),
                    address.hash,
                    group,
                    bucket,
                ) && match_requested != StoreMatch::MatchNone,
                Step::Done(result) => {
                    let s = old(self).slots_of(address.hash);
                    let hit = looked_up(
                        s,
                        partition,
                        address,
                        match_requested,
                        old(self).settings.atime,
                        now,
                    );
                    &&& Self::did_exist(
                        *old(self),
                        *final(self),
                        partition,
                        address,
                        match_requested,
                        now,
                        result,
                    )
                    &&& result == match hit {
                        Ok((data, matching)) => Ok::<StoreMatch, StoreError>(matching),
                        Err(e) => Err(e),
                    }
                    &&& Self::after_lookup(
                        *old(self),
                        *final(self),
                        partition,
                        address,
                        match_requested,
                        now,
                    )
                },
            },
    {
        match self.find(partition, address, match_requested, now) {
            Step::LoadBucket { group, bucket } => Step::LoadBucket { group, bucket },
            Step::Done(Err(e)) => Step::Done(Err(e.forward())),
            Step::Done(Ok(found)) => Step::Done(Ok(found.matching)),
        }
    }

    /// What the store knows of a fragment.
    pub fn query(
        &mut self,
        partition: Partition,
        address: Address,
        match_requested: StoreMatch,
        now: u64,
    ) -> (r: Step<Result<StoreQueryResult, StoreError>>)
        requires
            old(self).wf(),
        ensures
            final(self).wf(),
            match r {
                Step::LoadBucket { group, bucket } => Self::asks_for(
                    *old(self),
                    *final(self),
                    address.hash,
                    group,
                    bucket,
                ) && match_requested != StoreMatch::MatchNone,
                Step::Done(result) => {
                    let s = old(self).slots_of(address.hash);
                    let hit = looked_up(
                        s,
                        partition,
                        address,
                        match_requested,
                        old(self).settings.atime,
                        now,
                    );
                    &&& Self::did_query(
                        *old(self),
                        *final(self),
                        partition,
                        address,
                        match_requested,
                        now,
                        result,
                    )
                    &&& result == match hit {
                        Ok((data, matching)) => Ok::<StoreQueryResult, StoreError>(
                            query_result(
                                data,
                                matching,
                                old(self).settings.implicit_durable_stored,
                            ),
                        ),
                        Err(e) => Err(e),
                    }
                    &&& Self::after_lookup(
                        *old(self),
                        *final(self),
                        partition,
                        address,
                        match_requested,
                        now,
                    )
                },
            },
    {
        match self.find(partition, address, match_requested, now) {
            Step::LoadBucket { group, bucket } => Step::LoadBucket { group, bucket },
            Step::Done(Err(e)) => Step::Done(Err(e.forward())),
            Step::Done(Ok(found)) => Step::Done(
                Ok(
                    query_data(
                        found.data,
                        found.matching,
                        self.settings.implicit_durable_stored,
                    ),
                ),
            ),
        }
    }

    /// The fragment at an address and where its payload lies, for a reader that needs a match of a
    /// given strength.
    pub fn get(
        &mut self,
        partition: Partition,
        address: Address,
        match_required: StoreMatch,
        now: u64,
    ) -> (r: Step<Result<(Fragment, ImmutableData), StoreError>>)
        requires
            old(self).wf(),
        ensures
            final(self).wf(),
            match r {
                Step::LoadBucket { group, bucket } => Self::asks_for(
                    *old(self),
                    *final(self),
                    address.hash,
                    group,
                    bucket,
                ) && match_required != StoreMatch::MatchNone,
                Step::Done(result) => {
                    let s = old(self).slots_of(address.hash);
                    let hit = looked_up(
                        s,
                        partition,
                        address,
                        match_required,
                        old(self).settings.atime,
                        now,
                    );
                    &&& Self::did_get(
                        *old(self),
                        *final(self),
                        partition,
                        address,
                        match_required,
                        now,
                        result,
                    )
                    &&& result == match hit {
                        Ok(hit) => get_result(
                            hit,
                            address,
                            match_required,
                            old(self).settings.implicit_durable_stored,
                        ),
                        Err(e) => Err(e),
                    }
                    &&& Self::after_lookup(
                        *old(self),
                        *final(self),
                        partition,
                        address,
                        match_required,
                        now,
                    )
                },
            },
    {
        match self.find(partition, address, match_required, now) {
            Step::LoadBucket { group, bucket } => Step::LoadBucket { group, bucket },
            Step::Done(Err(e)) => Step::Done(Err(e.forward())),
            Step::Done(Ok(found)) => Step::Done(
                get_data(
                    (found.data, found.matching),
                    address,
                    match_required,
                    self.settings.implicit_durable_stored,
                ),
            ),
        }
    }

    /// What is to be loaded for an entry: the pack file, the place in it, and how many bytes.
    pub open spec fn load_from(data: ImmutableData) -> Result<
        (u32, u32, u32),
        LocalImmutableStoreError,
    > {
        if data.pack_file != 0 {
            Ok((data.pack_file, data.pack_offset, data.size_payload))
        } else {
            Err(LocalImmutableStoreError::Internal(InternalError::NoLocalData))
        }
    }

    /// What is left to do after a fragment was recorded.
    pub open spec fn follows_up(self, data: ImmutableData, flush_idle: bool) -> StoreFollowUp {
        let durable = data.flags & PAYLOAD_STORED_DURABLE == PAYLOAD_STORED_DURABLE;
        StoreFollowUp {
            flush: flush_idle && (!durable || self.settings.flush_background),
            verify: self.settings.verify_write && data.pack_file != 0 && data.flags
                & PAYLOAD_OBLITERATED == 0,
        }
    }

    /// What is to be loaded from the pack files for an entry: nothing where no payload is held
    /// locally.
    pub fn load(data: &ImmutableData) -> (r: Result<(u32, u32, u32), LocalImmutableStoreError>)
        ensures
            r == if data.pack_file == 0 {
                Err::<(u32, u32, u32), LocalImmutableStoreError>(
                    LocalImmutableStoreError::Internal(InternalError::NoLocalData),
                )
            } else {
                Ok((data.pack_file, data.pack_offset, data.size_payload))
            },
            r == Self::load_from(*data),
    {
        if data.pack_file == 0 {
            return Err(LocalImmutableStoreError::Internal(InternalError::NoLocalData));
        }
        Ok((data.pack_file, data.pack_offset, data.size_payload))
    }

    /// What is left to do after a fragment was recorded. A delayed flush is started unless one is on
    /// its way or the fragment is stored durably; a store that flushes in the background starts it
    /// all the same.
    pub fn after_store(&self, data: &ImmutableData, flush_idle: bool) -> (r: StoreFollowUp)
        ensures
            r.flush == (flush_idle && (self.settings.flush_background || data.flags
                & PAYLOAD_STORED_DURABLE != PAYLOAD_STORED_DURABLE)),
            r.verify == (self.settings.verify_write && data.pack_file != 0 && data.flags
                & PAYLOAD_OBLITERATED == 0),
            r == self.follows_up(*data, flush_idle),
    {
        let durable = data.flags & PAYLOAD_STORED_DURABLE == PAYLOAD_STORED_DURABLE;
        StoreFollowUp {
            flush: (!durable || self.settings.flush_background) && flush_idle,
            verify: self.settings.verify_write && data.pack_file != 0 && data.flags
                & PAYLOAD_OBLITERATED == 0,
        }
    }

    /// Compares what was read back with what was to be written.
    pub fn check_written(found: Option<crate::types::Hash>, hash: crate::types::Hash) -> (r: Result<
        (),
        LocalImmutableStoreError,
    >)
        ensures
            r is Ok <==> found == Some(hash),
            r is Err ==> r->Err_0 == LocalImmutableStoreError::Internal(
                InternalError::HashMismatch,
            ),
    {
        match found {
            Some(read) => if read == hash {
                Ok(())
            } else {
                Err(LocalImmutableStoreError::Internal(InternalError::HashMismatch))
            },
            None => Err(LocalImmutableStoreError::Internal(InternalError::HashMismatch)),
        }
    }

    /// What holds of a store whatever entries one bucket of one of its groups has.
    pub open spec fn wf_but(self, group: int, bucket: int) -> bool {
        &&& self.group@.len() == 256
        &&& forall|g: int| 0 <= g < 256 && g != group ==> (#[trigger] self.group@[g]).wf()
        &&& self.group@[group].wf_but(bucket)
    }

    /// Whether the entries of a bucket are in order and belong there.
    pub fn bucket_fits(&self, group: usize, bucket: usize) -> (r: bool)
        requires
            self.wf_but(group as int, bucket as int),
            group < 256,
            bucket < 256,
        ensures
            r == self.wf(),
    {
        self.group[group].bucket_fits(bucket)
    }

    /// Reads a bucket from its file. Gives whether the file is to be removed, and the eviction to
    /// run where the fragments that were loaded are too many. The bucket gets what the file holds,
    /// as it is: `bucket_fits` says whether that is in order.
    pub fn load_bucket(&mut self, group: usize, bucket: usize, file: &Option<Vec<u8>>) -> (r: Result<
        (bool, Option<(u64, GcPass)>),
        LocalImmutableStoreError,
    >)
        requires
            old(self).wf(),
            group < 256,
            bucket < old(self).group@[group as int].bucket_count,
        ensures
            final(self).wf_but(group as int, bucket as int),
            ({
                let g = group as int;
                let b = bucket as int;
                let before = old(self).group@[g];
                let after = final(self).group@[g];
                let counters = old(self).gc_counters;
                &&& *final(self) == (LocalImmutableStore {
                    group: final(self).group,
                    gc_counters: final(self).gc_counters,
                    ..*old(self)
                })
                &&& final(self).group@ == old(self).group@.update(g, after)
                &&& after.bucket_count == before.bucket_count
                &&& after.serialize_version == before.serialize_version
                &&& after.fan_out_threshold == before.fan_out_threshold
                &&& after.committed_level == before.committed_level
                &&& after.touched@ == before.touched@.update(b, true)
                &&& forall|c: int|
                    0 <= c < 256 && c != b ==> #[trigger] after.bucket@[c] == before.bucket@[c]
                &&& if before.bucket@[b].deserialized {
                    &&& r == Ok::<(bool, Option<(u64, GcPass)>), LocalImmutableStoreError>(
                        (false, None),
                    )
                    &&& after.bucket@[b] == before.bucket@[b]
                    &&& after.dirty@ == before.dirty@
                    &&& final(self).gc_counters == counters
                    &&& final(self).wf()
                } else {
                    match recovered(file_view(*file)) {
                        Err(e) => {
                            &&& r == Err::<
                                (bool, Option<(u64, GcPass)>),
                                LocalImmutableStoreError,
                            >(e)
                            &&& after.bucket@[b] == before.bucket@[b]
                            &&& after.dirty@ == before.dirty@
                            &&& final(self).gc_counters == counters
                            &&& final(self).wf()
                        },
                        Ok((contents, remove)) => {
                            let count = contents.entry.len() as usize;
                            &&& r is Ok
                            &&& r->Ok_0.0 == remove
                            &&& r->Ok_0.1 is Some <==> counters.evicts_at(count)
                                && counters.store is Some
                            &&& r->Ok_0.1 is Some ==> r->Ok_0.1 == Some(
                                (
                                    counters.store->0,
                                    GcPass {
                                        max_size: 0,
                                        max_capacity: counters.max_capacity,
                                        sync_data: counters.sync_data,
                                    },
                                ),
                            )
                            &&& final(self).gc_counters == crate::maintenance::after_fragments(
                                counters,
                                count,
                            )
                            &&& read_as(after.bucket@[b], contents)
                            &&& after.dirty@ == before.dirty@.update(
                                b,
                                before.dirty@[b] || contents.mark_dirty,
                            )
                            &&& final(self).wf() == contents_fit(
                                contents,
                                before.bucket_count as int,
                                b,
                            )
                        },
                    }
                }
            }),
    {
        let read = self.group[group].bucket[bucket].deserialized;
        let target = &mut self.group[group];
        match target.load_bucket(bucket, file) {
            Err(e) => Err(e),
            Ok((count, remove)) => {
                if read {
                    return Ok((false, None));
                }
                let pass = self.gc_counters.add_loaded_fragments(count);
                Ok((remove, pass))
            },
        }
    }

    /// The buckets of a group that are still to be read from disk, in order.
    pub open spec fn unread_buckets(group: ImmutableStoreGroup, n: int) -> Seq<usize>
        decreases n,
    {
        if n <= 0 {
            Seq::empty()
        } else if group.bucket@[n - 1].deserialized {
            Self::unread_buckets(group, n - 1)
        } else {
            Self::unread_buckets(group, n - 1).push((n - 1) as usize)
        }
    }

    /// The buckets of a group that are still to be read, when all are: none where that was done
    /// before, or nothing is on disk.
    pub fn deserialize_all_buckets(&self, group: usize) -> (r: Vec<usize>)
        requires
            self.wf(),
            group < 256,
        ensures
            r@ == if self.deserialized_all || !self.on_disk {
                Seq::empty()
            } else {
                Self::unread_buckets(
                    self.group@[group as int],
                    self.group@[group as int].bucket_count as int,
                )
            },
    {
        let mut unread: Vec<usize> = Vec::new();
        if self.deserialized_all || !self.on_disk {
            assert(unread@ =~= Seq::empty());
            return unread;
        }
        let n: usize = self.group[group].bucket_count;
        let mut b: usize = 0;
        while b < n
            invariant
                self.wf(),
                group < 256,
                b <= n == self.group@[group as int].bucket_count,
                unread@ == Self::unread_buckets(self.group@[group as int], b as int),
            decreases n - b,
        {
            assert(self.group@[group as int].wf());
            if !self.group[group].bucket[b].deserialized {
                unread.push(b);
            }
            b = b + 1;
        }
        unread
    }

    /// How many entries the first groups have.
    pub open spec fn entries_below(self, n: int) -> int
        decreases n,
    {
        if n <= 0 {
            0
        } else {
            self.entries_below(n - 1) + crate::local::fan_out::entries(
                self.group@[n - 1].bucket@,
                256,
            )
        }
    }

    /// How many fragments are in memory.
    pub fn fragment_count(&self) -> (r: u64)
        requires
            self.wf(),
        ensures
            r == self.entries_below(256),
    {
        let mut total: u64 = 0;
        let mut g: usize = 0;
        while g < GROUP_COUNT
            invariant
                self.wf(),
                g <= 256,
                total == self.entries_below(g as int),
                total <= g * 256 * 0xffff_ffff,
            decreases 256 - g,
        {
            assert(self.group@[g as int].wf());
            let ghost start = total;
            let mut b: usize = 0;
            while b < 256
                invariant
                    self.wf(),
                    g < 256,
                    b <= 256,
                    self.group@[g as int].wf(),
                    start <= g * 256 * 0xffff_ffff,
                    total == start + crate::local::fan_out::entries(
                        self.group@[g as int].bucket@,
                        b as int,
                    ),
                    total <= start + b * 0xffff_ffff,
                decreases 256 - b,
            {
                assert(self.group@[g as int].bucket@[b as int].wf());
                total = total + self.group[g].bucket[b].sorted_index.len() as u64;
                b = b + 1;
            }
            g = g + 1;
        }
        total
    }

    /// Stops garbage collection.
    pub fn compact_stop(&mut self)
        ensures
            *final(self) == (LocalImmutableStore { stop_gc: true, ..*old(self) }),
    {
        self.stop_gc = true;
    }
}

/// A fragment that was recorded with a payload is read back from the place that the payload was
/// written to, at the very address, with the sizes and flags that were recorded.
pub proof fn law_recorded_fragment_is_read_back(
    request: StoreRequest,
    s: Seq<ImmutableStoreEntry>,
    now: u64,
)
    requires
        sorted(s),
        request.result(s).0 is Ok,
        request.result(s).0->Ok_0 is Stored,
        request.record(s).pack_file != 0,
        !is_obliterated(request.record(s)),
    ensures
        ({
            let after = request.result(s).1;
            let hit = looked_up(
                after,
                request.partition,
                request.address,
                StoreMatch::MatchFull,
                false,
                now,
            );
            let data = request.record(s);
            &&& hit is Ok
            &&& get_result(hit->Ok_0, request.address, StoreMatch::MatchFull, false) == Ok::<
                (Fragment, ImmutableData),
                StoreError,
            >(
                (
                    Fragment {
                        flags: data.flags,
                        size_payload: data.size_payload,
                        size_content: request.fragment.size_content,
                    },
                    data,
                ),
            )
        }),
{
    law_stored_fragment_is_found(request, s);
}

/// A fragment that was put with its payload is read back at its very address, with the data that the
/// put reported. Where nothing of its hash was known, that is what the caller gave, and the place
/// that the payload was written to.
pub proof fn law_put_is_read_back(
    request: StoreRequest,
    check: Result<(), StoreError>,
    atime: bool,
    s: Seq<ImmutableStoreEntry>,
    now: u64,
    data: ImmutableData,
)
    requires
        sorted(s),
        put_result(request, check, atime, s).0 == Ok::<StoreOutcome, StoreError>(
            StoreOutcome::Stored(data),
        ),
        data.pack_file != 0,
        !is_obliterated(data),
    ensures
        ({
            let after = put_result(request, check, atime, s).1;
            let hit = looked_up(
                after,
                request.partition,
                request.address,
                StoreMatch::MatchFull,
                false,
                now,
            );
            &&& hit is Ok
            &&& get_result(hit->Ok_0, request.address, StoreMatch::MatchFull, false) == Ok::<
                (Fragment, ImmutableData),
                StoreError,
            >(
                (
                    Fragment {
                        flags: data.flags,
                        size_payload: data.size_payload,
                        size_content: request.fragment.size_content,
                    },
                    data,
                ),
            )
        }),
        !request.known(s) ==> request.packed is Some && data == (ImmutableData {
            flags: request.fragment.flags,
            size_payload: request.fragment.size_payload,
            size_content: request.fragment.size_content,
            pack_file: request.packed->0.id,
            pack_offset: request.packed->0.offset,
            last_access: request.now,
        }),
{
    reveal(put_result);
    let (p, a) = (request.partition, request.address);
    law_lookup_finds_the_best_match(s, p, a, StoreMatch::MatchFull);
    let (hit, t) = find_result(s, p, a, StoreMatch::MatchFull, atime, request.now);
    let (found_data, made) = hit->Ok_0;
    assert forall|i: int, j: int| 0 <= i < j < t.len() implies (#[trigger] t[i]).key().before(
        (#[trigger] t[j]).key(),
    ) by {
        assert(s[i].key().before(s[j].key()));
    }
    let forced = request.force && request.payload is Some;
    law_stored_fragment_is_found(
        merged(request, found_data, made),
        if forced {
            s
        } else {
            t
        },
    );
}

/// An address that is not recorded is reported as not found, whatever else the bucket holds.
pub proof fn law_unknown_address_is_not_found(
    s: Seq<ImmutableStoreEntry>,
    partition: Partition,
    address: Address,
    implicit_durable: bool,
    now: u64,
)
    requires
        sorted(s),
        data_at(s, partition, address) is None,
    ensures
        ({
            let hit = looked_up(s, partition, address, StoreMatch::MatchFull, false, now);
            &&& hit is Ok
            &&& get_result(hit->Ok_0, address, StoreMatch::MatchFull, implicit_durable) == Err::<
                (Fragment, ImmutableData),
                StoreError,
            >(StoreError::AddressNotFound(address))
        }),
{
}

/// All buckets of a group that were not read are to be read, each once and in order.
pub proof fn law_every_unread_bucket_is_read(group: ImmutableStoreGroup, n: int)
    requires
        0 <= n <= 256,
    ensures
        forall|b: usize| #[trigger]
            LocalImmutableStore::unread_buckets(group, n).contains(b) <==> b < n
                && !group.bucket@[b as int].deserialized,
        forall|i: int, j: int|
            0 <= i < j < LocalImmutableStore::unread_buckets(group, n).len() ==> (
            #[trigger] LocalImmutableStore::unread_buckets(group, n)[i]) < (
            #[trigger] LocalImmutableStore::unread_buckets(group, n)[j]),
    decreases n,
{
    if n > 0 {
        law_every_unread_bucket_is_read(group, n - 1);
        let before = LocalImmutableStore::unread_buckets(group, n - 1);
        let after = LocalImmutableStore::unread_buckets(group, n);
        assert forall|b: usize| #[trigger] after.contains(b) <==> b < n
            && !group.bucket@[b as int].deserialized by {
            if !group.bucket@[n - 1].deserialized {
                assert(after[before.len() as int] == n - 1);
            }
            if before.contains(b) {
                let k = choose|k: int| 0 <= k < before.len() && before[k] == b;
                assert(after[k] == b);
            }
            if after.contains(b) && !before.contains(b) {
                let k = choose|k: int| 0 <= k < after.len() && after[k] == b;
                if k < before.len() {
                    assert(before[k] == b);
                }
            }
        }
        assert forall|i: int, j: int| 0 <= i < j < after.len() implies (#[trigger] after[i]) < (
        #[trigger] after[j]) by {
            assert(before.contains(before[i]));
        }
    }
}

/// What is not stored durably is flushed soon: a flush is started unless one is on its way. What is
/// stored durably is flushed soon only by a store that flushes in the background. Where writes are
/// verified every payload that is held locally is read back.
pub proof fn law_recorded_fragments_are_followed_up(
    store: LocalImmutableStore,
    data: ImmutableData,
    flush_idle: bool,
)
    ensures
        ({
            let after = store.follows_up(data, flush_idle);
            &&& !flush_idle ==> !after.flush
            &&& flush_idle && data.flags & PAYLOAD_STORED_DURABLE == 0 ==> after.flush
            &&& flush_idle && store.settings.flush_background ==> after.flush
            &&& data.flags & PAYLOAD_STORED_DURABLE != 0 && !store.settings.flush_background
                ==> !after.flush
            &&& after.verify <==> store.settings.verify_write && data.pack_file != 0 && data.flags
                & PAYLOAD_OBLITERATED == 0
        }),
{
    let f = data.flags;
    assert(f & 0x200u32 == 0 || f & 0x200u32 == 0x200u32) by (bit_vector);
}

/// A payload is loaded from where it lies, and all of it. What is not held locally cannot be loaded.
pub proof fn law_payloads_are_loaded_whole(data: ImmutableData)
    ensures
        LocalImmutableStore::load_from(data) is Ok <==> data.pack_file != 0,
        data.pack_file != 0 ==> {
            let (file, offset, size) = LocalImmutableStore::load_from(data)->Ok_0;
            file == data.pack_file && offset == data.pack_offset && size == data.size_payload
        },
{
}

} // verus!
