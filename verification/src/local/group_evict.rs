//! Evicting payloads of a whole group.
use vstd::prelude::*;

use crate::local::data::{ImmutableData, ImmutableStoreEntry};
use crate::local::evict_sized::{bucket_cutoff, loses, payloads, unloaded};
use crate::local::group::{routed, ImmutableStoreGroup};
use crate::types::PAYLOAD_STORED_DURABLE;

verus! {

/// How many payloads the first buckets of a group have, and of how many bytes.
pub open spec fn stored_in(group: ImmutableStoreGroup, n: int) -> (int, int)
    decreases n,
{
    if n <= 0 {
        (0, 0)
    } else {
        let (count, size) = stored_in(group, n - 1);
        let (c, s) = payloads(group.bucket@[n - 1].entry@);
        (count + c, size + s)
    }
}

/// The bytes that one bucket of a group may store.
pub open spec fn bucket_share(group: ImmutableStoreGroup, target_size: int) -> int {
    target_size / group.bucket_count as int
}

/// The time up to which the payloads of a bucket go.
pub open spec fn cutoff_in(
    group: ImmutableStoreGroup,
    b: int,
    target_size: int,
    protect_local: bool,
) -> u64 {
    let entry = group.bucket@[b].entry@;
    bucket_cutoff(entry, protect_local, payloads(entry).1, bucket_share(group, target_size))
}

/// The entries of a bucket that lose their payload.
pub open spec fn losers(
    group: ImmutableStoreGroup,
    b: int,
    target_size: int,
    protect_local: bool,
) -> Seq<ImmutableStoreEntry> {
    let cutoff = cutoff_in(group, b, target_size, protect_local);
    group.bucket@[b].slots().filter(|e: ImmutableStoreEntry| loses(e, protect_local, cutoff))
}

/// The entries of a bucket once payloads went.
pub open spec fn remaining(
    group: ImmutableStoreGroup,
    b: int,
    target_size: int,
    protect_local: bool,
) -> Seq<ImmutableStoreEntry> {
    let cutoff = cutoff_in(group, b, target_size, protect_local);
    group.bucket@[b].slots().map_values(
        |e: ImmutableStoreEntry| unloaded(e, protect_local, cutoff),
    )
}

/// How many payloads of the first buckets go, and of how many bytes.
pub open spec fn evicted_in(
    group: ImmutableStoreGroup,
    n: int,
    target_size: int,
    protect_local: bool,
) -> (int, int)
    decreases n,
{
    if n <= 0 {
        (0, 0)
    } else {
        let (count, size) = evicted_in(group, n - 1, target_size, protect_local);
        let (c, s) = if group.touched@[n - 1] {
            payloads(losers(group, n - 1, target_size, protect_local))
        } else {
            (0, 0)
        };
        (count + c, size + s)
    }
}

/// A group after an eviction by size.
pub open spec fn evicted_group(
    before: ImmutableStoreGroup,
    after: ImmutableStoreGroup,
    target_size: int,
    protect_local: bool,
) -> bool {
    let n = before.bucket_count as int;
    let runs = stored_in(before, n).1 >= target_size;
    &&& after.bucket_count == before.bucket_count
    &&& after.serialize_version == before.serialize_version
    &&& after.fan_out_threshold == before.fan_out_threshold
    &&& after.committed_level == before.committed_level
    &&& after.touched@ == before.touched@
    &&& forall|b: int|
        0 <= b < 256 ==> (#[trigger] after.bucket@[b]).slots() == if runs && b < n
            && before.touched@[b] {
            remaining(before, b, target_size, protect_local)
        } else {
            before.bucket@[b].slots()
        }
    &&& forall|b: int|
        0 <= b < 256 ==> #[trigger] after.dirty@[b] == (before.dirty@[b] || (runs && b < n
            && before.touched@[b]))
    &&& forall|b: int|
        0 <= b < 256 ==> (#[trigger] after.bucket@[b]).deserialized
            == before.bucket@[b].deserialized && after.bucket@[b].upgrade_packfile
            == before.bucket@[b].upgrade_packfile
    &&& forall|b: int|
        0 <= b < 256 && !(runs && b < n && before.touched@[b]) ==> #[trigger] after.bucket@[b]
            == before.bucket@[b]
}

/// Sizes of payloads are not negative, and fit their number.
proof fn lemma_bucket_payloads(s: Seq<ImmutableStoreEntry>)
    requires
        s.len() <= u32::MAX,
    ensures
        0 <= payloads(s).0 <= u32::MAX,
        0 <= payloads(s).1 <= u64::MAX,
{
    crate::local::evict_sized::lemma_payloads_bound(s);
    assert(s.len() * 0xffff_ffff <= 0xffff_ffff * 0xffff_ffff) by (nonlinear_arith)
        requires
            s.len() <= 0xffff_ffff,
    ;
}

impl ImmutableStoreGroup {
    /// How many payloads the buckets in use have, and of how many bytes.
    pub fn stored_payloads(&self) -> (r: (u64, u128))
        requires
            self.wf(),
        ensures
            (r.0 as int, r.1 as int) == stored_in(*self, self.bucket_count as int),
    {
        let mut count: u64 = 0;
        let mut size: u128 = 0;
        let mut b: usize = 0;
        while b < self.bucket_count
            invariant
                self.wf(),
                b <= self.bucket_count,
                (count as int, size as int) == stored_in(*self, b as int),
                count <= b * 0xffff_ffff,
                size <= b * 0xffff_ffff_ffff_ffff,
            decreases self.bucket_count - b,
        {
            proof {
                assert(self.bucket@[b as int].wf());
                lemma_bucket_payloads(self.bucket@[b as int].entry@);
            }
            let (c, s) = self.bucket[b].stored_payloads();
            count = count + c;
            size = size + s as u128;
            b = b + 1;
        }
        (count, size)
    }

    /// Evicts payloads, the smallest first, until the group stores fewer bytes than its target, with
    /// an equal share for each bucket. Where local fragments are protected, those that no durable
    /// store has confirmed keep their payload. Returns how many payloads went, and of how many
    /// bytes.
    pub fn evict_group_sized(&mut self, target_size: u64, protect_local: bool) -> (r: (u64, u128))
        requires
            old(self).wf(),
        ensures
            final(self).wf(),
            evicted_group(*old(self), *final(self), target_size as int, protect_local),
            (r.0 as int, r.1 as int) == if stored_in(
                *old(self),
                old(self).bucket_count as int,
            ).1 >= target_size {
                evicted_in(
                    *old(self),
                    old(self).bucket_count as int,
                    target_size as int,
                    protect_local,
                )
            } else {
                (0, 0)
            },
    {
        let ghost was = *self;
        let n: usize = self.bucket_count;
        let (_, stored) = self.stored_payloads();
        if stored < target_size as u128 {
            return (0, 0);
        }
        let share: u64 = target_size / n as u64;
        let mut count: u64 = 0;
        let mut size: u128 = 0;
        let mut b: usize = 0;
        while b < n
            invariant
                was.wf(),
                self.wf(),
                b <= n == was.bucket_count == self.bucket_count,
                share == bucket_share(was, target_size as int),
                self.serialize_version == was.serialize_version,
                self.fan_out_threshold == was.fan_out_threshold,
                self.committed_level == was.committed_level,
                self.touched@ == was.touched@,
                forall|c: int| b <= c < 256 ==> #[trigger] self.bucket@[c] == was.bucket@[c],
                forall|c: int|
                    0 <= c < b ==> (#[trigger] self.bucket@[c]).slots() == if was.touched@[c] {
                        remaining(was, c, target_size as int, protect_local)
                    } else {
                        was.bucket@[c].slots()
                    },
                forall|c: int|
                    0 <= c < 256 ==> #[trigger] self.dirty@[c] == (was.dirty@[c] || (c < b
                        && was.touched@[c])),
                forall|c: int|
                    0 <= c < 256 ==> (#[trigger] self.bucket@[c]).deserialized
                        == was.bucket@[c].deserialized && self.bucket@[c].upgrade_packfile
                        == was.bucket@[c].upgrade_packfile,
                forall|c: int|
                    0 <= c < b && !was.touched@[c] ==> #[trigger] self.bucket@[c]
                        == was.bucket@[c],
                (count as int, size as int) == evicted_in(
                    was,
                    b as int,
                    target_size as int,
                    protect_local,
                ),
                count <= b * 0xffff_ffff,
                size <= b * 0xffff_ffff_ffff_ffff,
            decreases n - b,
        {
            if self.touched[b] {
                let ghost before = *self;
                proof {
                    assert(self.bucket@[b as int] == was.bucket@[b as int]);
                    assert(was.bucket@[b as int].wf());
                    lemma_bucket_payloads(self.bucket@[b as int].entry@);
                }
                let (_, bytes) = self.bucket[b].stored_payloads();
                let cutoff: u64 = self.bucket[b].eviction_cutoff(protect_local, bytes, share);
                let bucket = &mut self.bucket[b];
                let (c, s) = bucket.unload_payloads(protect_local, cutoff);
                self.dirty.set(b, true);
                proof {
                    let slots = was.bucket@[b as int].slots();
                    let lost = losers(was, b as int, target_size as int, protect_local);
                    slots.lemma_filter_len(
                        |e: ImmutableStoreEntry| loses(e, protect_local, cutoff),
                    );
                    lemma_bucket_payloads(lost);
                    assert(self.bucket@[b as int].slots() == remaining(
                        was,
                        b as int,
                        target_size as int,
                        protect_local,
                    ));
                    assert forall|i: int| 0 <= i < slots.len() implies crate::local::group::bucket_of(
                        (#[trigger] self.bucket@[b as int].slots()[i]).address.hash,
                        n as int,
                    ) == b by {
                        assert(crate::local::group::bucket_of(slots[i].address.hash, n as int)
                            == b);
                    }
                    assert(routed(self.bucket@[b as int].slots(), n as int, b as int));
                    assert forall|k: int| 0 <= k < 256 implies (#[trigger] self.bucket@[k]).wf()
                        && routed(self.bucket@[k].slots(), n as int, k) by {
                        if k != b {
                            assert(self.bucket@[k] == before.bucket@[k]);
                        }
                    }
                    assert forall|k: int| 0 <= k < 256 && !#[trigger] self.touched@[k] implies
                        self.bucket@[k].slots().len() == 0 && !self.dirty@[k] by {
                        assert(!before.touched@[k]);
                        assert(self.bucket@[k] == before.bucket@[k]);
                    }
                }
                count = count + c;
                size = size + s as u128;
            }
            b = b + 1;
        }
        (count, size)
    }
}

/// The share of a bucket is the most that all buckets of the group can have without going beyond the
/// target.
pub proof fn law_target_is_shared_out(group: ImmutableStoreGroup, target_size: int, n: int)
    requires
        group.bucket_count > 0,
        0 <= target_size,
    ensures
        bucket_share(group, target_size) * group.bucket_count <= target_size,
        n > bucket_share(group, target_size) ==> n * group.bucket_count > target_size,
{
    let count = group.bucket_count as int;
    let share = bucket_share(group, target_size);
    vstd::arithmetic::div_mod::lemma_fundamental_div_mod(target_size, count);
    vstd::arithmetic::div_mod::lemma_mod_bound(target_size, count);
    assert(count * share == share * count) by (nonlinear_arith);
    if n > share {
        assert(n * count >= share * count + count) by (nonlinear_arith)
            requires
                n >= share + 1,
                count > 0,
        ;
    }
}

/// A group stores what its buckets store.
pub proof fn law_group_stores_what_its_buckets_store(group: ImmutableStoreGroup, n: int, b: int)
    requires
        0 <= b < n,
    ensures
        payloads(group.bucket@[b].entry@).0 <= stored_in(group, n).0,
        payloads(group.bucket@[b].entry@).1 <= stored_in(group, n).1,
        (forall|c: int|
            0 <= c < n && c != b ==> payloads((#[trigger] group.bucket@[c]).entry@) == (0int, 0int))
            ==> stored_in(group, n) == payloads(group.bucket@[b].entry@),
    decreases n,
{
    crate::local::evict_sized::lemma_payloads_bound(group.bucket@[n - 1].entry@);
    lemma_stored_in_grows(group, n - 1);
    if b < n - 1 {
        law_group_stores_what_its_buckets_store(group, n - 1, b);
    } else {
        if forall|c: int|
            0 <= c < n && c != b ==> payloads((#[trigger] group.bucket@[c]).entry@) == (0int, 0int) {
            lemma_nothing_stored(group, n - 1);
        }
    }
}

/// What a group stores is not negative.
proof fn lemma_stored_in_grows(group: ImmutableStoreGroup, n: int)
    ensures
        0 <= stored_in(group, n).0,
        0 <= stored_in(group, n).1,
    decreases n,
{
    if n > 0 {
        lemma_stored_in_grows(group, n - 1);
        crate::local::evict_sized::lemma_payloads_bound(group.bucket@[n - 1].entry@);
    }
}

/// Empty buckets store nothing.
proof fn lemma_nothing_stored(group: ImmutableStoreGroup, n: int)
    requires
        forall|c: int|
            0 <= c < n ==> payloads((#[trigger] group.bucket@[c]).entry@) == (0int, 0int),
    ensures
        stored_in(group, n) == (0int, 0int),
    decreases n,
{
    if n > 0 {
        lemma_nothing_stored(group, n - 1);
    }
}

/// An eviction by size does nothing to a group that stores less than its target. Otherwise an entry
/// of a bucket in use that was read loses its payload exactly if the payload may be evicted and was
/// accessed no later than the limit of its bucket; every entry keeps its address, its sizes, its
/// flags and its time of the last access.
pub proof fn law_eviction_by_size_takes_only_payloads(
    before: ImmutableStoreGroup,
    after: ImmutableStoreGroup,
    target_size: int,
    protect_local: bool,
    b: int,
    i: int,
)
    requires
        evicted_group(before, after, target_size, protect_local),
        0 <= b < 256,
        0 <= i < before.bucket@[b].slots().len(),
    ensures
        ({
            let e = before.bucket@[b].slots()[i];
            let f = after.bucket@[b].slots()[i];
            let cutoff = bucket_cutoff(
                before.bucket@[b].entry@,
                protect_local,
                payloads(before.bucket@[b].entry@).1,
                bucket_share(before, target_size),
            );
            let goes = stored_in(before, before.bucket_count as int).1 >= target_size && b
                < before.bucket_count && before.touched@[b] && e.data.pack_file != 0 && (
            !protect_local || e.data.flags & PAYLOAD_STORED_DURABLE != 0) && e.data.last_access
                <= cutoff;
            &&& after.bucket@[b].slots().len() == before.bucket@[b].slots().len()
            &&& !goes ==> f == e
            &&& goes ==> f == e.with_data(
                ImmutableData { pack_file: 0, pack_offset: 0, ..e.data },
            )
        }),
{
    assert(after.bucket@[b].slots() == if stored_in(before, before.bucket_count as int).1
        >= target_size && b < before.bucket_count && before.touched@[b] {
        remaining(before, b, target_size, protect_local)
    } else {
        before.bucket@[b].slots()
    });
}

/// What an eviction by size reports is what its buckets lost: no bucket lost more than is reported in
/// all, and where only one lost something that is what is reported.
pub proof fn law_evictions_report_what_was_lost(
    group: ImmutableStoreGroup,
    n: int,
    target_size: int,
    protect_local: bool,
    b: int,
)
    requires
        0 <= b < n,
        group.touched@[b],
    ensures
        ({
            let lost = payloads(losers(group, b, target_size, protect_local));
            let all = evicted_in(group, n, target_size, protect_local);
            &&& lost.0 <= all.0 && lost.1 <= all.1
            &&& (forall|c: int|
                0 <= c < n && c != b && #[trigger] group.touched@[c] ==> losers(
                    group,
                    c,
                    target_size,
                    protect_local,
                ).len() == 0) ==> all == lost
        }),
    decreases n,
{
    lemma_evicted_grows(group, n - 1, target_size, protect_local);
    crate::local::evict_sized::lemma_payloads_bound(
        losers(group, n - 1, target_size, protect_local),
    );
    if b < n - 1 {
        law_evictions_report_what_was_lost(group, n - 1, target_size, protect_local, b);
    } else if forall|c: int|
        0 <= c < n && c != b && #[trigger] group.touched@[c] ==> losers(
            group,
            c,
            target_size,
            protect_local,
        ).len() == 0 {
        lemma_nothing_lost(group, n - 1, target_size, protect_local);
    }
}

/// What is reported is not negative.
proof fn lemma_evicted_grows(
    group: ImmutableStoreGroup,
    n: int,
    target_size: int,
    protect_local: bool,
)
    ensures
        0 <= evicted_in(group, n, target_size, protect_local).0,
        0 <= evicted_in(group, n, target_size, protect_local).1,
    decreases n,
{
    if n > 0 {
        lemma_evicted_grows(group, n - 1, target_size, protect_local);
        crate::local::evict_sized::lemma_payloads_bound(
            losers(group, n - 1, target_size, protect_local),
        );
    }
}

/// Where nothing was lost nothing is reported.
proof fn lemma_nothing_lost(
    group: ImmutableStoreGroup,
    n: int,
    target_size: int,
    protect_local: bool,
)
    requires
        forall|c: int|
            0 <= c < n && #[trigger] group.touched@[c] ==> losers(
                group,
                c,
                target_size,
                protect_local,
            ).len() == 0,
    ensures
        evicted_in(group, n, target_size, protect_local) == (0int, 0int),
    decreases n,
{
    if n > 0 {
        lemma_nothing_lost(group, n - 1, target_size, protect_local);
    }
}

} // verus!
