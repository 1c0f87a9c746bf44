//! Spreading the entries of a group over more buckets.
use vstd::prelude::*;

use crate::local::bucket::{
    found, law_every_entry_is_found, law_lookup_finds_the_best_match, lemma_found_entry,
    ImmutableStoreBucket,
};
use crate::local::data::ImmutableStoreEntry;
use crate::local::group::{
    bucket_index_for, bucket_of, routed, ImmutableStoreGroup, BUCKET_COUNT, FAN_OUT_LEVEL_MAX,
};
use crate::types::{Address, Partition, StoreMatch};

verus! {

/// Whether an entry is in one of the first buckets of a list.
pub open spec fn holds(
    bucket: Seq<ImmutableStoreBucket>,
    n: int,
    e: ImmutableStoreEntry,
) -> bool {
    exists|b: int, i: int|
        0 <= b < n && 0 <= i < bucket[b].slots().len() && #[trigger] bucket[b].slots()[i] == e
}

/// How many entries the first buckets of a list have.
pub open spec fn entries(bucket: Seq<ImmutableStoreBucket>, n: int) -> int
    decreases n,
{
    if n <= 0 {
        0
    } else {
        entries(bucket, n - 1) + bucket[n - 1].slots().len()
    }
}

/// The most entries that a dirty bucket in use has, among the first `n`.
pub open spec fn fullest(group: ImmutableStoreGroup, n: int) -> int
    decreases n,
{
    if n <= 0 {
        0
    } else {
        let rest = fullest(group, n - 1);
        let here = group.bucket@[n - 1].slots().len() as int;
        if group.dirty@[n - 1] && here > rest {
            here
        } else {
            rest
        }
    }
}

impl ImmutableStoreGroup {
    /// The number of entries of the fullest dirty bucket, where it asks for a fan-out.
    pub fn fan_out_pressure(&self) -> (r: Option<usize>)
        requires
            self.wf(),
        ensures
            r == if self.bucket_count < 256 && fullest(*self, self.bucket_count as int)
                > self.fan_out_threshold {
                Some(fullest(*self, self.bucket_count as int) as usize)
            } else {
                None
            },
    {
        let n: usize = self.bucket_count;
        if n >= FAN_OUT_LEVEL_MAX {
            return None;
        }
        let mut most: usize = 0;
        let mut b: usize = 0;
        while b < n
            invariant
                self.wf(),
                b <= n == self.bucket_count,
                most == fullest(*self, b as int),
            decreases n - b,
        {
            if self.dirty[b] {
                let count: usize = self.bucket[b].sorted_index.len();
                if count > most {
                    most = count;
                }
            }
            b = b + 1;
        }
        if most > self.fan_out_threshold {
            Some(most)
        } else {
            None
        }
    }

    /// Spreads the entries over `target` buckets, where that is more than are in use. Buckets that
    /// get entries are dirty, and nothing is read from disk over what they have in memory.
    pub fn fan_out(&mut self, target: usize)
        requires
            old(self).wf(),
            target <= 256,
            entries(old(self).bucket@, old(self).bucket_count as int) <= u32::MAX,
        ensures
            final(self).wf(),
            target <= old(self).bucket_count ==> *final(self) == *old(self),
            target > old(self).bucket_count ==> fanned_out(
                *old(self),
                *final(self),
                target as int,
            ),
    {
        let n: usize = self.bucket_count;
        if target <= n {
            return;
        }
        let ghost before = self.bucket@;
        let ghost was = *self;
        proof {
            lemma_unused_are_empty(was);
        }
        let mut fresh: Vec<ImmutableStoreBucket> = Vec::new();
        let mut i: usize = 0;
        while i < BUCKET_COUNT
            invariant
                i <= 256,
                self.bucket@ == before,
                before.len() == 256,
                fresh@.len() == i,
                forall|b: int|
                    0 <= b < i ==> (#[trigger] fresh@[b]).wf() && fresh@[b].slots().len() == 0
                        && fresh@[b].deserialized == (before[b].deserialized || b < target)
                        && fresh@[b].upgrade_packfile == before[b].upgrade_packfile,
            decreases 256 - i,
        {
            let mut bucket = ImmutableStoreBucket::new();
            bucket.deserialized = self.bucket[i].deserialized || i < target;
            bucket.upgrade_packfile = self.bucket[i].upgrade_packfile;
            assert(bucket.slots().len() == 0);
            fresh.push(bucket);
            i = i + 1;
        }
        let mut b: usize = 0;
        let ghost mut moved: int = 0;
        proof {
            assert(spread_so_far(before, fresh@, 0, 0, target as int, 0));
        }
        while b < n
            invariant
                b <= n < target <= 256,
                was.wf(),
                *self == was,
                self.bucket@ == before,
                n == was.bucket_count,
                entries(before, n as int) <= u32::MAX,
                moved == entries(before, b as int),
                spread_so_far(before, fresh@, b as int, 0, target as int, moved),
                same_state(before, fresh@, target as int),
            decreases n - b,
        {
            let count: usize = self.bucket[b].sorted_index.len();
            let mut j: usize = 0;
            while j < count
                invariant
                    b < n < target <= 256,
                    was.wf(),
                    *self == was,
                    self.bucket@ == before,
                    n == was.bucket_count,
                    count == before[b as int].slots().len(),
                    j <= count,
                    entries(before, n as int) <= u32::MAX,
                    moved == entries(before, b as int) + j,
                    spread_so_far(before, fresh@, b as int, j as int, target as int, moved),
                    same_state(before, fresh@, target as int),
                decreases count - j,
            {
                let entry = self.bucket[b].at(j);
                let to: usize = bucket_index_for(&entry.address.hash, target);
                let ghost old_fresh = fresh@;
                let ghost s = fresh@[to as int].slots();
                proof {
                    lemma_entries_monotone(before, b + 1, n as int);
                    lemma_not_spread_yet(
                        was,
                        fresh@,
                        b as int,
                        j as int,
                        target as int,
                        moved,
                        to as int,
                    );
                }
                let (_, slot, made) = fresh[to].lookup(
                    entry.partition,
                    entry.address,
                    StoreMatch::MatchFull,
                );
                assert(made != StoreMatch::MatchFull);
                let bucket = &mut fresh[to];
                bucket.insert_at(slot, entry);
                proof {
                    lemma_spread_one(
                        before,
                        old_fresh,
                        fresh@,
                        b as int,
                        j as int,
                        target as int,
                        moved,
                        to as int,
                        slot as int,
                    );
                    moved = moved + 1;
                }
                j = j + 1;
            }
            proof {
                lemma_next_bucket(before, fresh@, b as int, target as int, moved);
            }
            b = b + 1;
        }
        let mut k: usize = 0;
        while k < BUCKET_COUNT
            invariant
                k <= 256,
                target <= 256,
                fresh@.len() == 256,
                self.bucket@ == before,
                self.bucket_count == was.bucket_count,
                self.serialize_version == was.serialize_version,
                self.fan_out_threshold == was.fan_out_threshold,
                self.committed_level == was.committed_level,
                self.dirty@.len() == 256,
                self.touched@.len() == 256,
                was.dirty@.len() == 256,
                was.touched@.len() == 256,
                forall|c: int| 0 <= c < 256 ==> (#[trigger] fresh@[c]).wf(),
                forall|c: int|
                    0 <= c < 256 ==> #[trigger] self.dirty@[c] == (was.dirty@[c] || (c < k
                        && fresh@[c].slots().len() > 0)),
                forall|c: int|
                    0 <= c < 256 ==> #[trigger] self.touched@[c] == (was.touched@[c] || (c < k && c
                        < target)),
            decreases 256 - k,
        {
            if fresh[k].sorted_index.len() > 0 {
                self.dirty.set(k, true);
            }
            if k < target {
                self.touched.set(k, true);
            }
            k = k + 1;
        }
        self.bucket = fresh;
        self.bucket_count = target;
        proof {
            assert forall|e: ImmutableStoreEntry| #[trigger] holds(self.bucket@, 256, e) == holds(
                before,
                256,
                e,
            ) by {
                assert(holds(self.bucket@, 256, e) == done(before, n as int, 0, e));
                if holds(before, 256, e) {
                    let (c, i) = choose|c: int, i: int|
                        0 <= c < 256 && 0 <= i < before[c].slots().len() && #[trigger] before[c].slots()[i] == e;
                    assert(c < n);
                    assert(before[c].slots()[i] == e);
                }
                if done(before, n as int, 0, e) {
                    let (c, i) = choose|c: int, i: int|
                        0 <= c <= n && 0 <= i < before[c].slots().len() && (c < n || i < 0)
                            && #[trigger] before[c].slots()[i] == e;
                    assert(before[c].slots()[i] == e);
                }
            }
        }
    }
}

/// What a flush does about a full bucket.
#[derive(Clone, Copy, Debug, PartialEq, Eq, Structural)]
pub enum FanOutStep {
    /// The number of buckets stays.
    Settled,
    /// A bucket must be read from disk first: its entries would be lost.
    LoadBucket(usize),
    /// The entries were spread.
    FannedOut,
}

impl ImmutableStoreGroup {
    /// Whether the entries are to be spread over `target` buckets.
    pub open spec fn overfull(self, target: int) -> bool {
        self.bucket_count < 256 && fullest(self, self.bucket_count as int) > self.fan_out_threshold
            && target > self.bucket_count
    }

    /// The first bucket in use, from `b` on, that was not read from disk.
    pub open spec fn first_unread(self, b: int) -> Option<int>
        decreases self.bucket_count - b,
    {
        if b >= self.bucket_count {
            None
        } else if !self.bucket@[b].deserialized {
            Some(b)
        } else {
            self.first_unread(b + 1)
        }
    }

    /// Spreads the entries over `target` buckets where a dirty bucket has more of them than the
    /// threshold, once all buckets in use were read from disk. `target` is the number of buckets
    /// that so full a bucket asks for.
    pub fn maybe_fan_out_immutable_group(&mut self, target: usize) -> (r: FanOutStep)
        requires
            old(self).wf(),
            target <= 256,
            entries(old(self).bucket@, old(self).bucket_count as int) <= u32::MAX,
        ensures
            final(self).wf(),
            r == if !old(self).overfull(target as int) {
                FanOutStep::Settled
            } else if old(self).first_unread(0) is Some {
                FanOutStep::LoadBucket(old(self).first_unread(0)->0 as usize)
            } else {
                FanOutStep::FannedOut
            },
            r != FanOutStep::FannedOut ==> *final(self) == *old(self),
            r == FanOutStep::FannedOut ==> fanned_out(*old(self), *final(self), target as int),
    {
        if self.fan_out_pressure().is_none() || target <= self.bucket_count {
            return FanOutStep::Settled;
        }
        let mut b: usize = 0;
        while b < self.bucket_count
            invariant
                self.wf(),
                *self == *old(self),
                old(self).overfull(target as int),
                b <= self.bucket_count,
                self.first_unread(0) == self.first_unread(b as int),
            decreases self.bucket_count - b,
        {
            if !self.bucket[b].deserialized {
                return FanOutStep::LoadBucket(b);
            }
            b = b + 1;
        }
        self.fan_out(target);
        FanOutStep::FannedOut
    }
}

/// A group after its entries were spread over `target` buckets: the same entries, each in the bucket
/// of its hash.
pub open spec fn fanned_out(
    before: ImmutableStoreGroup,
    after: ImmutableStoreGroup,
    target: int,
) -> bool {
    &&& after.bucket_count == target
    &&& after.serialize_version == before.serialize_version
    &&& after.fan_out_threshold == before.fan_out_threshold
    &&& after.committed_level == before.committed_level
    &&& forall|e: ImmutableStoreEntry| #[trigger]
        holds(after.bucket@, 256, e) == holds(before.bucket@, 256, e)
    &&& forall|b: int|
        0 <= b < 256 ==> #[trigger] after.dirty@[b] == (before.dirty@[b]
            || after.bucket@[b].slots().len() > 0)
    &&& forall|b: int|
        0 <= b < 256 ==> #[trigger] after.touched@[b] == (before.touched@[b] || b < target)
    &&& forall|b: int|
        0 <= b < 256 ==> (#[trigger] after.bucket@[b]).deserialized == (
        before.bucket@[b].deserialized || b < target) && after.bucket@[b].upgrade_packfile
            == before.bucket@[b].upgrade_packfile
}

/// Whether an entry is among those before a place: a bucket and a slot in it.
pub open spec fn done(
    bucket: Seq<ImmutableStoreBucket>,
    b: int,
    j: int,
    e: ImmutableStoreEntry,
) -> bool {
    exists|c: int, i: int|
        0 <= c <= b && 0 <= i < bucket[c].slots().len() && (c < b || i < j)
            && #[trigger] bucket[c].slots()[i] == e
}

/// Whether the new buckets are in the state of the old ones, entries apart, and those that are to be
/// used count as read.
spec fn same_state(
    before: Seq<ImmutableStoreBucket>,
    fresh: Seq<ImmutableStoreBucket>,
    target: int,
) -> bool {
    forall|c: int|
        0 <= c < 256 ==> (#[trigger] fresh[c]).deserialized == (before[c].deserialized || c
            < target) && fresh[c].upgrade_packfile == before[c].upgrade_packfile
}

/// Whether the new buckets hold what was moved so far, and nothing else.
spec fn spread_so_far(
    before: Seq<ImmutableStoreBucket>,
    fresh: Seq<ImmutableStoreBucket>,
    b: int,
    j: int,
    target: int,
    moved: int,
) -> bool {
    &&& fresh.len() == 256
    &&& forall|c: int|
        0 <= c < 256 ==> (#[trigger] fresh[c]).wf() && routed(fresh[c].slots(), target, c)
            && fresh[c].slots().len() <= moved
    &&& forall|c: int| target <= c < 256 ==> (#[trigger] fresh[c]).slots().len() == 0
    &&& forall|e: ImmutableStoreEntry| #[trigger] holds(fresh, 256, e) == done(before, b, j, e)
}

/// Buckets that are not in use have no entries.
pub proof fn lemma_unused_are_empty(group: ImmutableStoreGroup)
    requires
        group.wf(),
    ensures
        forall|b: int|
            group.bucket_count <= b < 256 ==> (#[trigger] group.bucket@[b]).slots().len() == 0,
{
    assert forall|b: int| group.bucket_count <= b < 256 implies (
    #[trigger] group.bucket@[b]).slots().len() == 0 by {
        let s = group.bucket@[b].slots();
        if s.len() > 0 {
            assert(bucket_of(s[0].address.hash, group.bucket_count as int) == b);
        }
    }
}

/// More buckets have more entries.
proof fn lemma_entries_monotone(bucket: Seq<ImmutableStoreBucket>, a: int, n: int)
    requires
        0 <= a <= n,
    ensures
        entries(bucket, a) <= entries(bucket, n),
    decreases n,
{
    if a < n {
        lemma_entries_monotone(bucket, a, n - 1);
    }
}

/// The next entry to move has a key that none of the new buckets has.
proof fn lemma_not_spread_yet(
    was: ImmutableStoreGroup,
    fresh: Seq<ImmutableStoreBucket>,
    b: int,
    j: int,
    target: int,
    moved: int,
    to: int,
)
    requires
        was.wf(),
        0 <= b < was.bucket_count,
        0 <= j < was.bucket@[b].slots().len(),
        0 <= to < 256,
        spread_so_far(was.bucket@, fresh, b, j, target, moved),
    ensures
        found(
            fresh[to].slots(),
            was.bucket@[b].slots()[j].partition,
            was.bucket@[b].slots()[j].address,
            StoreMatch::MatchFull,
        ).2 != StoreMatch::MatchFull,
{
    let entry = was.bucket@[b].slots()[j];
    let s = fresh[to].slots();
    law_lookup_finds_the_best_match(s, entry.partition, entry.address, StoreMatch::MatchFull);
    let (w, insert, made) = found(s, entry.partition, entry.address, StoreMatch::MatchFull);
    if made == StoreMatch::MatchFull {
        let e = s[w];
        assert(fresh[to].slots()[w] == e);
        assert(holds(fresh, 256, e));
        let (c, i) = choose|c: int, i: int|
            0 <= c <= b && 0 <= i < was.bucket@[c].slots().len() && (c < b || i < j)
                && #[trigger] was.bucket@[c].slots()[i] == e;
        if c == b {
            assert(was.bucket@[b].slots()[i].key().before(was.bucket@[b].slots()[j].key()));
        } else {
            assert(bucket_of(was.bucket@[c].slots()[i].address.hash, was.bucket_count as int) == c);
            assert(bucket_of(was.bucket@[b].slots()[j].address.hash, was.bucket_count as int) == b);
        }
    }
}

/// Moving one entry moves one entry.
proof fn lemma_spread_one(
    before: Seq<ImmutableStoreBucket>,
    old_fresh: Seq<ImmutableStoreBucket>,
    fresh: Seq<ImmutableStoreBucket>,
    b: int,
    j: int,
    target: int,
    moved: int,
    to: int,
    slot: int,
)
    requires
        0 <= b < before.len(),
        0 <= j < before[b].slots().len(),
        0 <= to < target <= 256,
        spread_so_far(before, old_fresh, b, j, target, moved),
        fresh.len() == 256,
        forall|c: int| 0 <= c < 256 && c != to ==> #[trigger] fresh[c] == old_fresh[c],
        fresh[to].wf(),
        0 <= slot <= old_fresh[to].slots().len(),
        fresh[to].slots() == old_fresh[to].slots().insert(slot, before[b].slots()[j]),
        bucket_of(before[b].slots()[j].address.hash, target) == to,
    ensures
        spread_so_far(before, fresh, b, j + 1, target, moved + 1),
{
    let entry = before[b].slots()[j];
    let s = old_fresh[to].slots();
    assert forall|c: int| 0 <= c < 256 implies (#[trigger] fresh[c]).wf() && routed(
        fresh[c].slots(),
        target,
        c,
    ) && fresh[c].slots().len() <= moved + 1 by {
        if c == to {
            assert forall|i: int| 0 <= i < fresh[to].slots().len() implies bucket_of(
                (#[trigger] fresh[to].slots()[i]).address.hash,
                target,
            ) == to by {
                if i < slot {
                    assert(fresh[to].slots()[i] == s[i]);
                } else if i > slot {
                    assert(fresh[to].slots()[i] == s[i - 1]);
                }
            }
            assert(old_fresh[to].slots().len() <= moved);
        } else {
            assert(fresh[c] == old_fresh[c]);
        }
    }
    assert forall|c: int| target <= c < 256 implies (#[trigger] fresh[c]).slots().len() == 0 by {
        assert(fresh[c] == old_fresh[c]);
    }
    assert forall|e: ImmutableStoreEntry| #[trigger] holds(fresh, 256, e) == done(
        before,
        b,
        j + 1,
        e,
    ) by {
        assert(holds(old_fresh, 256, e) == done(before, b, j, e));
        if holds(fresh, 256, e) {
            let (c, i) = choose|c: int, i: int|
                0 <= c < 256 && 0 <= i < fresh[c].slots().len() && #[trigger] fresh[c].slots()[i]
                    == e;
            if c == to && i == slot {
                assert(before[b].slots()[j] == e);
            } else {
                let k = if c == to && i > slot { i - 1 } else { i };
                assert(old_fresh[c].slots()[k] == e);
                let (d, m) = choose|d: int, m: int|
                    0 <= d <= b && 0 <= m < before[d].slots().len() && (d < b || m < j)
                        && #[trigger] before[d].slots()[m] == e;
                assert(before[d].slots()[m] == e);
            }
        }
        if done(before, b, j + 1, e) {
            let (d, m) = choose|d: int, m: int|
                0 <= d <= b && 0 <= m < before[d].slots().len() && (d < b || m < j + 1)
                    && #[trigger] before[d].slots()[m] == e;
            if d == b && m == j {
                assert(fresh[to].slots()[slot] == e);
            } else {
                assert(before[d].slots()[m] == e);
                assert(done(before, b, j, e));
                let (c, i) = choose|c: int, i: int|
                    0 <= c < 256 && 0 <= i < old_fresh[c].slots().len()
                        && #[trigger] old_fresh[c].slots()[i] == e;
                let k = if c == to && i >= slot { i + 1 } else { i };
                assert(fresh[c].slots()[k] == e);
            }
        }
    }
}

/// The end of a bucket is the start of the next.
proof fn lemma_next_bucket(
    before: Seq<ImmutableStoreBucket>,
    fresh: Seq<ImmutableStoreBucket>,
    b: int,
    target: int,
    moved: int,
)
    requires
        0 <= b < before.len(),
        spread_so_far(before, fresh, b, before[b].slots().len() as int, target, moved),
    ensures
        spread_so_far(before, fresh, b + 1, 0, target, moved),
{
    let len = before[b].slots().len() as int;
    assert forall|e: ImmutableStoreEntry| done(before, b, len, e) == done(before, b + 1, 0, e) by {
        if done(before, b, len, e) {
            let (c, i) = choose|c: int, i: int|
                0 <= c <= b && 0 <= i < before[c].slots().len() && (c < b || i < len)
                    && #[trigger] before[c].slots()[i] == e;
            assert(before[c].slots()[i] == e);
        }
        if done(before, b + 1, 0, e) {
            let (c, i) = choose|c: int, i: int|
                0 <= c <= b + 1 && 0 <= i < before[c].slots().len() && (c < b + 1 || i < 0)
                    && #[trigger] before[c].slots()[i] == e;
            assert(before[c].slots()[i] == e);
        }
    }
    assert forall|e: ImmutableStoreEntry| #[trigger] holds(fresh, 256, e) == done(
        before,
        b + 1,
        0,
        e,
    ) by {
        assert(holds(fresh, 256, e) == done(before, b, len, e));
    }
}

/// A fan-out changes nothing that a lookup can see: every address has the data that it had.
pub proof fn law_fan_out_keeps_every_lookup(
    before: ImmutableStoreGroup,
    after: ImmutableStoreGroup,
    partition: Partition,
    address: Address,
)
    requires
        before.wf(),
        after.wf(),
        fanned_out(before, after, after.bucket_count as int),
    ensures
        after.data_in(partition, address) == before.data_in(partition, address),
{
    lemma_same_entries_same_lookup(before, after, partition, address);
    lemma_same_entries_same_lookup(after, before, partition, address);
}

/// What one group finds, another with the same entries finds.
proof fn lemma_same_entries_same_lookup(
    before: ImmutableStoreGroup,
    after: ImmutableStoreGroup,
    partition: Partition,
    address: Address,
)
    requires
        before.wf(),
        after.wf(),
        forall|e: ImmutableStoreEntry| #[trigger]
            holds(after.bucket@, 256, e) == holds(before.bucket@, 256, e),
    ensures
        before.data_in(partition, address) is Some ==> after.data_in(partition, address)
            == before.data_in(partition, address),
{
    let b = bucket_of(address.hash, before.bucket_count as int);
    let s = before.bucket@[b].slots();
    if before.data_in(partition, address) is Some {
        assert(before.bucket@[b].wf());
        lemma_found_entry(s, partition, address);
        let w = found(s, partition, address, StoreMatch::MatchFull).0;
        let e = s[w];
        assert(before.bucket@[b].slots()[w] == e);
        assert(holds(before.bucket@, 256, e));
        assert(holds(after.bucket@, 256, e));
        let (c, i) = choose|c: int, i: int|
            0 <= c < 256 && 0 <= i < after.bucket@[c].slots().len()
                && #[trigger] after.bucket@[c].slots()[i] == e;
        assert(after.bucket@[c].wf());
        assert(bucket_of(after.bucket@[c].slots()[i].address.hash, after.bucket_count as int) == c);
        law_every_entry_is_found(after.bucket@[c].slots(), i);
    }
}

/// The pressure of a group is the number of entries of its fullest dirty bucket: no dirty bucket has
/// more, and one has as many unless there is no pressure at all.
pub proof fn law_fullest_bucket_presses(group: ImmutableStoreGroup, n: int)
    requires
        0 <= n,
    ensures
        0 <= fullest(group, n),
        forall|b: int|
            0 <= b < n && #[trigger] group.dirty@[b] ==> group.bucket@[b].slots().len() <= fullest(
                group,
                n,
            ),
        fullest(group, n) > 0 ==> exists|b: int|
            0 <= b < n && #[trigger] group.dirty@[b] && group.bucket@[b].slots().len() == fullest(
                group,
                n,
            ),
    decreases n,
{
    if n > 0 {
        law_fullest_bucket_presses(group, n - 1);
        if fullest(group, n) > 0 && fullest(group, n) == fullest(group, n - 1) {
            let b = choose|b: int|
                0 <= b < n - 1 && #[trigger] group.dirty@[b] && group.bucket@[b].slots().len()
                    == fullest(group, n - 1);
            assert(group.dirty@[b]);
        } else if fullest(group, n) > 0 {
            assert(group.dirty@[n - 1]);
        }
    }
}

/// A bucket that was not read yet is asked for before its group is spread: the first there is.
pub proof fn law_first_unread_bucket_is_loaded(group: ImmutableStoreGroup, b: int)
    requires
        0 <= b,
    ensures
        match group.first_unread(b) {
            Some(c) => b <= c < group.bucket_count && !group.bucket@[c].deserialized && forall|i: int|
                b <= i < c ==> (#[trigger] group.bucket@[i]).deserialized,
            None => forall|i: int|
                b <= i < group.bucket_count ==> (#[trigger] group.bucket@[i]).deserialized,
        },
    decreases group.bucket_count - b,
{
    if b < group.bucket_count && group.bucket@[b].deserialized {
        law_first_unread_bucket_is_loaded(group, b + 1);
    }
}

/// A group is to be spread exactly if it has fewer than the most buckets, more are wanted than it
/// has, and one of its dirty buckets has more entries than it may.
pub proof fn law_only_overfull_groups_fan_out(group: ImmutableStoreGroup, target: int)
    ensures
        group.overfull(target) ==> group.bucket_count < 256 && target > group.bucket_count
            && exists|b: int|
            0 <= b < group.bucket_count && #[trigger] group.dirty@[b]
                && group.bucket@[b].slots().len() > group.fan_out_threshold,
        group.bucket_count < 256 && target > group.bucket_count && (exists|b: int|
            0 <= b < group.bucket_count && #[trigger] group.dirty@[b]
                && group.bucket@[b].slots().len() > group.fan_out_threshold) ==> group.overfull(
            target,
        ),
{
    law_fullest_bucket_presses(group, group.bucket_count as int);
}

/// What was spread is written by the next flush: every bucket that has entries afterwards is dirty,
/// and every bucket in use counts as read. Buckets that were dirty stay so.
pub proof fn law_spread_entries_are_flushed(
    before: ImmutableStoreGroup,
    after: ImmutableStoreGroup,
    target: int,
    b: int,
)
    requires
        fanned_out(before, after, target),
        0 <= b < 256,
    ensures
        after.bucket_count == target,
        after.bucket@[b].slots().len() > 0 ==> after.dirty@[b],
        before.dirty@[b] ==> after.dirty@[b],
        b < target ==> after.bucket@[b].deserialized && after.touched@[b],
        after.committed_level == before.committed_level,
{
    assert(after.dirty@[b] == (before.dirty@[b] || after.bucket@[b].slots().len() > 0));
    assert(after.touched@[b] == (before.touched@[b] || b < target));
}

} // verus!
