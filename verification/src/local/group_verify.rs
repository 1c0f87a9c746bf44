//! Checking and healing a whole group.
use vstd::prelude::*;

use crate::error::StoreError;
use crate::local::bucket::ImmutableStoreBucket;
use crate::local::data::ImmutableStoreEntry;
use crate::local::evict::lemma_filter_keeps_sorted;
use crate::local::group::{bucket_of, routed, ImmutableStoreGroup, BUCKET_COUNT};
use crate::local::verify::{damaged, first_fault, same_payload, with_payload, LastChecked, PayloadState};

verus! {

/// A check that has not looked at a payload yet.
pub open spec fn nothing_checked() -> LastChecked {
    LastChecked { hash: crate::types::Hash { high: 0, low: 0 }, pack_file: 0, pack_offset: 0 }
}

/// The fault of a bucket.
pub open spec fn bucket_fault(
    group: ImmutableStoreGroup,
    b: int,
    states: Seq<Vec<PayloadState>>,
) -> Option<crate::error::InternalError> {
    first_fault(group.bucket@[b].slots(), states[b]@, 0, nothing_checked())
}

/// The first fault among some buckets.
pub open spec fn group_fault(
    group: ImmutableStoreGroup,
    from: int,
    to: int,
    states: Seq<Vec<PayloadState>>,
) -> Option<crate::error::InternalError>
    decreases to - from,
{
    if from >= to {
        None
    } else if bucket_fault(group, from, states) is Some {
        bucket_fault(group, from, states)
    } else {
        group_fault(group, from + 1, to, states)
    }
}

/// Whether there is a state for each slot of each bucket.
pub open spec fn states_fit(group: ImmutableStoreGroup, states: Seq<Vec<PayloadState>>) -> bool {
    &&& states.len() == 256
    &&& forall|b: int|
        0 <= b < 256 ==> (#[trigger] states[b])@.len() == group.bucket@[b].entry@.len()
}

/// Whether an entry has a payload that failed.
pub open spec fn has_failed(e: ImmutableStoreEntry, failed: Seq<ImmutableStoreEntry>) -> bool {
    exists|i: int|
        0 <= i < failed.len() && same_payload(
            e,
            (#[trigger] failed[i]).address.hash,
            failed[i].data,
        )
}

/// A bucket without the entries that have a failed payload.
pub open spec fn sound(
    s: Seq<ImmutableStoreEntry>,
    failed: Seq<ImmutableStoreEntry>,
) -> Seq<ImmutableStoreEntry> {
    s.filter(|e: ImmutableStoreEntry| !has_failed(e, failed))
}

/// How many payloads of the first buckets are damaged, and how many are in order.
pub open spec fn tally(
    group: ImmutableStoreGroup,
    n: int,
    states: Seq<Vec<PayloadState>>,
) -> (int, int)
    decreases n,
{
    if n <= 0 {
        (0, 0)
    } else {
        let (bad, good) = tally(group, n - 1, states);
        let entry = group.bucket@[n - 1].entry@;
        let here = damaged(entry, states[n - 1]@).len();
        (bad + here, good + with_payload(entry) - here)
    }
}

/// Damaged payloads are among the payloads.
proof fn lemma_damaged_bound(entry: Seq<ImmutableStoreEntry>, states: Seq<PayloadState>)
    ensures
        0 <= damaged(entry, states).len() <= with_payload(entry) <= entry.len(),
    decreases entry.len(),
{
    if entry.len() > 0 {
        lemma_damaged_bound(entry.drop_last(), states);
    }
}

/// Leaving entries out twice is leaving out both kinds.
proof fn lemma_filter_twice(
    s: Seq<ImmutableStoreEntry>,
    first: spec_fn(ImmutableStoreEntry) -> bool,
    second: spec_fn(ImmutableStoreEntry) -> bool,
    both: spec_fn(ImmutableStoreEntry) -> bool,
)
    requires
        forall|e: ImmutableStoreEntry| #[trigger] both(e) == (first(e) && second(e)),
    ensures
        s.filter(first).filter(second) == s.filter(both),
    decreases s.len(),
{
    reveal(Seq::filter);
    if s.len() > 0 {
        lemma_filter_twice(s.drop_last(), first, second, both);
        let kept = s.drop_last().filter(first);
        assert(both(s.last()) == (first(s.last()) && second(s.last())));
        if first(s.last()) {
            assert(kept.push(s.last()).drop_last() =~= kept);
        }
    }
}

/// A filter that all pass changes nothing.
proof fn lemma_filter_all(
    s: Seq<ImmutableStoreEntry>,
    pred: spec_fn(ImmutableStoreEntry) -> bool,
)
    requires
        forall|e: ImmutableStoreEntry| #[trigger] pred(e),
    ensures
        s.filter(pred) == s,
    decreases s.len(),
{
    reveal(Seq::filter);
    if s.len() > 0 {
        lemma_filter_all(s.drop_last(), pred);
        assert(s.drop_last().push(s.last()) =~= s);
    } else {
        assert(s.filter(pred) =~= s);
    }
}

impl ImmutableStoreBucket {
    /// Drops the entries that have one of the failed payloads.
    pub fn heal(&mut self, failed: &Vec<ImmutableStoreEntry>, dirty: &mut bool)
        requires
            old(self).wf(),
        ensures
            final(self).wf(),
            final(self).slots() == sound(old(self).slots(), failed@),
            *final(dirty) == (*old(dirty) || failed@.len() > 0),
            final(self).deserialized == old(self).deserialized,
            final(self).upgrade_packfile == old(self).upgrade_packfile,
    {
        let ghost s = self.slots();
        let mut i: usize = 0;
        proof {
            lemma_filter_all(s, |e: ImmutableStoreEntry| !has_failed(e, failed@.take(0)));
        }
        while i < failed.len()
            invariant
                self.wf(),
                i <= failed@.len(),
                self.slots() == sound(s, failed@.take(i as int)),
                *dirty == (*old(dirty) || i > 0),
                self.deserialized == old(self).deserialized,
                self.upgrade_packfile == old(self).upgrade_packfile,
            decreases failed@.len() - i,
        {
            let entry = failed[i];
            self.drop_failed(entry.address.hash, entry.data, dirty);
            proof {
                let before = failed@.take(i as int);
                let after = failed@.take(i + 1);
                let first = |e: ImmutableStoreEntry| !has_failed(e, before);
                let second = |e: ImmutableStoreEntry|
                    !same_payload(e, entry.address.hash, entry.data);
                let both = |e: ImmutableStoreEntry| !has_failed(e, after);
                assert forall|e: ImmutableStoreEntry| #[trigger] both(e) == (first(e) && second(
                    e,
                )) by {
                    if has_failed(e, before) {
                        let k = choose|k: int|
                            0 <= k < before.len() && same_payload(
                                e,
                                (#[trigger] before[k]).address.hash,
                                before[k].data,
                            );
                        assert(after[k] == before[k]);
                    }
                    if same_payload(e, entry.address.hash, entry.data) {
                        assert(after[i as int] == entry);
                    }
                    if has_failed(e, after) {
                        let k = choose|k: int|
                            0 <= k < after.len() && same_payload(
                                e,
                                (#[trigger] after[k]).address.hash,
                                after[k].data,
                            );
                        if k < i {
                            assert(before[k] == after[k]);
                        }
                    }
                }
                lemma_filter_twice(s, first, second, both);
            }
            i = i + 1;
        }
        assert(failed@.take(i as int) =~= failed@);
    }
}

impl ImmutableStoreGroup {
    /// Checks the payloads of one bucket, or of all. `states` says bucket by bucket, in the order of
    /// the slots, what came of loading. The first fault ends the check.
    pub fn group_verify_store(
        &self,
        bucket_index: Option<usize>,
        states: &Vec<Vec<PayloadState>>,
    ) -> (r: Result<(), StoreError>)
        requires
            self.wf(),
            bucket_index is Some ==> bucket_index->0 < 256,
            states_fit(*self, states@),
        ensures
            ({
                let from: int = match bucket_index {
                    Some(b) => b as int,
                    None => 0,
                };
                let to: int = match bucket_index {
                    Some(b) => b + 1,
                    None => 256,
                };
                r == match group_fault(*self, from, to, states@) {
                    Some(e) => Err::<(), StoreError>(StoreError::Internal(e)),
                    None => Ok(()),
                }
            }),
    {
        let start: usize = match bucket_index {
            Some(b) => b,
            None => 0,
        };
        let end: usize = match bucket_index {
            Some(b) => b + 1,
            None => BUCKET_COUNT,
        };
        let mut b: usize = start;
        while b < end
            invariant
                self.wf(),
                states_fit(*self, states@),
                start <= b <= end <= 256,
                group_fault(*self, start as int, end as int, states@) == group_fault(
                    *self,
                    b as int,
                    end as int,
                    states@,
                ),
                start == match bucket_index {
                    Some(b) => b as int,
                    None => 0,
                },
                end == match bucket_index {
                    Some(b) => b + 1,
                    None => 256,
                },
            decreases end - b,
        {
            assert(self.bucket@[b as int].wf());
            assert(states@[b as int]@.len() == self.bucket@[b as int].entry@.len());
            if let Err(e) = self.bucket[b].verify_store(&states[b]) {
                return Err(e);
            }
            b = b + 1;
        }
        Ok(())
    }

    /// Scans the payloads of the buckets in use. `states` says bucket by bucket, in the order of the
    /// table, what came of loading. Where `heal` is set, entries with a damaged payload are dropped
    /// from their bucket. Returns how many payloads are damaged and how many are in order.
    pub fn verify(&mut self, states: &Vec<Vec<PayloadState>>, heal: bool) -> (r: (u64, u64))
        requires
            old(self).wf(),
            states_fit(*old(self), states@),
        ensures
            final(self).wf(),
            (r.0 as int, r.1 as int) == tally(
                *old(self),
                old(self).bucket_count as int,
                states@,
            ),
            final(self).bucket_count == old(self).bucket_count,
            final(self).serialize_version == old(self).serialize_version,
            final(self).fan_out_threshold == old(self).fan_out_threshold,
            final(self).committed_level == old(self).committed_level,
            final(self).touched@ == old(self).touched@,
            forall|b: int|
                0 <= b < 256 ==> (#[trigger] final(self).bucket@[b]).slots() == if heal && b < old(self).bucket_count {
                    sound(
                        old(self).bucket@[b].slots(),
                        damaged(old(self).bucket@[b].entry@, states@[b]@),
                    )
                } else {
                    old(self).bucket@[b].slots()
                },
            forall|b: int|
                0 <= b < 256 ==> #[trigger] final(self).dirty@[b] == (old(self).dirty@[b] || (heal
                    && b < old(self).bucket_count && damaged(
                    old(self).bucket@[b].entry@,
                    states@[b]@,
                ).len() > 0)),
            forall|b: int|
                0 <= b < 256 ==> (#[trigger] final(self).bucket@[b]).deserialized
                    == old(self).bucket@[b].deserialized && final(self).bucket@[b].upgrade_packfile
                    == old(self).bucket@[b].upgrade_packfile,
            forall|b: int|
                0 <= b < 256 && !(heal && b < old(self).bucket_count && damaged(
                    old(self).bucket@[b].entry@,
                    states@[b]@,
                ).len() > 0) ==> #[trigger] final(self).bucket@[b] == old(self).bucket@[b],
    {
        let ghost was = *self;
        let n: usize = self.bucket_count;
        let mut bad: u64 = 0;
        let mut good: u64 = 0;
        let mut b: usize = 0;
        while b < n
            invariant
                was.wf(),
                self.wf(),
                states_fit(was, states@),
                b <= n == was.bucket_count == self.bucket_count,
                self.serialize_version == was.serialize_version,
                self.fan_out_threshold == was.fan_out_threshold,
                self.committed_level == was.committed_level,
                self.touched@ == was.touched@,
                forall|c: int| b <= c < 256 ==> #[trigger] self.bucket@[c] == was.bucket@[c],
                forall|c: int|
                    0 <= c < b ==> (#[trigger] self.bucket@[c]).slots() == if heal {
                        sound(
                            was.bucket@[c].slots(),
                            damaged(was.bucket@[c].entry@, states@[c]@),
                        )
                    } else {
                        was.bucket@[c].slots()
                    },
                forall|c: int|
                    0 <= c < 256 ==> #[trigger] self.dirty@[c] == (was.dirty@[c] || (heal && c < b
                        && damaged(was.bucket@[c].entry@, states@[c]@).len() > 0)),
                forall|c: int|
                    0 <= c < 256 ==> (#[trigger] self.bucket@[c]).deserialized
                        == was.bucket@[c].deserialized && self.bucket@[c].upgrade_packfile
                        == was.bucket@[c].upgrade_packfile,
                forall|c: int|
                    0 <= c < b && !(heal && damaged(was.bucket@[c].entry@, states@[c]@).len() > 0)
                        ==> #[trigger] self.bucket@[c] == was.bucket@[c],
                (bad as int, good as int) == tally(was, b as int, states@),
                bad <= b * 0xffff_ffff,
                good <= b * 0xffff_ffff,
            decreases n - b,
        {
            let ghost before = *self;
            proof {
                assert(self.bucket@[b as int] == was.bucket@[b as int]);
                assert(was.bucket@[b as int].wf());
                assert(states@[b as int]@.len() == was.bucket@[b as int].entry@.len());
                lemma_damaged_bound(was.bucket@[b as int].entry@, states@[b as int]@);
            }
            let (failed, verified) = self.bucket[b].scan(&states[b]);
            bad = bad + failed.len() as u64;
            good = good + verified as u64;
            if heal && failed.len() > 0 {
                let mut dirty = self.dirty[b];
                let bucket = &mut self.bucket[b];
                bucket.heal(&failed, &mut dirty);
                self.dirty.set(b, dirty);
                proof {
                    let s = was.bucket@[b as int].slots();
                    let pred = |e: ImmutableStoreEntry| !has_failed(e, failed@);
                    lemma_filter_keeps_sorted(s, pred);
                    let after = self.bucket@[b as int].slots();
                    assert forall|i: int| 0 <= i < after.len() implies bucket_of(
                        (#[trigger] after[i]).address.hash,
                        n as int,
                    ) == b by {
                        assert(crate::local::evict::passes(s, pred, s.filter(pred)[i]));
                        let j = choose|j: int| 0 <= j < s.len() && #[trigger] s[j] == after[i];
                        assert(bucket_of(s[j].address.hash, n as int) == b);
                    }
                    assert(routed(after, n as int, b as int));
                    if !was.touched@[b as int] {
                        assert(was.bucket@[b as int].slots().len() == 0);
                    }
                    assert forall|k: int| 0 <= k < 256 implies (#[trigger] self.bucket@[k]).wf()
                        && routed(self.bucket@[k].slots(), n as int, k) by {
                        if k != b {
                            assert(self.bucket@[k] == before.bucket@[k]);
                        }
                    }
                    assert forall|k: int| 0 <= k < 256 && !#[trigger] self.touched@[k] implies
                        self.bucket@[k].slots().len() == 0 && !self.dirty@[k] by {
                        assert(!before.touched@[k]);
                        if k != b {
                            assert(self.bucket@[k] == before.bucket@[k]);
                        }
                    }
                }
            } else if heal {
                proof {
                    lemma_filter_all(
                        was.bucket@[b as int].slots(),
                        |e: ImmutableStoreEntry| !has_failed(e, failed@),
                    );
                }
            }
            b = b + 1;
        }
        (bad, good)
    }
}

/// What passes a filter was there.
proof fn lemma_filter_subset(
    s: Seq<ImmutableStoreEntry>,
    pred: spec_fn(ImmutableStoreEntry) -> bool,
    i: int,
)
    requires
        0 <= i < s.filter(pred).len(),
    ensures
        s.contains(s.filter(pred)[i]),
    decreases s.len(),
{
    reveal(Seq::filter);
    if s.len() > 0 {
        let rest = s.drop_last();
        if i < rest.filter(pred).len() {
            lemma_filter_subset(rest, pred, i);
            let j = choose|j: int| 0 <= j < rest.len() && rest[j] == rest.filter(pred)[i];
            assert(s[j] == s.filter(pred)[i]);
        } else {
            assert(s[s.len() - 1] == s.filter(pred)[i]);
        }
    }
}

/// Healing leaves no entry with a damaged payload in its bucket, and drops nothing else.
pub proof fn law_healing_drops_what_is_damaged(
    s: Seq<ImmutableStoreEntry>,
    failed: Seq<ImmutableStoreEntry>,
    e: ImmutableStoreEntry,
)
    ensures
        sound(s, failed).contains(e) <==> s.contains(e) && !has_failed(e, failed),
{
    let pred = |e: ImmutableStoreEntry| !has_failed(e, failed);
    if sound(s, failed).contains(e) {
        let i = choose|i: int| 0 <= i < sound(s, failed).len() && sound(s, failed)[i] == e;
        s.lemma_filter_pred(pred, i);
        lemma_filter_subset(s, pred, i);
    }
    if s.contains(e) && !has_failed(e, failed) {
        let i = choose|i: int| 0 <= i < s.len() && s[i] == e;
        s.lemma_filter_contains(pred, i);
    }
}

/// A group is sound exactly if every bucket is. A fault of a group is that of its first bucket with
/// one.
pub proof fn law_group_is_sound_if_its_buckets_are(
    group: ImmutableStoreGroup,
    from: int,
    to: int,
    states: Seq<Vec<PayloadState>>,
)
    ensures
        match group_fault(group, from, to, states) {
            None => forall|b: int|
                from <= b < to ==> #[trigger] bucket_fault(group, b, states) is None,
            Some(fault) => exists|b: int|
                from <= b < to && #[trigger] bucket_fault(group, b, states) == Some(fault)
                    && forall|c: int|
                    from <= c < b ==> #[trigger] bucket_fault(group, c, states) is None,
        },
    decreases to - from,
{
    if from < to && bucket_fault(group, from, states) is None {
        law_group_is_sound_if_its_buckets_are(group, from + 1, to, states);
        if group_fault(group, from, to, states) is Some {
            let b = choose|b: int|
                from + 1 <= b < to && #[trigger] bucket_fault(group, b, states) == group_fault(
                    group,
                    from,
                    to,
                    states,
                ) && forall|c: int|
                    from + 1 <= c < b ==> #[trigger] bucket_fault(group, c, states) is None;
            assert(bucket_fault(group, b, states) is Some);
        }
    }
}

/// The entries with a payload of the first buckets.
pub open spec fn payloads_below(group: ImmutableStoreGroup, n: int) -> int
    decreases n,
{
    if n <= 0 {
        0
    } else {
        payloads_below(group, n - 1) + with_payload(group.bucket@[n - 1].entry@)
    }
}

/// A check of a group counts every entry with a payload once, and counts none as damaged exactly if
/// no bucket has one.
pub proof fn law_tally_counts_every_payload(
    group: ImmutableStoreGroup,
    n: int,
    states: Seq<Vec<PayloadState>>,
)
    ensures
        tally(group, n, states).0 + tally(group, n, states).1 == payloads_below(group, n),
        0 <= tally(group, n, states).0,
        0 <= tally(group, n, states).1,
        tally(group, n, states).0 == 0 <==> forall|b: int|
            0 <= b < n ==> damaged((#[trigger] group.bucket@[b]).entry@, states[b]@).len() == 0,
    decreases n,
{
    if n > 0 {
        law_tally_counts_every_payload(group, n - 1, states);
        lemma_damaged_bound(group.bucket@[n - 1].entry@, states[n - 1]@);
    }
}

/// An entry has failed exactly if some entry that failed has its hash and its place.
pub proof fn law_failure_spreads_to_the_payload(
    e: ImmutableStoreEntry,
    failed: Seq<ImmutableStoreEntry>,
)
    ensures
        has_failed(e, failed) <==> exists|i: int|
            0 <= i < failed.len() && (#[trigger] failed[i]).address.hash == e.address.hash
                && failed[i].data.pack_file == e.data.pack_file && failed[i].data.pack_offset
                == e.data.pack_offset,
{
    if exists|i: int|
        0 <= i < failed.len() && (#[trigger] failed[i]).address.hash == e.address.hash
            && failed[i].data.pack_file == e.data.pack_file && failed[i].data.pack_offset
            == e.data.pack_offset {
        let i = choose|i: int|
            0 <= i < failed.len() && (#[trigger] failed[i]).address.hash == e.address.hash
                && failed[i].data.pack_file == e.data.pack_file && failed[i].data.pack_offset
                == e.data.pack_offset;
        assert(same_payload(e, failed[i].address.hash, failed[i].data));
    }
}

} // verus!
