//! Keeping the whole store within its limits.
use vstd::prelude::*;

use crate::encoding::{law_le_round_trip, le_bytes, le_value, lemma_spans, push_le, read_le};
use crate::error::StoreError;
use crate::gc_event::GcEvent;
use crate::local::data::ImmutableStoreEntry;
use crate::local::evict::{
    evicted_to, law_eviction_meets_the_capacity, law_eviction_only_drops_entries,
};
use crate::local::fan_out::entries;
use crate::local::group::{bucket_of, routed, ImmutableStoreGroup, GROUP_COUNT};
use crate::local::immutable_store::LocalImmutableStore;
use crate::maintenance::wrapped;

verus! {

/// The entries that each bucket of a group may keep: the percentage of the limit, shared among 256
/// groups and then among the buckets of the group.
pub open spec fn capacity_of(
    group: ImmutableStoreGroup,
    max_capacity: usize,
    percentage: int,
) -> int {
    (max_capacity * percentage) / (25600 * group.bucket_count as int)
}

/// The part of the limit to evict down to, in percent.
pub open spec fn eviction_percentage(percentage: usize) -> int {
    if 0 < percentage < 100 {
        percentage as int
    } else {
        80
    }
}

/// Whether a bucket has more entries than it may keep.
pub open spec fn over_capacity(group: ImmutableStoreGroup, b: int, capacity: int) -> bool {
    b < group.bucket_count && group.touched@[b] && group.bucket@[b].slots().len() > capacity
}

/// How many entries the first buckets of a group lose, one number for each that loses any.
pub open spec fn losses(group: ImmutableStoreGroup, n: int, capacity: int) -> Seq<u64>
    decreases n,
{
    if n <= 0 {
        Seq::empty()
    } else {
        let s = group.bucket@[n - 1].slots();
        if over_capacity(group, n - 1, capacity) {
            losses(group, n - 1, capacity).push((s.len() - evicted_to(s, capacity).len()) as u64)
        } else {
            losses(group, n - 1, capacity)
        }
    }
}

/// The sum of some numbers.
pub open spec fn total(s: Seq<u64>) -> int
    decreases s.len(),
{
    if s.len() == 0 {
        0
    } else {
        total(s.drop_last()) + s.last()
    }
}

/// Whether a group is what an eviction leaves.
pub open spec fn shrunk(
    before: ImmutableStoreGroup,
    after: ImmutableStoreGroup,
    capacity: int,
) -> bool {
    &&& after.bucket_count == before.bucket_count
    &&& after.serialize_version == before.serialize_version
    &&& after.fan_out_threshold == before.fan_out_threshold
    &&& after.committed_level == before.committed_level
    &&& after.touched@ == before.touched@
    &&& forall|b: int|
        0 <= b < 256 ==> (#[trigger] after.bucket@[b]).slots() == if over_capacity(
            before,
            b,
            capacity,
        ) {
            evicted_to(before.bucket@[b].slots(), capacity)
        } else {
            before.bucket@[b].slots()
        }
    &&& forall|b: int|
        0 <= b < 256 ==> {
            &&& over_capacity(before, b, capacity) ==> (#[trigger] after.bucket@[b]).in_step()
            &&& !over_capacity(before, b, capacity) ==> after.bucket@[b] == before.bucket@[b]
            &&& after.bucket@[b].deserialized == before.bucket@[b].deserialized
            &&& after.bucket@[b].upgrade_packfile == before.bucket@[b].upgrade_packfile
        }
    &&& forall|b: int|
        0 <= b < 256 ==> #[trigger] after.dirty@[b] == (before.dirty@[b] || over_capacity(
            before,
            b,
            capacity,
        ))
}

/// The sum of some numbers and one more.
proof fn lemma_total_push(s: Seq<u64>, n: u64)
    ensures
        total(s.push(n)) == total(s) + n,
{
    assert(s.push(n).drop_last() =~= s);
}

/// The sum of two lists.
proof fn lemma_total_add(a: Seq<u64>, b: Seq<u64>)
    ensures
        total(a + b) == total(a) + total(b),
    decreases b.len(),
{
    if b.len() == 0 {
        assert(a + b =~= a);
    } else {
        lemma_total_add(a, b.drop_last());
        assert((a + b).drop_last() =~= a + b.drop_last());
    }
}

impl ImmutableStoreGroup {
    /// Evicts the oldest entries of each bucket that has more than it may keep. Gives how many each
    /// of them lost.
    pub fn evict_oldest(&mut self, capacity: usize) -> (r: Vec<u64>)
        requires
            old(self).wf(),
        ensures
            final(self).wf(),
            shrunk(*old(self), *final(self), capacity as int),
            r@ == losses(*old(self), old(self).bucket_count as int, capacity as int),
            forall|i: int| 0 <= i < r@.len() ==> 0 < #[trigger] r@[i] <= u32::MAX,
            r@.len() <= 256,
            0 <= total(r@) <= r@.len() * 0xffff_ffff,
    {
        let ghost was = *self;
        let n: usize = self.bucket_count;
        let mut lost: Vec<u64> = Vec::new();
        let mut b: usize = 0;
        while b < n
            invariant
                was.wf(),
                self.wf(),
                b <= n == was.bucket_count == self.bucket_count,
                self.serialize_version == was.serialize_version,
                self.fan_out_threshold == was.fan_out_threshold,
                self.committed_level == was.committed_level,
                self.touched@ == was.touched@,
                forall|c: int| b <= c < 256 ==> #[trigger] self.bucket@[c] == was.bucket@[c],
                forall|c: int|
                    0 <= c < b ==> (#[trigger] self.bucket@[c]).slots() == if over_capacity(
                        was,
                        c,
                        capacity as int,
                    ) {
                        evicted_to(was.bucket@[c].slots(), capacity as int)
                    } else {
                        was.bucket@[c].slots()
                    },
                forall|c: int|
                    0 <= c < b ==> {
                        &&& over_capacity(was, c, capacity as int) ==> (
                        #[trigger] self.bucket@[c]).in_step()
                        &&& !over_capacity(was, c, capacity as int) ==> self.bucket@[c]
                            == was.bucket@[c]
                        &&& self.bucket@[c].deserialized == was.bucket@[c].deserialized
                        &&& self.bucket@[c].upgrade_packfile == was.bucket@[c].upgrade_packfile
                    },
                forall|c: int|
                    0 <= c < 256 ==> #[trigger] self.dirty@[c] == (was.dirty@[c] || (c < b
                        && over_capacity(was, c, capacity as int))),
                lost@ == losses(was, b as int, capacity as int),
                lost@.len() <= b,
                forall|i: int| 0 <= i < lost@.len() ==> 0 < #[trigger] lost@[i] <= u32::MAX,
                0 <= total(lost@) <= lost@.len() * 0xffff_ffff,
            decreases n - b,
        {
            if self.touched[b] && self.bucket[b].sorted_index.len() > capacity {
                let ghost before = *self;
                let ghost counts = lost@;
                let ghost s = was.bucket@[b as int].slots();
                proof {
                    assert(self.bucket@[b as int] == was.bucket@[b as int]);
                    assert(was.bucket@[b as int].wf());
                    was.bucket@[b as int].lemma_sorted_is_indexed();
                    law_eviction_meets_the_capacity(s, capacity as int);
                }
                let mut dirty = self.dirty[b];
                let bucket = &mut self.bucket[b];
                let gone: usize = bucket.evict_oldest_bucket(capacity, &mut dirty);
                self.dirty.set(b, dirty);
                lost.push(gone as u64);
                proof {
                    lemma_total_push(counts, gone as u64);
                    let after = self.bucket@[b as int].slots();
                    assert(after == evicted_to(s, capacity as int));
                    let cutoff = crate::local::evict::age_cutoff(s, s.len() - capacity);
                    let pred = |e: ImmutableStoreEntry| e.data.last_access > cutoff;
                    crate::local::evict::lemma_filter_keeps_sorted(s, pred);
                    assert forall|i: int| 0 <= i < after.len() implies bucket_of(
                        (#[trigger] after[i]).address.hash,
                        n as int,
                    ) == b by {
                        assert(crate::local::evict::passes(s, pred, s.filter(pred)[i]));
                        let j = choose|j: int| 0 <= j < s.len() && #[trigger] s[j] == after[i];
                        assert(bucket_of(s[j].address.hash, n as int) == b);
                    }
                    assert(routed(after, n as int, b as int));
                    assert forall|k: int| 0 <= k < 256 implies (#[trigger] self.bucket@[k]).wf()
                        && routed(self.bucket@[k].slots(), n as int, k) by {
                        if k != b {
                            assert(self.bucket@[k] == before.bucket@[k]);
                        }
                    }
                    assert forall|k: int| 0 <= k < 256 && !#[trigger] self.touched@[k] implies
                        self.bucket@[k].slots().len() == 0 && !self.dirty@[k] by {
                        assert(!before.touched@[k]);
                        assert(self.bucket@[k] == before.bucket@[k]);
                    }
                }
            }
            b = b + 1;
        }
        lost
    }
}

impl LocalImmutableStore {
    /// How many entries the first groups lose to an eviction, one number for each bucket that loses
    /// any.
    pub open spec fn losses_below(self, n: int, max_capacity: usize) -> Seq<u64>
        decreases n,
    {
        if n <= 0 {
            Seq::empty()
        } else {
            let group = self.group@[n - 1];
            let percentage = eviction_percentage(self.settings.target_capacity_percentage);
            self.losses_below(n - 1, max_capacity) + losses(
                group,
                group.bucket_count as int,
                capacity_of(group, max_capacity, percentage),
            )
        }
    }

    /// Whether there is anything for an eviction to do: the store has more entries than the limit,
    /// and garbage collection was not stopped.
    pub open spec fn evicts(self, max_capacity: usize) -> bool {
        !self.stop_gc && self.entries_below(256) > max_capacity
    }

    /// What an eviction reports: nothing where no bucket has too many entries.
    pub open spec fn eviction_events(lost: Seq<u64>, max_capacity: usize) -> Seq<GcEvent> {
        if lost.len() == 0 {
            Seq::empty()
        } else {
            seq![GcEvent::EvictionBegin(max_capacity as u64)] + lost.map_values(
                |n: u64| GcEvent::EvictionProgress(n),
            ) + seq![GcEvent::EvictionEnd(total(lost) as u64)]
        }
    }

    /// Where the store has more entries than the limit, evicts the oldest entries of every bucket
    /// that has more than its share, down to the target percentage of the limit. Gives how many
    /// entries went, and what is to be reported.
    pub fn evict_oldest(&mut self, max_capacity: usize) -> (r: (u64, Vec<GcEvent>))
        requires
            old(self).wf(),
        ensures
            final(self).wf(),
            !old(self).evicts(max_capacity) ==> *final(self) == *old(self) && r.0 == 0 && r.1@.len()
                == 0,
            old(self).evicts(max_capacity) ==> {
                let lost = old(self).losses_below(256, max_capacity);
                let percentage = eviction_percentage(
                    old(self).settings.target_capacity_percentage,
                );
                &&& *final(self) == (LocalImmutableStore {
                    group: final(self).group,
                    ..*old(self)
                })
                &&& forall|g: int|
                    0 <= g < 256 ==> shrunk(
                        old(self).group@[g],
                        #[trigger] final(self).group@[g],
                        capacity_of(old(self).group@[g], max_capacity, percentage),
                    )
                &&& r.0 == total(lost)
                &&& r.1@ == Self::eviction_events(lost, max_capacity)
            },
    {
        let mut events: Vec<GcEvent> = Vec::new();
        if self.stop_gc || self.fragment_count() <= max_capacity as u64 {
            return (0, events);
        }
        let ghost was = *self;
        let percentage: u128 = if self.settings.target_capacity_percentage > 0
            && self.settings.target_capacity_percentage < 100 {
            self.settings.target_capacity_percentage as u128
        } else {
            80
        };
        let ghost pct = percentage as int;
        let mut lost: Vec<u64> = Vec::new();
        let mut count: u64 = 0;
        let mut g: usize = 0;
        while g < GROUP_COUNT
            invariant
                was.wf(),
                self.wf(),
                g <= 256,
                0 < percentage < 100,
                percentage == pct,
                pct == eviction_percentage(was.settings.target_capacity_percentage),
                *self == (LocalImmutableStore { group: self.group, ..was }),
                forall|k: int| g <= k < 256 ==> #[trigger] self.group@[k] == was.group@[k],
                forall|k: int|
                    0 <= k < g ==> shrunk(
                        was.group@[k],
                        #[trigger] self.group@[k],
                        capacity_of(was.group@[k], max_capacity, pct),
                    ),
                lost@ == was.losses_below(g as int, max_capacity),
                lost@.len() <= g * 256,
                count == total(lost@),
                count <= g * 256 * 0xffff_ffff,
            decreases 256 - g,
        {
            let ghost before = *self;
            assert(self.group@[g as int] == was.group@[g as int]);
            assert(was.group@[g as int].wf());
            let active: usize = self.group[g].bucket_count;
            assert(active == was.group@[g as int].bucket_count);
            assert(1 <= active <= 256);
            proof {
                assert(0 <= max_capacity * pct <= max_capacity * 100) by (nonlinear_arith)
                    requires
                        0 <= pct <= 100,
                        max_capacity >= 0,
                ;
                let d = 25600 * active as int;
                assert(d >= 25600);
                assert((max_capacity * pct) / d <= max_capacity as int && 0 <= (max_capacity * pct)
                    / d) by (nonlinear_arith)
                    requires
                        0 <= max_capacity * pct <= max_capacity * 100,
                        d >= 25600,
                        max_capacity >= 0,
                ;
            }
            let capacity: usize = ((max_capacity as u128 * percentage) / (25600 * active as u128))
                as usize;
            assert(capacity == capacity_of(was.group@[g as int], max_capacity, pct));
            let group = &mut self.group[g];
            let more = group.evict_oldest(capacity);
            let ghost start = lost@;
            let mut i: usize = 0;
            while i < more.len()
                invariant
                    i <= more@.len() <= 256,
                    lost@ =~= start + more@.take(i as int),
                    start.len() <= g * 256,
                    g < 256,
                    count == total(start) + total(more@.take(i as int)),
                    total(start) <= g * 256 * 0xffff_ffff,
                    total(more@.take(i as int)) <= i * 0xffff_ffff,
                    forall|k: int| 0 <= k < more@.len() ==> 0 < #[trigger] more@[k] <= u32::MAX,
                decreases more@.len() - i,
            {
                proof {
                    lemma_total_push(more@.take(i as int), more@[i as int]);
                    assert(more@.take(i + 1) =~= more@.take(i as int).push(more@[i as int]));
                }
                count = count + more[i];
                lost.push(more[i]);
                i = i + 1;
            }
            proof {
                assert(more@.take(i as int) =~= more@);
                lemma_total_add(start, more@);
                assert forall|k: int| 0 <= k < g + 1 implies shrunk(
                    was.group@[k],
                    #[trigger] self.group@[k],
                    capacity_of(was.group@[k], max_capacity, pct),
                ) by {
                    if k < g {
                        assert(self.group@[k] == before.group@[k]);
                    }
                }
            }
            g = g + 1;
        }
        if lost.len() > 0 {
            events.push(GcEvent::EvictionBegin(max_capacity as u64));
            let ghost middle = lost@.map_values(|n: u64| GcEvent::EvictionProgress(n));
            let mut i: usize = 0;
            while i < lost.len()
                invariant
                    i <= lost@.len(),
                    middle == lost@.map_values(|n: u64| GcEvent::EvictionProgress(n)),
                    events@ =~= seq![GcEvent::EvictionBegin(max_capacity as u64)] + middle.take(
                        i as int,
                    ),
                decreases lost@.len() - i,
            {
                events.push(GcEvent::EvictionProgress(lost[i]));
                i = i + 1;
            }
            events.push(GcEvent::EvictionEnd(count));
        }
        assert(events@ =~= Self::eviction_events(lost@, max_capacity));
        (count, events)
    }
}

/// How a step of a compaction goes.
#[derive(Clone, Copy, Debug, PartialEq, Eq, Structural)]
pub enum CompactStep {
    /// The store is not above its limit, or garbage collection was stopped: nothing is done.
    Skip,
    /// Compact some groups, the first of them and the one past the last, down to a size for each.
    Run { from: usize, to: usize, group_target: usize },
}

/// What is to be kept on disk for a run to come.
#[derive(Clone, Copy, Debug, PartialEq, Eq, Structural)]
pub enum ResumePoint {
    /// The compaction goes on at this group.
    At(usize),
    /// The compaction is done.
    Nowhere,
}

/// The sum of the sizes that are known.
pub open spec fn known_size(sizes: Seq<Option<usize>>) -> int
    decreases sizes.len(),
{
    if sizes.len() == 0 {
        0
    } else {
        known_size(sizes.drop_last()) + match sizes.last() {
            Some(size) => size as int,
            None => 0,
        }
    }
}

/// More sizes make no smaller sum.
proof fn lemma_known_size_grows(sizes: Seq<Option<usize>>, n: int)
    requires
        0 <= n <= sizes.len(),
    ensures
        0 <= known_size(sizes.take(n)) <= known_size(sizes),
    decreases sizes.len(),
{
    if n < sizes.len() {
        lemma_known_size_grows(sizes.drop_last(), n);
        assert(sizes.drop_last().take(n) =~= sizes.take(n));
    } else {
        assert(sizes.take(n) =~= sizes);
        if n > 0 {
            lemma_known_size_grows(sizes.drop_last(), n - 1);
            assert(sizes.drop_last().take(n - 1) =~= sizes.drop_last());
        }
    }
}

impl LocalImmutableStore {
    /// The bytes that the pack files of all groups have, from what each group says. A group whose
    /// size cannot be told counts nothing.
    pub fn packstore_total_size(sizes: &Vec<Option<usize>>) -> (r: usize)
        requires
            known_size(sizes@) <= usize::MAX,
        ensures
            r == known_size(sizes@),
    {
        let mut total_size: usize = 0;
        let mut i: usize = 0;
        while i < sizes.len()
            invariant
                i <= sizes@.len(),
                known_size(sizes@) <= usize::MAX,
                total_size == known_size(sizes@.take(i as int)),
            decreases sizes@.len() - i,
        {
            proof {
                lemma_known_size_grows(sizes@, i + 1);
                assert(sizes@.take(i + 1).drop_last() =~= sizes@.take(i as int));
            }
            if let Some(size) = sizes[i] {
                total_size = total_size + size;
            }
            i = i + 1;
        }
        assert(sizes@.take(i as int) =~= sizes@);
        total_size
    }

    /// Whether a step begins a pass.
    pub open spec fn begins(at: Option<usize>) -> bool {
        at is None || at->0 >= 256
    }

    /// The groups that one step compacts.
    pub open spec fn step_groups(self) -> int {
        if self.settings.compaction_parallel_groups == 0 {
            1
        } else {
            self.settings.compaction_parallel_groups as int
        }
    }

    /// The first group past a step.
    pub open spec fn step_end(self, from: int) -> int {
        if from + self.step_groups() < 256 {
            from + self.step_groups()
        } else {
            256
        }
    }

    /// The step that a compaction takes, from where the one before it ended.
    pub open spec fn step_for(
        self,
        max_size: usize,
        at: Option<usize>,
        total_size: usize,
    ) -> CompactStep {
        let from = if Self::begins(at) {
            0
        } else {
            at->0 as int
        };
        if self.stop_gc || (Self::begins(at) && total_size <= max_size) {
            CompactStep::Skip
        } else {
            CompactStep::Run {
                from: from as usize,
                to: self.step_end(from) as usize,
                group_target: ((max_size * self.settings.target_size_percentage) / 100
                    / 256) as usize,
            }
        }
    }

    /// Where a compaction goes on after a step.
    pub open spec fn resume_after(to: usize) -> Option<usize> {
        if to < 256 {
            Some(to)
        } else {
            None
        }
    }

    /// Plans a step of a compaction, from a group on or from the start. A pass begins only if the
    /// pack files are above the limit; `total_size` is what they have. Gives the step, and what is
    /// to be reported before it.
    pub fn compact_begin(&mut self, max_size: usize, at: Option<usize>, total_size: usize) -> (r: (
        CompactStep,
        Vec<GcEvent>,
    ))
        requires
            old(self).settings.target_size_percentage <= 100,
        ensures
            ({
                let begins = Self::begins(at);
                let within = begins && total_size <= max_size;
                let from: int = if begins { 0 } else { at->0 as int };
                &&& *final(self) == (LocalImmutableStore {
                    compaction_reclaimed: if begins && !within {
                        0
                    } else {
                        old(self).compaction_reclaimed
                    },
                    ..*old(self)
                })
                &&& r.1@ == if begins && !within {
                    seq![GcEvent::CompactionBegin(max_size as u64)]
                } else {
                    Seq::empty()
                }
                &&& r.0 == if within || old(self).stop_gc {
                    CompactStep::Skip
                } else {
                    CompactStep::Run {
                        from: from as usize,
                        to: old(self).step_end(from) as usize,
                        group_target: ((max_size * old(self).settings.target_size_percentage) / 100
                            / 256) as usize,
                    }
                }
            }),
            r.0 == old(self).step_for(max_size, at, total_size),
    {
        let mut events: Vec<GcEvent> = Vec::new();
        let from: usize = match at {
            Some(group) => group,
            None => GROUP_COUNT,
        };
        if from >= GROUP_COUNT {
            if total_size <= max_size {
                assert(events@ =~= Seq::empty());
                return (CompactStep::Skip, events);
            }
            self.compaction_reclaimed = 0;
            events.push(GcEvent::CompactionBegin(max_size as u64));
            assert(events@ =~= seq![GcEvent::CompactionBegin(max_size as u64)]);
        } else {
            assert(events@ =~= Seq::empty());
        }
        if self.stop_gc {
            return (CompactStep::Skip, events);
        }
        let from: usize = if from >= GROUP_COUNT {
            0
        } else {
            from
        };
        let parallel: usize = if self.settings.compaction_parallel_groups == 0 {
            1
        } else {
            self.settings.compaction_parallel_groups
        };
        let to: usize = if parallel < GROUP_COUNT - from {
            from + parallel
        } else {
            GROUP_COUNT
        };
        let ghost p = self.settings.target_size_percentage as int;
        proof {
            assert(0 <= max_size * p <= max_size * 100) by (nonlinear_arith)
                requires
                    0 <= p <= 100,
                    max_size >= 0,
            ;
        }
        let target: u128 = max_size as u128 * self.settings.target_size_percentage as u128;
        let group_target: usize = (target / 100 / 256) as usize;
        (CompactStep::Run { from, to, group_target }, events)
    }

    /// Ends a step of a compaction whose groups went as `outcome` says. Gives where a run to come
    /// goes on, where this one does, and what is to be reported. A failure keeps the place all the
    /// same.
    pub fn compact_end(&self, to: usize, outcome: Result<(), StoreError>) -> (r: (
        ResumePoint,
        Result<Option<usize>, StoreError>,
        Vec<GcEvent>,
    ))
        ensures
            r.0 == if to < 256 {
                ResumePoint::At(to)
            } else {
                ResumePoint::Nowhere
            },
            r.1 == match outcome {
                Err(e) => Err::<Option<usize>, StoreError>(e),
                Ok(()) => Ok(
                    if to < 256 {
                        Some(to)
                    } else {
                        None
                    },
                ),
            },
            outcome is Ok ==> r.1 == Ok::<Option<usize>, StoreError>(Self::resume_after(to)),
            r.2@ == if outcome is Ok && to >= 256 {
                seq![GcEvent::CompactionEnd(self.compaction_reclaimed)]
            } else {
                Seq::empty()
            },
    {
        let mut events: Vec<GcEvent> = Vec::new();
        assert(events@ =~= Seq::empty());
        let resume = if to < GROUP_COUNT {
            ResumePoint::At(to)
        } else {
            ResumePoint::Nowhere
        };
        if let Err(e) = outcome {
            return (resume, Err(e), events);
        }
        if to < GROUP_COUNT {
            return (resume, Ok(Some(to)), events);
        }
        events.push(GcEvent::CompactionEnd(self.compaction_reclaimed));
        assert(events@ =~= seq![GcEvent::CompactionEnd(self.compaction_reclaimed)]);
        (resume, Ok(None), events)
    }
}

/// A compaction of one group on its way, pack file by pack file.
#[derive(Clone, Copy, Debug, PartialEq, Eq, Structural)]
pub struct GroupCompaction {
    /// The pack file to empty next.
    pub packfile: u32,
    /// The bytes that were reclaimed.
    pub reclaimed: u64,
}

impl GroupCompaction {
    /// A compaction that has not begun. Pack files are numbered from one.
    pub fn new() -> (r: GroupCompaction)
        ensures
            r.packfile == 1,
            r.reclaimed == 0,
    {
        GroupCompaction { packfile: 1, reclaimed: 0 }
    }

    /// Whether the compaction of a group ends with pack files of some size.
    pub open spec fn ends_at(
        current_size: Option<u64>,
        target_size: u64,
        packfile_exists: bool,
    ) -> bool {
        !packfile_exists || (current_size is Some && current_size->0 < target_size)
    }

    /// The compaction once a pack file was emptied.
    pub open spec fn emptied(self, original: u64, compacted: u64) -> GroupCompaction {
        GroupCompaction {
            packfile: (self.packfile + 1) as u32,
            reclaimed: (self.reclaimed + if original > compacted {
                original - compacted
            } else {
                0
            }) as u64,
        }
    }

    /// Whether the compaction is done: the pack files are below the target, where their size is
    /// known, or there is no further pack file.
    pub fn is_done(&self, current_size: Option<u64>, target_size: u64, packfile_exists: bool) -> (r:
        bool)
        ensures
            r == ((current_size is Some && current_size->0 < target_size) || !packfile_exists),
            r == Self::ends_at(current_size, target_size, packfile_exists),
    {
        match current_size {
            Some(size) => size < target_size || !packfile_exists,
            None => !packfile_exists,
        }
    }

    /// Records that the pack file was emptied: it had `original` bytes, and `compacted` of them were
    /// written elsewhere.
    pub fn packfile_done(&mut self, original: u64, compacted: u64)
        requires
            old(self).packfile < u32::MAX,
            old(self).reclaimed + original <= u64::MAX,
        ensures
            final(self).packfile == old(self).packfile + 1,
            final(self).reclaimed == old(self).reclaimed + if original > compacted {
                original - compacted
            } else {
                0
            },
            *final(self) == old(self).emptied(original, compacted),
    {
        let saved: u64 = if original > compacted {
            original - compacted
        } else {
            0
        };
        self.reclaimed = self.reclaimed + saved;
        self.packfile = self.packfile + 1;
    }

    /// Ends the compaction of a group: adds what was reclaimed to the pass and says what is to be
    /// reported.
    pub fn finish(self, store: &mut LocalImmutableStore) -> (r: Option<GcEvent>)
        ensures
            r == if self.reclaimed > 0 {
                Some(GcEvent::CompactionProgress(self.reclaimed))
            } else {
                None
            },
            *final(store) == (LocalImmutableStore {
                compaction_reclaimed: wrapped(
                    old(store).compaction_reclaimed as int,
                    self.reclaimed as int,
                    0x1_0000_0000_0000_0000,
                ) as u64,
                ..*old(store)
            }),
    {
        if self.reclaimed > 0 {
            store.compaction_reclaimed = store.compaction_reclaimed.wrapping_add(self.reclaimed);
            Some(GcEvent::CompactionProgress(self.reclaimed))
        } else {
            None
        }
    }
}

/// The bytes that keep the place of a compaction on disk.
pub fn resume_bytes(group: u64) -> (r: Vec<u8>)
    ensures
        r@ == le_bytes(group as nat, 8),
{
    let mut bytes: Vec<u8> = Vec::new();
    push_le(&mut bytes, group as u128, 8);
    assert(bytes@ =~= le_bytes(group as nat, 8));
    bytes
}

/// Where a compaction that an earlier run did not finish goes on, from the bytes that keep its
/// place. Bytes of another length keep none.
pub fn compact_resume_at(bytes: &Option<Vec<u8>>) -> (r: Option<u64>)
    ensures
        r == match *bytes {
            Some(b) => if b@.len() == 8 {
                Some(le_value(b@) as u64)
            } else {
                None
            },
            None => None,
        },
{
    match bytes {
        None => None,
        Some(bytes) => if bytes.len() == 8 {
            proof {
                lemma_spans();
                assert(bytes@.subrange(0, 8) =~= bytes@);
            }
            Some(read_le(bytes.as_slice(), 0, 8) as u64)
        } else {
            None
        },
    }
}

/// The place of a compaction is read back as it was kept.
pub proof fn law_resume_point_round_trip(group: u64)
    ensures
        le_bytes(group as nat, 8).len() == 8,
        le_value(le_bytes(group as nat, 8)) == group,
{
    lemma_spans();
    law_le_round_trip(group as nat, 8);
}

/// A pass compacts every group once: a step goes on where the one before it ended, never stays
/// where it is, and never leaves the groups.
pub proof fn law_compaction_steps_move_on(store: LocalImmutableStore, from: int)
    requires
        0 <= from < 256,
    ensures
        from < store.step_end(from) <= 256,
        store.step_end(from) - from <= store.step_groups(),
{
}

/// The share that a bucket of a group has of the capacity of a store: as many entries as fit, so
/// that all buckets of all groups together hold no more than the percentage of the capacity.
pub proof fn law_capacity_is_shared_out(
    group: ImmutableStoreGroup,
    max_capacity: usize,
    percentage: usize,
    n: int,
)
    requires
        group.bucket_count > 0,
    ensures
        ({
            let target = eviction_percentage(percentage);
            let capacity = capacity_of(group, max_capacity, target);
            &&& 0 < target < 100
            &&& 0 < percentage < 100 ==> target == percentage
            &&& percentage == 0 || percentage >= 100 ==> target == 80
            &&& 100 * (256 * (group.bucket_count * capacity)) <= max_capacity * target
            &&& n > capacity ==> 100 * (256 * (group.bucket_count * n)) > max_capacity * target
        }),
{
    let target = eviction_percentage(percentage);
    let whole = max_capacity * target;
    let parts = 25600 * group.bucket_count as int;
    let capacity = capacity_of(group, max_capacity, target);
    assert(whole >= 0) by (nonlinear_arith)
        requires
            whole == max_capacity * target,
            target > 0,
            max_capacity >= 0,
    ;
    vstd::arithmetic::div_mod::lemma_fundamental_div_mod(whole, parts);
    vstd::arithmetic::div_mod::lemma_mod_bound(whole, parts);
    let count = group.bucket_count as int;
    assert(parts * capacity == 100 * (256 * (count * capacity))) by (nonlinear_arith)
        requires
            parts == 25600 * count,
    ;
    if n > capacity {
        assert(100 * (256 * (count * n)) >= parts * capacity + parts) by (nonlinear_arith)
            requires
                parts == 25600 * count,
                count > 0,
                n >= capacity + 1,
        ;
    }
}

/// An eviction reports as lost what is not there any more.
pub proof fn law_losses_are_what_is_gone(
    before: ImmutableStoreGroup,
    after: ImmutableStoreGroup,
    n: int,
    capacity: int,
)
    requires
        shrunk(before, after, capacity),
        before.wf(),
        0 <= n <= before.bucket_count <= 256,
        0 <= capacity,
    ensures
        total(losses(before, n, capacity)) == entries(before.bucket@, n) - entries(
            after.bucket@,
            n,
        ),
    decreases n,
{
    if n > 0 {
        law_losses_are_what_is_gone(before, after, n - 1, capacity);
        let s = before.bucket@[n - 1].slots();
        assert(after.bucket@[n - 1].slots() == if over_capacity(before, n - 1, capacity) {
            evicted_to(s, capacity)
        } else {
            s
        });
        if over_capacity(before, n - 1, capacity) {
            law_eviction_only_drops_entries(s, capacity, s[0]);
            assert(before.bucket@[n - 1].wf());
            assert(s.len() <= u32::MAX);
            lemma_total_push(
                losses(before, n - 1, capacity),
                (s.len() - evicted_to(s, capacity).len()) as u64,
            );
        }
    }
}

/// The sizes of pack stores add up, and one whose size is not known does not count.
pub proof fn law_known_sizes_add_up(a: Seq<Option<usize>>, b: Seq<Option<usize>>)
    ensures
        known_size(a + b) == known_size(a) + known_size(b),
        a.len() == 1 ==> known_size(a) == if a[0] is Some {
            a[0]->0 as int
        } else {
            0
        },
        a.len() == 0 ==> known_size(a) == 0,
    decreases b.len(),
{
    if a.len() == 1 {
        reveal_with_fuel(known_size, 2);
    }
    if b.len() == 0 {
        assert(a + b =~= a);
    } else {
        assert((a + b).drop_last() =~= a + b.drop_last());
        law_known_sizes_add_up(a, b.drop_last());
    }
}

/// A compaction begins with the first group, and only if the store is above its limit. Each step
/// begins where the one before it ended, whatever the store has come down to, until the last group is
/// done, and takes as many groups as are done in parallel, or one. Each group is to come down to its share of the percentage of the limit. Nothing runs once
/// garbage collection was stopped.
pub proof fn law_compaction_visits_every_group(
    store: LocalImmutableStore,
    max_size: usize,
    total_size: usize,
    to: usize,
)
    requires
        store.settings.target_size_percentage <= 100,
    ensures
        ({
            let first = store.step_for(max_size, None, total_size);
            let next = store.step_for(max_size, LocalImmutableStore::resume_after(to), total_size);
            &&& first is Skip <==> store.stop_gc || total_size <= max_size
            &&& first is Run ==> first->from == 0 && 0 < first->to <= 256
            &&& to < 256 ==> (next is Skip <==> store.stop_gc)
            &&& to < 256 && next is Run ==> next->from == to && to < next->to <= 256
            &&& to < 256 && next is Run ==> next->to == {
                let parallel = store.settings.compaction_parallel_groups as int;
                let groups = if parallel > 0 {
                    parallel
                } else {
                    1
                };
                if to + groups > 256 {
                    256
                } else {
                    to + groups
                }
            }
            &&& to >= 256 ==> LocalImmutableStore::resume_after(to) is None
            &&& first is Run ==> 25600 * first->group_target <= max_size
                * store.settings.target_size_percentage && max_size
                * store.settings.target_size_percentage < 25600 * (first->group_target + 1)
            &&& first is Run && next is Run ==> first->group_target == next->group_target
        }),
{
    let p = store.settings.target_size_percentage as int;
    let whole = max_size * p;
    assert(0 <= whole <= max_size * 100) by (nonlinear_arith)
        requires
            whole == max_size * p,
            0 <= p <= 100,
            max_size >= 0,
    ;
    let share = whole / 100 / 256;
    assert(0 <= share <= max_size);
    assert(25600 * share <= whole < 25600 * (share + 1));
}

/// An eviction that drops entries says so: it reports its beginning, with the limit, then what each
/// bucket lost, and last how much that is in all. One that drops none reports nothing.
pub proof fn law_eviction_reports_add_up(lost: Seq<u64>, max_capacity: usize)
    ensures
        ({
            let events = LocalImmutableStore::eviction_events(lost, max_capacity);
            &&& lost.len() == 0 ==> events.len() == 0
            &&& lost.len() > 0 ==> {
                &&& events.len() == lost.len() + 2
                &&& events[0] == GcEvent::EvictionBegin(max_capacity as u64)
                &&& events.last() == GcEvent::EvictionEnd(total(lost) as u64)
                &&& forall|i: int|
                    0 <= i < lost.len() ==> events[i + 1] == GcEvent::EvictionProgress(
                        #[trigger] lost[i],
                    )
            }
        }),
{
}

/// What several buckets lost adds up.
pub proof fn law_totals_add_up(a: Seq<u64>, b: Seq<u64>)
    ensures
        total(a + b) == total(a) + total(b),
        a.len() == 1 ==> total(a) == a[0],
        a.len() == 0 ==> total(a) == 0,
{
    lemma_total_add(a, b);
    if a.len() == 1 {
        reveal_with_fuel(total, 2);
    }
}

/// An eviction leaves a bucket that is within its capacity, or was never used, as it is, and clean if
/// it was. A bucket that is used and above its capacity has no more entries than that afterwards, and
/// is written by the next flush.
pub proof fn law_buckets_within_capacity_stay(
    before: ImmutableStoreGroup,
    after: ImmutableStoreGroup,
    capacity: int,
    b: int,
)
    requires
        shrunk(before, after, capacity),
        0 <= capacity,
        0 <= b < 256,
    ensures
        before.bucket@[b].slots().len() <= capacity || !before.touched@[b] || b
            >= before.bucket_count ==> after.bucket@[b] == before.bucket@[b] && after.dirty@[b]
            == before.dirty@[b],
        before.bucket@[b].slots().len() > capacity && before.touched@[b] && b < before.bucket_count
            ==> after.bucket@[b].slots().len() <= capacity && after.dirty@[b],
{
    let s = before.bucket@[b].slots();
    law_eviction_meets_the_capacity(s, capacity);
    assert(after.bucket@[b].slots() == if over_capacity(before, b, capacity) {
        evicted_to(s, capacity)
    } else {
        s
    });
    assert(after.dirty@[b] == (before.dirty@[b] || over_capacity(before, b, capacity)));
}

/// A store evicts exactly if it has more fragments than it may and garbage collection was not
/// stopped. Its fragments are those of its groups: none is left out, and none counts twice.
pub proof fn law_only_full_stores_evict(store: LocalImmutableStore, max_capacity: usize, n: int)
    requires
        0 <= n,
    ensures
        store.evicts(max_capacity) <==> !store.stop_gc && store.entries_below(256) > max_capacity,
        store.entries_below(n + 1) == store.entries_below(n) + entries(
            store.group@[n].bucket@,
            256,
        ),
        store.entries_below(0) == 0,
{
}

/// A group is compacted pack file by pack file, in turn, until it is below its target or has no
/// further one. A group whose size is not known is compacted to the last. What is reclaimed is what
/// the pack files had, less what was written elsewhere.
pub proof fn law_group_is_compacted_to_its_target(
    compaction: GroupCompaction,
    original: u64,
    compacted: u64,
    current_size: Option<u64>,
    target_size: u64,
)
    requires
        compaction.packfile < u32::MAX,
        compaction.reclaimed + original <= u64::MAX,
    ensures
        compaction.emptied(original, compacted).packfile == compaction.packfile + 1,
        compacted <= original ==> compaction.emptied(original, compacted).reclaimed + compacted
            == compaction.reclaimed + original,
        compacted > original ==> compaction.emptied(original, compacted).reclaimed
            == compaction.reclaimed,
        GroupCompaction::ends_at(current_size, target_size, false),
        GroupCompaction::ends_at(None, target_size, true) == false,
        current_size is Some ==> (GroupCompaction::ends_at(current_size, target_size, true) <==>
            current_size->0 < target_size),
{
}

/// The entries that are in the buckets in use of the first groups.
pub open spec fn entries_in_use(store: LocalImmutableStore, n: int) -> int
    decreases n,
{
    if n <= 0 {
        0
    } else {
        entries_in_use(store, n - 1) + entries(
            store.group@[n - 1].bucket@,
            store.group@[n - 1].bucket_count as int,
        )
    }
}

/// An eviction of a whole store reports as lost what is not there any more.
pub proof fn law_store_losses_are_what_is_gone(
    before: LocalImmutableStore,
    after: LocalImmutableStore,
    n: int,
    max_capacity: usize,
)
    requires
        before.wf(),
        0 <= n <= 256,
        forall|g: int|
            0 <= g < n ==> shrunk(
                before.group@[g],
                #[trigger] after.group@[g],
                capacity_of(
                    before.group@[g],
                    max_capacity,
                    eviction_percentage(before.settings.target_capacity_percentage),
                ),
            ),
    ensures
        total(before.losses_below(n, max_capacity)) == entries_in_use(before, n) - entries_in_use(
            after,
            n,
        ),
    decreases n,
{
    if n > 0 {
        law_store_losses_are_what_is_gone(before, after, n - 1, max_capacity);
        let group = before.group@[n - 1];
        assert(group.wf());
        let percentage = eviction_percentage(before.settings.target_capacity_percentage);
        let capacity = capacity_of(group, max_capacity, percentage);
        law_capacity_is_shared_out(
            group,
            max_capacity,
            before.settings.target_capacity_percentage,
            0,
        );
        let whole = max_capacity * percentage;
        let parts = 25600 * group.bucket_count as int;
        assert(whole / parts >= 0) by (nonlinear_arith)
            requires
                whole == max_capacity * percentage,
                max_capacity >= 0,
                percentage > 0,
                parts > 0,
        ;
        assert(shrunk(group, after.group@[n - 1], capacity));
        law_losses_are_what_is_gone(
            group,
            after.group@[n - 1],
            group.bucket_count as int,
            capacity,
        );
        lemma_total_add(
            before.losses_below(n - 1, max_capacity),
            losses(group, group.bucket_count as int, capacity),
        );
    }
}

} // verus!
