//! Evicting entries by age.
use vstd::prelude::*;

use crate::local::bucket::{sorted, ImmutableStoreBucket};
use crate::local::data::ImmutableStoreEntry;
use crate::sorting::{ascending, by_value, sort};

verus! {

/// The times of last access, in the order of the entries.
pub open spec fn accesses(s: Seq<ImmutableStoreEntry>) -> Seq<u128> {
    s.map_values(|e: ImmutableStoreEntry| e.data.last_access as u128)
}

/// The time up to which entries go when `n` are to go: the `n`-th smallest time of last access.
pub open spec fn age_cutoff(s: Seq<ImmutableStoreEntry>, n: int) -> u64 {
    ascending(accesses(s))[n - 1] as u64
}

/// The entries that were accessed after a time.
pub open spec fn newer_than(s: Seq<ImmutableStoreEntry>, cutoff: u64) -> Seq<ImmutableStoreEntry> {
    s.filter(|e: ImmutableStoreEntry| e.data.last_access > cutoff)
}

/// A bucket with at most `capacity` entries, unless it has no more than that already.
pub open spec fn evicted_to(
    s: Seq<ImmutableStoreEntry>,
    capacity: int,
) -> Seq<ImmutableStoreEntry> {
    if s.len() <= capacity {
        s
    } else {
        newer_than(s, age_cutoff(s, s.len() - capacity))
    }
}

/// Whether an entry is of a list and passes a test.
pub open spec fn passes(
    s: Seq<ImmutableStoreEntry>,
    pred: spec_fn(ImmutableStoreEntry) -> bool,
    entry: ImmutableStoreEntry,
) -> bool {
    pred(entry) && exists|j: int| 0 <= j < s.len() && #[trigger] s[j] == entry
}

/// Leaving entries out keeps the order.
pub proof fn lemma_filter_keeps_sorted(
    s: Seq<ImmutableStoreEntry>,
    pred: spec_fn(ImmutableStoreEntry) -> bool,
)
    requires
        sorted(s),
    ensures
        sorted(s.filter(pred)),
        forall|i: int|
            0 <= i < s.filter(pred).len() ==> passes(s, pred, #[trigger] s.filter(pred)[i]),
    decreases s.len(),
{
    reveal(Seq::filter);
    if s.len() > 0 {
        let rest = s.drop_last();
        assert forall|i: int, j: int| 0 <= i < j < rest.len() implies (
        #[trigger] rest[i]).key().before((#[trigger] rest[j]).key()) by {
            assert(s[i].key().before(s[j].key()));
        }
        lemma_filter_keeps_sorted(rest, pred);
        let kept = rest.filter(pred);
        let all = s.filter(pred);
        assert forall|i: int| 0 <= i < all.len() implies passes(
            s,
            pred,
            #[trigger] all[i],
        ) by {
            if i < kept.len() {
                assert(passes(rest, pred, kept[i]));
                let j = choose|j: int| 0 <= j < rest.len() && #[trigger] rest[j] == kept[i];
                assert(s[j] == all[i]);
            } else {
                assert(s[s.len() - 1] == all[i]);
            }
        }
        assert forall|i: int, j: int| 0 <= i < j < all.len() implies (
        #[trigger] all[i]).key().before((#[trigger] all[j]).key()) by {
            if j < kept.len() {
                assert(kept[i].key().before(kept[j].key()));
            } else {
                assert(passes(rest, pred, kept[i]));
                let m = choose|m: int| 0 <= m < rest.len() && #[trigger] rest[m] == kept[i];
                assert(s[m].key().before(s[s.len() - 1].key()));
            }
        }
    }
}

impl ImmutableStoreBucket {
    /// Whether the table itself is in the order of the index, which then just counts.
    pub open spec fn in_step(self) -> bool {
        &&& self.entry@ == self.slots()
        &&& forall|i: int|
            0 <= i < self.sorted_index@.len() ==> #[trigger] self.sorted_index@[i] == i
    }

    /// Keeps the entries that `keep` marks, slot by slot.
    pub(crate) fn retain(
        &mut self,
        keep: &Vec<bool>,
        Ghost(pred): Ghost<spec_fn(ImmutableStoreEntry) -> bool>,
    )
        requires
            old(self).in_range(),
            keep@.len() == old(self).slots().len(),
            forall|i: int|
                0 <= i < keep@.len() ==> #[trigger] keep@[i] == pred(old(self).slots()[i]),
        ensures
            final(self).indexed(),
            old(self).wf() ==> final(self).wf(),
            final(self).slots() == old(self).slots().filter(pred),
            final(self).in_step(),
            final(self).deserialized == old(self).deserialized,
            final(self).upgrade_packfile == old(self).upgrade_packfile,
    {
        let ghost s = self.slots();
        let count: usize = self.sorted_index.len();
        let mut sorted_index: Vec<u32> = Vec::new();
        let mut entry: Vec<ImmutableStoreEntry> = Vec::new();
        let mut slot: usize = 0;
        proof {
            reveal(Seq::filter);
            assert(s.take(0).filter(pred) =~= entry@);
        }
        while slot < count
            invariant
                self.in_range(),
                s == self.slots(),
                count == s.len() == keep@.len(),
                count <= u32::MAX,
                slot <= count,
                forall|i: int| 0 <= i < keep@.len() ==> #[trigger] keep@[i] == pred(s[i]),
                entry@ == s.take(slot as int).filter(pred),
                entry@.len() <= slot,
                sorted_index@.len() == entry@.len(),
                forall|i: int| 0 <= i < sorted_index@.len() ==> #[trigger] sorted_index@[i] == i,
            decreases count - slot,
        {
            proof {
                reveal(Seq::filter);
                assert(s.take(slot + 1).drop_last() =~= s.take(slot as int));
                assert(s.take(slot + 1).last() == s[slot as int]);
            }
            if keep[slot] {
                sorted_index.push(entry.len() as u32);
                entry.push(self.at(slot));
            }
            slot = slot + 1;
        }
        self.sorted_index = sorted_index;
        self.entry = entry;
        proof {
            assert(s.take(count as int) =~= s);
            assert(self.slots() =~= s.filter(pred));
            assert(self.entry@ =~= self.slots());
            if sorted(s) {
                lemma_filter_keeps_sorted(s, pred);
            }
        }
    }

    /// Evicts the entries that were accessed longest ago, so that no more than `target_capacity`
    /// remain. Entries that share the time of the last one to go, go too. Returns how many went. The
    /// index need not be sorted. A bucket that has no more than it may keep is left alone; in
    /// another, what stays is laid out anew in the order of the index.
    pub fn evict_oldest_bucket(&mut self, target_capacity: usize, dirty: &mut bool) -> (r: usize)
        requires
            old(self).indexed(),
        ensures
            final(self).indexed(),
            old(self).wf() ==> final(self).wf(),
            final(self).slots() == evicted_to(old(self).slots(), target_capacity as int),
            r == old(self).slots().len() - final(self).slots().len(),
            *final(dirty) == (*old(dirty) || old(self).slots().len() > target_capacity),
            old(self).slots().len() <= target_capacity ==> *final(self) == *old(self),
            old(self).slots().len() > target_capacity ==> final(self).in_step(),
            final(self).deserialized == old(self).deserialized,
            final(self).upgrade_packfile == old(self).upgrade_packfile,
    {
        let ghost s = self.slots();
        let count: usize = self.sorted_index.len();
        if count <= target_capacity {
            return 0;
        }
        let to_evict: usize = count - target_capacity;
        let mut times: Vec<u128> = Vec::new();
        let mut slot: usize = 0;
        while slot < count
            invariant
                self.in_range(),
                s == self.slots(),
                count == s.len(),
                slot <= count,
                times@ =~= accesses(s).take(slot as int),
            decreases count - slot,
        {
            times.push(self.at(slot).data.last_access as u128);
            slot = slot + 1;
        }
        assert(times@ =~= accesses(s));
        let times = sort(&times);
        proof {
            lemma_ascending_elements(accesses(s), to_evict - 1);
        }
        let cutoff_point: u64 = times[to_evict - 1] as u64;
        let ghost pred = |e: ImmutableStoreEntry| e.data.last_access > cutoff_point;
        let mut keep: Vec<bool> = Vec::new();
        slot = 0;
        while slot < count
            invariant
                self.in_range(),
                s == self.slots(),
                count == s.len(),
                slot <= count,
                keep@.len() == slot,
                pred == (|e: ImmutableStoreEntry| e.data.last_access > cutoff_point),
                forall|i: int| 0 <= i < slot ==> #[trigger] keep@[i] == pred(s[i]),
            decreases count - slot,
        {
            keep.push(self.at(slot).data.last_access > cutoff_point);
            slot = slot + 1;
        }
        self.retain(&keep, Ghost(pred));
        *dirty = true;
        proof {
            s.lemma_filter_len(pred);
        }
        count - self.entry.len()
    }
}

/// What is sorted is made of what was there.
pub proof fn lemma_ascending_elements(s: Seq<u128>, i: int)
    requires
        0 <= i < s.len(),
    ensures
        ascending(s).len() == s.len(),
        s.contains(ascending(s)[i]),
{
    broadcast use vstd::seq_lib::group_to_multiset_ensures;

    assert(vstd::relations::total_ordering(by_value()));
    s.lemma_sort_by_ensures(by_value());
    assert(ascending(s).to_multiset().len() == s.to_multiset().len());
    assert(ascending(s).contains(ascending(s)[i]));
}

/// An eviction by age never keeps an entry while it drops a newer one.
pub proof fn law_oldest_go_first(
    s: Seq<ImmutableStoreEntry>,
    capacity: int,
    gone: ImmutableStoreEntry,
    kept: ImmutableStoreEntry,
)
    requires
        0 <= capacity,
        s.contains(gone),
        !evicted_to(s, capacity).contains(gone),
        evicted_to(s, capacity).contains(kept),
    ensures
        gone.data.last_access < kept.data.last_access,
{
    if s.len() > capacity {
        let cutoff = age_cutoff(s, s.len() - capacity);
        let pred = |e: ImmutableStoreEntry| e.data.last_access > cutoff;
        let i = choose|i: int| 0 <= i < s.len() && s[i] == gone;
        if pred(gone) {
            s.lemma_filter_contains(pred, i);
        }
        let j = choose|j: int|
            0 <= j < evicted_to(s, capacity).len() && evicted_to(s, capacity)[j] == kept;
        s.lemma_filter_pred(pred, j);
    }
}

/// An eviction by age leaves no more entries than the capacity.
pub proof fn law_eviction_meets_the_capacity(s: Seq<ImmutableStoreEntry>, capacity: int)
    requires
        0 <= capacity,
    ensures
        evicted_to(s, capacity).len() <= capacity,
{
    if s.len() > capacity {
        let n = s.len() - capacity;
        let times = accesses(s);
        let order = ascending(times);
        let cutoff = age_cutoff(s, n);
        let newer = |t: u128| t > cutoff as u128;
        assert(vstd::relations::total_ordering(by_value()));
        times.lemma_sort_by_ensures(by_value());
        lemma_ascending_elements(times, n - 1);
        lemma_filter_count_by_multiset(times, order, newer);
        lemma_filter_count_map(s, cutoff);
        // In order, the first `n` times are not newer.
        let head = order.take(n);
        let tail = order.skip(n);
        assert(order =~= head + tail);
        Seq::filter_distributes_over_add(head, tail, newer);
        assert forall|i: int| 0 <= i < head.len() implies !newer(#[trigger] head[i]) by {
            assert(by_value()(order[i], order[n - 1]));
        }
        lemma_filter_none(head, newer);
        tail.lemma_filter_len(newer);
    }
}

/// An eviction by age keeps as much as it may: whatever time one chooses, the entries that are newer
/// are no more than those that stay, or too many for the capacity.
pub proof fn law_eviction_keeps_all_that_fits(
    s: Seq<ImmutableStoreEntry>,
    capacity: int,
    time: u64,
)
    requires
        0 <= capacity,
    ensures
        newer_than(s, time).len() <= capacity ==> newer_than(s, time).len() <= evicted_to(
            s,
            capacity,
        ).len(),
{
    s.lemma_filter_len(|e: ImmutableStoreEntry| e.data.last_access > time);
    if s.len() > capacity {
        let n = s.len() - capacity;
        let times = accesses(s);
        let order = ascending(times);
        let cutoff = age_cutoff(s, n);
        let newer = |t: u128| t > time as u128;
        assert(vstd::relations::total_ordering(by_value()));
        times.lemma_sort_by_ensures(by_value());
        lemma_ascending_elements(times, n - 1);
        if time < cutoff {
            // In order, the last times, from the cutoff on, are all newer.
            lemma_filter_count_by_multiset(times, order, newer);
            lemma_filter_count_map(s, time);
            let head = order.take(n - 1);
            let tail = order.skip(n - 1);
            assert(order =~= head + tail);
            Seq::filter_distributes_over_add(head, tail, newer);
            let i = choose|i: int| 0 <= i < times.len() && times[i] == order[n - 1];
            assert(order[n - 1] == cutoff as u128);
            assert forall|i: int| 0 <= i < tail.len() implies newer(#[trigger] tail[i]) by {
                if i > 0 {
                    assert(by_value()(order[n - 1], order[n - 1 + i]));
                }
            }
            lemma_filter_every(tail, newer);
        } else {
            lemma_newer_than_later(s, cutoff, time);
        }
    }
}

/// Fewer entries are newer than a later time.
proof fn lemma_newer_than_later(s: Seq<ImmutableStoreEntry>, early: u64, late: u64)
    requires
        early <= late,
    ensures
        newer_than(s, late).len() <= newer_than(s, early).len(),
    decreases s.len(),
{
    reveal(Seq::filter);
    if s.len() > 0 {
        lemma_newer_than_later(s.drop_last(), early, late);
    }
}

/// A filter that everything passes leaves everything.
proof fn lemma_filter_every(s: Seq<u128>, pred: spec_fn(u128) -> bool)
    requires
        forall|i: int| 0 <= i < s.len() ==> pred(#[trigger] s[i]),
    ensures
        s.filter(pred).len() == s.len(),
    decreases s.len(),
{
    reveal(Seq::filter);
    if s.len() > 0 {
        assert forall|i: int| 0 <= i < s.drop_last().len() implies pred(
            #[trigger] s.drop_last()[i],
        ) by {
            assert(pred(s[i]));
        }
        lemma_filter_every(s.drop_last(), pred);
        assert(pred(s[s.len() - 1]));
    }
}

/// A filter that nothing passes leaves nothing.
proof fn lemma_filter_none(s: Seq<u128>, pred: spec_fn(u128) -> bool)
    requires
        forall|i: int| 0 <= i < s.len() ==> !pred(#[trigger] s[i]),
    ensures
        s.filter(pred).len() == 0,
    decreases s.len(),
{
    reveal(Seq::filter);
    if s.len() > 0 {
        assert forall|i: int| 0 <= i < s.drop_last().len() implies !pred(
            #[trigger] s.drop_last()[i],
        ) by {
            assert(!pred(s[i]));
        }
        lemma_filter_none(s.drop_last(), pred);
        assert(!pred(s[s.len() - 1]));
    }
}

/// Counting newer times is counting newer entries.
proof fn lemma_filter_count_map(s: Seq<ImmutableStoreEntry>, cutoff: u64)
    ensures
        newer_than(s, cutoff).len() == accesses(s).filter(|t: u128| t > cutoff as u128).len(),
    decreases s.len(),
{
    reveal(Seq::filter);
    if s.len() > 0 {
        lemma_filter_count_map(s.drop_last(), cutoff);
        assert(accesses(s).drop_last() =~= accesses(s.drop_last()));
    }
}

/// How many pass a filter does not depend on the order.
proof fn lemma_filter_count_by_multiset(a: Seq<u128>, b: Seq<u128>, pred: spec_fn(u128) -> bool)
    requires
        a.to_multiset() == b.to_multiset(),
    ensures
        a.filter(pred).len() == b.filter(pred).len(),
{
    lemma_filter_to_multiset(a, pred);
    lemma_filter_to_multiset(b, pred);
    broadcast use vstd::seq_lib::group_to_multiset_ensures;

    assert(a.filter(pred).to_multiset().len() == a.filter(pred).len());
    assert(b.filter(pred).to_multiset().len() == b.filter(pred).len());
}

/// A filter of a list is a filter of its multiset.
proof fn lemma_filter_to_multiset(a: Seq<u128>, pred: spec_fn(u128) -> bool)
    ensures
        a.filter(pred).to_multiset() =~= a.to_multiset().filter(pred),
    decreases a.len(),
{
    broadcast use vstd::seq_lib::group_to_multiset_ensures;

    reveal(Seq::filter);
    if a.len() > 0 {
        lemma_filter_to_multiset(a.drop_last(), pred);
        assert(a =~= a.drop_last().push(a.last()));
    } else {
        assert(a.to_multiset() =~= vstd::multiset::Multiset::empty());
    }
}

/// An eviction by age changes no entry and makes none up: what stays was there. An entry stays
/// exactly if it is newer than all that goes, and nothing goes from a bucket that is within its
/// capacity.
pub proof fn law_eviction_only_drops_entries(
    s: Seq<ImmutableStoreEntry>,
    capacity: int,
    e: ImmutableStoreEntry,
)
    requires
        0 <= capacity,
    ensures
        s.len() <= capacity ==> evicted_to(s, capacity) == s,
        evicted_to(s, capacity).len() <= s.len(),
        evicted_to(s, capacity).contains(e) ==> s.contains(e),
        s.contains(e) && (forall|gone: ImmutableStoreEntry|
            s.contains(gone) && !(#[trigger] evicted_to(s, capacity).contains(gone))
                ==> gone.data.last_access < e.data.last_access) ==> evicted_to(
            s,
            capacity,
        ).contains(e),
{
    if s.len() > capacity {
        let cutoff = age_cutoff(s, s.len() - capacity);
        let pred = |e: ImmutableStoreEntry| e.data.last_access > cutoff;
        let after = evicted_to(s, capacity);
        s.lemma_filter_len(pred);
        if after.contains(e) {
            let j = choose|j: int| 0 <= j < after.len() && after[j] == e;
            s.lemma_filter_contains_rev(pred, e);
        }
        if s.contains(e) && !after.contains(e) {
            assert(!(e.data.last_access < e.data.last_access));
        }
    }
}

/// The entries that are newer than a time are those of the bucket that were accessed after it.
pub proof fn law_newer_entries_were_accessed_later(
    s: Seq<ImmutableStoreEntry>,
    time: u64,
    e: ImmutableStoreEntry,
)
    ensures
        newer_than(s, time).contains(e) <==> s.contains(e) && e.data.last_access > time,
{
    let pred = |e: ImmutableStoreEntry| e.data.last_access > time;
    let after = newer_than(s, time);
    if after.contains(e) {
        let j = choose|j: int| 0 <= j < after.len() && after[j] == e;
        s.lemma_filter_pred(pred, j);
        s.lemma_filter_contains_rev(pred, e);
    }
    if s.contains(e) && e.data.last_access > time {
        let i = choose|i: int| 0 <= i < s.len() && s[i] == e;
        s.lemma_filter_contains(pred, i);
    }
}

} // verus!
