//! Evicting payloads until a bucket holds few enough bytes.
use std::collections::HashMap;
use std::collections::HashSet;
use vstd::prelude::*;

use crate::local::bucket::ImmutableStoreBucket;
use crate::local::data::{ImmutableData, ImmutableStoreEntry};
use crate::sorting::{ascending, sort};
use crate::types::PAYLOAD_STORED_DURABLE;

verus! {

/// A payload that may be evicted: where it lies, its size, and when it was last accessed.
#[derive(Clone, Copy, Debug, PartialEq, Eq, Structural)]
pub struct Candidate {
    pub place: u64,
    pub size: u32,
    pub access: u64,
}

/// The place of a payload as one number.
pub open spec fn place_of(data: ImmutableData) -> u64 {
    (data.pack_file as int * 0x1_0000_0000 + data.pack_offset as int) as u64
}

/// Whether some entry has a payload at a place.
pub open spec fn occupied(s: Seq<ImmutableStoreEntry>, place: u64) -> bool {
    exists|i: int|
        0 <= i < s.len() && (#[trigger] s[i]).data.pack_file != 0 && place_of(s[i].data) == place
}

/// How many payloads entries have, and of how many bytes. Entries that share a payload count once,
/// with the size that the first of them records.
pub open spec fn payloads(s: Seq<ImmutableStoreEntry>) -> (int, int)
    decreases s.len(),
{
    if s.len() == 0 {
        (0, 0)
    } else {
        let (count, size) = payloads(s.drop_last());
        let data = s.last().data;
        if data.pack_file == 0 || occupied(s.drop_last(), place_of(data)) {
            (count, size)
        } else {
            (count + 1, size + data.size_payload)
        }
    }
}

/// Whether the payload of an entry may go. Where local fragments are protected, those that no
/// durable store has confirmed stay.
pub open spec fn may_go(data: ImmutableData, protect_local: bool) -> bool {
    data.pack_file != 0 && (protect_local ==> data.flags & PAYLOAD_STORED_DURABLE != 0)
}

/// The candidate at a place.
pub open spec fn candidate_at(c: Seq<Candidate>, place: u64) -> int {
    choose|i: int| 0 <= i < c.len() && (#[trigger] c[i]).place == place
}

/// Whether there is a candidate at a place.
pub open spec fn has_candidate(c: Seq<Candidate>, place: u64) -> bool {
    exists|i: int| 0 <= i < c.len() && (#[trigger] c[i]).place == place
}

/// The later of two times.
pub open spec fn newest(a: u64, b: u64) -> u64 {
    if a < b {
        b
    } else {
        a
    }
}

/// The payloads that may go, in the order in which they first appear: each with the size that the
/// first of its entries records and the newest access that any of them records.
pub open spec fn candidates(s: Seq<ImmutableStoreEntry>, protect_local: bool) -> Seq<Candidate>
    decreases s.len(),
{
    if s.len() == 0 {
        Seq::empty()
    } else {
        let c = candidates(s.drop_last(), protect_local);
        let data = s.last().data;
        let place = place_of(data);
        if !may_go(data, protect_local) {
            c
        } else if has_candidate(c, place) {
            let i = candidate_at(c, place);
            c.update(i, Candidate { access: newest(c[i].access, data.last_access), ..c[i] })
        } else {
            c.push(Candidate { place, size: data.size_payload, access: data.last_access })
        }
    }
}

/// What orders candidates: their size, then their last access.
pub open spec fn rank(c: Candidate) -> u128 {
    (c.size as int * 0x1_0000_0000_0000_0000 + c.access as int) as u128
}

/// The candidates in order.
pub open spec fn ranking(c: Seq<Candidate>) -> Seq<u128> {
    ascending(c.map_values(|x: Candidate| rank(x)))
}

/// The time up to which payloads go: that of the first candidate, in order, with which the bucket
/// falls below its target. Where none does, all time.
pub open spec fn size_cutoff(
    order: Seq<u128>,
    from: int,
    gone: int,
    stored: int,
    target: int,
) -> u64
    decreases order.len() - from,
{
    if from >= order.len() {
        u64::MAX
    } else {
        let now = gone + order[from] as int / 0x1_0000_0000_0000_0000;
        let left = if stored > now { stored - now } else { 0 };
        if left < target {
            (order[from] as int % 0x1_0000_0000_0000_0000) as u64
        } else {
            size_cutoff(order, from + 1, now, stored, target)
        }
    }
}

/// The time up to which the payloads of a bucket go.
pub open spec fn bucket_cutoff(
    entry: Seq<ImmutableStoreEntry>,
    protect_local: bool,
    stored: int,
    target: int,
) -> u64 {
    size_cutoff(ranking(candidates(entry, protect_local)), 0, 0, stored, target)
}

/// Whether an entry loses its payload.
pub open spec fn loses(entry: ImmutableStoreEntry, protect_local: bool, cutoff: u64) -> bool {
    may_go(entry.data, protect_local) && entry.data.last_access <= cutoff
}

/// An entry after the payloads up to a time went.
pub open spec fn unloaded(
    entry: ImmutableStoreEntry,
    protect_local: bool,
    cutoff: u64,
) -> ImmutableStoreEntry {
    if loses(entry, protect_local, cutoff) {
        entry.with_data(ImmutableData { pack_file: 0, pack_offset: 0, ..entry.data })
    } else {
        entry
    }
}

/// The place of a payload as one number.
fn place(data: &ImmutableData) -> (r: u64)
    ensures
        r == place_of(*data),
{
    data.pack_file as u64 * 0x1_0000_0000 + data.pack_offset as u64
}

/// Payloads are counted up to the number of entries, and their bytes up to the most that so many
/// can have.
pub proof fn lemma_payloads_bound(s: Seq<ImmutableStoreEntry>)
    ensures
        0 <= payloads(s).0 <= s.len(),
        0 <= payloads(s).1 <= s.len() * 0xffff_ffff,
    decreases s.len(),
{
    if s.len() > 0 {
        lemma_payloads_bound(s.drop_last());
    }
}

/// One more entry occupies one more place.
proof fn lemma_occupied_push(s: Seq<ImmutableStoreEntry>, e: ImmutableStoreEntry, place: u64)
    ensures
        occupied(s.push(e), place) == (occupied(s, place) || (e.data.pack_file != 0 && place_of(
            e.data,
        ) == place)),
{
    let longer = s.push(e);
    if occupied(s, place) {
        let i = choose|i: int|
            0 <= i < s.len() && (#[trigger] s[i]).data.pack_file != 0 && place_of(s[i].data)
                == place;
        assert(longer[i] == s[i]);
    }
    if e.data.pack_file != 0 && place_of(e.data) == place {
        assert(longer[s.len() as int] == e);
    }
}

impl ImmutableStoreBucket {
    /// How many payloads the entries have, and of how many bytes.
    pub fn stored_payloads(&self) -> (r: (u64, u64))
        requires
            self.entry@.len() <= u32::MAX,
        ensures
            (r.0 as int, r.1 as int) == payloads(self.entry@),
    {
        broadcast use vstd::std_specs::hash::group_hash_axioms;

        let mut places: HashSet<u64> = HashSet::new();
        let mut count: u64 = 0;
        let mut size: u64 = 0;
        let mut i: usize = 0;
        let n: usize = self.entry.len();
        while i < n
            invariant
                i <= n == self.entry@.len(),
                n <= u32::MAX,
                (count as int, size as int) == payloads(self.entry@.take(i as int)),
                forall|p: u64| #[trigger]
                    places@.contains(p) == occupied(self.entry@.take(i as int), p),
            decreases n - i,
        {
            broadcast use vstd::std_specs::hash::group_hash_axioms;

            let entry = self.entry[i];
            proof {
                let s = self.entry@.take(i as int);
                let next = self.entry@.take(i + 1);
                assert(next =~= s.push(entry));
                assert(next.drop_last() =~= s);
                lemma_payloads_bound(s);
                assert forall|p: u64| #[trigger] occupied(next, p) == (occupied(s, p) || (
                entry.data.pack_file != 0 && place_of(entry.data) == p)) by {
                    lemma_occupied_push(s, entry, p);
                }
            }
            if entry.data.pack_file != 0 {
                let p: u64 = place(&entry.data);
                if places.insert(p) {
                    count = count + 1;
                    size = size + entry.data.size_payload as u64;
                }
            }
            i = i + 1;
        }
        assert(self.entry@.take(n as int) =~= self.entry@);
        (count, size)
    }

    /// The payloads that may go.
    fn eviction_candidates(&self, protect_local: bool) -> (r: Vec<Candidate>)
        ensures
            r@ == candidates(self.entry@, protect_local),
            r@.len() <= self.entry@.len(),
    {
        broadcast use vstd::std_specs::hash::group_hash_axioms;

        let mut found: Vec<Candidate> = Vec::new();
        let mut slots: HashMap<u64, usize> = HashMap::new();
        let mut i: usize = 0;
        let n: usize = self.entry.len();
        while i < n
            invariant
                i <= n == self.entry@.len(),
                found@ == candidates(self.entry@.take(i as int), protect_local),
                found@.len() <= i,
                forall|p: u64| #[trigger] slots@.contains_key(p) ==> 0 <= slots@[p] < found@.len()
                    && found@[slots@[p] as int].place == p,
                forall|k: int|
                    0 <= k < found@.len() ==> slots@.contains_key((#[trigger] found@[k]).place)
                        && slots@[found@[k].place] == k,
            decreases n - i,
        {
            broadcast use vstd::std_specs::hash::group_hash_axioms;

            let data = self.entry[i].data;
            let ghost c = found@;
            proof {
                let next = self.entry@.take(i + 1);
                assert(next.drop_last() =~= self.entry@.take(i as int));
                assert(next.last().data == data);
            }
            if data.pack_file != 0 && (!protect_local || data.flags & PAYLOAD_STORED_DURABLE != 0) {
                let p: u64 = place(&data);
                match slots.get(&p) {
                    Some(at) => {
                        let at: usize = *at;
                        proof {
                            assert(c[at as int].place == p);
                            let w = candidate_at(c, p);
                            assert(c[w].place == p);
                            assert(w == at);
                        }
                        let mut seen = found[at];
                        if seen.access < data.last_access {
                            seen.access = data.last_access;
                        }
                        found.set(at, seen);
                        proof {
                            assert forall|k: int| 0 <= k < found@.len() implies
                                slots@.contains_key((#[trigger] found@[k]).place)
                                && slots@[found@[k].place] == k by {
                                assert(found@[k].place == c[k].place);
                            }
                        }
                    },
                    None => {
                        proof {
                            if has_candidate(c, p) {
                                let w = candidate_at(c, p);
                                assert(slots@.contains_key(c[w].place));
                            }
                        }
                        slots.insert(p, found.len());
                        found.push(
                            Candidate {
                                place: p,
                                size: data.size_payload,
                                access: data.last_access,
                            },
                        );
                        proof {
                            assert forall|k: int| 0 <= k < found@.len() implies
                                slots@.contains_key((#[trigger] found@[k]).place)
                                && slots@[found@[k].place] == k by {
                                if k < c.len() {
                                    assert(found@[k] == c[k]);
                                }
                            }
                        }
                    },
                }
            }
            i = i + 1;
        }
        assert(self.entry@.take(n as int) =~= self.entry@);
        found
    }

    /// The time up to which payloads go, for a bucket that stores some bytes and is to store fewer
    /// than `target`.
    pub fn eviction_cutoff(&self, protect_local: bool, stored: u64, target: u64) -> (r: u64)
        requires
            self.entry@.len() <= u32::MAX,
        ensures
            r == bucket_cutoff(self.entry@, protect_local, stored as int, target as int),
    {
        let found = self.eviction_candidates(protect_local);
        let mut ranks: Vec<u128> = Vec::new();
        let mut i: usize = 0;
        let n: usize = found.len();
        let ghost all = found@.map_values(|x: Candidate| rank(x));
        while i < n
            invariant
                i <= n == found@.len(),
                all == found@.map_values(|x: Candidate| rank(x)),
                ranks@ =~= all.take(i as int),
            decreases n - i,
        {
            ranks.push(found[i].size as u128 * 0x1_0000_0000_0000_0000 + found[i].access as u128);
            i = i + 1;
        }
        assert(ranks@ =~= all);
        let order = sort(&ranks);
        let mut gone: u64 = 0;
        i = 0;
        proof {
            assert forall|k: int| 0 <= k < order@.len() implies (#[trigger] order@[k]) as int
                / 0x1_0000_0000_0000_0000 <= 0xffff_ffff by {
                crate::local::evict::lemma_ascending_elements(all, k);
                let j = choose|j: int| 0 <= j < all.len() && all[j] == order@[k];
                assert(all[j] == rank(found@[j]));
            }
        }
        while i < n
            invariant
                i <= n == order@.len(),
                n <= u32::MAX,
                order@ == ranking(candidates(self.entry@, protect_local)),
                gone <= i * 0xffff_ffff,
                forall|k: int|
                    0 <= k < order@.len() ==> (#[trigger] order@[k]) as int
                        / 0x1_0000_0000_0000_0000 <= 0xffff_ffff,
                size_cutoff(order@, 0, 0, stored as int, target as int) == size_cutoff(
                    order@,
                    i as int,
                    gone as int,
                    stored as int,
                    target as int,
                ),
            decreases n - i,
        {
            let next: u128 = order[i];
            assert(order@[i as int] as int / 0x1_0000_0000_0000_0000 <= 0xffff_ffff);
            gone = gone + (next / 0x1_0000_0000_0000_0000) as u64;
            let left: u64 = if stored > gone {
                stored - gone
            } else {
                0
            };
            if left < target {
                return (next % 0x1_0000_0000_0000_0000) as u64;
            }
            i = i + 1;
        }
        u64::MAX
    }

    /// Takes the payloads up to a time from their entries. Returns how many went, and of how many
    /// bytes.
    pub fn unload_payloads(&mut self, protect_local: bool, cutoff: u64) -> (r: (u64, u64))
        requires
            old(self).wf(),
        ensures
            final(self).wf(),
            final(self).slots() == old(self).slots().map_values(
                |e: ImmutableStoreEntry| unloaded(e, protect_local, cutoff),
            ),
            (r.0 as int, r.1 as int) == payloads(
                old(self).slots().filter(|e: ImmutableStoreEntry| loses(e, protect_local, cutoff)),
            ),
            final(self).deserialized == old(self).deserialized,
            final(self).upgrade_packfile == old(self).upgrade_packfile,
            final(self).entry@.len() == old(self).entry@.len(),
    {
        broadcast use vstd::std_specs::hash::group_hash_axioms;

        let ghost s = self.slots();
        let ghost goal = s.map_values(|e: ImmutableStoreEntry| unloaded(e, protect_local, cutoff));
        let ghost pred = |e: ImmutableStoreEntry| loses(e, protect_local, cutoff);
        let mut places: HashSet<u64> = HashSet::new();
        let mut count: u64 = 0;
        let mut size: u64 = 0;
        let n: usize = self.sorted_index.len();
        let mut slot: usize = 0;
        proof {
            reveal(Seq::filter);
            assert(s.take(0).filter(pred) =~= Seq::empty());
        }
        while slot < n
            invariant
                self.wf(),
                n == s.len() == goal.len(),
                n <= u32::MAX,
                slot <= n,
                self.slots().len() == n,
                self.entry@.len() == n,
                goal == s.map_values(|e: ImmutableStoreEntry| unloaded(e, protect_local, cutoff)),
                pred == (|e: ImmutableStoreEntry| loses(e, protect_local, cutoff)),
                forall|i: int| 0 <= i < slot ==> #[trigger] self.slots()[i] == goal[i],
                forall|i: int| slot <= i < n ==> #[trigger] self.slots()[i] == s[i],
                (count as int, size as int) == payloads(s.take(slot as int).filter(pred)),
                forall|p: u64| #[trigger]
                    places@.contains(p) == occupied(s.take(slot as int).filter(pred), p),
                self.deserialized == old(self).deserialized,
                self.upgrade_packfile == old(self).upgrade_packfile,
            decreases n - slot,
        {
            broadcast use vstd::std_specs::hash::group_hash_axioms;

            let entry = self.at(slot);
            let ghost seen = s.take(slot as int).filter(pred);
            let ghost next = s.take(slot + 1).filter(pred);
            proof {
                reveal(Seq::filter);
                assert(s.take(slot + 1).drop_last() =~= s.take(slot as int));
                assert(s.take(slot + 1).last() == entry);
                s.take(slot as int).lemma_filter_len(pred);
                lemma_payloads_bound(seen);
                if pred(entry) {
                    assert(next == seen.push(entry));
                    assert(next.drop_last() =~= seen);
                    assert forall|p: u64| #[trigger] occupied(next, p) == (occupied(seen, p) || (
                    entry.data.pack_file != 0 && place_of(entry.data) == p)) by {
                        lemma_occupied_push(seen, entry, p);
                    }
                }
            }
            let protected = protect_local && entry.data.flags & PAYLOAD_STORED_DURABLE == 0;
            if entry.data.pack_file != 0 && !protected && entry.data.last_access <= cutoff {
                let p: u64 = place(&entry.data);
                let mut data = entry.data;
                data.pack_file = 0;
                data.pack_offset = 0;
                self.set_data(slot, data);
                if places.insert(p) {
                    count = count + 1;
                    size = size + entry.data.size_payload as u64;
                }
            }
            slot = slot + 1;
        }
        assert(self.slots() =~= goal);
        assert(s.take(n as int) =~= s);
        (count, size)
    }
}

/// An eviction by size never takes the payload of a protected entry: one that no durable store has
/// confirmed keeps its payload where local fragments are protected.
pub proof fn law_local_fragments_are_protected(entry: ImmutableStoreEntry, cutoff: u64)
    requires
        entry.data.flags & PAYLOAD_STORED_DURABLE == 0,
    ensures
        unloaded(entry, true, cutoff) == entry,
{
}

} // verus!
