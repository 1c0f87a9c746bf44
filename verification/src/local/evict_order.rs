//! Which payloads an eviction by size takes.
use vstd::prelude::*;

use crate::local::data::{ImmutableData, ImmutableStoreEntry};
use crate::local::evict_sized::{
    bucket_cutoff, candidate_at, candidates, has_candidate, loses, may_go, payloads, place_of, rank,
    ranking, size_cutoff, unloaded, Candidate,
};
use crate::sorting::by_value;
use crate::types::PAYLOAD_STORED_DURABLE;

verus! {

/// Whether a candidate goes before one of some size and access: the smaller go first, and of one
/// size those that were accessed longer ago.
pub open spec fn goes_before(c: Candidate, size: u32, access: u64) -> bool {
    c.size < size || (c.size == size && c.access < access)
}

/// How many bytes go before a candidate of some size and access.
pub open spec fn freed_before(c: Seq<Candidate>, size: u32, access: u64) -> int
    decreases c.len(),
{
    if c.len() == 0 {
        0
    } else {
        freed_before(c.drop_last(), size, access) + if goes_before(c.last(), size, access) {
            c.last().size as int
        } else {
            0
        }
    }
}

/// How many bytes go with all candidates that do not come after one of some size and access.
pub open spec fn freed_with(c: Seq<Candidate>, size: u32, access: u64) -> int
    decreases c.len(),
{
    if c.len() == 0 {
        0
    } else {
        freed_with(c.drop_last(), size, access) + if goes_before(c.last(), size, access) || (
        c.last().size == size && c.last().access == access) {
            c.last().size as int
        } else {
            0
        }
    }
}

/// How many bytes go with all candidates.
pub open spec fn freed_in_all(c: Seq<Candidate>) -> int
    decreases c.len(),
{
    if c.len() == 0 {
        0
    } else {
        freed_in_all(c.drop_last()) + c.last().size
    }
}

/// Whether a bucket that stores some bytes is below its target once some went.
pub open spec fn falls_below(stored: int, gone: int, target: int) -> bool {
    0 < target && stored - gone < target
}

/// The bytes of ranks below a bound.
spec fn below_bound(r: Seq<u128>, bound: int) -> int
    decreases r.len(),
{
    if r.len() == 0 {
        0
    } else {
        below_bound(r.drop_last(), bound) + if r.last() < bound {
            r.last() as int / 0x1_0000_0000_0000_0000
        } else {
            0
        }
    }
}

/// The bytes of ranks.
spec fn rank_bytes(r: Seq<u128>) -> int
    decreases r.len(),
{
    if r.len() == 0 {
        0
    } else {
        rank_bytes(r.drop_last()) + r.last() as int / 0x1_0000_0000_0000_0000
    }
}

/// A rank that is taken out takes its bytes along.
proof fn lemma_without_one(r: Seq<u128>, bound: int, k: int)
    requires
        0 <= k < r.len(),
    ensures
        below_bound(r, bound) == below_bound(r.remove(k), bound) + if r[k] < bound {
            r[k] as int / 0x1_0000_0000_0000_0000
        } else {
            0
        },
    decreases r.len(),
{
    if k == r.len() - 1 {
        assert(r.remove(k) =~= r.drop_last());
    } else {
        lemma_without_one(r.drop_last(), bound, k);
        assert(r.remove(k).drop_last() =~= r.drop_last().remove(k));
        assert(r.remove(k).last() == r.last());
    }
}

/// The order of ranks does not matter to their bytes.
proof fn lemma_any_order(a: Seq<u128>, b: Seq<u128>, bound: int)
    requires
        a.to_multiset() == b.to_multiset(),
    ensures
        a.len() == b.len(),
        below_bound(a, bound) == below_bound(b, bound),
    decreases b.len(),
{
    broadcast use vstd::seq_lib::group_to_multiset_ensures;

    assert(a.to_multiset().len() == a.len());
    assert(b.to_multiset().len() == b.len());
    if b.len() > 0 {
        let v = b.last();
        assert(b[b.len() - 1] == v);
        assert(b.contains(v));
        assert(a.to_multiset().count(v) > 0);
        assert(a.contains(v));
        let k = choose|k: int| 0 <= k < a.len() && a[k] == v;
        lemma_without_one(a, bound, k);
        assert(b.remove(b.len() - 1) =~= b.drop_last());
        assert(a.remove(k).to_multiset() =~= a.to_multiset().remove(v));
        assert(b.drop_last().to_multiset() =~= b.to_multiset().remove(v));
        lemma_any_order(a.remove(k), b.drop_last(), bound);
    }
}

/// The bytes of ranks in order, up to one of them.
proof fn lemma_prefix_bytes(o: Seq<u128>, k: int, bound: int)
    requires
        0 <= k <= o.len(),
        forall|i: int| k <= i < o.len() ==> #[trigger] o[i] >= bound,
    ensures
        below_bound(o, bound) <= rank_bytes(o.take(k)),
    decreases o.len(),
{
    if o.len() > 0 {
        if k == o.len() {
            lemma_bounded(o, bound);
            assert(o.take(k) =~= o);
        } else {
            assert(o.drop_last().take(k) =~= o.take(k));
            lemma_prefix_bytes(o.drop_last(), k, bound);
        }
    } else {
        assert(o.take(k) =~= o);
    }
}

/// Ranks below a bound have no more bytes than all.
proof fn lemma_bounded(o: Seq<u128>, bound: int)
    ensures
        0 <= below_bound(o, bound) <= rank_bytes(o),
    decreases o.len(),
{
    if o.len() > 0 {
        lemma_bounded(o.drop_last(), bound);
    }
}

/// Ranks below a bound have all bytes of a part that is below it.
proof fn lemma_part_below(o: Seq<u128>, k: int, bound: int)
    requires
        0 <= k <= o.len(),
        forall|i: int| 0 <= i < k ==> #[trigger] o[i] < bound,
    ensures
        below_bound(o, bound) >= rank_bytes(o.take(k)),
    decreases o.len(),
{
    if k == 0 {
        assert(o.take(k) =~= Seq::empty());
        lemma_bounded(o, bound);
    } else if k == o.len() {
        assert(o.take(k) =~= o);
        assert(o.drop_last().take(k - 1) =~= o.drop_last());
        lemma_part_below(o.drop_last(), k - 1, bound);
    } else {
        assert(o.drop_last().take(k) =~= o.take(k));
        lemma_part_below(o.drop_last(), k, bound);
    }
}

/// Where the search for a cutoff ends.
proof fn lemma_cutoff(order: Seq<u128>, from: int, gone: int, stored: int, target: int)
    requires
        0 <= stored,
        0 <= from <= order.len(),
        gone == rank_bytes(order.take(from)),
        from == 0 || !falls_below(stored, gone, target),
    ensures
        ({
            let cutoff = size_cutoff(order, from, gone, stored, target);
            ||| exists|k: int|
                from <= k < order.len() && cutoff == #[trigger] order[k] as int
                    % 0x1_0000_0000_0000_0000 && falls_below(
                    stored,
                    rank_bytes(order.take(k + 1)),
                    target,
                ) && (k == 0 || !falls_below(stored, rank_bytes(order.take(k)), target))
            ||| cutoff == u64::MAX && (order.len() == 0 || !falls_below(
                stored,
                rank_bytes(order),
                target,
            ))
        }),
    decreases order.len() - from,
{
    if from >= order.len() {
        assert(order.take(from) =~= order);
    } else {
        let next = order.take(from + 1);
        assert(next.drop_last() =~= order.take(from));
        assert(next.last() == order[from]);
        let now = gone + order[from] as int / 0x1_0000_0000_0000_0000;
        assert(rank_bytes(next) == now);
        if falls_below(stored, now, target) {
            assert(order[from] as int % 0x1_0000_0000_0000_0000 <= u64::MAX);
        } else {
            lemma_cutoff(order, from + 1, now, stored, target);
        }
    }
}

/// Ranks order candidates by size and access.
proof fn lemma_ranks(c: Seq<Candidate>, size: u32, access: u64)
    ensures
        ({
            let r = c.map_values(|x: Candidate| rank(x));
            let b = size as int * 0x1_0000_0000_0000_0000 + access as int;
            &&& below_bound(r, b) == freed_before(c, size, access)
            &&& below_bound(r, b + 1) == freed_with(c, size, access)
            &&& rank_bytes(r) == freed_in_all(c)
        }),
    decreases c.len(),
{
    let r = c.map_values(|x: Candidate| rank(x));
    if c.len() > 0 {
        lemma_ranks(c.drop_last(), size, access);
        assert(r.drop_last() =~= c.drop_last().map_values(|x: Candidate| rank(x)));
        let x = c.last();
        assert(rank(x) == x.size as int * 0x1_0000_0000_0000_0000 + x.access as int);
        assert(r.last() == rank(x));
    }
}

/// Among the payloads that may go the smaller go first, and of one size those that were accessed
/// longer ago. The payloads of a bucket go up to the access of the first in that order with which the
/// bucket falls below its target: it is below with all that do not come after that one, and unless
/// that is the first of all, it is not below with those alone that come before. Where the bucket
/// does not fall below its target with all of them, there is no limit.
pub proof fn law_cutoff_is_the_first_that_suffices(
    entry: Seq<ImmutableStoreEntry>,
    protect_local: bool,
    stored: int,
    target: int,
)
    requires
        0 <= stored,
    ensures
        ({
            let c = candidates(entry, protect_local);
            let cutoff = bucket_cutoff(entry, protect_local, stored, target);
            if c.len() > 0 && falls_below(stored, freed_in_all(c), target) {
                exists|i: int|
                    0 <= i < c.len() && (#[trigger] c[i]).access == cutoff && falls_below(
                        stored,
                        freed_with(c, c[i].size, cutoff),
                        target,
                    ) && ((exists|j: int|
                        0 <= j < c.len() && goes_before(#[trigger] c[j], c[i].size, cutoff))
                        ==> !falls_below(stored, freed_before(c, c[i].size, cutoff), target))
            } else {
                cutoff == u64::MAX
            }
        }),
{
    broadcast use vstd::seq_lib::group_to_multiset_ensures;

    let c = candidates(entry, protect_local);
    let cutoff = bucket_cutoff(entry, protect_local, stored, target);
    let r = c.map_values(|x: Candidate| rank(x));
    let o = ranking(c);
    assert(vstd::relations::total_ordering(by_value()));
    r.lemma_sort_by_ensures(by_value());
    assert(o.to_multiset() == r.to_multiset());
    assert(o.take(0) =~= Seq::empty());
    lemma_cutoff(o, 0, 0, stored, target);
    lemma_all_bytes(o, r);
    lemma_ranks(c, 0, 0);
    if c.len() > 0 && falls_below(stored, freed_in_all(c), target) {
        let k = choose|k: int|
            0 <= k < o.len() && cutoff == #[trigger] o[k] as int % 0x1_0000_0000_0000_0000
                && falls_below(stored, rank_bytes(o.take(k + 1)), target) && (k == 0
                || !falls_below(stored, rank_bytes(o.take(k)), target));
        assert(o.contains(o[k]));
        assert(r.to_multiset().count(o[k]) > 0);
        assert(r.contains(o[k]));
        let i = choose|i: int| 0 <= i < r.len() && r[i] == o[k];
        let size = c[i].size;
        let b = o[k] as int;
        assert(b == size as int * 0x1_0000_0000_0000_0000 + c[i].access as int);
        assert(c[i].access == cutoff);
        lemma_ranks(c, size, cutoff);
        lemma_any_order(o, r, b);
        lemma_any_order(o, r, b + 1);
        assert forall|m: int| k <= m < o.len() implies #[trigger] o[m] >= b by {
            assert(by_value()(o[k], o[m]));
        }
        assert forall|m: int| 0 <= m < k + 1 implies #[trigger] o[m] < b + 1 by {
            assert(by_value()(o[m], o[k]));
        }
        lemma_prefix_bytes(o, k, b);
        lemma_part_below(o, k + 1, b + 1);
        if exists|j: int| 0 <= j < c.len() && goes_before(#[trigger] c[j], size, cutoff) {
            let j = choose|j: int| 0 <= j < c.len() && goes_before(#[trigger] c[j], size, cutoff);
            assert(r[j] == rank(c[j]));
            assert(r[j] < b);
            assert(r.contains(r[j]));
            assert(o.to_multiset().count(r[j]) > 0);
            assert(o.contains(r[j]));
            let m = choose|m: int| 0 <= m < o.len() && o[m] == r[j];
            assert(m < k);
        }
    } else {
        assert(rank_bytes(o) == freed_in_all(c));
        assert forall|k: int| 0 <= k < o.len() implies !falls_below(
            stored,
            rank_bytes(#[trigger] o.take(k + 1)),
            target,
        ) by {
            lemma_part_of_all(o, k + 1);
        }
    }
}

/// Whether the payload of an entry may be evicted: it has one, and where local fragments are
/// protected a durable store has it too.
pub open spec fn evictable(data: ImmutableData, protect_local: bool) -> bool {
    data.pack_file != 0 && (!protect_local || data.flags & PAYLOAD_STORED_DURABLE != 0)
}

/// Whether two entries share a payload.
pub open spec fn shares_place(a: ImmutableData, b: ImmutableData) -> bool {
    a.pack_file == b.pack_file && a.pack_offset == b.pack_offset
}

/// Whether a candidate stands for the payload of an entry: where it lies, and when it was last
/// accessed.
pub open spec fn stands_for(c: Candidate, data: ImmutableData) -> bool {
    c.place == data.pack_file * 0x1_0000_0000 + data.pack_offset
}

/// Whether a candidate stands for the payload of an entry, and was accessed no earlier.
pub open spec fn is_candidate(c: Seq<Candidate>, data: ImmutableData) -> bool {
    exists|i: int|
        0 <= i < c.len() && stands_for(#[trigger] c[i], data) && data.last_access <= c[i].access
}

/// Whether a candidate was last accessed when one of its entries was.
pub open spec fn accessed_as(
    s: Seq<ImmutableStoreEntry>,
    protect_local: bool,
    c: Candidate,
) -> bool {
    exists|e: int|
        0 <= e < s.len() && evictable((#[trigger] s[e]).data, protect_local) && stands_for(
            c,
            s[e].data,
        ) && s[e].data.last_access == c.access
}

/// Whether a candidate is as large as one of its entries says.
pub open spec fn sized_as(s: Seq<ImmutableStoreEntry>, protect_local: bool, c: Candidate) -> bool {
    exists|e: int|
        0 <= e < s.len() && evictable((#[trigger] s[e]).data, protect_local) && stands_for(
            c,
            s[e].data,
        ) && s[e].data.size_payload == c.size
}

/// Every payload that may be evicted is a candidate, and is so once, however many entries share it. A
/// candidate was last accessed when the last of its entries was, and is as large as one of them says.
pub proof fn law_candidates_are_the_evictable_payloads(
    s: Seq<ImmutableStoreEntry>,
    protect_local: bool,
)
    ensures
        ({
            let c = candidates(s, protect_local);
            &&& forall|i: int, j: int|
                0 <= i < j < c.len() ==> (#[trigger] c[i]).place != (#[trigger] c[j]).place
            &&& forall|e: int|
                0 <= e < s.len() && evictable(s[e].data, protect_local) ==> #[trigger] is_candidate(
                    c,
                    s[e].data,
                )
            &&& forall|i: int|
                0 <= i < c.len() ==> #[trigger] accessed_as(s, protect_local, c[i])
            &&& forall|i: int| 0 <= i < c.len() ==> #[trigger] sized_as(s, protect_local, c[i])
        }),
    decreases s.len(),
{
    if s.len() > 0 {
        let head = s.drop_last();
        law_candidates_are_the_evictable_payloads(head, protect_local);
        let before = candidates(head, protect_local);
        let c = candidates(s, protect_local);
        let data = s.last().data;
        let n = s.len() - 1;
        assert(s[n] == s.last());
        let k = if has_candidate(before, place_of(data)) {
            candidate_at(before, place_of(data))
        } else {
            before.len() as int
        };
        let moved = may_go(data, protect_local);
        assert(moved == evictable(data, protect_local));
        assert forall|e: int| 0 <= e < s.len() && evictable(
            s[e].data,
            protect_local,
        ) implies #[trigger] is_candidate(c, s[e].data) by {
            if e < n {
                assert(head[e] == s[e]);
                assert(is_candidate(before, head[e].data));
                lemma_still_candidate(before, c, head[e].data);
            } else {
                assert(stands_for(c[k], s[e].data));
            }
        }
        assert forall|i: int| 0 <= i < c.len() implies #[trigger] accessed_as(
            s,
            protect_local,
            c[i],
        ) by {
            if i < before.len() {
                assert(accessed_as(head, protect_local, before[i]));
                assert(sized_as(head, protect_local, before[i]));
                lemma_more_entries(s, protect_local, before[i], c[i]);
            }
            if moved && i == k {
                assert(stands_for(c[i], s[n].data));
            }
        }
        assert forall|i: int| 0 <= i < c.len() implies #[trigger] sized_as(
            s,
            protect_local,
            c[i],
        ) by {
            if i < before.len() {
                assert(accessed_as(head, protect_local, before[i]));
                assert(sized_as(head, protect_local, before[i]));
                lemma_more_entries(s, protect_local, before[i], c[i]);
            } else {
                assert(stands_for(c[i], s[n].data));
            }
        }
    }
}

/// A payload that is a candidate stays one when candidates are added or accessed later.
proof fn lemma_still_candidate(before: Seq<Candidate>, after: Seq<Candidate>, data: ImmutableData)
    requires
        before.len() <= after.len(),
        forall|i: int|
            0 <= i < before.len() ==> (#[trigger] after[i]).place == before[i].place
                && after[i].access >= before[i].access,
        is_candidate(before, data),
    ensures
        is_candidate(after, data),
{
    let i = choose|i: int|
        0 <= i < before.len() && stands_for(#[trigger] before[i], data) && data.last_access
            <= before[i].access;
    assert(stands_for(after[i], data));
}

/// A candidate stands for its entries when there is one more.
proof fn lemma_more_entries(
    s: Seq<ImmutableStoreEntry>,
    protect_local: bool,
    before: Candidate,
    after: Candidate,
)
    requires
        s.len() > 0,
        accessed_as(s.drop_last(), protect_local, before),
        sized_as(s.drop_last(), protect_local, before),
        after.place == before.place,
        after.size == before.size,
    ensures
        after.access == before.access ==> accessed_as(s, protect_local, after),
        sized_as(s, protect_local, after),
{
    let head = s.drop_last();
    let e = choose|e: int|
        0 <= e < head.len() && evictable((#[trigger] head[e]).data, protect_local) && stands_for(
            before,
            head[e].data,
        ) && head[e].data.last_access == before.access;
    let f = choose|e: int|
        0 <= e < head.len() && evictable((#[trigger] head[e]).data, protect_local) && stands_for(
            before,
            head[e].data,
        ) && head[e].data.size_payload == before.size;
    assert(head[e] == s[e] && head[f] == s[f]);
}

/// An eviction takes the payload of an entry exactly if the payload may be evicted and was last
/// accessed no later than the limit. It changes nothing else of the entry.
pub proof fn law_eviction_takes_payloads_up_to_the_limit(
    entry: ImmutableStoreEntry,
    protect_local: bool,
    cutoff: u64,
)
    ensures
        ({
            let after = unloaded(entry, protect_local, cutoff);
            let goes = evictable(entry.data, protect_local) && entry.data.last_access <= cutoff;
            &&& loses(entry, protect_local, cutoff) <==> goes
            &&& goes ==> after.data.pack_file == 0 && after.data.pack_offset == 0
            &&& !goes ==> after == entry
            &&& after.address == entry.address && after.partition == entry.partition
            &&& after.data == (ImmutableData {
                pack_file: after.data.pack_file,
                pack_offset: after.data.pack_offset,
                ..entry.data
            })
        }),
{
}

/// The places of the payloads of entries.
pub open spec fn places(s: Seq<ImmutableStoreEntry>) -> Set<(u32, u32)>
    decreases s.len(),
{
    if s.len() == 0 {
        Set::empty()
    } else if s.last().data.pack_file == 0 {
        places(s.drop_last())
    } else {
        places(s.drop_last()).insert((s.last().data.pack_file, s.last().data.pack_offset))
    }
}

/// As many payloads are counted as there are places of payloads, each once.
pub proof fn law_shared_payloads_count_once(s: Seq<ImmutableStoreEntry>)
    ensures
        places(s).finite(),
        payloads(s).0 == places(s).len(),
        forall|p: u32, o: u32| #[trigger]
            places(s).contains((p, o)) <==> exists|i: int|
                0 <= i < s.len() && (#[trigger] s[i]).data.pack_file == p && p != 0
                    && s[i].data.pack_offset == o,
    decreases s.len(),
{
    if s.len() > 0 {
        let head = s.drop_last();
        let n = s.len() - 1;
        let data = s.last().data;
        law_shared_payloads_count_once(head);
        assert(forall|e: int| 0 <= e < n ==> #[trigger] head[e] == s[e]);
        assert(s[n] == s.last());
        assert forall|p: u32, o: u32| #[trigger]
            places(s).contains((p, o)) <==> exists|i: int|
                0 <= i < s.len() && (#[trigger] s[i]).data.pack_file == p && p != 0
                    && s[i].data.pack_offset == o by {
            if places(head).contains((p, o)) {
                let i = choose|i: int|
                    0 <= i < head.len() && (#[trigger] head[i]).data.pack_file == p && p != 0
                        && head[i].data.pack_offset == o;
                assert(s[i].data.pack_file == p);
            }
            if exists|i: int|
                0 <= i < s.len() && (#[trigger] s[i]).data.pack_file == p && p != 0
                    && s[i].data.pack_offset == o {
                let i = choose|i: int|
                    0 <= i < s.len() && (#[trigger] s[i]).data.pack_file == p && p != 0
                        && s[i].data.pack_offset == o;
                if i < n {
                    assert(head[i].data.pack_file == p);
                    assert(places(head).contains((p, o)));
                }
            }
        }
        if data.pack_file != 0 {
            let (p, o) = (data.pack_file, data.pack_offset);
            if crate::local::evict_sized::occupied(head, place_of(data)) {
                let i = choose|i: int|
                    0 <= i < head.len() && (#[trigger] head[i]).data.pack_file != 0 && place_of(
                        head[i].data,
                    ) == place_of(data);
                assert(head[i].data.pack_file == p && head[i].data.pack_offset == o);
                assert(places(head).contains((p, o)));
            } else if places(head).contains((p, o)) {
                let i = choose|i: int|
                    0 <= i < head.len() && (#[trigger] head[i]).data.pack_file == p && p != 0
                        && head[i].data.pack_offset == o;
                assert(place_of(head[i].data) == place_of(data));
            }
        }
    }
}

/// Where every payload is used by one entry, the bytes are those that the entries record: none is
/// counted that is not there, and none is left out. Entries without a payload do not count.
pub proof fn law_stored_bytes_add_up(s: Seq<ImmutableStoreEntry>, t: Seq<ImmutableStoreEntry>)
    requires
        forall|i: int, j: int|
            0 <= i < s.len() && 0 <= j < t.len() && (#[trigger] s[i]).data.pack_file != 0 && (
            #[trigger] t[j]).data.pack_file != 0 ==> !shares_place(s[i].data, t[j].data),
    ensures
        payloads(s + t).0 == payloads(s).0 + payloads(t).0,
        payloads(s + t).1 == payloads(s).1 + payloads(t).1,
        s.len() == 1 ==> payloads(s).1 == if s[0].data.pack_file != 0 {
            s[0].data.size_payload as int
        } else {
            0
        },
    decreases t.len(),
{
    if s.len() == 1 {
        assert(s.drop_last() =~= Seq::empty());
        reveal_with_fuel(payloads, 2);
    }
    if t.len() == 0 {
        assert(s + t =~= s);
    } else {
        let head = t.drop_last();
        let n = t.len() - 1;
        assert(t[n] == t.last());
        assert((s + t).drop_last() =~= s + head);
        assert((s + t).last() == t.last());
        assert forall|i: int, j: int|
            0 <= i < s.len() && 0 <= j < head.len() && (#[trigger] s[i]).data.pack_file != 0 && (
            #[trigger] head[j]).data.pack_file != 0 implies !shares_place(s[i].data, head[j].data) by {
            assert(t[j] == head[j]);
        }
        law_stored_bytes_add_up(s, head);
        let place = place_of(t.last().data);
        if t.last().data.pack_file != 0 {
            let whole = s + head;
            if crate::local::evict_sized::occupied(whole, place) {
                let i = choose|i: int|
                    0 <= i < whole.len() && (#[trigger] whole[i]).data.pack_file != 0 && place_of(
                        whole[i].data,
                    ) == place;
                assert(shares_place(whole[i].data, t.last().data));
                if i < s.len() {
                    assert(whole[i] == s[i]);
                } else {
                    assert(head[i - s.len()] == whole[i]);
                }
            }
            if crate::local::evict_sized::occupied(head, place) {
                let i = choose|i: int|
                    0 <= i < head.len() && (#[trigger] head[i]).data.pack_file != 0 && place_of(
                        head[i].data,
                    ) == place;
                assert(whole[i + s.len()] == head[i]);
            }
        }
    }
}

/// The order of ranks does not matter to the bytes of all.
proof fn lemma_all_bytes(a: Seq<u128>, b: Seq<u128>)
    requires
        a.to_multiset() == b.to_multiset(),
    ensures
        a.len() == b.len(),
        rank_bytes(a) == rank_bytes(b),
{
    let bound = 0x1_0000_0000_0000_0000_0000_0000_0000_0000int;
    lemma_any_order(a, b, bound);
    assert(a.take(a.len() as int) =~= a);
    assert(b.take(b.len() as int) =~= b);
    lemma_part_below(a, a.len() as int, bound);
    lemma_part_below(b, b.len() as int, bound);
    lemma_bounded(a, bound);
    lemma_bounded(b, bound);
}

/// A part has no more bytes than all.
proof fn lemma_part_of_all(o: Seq<u128>, k: int)
    requires
        0 <= k <= o.len(),
    ensures
        rank_bytes(o.take(k)) <= rank_bytes(o),
    decreases o.len(),
{
    if k == o.len() {
        assert(o.take(k) =~= o);
    } else {
        assert(o.drop_last().take(k) =~= o.take(k));
        lemma_part_of_all(o.drop_last(), k);
    }
}

/// The bytes of the candidates that were accessed before a time.
pub open spec fn accessed_before(c: Seq<Candidate>, time: u64) -> int
    decreases c.len(),
{
    if c.len() == 0 {
        0
    } else {
        accessed_before(c.drop_last(), time) + if c.last().access < time {
            c.last().size as int
        } else {
            0
        }
    }
}

/// The bytes of the candidates that were accessed no later than a time.
pub open spec fn accessed_until(c: Seq<Candidate>, time: u64) -> int
    decreases c.len(),
{
    if c.len() == 0 {
        0
    } else {
        accessed_until(c.drop_last(), time) + if c.last().access <= time {
            c.last().size as int
        } else {
            0
        }
    }
}

/// Of payloads of one size those go that were accessed longest ago, and no more than it takes: the
/// bucket is below its target once all are gone that were accessed up to the limit, and, if any was
/// accessed before the limit, it is not with those alone.
pub proof fn law_oldest_payloads_of_one_size_go(
    entry: Seq<ImmutableStoreEntry>,
    protect_local: bool,
    stored: int,
    target: int,
    size: u32,
)
    requires
        0 <= stored,
        forall|i: int|
            0 <= i < entry.len() && evictable((#[trigger] entry[i]).data, protect_local)
                ==> entry[i].data.size_payload == size,
        candidates(entry, protect_local).len() > 0,
        falls_below(stored, freed_in_all(candidates(entry, protect_local)), target),
    ensures
        ({
            let c = candidates(entry, protect_local);
            let cutoff = bucket_cutoff(entry, protect_local, stored, target);
            &&& falls_below(stored, accessed_until(c, cutoff), target)
            &&& (exists|i: int| 0 <= i < c.len() && (#[trigger] c[i]).access < cutoff)
                ==> !falls_below(stored, accessed_before(c, cutoff), target)
            &&& exists|i: int| 0 <= i < c.len() && (#[trigger] c[i]).access == cutoff
        }),
{
    let c = candidates(entry, protect_local);
    let cutoff = bucket_cutoff(entry, protect_local, stored, target);
    law_cutoff_is_the_first_that_suffices(entry, protect_local, stored, target);
    lemma_candidates_of_one_size(entry, protect_local, size);
    lemma_one_size(c, size, cutoff);
    let i = choose|i: int|
        0 <= i < c.len() && (#[trigger] c[i]).access == cutoff && falls_below(
            stored,
            freed_with(c, c[i].size, cutoff),
            target,
        ) && ((exists|j: int| 0 <= j < c.len() && goes_before(#[trigger] c[j], c[i].size, cutoff))
            ==> !falls_below(stored, freed_before(c, c[i].size, cutoff), target));
    assert(c[i].size == size);
    if exists|j: int| 0 <= j < c.len() && (#[trigger] c[j]).access < cutoff {
        let j = choose|j: int| 0 <= j < c.len() && (#[trigger] c[j]).access < cutoff;
        assert(goes_before(c[j], c[i].size, cutoff));
    }
}

/// Candidates are as large as their entries say.
proof fn lemma_candidates_of_one_size(
    entry: Seq<ImmutableStoreEntry>,
    protect_local: bool,
    size: u32,
)
    requires
        forall|i: int|
            0 <= i < entry.len() && evictable((#[trigger] entry[i]).data, protect_local)
                ==> entry[i].data.size_payload == size,
    ensures
        forall|i: int|
            0 <= i < candidates(entry, protect_local).len() ==> (#[trigger] candidates(
                entry,
                protect_local,
            )[i]).size == size,
{
    law_candidates_are_the_evictable_payloads(entry, protect_local);
    let c = candidates(entry, protect_local);
    assert forall|i: int| 0 <= i < c.len() implies (#[trigger] c[i]).size == size by {
        assert(sized_as(entry, protect_local, c[i]));
    }
}

/// Of one size the access alone decides.
proof fn lemma_one_size(c: Seq<Candidate>, size: u32, time: u64)
    requires
        forall|i: int| 0 <= i < c.len() ==> (#[trigger] c[i]).size == size,
    ensures
        freed_before(c, size, time) == accessed_before(c, time),
        freed_with(c, size, time) == accessed_until(c, time),
    decreases c.len(),
{
    if c.len() > 0 {
        let head = c.drop_last();
        assert(c[c.len() - 1] == c.last());
        assert forall|i: int| 0 <= i < head.len() implies (#[trigger] head[i]).size == size by {
            assert(c[i] == head[i]);
        }
        lemma_one_size(head, size, time);
    }
}

} // verus!
