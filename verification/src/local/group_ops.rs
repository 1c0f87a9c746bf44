//! The operations of a group: each finds the bucket of the hash and works there.
use vstd::prelude::*;

use crate::error::{LocalImmutableStoreError, StoreError};
use crate::local::bucket::{found, law_lookup_finds_the_best_match};
use crate::local::copy::CopyRequest;
use crate::local::data::{ImmutableData, ImmutableStoreEntry};
use crate::local::find::{find_result, stamps};
use crate::local::group::{bucket_index_for, bucket_of, routed, ImmutableStoreGroup};
use crate::local::obliterate::{obliterate_result, ObliterateOutcome, StoreObliterateStats};
use crate::local::put::{put_marks, put_result, touches};
use crate::local::store::{StoreOutcome, StoreRequest};
use crate::types::{counted, Address, Partition, StoreMatch};

verus! {

/// Whether a group differs from another in no more than the entries of one bucket and whether it is
/// dirty.
pub open spec fn bucket_updated(
    before: ImmutableStoreGroup,
    after: ImmutableStoreGroup,
    b: int,
    slots: Seq<ImmutableStoreEntry>,
    dirty: bool,
) -> bool {
    &&& after.bucket_count == before.bucket_count
    &&& after.serialize_version == before.serialize_version
    &&& after.fan_out_threshold == before.fan_out_threshold
    &&& after.committed_level == before.committed_level
    &&& after.touched@ == before.touched@.update(b, true)
    &&& after.dirty@ == before.dirty@.update(b, dirty)
    &&& after.bucket@.len() == before.bucket@.len()
    &&& after.bucket@[b].slots() == slots
    &&& after.bucket@[b].deserialized == before.bucket@[b].deserialized
    &&& after.bucket@[b].upgrade_packfile == before.bucket@[b].upgrade_packfile
    &&& forall|c: int|
        0 <= c < before.bucket@.len() && c != b ==> #[trigger] after.bucket@[c]
            == before.bucket@[c]
}

/// Whether every entry of `t` has the given hash or that of an entry of `s`.
pub open spec fn hashes_from(
    t: Seq<ImmutableStoreEntry>,
    s: Seq<ImmutableStoreEntry>,
    hash: crate::types::Hash,
) -> bool {
    forall|i: int|
        0 <= i < t.len() ==> {
            ||| (#[trigger] t[i]).address.hash == hash
            ||| exists|j: int| 0 <= j < s.len() && (#[trigger] s[j]).address.hash == t[i].address.hash
        }
}

/// Entries with hashes of a bucket belong to that bucket.
proof fn lemma_still_routed(
    t: Seq<ImmutableStoreEntry>,
    s: Seq<ImmutableStoreEntry>,
    hash: crate::types::Hash,
    level: int,
    b: int,
)
    requires
        routed(s, level, b),
        bucket_of(hash, level) == b,
        hashes_from(t, s, hash),
    ensures
        routed(t, level, b),
{
    assert forall|i: int| 0 <= i < t.len() implies bucket_of(
        (#[trigger] t[i]).address.hash,
        level,
    ) == b by {
        if t[i].address.hash != hash {
            let j = choose|j: int|
                0 <= j < s.len() && (#[trigger] s[j]).address.hash == t[i].address.hash;
            assert(bucket_of(s[j].address.hash, level) == b);
        }
    }
}

/// A group stays well-formed when one bucket in use changes and stays well-formed.
pub proof fn lemma_group_still_wf(
    before: ImmutableStoreGroup,
    after: ImmutableStoreGroup,
    b: int,
    slots: Seq<ImmutableStoreEntry>,
    dirty: bool,
)
    requires
        before.wf(),
        0 <= b < before.bucket_count,
        bucket_updated(before, after, b, slots, dirty),
        after.bucket@[b].wf(),
        routed(slots, before.bucket_count as int, b),
    ensures
        after.wf(),
{
    assert forall|c: int| 0 <= c < 256 implies (#[trigger] after.bucket@[c]).wf() && routed(
        after.bucket@[c].slots(),
        after.bucket_count as int,
        c,
    ) by {
        if c != b {
            assert(after.bucket@[c] == before.bucket@[c]);
        }
    }
    assert forall|c: int| 0 <= c < 256 && !#[trigger] after.touched@[c] implies
        after.bucket@[c].slots().len() == 0 && !after.dirty@[c] by {
        assert(c != b);
        assert(!before.touched@[c]);
        assert(after.bucket@[c] == before.bucket@[c]);
    }
}

/// Recording a fragment adds no other hash to its bucket.
proof fn lemma_store_hashes(request: StoreRequest, s: Seq<ImmutableStoreEntry>)
    requires
        crate::local::bucket::sorted(s),
    ensures
        hashes_from(request.result(s).1, s, request.address.hash),
{
    law_lookup_finds_the_best_match(s, request.partition, request.address, StoreMatch::MatchFull);
    let t = request.result(s).1;
    let own = request.own_slot(s);
    assert forall|i: int| 0 <= i < t.len() implies {
        ||| (#[trigger] t[i]).address.hash == request.address.hash
        ||| exists|j: int| 0 <= j < s.len() && (#[trigger] s[j]).address.hash == t[i].address.hash
    } by {
        if t.len() > s.len() && i > own {
            assert(t[i].address == request.placed(s)[i].address);
            assert(request.placed(s)[i] == s[i - 1]);
        } else if i < s.len() && !(t.len() > s.len() && i == own) {
            assert(t[i].address.hash == s[i].address.hash || t[i].address.hash
                == request.address.hash);
        }
    }
}

/// Looking an address up adds no hash to its bucket.
proof fn lemma_find_hashes(
    s: Seq<ImmutableStoreEntry>,
    partition: Partition,
    address: Address,
    request: StoreMatch,
    atime: bool,
    now: u64,
)
    requires
        crate::local::bucket::sorted(s),
    ensures
        hashes_from(find_result(s, partition, address, request, atime, now).1, s, address.hash),
{
    law_lookup_finds_the_best_match(s, partition, address, request);
    let t = find_result(s, partition, address, request, atime, now).1;
    assert forall|i: int| 0 <= i < t.len() implies {
        ||| (#[trigger] t[i]).address.hash == address.hash
        ||| exists|j: int| 0 <= j < s.len() && (#[trigger] s[j]).address.hash == t[i].address.hash
    } by {
        assert(s[i].address.hash == t[i].address.hash);
    }
}

/// What has hashes from a list that has hashes from another, has hashes from the other.
proof fn lemma_hashes_transitive(
    u: Seq<ImmutableStoreEntry>,
    t: Seq<ImmutableStoreEntry>,
    s: Seq<ImmutableStoreEntry>,
    hash: crate::types::Hash,
)
    requires
        hashes_from(u, t, hash),
        hashes_from(t, s, hash),
    ensures
        hashes_from(u, s, hash),
{
    assert forall|i: int| 0 <= i < u.len() implies {
        ||| (#[trigger] u[i]).address.hash == hash
        ||| exists|j: int| 0 <= j < s.len() && (#[trigger] s[j]).address.hash == u[i].address.hash
    } by {
        if u[i].address.hash != hash {
            let k = choose|k: int|
                0 <= k < t.len() && (#[trigger] t[k]).address.hash == u[i].address.hash;
            let j = choose|j: int|
                0 <= j < s.len() && (#[trigger] s[j]).address.hash == t[k].address.hash;
            assert(s[j].address.hash == u[i].address.hash);
        }
    }
}

/// Putting a fragment adds no other hash to its bucket.
proof fn lemma_put_hashes(
    request: StoreRequest,
    check: Result<(), StoreError>,
    atime: bool,
    s: Seq<ImmutableStoreEntry>,
)
    requires
        crate::local::bucket::sorted(s),
    ensures
        hashes_from(put_result(request, check, atime, s).1, s, request.address.hash),
{
    reveal(put_result);
    let (hit, t) = find_result(
        s,
        request.partition,
        request.address,
        StoreMatch::MatchFull,
        atime,
        request.now,
    );
    lemma_find_hashes(
        s,
        request.partition,
        request.address,
        StoreMatch::MatchFull,
        atime,
        request.now,
    );
    law_lookup_finds_the_best_match(s, request.partition, request.address, StoreMatch::MatchFull);
    assert forall|i: int, j: int| 0 <= i < j < t.len() implies (#[trigger] t[i]).key().before(
        (#[trigger] t[j]).key(),
    ) by {
        assert(s[i].key().before(s[j].key()));
    }
    let inherited = crate::local::put::inheriting(request, hit->Ok_0.0);
    lemma_store_hashes(request, s);
    lemma_store_hashes(inherited, s);
    lemma_store_hashes(request, t);
    lemma_store_hashes(inherited, t);
    lemma_hashes_transitive(request.result(t).1, t, s, request.address.hash);
    lemma_hashes_transitive(inherited.result(t).1, t, s, request.address.hash);
    let same = s;
    assert(hashes_from(same, s, request.address.hash)) by {
        assert forall|i: int| 0 <= i < s.len() implies {
            ||| (#[trigger] same[i]).address.hash == request.address.hash
            ||| exists|j: int|
                0 <= j < s.len() && (#[trigger] s[j]).address.hash == same[i].address.hash
        } by {
            assert(s[i].address.hash == same[i].address.hash);
        }
    }
}

/// Copying an entry adds no other hash to its bucket.
proof fn lemma_copy_hashes(request: CopyRequest, s: Seq<ImmutableStoreEntry>)
    requires
        crate::local::bucket::sorted(s),
    ensures
        hashes_from(request.result(s).1, s, request.source_address.hash),
{
    let (p, d) = (request.destination_partition, request.destination());
    law_lookup_finds_the_best_match(s, p, d, StoreMatch::MatchFull);
    let (slot, insert, made) = found(s, p, d, StoreMatch::MatchFull);
    let t = request.result(s).1;
    assert forall|i: int| 0 <= i < t.len() implies {
        ||| (#[trigger] t[i]).address.hash == request.source_address.hash
        ||| exists|j: int| 0 <= j < s.len() && (#[trigger] s[j]).address.hash == t[i].address.hash
    } by {
        if t.len() > s.len() && i > insert {
            assert(t[i] == s[i - 1]);
        } else if !(t.len() > s.len() && i == insert) {
            assert(s[i].address.hash == t[i].address.hash);
        }
    }
}

/// Obliterating an entry adds no hash to its bucket.
proof fn lemma_obliterate_hashes(
    s: Seq<ImmutableStoreEntry>,
    partition: Partition,
    address: Address,
    erased: bool,
)
    requires
        crate::local::bucket::sorted(s),
    ensures
        hashes_from(obliterate_result(s, partition, address, erased).1, s, address.hash),
{
    law_lookup_finds_the_best_match(s, partition, address, StoreMatch::MatchFull);
    let t = obliterate_result(s, partition, address, erased).1;
    assert forall|i: int| 0 <= i < t.len() implies {
        ||| (#[trigger] t[i]).address.hash == address.hash
        ||| exists|j: int| 0 <= j < s.len() && (#[trigger] s[j]).address.hash == t[i].address.hash
    } by {
        assert(s[i].address.hash == t[i].address.hash);
    }
}

impl ImmutableStoreGroup {
    /// The bucket of a hash.
    pub open spec fn home(self, hash: crate::types::Hash) -> int {
        bucket_of(hash, self.bucket_count as int)
    }

    /// The entries of the bucket of a hash.
    pub open spec fn home_slots(self, hash: crate::types::Hash) -> Seq<ImmutableStoreEntry> {
        self.bucket@[self.home(hash)].slots()
    }

    /// Whether the bucket of a hash can take one more entry.
    pub open spec fn has_room(self, hash: crate::types::Hash) -> bool {
        self.home_slots(hash).len() < u32::MAX
    }

    /// Records a fragment in the bucket of its hash.
    pub fn store(&mut self, request: &StoreRequest) -> (r: Result<
        StoreOutcome,
        LocalImmutableStoreError,
    >)
        requires
            old(self).wf(),
            old(self).has_room(request.address.hash),
        ensures
            final(self).wf(),
            ({
                let b = old(self).home(request.address.hash);
                let s = old(self).home_slots(request.address.hash);
                let (result, after) = request.result(s);
                &&& r == result
                &&& r is Err ==> final(self).bucket@[b] == old(self).bucket@[b]
                &&& bucket_updated(
                    *old(self),
                    *final(self),
                    b,
                    after,
                    old(self).dirty@[b] || after != s || (r is Ok && r->Ok_0 is Stored),
                )
            }),
    {
        let b: usize = bucket_index_for(&request.address.hash, self.bucket_count);
        self.touched.set(b, true);
        let mut dirty = self.dirty[b];
        let bucket = &mut self.bucket[b];
        let r = bucket.store(request, &mut dirty);
        self.dirty.set(b, dirty);
        proof {
            let s = old(self).home_slots(request.address.hash);
            let after = request.result(s).1;
            lemma_store_hashes(*request, s);
            lemma_still_routed(
                after,
                s,
                request.address.hash,
                self.bucket_count as int,
                b as int,
            );
            lemma_group_still_wf(*old(self), *self, b as int, after, dirty);
        }
        r
    }

    /// Finds an entry in the bucket of its hash.
    pub fn find(
        &mut self,
        partition: Partition,
        address: Address,
        match_request: StoreMatch,
        atime: bool,
        now: u64,
    ) -> (r: Result<(ImmutableData, StoreMatch), LocalImmutableStoreError>)
        requires
            old(self).wf(),
        ensures
            final(self).wf(),
            ({
                let b = old(self).home(address.hash);
                let s = old(self).home_slots(address.hash);
                let (result, after) = find_result(s, partition, address, match_request, atime, now);
                &&& r == result
                &&& final(self).bucket@[b].sorted_index == old(self).bucket@[b].sorted_index
                &&& !stamps(s, partition, address, match_request, atime) ==> final(self).bucket@[b]
                    == old(self).bucket@[b]
                &&& bucket_updated(
                    *old(self),
                    *final(self),
                    b,
                    after,
                    old(self).dirty@[b] || stamps(s, partition, address, match_request, atime),
                )
            }),
    {
        let b: usize = bucket_index_for(&address.hash, self.bucket_count);
        self.touched.set(b, true);
        let mut dirty = self.dirty[b];
        let bucket = &mut self.bucket[b];
        let r = bucket.find(partition, address, match_request, atime, now, &mut dirty);
        self.dirty.set(b, dirty);
        proof {
            let s = old(self).home_slots(address.hash);
            let after = find_result(s, partition, address, match_request, atime, now).1;
            lemma_find_hashes(s, partition, address, match_request, atime, now);
            lemma_still_routed(after, s, address.hash, self.bucket_count as int, b as int);
            lemma_group_still_wf(*old(self), *self, b as int, after, dirty);
        }
        r
    }

    /// Puts a fragment into the bucket of its hash.
    pub fn put(
        &mut self,
        request: &StoreRequest,
        check: Result<(), StoreError>,
        atime: bool,
    ) -> (r: Result<StoreOutcome, StoreError>)
        requires
            old(self).wf(),
            old(self).has_room(request.address.hash),
        ensures
            final(self).wf(),
            ({
                let b = old(self).home(request.address.hash);
                let s = old(self).home_slots(request.address.hash);
                let (result, after) = put_result(*request, check, atime, s);
                &&& r == result
                &&& r is Err && !touches(*request, check, atime, s) ==> final(self).bucket@[b]
                    == old(self).bucket@[b]
                &&& bucket_updated(
                    *old(self),
                    *final(self),
                    b,
                    after,
                    old(self).dirty@[b] || put_marks(*request, check, atime, s),
                )
            }),
    {
        let b: usize = bucket_index_for(&request.address.hash, self.bucket_count);
        self.touched.set(b, true);
        let mut dirty = self.dirty[b];
        let bucket = &mut self.bucket[b];
        let r = bucket.put(request, check, atime, &mut dirty);
        self.dirty.set(b, dirty);
        proof {
            let s = old(self).home_slots(request.address.hash);
            let after = put_result(*request, check, atime, s).1;
            lemma_put_hashes(*request, check, atime, s);
            lemma_still_routed(
                after,
                s,
                request.address.hash,
                self.bucket_count as int,
                b as int,
            );
            lemma_group_still_wf(*old(self), *self, b as int, after, dirty);
        }
        r
    }

    /// Copies an entry within the bucket of its hash.
    pub fn copy(&mut self, request: &CopyRequest) -> (r: Result<(), StoreError>)
        requires
            old(self).wf(),
            old(self).has_room(request.source_address.hash),
        ensures
            final(self).wf(),
            ({
                let b = old(self).home(request.source_address.hash);
                let s = old(self).home_slots(request.source_address.hash);
                let (result, after) = request.result(s);
                &&& r == result
                &&& r is Err ==> final(self).bucket@[b] == old(self).bucket@[b]
                &&& bucket_updated(
                    *old(self),
                    *final(self),
                    b,
                    after,
                    old(self).dirty@[b] || (r is Ok && request.target(s) != Some(
                        request.copied(s),
                    )),
                )
            }),
    {
        let b: usize = bucket_index_for(&request.source_address.hash, self.bucket_count);
        self.touched.set(b, true);
        let mut dirty = self.dirty[b];
        let bucket = &mut self.bucket[b];
        let r = bucket.copy(request, &mut dirty);
        self.dirty.set(b, dirty);
        proof {
            let s = old(self).home_slots(request.source_address.hash);
            let after = request.result(s).1;
            lemma_copy_hashes(*request, s);
            lemma_still_routed(
                after,
                s,
                request.source_address.hash,
                self.bucket_count as int,
                b as int,
            );
            lemma_group_still_wf(*old(self), *self, b as int, after, dirty);
        }
        r
    }

    /// Obliterates an entry in the bucket of its hash.
    pub fn obliterate(
        &mut self,
        partition: Partition,
        address: Address,
        erased: bool,
        stats: &mut StoreObliterateStats,
    ) -> (r: Result<ObliterateOutcome, StoreError>)
        requires
            old(self).wf(),
        ensures
            final(self).wf(),
            ({
                let b = old(self).home(address.hash);
                let s = old(self).home_slots(address.hash);
                let (result, after) = obliterate_result(s, partition, address, erased);
                &&& r == result
                &&& !(r is Ok && r->Ok_0 is Obliterated) ==> final(self).bucket@[b]
                    == old(self).bucket@[b]
                &&& bucket_updated(
                    *old(self),
                    *final(self),
                    b,
                    after,
                    old(self).dirty@[b] || (r is Ok && r->Ok_0 is Obliterated),
                )
            }),
            *final(stats) == (StoreObliterateStats {
                num_fragments: if r is Ok && r->Ok_0 is Obliterated {
                    counted(old(stats).num_fragments)
                } else {
                    old(stats).num_fragments
                },
                num_payloads: if r is Ok && r->Ok_0 is ErasePayload {
                    counted(old(stats).num_payloads)
                } else {
                    old(stats).num_payloads
                },
            }),
    {
        let b: usize = bucket_index_for(&address.hash, self.bucket_count);
        self.touched.set(b, true);
        let mut dirty = self.dirty[b];
        let bucket = &mut self.bucket[b];
        let r = bucket.obliterate(partition, address, erased, stats, &mut dirty);
        self.dirty.set(b, dirty);
        proof {
            let s = old(self).home_slots(address.hash);
            let after = obliterate_result(s, partition, address, erased).1;
            lemma_obliterate_hashes(s, partition, address, erased);
            lemma_still_routed(after, s, address.hash, self.bucket_count as int, b as int);
            lemma_group_still_wf(*old(self), *self, b as int, after, dirty);
        }
        r
    }
}

} // verus!
