//! Asking for many addresses at once.
use vstd::prelude::*;

use crate::error::{InternalError, StoreError};
use crate::local::bucket::{found, law_lookup_finds_the_best_match, lemma_search_by_keys};
use crate::local::data::{ImmutableData, ImmutableStoreEntry};
use crate::local::find::{find_result, is_obliterated, stamps};
use crate::local::group::bucket_index_for;
use crate::local::immutable_store::{LocalImmutableStore, Step};
use crate::types::{Address, Partition, StoreMatch};

verus! {

impl LocalImmutableStore {
    /// Whether an address belongs to a bucket.
    pub open spec fn lives_in(self, address: Address, g: int, b: int) -> bool {
        address.hash.first_byte() == g && self.group@[g].home(address.hash) == b
    }

    /// Whether a lookup of an address stamps a slot.
    pub open spec fn stamps_slot(
        self,
        partition: Partition,
        address: Address,
        request: StoreMatch,
        g: int,
        b: int,
        i: int,
    ) -> bool {
        let s = self.group@[g].bucket@[b].slots();
        &&& self.settings.atime
        &&& self.lives_in(address, g, b)
        &&& found(s, partition, address, request).2 != StoreMatch::MatchNone
        &&& found(s, partition, address, request).0 == i
        &&& !is_obliterated(s[i].data)
    }

    /// Whether a lookup of one of the first addresses stamps a slot.
    pub open spec fn stamped(
        self,
        partition: Partition,
        addresses: Seq<Address>,
        n: int,
        request: StoreMatch,
        g: int,
        b: int,
        i: int,
    ) -> bool {
        exists|k: int|
            0 <= k < n && self.stamps_slot(partition, #[trigger] addresses[k], request, g, b, i)
    }

    /// Whether one of the first addresses belongs to a bucket.
    pub open spec fn visited(self, addresses: Seq<Address>, n: int, g: int, b: int) -> bool {
        exists|k: int| 0 <= k < n && self.lives_in(#[trigger] addresses[k], g, b)
    }

    /// Whether one of the first addresses has its bucket stamped.
    pub open spec fn marked(
        self,
        partition: Partition,
        addresses: Seq<Address>,
        n: int,
        request: StoreMatch,
        g: int,
        b: int,
    ) -> bool {
        exists|k: int|
            0 <= k < n && self.lives_in(#[trigger] addresses[k], g, b) && stamps(
                self.group@[g].bucket@[b].slots(),
                partition,
                addresses[k],
                request,
                self.settings.atime,
            )
    }

    /// Whether a store is another after lookups of some addresses.
    pub open spec fn after_batch(
        before: LocalImmutableStore,
        after: LocalImmutableStore,
        partition: Partition,
        addresses: Seq<Address>,
        n: int,
        request: StoreMatch,
        now: u64,
    ) -> bool {
        &&& after == (LocalImmutableStore { group: after.group, ..before })
        &&& forall|g: int, b: int|
            0 <= g < 256 && 0 <= b < 256 ==> Self::bucket_after_batch(
                before,
                #[trigger] after.group@[g].bucket@[b].slots(),
                after.group@[g].dirty@[b],
                after.group@[g].touched@[b],
                partition,
                addresses,
                n,
                request,
                now,
                g,
                b,
            )
        &&& forall|g: int, b: int|
            0 <= g < 256 && 0 <= b < 256 ==> {
                &&& (#[trigger] after.group@[g].bucket@[b]).deserialized
                    == before.group@[g].bucket@[b].deserialized
                &&& after.group@[g].bucket@[b].upgrade_packfile
                    == before.group@[g].bucket@[b].upgrade_packfile
                &&& after.group@[g].bucket@[b].sorted_index
                    == before.group@[g].bucket@[b].sorted_index
                &&& !before.visited(addresses, n, g, b) ==> after.group@[g].bucket@[b]
                    == before.group@[g].bucket@[b]
            }
        &&& forall|g: int|
            0 <= g < 256 ==> {
                &&& (#[trigger] after.group@[g]).bucket_count == before.group@[g].bucket_count
                &&& after.group@[g].serialize_version == before.group@[g].serialize_version
                &&& after.group@[g].fan_out_threshold == before.group@[g].fan_out_threshold
                &&& after.group@[g].committed_level == before.group@[g].committed_level
            }
    }

    /// Whether a bucket is what lookups of some addresses leave.
    pub open spec fn bucket_after_batch(
        before: LocalImmutableStore,
        slots: Seq<ImmutableStoreEntry>,
        dirty: bool,
        touched: bool,
        partition: Partition,
        addresses: Seq<Address>,
        n: int,
        request: StoreMatch,
        now: u64,
        g: int,
        b: int,
    ) -> bool {
        let s = before.group@[g].bucket@[b].slots();
        &&& slots.len() == s.len()
        &&& forall|i: int|
            0 <= i < s.len() ==> #[trigger] slots[i] == if before.stamped(
                partition,
                addresses,
                n,
                request,
                g,
                b,
                i,
            ) {
                s[i].with_data(ImmutableData { last_access: now, ..s[i].data })
            } else {
                s[i]
            }
        &&& dirty == (before.group@[g].dirty@[b] || before.marked(
            partition,
            addresses,
            n,
            request,
            g,
            b,
        ))
        &&& touched == (before.group@[g].touched@[b] || before.visited(addresses, n, g, b))
    }

    /// Whether these are the answers to a batch of addresses.
    pub open spec fn answers_batch(
        self,
        partition: Partition,
        addresses: Seq<Address>,
        request: StoreMatch,
        matches: Seq<StoreMatch>,
    ) -> bool {
        &&& matches.len() == addresses.len()
        &&& forall|k: int|
            0 <= k < addresses.len() ==> #[trigger] matches[k] == found(
                self.slots_of(addresses[k].hash),
                partition,
                addresses[k],
                request,
            ).2
    }

    /// How much of each address the store has, in the order of the addresses.
    pub fn exist_batch(
        &mut self,
        partition: Partition,
        addresses: &Vec<Address>,
        match_requested: StoreMatch,
        now: u64,
    ) -> (r: Step<Result<Vec<StoreMatch>, StoreError>>)
        requires
            old(self).wf(),
        ensures
            final(self).wf(),
            match r {
                Step::LoadBucket { group, bucket } => {
                    &&& *final(self) == *old(self)
                    &&& match_requested != StoreMatch::MatchNone
                    &&& exists|k: int| #![trigger addresses@[k]]
                        {
                            &&& 0 <= k < addresses@.len()
                            &&& old(self).unread(addresses@[k].hash)
                            &&& group == addresses@[k].hash.first_byte()
                            &&& bucket == old(self).group_of(addresses@[k].hash).home(
                                addresses@[k].hash,
                            )
                            &&& forall|j: int|
                                0 <= j < k ==> !old(self).unread((#[trigger] addresses@[j]).hash)
                        }
                },
                Step::Done(result) => if match_requested == StoreMatch::MatchNone
                    && addresses@.len() > 0 {
                    &&& *final(self) == *old(self)
                    &&& result == Err::<Vec<StoreMatch>, StoreError>(
                        StoreError::Internal(InternalError::InvalidQuery),
                    )
                } else {
                    &&& forall|k: int|
                        0 <= k < addresses@.len() ==> !old(self).unread(
                            (#[trigger] addresses@[k]).hash,
                        )
                    &&& result is Ok
                    &&& old(self).answers_batch(
                        partition,
                        addresses@,
                        match_requested,
                        result->Ok_0@,
                    )
                    &&& result->Ok_0@.len() == addresses@.len()
                    &&& forall|k: int|
                        0 <= k < addresses@.len() ==> #[trigger] result->Ok_0@[k] == found(
                            old(self).slots_of(addresses@[k].hash),
                            partition,
                            addresses@[k],
                            match_requested,
                        ).2
                    &&& Self::after_batch(
                        *old(self),
                        *final(self),
                        partition,
                        addresses@,
                        addresses@.len() as int,
                        match_requested,
                        now,
                    )
                },
            },
    {
        let ghost was = *self;
        let mut output: Vec<StoreMatch> = Vec::new();
        let count: usize = addresses.len();
        if match_requested == StoreMatch::MatchNone {
            if count > 0 {
                return Step::Done(Err(StoreError::Internal(InternalError::InvalidQuery)));
            }
            return Step::Done(Ok(output));
        }
        let mut i: usize = 0;
        while i < count
            invariant
                self.wf(),
                *self == was,
                was == *old(self),
                count == addresses@.len(),
                i <= count,
                match_requested != StoreMatch::MatchNone,
                forall|j: int| 0 <= j < i ==> !was.unread((#[trigger] addresses@[j]).hash),
            decreases count - i,
        {
            let hash = addresses[i].hash;
            let g: usize = hash.group_index();
            assert(self.group@[g as int].wf());
            let b: usize = bucket_index_for(&hash, self.group[g].bucket_count);
            if self.on_disk && !self.group[g].bucket[b].deserialized {
                assert(was.unread(addresses@[i as int].hash));
                return Step::LoadBucket { group: g, bucket: b };
            }
            i = i + 1;
        }
        i = 0;
        while i < count
            invariant
                was.wf(),
                self.wf(),
                was == *old(self),
                count == addresses@.len(),
                i <= count,
                match_requested != StoreMatch::MatchNone,
                forall|j: int| 0 <= j < count ==> !was.unread((#[trigger] addresses@[j]).hash),
                output@.len() == i,
                forall|k: int|
                    0 <= k < i ==> #[trigger] output@[k] == found(
                        was.slots_of(addresses@[k].hash),
                        partition,
                        addresses@[k],
                        match_requested,
                    ).2,
                Self::after_batch(
                    was,
                    *self,
                    partition,
                    addresses@,
                    i as int,
                    match_requested,
                    now,
                ),
            decreases count - i,
        {
            let address = addresses[i];
            let g: usize = address.hash.group_index();
            let ghost before = *self;
            let ghost gi = g as int;
            let ghost bi = was.group@[gi].home(address.hash);
            let ghost s = was.group@[gi].bucket@[bi].slots();
            let ghost t = before.group@[gi].bucket@[bi].slots();
            proof {
                assert(was.group@[gi].wf());
                assert(was.group@[gi].bucket@[bi].wf());
                assert(before.group@[gi].bucket_count == was.group@[gi].bucket_count);
                assert(Self::bucket_after_batch(
                    was,
                    before.group@[gi].bucket@[bi].slots(),
                    before.group@[gi].dirty@[bi],
                    before.group@[gi].touched@[bi],
                    partition,
                    addresses@,
                    i as int,
                    match_requested,
                    now,
                    gi,
                    bi,
                ));
                assert forall|k: int| 0 <= k < s.len() implies (#[trigger] s[k]).key()
                    == t[k].key() && is_obliterated(s[k].data) == is_obliterated(t[k].data) by {
                    assert(t[k].data.flags == s[k].data.flags);
                }
                lemma_search_by_keys(
                    s,
                    t,
                    partition,
                    address,
                    match_requested,
                    0,
                    s.len() as int,
                    0,
                    StoreMatch::MatchNone,
                );
                law_lookup_finds_the_best_match(s, partition, address, match_requested);
            }
            let atime = self.settings.atime;
            let group = &mut self.group[g];
            let hit = group.find(partition, address, match_requested, atime, now);
            match hit {
                Ok((_, matching)) => {
                    output.push(matching);
                },
                Err(e) => {
                    return Step::Done(Err(e.forward()));
                },
            }
            proof {
                lemma_one_more(
                    was,
                    before,
                    *self,
                    partition,
                    addresses@,
                    i as int,
                    match_requested,
                    now,
                );
            }
            i = i + 1;
        }
        Step::Done(Ok(output))
    }
}

/// One more lookup is one more address.
proof fn lemma_one_more(
    was: LocalImmutableStore,
    before: LocalImmutableStore,
    after: LocalImmutableStore,
    partition: Partition,
    addresses: Seq<Address>,
    n: int,
    request: StoreMatch,
    now: u64,
)
    requires
        was.wf(),
        before.wf(),
        after.wf(),
        0 <= n < addresses.len(),
        request != StoreMatch::MatchNone,
        LocalImmutableStore::after_batch(was, before, partition, addresses, n, request, now),
        after == (LocalImmutableStore { group: after.group, ..before }),
        ({
            let a = addresses[n];
            let g = a.hash.first_byte();
            let b = before.group@[g].home(a.hash);
            let t = before.group@[g].bucket@[b].slots();
            &&& 0 <= g < 256
            &&& after.group@ == before.group@.update(g, after.group@[g])
            &&& crate::local::group_ops::bucket_updated(
                before.group@[g],
                after.group@[g],
                b,
                find_result(t, partition, a, request, was.settings.atime, now).1,
                before.group@[g].dirty@[b] || stamps(t, partition, a, request, was.settings.atime),
            )
            &&& after.group@[g].bucket@[b].sorted_index == before.group@[g].bucket@[b].sorted_index
        }),
    ensures
        LocalImmutableStore::after_batch(was, after, partition, addresses, n + 1, request, now),
{
    let a = addresses[n];
    let ga = a.hash.first_byte();
    assert(was.group@[ga].wf());
    let ba = was.group@[ga].home(a.hash);
    assert(before.group@[ga].bucket_count == was.group@[ga].bucket_count);
    assert(before.group@[ga].home(a.hash) == ba);
    assert(0 <= ba < 256);
    assert forall|g: int, b: int| 0 <= g < 256 && 0 <= b < 256 implies
        LocalImmutableStore::bucket_after_batch(
        was,
        #[trigger] after.group@[g].bucket@[b].slots(),
        after.group@[g].dirty@[b],
        after.group@[g].touched@[b],
        partition,
        addresses,
        n + 1,
        request,
        now,
        g,
        b,
    ) by {
        assert(was.group@[g].wf());
        assert(was.group@[g].bucket@[b].wf());
        let s = was.group@[g].bucket@[b].slots();
        let t = before.group@[g].bucket@[b].slots();
        let u = after.group@[g].bucket@[b].slots();
        assert(LocalImmutableStore::bucket_after_batch(
            was,
            before.group@[g].bucket@[b].slots(),
            before.group@[g].dirty@[b],
            before.group@[g].touched@[b],
            partition,
            addresses,
            n,
            request,
            now,
            g,
            b,
        ));
        assert forall|k: int| 0 <= k < s.len() implies (#[trigger] s[k]).key() == t[k].key()
            && is_obliterated(s[k].data) == is_obliterated(t[k].data) by {
            assert(t[k].data.flags == s[k].data.flags);
        }
        lemma_search_by_keys(
            s,
            t,
            partition,
            a,
            request,
            0,
            s.len() as int,
            0,
            StoreMatch::MatchNone,
        );
        law_lookup_finds_the_best_match(s, partition, a, request);
        let here = g == ga && b == ba;
        assert(was.lives_in(a, g, b) == here);
        let (slot, insert, made) = found(s, partition, a, request);
        assert(found(t, partition, a, request) == (slot, insert, made));
        assert forall|i: int| was.stamped(partition, addresses, n + 1, request, g, b, i) == (
        was.stamped(partition, addresses, n, request, g, b, i) || was.stamps_slot(
            partition,
            a,
            request,
            g,
            b,
            i,
        )) by {
            if was.stamped(partition, addresses, n, request, g, b, i) {
                let k = choose|k: int|
                    0 <= k < n && was.stamps_slot(
                        partition,
                        #[trigger] addresses[k],
                        request,
                        g,
                        b,
                        i,
                    );
                assert(was.stamps_slot(partition, addresses[k], request, g, b, i));
            }
            if was.stamps_slot(partition, a, request, g, b, i) {
                assert(was.stamps_slot(partition, addresses[n], request, g, b, i));
            }
        }
        assert(was.visited(addresses, n + 1, g, b) == (was.visited(addresses, n, g, b) || here)) by {
            if was.visited(addresses, n, g, b) {
                let k = choose|k: int| 0 <= k < n && was.lives_in(#[trigger] addresses[k], g, b);
                assert(was.lives_in(addresses[k], g, b));
            }
            if here {
                assert(was.lives_in(addresses[n], g, b));
            }
        }
        let atime = was.settings.atime;
        assert(was.marked(partition, addresses, n + 1, request, g, b) == (was.marked(
            partition,
            addresses,
            n,
            request,
            g,
            b,
        ) || (here && stamps(s, partition, a, request, atime)))) by {
            if was.marked(partition, addresses, n, request, g, b) {
                let k = choose|k: int|
                    0 <= k < n && was.lives_in(#[trigger] addresses[k], g, b) && stamps(
                        s,
                        partition,
                        addresses[k],
                        request,
                        atime,
                    );
                assert(was.lives_in(addresses[k], g, b));
            }
            if here && stamps(s, partition, a, request, atime) {
                assert(was.lives_in(addresses[n], g, b));
            }
        }
        if g != ga {
            assert(after.group@[g] == before.group@[g]);
        } else if b != ba {
            assert(after.group@[g].bucket@[b] == before.group@[g].bucket@[b]);
        } else {
            assert(u == find_result(t, partition, a, request, atime, now).1);
            assert(stamps(t, partition, a, request, atime) == stamps(
                s,
                partition,
                a,
                request,
                atime,
            ));
            assert forall|i: int| 0 <= i < s.len() implies #[trigger] u[i] == if was.stamped(
                partition,
                addresses,
                n + 1,
                request,
                g,
                b,
                i,
            ) {
                s[i].with_data(ImmutableData { last_access: now, ..s[i].data })
            } else {
                s[i]
            } by {
                assert(was.stamps_slot(partition, a, request, g, b, i) == (atime && made
                    != StoreMatch::MatchNone && slot == i && !is_obliterated(s[i].data)));
                assert(t[i] == if was.stamped(partition, addresses, n, request, g, b, i) {
                    s[i].with_data(ImmutableData { last_access: now, ..s[i].data })
                } else {
                    s[i]
                });
            }
        }
    }
    assert forall|g: int, b: int| 0 <= g < 256 && 0 <= b < 256 implies (
    #[trigger] after.group@[g].bucket@[b]).deserialized == was.group@[g].bucket@[b].deserialized
        && after.group@[g].bucket@[b].upgrade_packfile
        == was.group@[g].bucket@[b].upgrade_packfile && after.group@[g].bucket@[b].sorted_index
        == was.group@[g].bucket@[b].sorted_index && (!was.visited(addresses, n + 1, g, b)
        ==> after.group@[g].bucket@[b] == was.group@[g].bucket@[b]) by {
        let last = before.group@[g].bucket@[b];
        assert(last.deserialized == was.group@[g].bucket@[b].deserialized);
        if !was.visited(addresses, n + 1, g, b) {
            assert(!was.lives_in(addresses[n], g, b));
            assert(!was.visited(addresses, n, g, b));
        }
    }
    assert forall|g: int| 0 <= g < 256 implies (#[trigger] after.group@[g]).bucket_count
        == was.group@[g].bucket_count && after.group@[g].serialize_version
        == was.group@[g].serialize_version && after.group@[g].fan_out_threshold
        == was.group@[g].fan_out_threshold && after.group@[g].committed_level
        == was.group@[g].committed_level by {
        assert(before.group@[g].bucket_count == was.group@[g].bucket_count);
    }
}

/// A batch is answered as its addresses would be one by one: in order, and for each with the answer
/// of a call of its own.
pub proof fn law_batch_answers_as_single_calls(
    store: LocalImmutableStore,
    after: LocalImmutableStore,
    partition: Partition,
    addresses: Seq<Address>,
    request: StoreMatch,
    matches: Seq<StoreMatch>,
    k: int,
    now: u64,
    result: Result<StoreMatch, StoreError>,
)
    requires
        store.answers_batch(partition, addresses, request, matches),
        0 <= k < addresses.len(),
        request != StoreMatch::MatchNone,
        LocalImmutableStore::did_exist(
            store,
            after,
            partition,
            addresses[k],
            request,
            now,
            result,
        ),
    ensures
        matches.len() == addresses.len(),
        result == Ok::<StoreMatch, StoreError>(matches[k]),
{
    assert(matches[k] == found(
        store.slots_of(addresses[k].hash),
        partition,
        addresses[k],
        request,
    ).2);
}

/// A batch changes nothing but times of the last access, and those only where they are kept. The
/// buckets that it did not look into stay as they are.
pub proof fn law_batch_changes_only_accesses(
    before: LocalImmutableStore,
    after: LocalImmutableStore,
    partition: Partition,
    addresses: Seq<Address>,
    request: StoreMatch,
    now: u64,
    g: int,
    b: int,
    i: int,
)
    requires
        LocalImmutableStore::after_batch(
            before,
            after,
            partition,
            addresses,
            addresses.len() as int,
            request,
            now,
        ),
        request != StoreMatch::MatchNone,
        0 <= g < 256,
        0 <= b < 256,
        0 <= i < before.group@[g].bucket@[b].slots().len(),
    ensures
        ({
            let s = before.group@[g].bucket@[b].slots();
            let t = after.group@[g].bucket@[b].slots();
            &&& t.len() == s.len()
            &&& t[i] == s[i] || (before.settings.atime && t[i] == s[i].with_data(
                ImmutableData { last_access: now, ..s[i].data },
            ))
            &&& t[i] != s[i] ==> after.group@[g].dirty@[b]
            &&& (forall|k: int|
                0 <= k < addresses.len() ==> !((#[trigger] addresses[k]).hash.first_byte() == g
                    && before.group@[g].home(addresses[k].hash) == b)) ==> t == s
                && after.group@[g].dirty@[b] == before.group@[g].dirty@[b]
        }),
{
    let s = before.group@[g].bucket@[b].slots();
    let t = after.group@[g].bucket@[b].slots();
    let n = addresses.len() as int;
    assert(LocalImmutableStore::bucket_after_batch(
        before,
        t,
        after.group@[g].dirty@[b],
        after.group@[g].touched@[b],
        partition,
        addresses,
        n,
        request,
        now,
        g,
        b,
    ));
    if before.stamped(partition, addresses, n, request, g, b, i) {
        let k = choose|k: int|
            0 <= k < n && before.stamps_slot(partition, #[trigger] addresses[k], request, g, b, i);
        assert(before.lives_in(addresses[k], g, b));
        assert(stamps(s, partition, addresses[k], request, before.settings.atime));
    }
    if forall|k: int|
        0 <= k < addresses.len() ==> !((#[trigger] addresses[k]).hash.first_byte() == g
            && before.group@[g].home(addresses[k].hash) == b) {
        assert(t =~= s);
    }
}

} // verus!
