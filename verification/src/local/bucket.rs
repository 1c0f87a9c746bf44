//! A bucket: entries in the order of arrival, and an index that sorts them by key.
use vstd::prelude::*;

use crate::local::data::{ImmutableData, ImmutableStoreEntry};
use crate::types::{key_of, Address, EntryKey, Partition, StoreMatch};

verus! {

/// A sorted table of entries.
pub struct ImmutableStoreBucket {
    pub entry: Vec<ImmutableStoreEntry>,
    pub sorted_index: Vec<u32>,
    /// Whether the entries were read from disk.
    pub deserialized: bool,
    /// Whether the payloads still lie in the pack files that all groups once shared.
    pub upgrade_packfile: bool,
}

/// The entries of a table in the order of an index.
pub open spec fn in_order(
    entry: Seq<ImmutableStoreEntry>,
    sorted_index: Seq<u32>,
) -> Seq<ImmutableStoreEntry> {
    Seq::new(sorted_index.len(), |i: int| entry[sorted_index[i] as int])
}

/// Strictly increasing by key.
pub open spec fn sorted(s: Seq<ImmutableStoreEntry>) -> bool {
    forall|i: int, j: int| 0 <= i < j < s.len() ==> (#[trigger] s[i]).key().before(
        (#[trigger] s[j]).key(),
    )
}

/// How much of an address an entry matches.
pub open spec fn match_of(
    entry: ImmutableStoreEntry,
    partition: Partition,
    address: Address,
) -> StoreMatch {
    if entry.address.hash != address.hash {
        StoreMatch::MatchNone
    } else if entry.partition != partition {
        StoreMatch::MatchHash
    } else if entry.address.context != address.context {
        StoreMatch::MatchPartition
    } else {
        StoreMatch::MatchFull
    }
}

/// The most that a request asks for: a request for nothing is not limited.
pub open spec fn cap_of(request: StoreMatch) -> StoreMatch {
    if request == StoreMatch::MatchNone {
        StoreMatch::MatchFull
    } else {
        request
    }
}

/// A match no stronger than what was asked for.
pub open spec fn capped(level: StoreMatch, request: StoreMatch) -> StoreMatch {
    if level.rank() > cap_of(request).rank() {
        cap_of(request)
    } else {
        level
    }
}

/// What a binary search between two slots finds: the slot of the best match, the slot at which it
/// stopped and the match. The first slot at which a match gets better counts, and the search ends
/// once it has what was asked for.
pub open spec fn search(
    s: Seq<ImmutableStoreEntry>,
    partition: Partition,
    address: Address,
    request: StoreMatch,
    start: int,
    end: int,
    slot: int,
    made: StoreMatch,
) -> (int, int, StoreMatch)
    decreases end - start,
{
    if start >= end {
        (slot, start, made)
    } else {
        let mid = (start + end) / 2;
        let seen = capped(match_of(s[mid], partition, address), request);
        let better = seen.rank() > made.rank();
        let slot_now = if better { mid } else { slot };
        let made_now = if better { seen } else { made };
        if made_now == cap_of(request) {
            (slot_now, start, made_now)
        } else if key_of(partition, address).before(s[mid].key()) {
            search(s, partition, address, request, start, mid, slot_now, made_now)
        } else {
            search(s, partition, address, request, mid + 1, end, slot_now, made_now)
        }
    }
}

/// What a lookup in a whole bucket finds.
pub open spec fn found(
    s: Seq<ImmutableStoreEntry>,
    partition: Partition,
    address: Address,
    request: StoreMatch,
) -> (int, int, StoreMatch) {
    search(s, partition, address, request, 0, s.len() as int, 0, StoreMatch::MatchNone)
}

/// Whether `slot` is where a key belongs: all before it are smaller, all from it on are greater.
pub open spec fn belongs_at(s: Seq<ImmutableStoreEntry>, key: EntryKey, slot: int) -> bool {
    &&& 0 <= slot <= s.len()
    &&& forall|i: int| 0 <= i < slot ==> (#[trigger] s[i]).key().before(key)
    &&& forall|i: int| slot <= i < s.len() ==> key.before((#[trigger] s[i]).key())
}

/// What holds of a lookup's answer.
pub open spec fn answers(
    s: Seq<ImmutableStoreEntry>,
    partition: Partition,
    address: Address,
    request: StoreMatch,
    answer: (int, int, StoreMatch),
) -> bool {
    let (slot, insert, made) = answer;
    // The match is the best that there is, up to what was asked for.
    &&& forall|i: int|
        0 <= i < s.len() ==> capped(
            match_of(#[trigger] s[i], partition, address),
            request,
        ).rank() <= made.rank()
    // The slot holds an entry that matches so far.
    &&& made != StoreMatch::MatchNone ==> 0 <= slot < s.len() && capped(
        match_of(s[slot], partition, address),
        request,
    ) == made
    // Without what was asked for, the second slot is where the key belongs. Otherwise it is not
    // past the first.
    &&& 0 <= insert <= s.len()
    &&& made == cap_of(request) ==> insert <= slot
    &&& made != cap_of(request) ==> belongs_at(s, key_of(partition, address), insert)
}

/// Keys between a key and one that shares a prefix with it share that prefix too.
proof fn lemma_prefix(
    a: ImmutableStoreEntry,
    b: ImmutableStoreEntry,
    partition: Partition,
    address: Address,
)
    requires
        ({
            let k = key_of(partition, address);
            ||| a.key().before(b.key()) && b.key().before(k)
            ||| b.key().before(a.key()) && k.before(b.key())
        }),
    ensures
        match_of(a, partition, address).rank() <= match_of(b, partition, address).rank(),
{
}

/// A search that starts from what its probes showed answers the lookup.
proof fn lemma_search(
    s: Seq<ImmutableStoreEntry>,
    partition: Partition,
    address: Address,
    request: StoreMatch,
    start: int,
    end: int,
    slot: int,
    made: StoreMatch,
)
    requires
        sorted(s),
        0 <= start <= end <= s.len(),
        made != cap_of(request),
        made.rank() <= cap_of(request).rank(),
        made != StoreMatch::MatchNone ==> 0 <= slot < s.len() && capped(
            match_of(s[slot], partition, address),
            request,
        ) == made,
        forall|i: int|
            0 <= i < start ==> (#[trigger] s[i]).key().before(key_of(partition, address)),
        forall|i: int|
            end <= i < s.len() ==> key_of(partition, address).before((#[trigger] s[i]).key()),
        start > 0 ==> capped(match_of(s[start - 1], partition, address), request).rank()
            <= made.rank(),
        end < s.len() ==> capped(match_of(s[end], partition, address), request).rank()
            <= made.rank(),
    ensures
        answers(
            s,
            partition,
            address,
            request,
            search(s, partition, address, request, start, end, slot, made),
        ),
    decreases end - start,
{
    let key = key_of(partition, address);
    if start >= end {
        assert forall|i: int| 0 <= i < s.len() implies capped(
            match_of(#[trigger] s[i], partition, address),
            request,
        ).rank() <= made.rank() by {
            if i < start {
                if i < start - 1 {
                    lemma_prefix(s[i], s[start - 1], partition, address);
                }
            } else if i > end {
                lemma_prefix(s[i], s[end], partition, address);
            }
        }
    } else {
        let mid = (start + end) / 2;
        let seen = capped(match_of(s[mid], partition, address), request);
        let better = seen.rank() > made.rank();
        let slot_now = if better { mid } else { slot };
        let made_now = if better { seen } else { made };
        if made_now != cap_of(request) {
            assert(match_of(s[mid], partition, address) != StoreMatch::MatchFull);
            if key.before(s[mid].key()) {
                assert forall|i: int| mid <= i < s.len() implies key.before(
                    (#[trigger] s[i]).key(),
                ) by {
                    if i > mid {
                        assert(s[mid].key().before(s[i].key()));
                    }
                }
                lemma_search(s, partition, address, request, start, mid, slot_now, made_now);
            } else {
                assert(s[mid].key().before(key));
                assert forall|i: int| 0 <= i < mid + 1 implies (#[trigger] s[i]).key().before(
                    key,
                ) by {
                    if i < mid {
                        assert(s[i].key().before(s[mid].key()));
                    }
                }
                lemma_search(s, partition, address, request, mid + 1, end, slot_now, made_now);
            }
        }
    }
}

/// A lookup in a sorted bucket finds the best match that there is, up to what was asked for, and
/// where the key belongs if it is not there.
pub proof fn law_lookup_finds_the_best_match(
    s: Seq<ImmutableStoreEntry>,
    partition: Partition,
    address: Address,
    request: StoreMatch,
)
    requires
        sorted(s),
    ensures
        answers(s, partition, address, request, found(s, partition, address, request)),
{
    lemma_search(
        s,
        partition,
        address,
        request,
        0,
        s.len() as int,
        0,
        StoreMatch::MatchNone,
    );
}

/// What a bucket records at the very address.
pub open spec fn data_at(
    s: Seq<ImmutableStoreEntry>,
    partition: Partition,
    address: Address,
) -> Option<ImmutableData> {
    let (slot, insert, made) = found(s, partition, address, StoreMatch::MatchFull);
    if made == StoreMatch::MatchFull {
        Some(s[slot].data)
    } else {
        None
    }
}

/// Every entry of a sorted bucket is found at its own slot.
pub proof fn law_every_entry_is_found(s: Seq<ImmutableStoreEntry>, slot: int)
    requires
        sorted(s),
        0 <= slot < s.len(),
    ensures
        found(s, s[slot].partition, s[slot].address, StoreMatch::MatchFull).0 == slot,
        found(s, s[slot].partition, s[slot].address, StoreMatch::MatchFull).2
            == StoreMatch::MatchFull,
        data_at(s, s[slot].partition, s[slot].address) == Some(s[slot].data),
{
    let (p, a) = (s[slot].partition, s[slot].address);
    law_lookup_finds_the_best_match(s, p, a, StoreMatch::MatchFull);
    let (at, insert, made) = found(s, p, a, StoreMatch::MatchFull);
    assert(capped(match_of(s[slot], p, a), StoreMatch::MatchFull).rank() <= made.rank());
    assert(s[at].key() == s[slot].key());
    if at < slot {
        assert(s[at].key().before(s[slot].key()));
    } else if slot < at {
        assert(s[slot].key().before(s[at].key()));
    }
}

/// An address that is not found has no entry.
pub proof fn lemma_not_found(s: Seq<ImmutableStoreEntry>, partition: Partition, address: Address)
    requires
        sorted(s),
        data_at(s, partition, address) is None,
    ensures
        forall|i: int| 0 <= i < s.len() ==> (#[trigger] s[i]).key() != key_of(partition, address),
{
    law_lookup_finds_the_best_match(s, partition, address, StoreMatch::MatchFull);
    let made = found(s, partition, address, StoreMatch::MatchFull).2;
    assert forall|i: int| 0 <= i < s.len() implies (#[trigger] s[i]).key() != key_of(
        partition,
        address,
    ) by {
        assert(capped(match_of(s[i], partition, address), StoreMatch::MatchFull).rank()
            <= made.rank());
    }
}

/// An address that is found has an entry, at the slot of the lookup.
pub proof fn lemma_found_entry(s: Seq<ImmutableStoreEntry>, partition: Partition, address: Address)
    requires
        sorted(s),
        data_at(s, partition, address) is Some,
    ensures
        ({
            let slot = found(s, partition, address, StoreMatch::MatchFull).0;
            &&& 0 <= slot < s.len()
            &&& s[slot].key() == key_of(partition, address)
            &&& data_at(s, partition, address) == Some(s[slot].data)
        }),
{
    law_lookup_finds_the_best_match(s, partition, address, StoreMatch::MatchFull);
}

/// A search looks at keys alone.
pub proof fn lemma_search_by_keys(
    s: Seq<ImmutableStoreEntry>,
    t: Seq<ImmutableStoreEntry>,
    partition: Partition,
    address: Address,
    request: StoreMatch,
    start: int,
    end: int,
    slot: int,
    made: StoreMatch,
)
    requires
        s.len() == t.len(),
        forall|i: int| 0 <= i < s.len() ==> (#[trigger] s[i]).key() == t[i].key(),
        0 <= start <= end <= s.len(),
    ensures
        search(s, partition, address, request, start, end, slot, made) == search(
            t,
            partition,
            address,
            request,
            start,
            end,
            slot,
            made,
        ),
    decreases end - start,
{
    if start < end {
        let mid = (start + end) / 2;
        assert(s[mid].key() == t[mid].key());
        assert(match_of(s[mid], partition, address) == match_of(t[mid], partition, address));
        let seen = capped(match_of(s[mid], partition, address), request);
        let better = seen.rank() > made.rank();
        let slot_now = if better { mid } else { slot };
        let made_now = if better { seen } else { made };
        if made_now != cap_of(request) {
            lemma_search_by_keys(s, t, partition, address, request, start, mid, slot_now, made_now);
            lemma_search_by_keys(
                s,
                t,
                partition,
                address,
                request,
                mid + 1,
                end,
                slot_now,
                made_now,
            );
        }
    }
}

/// Whether one key sorts before another.
fn key_before(
    hash: &crate::types::Hash,
    partition: &Partition,
    context: &crate::types::Context,
    entry: &ImmutableStoreEntry,
) -> (r: bool)
    ensures
        r == (EntryKey { hash: *hash, partition: *partition, context: *context }).before(
            entry.key(),
        ),
{
    if hash.high != entry.address.hash.high {
        hash.high < entry.address.hash.high
    } else if hash.low != entry.address.hash.low {
        hash.low < entry.address.hash.low
    } else if partition.value != entry.partition.value {
        partition.value < entry.partition.value
    } else {
        context.value < entry.address.context.value
    }
}

/// How much of an address an entry matches.
pub fn entry_match(entry: &ImmutableStoreEntry, partition: &Partition, address: &Address) -> (r:
    StoreMatch)
    ensures
        r == match_of(*entry, *partition, *address),
{
    if entry.address.hash != address.hash {
        StoreMatch::MatchNone
    } else if entry.partition != *partition {
        StoreMatch::MatchHash
    } else if entry.address.context != address.context {
        StoreMatch::MatchPartition
    } else {
        StoreMatch::MatchFull
    }
}

impl ImmutableStoreBucket {
    /// The entries in the order of their keys.
    pub open spec fn slots(self) -> Seq<ImmutableStoreEntry> {
        in_order(self.entry@, self.sorted_index@)
    }

    /// The index has a place for every entry and names only entries.
    pub open spec fn in_range(self) -> bool {
        &&& self.entry@.len() == self.sorted_index@.len()
        &&& self.entry@.len() <= u32::MAX
        &&& forall|i: int|
            0 <= i < self.sorted_index@.len() ==> (#[trigger] self.sorted_index@[i])
                < self.entry@.len()
    }

    /// The index names every entry once, in whatever order.
    pub open spec fn indexed(self) -> bool {
        &&& self.in_range()
        &&& forall|i: int, j: int|
            0 <= i < j < self.sorted_index@.len() ==> (#[trigger] self.sorted_index@[i])
                != (#[trigger] self.sorted_index@[j])
    }

    /// The index names every entry once and sorts them.
    pub open spec fn wf(self) -> bool {
        self.in_range() && sorted(self.slots())
    }

    /// An index that sorts the entries names each once.
    pub proof fn lemma_sorted_is_indexed(self)
        requires
            self.wf(),
        ensures
            self.indexed(),
    {
        assert forall|i: int, j: int| 0 <= i < j < self.sorted_index@.len() implies (
        #[trigger] self.sorted_index@[i]) != (#[trigger] self.sorted_index@[j]) by {
            assert(self.slots()[i].key().before(self.slots()[j].key()));
        }
    }

    /// Finds an address: the slot of the best match, the slot at which the search stopped, and the
    /// match.
    pub fn lookup(
        &self,
        partition: Partition,
        address: Address,
        match_request: StoreMatch,
    ) -> (r: (usize, usize, StoreMatch))
        requires
            self.wf(),
        ensures
            (r.0 as int, r.1 as int, r.2) == found(
                self.slots(),
                partition,
                address,
                match_request,
            ),
            answers(
                self.slots(),
                partition,
                address,
                match_request,
                (r.0 as int, r.1 as int, r.2),
            ),
    {
        let mut start: usize = 0;
        let mut end: usize = self.entry.len();
        let mut match_slot: usize = 0;
        let mut match_made = StoreMatch::MatchNone;
        let cap = if match_request == StoreMatch::MatchNone {
            StoreMatch::MatchFull
        } else {
            match_request
        };
        proof {
            law_lookup_finds_the_best_match(self.slots(), partition, address, match_request);
        }
        while start < end
            invariant
                self.wf(),
                cap == cap_of(match_request),
                start <= end <= self.entry@.len(),
                found(self.slots(), partition, address, match_request) == search(
                    self.slots(),
                    partition,
                    address,
                    match_request,
                    start as int,
                    end as int,
                    match_slot as int,
                    match_made,
                ),
                answers(
                    self.slots(),
                    partition,
                    address,
                    match_request,
                    found(self.slots(), partition, address, match_request),
                ),
            decreases end - start,
        {
            let slot: usize = start + (end - start) / 2;
            let entry_index: usize = self.sorted_index[slot] as usize;
            let entry = &self.entry[entry_index];
            assert(*entry == self.slots()[slot as int]);
            assert(slot == (start + end) / 2);
            let level = entry_match(entry, &partition, &address);
            let seen = if cap.weaker_than(level) {
                cap
            } else {
                level
            };
            if match_made.weaker_than(seen) {
                match_slot = slot;
                match_made = seen;
            }
            if match_made == cap {
                return (match_slot, start, match_made);
            }
            if key_before(&address.hash, &partition, &address.context, entry) {
                end = slot;
            } else {
                start = slot + 1;
            }
        }
        (match_slot, start, match_made)
    }

    /// Whether the index names every entry once and sorts them.
    pub fn is_well_formed(&self) -> (r: bool)
        ensures
            r == self.wf(),
    {
        let count: usize = self.entry.len();
        if self.sorted_index.len() != count || count as u64 > u32::MAX as u64 {
            return false;
        }
        let mut i: usize = 0;
        while i < count
            invariant
                count == self.entry@.len() == self.sorted_index@.len(),
                i <= count,
                forall|k: int| 0 <= k < i ==> (#[trigger] self.sorted_index@[k]) < count,
                forall|k: int, m: int|
                    0 <= k < m < i ==> (#[trigger] self.slots()[k]).key().before(
                        (#[trigger] self.slots()[m]).key(),
                    ),
            decreases count - i,
        {
            if self.sorted_index[i] as usize >= count {
                assert(!(self.sorted_index@[i as int] < self.entry@.len()));
                return false;
            }
            if i > 0 {
                let previous = self.entry[self.sorted_index[i - 1] as usize];
                let next = self.entry[self.sorted_index[i] as usize];
                assert(self.slots()[i - 1] == previous && self.slots()[i as int] == next);
                if !key_before(
                    &previous.address.hash,
                    &previous.partition,
                    &previous.address.context,
                    &next,
                ) {
                    return false;
                }
                assert forall|k: int, m: int| 0 <= k < m < i + 1 implies (
                #[trigger] self.slots()[k]).key().before((#[trigger] self.slots()[m]).key()) by {
                    if m == i && k < i - 1 {
                        assert(self.slots()[k].key().before(self.slots()[i - 1].key()));
                    }
                }
            }
            i = i + 1;
        }
        true
    }

    /// Checks that hashes do not decrease along the index and that no entry was accessed after
    /// `now`.
    pub fn ensure_integrity(&self, now: u64) -> (r: bool)
        requires
            self.in_range(),
        ensures
            r == ((forall|i: int|
                0 < i < self.slots().len() ==> !(#[trigger] self.slots()[i]).address.hash.before(
                    self.slots()[i - 1].address.hash,
                )) && (forall|i: int|
                0 <= i < self.slots().len() ==> (#[trigger] self.slots()[i]).data.last_access
                    <= now)),
    {
        let count: usize = self.sorted_index.len();
        let mut previous = crate::types::Hash::zero();
        let mut i: usize = 0;
        while i < count
            invariant
                count == self.entry@.len() == self.sorted_index@.len(),
                i <= count,
                i == 0 ==> previous == (crate::types::Hash { high: 0, low: 0 }),
                i > 0 ==> previous == self.slots()[i - 1].address.hash,
                forall|k: int|
                    0 <= k < self.sorted_index@.len() ==> (#[trigger] self.sorted_index@[k])
                        < self.entry@.len(),
                forall|k: int|
                    0 < k < i ==> !(#[trigger] self.slots()[k]).address.hash.before(
                        self.slots()[k - 1].address.hash,
                    ),
                forall|k: int|
                    0 <= k < i ==> (#[trigger] self.slots()[k]).data.last_access <= now,
            decreases count - i,
        {
            let entry = self.entry[self.sorted_index[i] as usize];
            assert(self.slots()[i as int] == entry);
            let hash = entry.address.hash;
            if hash.high < previous.high || (hash.high == previous.high && hash.low
                < previous.low) {
                return false;
            }
            if entry.data.last_access > now {
                return false;
            }
            previous = hash;
            i = i + 1;
        }
        true
    }

    /// The entry at a slot.
    pub fn at(&self, slot: usize) -> (r: ImmutableStoreEntry)
        requires
            self.in_range(),
            slot < self.slots().len(),
        ensures
            r == self.slots()[slot as int],
    {
        self.entry[self.sorted_index[slot] as usize]
    }

    /// Replaces the data of the entry at a slot.
    pub fn set_data(&mut self, slot: usize, data: ImmutableData)
        requires
            old(self).wf(),
            slot < old(self).slots().len(),
        ensures
            final(self).wf(),
            final(self).slots() == old(self).slots().update(
                slot as int,
                old(self).slots()[slot as int].with_data(data),
            ),
            final(self).deserialized == old(self).deserialized,
            final(self).upgrade_packfile == old(self).upgrade_packfile,
            final(self).sorted_index == old(self).sorted_index,
            final(self).entry@ == old(self).entry@.update(
                old(self).sorted_index@[slot as int] as int,
                old(self).slots()[slot as int].with_data(data),
            ),
    {
        let ghost before = self.slots();
        let index: usize = self.sorted_index[slot] as usize;
        let mut entry = self.entry[index];
        entry.data = data;
        self.entry.set(index, entry);
        proof {
            let after = before.update(slot as int, before[slot as int].with_data(data));
            assert forall|i: int| 0 <= i < before.len() implies #[trigger] self.slots()[i]
                == after[i] by {
                if i != slot as int && self.sorted_index@[i] == index {
                    if i < slot {
                        assert(before[i].key().before(before[slot as int].key()));
                    } else {
                        assert(before[slot as int].key().before(before[i].key()));
                    }
                }
            }
            assert(self.slots() =~= after);
            assert forall|i: int, j: int| 0 <= i < j < after.len() implies (
            #[trigger] after[i]).key().before((#[trigger] after[j]).key()) by {
                assert(before[i].key().before(before[j].key()));
            }
        }
    }

    /// Adds an entry at the slot where its key belongs.
    pub fn insert_at(&mut self, slot: usize, entry: ImmutableStoreEntry)
        requires
            old(self).wf(),
            belongs_at(old(self).slots(), entry.key(), slot as int),
            old(self).entry@.len() < u32::MAX,
        ensures
            final(self).wf(),
            final(self).slots() == old(self).slots().insert(slot as int, entry),
            final(self).deserialized == old(self).deserialized,
            final(self).upgrade_packfile == old(self).upgrade_packfile,
            final(self).entry@ == old(self).entry@.push(entry),
            final(self).sorted_index@ == old(self).sorted_index@.insert(
                slot as int,
                old(self).entry@.len() as u32,
            ),
    {
        let ghost before = self.slots();
        let count: usize = self.entry.len();
        self.sorted_index.insert(slot, count as u32);
        self.entry.push(entry);
        proof {
            let after = before.insert(slot as int, entry);
            assert(self.slots() =~= after);
            lemma_insert_keeps_sorted(before, slot as int, entry);
        }
    }
}

/// Adding an entry where its key belongs keeps the order.
pub proof fn lemma_insert_keeps_sorted(
    s: Seq<ImmutableStoreEntry>,
    slot: int,
    entry: ImmutableStoreEntry,
)
    requires
        sorted(s),
        belongs_at(s, entry.key(), slot),
    ensures
        sorted(s.insert(slot, entry)),
{
    let after = s.insert(slot, entry);
    assert forall|i: int, j: int| 0 <= i < j < after.len() implies (#[trigger] after[i]).key().before(
        (#[trigger] after[j]).key(),
    ) by {
        let a = if i < slot { i } else { i - 1 };
        let b = if j < slot { j } else { j - 1 };
        if i == slot {
            assert(after[j] == s[b]);
        } else if j == slot {
            assert(after[i] == s[a]);
        } else {
            assert(after[i] == s[a] && after[j] == s[b]);
            assert(s[a].key().before(s[b].key()));
        }
    }
}

} // verus!
