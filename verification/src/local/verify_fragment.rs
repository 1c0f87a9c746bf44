//! Checking the payloads of one fragment, and healing its entries.
use vstd::prelude::*;

use crate::error::{InternalError, StoreError};
use crate::local::bucket::{
    capped, entry_match, found, law_lookup_finds_the_best_match, match_of, sorted,
    ImmutableStoreBucket,
};
use crate::local::codec::{bucket_path, format_bucket_path};
use crate::local::data::{ImmutableData, ImmutableStoreEntry};
use crate::local::group::{bucket_index_for, ImmutableStoreGroup};
use crate::local::group_ops::{bucket_updated, lemma_group_still_wf};
use crate::local::immutable_store::{LocalImmutableStore, Step};
use crate::local::verify::{check_payload, payload_fault, PayloadState};
use crate::types::{Address, Context, Partition, StoreMatch};

verus! {

/// An entry that a fragment was found at.
#[derive(Clone, Copy, Debug, PartialEq, Eq, Structural)]
pub struct ImmutableStoreVerifyMatch {
    pub slot: usize,
    pub index: usize,
    pub partition: Partition,
    pub address: Address,
    pub data: ImmutableData,
}

/// What a check of one fragment found. The matches say which entries were looked at; the hash,
/// partition and context of the result itself are zero.
pub struct ImmutableStoreVerifyResult {
    pub hash: crate::types::Hash,
    pub partition: Partition,
    pub context: Context,
    pub group_index: usize,
    pub bucket_index: usize,
    /// The path of the bucket's file below the store.
    pub index_path: Vec<u8>,
    pub entry_count: usize,
    pub packfile_entry_count: usize,
    pub matches: Vec<ImmutableStoreVerifyMatch>,
    pub verification_result: Result<(), InternalError>,
    pub healed: bool,
}

/// Whether an entry is one of those that a check was asked for.
pub open spec fn wanted(
    e: ImmutableStoreEntry,
    partition: Partition,
    address: Address,
    requested: StoreMatch,
) -> bool {
    requested != StoreMatch::MatchNone && match_of(e, partition, address).rank()
        >= requested.rank()
}

/// The partition that a check looks up: none where only the hash counts.
pub open spec fn lookup_partition(partition: Partition, requested: StoreMatch) -> Partition {
    if requested.rank() < StoreMatch::MatchPartition.rank() {
        Partition { value: 0 }
    } else {
        partition
    }
}

/// The address that a check looks up: without context where it does not count.
pub open spec fn lookup_address(address: Address, requested: StoreMatch) -> Address {
    if requested == StoreMatch::MatchFull {
        address
    } else {
        Address { hash: address.hash, context: Context { value: 0 } }
    }
}

/// The wanted slots on both sides of a gap, alternately below and above, as far as they follow on
/// each other.
pub open spec fn gather(
    s: Seq<ImmutableStoreEntry>,
    partition: Partition,
    address: Address,
    requested: StoreMatch,
    below: int,
    above: int,
) -> Seq<int>
    decreases below + 1 + s.len() - above,
    when -1 <= below && above <= s.len()
{
    if below < 0 && above >= s.len() {
        Seq::empty()
    } else {
        let b = below >= 0 && wanted(s[below], partition, address, requested);
        let a = above < s.len() && wanted(s[above], partition, address, requested);
        let here = (if b { seq![below] } else { Seq::empty() }) + (if a {
            seq![above]
        } else {
            Seq::empty()
        });
        here + gather(
            s,
            partition,
            address,
            requested,
            if b { below - 1 } else { -1 },
            if a { above + 1 } else { s.len() as int },
        )
    }
}

/// The slots that a check looks at.
pub open spec fn checked_slots(
    s: Seq<ImmutableStoreEntry>,
    partition: Partition,
    address: Address,
    requested: StoreMatch,
) -> Seq<int> {
    let slot = found(
        s,
        lookup_partition(partition, requested),
        lookup_address(address, requested),
        requested,
    ).0;
    if requested == StoreMatch::MatchFull {
        seq![slot]
    } else {
        seq![slot] + gather(s, partition, address, requested, slot - 1, slot + 1)
    }
}

/// Whether a check finds what it was asked for.
pub open spec fn check_hits(
    s: Seq<ImmutableStoreEntry>,
    partition: Partition,
    address: Address,
    requested: StoreMatch,
) -> bool {
    let made = found(
        s,
        lookup_partition(partition, requested),
        lookup_address(address, requested),
        requested,
    ).2;
    made != StoreMatch::MatchNone && made.rank() >= requested.rank()
}

/// The match at a slot.
pub open spec fn match_at(bucket: ImmutableStoreBucket, slot: int) -> ImmutableStoreVerifyMatch {
    ImmutableStoreVerifyMatch {
        slot: slot as usize,
        index: bucket.sorted_index@[slot] as usize,
        partition: bucket.slots()[slot].partition,
        address: bucket.slots()[slot].address,
        data: bucket.slots()[slot].data,
    }
}

/// The data of the matches, each once, in the order in which they first appear.
pub open spec fn distinct(matches: Seq<ImmutableStoreVerifyMatch>) -> Seq<ImmutableData>
    decreases matches.len(),
{
    if matches.len() == 0 {
        Seq::empty()
    } else {
        let before = distinct(matches.drop_last());
        if before.contains(matches.last().data) {
            before
        } else {
            before.push(matches.last().data)
        }
    }
}

/// The fault of one payload of a hash.
pub open spec fn data_fault(
    hash: crate::types::Hash,
    data: ImmutableData,
    state: PayloadState,
) -> Option<InternalError> {
    if data.pack_file == 0 {
        None
    } else {
        payload_fault(
            ImmutableStoreEntry {
                address: Address { hash, context: Context { value: 0 } },
                partition: Partition { value: 0 },
                data,
            },
            state,
        )
    }
}

/// The payloads of a hash that fail their check.
pub open spec fn failing(
    hash: crate::types::Hash,
    data: Seq<ImmutableData>,
    states: Seq<PayloadState>,
) -> Seq<ImmutableData>
    decreases data.len(),
{
    if data.len() == 0 {
        Seq::empty()
    } else {
        let rest = failing(hash, data.drop_last(), states);
        if data_fault(hash, data.last(), states[data.len() - 1]) is Some {
            rest.push(data.last())
        } else {
            rest
        }
    }
}

/// The fault that a check reports: that of the last payload that fails.
pub open spec fn reported(
    hash: crate::types::Hash,
    data: Seq<ImmutableData>,
    states: Seq<PayloadState>,
) -> Option<InternalError>
    decreases data.len(),
{
    if data.len() == 0 {
        None
    } else if data_fault(hash, data.last(), states[data.len() - 1]) is Some {
        data_fault(hash, data.last(), states[data.len() - 1])
    } else {
        reported(hash, data.drop_last(), states)
    }
}

/// Whether some payload cannot be loaded at all.
pub open spec fn unloadable(data: Seq<ImmutableData>, states: Seq<PayloadState>) -> bool {
    exists|i: int|
        0 <= i < data.len() && (#[trigger] data[i]).pack_file != 0 && states[i]
            == PayloadState::Unreadable
}

/// Whether an entry refers to one of the failed payloads of a hash.
pub open spec fn is_failed(
    e: ImmutableStoreEntry,
    hash: crate::types::Hash,
    failed: Seq<ImmutableData>,
) -> bool {
    e.address.hash == hash && exists|i: int|
        0 <= i < failed.len() && (#[trigger] failed[i]).pack_file == e.data.pack_file
            && failed[i].pack_offset == e.data.pack_offset
}

/// An entry without the payload that failed.
pub open spec fn healed(
    e: ImmutableStoreEntry,
    hash: crate::types::Hash,
    failed: Seq<ImmutableData>,
) -> ImmutableStoreEntry {
    if is_failed(e, hash, failed) {
        e.with_data(ImmutableData { pack_file: 0, pack_offset: 0, ..e.data })
    } else {
        e
    }
}

/// The matches of a check.
pub open spec fn matches_of(
    bucket: ImmutableStoreBucket,
    partition: Partition,
    address: Address,
    requested: StoreMatch,
) -> Seq<ImmutableStoreVerifyMatch> {
    checked_slots(bucket.slots(), partition, address, requested).map_values(
        |slot: int| match_at(bucket, slot),
    )
}

impl ImmutableStoreBucket {
    /// The match at a slot.
    fn verify_match(&self, slot: usize) -> (r: ImmutableStoreVerifyMatch)
        requires
            self.wf(),
            slot < self.slots().len(),
        ensures
            r == match_at(*self, slot as int),
    {
        let entry = self.at(slot);
        ImmutableStoreVerifyMatch {
            slot,
            index: self.sorted_index[slot] as usize,
            partition: entry.partition,
            address: entry.address,
            data: entry.data,
        }
    }

    /// The entries that a check of a fragment looks at.
    pub fn verify_matches(
        &self,
        partition: Partition,
        address: Address,
        requested: StoreMatch,
    ) -> (r: Result<Vec<ImmutableStoreVerifyMatch>, StoreError>)
        requires
            self.wf(),
        ensures
            check_hits(self.slots(), partition, address, requested) ==> r is Ok && r->Ok_0@
                == matches_of(*self, partition, address, requested),
            !check_hits(self.slots(), partition, address, requested) ==> r == Err::<
                Vec<ImmutableStoreVerifyMatch>,
                StoreError,
            >(StoreError::AddressNotFound(address)),
    {
        let ghost s = self.slots();
        let by_hash = requested == StoreMatch::MatchNone || requested == StoreMatch::MatchHash;
        let lookup_partition = if by_hash {
            Partition { value: 0 }
        } else {
            partition
        };
        let lookup_address = if requested == StoreMatch::MatchFull {
            address
        } else {
            Address { hash: address.hash, context: Context { value: 0 } }
        };
        let (match_slot, _, match_made) = self.lookup(lookup_partition, lookup_address, requested);
        if match_made == StoreMatch::MatchNone || match_made.weaker_than(requested) {
            return Err(StoreError::AddressNotFound(address));
        }
        let ghost view = |slot: int| match_at(*self, slot);
        let ghost goal = checked_slots(s, partition, address, requested);
        let mut matches: Vec<ImmutableStoreVerifyMatch> = Vec::new();
        matches.push(self.verify_match(match_slot));
        if requested == StoreMatch::MatchFull {
            assert(matches@ =~= goal.map_values(view));
            return Ok(matches);
        }
        let count: usize = self.sorted_index.len();
        // `below` counts the slots that are left below.
        let mut below: usize = match_slot;
        let mut above: usize = match_slot + 1;
        let ghost mut seen: Seq<int> = seq![match_slot as int];
        assert(matches@ =~= seen.map_values(view));
        while below > 0 || above < count
            invariant
                self.wf(),
                s == self.slots(),
                count == s.len(),
                below <= count,
                above <= count,
                view == (|slot: int| match_at(*self, slot)),
                goal == checked_slots(s, partition, address, requested),
                requested != StoreMatch::MatchFull,
                goal == seen + gather(s, partition, address, requested, below - 1, above as int),
                matches@ == seen.map_values(view),
            decreases below + count - above,
        {
            let ghost b = below > 0 && wanted(s[below - 1], partition, address, requested);
            let ghost a = above < count && wanted(s[above as int], partition, address, requested);
            let ghost before = seen;
            let ghost here = (if b { seq![below - 1] } else { Seq::empty() }) + (if a {
                seq![above as int]
            } else {
                Seq::empty()
            });
            if below > 0 {
                let entry = self.at(below - 1);
                let level = entry_match(&entry, &partition, &address);
                if requested != StoreMatch::MatchNone && !level.weaker_than(requested) {
                    matches.push(self.verify_match(below - 1));
                    below = below - 1;
                } else {
                    below = 0;
                }
            }
            if above < count {
                let entry = self.at(above);
                let level = entry_match(&entry, &partition, &address);
                if requested != StoreMatch::MatchNone && !level.weaker_than(requested) {
                    matches.push(self.verify_match(above));
                    above = above + 1;
                } else {
                    above = count;
                }
            }
            proof {
                seen = before + here;
                assert(matches@ =~= seen.map_values(view));
                assert(goal =~= seen + gather(
                    s,
                    partition,
                    address,
                    requested,
                    below - 1,
                    above as int,
                ));
            }
        }
        proof {
            assert(goal =~= seen);
        }
        Ok(matches)
    }

    /// Takes the failed payloads from the entries of a hash.
    pub fn heal_fragment(
        &mut self,
        hash: crate::types::Hash,
        failed: &Vec<ImmutableData>,
        dirty: &mut bool,
    )
        requires
            old(self).wf(),
        ensures
            final(self).wf(),
            final(self).slots() == old(self).slots().map_values(
                |e: ImmutableStoreEntry| healed(e, hash, failed@),
            ),
            *final(dirty),
            final(self).deserialized == old(self).deserialized,
            final(self).upgrade_packfile == old(self).upgrade_packfile,
            final(self).entry@.len() == old(self).entry@.len(),
    {
        let ghost s = self.slots();
        let ghost goal = s.map_values(|e: ImmutableStoreEntry| healed(e, hash, failed@));
        let count: usize = self.sorted_index.len();
        let mut slot: usize = 0;
        while slot < count
            invariant
                self.wf(),
                count == s.len() == goal.len(),
                self.slots().len() == count,
                self.entry@.len() == count,
                slot <= count,
                goal == s.map_values(|e: ImmutableStoreEntry| healed(e, hash, failed@)),
                forall|i: int| 0 <= i < slot ==> #[trigger] self.slots()[i] == goal[i],
                forall|i: int| slot <= i < count ==> #[trigger] self.slots()[i] == s[i],
                self.deserialized == old(self).deserialized,
                self.upgrade_packfile == old(self).upgrade_packfile,
            decreases count - slot,
        {
            let entry = self.at(slot);
            assert(entry == s[slot as int]);
            let mut hit = false;
            let mut i: usize = 0;
            if entry.address.hash == hash {
                while i < failed.len() && !hit
                    invariant
                        i <= failed@.len(),
                        entry.address.hash == hash,
                        hit ==> is_failed(entry, hash, failed@),
                        !hit ==> forall|k: int|
                            0 <= k < i ==> !((#[trigger] failed@[k]).pack_file
                                == entry.data.pack_file && failed@[k].pack_offset
                                == entry.data.pack_offset),
                    decreases failed@.len() - i, !hit as int,
                {
                    if failed[i].pack_file == entry.data.pack_file && failed[i].pack_offset
                        == entry.data.pack_offset {
                        assert(failed@[i as int].pack_file == entry.data.pack_file);
                        hit = true;
                    } else {
                        i = i + 1;
                    }
                }
            }
            assert(hit == is_failed(entry, hash, failed@));
            if hit {
                let mut data = entry.data;
                data.pack_file = 0;
                data.pack_offset = 0;
                self.set_data(slot, data);
            }
            slot = slot + 1;
        }
        assert(self.slots() =~= goal);
        *dirty = true;
    }
}

/// The data of the matches, each once.
pub fn distinct_data(matches: &Vec<ImmutableStoreVerifyMatch>) -> (r: Vec<ImmutableData>)
    ensures
        r@ == distinct(matches@),
{
    let mut data: Vec<ImmutableData> = Vec::new();
    let mut i: usize = 0;
    let n: usize = matches.len();
    while i < n
        invariant
            i <= n == matches@.len(),
            data@ == distinct(matches@.take(i as int)),
        decreases n - i,
    {
        let next = matches[i].data;
        proof {
            assert(matches@.take(i + 1).drop_last() =~= matches@.take(i as int));
        }
        let mut known = false;
        let mut k: usize = 0;
        while k < data.len() && !known
            invariant
                k <= data@.len(),
                known ==> data@.contains(next),
                !known ==> forall|m: int| 0 <= m < k ==> #[trigger] data@[m] != next,
            decreases data@.len() - k, !known as int,
        {
            if data[k] == next {
                assert(data@[k as int] == next);
                known = true;
            } else {
                k = k + 1;
            }
        }
        if !known {
            data.push(next);
        }
        i = i + 1;
    }
    assert(matches@.take(n as int) =~= matches@);
    data
}

/// Checks the payloads of a hash. Gives those that fail, and the fault to report. A payload that
/// cannot be loaded ends the check.
pub fn verify_payloads(
    hash: crate::types::Hash,
    data: &Vec<ImmutableData>,
    states: &Vec<PayloadState>,
) -> (r: Result<(Vec<ImmutableData>, Option<InternalError>), StoreError>)
    requires
        states@.len() == data@.len(),
    ensures
        unloadable(data@, states@) ==> r == Err::<
            (Vec<ImmutableData>, Option<InternalError>),
            StoreError,
        >(StoreError::Internal(InternalError::PackstoreRead)),
        !unloadable(data@, states@) ==> r is Ok && r->Ok_0.0@ == failing(hash, data@, states@)
            && r->Ok_0.1 == reported(hash, data@, states@),
{
    let mut failed: Vec<ImmutableData> = Vec::new();
    let mut fault: Option<InternalError> = None;
    let mut i: usize = 0;
    let n: usize = data.len();
    while i < n
        invariant
            i <= n == data@.len() == states@.len(),
            failed@ == failing(hash, data@.take(i as int), states@),
            fault == reported(hash, data@.take(i as int), states@),
            forall|k: int|
                0 <= k < i ==> !((#[trigger] data@[k]).pack_file != 0 && states@[k]
                    == PayloadState::Unreadable),
        decreases n - i,
    {
        proof {
            assert(data@.take(i + 1).drop_last() =~= data@.take(i as int));
            assert(data@.take(i + 1).last() == data@[i as int]);
        }
        if data[i].pack_file != 0 {
            let entry = ImmutableStoreEntry {
                address: Address { hash, context: Context { value: 0 } },
                partition: Partition { value: 0 },
                data: data[i],
            };
            if states[i] == PayloadState::Unreadable {
                assert(data@[i as int].pack_file != 0);
                return Err(StoreError::Internal(InternalError::PackstoreRead));
            }
            let found = check_payload(&entry, states[i]);
            if found.is_some() {
                failed.push(data[i]);
                fault = found;
            }
        }
        i = i + 1;
    }
    assert(data@.take(n as int) =~= data@);
    Ok((failed, fault))
}

/// Every wanted slot next to the gap, with wanted slots between, is gathered.
proof fn lemma_gather(
    s: Seq<ImmutableStoreEntry>,
    partition: Partition,
    address: Address,
    requested: StoreMatch,
    below: int,
    above: int,
    slot: int,
)
    requires
        -1 <= below < s.len(),
        0 <= above <= s.len(),
        0 <= slot <= below && (forall|k: int|
            slot <= k <= below ==> wanted(#[trigger] s[k], partition, address, requested))
            || above <= slot < s.len() && (forall|k: int|
            above <= k <= slot ==> wanted(#[trigger] s[k], partition, address, requested)),
    ensures
        gather(s, partition, address, requested, below, above).contains(slot),
    decreases below + 1 + s.len() - above,
{
    let b = below >= 0 && wanted(s[below], partition, address, requested);
    let a = above < s.len() && wanted(s[above], partition, address, requested);
    let here = (if b { seq![below] } else { Seq::empty() }) + (if a {
        seq![above]
    } else {
        Seq::empty()
    });
    let rest = gather(
        s,
        partition,
        address,
        requested,
        if b { below - 1 } else { -1 },
        if a { above + 1 } else { s.len() as int },
    );
    let all = here + rest;
    if slot == below {
        assert(all[0] == slot);
    } else if slot == above {
        assert(all[here.len() - 1] == slot);
    } else {
        lemma_gather(
            s,
            partition,
            address,
            requested,
            if b { below - 1 } else { -1 },
            if a { above + 1 } else { s.len() as int },
            slot,
        );
        let w = choose|w: int| 0 <= w < rest.len() && rest[w] == slot;
        assert(all[here.len() + w] == slot);
    }
}

/// What is gathered is wanted, lies outside the gap, and is gathered once.
proof fn lemma_gathered_once(
    s: Seq<ImmutableStoreEntry>,
    partition: Partition,
    address: Address,
    requested: StoreMatch,
    below: int,
    above: int,
)
    requires
        -1 <= below < above <= s.len(),
        below < s.len(),
    ensures
        ({
            let all = gather(s, partition, address, requested, below, above);
            &&& all.no_duplicates()
            &&& forall|i: int|
                0 <= i < all.len() ==> {
                    &&& 0 <= #[trigger] all[i] <= below || above <= all[i] < s.len()
                    &&& wanted(s[all[i]], partition, address, requested)
                }
        }),
    decreases below + 1 + s.len() - above,
{
    if !(below < 0 && above >= s.len()) {
        let b = below >= 0 && wanted(s[below], partition, address, requested);
        let a = above < s.len() && wanted(s[above], partition, address, requested);
        let here = (if b { seq![below] } else { Seq::empty() }) + (if a {
            seq![above]
        } else {
            Seq::empty()
        });
        let lower = if b { below - 1 } else { -1 };
        let upper = if a { above + 1 } else { s.len() as int };
        let rest = gather(s, partition, address, requested, lower, upper);
        lemma_gathered_once(s, partition, address, requested, lower, upper);
        let all = here + rest;
        assert forall|i: int| 0 <= i < all.len() implies {
            &&& 0 <= #[trigger] all[i] <= below || above <= all[i] < s.len()
            &&& wanted(s[all[i]], partition, address, requested)
        } by {
            if i >= here.len() {
                assert(all[i] == rest[i - here.len()]);
            }
        }
        assert forall|i: int, j: int| 0 <= i < j < all.len() implies all[i] != all[j] by {
            if j >= here.len() {
                assert(all[j] == rest[j - here.len()]);
                if i >= here.len() {
                    assert(all[i] == rest[i - here.len()]);
                }
            }
        }
    }
}

/// A check that was asked for something looks at every entry that it was asked for, at each once, and
/// at no other. It hits exactly if there is one.
pub proof fn law_check_misses_no_entry(
    s: Seq<ImmutableStoreEntry>,
    partition: Partition,
    address: Address,
    requested: StoreMatch,
)
    requires
        sorted(s),
        requested != StoreMatch::MatchNone,
    ensures
        check_hits(s, partition, address, requested) <==> exists|slot: int|
            0 <= slot < s.len() && wanted(#[trigger] s[slot], partition, address, requested),
        check_hits(s, partition, address, requested) ==> {
            let all = checked_slots(s, partition, address, requested);
            &&& all.no_duplicates()
            &&& forall|slot: int| #[trigger]
                all.contains(slot) <==> 0 <= slot < s.len() && wanted(
                    s[slot],
                    partition,
                    address,
                    requested,
                )
        },
{
    let p = lookup_partition(partition, requested);
    let a = lookup_address(address, requested);
    law_lookup_finds_the_best_match(s, p, a, requested);
    let (at, insert, made) = found(s, p, a, requested);
    if exists|slot: int|
        0 <= slot < s.len() && wanted(#[trigger] s[slot], partition, address, requested) {
        let slot = choose|slot: int|
            0 <= slot < s.len() && wanted(#[trigger] s[slot], partition, address, requested);
        lemma_check_reaches(s, partition, address, requested, slot);
    }
    if check_hits(s, partition, address, requested) {
        assert(wanted(s[at], partition, address, requested));
        let all = checked_slots(s, partition, address, requested);
        let rest = gather(s, partition, address, requested, at - 1, at + 1);
        lemma_gathered_once(s, partition, address, requested, at - 1, at + 1);
        assert forall|i: int| 0 <= i < all.len() implies 0 <= #[trigger] all[i] < s.len() && wanted(
            s[all[i]],
            partition,
            address,
            requested,
        ) && (i > 0 ==> all[i] != at) by {
            if i > 0 {
                assert(all[i] == rest[i - 1]);
            }
        }
        assert forall|i: int, j: int| 0 <= i < j < all.len() implies all[i] != all[j] by {
            if i > 0 {
                assert(all[i] == rest[i - 1] && all[j] == rest[j - 1]);
            }
        }
        assert forall|slot: int| #[trigger] all.contains(slot) <==> 0 <= slot < s.len() && wanted(
            s[slot],
            partition,
            address,
            requested,
        ) by {
            if 0 <= slot < s.len() && wanted(s[slot], partition, address, requested) {
                lemma_check_reaches(s, partition, address, requested, slot);
            }
        }
    }
}

/// A check looks at an entry that it was asked for.
proof fn lemma_check_reaches(
    s: Seq<ImmutableStoreEntry>,
    partition: Partition,
    address: Address,
    requested: StoreMatch,
    slot: int,
)
    requires
        sorted(s),
        0 <= slot < s.len(),
        wanted(s[slot], partition, address, requested),
    ensures
        check_hits(s, partition, address, requested),
        checked_slots(s, partition, address, requested).contains(slot),
{
    let p = lookup_partition(partition, requested);
    let a = lookup_address(address, requested);
    law_lookup_finds_the_best_match(s, p, a, requested);
    let (at, insert, made) = found(s, p, a, requested);
    assert(capped(match_of(s[slot], p, a), requested).rank() <= made.rank());
    assert(wanted(s[at], partition, address, requested));
    let all = checked_slots(s, partition, address, requested);
    if slot == at {
        assert(all[0] == slot);
    } else if requested == StoreMatch::MatchFull {
        if slot < at {
            assert(s[slot].key().before(s[at].key()));
        } else {
            assert(s[at].key().before(s[slot].key()));
        }
    } else {
        assert forall|k: int| slot <= k < at || at < k <= slot implies wanted(
            #[trigger] s[k],
            partition,
            address,
            requested,
        ) by {
            if k < at {
                assert(s[k].key().before(s[at].key()));
                if slot < k {
                    assert(s[slot].key().before(s[k].key()));
                }
            } else {
                assert(s[at].key().before(s[k].key()));
                if k < slot {
                    assert(s[k].key().before(s[slot].key()));
                }
            }
        }
        lemma_gather(s, partition, address, requested, at - 1, at + 1, slot);
        let rest = gather(s, partition, address, requested, at - 1, at + 1);
        let w = choose|w: int| 0 <= w < rest.len() && rest[w] == slot;
        assert(all[1 + w] == slot);
    }
}

impl LocalImmutableStore {
    /// Starts a check of one fragment: gives what is known of it, and the payloads to load. Only a
    /// store on disk can be checked.
    pub fn verify_fragment(
        &self,
        address: Address,
        partition: Partition,
        match_requested: StoreMatch,
    ) -> (r: Step<Result<(ImmutableStoreVerifyResult, Vec<ImmutableData>), StoreError>>)
        requires
            self.wf(),
        ensures
            match r {
                Step::LoadBucket { group, bucket } => {
                    &&& self.unread(address.hash)
                    &&& group == address.hash.first_byte()
                    &&& bucket == self.group_of(address.hash).home(address.hash)
                },
                Step::Done(result) => {
                    let g = self.group_of(address.hash);
                    let b = g.home(address.hash);
                    let hits = check_hits(
                        g.bucket@[b].slots(),
                        partition,
                        address,
                        match_requested,
                    );
                    if !self.on_disk {
                        result == Err::<
                            (ImmutableStoreVerifyResult, Vec<ImmutableData>),
                            StoreError,
                        >(StoreError::Internal(InternalError::NoPath))
                    } else if !hits {
                        !self.unread(address.hash) && result == Err::<
                            (ImmutableStoreVerifyResult, Vec<ImmutableData>),
                            StoreError,
                        >(StoreError::AddressNotFound(address))
                    } else {
                        &&& !self.unread(address.hash)
                        &&& result is Ok
                        &&& result->Ok_0.0.hash == (crate::types::Hash { high: 0, low: 0 })
                        &&& result->Ok_0.0.partition.value == 0
                        &&& result->Ok_0.0.context.value == 0
                        &&& result->Ok_0.0.group_index == address.hash.first_byte()
                        &&& result->Ok_0.0.bucket_index == b
                        &&& result->Ok_0.0.index_path@ == bucket_path(address.hash.first_byte(), b)
                        &&& result->Ok_0.0.entry_count == g.bucket@[b].entry@.len()
                        &&& result->Ok_0.0.matches@ == matches_of(
                            g.bucket@[b],
                            partition,
                            address,
                            match_requested,
                        )
                        &&& result->Ok_0.1@ == distinct(result->Ok_0.0.matches@)
                        &&& result->Ok_0.0.packfile_entry_count == result->Ok_0.1@.len()
                        &&& result->Ok_0.0.verification_result is Ok
                        &&& !result->Ok_0.0.healed
                    }
                },
            },
    {
        if !self.on_disk {
            return Step::Done(Err(StoreError::Internal(InternalError::NoPath)));
        }
        let g: usize = address.hash.group_index();
        assert(self.group@[g as int].wf());
        let b: usize = bucket_index_for(&address.hash, self.group[g].bucket_count);
        if !self.group[g].bucket[b].deserialized {
            return Step::LoadBucket { group: g, bucket: b };
        }
        assert(self.group@[g as int].bucket@[b as int].wf());
        match self.group[g].bucket[b].verify_matches(partition, address, match_requested) {
            Err(e) => Step::Done(Err(e)),
            Ok(matches) => {
                let data = distinct_data(&matches);
                let result = ImmutableStoreVerifyResult {
                    hash: crate::types::Hash::zero(),
                    partition: Partition { value: 0 },
                    context: Context { value: 0 },
                    group_index: g,
                    bucket_index: b,
                    index_path: format_bucket_path(g, b),
                    entry_count: self.group[g].bucket[b].entry.len(),
                    packfile_entry_count: data.len(),
                    matches,
                    verification_result: Ok(()),
                    healed: false,
                };
                Step::Done(Ok((result, data)))
            },
        }
    }

    /// Ends a check of one fragment: `states` says what came of loading each payload. Where `heal`
    /// is set, the entries of the hash lose the payloads that fail.
    pub fn verify_fragment_payloads(
        &mut self,
        address: Address,
        data: &Vec<ImmutableData>,
        states: &Vec<PayloadState>,
        heal: bool,
        result: ImmutableStoreVerifyResult,
    ) -> (r: Result<ImmutableStoreVerifyResult, StoreError>)
        requires
            old(self).wf(),
            states@.len() == data@.len(),
        ensures
            final(self).wf(),
            ({
                let failed = failing(address.hash, data@, states@);
                let heals = heal && failed.len() > 0;
                let s = old(self).slots_of(address.hash);
                if unloadable(data@, states@) {
                    &&& r == Err::<ImmutableStoreVerifyResult, StoreError>(
                        StoreError::Internal(InternalError::PackstoreRead),
                    )
                    &&& *final(self) == *old(self)
                } else {
                    &&& r == Ok::<ImmutableStoreVerifyResult, StoreError>(
                        ImmutableStoreVerifyResult {
                            verification_result: match reported(address.hash, data@, states@) {
                                Some(e) => Err(e),
                                None => result.verification_result,
                            },
                            healed: result.healed || heals,
                            ..result
                        },
                    )
                    &&& !heals ==> *final(self) == *old(self)
                    &&& heals ==> {
                        &&& *final(self) == (LocalImmutableStore {
                            group: final(self).group,
                            ..*old(self)
                        })
                        &&& final(self).group@ == old(self).group@.update(
                            address.hash.first_byte(),
                            final(self).group_of(address.hash),
                        )
                        &&& bucket_updated(
                            old(self).group_of(address.hash),
                            final(self).group_of(address.hash),
                            old(self).group_of(address.hash).home(address.hash),
                            s.map_values(
                                |e: ImmutableStoreEntry| healed(e, address.hash, failed),
                            ),
                            true,
                        )
                    }
                }
            }),
    {
        let (failed, fault) = match verify_payloads(address.hash, data, states) {
            Err(e) => {
                return Err(e);
            },
            Ok(checked) => checked,
        };
        let mut result = result;
        if let Some(e) = fault {
            result.verification_result = Err(e);
        }
        if heal && failed.len() > 0 {
            let g: usize = address.hash.group_index();
            assert(self.group@[g as int].wf());
            let group = &mut self.group[g];
            group.heal_fragment(address.hash, &failed);
            result.healed = true;
        }
        Ok(result)
    }
}

impl ImmutableStoreGroup {
    /// Takes the failed payloads from the entries of a hash.
    pub fn heal_fragment(&mut self, hash: crate::types::Hash, failed: &Vec<ImmutableData>)
        requires
            old(self).wf(),
        ensures
            final(self).wf(),
            bucket_updated(
                *old(self),
                *final(self),
                old(self).home(hash),
                old(self).home_slots(hash).map_values(
                    |e: ImmutableStoreEntry| healed(e, hash, failed@),
                ),
                true,
            ),
    {
        let b: usize = bucket_index_for(&hash, self.bucket_count);
        self.touched.set(b, true);
        let mut dirty = self.dirty[b];
        let bucket = &mut self.bucket[b];
        bucket.heal_fragment(hash, failed, &mut dirty);
        self.dirty.set(b, dirty);
        proof {
            let s = old(self).home_slots(hash);
            let after = s.map_values(|e: ImmutableStoreEntry| healed(e, hash, failed@));
            assert forall|i: int| 0 <= i < after.len() implies crate::local::group::bucket_of(
                (#[trigger] after[i]).address.hash,
                self.bucket_count as int,
            ) == b by {
                assert(crate::local::group::bucket_of(
                    s[i].address.hash,
                    self.bucket_count as int,
                ) == b);
            }
            lemma_group_still_wf(*old(self), *self, b as int, after, dirty);
        }
    }
}

/// A healed fragment keeps its entries: they lose no more than the payload that failed.
pub proof fn law_healing_a_fragment_keeps_its_entries(
    e: ImmutableStoreEntry,
    hash: crate::types::Hash,
    failed: Seq<ImmutableData>,
)
    ensures
        healed(e, hash, failed).key() == e.key(),
        healed(e, hash, failed).data.flags == e.data.flags,
        healed(e, hash, failed).data.size_content == e.data.size_content,
        !is_failed(e, hash, failed) ==> healed(e, hash, failed) == e,
{
}

/// An entry is wanted exactly if it has as much of the address as was asked for: the hash, the hash
/// and the partition, or all of it.
pub proof fn law_wanted_entries_match_the_request(
    e: ImmutableStoreEntry,
    partition: Partition,
    address: Address,
    requested: StoreMatch,
)
    requires
        requested != StoreMatch::MatchNone,
    ensures
        wanted(e, partition, address, requested) <==> crate::local::read_laws::matches_as(
            e,
            partition,
            address,
            requested,
        ),
{
}

/// Every payload of the matches is checked, and is so once.
pub proof fn law_each_payload_is_checked_once(matches: Seq<ImmutableStoreVerifyMatch>)
    ensures
        forall|d: ImmutableData| #[trigger]
            distinct(matches).contains(d) <==> exists|i: int|
                0 <= i < matches.len() && (#[trigger] matches[i]).data == d,
        distinct(matches).no_duplicates(),
    decreases matches.len(),
{
    if matches.len() > 0 {
        let head = matches.drop_last();
        let n = matches.len() - 1;
        law_each_payload_is_checked_once(head);
        let before = distinct(head);
        let after = distinct(matches);
        assert(matches[n] == matches.last());
        assert forall|d: ImmutableData| #[trigger] after.contains(d) <==> exists|i: int|
            0 <= i < matches.len() && (#[trigger] matches[i]).data == d by {
            if !before.contains(matches.last().data) {
                assert(after[before.len() as int] == matches.last().data);
            }
            if before.contains(d) {
                let i = choose|i: int| 0 <= i < head.len() && (#[trigger] head[i]).data == d;
                assert(matches[i].data == d);
                let k = choose|k: int| 0 <= k < before.len() && before[k] == d;
                assert(after[k] == d);
            }
            if exists|i: int| 0 <= i < matches.len() && (#[trigger] matches[i]).data == d {
                let i = choose|i: int| 0 <= i < matches.len() && (#[trigger] matches[i]).data == d;
                if i < n {
                    assert(head[i].data == d);
                    assert(before.contains(d));
                }
            }
        }
    }
}

/// Whether a payload failed its check: it is held locally, and could not be read, could not be
/// unpacked, or has the content of another hash.
pub open spec fn fails_check(
    hash: crate::types::Hash,
    data: ImmutableData,
    state: PayloadState,
) -> bool {
    data.pack_file != 0 && !(state is Content && state->hash == hash)
}

/// A check reports a fault exactly if some payload failed, and gives back all that failed and no
/// other.
pub proof fn law_every_failure_is_reported(
    hash: crate::types::Hash,
    data: Seq<ImmutableData>,
    states: Seq<PayloadState>,
)
    ensures
        forall|d: ImmutableData| #[trigger]
            failing(hash, data, states).contains(d) <==> exists|i: int|
                0 <= i < data.len() && #[trigger] data[i] == d && fails_check(hash, d, states[i]),
        reported(hash, data, states) is Some <==> exists|i: int|
            0 <= i < data.len() && fails_check(hash, #[trigger] data[i], states[i]),
        reported(hash, data, states) is Some ==> failing(hash, data, states).len() > 0,
        failing(hash, data, states).len() <= data.len(),
    decreases data.len(),
{
    if data.len() > 0 {
        let head = data.drop_last();
        let n = data.len() - 1;
        law_every_failure_is_reported(hash, head, states);
        let before = failing(hash, head, states);
        let after = failing(hash, data, states);
        assert(data[n] == data.last());
        assert(data_fault(hash, data[n], states[n]) is Some <==> fails_check(
            hash,
            data[n],
            states[n],
        ));
        assert forall|d: ImmutableData| #[trigger] after.contains(d) <==> exists|i: int|
            0 <= i < data.len() && #[trigger] data[i] == d && fails_check(hash, d, states[i]) by {
            if fails_check(hash, data[n], states[n]) {
                assert(after[before.len() as int] == data[n]);
            }
            if before.contains(d) {
                let i = choose|i: int|
                    0 <= i < head.len() && #[trigger] head[i] == d && fails_check(
                        hash,
                        d,
                        states[i],
                    );
                assert(data[i] == d);
                let k = choose|k: int| 0 <= k < before.len() && before[k] == d;
                assert(after[k] == d);
            }
            if exists|i: int|
                0 <= i < data.len() && #[trigger] data[i] == d && fails_check(hash, d, states[i]) {
                let i = choose|i: int|
                    0 <= i < data.len() && #[trigger] data[i] == d && fails_check(
                        hash,
                        d,
                        states[i],
                    );
                if i < n {
                    assert(head[i] == d);
                    assert(before.contains(d));
                }
            }
            if after.contains(d) && !before.contains(d) {
                let k = choose|k: int| 0 <= k < after.len() && after[k] == d;
                if k < before.len() {
                    assert(before[k] == d);
                }
                assert(data[n] == d);
            }
        }
        if exists|i: int| 0 <= i < data.len() && fails_check(hash, #[trigger] data[i], states[i]) {
            let i = choose|i: int|
                0 <= i < data.len() && fails_check(hash, #[trigger] data[i], states[i]);
            if i < n {
                assert(head[i] == data[i]);
            }
        }
        if reported(hash, head, states) is Some {
            let i = choose|i: int|
                0 <= i < head.len() && fails_check(hash, #[trigger] head[i], states[i]);
            assert(data[i] == head[i]);
        }
    }
}

/// Healing takes the payload from every entry of the hash whose payload failed, wherever else it is
/// used, and from no other. It takes nothing else.
pub proof fn law_healing_takes_failed_payloads(
    e: ImmutableStoreEntry,
    hash: crate::types::Hash,
    failed: Seq<ImmutableData>,
)
    ensures
        ({
            let after = healed(e, hash, failed);
            let goes = e.address.hash == hash && exists|i: int|
                0 <= i < failed.len() && (#[trigger] failed[i]).pack_file == e.data.pack_file
                    && failed[i].pack_offset == e.data.pack_offset;
            &&& goes ==> after.data.pack_file == 0 && after.data.pack_offset == 0
            &&& !goes ==> after == e
            &&& after == e.with_data(
                ImmutableData {
                    pack_file: after.data.pack_file,
                    pack_offset: after.data.pack_offset,
                    ..e.data
                },
            )
        }),
{
}

/// A check fails as a whole exactly if some payload that is held locally cannot be read.
pub proof fn law_unreadable_payloads_fail_the_check(
    data: Seq<ImmutableData>,
    states: Seq<PayloadState>,
)
    ensures
        unloadable(data, states) <==> exists|i: int|
            0 <= i < data.len() && states[i] is Unreadable && (#[trigger] data[i]).pack_file != 0,
{
}

} // verus!
