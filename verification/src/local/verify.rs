//! Checking that payloads have the hash they are filed under, and healing what fails.
use vstd::prelude::*;

use crate::error::{InternalError, StoreError};
use crate::local::bucket::ImmutableStoreBucket;
use crate::local::data::{ImmutableData, ImmutableStoreEntry};
use crate::types::PAYLOAD_COMPRESSED;

verus! {

/// What came of loading a payload and, where it is compressed, of unpacking it.
#[derive(Clone, Copy, Debug, PartialEq, Eq, Structural)]
pub enum PayloadState {
    /// The payload could not be loaded.
    Unreadable,
    /// The payload was loaded and could not be unpacked.
    Undecodable,
    /// The content has this length and this hash.
    Content { length: u64, hash: crate::types::Hash },
}

/// Whether a payload is compressed.
pub open spec fn is_compressed(data: ImmutableData) -> bool {
    data.flags & PAYLOAD_COMPRESSED != 0
}

/// What is wrong with the payload of an entry.
pub open spec fn payload_fault(e: ImmutableStoreEntry, state: PayloadState) -> Option<
    InternalError,
> {
    match state {
        PayloadState::Unreadable => Some(InternalError::PackstoreRead),
        PayloadState::Undecodable => Some(InternalError::DecompressionFailed),
        PayloadState::Content { length, hash } => if hash != e.address.hash {
            Some(InternalError::HashMismatch)
        } else {
            None
        },
    }
}

/// Whether a scan of the whole store takes an entry for damaged. Unpacked content must also have
/// the length that the entry records.
pub open spec fn is_damaged(e: ImmutableStoreEntry, state: PayloadState) -> bool {
    ||| payload_fault(e, state) is Some
    ||| is_compressed(e.data) && state is Content && state->length != e.data.size_content
}

/// The entries with a payload that a scan takes for damaged, in the order of the table.
pub open spec fn damaged(
    entry: Seq<ImmutableStoreEntry>,
    states: Seq<PayloadState>,
) -> Seq<ImmutableStoreEntry>
    decreases entry.len(),
{
    if entry.len() == 0 {
        Seq::empty()
    } else {
        let rest = damaged(entry.drop_last(), states);
        let e = entry.last();
        if e.data.pack_file != 0 && is_damaged(e, states[entry.len() - 1]) {
            rest.push(e)
        } else {
            rest
        }
    }
}

/// How many entries have a payload.
pub open spec fn with_payload(entry: Seq<ImmutableStoreEntry>) -> int
    decreases entry.len(),
{
    if entry.len() == 0 {
        0
    } else {
        with_payload(entry.drop_last()) + if entry.last().data.pack_file != 0 {
            1int
        } else {
            0
        }
    }
}

/// Whether an entry is an instance of a failed payload.
pub open spec fn same_payload(
    e: ImmutableStoreEntry,
    hash: crate::types::Hash,
    data: ImmutableData,
) -> bool {
    e.address.hash == hash && e.data.pack_file == data.pack_file && e.data.pack_offset
        == data.pack_offset
}

/// Whether the payload of an entry lies across that of another in one pack file.
pub open spec fn overlaps(a: ImmutableData, b: ImmutableData) -> bool {
    &&& a.pack_file == b.pack_file
    &&& a.pack_offset < b.pack_offset + b.size_payload
    &&& b.pack_offset < a.pack_offset + a.size_payload
}

/// What a check of one payload finds wrong.
pub fn check_payload(e: &ImmutableStoreEntry, state: PayloadState) -> (r: Option<InternalError>)
    ensures
        r == payload_fault(*e, state),
{
    match state {
        PayloadState::Unreadable => Some(InternalError::PackstoreRead),
        PayloadState::Undecodable => Some(InternalError::DecompressionFailed),
        PayloadState::Content { length: _, hash } => if hash != e.address.hash {
            Some(InternalError::HashMismatch)
        } else {
            None
        },
    }
}

/// The entries of a bucket that `hash` and a place fit, gone.
pub open spec fn without_payload(
    s: Seq<ImmutableStoreEntry>,
    hash: crate::types::Hash,
    data: ImmutableData,
) -> Seq<ImmutableStoreEntry> {
    s.filter(|e: ImmutableStoreEntry| !same_payload(e, hash, data))
}

/// What a check of a bucket keeps in mind: the last payload that it looked at.
pub struct LastChecked {
    pub hash: crate::types::Hash,
    pub pack_file: u32,
    pub pack_offset: u32,
}

/// Whether the entry shares the payload that was looked at last, or has none.
pub open spec fn checked_already(e: ImmutableStoreEntry, last: LastChecked) -> bool {
    ||| e.address.hash == last.hash && e.data.pack_file == last.pack_file && e.data.pack_offset
        == last.pack_offset
    ||| e.data.pack_file == 0
}

/// The first fault that a check of a bucket finds, slot by slot.
pub open spec fn first_fault(
    s: Seq<ImmutableStoreEntry>,
    states: Seq<PayloadState>,
    from: int,
    last: LastChecked,
) -> Option<InternalError>
    decreases s.len() - from,
{
    if from >= s.len() {
        None
    } else if checked_already(s[from], last) {
        first_fault(s, states, from + 1, last)
    } else if payload_fault(s[from], states[from]) is Some {
        payload_fault(s[from], states[from])
    } else {
        first_fault(
            s,
            states,
            from + 1,
            LastChecked {
                hash: s[from].address.hash,
                pack_file: s[from].data.pack_file,
                pack_offset: s[from].data.pack_offset,
            },
        )
    }
}

impl ImmutableStoreBucket {
    /// Checks the payloads of the bucket in the order of the slots, each payload once. `states`
    /// says slot by slot what came of loading.
    pub fn verify_store(&self, states: &Vec<PayloadState>) -> (r: Result<(), StoreError>)
        requires
            self.wf(),
            states@.len() == self.slots().len(),
        ensures
            r == match first_fault(
                self.slots(),
                states@,
                0,
                LastChecked {
                    hash: crate::types::Hash { high: 0, low: 0 },
                    pack_file: 0,
                    pack_offset: 0,
                },
            ) {
                Some(e) => Err::<(), StoreError>(StoreError::Internal(e)),
                None => Ok(()),
            },
    {
        let ghost s = self.slots();
        let count: usize = self.sorted_index.len();
        let mut last = LastChecked {
            hash: crate::types::Hash::zero(),
            pack_file: 0,
            pack_offset: 0,
        };
        let ghost first = last;
        let mut slot: usize = 0;
        while slot < count
            invariant
                self.wf(),
                s == self.slots(),
                count == s.len() == states@.len(),
                slot <= count,
                first == (LastChecked {
                    hash: crate::types::Hash { high: 0, low: 0 },
                    pack_file: 0,
                    pack_offset: 0,
                }),
                first_fault(s, states@, 0, first) == first_fault(s, states@, slot as int, last),
            decreases count - slot,
        {
            let entry = self.at(slot);
            let shared = entry.address.hash == last.hash && entry.data.pack_file == last.pack_file
                && entry.data.pack_offset == last.pack_offset;
            if !shared && entry.data.pack_file != 0 {
                if let Some(e) = check_payload(&entry, states[slot]) {
                    return Err(StoreError::Internal(e));
                }
                last = LastChecked {
                    hash: entry.address.hash,
                    pack_file: entry.data.pack_file,
                    pack_offset: entry.data.pack_offset,
                };
            }
            slot = slot + 1;
        }
        Ok(())
    }

    /// Scans the payloads of the bucket in the order of the table. Returns the entries that are
    /// damaged and how many payloads are in order. `states` says entry by entry what came of
    /// loading.
    pub fn scan(&self, states: &Vec<PayloadState>) -> (r: (Vec<ImmutableStoreEntry>, usize))
        requires
            states@.len() == self.entry@.len(),
        ensures
            r.0@ == damaged(self.entry@, states@),
            r.1 == with_payload(self.entry@) - damaged(self.entry@, states@).len(),
    {
        let mut failed: Vec<ImmutableStoreEntry> = Vec::new();
        let mut verified: usize = 0;
        let n: usize = self.entry.len();
        let mut i: usize = 0;
        while i < n
            invariant
                i <= n == self.entry@.len() == states@.len(),
                failed@ == damaged(self.entry@.take(i as int), states@),
                verified == with_payload(self.entry@.take(i as int)) - failed@.len(),
                verified <= i,
            decreases n - i,
        {
            let entry = self.entry[i];
            proof {
                assert(self.entry@.take(i + 1).drop_last() =~= self.entry@.take(i as int));
                assert(self.entry@.take(i + 1).last() == entry);
            }
            if entry.data.pack_file != 0 {
                let wrong_length = match states[i] {
                    PayloadState::Content { length, hash: _ } => entry.data.flags
                        & PAYLOAD_COMPRESSED != 0 && length != entry.data.size_content,
                    _ => false,
                };
                if check_payload(&entry, states[i]).is_some() || wrong_length {
                    failed.push(entry);
                } else {
                    verified = verified + 1;
                }
            }
            i = i + 1;
        }
        assert(self.entry@.take(n as int) =~= self.entry@);
        (failed, verified)
    }

    /// The slots of other entries whose payload lies across a failed one.
    pub fn overlapping(&self, hash: crate::types::Hash, data: ImmutableData) -> (r: Vec<usize>)
        requires
            self.wf(),
        ensures
            forall|i: int|
                0 <= i < r@.len() ==> (#[trigger] r@[i]) < self.slots().len() && overlaps(
                    self.slots()[r@[i] as int].data,
                    data,
                ) && !same_payload(self.slots()[r@[i] as int], hash, data),
            forall|k: int|
                0 <= k < self.slots().len() && overlaps((#[trigger] self.slots()[k]).data, data)
                    && !same_payload(self.slots()[k], hash, data) ==> r@.contains(k as usize),
            forall|i: int, j: int| 0 <= i < j < r@.len() ==> r@[i] < r@[j],
    {
        let count: usize = self.sorted_index.len();
        let mut across: Vec<usize> = Vec::new();
        let mut slot: usize = 0;
        while slot < count
            invariant
                self.wf(),
                count == self.slots().len(),
                slot <= count,
                forall|i: int|
                    0 <= i < across@.len() ==> (#[trigger] across@[i]) < slot && overlaps(
                        self.slots()[across@[i] as int].data,
                        data,
                    ) && !same_payload(self.slots()[across@[i] as int], hash, data),
                forall|k: int|
                    0 <= k < slot && overlaps((#[trigger] self.slots()[k]).data, data)
                        && !same_payload(self.slots()[k], hash, data) ==> across@.contains(
                        k as usize,
                    ),
                forall|i: int, j: int| 0 <= i < j < across@.len() ==> across@[i] < across@[j],
            decreases count - slot,
        {
            let entry = self.at(slot);
            let same = entry.address.hash == hash && entry.data.pack_file == data.pack_file
                && entry.data.pack_offset == data.pack_offset;
            let ghost before = across@;
            if !same && entry.data.pack_file == data.pack_file && (entry.data.pack_offset as u64)
                < data.pack_offset as u64 + data.size_payload as u64 && (data.pack_offset as u64)
                < entry.data.pack_offset as u64 + entry.data.size_payload as u64 {
                across.push(slot);
                assert(across@[before.len() as int] == slot);
            }
            proof {
                assert forall|k: int|
                    0 <= k < slot + 1 && overlaps((#[trigger] self.slots()[k]).data, data)
                        && !same_payload(self.slots()[k], hash, data) implies across@.contains(
                    k as usize,
                ) by {
                    if k < slot {
                        assert(before.contains(k as usize));
                        let w = choose|w: int| 0 <= w < before.len() && before[w] == k as usize;
                        assert(across@[w] == k as usize);
                    }
                }
            }
            slot = slot + 1;
        }
        across
    }

    /// Drops the entries that have a failed payload.
    pub fn drop_failed(
        &mut self,
        hash: crate::types::Hash,
        data: ImmutableData,
        dirty: &mut bool,
    )
        requires
            old(self).wf(),
        ensures
            final(self).wf(),
            final(self).slots() == without_payload(old(self).slots(), hash, data),
            *final(dirty),
            final(self).deserialized == old(self).deserialized,
            final(self).upgrade_packfile == old(self).upgrade_packfile,
    {
        let ghost s = self.slots();
        let ghost pred = |e: ImmutableStoreEntry| !same_payload(e, hash, data);
        let count: usize = self.sorted_index.len();
        let mut keep: Vec<bool> = Vec::new();
        let mut slot: usize = 0;
        while slot < count
            invariant
                self.wf(),
                s == self.slots(),
                count == s.len(),
                slot <= count,
                keep@.len() == slot,
                pred == (|e: ImmutableStoreEntry| !same_payload(e, hash, data)),
                forall|i: int| 0 <= i < slot ==> #[trigger] keep@[i] == pred(s[i]),
            decreases count - slot,
        {
            let entry = self.at(slot);
            keep.push(
                !(entry.address.hash == hash && entry.data.pack_file == data.pack_file
                    && entry.data.pack_offset == data.pack_offset),
            );
            slot = slot + 1;
        }
        self.retain(&keep, Ghost(pred));
        *dirty = true;
    }
}

/// A payload is at fault exactly if it could not be loaded, could not be unpacked, or its content has
/// another hash than the address. It is damaged also if it is compressed and its content has another
/// length than is recorded.
pub proof fn law_sound_payloads_have_their_hash(e: ImmutableStoreEntry, state: PayloadState)
    ensures
        payload_fault(e, state) is None <==> state is Content && state->hash == e.address.hash,
        is_damaged(e, state) <==> !(state is Content && state->hash == e.address.hash && (
        e.data.flags & PAYLOAD_COMPRESSED != 0 ==> state->length == e.data.size_content)),
        state is Unreadable ==> payload_fault(e, state) == Some(InternalError::PackstoreRead),
        state is Undecodable ==> payload_fault(e, state) == Some(
            InternalError::DecompressionFailed,
        ),
        state is Content && state->hash != e.address.hash ==> payload_fault(e, state) == Some(
            InternalError::HashMismatch,
        ),
{
}

/// A scan finds every entry whose payload is damaged, and no other.
pub proof fn law_scan_finds_all_damage(
    entry: Seq<ImmutableStoreEntry>,
    states: Seq<PayloadState>,
    e: ImmutableStoreEntry,
)
    ensures
        damaged(entry, states).contains(e) <==> exists|i: int|
            0 <= i < entry.len() && #[trigger] entry[i] == e && e.data.pack_file != 0 && is_damaged(
                e,
                states[i],
            ),
    decreases entry.len(),
{
    if entry.len() > 0 {
        let head = entry.drop_last();
        let n = entry.len() - 1;
        law_scan_finds_all_damage(head, states, e);
        let rest = damaged(head, states);
        let all = damaged(entry, states);
        assert(entry[n] == entry.last());
        if rest.contains(e) {
            let i = choose|i: int|
                0 <= i < head.len() && #[trigger] head[i] == e && e.data.pack_file != 0
                    && is_damaged(e, states[i]);
            assert(entry[i] == e);
            let k = choose|k: int| 0 <= k < rest.len() && rest[k] == e;
            assert(all[k] == e);
        }
        if entry[n].data.pack_file != 0 && is_damaged(entry[n], states[n]) {
            assert(all[rest.len() as int] == entry[n]);
        }
        if exists|i: int|
            0 <= i < entry.len() && #[trigger] entry[i] == e && e.data.pack_file != 0
                && is_damaged(e, states[i]) {
            let i = choose|i: int|
                0 <= i < entry.len() && #[trigger] entry[i] == e && e.data.pack_file != 0
                    && is_damaged(e, states[i]);
            if i < n {
                assert(head[i] == e);
                assert(rest.contains(e));
            }
        }
        if all.contains(e) && !rest.contains(e) {
            let k = choose|k: int| 0 <= k < all.len() && all[k] == e;
            if k < rest.len() {
                assert(rest[k] == e);
            }
            assert(entry[n] == e);
        }
    }
}

/// A scan counts each entry with a payload once: as damaged, or as sound.
pub proof fn law_scan_counts_every_payload(
    a: Seq<ImmutableStoreEntry>,
    b: Seq<ImmutableStoreEntry>,
    states: Seq<PayloadState>,
)
    ensures
        with_payload(a + b) == with_payload(a) + with_payload(b),
        a.len() == 1 ==> with_payload(a) == if a[0].data.pack_file != 0 {
            1int
        } else {
            0
        },
        damaged(a, states).len() <= with_payload(a),
        (forall|i: int|
            0 <= i < a.len() && (#[trigger] a[i]).data.pack_file != 0 ==> is_damaged(
                a[i],
                states[i],
            )) ==> damaged(a, states).len() == with_payload(a),
    decreases b.len(), a.len(),
{
    if a.len() == 1 {
        reveal_with_fuel(with_payload, 2);
    }
    if a.len() > 0 {
        law_scan_counts_every_payload(a.drop_last(), Seq::empty(), states);
        let head = a.drop_last();
        assert(a[a.len() - 1] == a.last());
        if forall|i: int|
            0 <= i < a.len() && (#[trigger] a[i]).data.pack_file != 0 ==> is_damaged(
                a[i],
                states[i],
            ) {
            assert forall|i: int|
                0 <= i < head.len() && (#[trigger] head[i]).data.pack_file != 0 implies is_damaged(
                head[i],
                states[i],
            ) by {
                assert(a[i] == head[i]);
            }
        }
    }
    if b.len() == 0 {
        assert(a + b =~= a);
    } else {
        assert((a + b).drop_last() =~= a + b.drop_last());
        law_scan_counts_every_payload(a, b.drop_last(), states);
    }
}

/// Whether the payload of an entry was found to be sound: it, or one that lies at the same place and
/// has the same hash.
pub open spec fn found_sound(
    s: Seq<ImmutableStoreEntry>,
    states: Seq<PayloadState>,
    i: int,
) -> bool {
    exists|j: int|
        0 <= j <= i && same_payload(#[trigger] s[j], s[i].address.hash, s[i].data)
            && payload_fault(s[j], states[j]) is None
}

/// A verification that finds no fault has found every payload sound. A fault that it finds is that of
/// some payload.
pub proof fn law_verification_checks_every_payload(
    s: Seq<ImmutableStoreEntry>,
    states: Seq<PayloadState>,
)
    ensures
        ({
            let none = LastChecked {
                hash: crate::types::Hash { high: 0, low: 0 },
                pack_file: 0,
                pack_offset: 0,
            };
            match first_fault(s, states, 0, none) {
                None => forall|i: int|
                    0 <= i < s.len() && (#[trigger] s[i]).data.pack_file != 0 ==> found_sound(
                        s,
                        states,
                        i,
                    ),
                Some(fault) => exists|i: int|
                    0 <= i < s.len() && (#[trigger] s[i]).data.pack_file != 0 && payload_fault(
                        s[i],
                        states[i],
                    ) == Some(fault),
            }
        }),
{
    let none = LastChecked {
        hash: crate::types::Hash { high: 0, low: 0 },
        pack_file: 0,
        pack_offset: 0,
    };
    lemma_fault_from(s, states, 0, none);
}

/// What a verification has found from a slot on.
proof fn lemma_fault_from(
    s: Seq<ImmutableStoreEntry>,
    states: Seq<PayloadState>,
    from: int,
    last: LastChecked,
)
    requires
        0 <= from <= s.len(),
        last.pack_file == 0 || exists|j: int|
            0 <= j < from && (#[trigger] s[j]).address.hash == last.hash && s[j].data.pack_file
                == last.pack_file && s[j].data.pack_offset == last.pack_offset && payload_fault(
                s[j],
                states[j],
            ) is None,
    ensures
        match first_fault(s, states, from, last) {
            None => forall|i: int|
                from <= i < s.len() && (#[trigger] s[i]).data.pack_file != 0 ==> found_sound(
                    s,
                    states,
                    i,
                ),
            Some(fault) => exists|i: int|
                from <= i < s.len() && (#[trigger] s[i]).data.pack_file != 0 && payload_fault(
                    s[i],
                    states[i],
                ) == Some(fault),
        },
    decreases s.len() - from,
{
    if from < s.len() {
        let here = LastChecked {
            hash: s[from].address.hash,
            pack_file: s[from].data.pack_file,
            pack_offset: s[from].data.pack_offset,
        };
        if checked_already(s[from], last) {
            lemma_fault_from(s, states, from + 1, last);
            if s[from].data.pack_file != 0 {
                let j = choose|j: int|
                    0 <= j < from && (#[trigger] s[j]).address.hash == last.hash
                        && s[j].data.pack_file == last.pack_file && s[j].data.pack_offset
                        == last.pack_offset && payload_fault(s[j], states[j]) is None;
                assert(same_payload(s[j], s[from].address.hash, s[from].data));
                assert(found_sound(s, states, from));
            }
        } else if payload_fault(s[from], states[from]) is None {
            assert(same_payload(s[from], s[from].address.hash, s[from].data));
            assert(found_sound(s, states, from));
            lemma_fault_from(s, states, from + 1, here);
        }
    }
}

/// Dropping a payload that failed drops every entry that has it, and nothing else.
pub proof fn law_failed_payloads_are_dropped(
    s: Seq<ImmutableStoreEntry>,
    hash: crate::types::Hash,
    data: ImmutableData,
    e: ImmutableStoreEntry,
)
    ensures
        without_payload(s, hash, data).contains(e) <==> s.contains(e) && !(e.address.hash == hash
            && e.data.pack_file == data.pack_file && e.data.pack_offset == data.pack_offset),
{
    let pred = |e: ImmutableStoreEntry| !same_payload(e, hash, data);
    let after = without_payload(s, hash, data);
    if after.contains(e) {
        let j = choose|j: int| 0 <= j < after.len() && after[j] == e;
        s.lemma_filter_pred(pred, j);
        s.lemma_filter_contains_rev(pred, e);
    }
    if s.contains(e) && pred(e) {
        let i = choose|i: int| 0 <= i < s.len() && s[i] == e;
        s.lemma_filter_contains(pred, i);
    }
}

/// Payloads overlap exactly if some byte of a pack file is in both.
pub proof fn law_overlapping_payloads_share_a_byte(a: ImmutableData, b: ImmutableData)
    requires
        a.size_payload > 0,
        b.size_payload > 0,
    ensures
        overlaps(a, b) <==> a.pack_file == b.pack_file && exists|at: int|
            #![trigger in_payload(a, at)]
            in_payload(a, at) && in_payload(b, at),
        overlaps(a, b) <==> overlaps(b, a),
{
    if overlaps(a, b) {
        let at = if a.pack_offset < b.pack_offset {
            b.pack_offset as int
        } else {
            a.pack_offset as int
        };
        assert(in_payload(a, at) && in_payload(b, at));
    }
}

/// Whether a byte of a pack file is one of a payload.
pub open spec fn in_payload(data: ImmutableData, at: int) -> bool {
    data.pack_offset <= at < data.pack_offset + data.size_payload
}

} // verus!
