//! Moving the payloads that are still in use out of a pack file.
use vstd::prelude::*;

use crate::local::bucket::{sorted, ImmutableStoreBucket};
use crate::local::data::{ImmutableData, ImmutableStoreEntry};
use crate::types::{PackRef, PAYLOAD_STORED, PAYLOAD_STORED_DURABLE};

verus! {

/// Strictly increasing by hash.
pub open spec fn hashes_increase(s: Seq<ImmutableStoreEntry>) -> bool {
    forall|i: int, j: int| 0 <= i < j < s.len() ==> (#[trigger] s[i]).address.hash.before(
        (#[trigger] s[j]).address.hash,
    )
}

/// How many bytes the payloads of some entries have.
pub open spec fn payload_bytes(s: Seq<ImmutableStoreEntry>) -> int
    decreases s.len(),
{
    if s.len() == 0 {
        0
    } else {
        payload_bytes(s.drop_last()) + s.last().data.size_payload
    }
}

/// The pack files of some entries, each once, in the order in which they first appear.
pub open spec fn pack_files(s: Seq<ImmutableStoreEntry>) -> Seq<u32>
    decreases s.len(),
{
    if s.len() == 0 {
        Seq::empty()
    } else {
        let before = pack_files(s.drop_last());
        if before.contains(s.last().data.pack_file) {
            before
        } else {
            before.push(s.last().data.pack_file)
        }
    }
}

/// A walk over a bucket that rewrites the payloads of one pack file.
pub struct CompactionPass {
    /// The pack file to empty.
    pub packfile: u32,
    /// The slot to look at next.
    pub slot: usize,
    /// The hash whose payload was rewritten last.
    pub last_hash: crate::types::Hash,
    /// The entries whose payload was rewritten, with its new place.
    pub rewritten: Vec<ImmutableStoreEntry>,
    /// The bytes that were rewritten.
    pub compacted_size: u64,
    /// The pack files that were written to.
    pub packfiles_to_flush: Vec<u32>,
}

impl CompactionPass {
    /// Whether the walk passes over an entry: it lies in another pack file, or its payload was
    /// rewritten just before.
    pub open spec fn passes_over(self, e: ImmutableStoreEntry) -> bool {
        e.data.pack_file != self.packfile || e.address.hash == self.last_hash
    }

    /// What holds of a walk over the entries of a bucket.
    pub open spec fn wf(self, s: Seq<ImmutableStoreEntry>) -> bool {
        &&& self.slot <= s.len() <= u32::MAX
        &&& sorted(s)
        &&& hashes_increase(self.rewritten@)
        &&& self.rewritten@.len() <= self.slot
        &&& self.compacted_size == payload_bytes(self.rewritten@)
        &&& self.compacted_size <= self.rewritten@.len() * 0xffff_ffff
        &&& self.packfiles_to_flush@ == pack_files(self.rewritten@)
        &&& self.rewritten@.len() == 0 ==> self.last_hash == (crate::types::Hash {
            high: 0,
            low: 0,
        })
        &&& self.rewritten@.len() > 0 ==> self.last_hash == self.rewritten@.last().address.hash
        &&& self.rewritten@.len() > 0 ==> self.slot > 0 && !s[self.slot
            - 1].address.hash.before(self.last_hash)
    }

    /// A walk that has not begun.
    pub fn new(packfile: u32) -> (r: CompactionPass)
        ensures
            r.packfile == packfile,
            r.slot == 0,
            r.rewritten@.len() == 0,
            forall|s: Seq<ImmutableStoreEntry>| sorted(s) && s.len() <= u32::MAX ==> r.wf(s),
    {
        let r = CompactionPass {
            packfile,
            slot: 0,
            last_hash: crate::types::Hash::zero(),
            rewritten: Vec::new(),
            compacted_size: 0,
            packfiles_to_flush: Vec::new(),
        };
        assert(r.packfiles_to_flush@ =~= pack_files(r.rewritten@));
        r
    }

    /// Goes on to the next entry whose payload is to be moved.
    pub fn next(&mut self, bucket: &ImmutableStoreBucket) -> (r: Option<ImmutableStoreEntry>)
        requires
            bucket.wf(),
            old(self).wf(bucket.slots()),
        ensures
            final(self).wf(bucket.slots()),
            *final(self) == (CompactionPass { slot: final(self).slot, ..*old(self) }),
            old(self).slot <= final(self).slot,
            forall|i: int|
                old(self).slot <= i < final(self).slot - (if r is Some {
                    1int
                } else {
                    0
                }) ==> old(self).passes_over(#[trigger] bucket.slots()[i]),
            match r {
                Some(e) => {
                    &&& old(self).slot < final(self).slot
                    &&& e == bucket.slots()[final(self).slot - 1]
                    &&& !old(self).passes_over(e)
                },
                None => final(self).slot == bucket.slots().len(),
            },
    {
        let count: usize = bucket.sorted_index.len();
        let ghost s = bucket.slots();
        let ghost start = *self;
        while self.slot < count
            invariant
                bucket.wf(),
                s == bucket.slots(),
                count == s.len(),
                start == *old(self),
                start.wf(s),
                self.wf(s),
                start.slot <= self.slot,
                *self == (CompactionPass { slot: self.slot, ..start }),
                forall|i: int|
                    start.slot <= i < self.slot ==> start.passes_over(#[trigger] s[i]),
            decreases count - self.slot,
        {
            let entry = bucket.at(self.slot);
            proof {
                if self.slot > 0 {
                    assert(s[self.slot - 1].key().before(s[self.slot as int].key()));
                }
            }
            self.slot = self.slot + 1;
            if entry.data.pack_file == self.packfile && entry.address.hash != self.last_hash {
                return Some(entry);
            }
        }
        None
    }

    /// Records that the payload of the entry that `next` gave was written to a new place.
    pub fn repacked(
        &mut self,
        bucket: &ImmutableStoreBucket,
        entry: ImmutableStoreEntry,
        packref: PackRef,
    )
        requires
            old(self).wf(bucket.slots()),
            old(self).slot > 0,
            old(self).rewritten@.len() < old(self).slot,
            entry == bucket.slots()[old(self).slot - 1],
            !old(self).passes_over(entry),
        ensures
            final(self).wf(bucket.slots()),
            final(self).packfile == old(self).packfile,
            final(self).slot == old(self).slot,
            final(self).last_hash == entry.address.hash,
            final(self).rewritten@ == old(self).rewritten@.push(
                entry.with_data(
                    ImmutableData {
                        pack_file: packref.id,
                        pack_offset: packref.offset,
                        ..entry.data
                    },
                ),
            ),
    {
        let ghost before = self.rewritten@;
        let mut moved = entry;
        moved.data.pack_file = packref.id;
        moved.data.pack_offset = packref.offset;
        self.last_hash = entry.address.hash;
        self.rewritten.push(moved);
        assert(self.rewritten@.drop_last() =~= before);
        proof {
            assert forall|i: int, j: int| 0 <= i < j < self.rewritten@.len() implies (
            #[trigger] self.rewritten@[i]).address.hash.before(
                (#[trigger] self.rewritten@[j]).address.hash,
            ) by {
                if j == before.len() && i < before.len() - 1 {
                    assert(before[i].address.hash.before(before.last().address.hash));
                }
            }
        }
        self.compacted_size = self.compacted_size + entry.data.size_payload as u64;
        let mut known = false;
        let mut i: usize = 0;
        while i < self.packfiles_to_flush.len() && !known
            invariant
                i <= self.packfiles_to_flush@.len(),
                known ==> self.packfiles_to_flush@.contains(packref.id),
                !known ==> forall|k: int|
                    0 <= k < i ==> #[trigger] self.packfiles_to_flush@[k] != packref.id,
            decreases self.packfiles_to_flush@.len() - i, !known as int,
        {
            if self.packfiles_to_flush[i] == packref.id {
                assert(self.packfiles_to_flush@[i as int] == packref.id);
                known = true;
            } else {
                i = i + 1;
            }
        }
        if !known {
            self.packfiles_to_flush.push(packref.id);
        }
    }
}

/// An entry after its bucket took back what a walk over a pack file rewrote. Entries of other pack
/// files stay as they are. Those of the pack file share the new payload of their hash. Where that was
/// not rewritten they have lost their payload, but for those that come after all that was rewritten:
/// these stay as they are.
pub open spec fn reinserted(
    e: ImmutableStoreEntry,
    rewritten: Seq<ImmutableStoreEntry>,
    packfile: u32,
) -> ImmutableStoreEntry {
    if e.data.pack_file != packfile {
        e
    } else if exists|i: int| 0 <= i < rewritten.len() && (#[trigger] rewritten[i]).address.hash
        == e.address.hash {
        let i = choose|i: int|
            0 <= i < rewritten.len() && (#[trigger] rewritten[i]).address.hash == e.address.hash;
        e.with_data(e.data.deduplicated(rewritten[i].data))
    } else if rewritten.len() > 0 && e.address.hash.before(rewritten.last().address.hash) {
        e.with_data(ImmutableData { pack_file: 0, pack_offset: 0, ..e.data })
    } else {
        e
    }
}

/// Among increasing hashes each has one place.
proof fn lemma_one_rewrite(
    rewritten: Seq<ImmutableStoreEntry>,
    i: int,
    e: ImmutableStoreEntry,
    packfile: u32,
)
    requires
        hashes_increase(rewritten),
        0 <= i < rewritten.len(),
        rewritten[i].address.hash == e.address.hash,
        e.data.pack_file == packfile,
    ensures
        reinserted(e, rewritten, packfile) == e.with_data(e.data.deduplicated(rewritten[i].data)),
{
    let w = choose|w: int|
        0 <= w < rewritten.len() && (#[trigger] rewritten[w]).address.hash == e.address.hash;
    if w < i {
        assert(rewritten[w].address.hash.before(rewritten[i].address.hash));
    } else if i < w {
        assert(rewritten[i].address.hash.before(rewritten[w].address.hash));
    }
}

impl ImmutableStoreBucket {
    /// Takes back what a walk over a pack file rewrote. Sets `dirty` where anything was rewritten.
    pub fn reinsert(
        &mut self,
        rewritten: &Vec<ImmutableStoreEntry>,
        packfile: u32,
        dirty: &mut bool,
    )
        requires
            old(self).wf(),
            hashes_increase(rewritten@),
        ensures
            final(self).wf(),
            final(self).slots() == old(self).slots().map_values(
                |e: ImmutableStoreEntry| reinserted(e, rewritten@, packfile),
            ),
            *final(dirty) == (*old(dirty) || rewritten@.len() > 0),
            final(self).deserialized == old(self).deserialized,
            final(self).upgrade_packfile == old(self).upgrade_packfile,
            final(self).entry@.len() == old(self).entry@.len(),
            final(self).sorted_index == old(self).sorted_index,
    {
        let ghost s = self.slots();
        let ghost goal = s.map_values(
            |e: ImmutableStoreEntry| reinserted(e, rewritten@, packfile),
        );
        let count: usize = self.sorted_index.len();
        let total: usize = rewritten.len();
        let mut next: usize = 0;
        let mut slot: usize = 0;
        if total > 0 {
            *dirty = true;
        }
        while slot < count
            invariant
                self.wf(),
                sorted(s),
                hashes_increase(rewritten@),
                count == s.len() == goal.len(),
                total == rewritten@.len(),
                self.slots().len() == count,
                self.entry@.len() == count,
                slot <= count,
                next <= total,
                s == old(self).slots(),
                goal == s.map_values(|e: ImmutableStoreEntry| reinserted(e, rewritten@, packfile)),
                forall|i: int| 0 <= i < slot ==> #[trigger] self.slots()[i] == goal[i],
                forall|i: int| slot <= i < count ==> #[trigger] self.slots()[i] == s[i],
                // What was passed of the rewritten entries lies before all that is still to come.
                forall|i: int, j: int|
                    slot <= i < count && 0 <= j < next ==> (
                    #[trigger] rewritten@[j]).address.hash.before((#[trigger] s[i]).address.hash),
                *dirty == (*old(dirty) || total > 0),
                self.deserialized == old(self).deserialized,
                self.upgrade_packfile == old(self).upgrade_packfile,
                self.sorted_index == old(self).sorted_index,
            decreases count - slot,
        {
            let entry = self.at(slot);
            assert(entry == s[slot as int]);
            if entry.data.pack_file == packfile {
                let h = entry.address.hash;
                while next < total && (rewritten[next].address.hash.high < h.high || (
                rewritten[next].address.hash.high == h.high && rewritten[next].address.hash.low
                    < h.low))
                    invariant
                        sorted(s),
                        count == s.len(),
                        total == rewritten@.len(),
                        slot < count,
                        next <= total,
                        h == s[slot as int].address.hash,
                        forall|i: int, j: int|
                            slot <= i < count && 0 <= j < next ==> (
                            #[trigger] rewritten@[j]).address.hash.before(
                                (#[trigger] s[i]).address.hash,
                            ),
                    ensures
                        next < total ==> !rewritten@[next as int].address.hash.before(h),
                    decreases total - next,
                {
                    proof {
                        assert forall|i: int, j: int| slot <= i < count && 0 <= j < next
                            + 1 implies (#[trigger] rewritten@[j]).address.hash.before(
                            (#[trigger] s[i]).address.hash,
                        ) by {
                            if j == next && i > slot {
                                assert(s[slot as int].key().before(s[i].key()));
                            }
                        }
                    }
                    next = next + 1;
                }
                let mut data = entry.data;
                if next < total && rewritten[next].address.hash == h {
                    data.assign_deduplicated_payload(rewritten[next].data);
                    proof {
                        lemma_one_rewrite(rewritten@, next as int, entry, packfile);
                    }
                } else {
                    proof {
                        // Those before are smaller, those from here on are greater.
                        assert forall|j: int| 0 <= j < total implies (
                        #[trigger] rewritten@[j]).address.hash != h by {
                            if j < next {
                                assert(rewritten@[j].address.hash.before(
                                    s[slot as int].address.hash,
                                ));
                            } else if j > next {
                                assert(rewritten@[next as int].address.hash.before(
                                    rewritten@[j].address.hash,
                                ));
                            }
                        }
                        if next < total {
                            if next < total - 1 {
                                assert(rewritten@[next as int].address.hash.before(
                                    rewritten@.last().address.hash,
                                ));
                            }
                        } else if total > 0 {
                            assert(rewritten@[total - 1].address.hash.before(
                                s[slot as int].address.hash,
                            ));
                        }
                    }
                    if next < total {
                        data.pack_file = 0;
                        data.pack_offset = 0;
                    }
                }
                self.set_data(slot, data);
            }
            slot = slot + 1;
        }
        assert(self.slots() =~= goal);
    }
}

/// The entries whose payload a walk rewrites, from a slot on. `moves` says slot by slot where the
/// payload was written to, if it could be read and written.
pub open spec fn walk(
    s: Seq<ImmutableStoreEntry>,
    packfile: u32,
    moves: Seq<Option<PackRef>>,
    from: int,
    last_hash: crate::types::Hash,
) -> Seq<ImmutableStoreEntry>
    decreases s.len() - from,
{
    if from >= s.len() {
        Seq::empty()
    } else {
        let e = s[from];
        if e.data.pack_file != packfile || e.address.hash == last_hash {
            walk(s, packfile, moves, from + 1, last_hash)
        } else {
            match moves[from] {
                None => walk(s, packfile, moves, from + 1, last_hash),
                Some(packref) => seq![moved_to(e, packref)] + walk(
                    s,
                    packfile,
                    moves,
                    from + 1,
                    e.address.hash,
                ),
            }
        }
    }
}

/// An entry whose payload lies at another place.
pub open spec fn moved_to(e: ImmutableStoreEntry, packref: PackRef) -> ImmutableStoreEntry {
    e.with_data(
        ImmutableData { pack_file: packref.id, pack_offset: packref.offset, ..e.data },
    )
}

/// The entries whose payload a walk over a bucket rewrites.
pub open spec fn rewritten_in(
    s: Seq<ImmutableStoreEntry>,
    packfile: u32,
    moves: Seq<Option<PackRef>>,
) -> Seq<ImmutableStoreEntry> {
    walk(s, packfile, moves, 0, crate::types::Hash { high: 0, low: 0 })
}

/// Entries that a walk passes over do not change what it rewrites.
proof fn lemma_walk_passes_over(
    s: Seq<ImmutableStoreEntry>,
    packfile: u32,
    moves: Seq<Option<PackRef>>,
    from: int,
    to: int,
    last_hash: crate::types::Hash,
)
    requires
        0 <= from <= to <= s.len(),
        forall|i: int|
            from <= i < to ==> (#[trigger] s[i]).data.pack_file != packfile || s[i].address.hash
                == last_hash,
    ensures
        walk(s, packfile, moves, from, last_hash) == walk(s, packfile, moves, to, last_hash),
    decreases to - from,
{
    if from < to {
        lemma_walk_passes_over(s, packfile, moves, from + 1, to, last_hash);
    }
}

impl ImmutableStoreBucket {
    /// Moves the payloads of a bucket out of a pack file. `moves` says slot by slot where the
    /// payload was written to, if it could be read and written; only the slots that the walk stops
    /// at count. Gives the bytes that were moved.
    pub fn compact_bucket_packfile_impl(
        &mut self,
        packfile: u32,
        moves: &Vec<Option<PackRef>>,
        dirty: &mut bool,
    ) -> (r: u64)
        requires
            old(self).wf(),
            moves@.len() == old(self).slots().len(),
        ensures
            final(self).wf(),
            ({
                let rewritten = rewritten_in(old(self).slots(), packfile, moves@);
                &&& r == payload_bytes(rewritten)
                &&& final(self).slots() == old(self).slots().map_values(
                    |e: ImmutableStoreEntry| reinserted(e, rewritten, packfile),
                )
                &&& *final(dirty) == (*old(dirty) || rewritten.len() > 0)
            }),
            final(self).deserialized == old(self).deserialized,
            final(self).upgrade_packfile == old(self).upgrade_packfile,
            final(self).entry@.len() == old(self).entry@.len(),
    {
        let ghost s = self.slots();
        let ghost goal = rewritten_in(s, packfile, moves@);
        let mut pass = CompactionPass::new(packfile);
        assert(pass.rewritten@ + walk(s, packfile, moves@, 0, pass.last_hash) =~= goal);
        let mut open = true;
        while open
            invariant
                self.wf(),
                *self == *old(self),
                s == self.slots(),
                moves@.len() == s.len(),
                pass.wf(s),
                pass.packfile == packfile,
                goal == rewritten_in(s, packfile, moves@),
                pass.rewritten@ + walk(s, packfile, moves@, pass.slot as int, pass.last_hash)
                    =~= goal,
                !open ==> pass.slot == s.len(),
            decreases s.len() - pass.slot, open as int,
        {
            let ghost before = pass;
            match pass.next(self) {
                None => {
                    proof {
                        lemma_walk_passes_over(
                            s,
                            packfile,
                            moves@,
                            before.slot as int,
                            pass.slot as int,
                            before.last_hash,
                        );
                    }
                    open = false;
                },
                Some(entry) => {
                    let ghost at = pass.slot - 1;
                    proof {
                        lemma_walk_passes_over(
                            s,
                            packfile,
                            moves@,
                            before.slot as int,
                            at,
                            before.last_hash,
                        );
                    }
                    if let Some(packref) = moves[pass.slot - 1] {
                        pass.repacked(self, entry, packref);
                        proof {
                            assert(pass.rewritten@ + walk(
                                s,
                                packfile,
                                moves@,
                                pass.slot as int,
                                pass.last_hash,
                            ) =~= before.rewritten@ + (seq![moved_to(entry, packref)] + walk(
                                s,
                                packfile,
                                moves@,
                                at + 1,
                                entry.address.hash,
                            )));
                        }
                    }
                },
            }
        }
        assert(pass.rewritten@ =~= goal);
        let rewritten = pass.rewritten;
        self.reinsert(&rewritten, packfile, dirty);
        pass.compacted_size
    }
}

/// Every entry of the pack file has the hash of a rewritten one, or the hash that was rewritten
/// before the walk.
proof fn lemma_walk_covers(
    s: Seq<ImmutableStoreEntry>,
    packfile: u32,
    moves: Seq<Option<PackRef>>,
    from: int,
    last_hash: crate::types::Hash,
    i: int,
)
    requires
        0 <= from <= i < s.len(),
        moves.len() == s.len(),
        s[i].data.pack_file == packfile,
        forall|k: int| 0 <= k < moves.len() ==> (#[trigger] moves[k]) is Some,
    ensures
        s[i].address.hash == last_hash || exists|j: int|
            0 <= j < walk(s, packfile, moves, from, last_hash).len() && (#[trigger] walk(
                s,
                packfile,
                moves,
                from,
                last_hash,
            )[j]).address.hash == s[i].address.hash,
    decreases s.len() - from,
{
    let e = s[from];
    let all = walk(s, packfile, moves, from, last_hash);
    if e.data.pack_file != packfile || e.address.hash == last_hash {
        if from < i {
            lemma_walk_covers(s, packfile, moves, from + 1, last_hash, i);
        }
    } else {
        assert(moves[from] is Some);
        let rest = walk(s, packfile, moves, from + 1, e.address.hash);
        assert(all =~= seq![moved_to(e, moves[from]->0)] + rest);
        assert(all[0].address.hash == e.address.hash);
        if from < i {
            lemma_walk_covers(s, packfile, moves, from + 1, e.address.hash, i);
            if s[i].address.hash != e.address.hash {
                let j = choose|j: int|
                    0 <= j < rest.len() && (#[trigger] rest[j]).address.hash
                        == s[i].address.hash;
                assert(all[j + 1].address.hash == s[i].address.hash);
            }
        }
    }
}

/// What a walk rewrites lies in no pack file that nothing was written to.
proof fn lemma_walk_places(
    s: Seq<ImmutableStoreEntry>,
    packfile: u32,
    moves: Seq<Option<PackRef>>,
    from: int,
    last_hash: crate::types::Hash,
    unused: u32,
)
    requires
        0 <= from <= s.len() == moves.len(),
        forall|k: int|
            0 <= k < moves.len() && (#[trigger] moves[k]) is Some ==> moves[k]->0.id != unused,
    ensures
        forall|j: int|
            0 <= j < walk(s, packfile, moves, from, last_hash).len() ==> (#[trigger] walk(
                s,
                packfile,
                moves,
                from,
                last_hash,
            )[j]).data.pack_file != unused,
    decreases s.len() - from,
{
    if from < s.len() {
        let e = s[from];
        lemma_walk_places(s, packfile, moves, from + 1, last_hash, unused);
        lemma_walk_places(s, packfile, moves, from + 1, e.address.hash, unused);
        let all = walk(s, packfile, moves, from, last_hash);
        if !(e.data.pack_file != packfile || e.address.hash == last_hash) && moves[from] is Some {
            let rest = walk(s, packfile, moves, from + 1, e.address.hash);
            assert(all =~= seq![moved_to(e, moves[from]->0)] + rest);
            assert forall|j: int| 0 <= j < all.len() implies (#[trigger] all[j]).data.pack_file
                != unused by {
                if j > 0 {
                    assert(all[j] == rest[j - 1]);
                }
            }
        } else {
            assert(all == walk(s, packfile, moves, from + 1, last_hash));
        }
    } else {
        assert(walk(s, packfile, moves, from, last_hash).len() == 0);
    }
}

/// Once every payload of a pack file was written elsewhere, no entry of the bucket refers to it any
/// more. Entries with the hash of zero bytes are left out where nothing else was rewritten: the walk
/// takes their payload for rewritten.
pub proof fn law_compaction_empties_the_pack_file(
    s: Seq<ImmutableStoreEntry>,
    packfile: u32,
    moves: Seq<Option<PackRef>>,
    slot: int,
)
    requires
        packfile != 0,
        moves.len() == s.len(),
        0 <= slot < s.len(),
        forall|k: int|
            0 <= k < moves.len() ==> (#[trigger] moves[k]) is Some && moves[k]->0.id != packfile,
        s[slot].address.hash != (crate::types::Hash { high: 0, low: 0 }) || rewritten_in(
            s,
            packfile,
            moves,
        ).len() > 0,
    ensures
        reinserted(s[slot], rewritten_in(s, packfile, moves), packfile).data.pack_file != packfile,
{
    let zero = crate::types::Hash { high: 0, low: 0 };
    let rewritten = rewritten_in(s, packfile, moves);
    lemma_walk_places(s, packfile, moves, 0, zero, packfile);
    if s[slot].data.pack_file == packfile {
        lemma_walk_covers(s, packfile, moves, 0, zero, slot);
        if s[slot].address.hash == zero && rewritten.len() > 0 {
            assert(zero.before(rewritten.last().address.hash) || rewritten.last().address.hash
                == zero);
            assert(rewritten[rewritten.len() - 1] == rewritten.last());
        }
    }
}

/// An entry whose payload was not rewritten, and that comes after all that was, keeps its place.
pub proof fn law_compaction_keeps_what_it_could_not_move(
    e: ImmutableStoreEntry,
    rewritten: Seq<ImmutableStoreEntry>,
    packfile: u32,
)
    requires
        forall|i: int|
            0 <= i < rewritten.len() ==> (#[trigger] rewritten[i]).address.hash.before(
                e.address.hash,
            ),
    ensures
        reinserted(e, rewritten, packfile) == e,
{
    if rewritten.len() > 0 {
        assert(rewritten[rewritten.len() - 1].address.hash.before(e.address.hash));
    }
}

/// Once every payload of a pack file was written elsewhere, every entry still has a payload. Entries
/// with the hash of zero bytes are left out: the walk takes their payload for rewritten.
pub proof fn law_compaction_loses_no_payload(
    s: Seq<ImmutableStoreEntry>,
    packfile: u32,
    moves: Seq<Option<PackRef>>,
    slot: int,
)
    requires
        packfile != 0,
        moves.len() == s.len(),
        0 <= slot < s.len(),
        forall|k: int|
            0 <= k < moves.len() ==> (#[trigger] moves[k]) is Some && moves[k]->0.id != 0,
        s[slot].address.hash != (crate::types::Hash { high: 0, low: 0 }),
        s[slot].data.pack_file != 0,
    ensures
        reinserted(s[slot], rewritten_in(s, packfile, moves), packfile).data.pack_file != 0,
{
    let zero = crate::types::Hash { high: 0, low: 0 };
    lemma_walk_places(s, packfile, moves, 0, zero, 0);
    if s[slot].data.pack_file == packfile {
        lemma_walk_covers(s, packfile, moves, 0, zero, slot);
    }
}

/// Entries of other pack files stay exactly as they are.
pub proof fn law_compaction_leaves_other_pack_files(
    e: ImmutableStoreEntry,
    rewritten: Seq<ImmutableStoreEntry>,
    packfile: u32,
)
    requires
        e.data.pack_file != packfile,
    ensures
        reinserted(e, rewritten, packfile) == e,
{
}

/// Taking back what a walk rewrote keeps the address of every entry, its content size and the time
/// of its last access.
pub proof fn law_reinserting_keeps_entries(
    e: ImmutableStoreEntry,
    rewritten: Seq<ImmutableStoreEntry>,
    packfile: u32,
)
    ensures
        reinserted(e, rewritten, packfile).key() == e.key(),
        reinserted(e, rewritten, packfile).data.size_content == e.data.size_content,
        reinserted(e, rewritten, packfile).data.last_access == e.data.last_access,
{
}

/// An entry whose hash was rewritten refers to where its payload was rewritten to, with the size
/// that was rewritten. It stays durable if it was.
pub proof fn law_moved_entries_follow_the_payload(
    e: ImmutableStoreEntry,
    rewritten: Seq<ImmutableStoreEntry>,
    packfile: u32,
    i: int,
)
    requires
        hashes_increase(rewritten),
        0 <= i < rewritten.len(),
        rewritten[i].address.hash == e.address.hash,
        e.data.pack_file == packfile,
    ensures
        ({
            let after = reinserted(e, rewritten, packfile);
            &&& after.data.pack_file == rewritten[i].data.pack_file
            &&& after.data.pack_offset == rewritten[i].data.pack_offset
            &&& after.data.size_payload == rewritten[i].data.size_payload
            &&& after.data.flags & !PAYLOAD_STORED == rewritten[i].data.flags & !PAYLOAD_STORED
            &&& after.data.flags & PAYLOAD_STORED_DURABLE == e.data.flags & PAYLOAD_STORED_DURABLE
        }),
{
    lemma_one_rewrite(rewritten, i, e, packfile);
    crate::local::entry_laws::law_sharing_takes_the_payload(e.data, rewritten[i].data);
}

/// An entry that a walk could not rewrite, although it went on to rewrite others after it, loses its
/// payload and nothing else.
pub proof fn law_compaction_drops_what_it_went_past(
    e: ImmutableStoreEntry,
    rewritten: Seq<ImmutableStoreEntry>,
    packfile: u32,
    later: int,
)
    requires
        hashes_increase(rewritten),
        e.data.pack_file == packfile,
        forall|i: int|
            0 <= i < rewritten.len() ==> (#[trigger] rewritten[i]).address.hash != e.address.hash,
        0 <= later < rewritten.len(),
        e.address.hash.before(rewritten[later].address.hash),
    ensures
        reinserted(e, rewritten, packfile) == e.with_data(
            ImmutableData { pack_file: 0, pack_offset: 0, ..e.data },
        ),
{
    let last = rewritten.len() - 1;
    if later < last {
        assert(rewritten[later].address.hash.before(rewritten[last].address.hash));
    }
}

/// What a walk rewrote are entries of the pack file, each with the place that its payload was written
/// to: nothing else of them changes. Each hash is rewritten once.
pub proof fn law_rewritten_entries_were_moved(
    s: Seq<ImmutableStoreEntry>,
    packfile: u32,
    moves: Seq<Option<PackRef>>,
    j: int,
)
    requires
        sorted(s),
        moves.len() == s.len(),
        0 <= j < rewritten_in(s, packfile, moves).len(),
    ensures
        ({
            let r = rewritten_in(s, packfile, moves);
            &&& exists|i: int|
                0 <= i < s.len() && (#[trigger] s[i]).data.pack_file == packfile && moves[i] is Some
                    && r[j] == s[i].with_data(
                    ImmutableData {
                        pack_file: moves[i]->0.id,
                        pack_offset: moves[i]->0.offset,
                        ..s[i].data
                    },
                )
            &&& forall|k: int| 0 <= k < j ==> (#[trigger] r[k]).address.hash != r[j].address.hash
        }),
{
    lemma_walk_moves(s, packfile, moves, 0, crate::types::Hash { high: 0, low: 0 });
}

/// Whether an entry is one that a walk has moved.
spec fn moved_from(
    s: Seq<ImmutableStoreEntry>,
    packfile: u32,
    moves: Seq<Option<PackRef>>,
    from: int,
    e: ImmutableStoreEntry,
) -> bool {
    exists|i: int|
        from <= i < s.len() && (#[trigger] s[i]).data.pack_file == packfile && moves[i] is Some && e
            == s[i].with_data(
            ImmutableData {
                pack_file: moves[i]->0.id,
                pack_offset: moves[i]->0.offset,
                ..s[i].data
            },
        )
}

/// What a walk moves from a slot on.
proof fn lemma_walk_moves(
    s: Seq<ImmutableStoreEntry>,
    packfile: u32,
    moves: Seq<Option<PackRef>>,
    from: int,
    last_hash: crate::types::Hash,
)
    requires
        sorted(s),
        moves.len() == s.len(),
        0 <= from <= s.len(),
        from > 0 && (exists|k: int| 0 <= k < from && (#[trigger] s[k]).address.hash == last_hash)
            || forall|i: int|
            0 <= i < s.len() ==> !(#[trigger] s[i]).address.hash.before(last_hash),
    ensures
        ({
            let r = walk(s, packfile, moves, from, last_hash);
            &&& forall|j: int|
                0 <= j < r.len() ==> moved_from(s, packfile, moves, from, #[trigger] r[j])
                    && r[j].address.hash != last_hash
            &&& forall|k: int, j: int|
                0 <= k < j < r.len() ==> (#[trigger] r[k]).address.hash != (
                #[trigger] r[j]).address.hash
        }),
    decreases s.len() - from,
{
    if from < s.len() {
        let e = s[from];
        let r = walk(s, packfile, moves, from, last_hash);
        let moving = e.data.pack_file == packfile && e.address.hash != last_hash && moves[from] is Some;
        let next_hash = if moving {
            e.address.hash
        } else {
            last_hash
        };
        lemma_walk_moves(s, packfile, moves, from + 1, next_hash);
        let rest = walk(s, packfile, moves, from + 1, next_hash);
        assert forall|j: int| 0 <= j < r.len() implies moved_from(
            s,
            packfile,
            moves,
            from,
            #[trigger] r[j],
        ) && r[j].address.hash != last_hash by {
            if moving && j == 0 {
                assert(r[0] == moved_to(e, moves[from]->0));
                assert(s[from].data.pack_file == packfile);
            } else {
                let m = if moving {
                    j - 1
                } else {
                    j
                };
                assert(r[j] == rest[m]);
                assert(moved_from(s, packfile, moves, from + 1, rest[m]));
                let i = choose|i: int|
                    from + 1 <= i < s.len() && (#[trigger] s[i]).data.pack_file == packfile
                        && moves[i] is Some && rest[m] == s[i].with_data(
                        ImmutableData {
                            pack_file: moves[i]->0.id,
                            pack_offset: moves[i]->0.offset,
                            ..s[i].data
                        },
                    );
                assert(s[i].data.pack_file == packfile);
                if moving {
                    assert(e.key().before(s[i].key()));
                    if exists|k: int| 0 <= k < from && (#[trigger] s[k]).address.hash == last_hash {
                        let k = choose|k: int|
                            0 <= k < from && (#[trigger] s[k]).address.hash == last_hash;
                        assert(s[k].key().before(e.key()));
                    } else {
                        assert(!e.address.hash.before(last_hash));
                    }
                }
            }
        }
        assert forall|k: int, j: int| 0 <= k < j < r.len() implies (#[trigger] r[k]).address.hash
            != (#[trigger] r[j]).address.hash by {
            if moving {
                assert(r[j] == rest[j - 1]);
                if k > 0 {
                    assert(r[k] == rest[k - 1]);
                }
            }
        }
    }
}

/// The bytes of rewritten payloads add up.
pub proof fn law_payload_bytes_add_up(a: Seq<ImmutableStoreEntry>, b: Seq<ImmutableStoreEntry>)
    ensures
        payload_bytes(a + b) == payload_bytes(a) + payload_bytes(b),
        a.len() == 1 ==> payload_bytes(a) == a[0].data.size_payload,
        a.len() == 0 ==> payload_bytes(a) == 0,
    decreases b.len(),
{
    if a.len() == 1 {
        reveal_with_fuel(payload_bytes, 2);
    }
    if b.len() == 0 {
        assert(a + b =~= a);
    } else {
        assert((a + b).drop_last() =~= a + b.drop_last());
        law_payload_bytes_add_up(a, b.drop_last());
    }
}

/// The pack files that a walk has to flush are those that it has written to, each once.
pub proof fn law_pack_files_are_those_written_to(s: Seq<ImmutableStoreEntry>)
    ensures
        forall|p: u32| #[trigger]
            pack_files(s).contains(p) <==> exists|i: int|
                0 <= i < s.len() && (#[trigger] s[i]).data.pack_file == p,
        pack_files(s).no_duplicates(),
    decreases s.len(),
{
    if s.len() > 0 {
        let head = s.drop_last();
        let n = s.len() - 1;
        law_pack_files_are_those_written_to(head);
        assert(s[n] == s.last());
        let before = pack_files(head);
        let after = pack_files(s);
        assert forall|p: u32| #[trigger] after.contains(p) <==> exists|i: int|
            0 <= i < s.len() && (#[trigger] s[i]).data.pack_file == p by {
            if !before.contains(s.last().data.pack_file) {
                assert(after[before.len() as int] == s.last().data.pack_file);
            }
            if before.contains(p) {
                let i = choose|i: int| 0 <= i < head.len() && (#[trigger] head[i]).data.pack_file == p;
                assert(s[i].data.pack_file == p);
                let k = choose|k: int| 0 <= k < before.len() && before[k] == p;
                assert(after[k] == p);
            }
            if exists|i: int| 0 <= i < s.len() && (#[trigger] s[i]).data.pack_file == p {
                let i = choose|i: int| 0 <= i < s.len() && (#[trigger] s[i]).data.pack_file == p;
                if i < n {
                    assert(head[i].data.pack_file == p);
                    assert(before.contains(p));
                }
            }
        }
    }
}

} // verus!
