//! Hashing a file, with the help of how it was split before.
//!
//! The hash of a large file is the hash of the list of its chunks. Where the chunks of an earlier
//! version still have their hashes, the earlier hash is the answer, and nothing is cut again.
use vstd::prelude::*;

use crate::fragment_engine::{
    chunk_bounds, chunk_plans, fits, law_lists_of_lists_shrink, list_bytes, list_parts, one_chunk,
    references, references_per_fragment, ChunkPlan, ChunkSizes, FragmentReference, ListPart,
};
use crate::types::{Address, Fragment, PAYLOAD_FRAGMENTED};

verus! {

/// How a file is hashed.
#[derive(Clone, Copy, Debug, PartialEq, Eq, Structural)]
pub enum HashPlan {
    /// The file is empty and has the hash of zero bytes.
    Empty,
    /// The file fits one fragment: its bytes are hashed.
    Whole,
    /// The file is compared with the list at this address first, and cut again where that does not
    /// help.
    Compare(Address),
    /// The file is cut again.
    Split,
}

/// How a file of some size is hashed, where an earlier version has this address and this size.
pub open spec fn hash_plan(
    file_size: usize,
    threshold: u32,
    previous: Option<Address>,
    previous_size: Option<usize>,
) -> HashPlan {
    let nothing = Address {
        hash: crate::types::Hash { high: 0, low: 0 },
        context: crate::types::Context { value: 0 },
    };
    if file_size == 0 {
        HashPlan::Empty
    } else if file_size as int <= threshold as int {
        HashPlan::Whole
    } else if previous is Some && previous->0 != nothing && (previous_size is None || previous_size
        == Some(file_size)) {
        HashPlan::Compare(previous->0)
    } else {
        HashPlan::Split
    }
}

/// Plans how a file is hashed.
pub fn hash_file(
    file_size: usize,
    threshold: u32,
    previous: Option<Address>,
    previous_size: Option<usize>,
) -> (r: HashPlan)
    ensures
        r == hash_plan(file_size, threshold, previous, previous_size),
{
    if file_size == 0 {
        return HashPlan::Empty;
    }
    if file_size as u64 <= threshold as u64 {
        return HashPlan::Whole;
    }
    let size_matches = match previous_size {
        None => true,
        Some(size) => size == file_size,
    };
    match previous {
        Some(address) => {
            let is_zero = address.hash.is_zero() && address.context.value == 0;
            if !is_zero && size_matches {
                HashPlan::Compare(address)
            } else {
                HashPlan::Split
            }
        },
        None => HashPlan::Split,
    }
}

/// What a comparison does next.
#[derive(Clone, Copy, Debug, PartialEq, Eq, Structural)]
pub enum CompareAction {
    /// Hash the bytes of the file from one place to another.
    Hash { start: usize, end: usize },
    /// Load the list with this hash: the chunk is itself split.
    LoadList(crate::types::Hash),
    /// All chunks have their hashes: the file has the hash of its earlier version.
    Same,
    /// The file is another: cut it again.
    Different,
}

/// A comparison of a file with the chunks of an earlier version.
pub struct HashCheck {
    /// The chunks, with lists of lists taken apart as far as the comparison has come.
    pub list: Vec<FragmentReference>,
    /// The chunk to compare next.
    pub index: usize,
    /// The length of the file when the comparison began.
    pub file_size: u64,
    /// The most bytes that a chunk can have that is not itself split.
    pub threshold: u32,
    /// Whether a difference was found.
    pub different: bool,
}

/// Where a chunk of a list ends: where the next begins, or the file ends.
pub open spec fn next_offset(list: Seq<FragmentReference>, i: int, file_size: u64) -> u64 {
    if i < list.len() - 1 {
        list[i + 1].offset_content
    } else {
        file_size
    }
}

/// The length of a chunk. Where a list is out of order it wraps around.
pub open spec fn chunk_size(list: Seq<FragmentReference>, i: int, file_size: u64) -> int {
    let d = next_offset(list, i, file_size) - list[i].offset_content;
    if d < 0 {
        d + 0x1_0000_0000_0000_0000
    } else {
        d
    }
}

impl HashCheck {
    /// Whether a fragment that was loaded, with the references that it lists, is one that a file of
    /// some size can be compared with.
    pub open spec fn comparable(
        fragment: Fragment,
        list: Seq<FragmentReference>,
        file_size: u64,
    ) -> bool {
        list.len() > 0 && fragment.size_content == file_size && fragment.flags & PAYLOAD_FRAGMENTED
            != 0
    }

    /// Starts a comparison with a fragment that was loaded and the references that its payload
    /// lists. There is nothing to compare with where it is not a list, or the list of a file of
    /// another size, or empty.
    pub fn new(
        fragment: &Fragment,
        list: Vec<FragmentReference>,
        file_size: u64,
        threshold: u32,
    ) -> (r: Option<HashCheck>)
        ensures
            r is Some <==> fragment.flags & PAYLOAD_FRAGMENTED != 0 && fragment.size_content
                == file_size && list@.len() > 0,
            r is Some <==> Self::comparable(*fragment, list@, file_size),
            r is Some ==> r->0 == (HashCheck {
                list,
                index: 0,
                file_size,
                threshold,
                different: false,
            }),
    {
        if fragment.flags & PAYLOAD_FRAGMENTED != 0 && fragment.size_content == file_size
            && list.len() > 0 {
            Some(HashCheck { list, index: 0, file_size, threshold, different: false })
        } else {
            None
        }
    }

    /// What is done next, with a file of which this many bytes are there.
    pub open spec fn action(self, buffer_len: usize) -> CompareAction {
        let i = self.index as int;
        let size = chunk_size(self.list@, i, self.file_size);
        let start = self.list@[i].offset_content as int;
        if self.different {
            CompareAction::Different
        } else if i >= self.list@.len() {
            CompareAction::Same
        } else if size > self.threshold {
            CompareAction::LoadList(self.list@[i].hash)
        } else if start + size <= buffer_len {
            CompareAction::Hash { start: start as usize, end: (start + size) as usize }
        } else {
            CompareAction::Different
        }
    }

    /// What is done next.
    pub fn next(&self, buffer_len: usize) -> (r: CompareAction)
        ensures
            r == self.action(buffer_len),
    {
        let count: usize = self.list.len();
        if self.different {
            return CompareAction::Different;
        }
        if self.index >= count {
            return CompareAction::Same;
        }
        let current = self.list[self.index];
        let next: u64 = if self.index < count - 1 {
            self.list[self.index + 1].offset_content
        } else {
            self.file_size
        };
        let size: u64 = next.wrapping_sub(current.offset_content);
        if size > self.threshold as u64 {
            return CompareAction::LoadList(current.hash);
        }
        let available: u64 = buffer_len as u64;
        if current.offset_content <= available && size <= available - current.offset_content {
            CompareAction::Hash {
                start: current.offset_content as usize,
                end: (current.offset_content + size) as usize,
            }
        } else {
            CompareAction::Different
        }
    }

    /// Whether a comparison stays with its file.
    pub open spec fn same_file(before: HashCheck, after: HashCheck) -> bool {
        after.file_size == before.file_size && after.threshold == before.threshold
    }

    /// Whether a comparison moved on to the next chunk, or found that the chunk has another hash.
    pub open spec fn compared(
        before: HashCheck,
        after: HashCheck,
        hash: crate::types::Hash,
    ) -> bool {
        &&& Self::same_file(before, after)
        &&& after.list@ == before.list@
        &&& hash == before.list@[before.index as int].hash ==> after.index == before.index + 1
            && after.different == before.different
        &&& hash != before.list@[before.index as int].hash ==> after.different
    }

    /// Whether a comparison came to an end without a list that it asked for.
    pub open spec fn gave_up(before: HashCheck, after: HashCheck) -> bool {
        Self::same_file(before, after) && after.list@ == before.list@ && after.different
    }

    /// Whether a comparison took a fragment that it asked for, and the references that the fragment
    /// lists.
    pub open spec fn taken_apart(
        before: HashCheck,
        after: HashCheck,
        fragment: Fragment,
        sub: Seq<FragmentReference>,
    ) -> bool {
        let i = before.index as int;
        if fragment.flags & PAYLOAD_FRAGMENTED == 0 {
            Self::gave_up(before, after)
        } else {
            &&& Self::same_file(before, after)
            &&& after.index == before.index
            &&& after.different == before.different
            &&& after.list@ == before.list@.take(i) + sub + before.list@.skip(i + 1)
        }
    }

    /// Records the hash of the bytes that `next` gave.
    pub fn hashed(&mut self, hash: crate::types::Hash)
        requires
            old(self).index < old(self).list@.len(),
        ensures
            final(self).list == old(self).list,
            final(self).file_size == old(self).file_size,
            final(self).threshold == old(self).threshold,
            ({
                let same = hash == old(self).list@[old(self).index as int].hash;
                &&& final(self).different == (old(self).different || !same)
                &&& final(self).index == old(self).index + if same {
                    1int
                } else {
                    0
                }
            }),
            Self::compared(*old(self), *final(self), hash),
    {
        let count: usize = self.list.len();
        assert(self.index < count);
        if hash == self.list[self.index].hash {
            self.index = self.index + 1;
        } else {
            self.different = true;
        }
    }

    /// Takes the list that `next` asked for in the place of the chunk that it stands for. A fragment
    /// that could not be loaded, or is no list, counts as a difference.
    pub fn list_loaded(&mut self, loaded: Option<(Fragment, Vec<FragmentReference>)>)
        requires
            old(self).index < old(self).list@.len(),
        ensures
            final(self).index == old(self).index,
            final(self).file_size == old(self).file_size,
            final(self).threshold == old(self).threshold,
            match loaded {
                Some((fragment, list)) => if fragment.flags & PAYLOAD_FRAGMENTED != 0 {
                    let i = old(self).index as int;
                    &&& final(self).list@ == old(self).list@.take(i) + list@ + old(self).list@.skip(i + 1)
                    &&& final(self).different == old(self).different
                } else {
                    final(self).list == old(self).list && final(self).different
                },
                None => final(self).list == old(self).list && final(self).different,
            },
            loaded is Some ==> Self::taken_apart(
                *old(self),
                *final(self),
                (loaded->0).0,
                (loaded->0).1@,
            ),
            loaded is None ==> Self::gave_up(*old(self), *final(self)),
    {
        match loaded {
            Some((fragment, sub)) => {
                if fragment.flags & PAYLOAD_FRAGMENTED == 0 {
                    self.different = true;
                    return;
                }
                let ghost before = self.list@;
                let ghost i = self.index as int;
                let count: usize = self.list.len();
                let mut list: Vec<FragmentReference> = Vec::new();
                let mut k: usize = 0;
                while k < self.index
                    invariant
                        self.list@ == before,
                        count == before.len(),
                        self.index == i < count,
                        k <= i,
                        list@ =~= before.take(k as int),
                    decreases i - k,
                {
                    list.push(self.list[k]);
                    k = k + 1;
                }
                let ghost head = list@;
                k = 0;
                while k < sub.len()
                    invariant
                        k <= sub@.len(),
                        list@ =~= head + sub@.take(k as int),
                    decreases sub@.len() - k,
                {
                    list.push(sub[k]);
                    k = k + 1;
                }
                let ghost middle = list@;
                k = self.index + 1;
                while k < count
                    invariant
                        self.list@ == before,
                        count == before.len(),
                        0 <= i < k <= count,
                        list@ =~= middle + before.subrange(i + 1, k as int),
                    decreases count - k,
                {
                    list.push(self.list[k]);
                    k = k + 1;
                }
                self.list = list;
                assert(self.list@ =~= before.take(i) + sub@ + before.skip(i + 1));
            },
            None => {
                self.different = true;
            },
        }
    }
}

/// The chunks of a list that is in order and holds no lists of its own cover the file: each ends
/// where the next begins, and the last ends with the file.
pub proof fn law_compared_chunks_cover_the_file(
    list: Seq<FragmentReference>,
    file_size: u64,
    i: int,
)
    requires
        crate::fragment_engine::ordered(list, file_size),
        0 <= i < list.len(),
    ensures
        list[i].offset_content + chunk_size(list, i, file_size) == next_offset(list, i, file_size),
        i < list.len() - 1 ==> next_offset(list, i, file_size) == list[i + 1].offset_content,
        i == list.len() - 1 ==> next_offset(list, i, file_size) == file_size,
{
    if i < list.len() - 1 {
        assert(list[i].offset_content <= list[i + 1].offset_content);
    }
}

/// Whether a chunk of a list has the bytes of a file, up to where the next begins or the file ends.
pub open spec fn chunk_holds(
    list: Seq<FragmentReference>,
    i: int,
    file_size: u64,
    content: Seq<u8>,
    digest: spec_fn(Seq<u8>) -> crate::types::Hash,
) -> bool {
    let start = list[i].offset_content as int;
    let end = if i + 1 < list.len() {
        list[i + 1].offset_content as int
    } else {
        file_size as int
    };
    &&& start <= end <= content.len()
    &&& digest(content.subrange(start, end)) == list[i].hash
}

/// Whether one comparison follows from another by what it asked for: the hash of bytes of the file,
/// or a list that begins where the chunk that it stands for begins.
pub open spec fn compare_step(
    before: HashCheck,
    after: HashCheck,
    content: Seq<u8>,
    digest: spec_fn(Seq<u8>) -> crate::types::Hash,
) -> bool {
    match before.action(content.len() as usize) {
        CompareAction::Hash { start, end } => HashCheck::compared(
            before,
            after,
            digest(content.subrange(start as int, end as int)),
        ),
        CompareAction::LoadList(_) => HashCheck::gave_up(before, after) || exists|
            fragment: Fragment,
            sub: Seq<FragmentReference>,
        | #[trigger]
            HashCheck::taken_apart(before, after, fragment, sub) && sub.len() > 0
                && sub[0].offset_content == before.list@[before.index as int].offset_content,
        _ => false,
    }
}

/// Whether states of a comparison follow from each other, from the first on.
pub open spec fn compare_run(
    states: Seq<HashCheck>,
    content: Seq<u8>,
    digest: spec_fn(Seq<u8>) -> crate::types::Hash,
) -> bool {
    &&& states.len() > 0
    &&& states[0].index == 0
    &&& forall|k: int|
        0 <= k < states.len() - 1 ==> #[trigger] compare_step(
            states[k],
            states[k + 1],
            content,
            digest,
        )
}

/// A comparison says that a file is the same exactly if it found no difference and has no chunk left
/// to compare. It hashes a chunk as a whole, from where it begins to where the next begins or the
/// file ends, and only if the file has so many bytes. It loads a list only for a chunk that is too
/// long to be one fragment.
pub proof fn law_comparison_looks_at_every_chunk(check: HashCheck, buffer_len: usize)
    ensures
        ({
            let i = check.index as int;
            let list = check.list@;
            let start = list[i].offset_content as int;
            let end = if i + 1 < list.len() {
                list[i + 1].offset_content as int
            } else {
                check.file_size as int
            };
            let action = check.action(buffer_len);
            &&& action == CompareAction::Same <==> !check.different && i >= list.len()
            &&& check.different ==> action == CompareAction::Different
            &&& !check.different && i < list.len() && start <= end <= buffer_len && end - start
                <= check.threshold ==> action == (CompareAction::Hash {
                start: start as usize,
                end: end as usize,
            })
            &&& !check.different && i < list.len() && end - start > check.threshold ==> action
                == CompareAction::LoadList(list[i].hash)
            &&& action is Hash ==> start <= end <= buffer_len && end - start <= check.threshold
                && action == (CompareAction::Hash { start: start as usize, end: end as usize })
        }),
{
}

/// A comparison that says that a file is the same has hashed all of it: every chunk of the list, as
/// far as it was taken apart, has the hash of the bytes of the file from where it begins to where the
/// next begins or the file ends.
pub proof fn law_same_means_every_chunk_was_hashed(
    states: Seq<HashCheck>,
    content: Seq<u8>,
    digest: spec_fn(Seq<u8>) -> crate::types::Hash,
    i: int,
)
    requires
        content.len() <= usize::MAX,
        compare_run(states, content, digest),
        states.last().action(content.len() as usize) == CompareAction::Same,
        0 <= i < states.last().list@.len(),
    ensures
        chunk_holds(states.last().list@, i, states.last().file_size, content, digest),
{
    lemma_compared_chunks_hold(states, content, digest);
}

/// What a comparison has gone past, it has hashed.
proof fn lemma_compared_chunks_hold(
    states: Seq<HashCheck>,
    content: Seq<u8>,
    digest: spec_fn(Seq<u8>) -> crate::types::Hash,
)
    requires
        content.len() <= usize::MAX,
        compare_run(states, content, digest),
    ensures
        states.last().different || (states.last().index <= states.last().list@.len() && forall|
            i: int,
        |
            0 <= i < states.last().index ==> #[trigger] chunk_holds(
                states.last().list@,
                i,
                states.last().file_size,
                content,
                digest,
            )),
    decreases states.len(),
{
    if states.len() > 1 {
        let earlier = states.drop_last();
        let n = states.len() - 2;
        assert forall|k: int| 0 <= k < earlier.len() - 1 implies #[trigger] compare_step(
            earlier[k],
            earlier[k + 1],
            content,
            digest,
        ) by {
            assert(compare_step(states[k], states[k + 1], content, digest));
        }
        lemma_compared_chunks_hold(earlier, content, digest);
        let (before, after) = (states[n], states[n + 1]);
        assert(earlier.last() == before);
        assert(compare_step(before, after, content, digest));
        if !after.different {
            assert forall|i: int| 0 <= i < after.index implies #[trigger] chunk_holds(
                after.list@,
                i,
                after.file_size,
                content,
                digest,
            ) by {
                if i < before.index {
                    assert(chunk_holds(before.list@, i, before.file_size, content, digest));
                }
            }
        }
    }
}

/// A comparison of a file with the chunks that it has goes through all of them: it asks for the hash
/// of the next, and having it moves on to the one after that, until it says that the file is the
/// same.
pub proof fn law_unchanged_file_is_the_same(
    before: HashCheck,
    after: HashCheck,
    content: Seq<u8>,
    digest: spec_fn(Seq<u8>) -> crate::types::Hash,
)
    requires
        content.len() <= usize::MAX,
        !before.different,
        before.index < before.list@.len(),
        forall|i: int|
            0 <= i < before.list@.len() ==> #[trigger] chunk_holds(
                before.list@,
                i,
                before.file_size,
                content,
                digest,
            ),
        before.action(content.len() as usize) !is LoadList,
        compare_step(before, after, content, digest),
    ensures
        !after.different,
        after.list@ == before.list@,
        after.index == before.index + 1,
        after.index == after.list@.len() ==> after.action(content.len() as usize)
            == CompareAction::Same,
{
    assert(chunk_holds(before.list@, before.index as int, before.file_size, content, digest));
}

/// The hashes of the chunks of a content, where `digest` gives the hash of bytes.
pub open spec fn chunk_hashes(
    content: Seq<u8>,
    chunks: Seq<ChunkPlan>,
    digest: spec_fn(Seq<u8>) -> crate::types::Hash,
) -> Seq<crate::types::Hash> {
    chunks.map_values(
        |c: ChunkPlan| digest(content.subrange(c.start as int, c.end as int)),
    )
}

/// The hashes of the parts of a list.
pub open spec fn part_hashes(
    list: Seq<FragmentReference>,
    parts: Seq<ListPart>,
    digest: spec_fn(Seq<u8>) -> crate::types::Hash,
) -> Seq<crate::types::Hash> {
    parts.map_values(
        |p: ListPart| digest(list_bytes(list.subrange(p.from as int, p.to as int))),
    )
}

/// The list of the parts of a list.
pub open spec fn list_of_parts(
    list: Seq<FragmentReference>,
    content_size: u64,
    flags: u32,
    threshold: u32,
    digest: spec_fn(Seq<u8>) -> crate::types::Hash,
) -> Seq<FragmentReference> {
    let parts = list_parts(
        list,
        0,
        references_per_fragment(threshold as int),
        content_size,
        flags,
    );
    references(
        parts.map_values(|p: ListPart| p.offset_content),
        part_hashes(list, parts, digest),
    )
}

/// The hash that a list is written under: that of its bytes where it fits one fragment, and
/// otherwise that of the list of its parts.
pub open spec fn list_hash(
    list: Seq<FragmentReference>,
    content_size: u64,
    flags: u32,
    threshold: u32,
    digest: spec_fn(Seq<u8>) -> crate::types::Hash,
) -> crate::types::Hash
    decreases list.len(),
{
    if fits(list, threshold as int) || threshold < 80 {
        digest(list_bytes(list))
    } else {
        proof {
            law_lists_of_lists_shrink(
                list,
                0,
                references_per_fragment(threshold as int),
                content_size,
                flags,
            );
        }
        list_hash(
            list_of_parts(list, content_size, flags, threshold, digest),
            content_size,
            flags,
            threshold,
            digest,
        )
    }
}

/// The hash that content is written under once it is to be cut: that of its bytes where there is one
/// chunk, and otherwise that of the list of its chunks.
pub open spec fn cut_hash(
    content: Seq<u8>,
    flags: u32,
    fixed_size_chunk: usize,
    sizes: ChunkSizes,
    digest: spec_fn(Seq<u8>) -> crate::types::Hash,
) -> crate::types::Hash {
    let bounds = chunk_bounds(content, fixed_size_chunk, sizes, 0);
    let chunks = chunk_plans(flags, bounds);
    if one_chunk(bounds) {
        digest(content)
    } else {
        list_hash(
            references(
                chunks.map_values(|c: ChunkPlan| c.start as u64),
                chunk_hashes(content, chunks, digest),
            ),
            content.len() as u64,
            flags,
            sizes.threshold,
            digest,
        )
    }
}

/// The hash that a file is written under.
pub open spec fn written_hash(
    content: Seq<u8>,
    flags: u32,
    fixed_size_chunk: usize,
    sizes: ChunkSizes,
    digest: spec_fn(Seq<u8>) -> crate::types::Hash,
) -> crate::types::Hash {
    if content.len() == 0 {
        crate::types::Hash { high: 0, low: 0 }
    } else if content.len() <= sizes.threshold {
        digest(content)
    } else {
        cut_hash(content, flags, fixed_size_chunk, sizes, digest)
    }
}

/// The hash of a file, as a plan says. `same` is whether a comparison found the earlier version.
pub open spec fn planned_hash(
    plan: HashPlan,
    same: bool,
    content: Seq<u8>,
    sizes: ChunkSizes,
    digest: spec_fn(Seq<u8>) -> crate::types::Hash,
) -> crate::types::Hash {
    match plan {
        HashPlan::Empty => crate::types::Hash { high: 0, low: 0 },
        HashPlan::Whole => digest(content),
        HashPlan::Compare(previous) => if same {
            previous.hash
        } else {
            cut_hash(content, 0, 0, sizes, digest)
        },
        HashPlan::Split => cut_hash(content, 0, 0, sizes, digest),
    }
}

/// Where a list is cut does not depend on its flags.
proof fn lemma_parts_whatever_the_flags(
    list: Seq<FragmentReference>,
    from: int,
    most: int,
    content_size: u64,
    flags: u32,
    other: u32,
)
    requires
        0 <= from,
    ensures
        ({
            let a = list_parts(list, from, most, content_size, flags);
            let b = list_parts(list, from, most, content_size, other);
            &&& a.len() == b.len()
            &&& forall|i: int|
                0 <= i < a.len() ==> (#[trigger] a[i]).from == b[i].from && a[i].to == b[i].to
                    && a[i].offset_content == b[i].offset_content
        }),
    decreases list.len() - from,
{
    if from < list.len() && most > 0 {
        let to = if from + most < list.len() {
            from + most
        } else {
            list.len() as int
        };
        lemma_parts_whatever_the_flags(list, to, most, content_size, flags, other);
        let a = list_parts(list, from, most, content_size, flags);
        let b = list_parts(list, from, most, content_size, other);
        let c = list_parts(list, to, most, content_size, flags);
        let d = list_parts(list, to, most, content_size, other);
        assert forall|i: int| 0 <= i < a.len() implies (#[trigger] a[i]).from == b[i].from
            && a[i].to == b[i].to && a[i].offset_content == b[i].offset_content by {
            if i > 0 {
                assert(a[i] == c[i - 1] && b[i] == d[i - 1]);
            }
        }
    }
}

/// The hash of a list does not depend on its flags.
proof fn lemma_list_hash_whatever_the_flags(
    list: Seq<FragmentReference>,
    content_size: u64,
    flags: u32,
    other: u32,
    threshold: u32,
    digest: spec_fn(Seq<u8>) -> crate::types::Hash,
)
    ensures
        list_hash(list, content_size, flags, threshold, digest) == list_hash(
            list,
            content_size,
            other,
            threshold,
            digest,
        ),
    decreases list.len(),
{
    if !(fits(list, threshold as int) || threshold < 80) {
        let most = references_per_fragment(threshold as int);
        law_lists_of_lists_shrink(list, 0, most, content_size, flags);
        lemma_parts_whatever_the_flags(list, 0, most, content_size, flags, other);
        let next = list_of_parts(list, content_size, flags, threshold, digest);
        assert(next =~= list_of_parts(list, content_size, other, threshold, digest));
        lemma_list_hash_whatever_the_flags(next, content_size, flags, other, threshold, digest);
    }
}

/// The hash of content that is cut does not depend on the flags that it is written with.
proof fn lemma_cut_hash_whatever_the_flags(
    content: Seq<u8>,
    flags: u32,
    other: u32,
    fixed_size_chunk: usize,
    sizes: ChunkSizes,
    digest: spec_fn(Seq<u8>) -> crate::types::Hash,
)
    ensures
        cut_hash(content, flags, fixed_size_chunk, sizes, digest) == cut_hash(
            content,
            other,
            fixed_size_chunk,
            sizes,
            digest,
        ),
{
    let bounds = chunk_bounds(content, fixed_size_chunk, sizes, 0);
    let a = chunk_plans(flags, bounds);
    let b = chunk_plans(other, bounds);
    let start = |c: ChunkPlan| c.start as u64;
    let list = references(a.map_values(start), chunk_hashes(content, a, digest));
    assert(list =~= references(b.map_values(start), chunk_hashes(content, b, digest)));
    lemma_list_hash_whatever_the_flags(
        list,
        content.len() as u64,
        flags,
        other,
        sizes.threshold,
        digest,
    );
}

/// Hashing a file gives the hash that the file is written under where its content says how it is cut:
/// without an earlier version, and in any case where the file is another than the earlier version.
/// An empty file has the hash of zero bytes, and one that fits a fragment the hash of its bytes,
/// whatever the earlier version was.
pub proof fn law_hashing_gives_the_hash_of_writing(
    content: Seq<u8>,
    flags: u32,
    sizes: ChunkSizes,
    digest: spec_fn(Seq<u8>) -> crate::types::Hash,
    previous: Option<Address>,
    previous_size: Option<usize>,
    same: bool,
)
    requires
        content.len() <= usize::MAX,
    ensures
        ({
            let size = content.len() as usize;
            let plan = hash_plan(size, sizes.threshold, previous, previous_size);
            let hash = planned_hash(plan, same, content, sizes, digest);
            &&& previous is None || !same ==> hash == written_hash(content, flags, 0, sizes, digest)
            &&& content.len() == 0 ==> hash == (crate::types::Hash { high: 0, low: 0 })
            &&& 0 < content.len() <= sizes.threshold ==> hash == digest(content)
            &&& content.len() <= sizes.threshold ==> hash == written_hash(
                content,
                flags,
                0,
                sizes,
                digest,
            )
        }),
{
    lemma_cut_hash_whatever_the_flags(content, flags, 0, 0, sizes, digest);
}

/// A file is compared with an earlier version only if there is one, with an address, and it does not
/// have another size; and only if the file is too large for one fragment. Whatever is too large and
/// cannot be compared is cut.
pub proof fn law_only_earlier_versions_are_compared(
    file_size: usize,
    threshold: u32,
    previous: Option<Address>,
    previous_size: Option<usize>,
)
    ensures
        ({
            let plan = hash_plan(file_size, threshold, previous, previous_size);
            let known = previous is Some && !(previous->0.hash.high == 0 && previous->0.hash.low == 0
                && previous->0.context.value == 0);
            &&& plan == HashPlan::Empty <==> file_size == 0
            &&& plan == HashPlan::Whole <==> 0 < file_size <= threshold
            &&& plan is Compare <==> file_size > threshold && known && (previous_size is Some
                ==> previous_size->0 == file_size)
            &&& plan is Compare ==> plan == HashPlan::Compare(previous->0)
            &&& plan == HashPlan::Split <==> file_size > threshold && !(known && (previous_size
                is Some ==> previous_size->0 == file_size))
        }),
{
}

/// A file is compared only with a list, of chunks that there are, of content that has its size.
pub proof fn law_only_lists_of_the_size_are_compared(
    fragment: Fragment,
    list: Seq<FragmentReference>,
    file_size: u64,
)
    ensures
        HashCheck::comparable(fragment, list, file_size) ==> fragment.size_content == file_size
            && list.len() > 0 && fragment.flags & PAYLOAD_FRAGMENTED != 0,
        fragment.size_content == file_size && list.len() > 0 && fragment.flags & PAYLOAD_FRAGMENTED
            != 0 ==> HashCheck::comparable(fragment, list, file_size),
{
}

/// Only a list takes the place of a chunk that is too long: a fragment that is no list counts as a
/// difference, and so does one that could not be loaded. A list is taken for the chunk that it stands
/// for, and the other chunks stay.
pub proof fn law_only_lists_are_taken_apart(
    before: HashCheck,
    after: HashCheck,
    fragment: Fragment,
    sub: Seq<FragmentReference>,
    buffer_len: usize,
)
    requires
        before.index < before.list@.len(),
        HashCheck::taken_apart(before, after, fragment, sub),
    ensures
        fragment.flags & PAYLOAD_FRAGMENTED == 0 ==> after.action(buffer_len)
            == CompareAction::Different,
        fragment.flags & PAYLOAD_FRAGMENTED != 0 ==> {
            let i = before.index as int;
            &&& after.index == before.index
            &&& after.different == before.different
            &&& after.list@.len() == before.list@.len() - 1 + sub.len()
            &&& forall|k: int| 0 <= k < i ==> #[trigger] after.list@[k] == before.list@[k]
            &&& forall|k: int| 0 <= k < sub.len() ==> after.list@[i + k] == #[trigger] sub[k]
            &&& forall|k: int|
                i < k < before.list@.len() ==> after.list@[k - 1 + sub.len()]
                    == #[trigger] before.list@[k]
        },
{
}

/// A chunk with another hash, or a list that could not be loaded, ends a comparison: the file is
/// another, whatever else would have been compared. A chunk with its hash leads on to the next.
pub proof fn law_one_difference_is_enough(
    before: HashCheck,
    after: HashCheck,
    hash: crate::types::Hash,
    buffer_len: usize,
)
    requires
        before.index < before.list@.len(),
    ensures
        HashCheck::compared(before, after, hash) && hash
            != before.list@[before.index as int].hash ==> after.action(buffer_len)
            == CompareAction::Different,
        HashCheck::compared(before, after, hash) && hash
            == before.list@[before.index as int].hash ==> after.index == before.index + 1
            && after.list@ == before.list@ && after.different == before.different,
        HashCheck::gave_up(before, after) ==> after.action(buffer_len) == CompareAction::Different,
{
}

/// Whether a byte of a file is in a chunk of a list.
pub open spec fn in_chunk(list: Seq<FragmentReference>, i: int, file_size: u64, at: int) -> bool {
    let end = if i + 1 < list.len() {
        list[i + 1].offset_content as int
    } else {
        file_size as int
    };
    list[i].offset_content <= at < end
}

/// A comparison that says that a file is the same leaves no byte out: where the list begins with the
/// file, every byte of it is in a chunk that has the hash of its bytes.
pub proof fn law_same_means_every_byte_was_hashed(
    states: Seq<HashCheck>,
    content: Seq<u8>,
    digest: spec_fn(Seq<u8>) -> crate::types::Hash,
    at: int,
)
    requires
        content.len() <= usize::MAX,
        compare_run(states, content, digest),
        states.last().action(content.len() as usize) == CompareAction::Same,
        states.last().list@.len() > 0,
        states.last().list@[0].offset_content == 0,
        0 <= at < states.last().file_size,
    ensures
        exists|i: int|
            0 <= i < states.last().list@.len() && #[trigger] in_chunk(
                states.last().list@,
                i,
                states.last().file_size,
                at,
            ) && chunk_holds(states.last().list@, i, states.last().file_size, content, digest),
{
    let last = states.last();
    lemma_chunk_of_byte(last.list@, last.file_size, at, 0);
    let i = choose|i: int|
        0 <= i < last.list@.len() && #[trigger] in_chunk(last.list@, i, last.file_size, at);
    law_same_means_every_chunk_was_hashed(states, content, digest, i);
}

/// A byte from where a chunk begins on is in it or in a later one.
proof fn lemma_chunk_of_byte(list: Seq<FragmentReference>, file_size: u64, at: int, from: int)
    requires
        0 <= from < list.len(),
        list[from].offset_content <= at < file_size,
    ensures
        exists|i: int| from <= i < list.len() && #[trigger] in_chunk(list, i, file_size, at),
    decreases list.len() - from,
{
    if !in_chunk(list, from, file_size, at) {
        lemma_chunk_of_byte(list, file_size, at, from + 1);
        let i = choose|i: int|
            from + 1 <= i < list.len() && #[trigger] in_chunk(list, i, file_size, at);
        assert(in_chunk(list, i, file_size, at));
    }
}

} // verus!
