//! Splitting content into fragments, and listing them.
//!
//! Content that is too large for one fragment is cut into chunks, and a list of references to them
//! becomes a fragment of its own. A list that is too large is cut in turn, until one list is left.
use vstd::prelude::*;

use crate::encoding::{
    be_bytes, be_value, law_be_round_trip, law_le_round_trip, le_bytes, le_value, lemma_lengths,
    lemma_spans, push_be, push_le, read_be, read_le, span,
};
use crate::types::{Fragment, PAYLOAD_FRAGMENTED};

verus! {

/// The length of a reference in a list: a hash and an offset.
pub const REFERENCE_SIZE: usize = 40;

/// A reference to a fragment: its hash, and where its content begins in the whole.
#[derive(Clone, Copy, Debug, PartialEq, Eq, Structural)]
pub struct FragmentReference {
    pub hash: crate::types::Hash,
    pub offset_content: u64,
}

/// The sizes between which content is cut where the content says so.
#[derive(Clone, Copy, Debug, PartialEq, Eq, Structural)]
pub struct ChunkSizes {
    /// No chunk but the last is smaller than this, rounded down to an even number.
    pub minimum: u32,
    /// Around which size cuts are looked for.
    pub expected: u32,
    /// No chunk is larger. This is also the most bytes that a fragment may have.
    pub threshold: u32,
}

impl ChunkSizes {
    /// Sizes that the cutting accepts.
    pub open spec fn valid(self) -> bool {
        &&& 64 <= self.minimum <= 0x10_0000
        &&& 256 <= self.expected <= 0x40_0000
        &&& 1024 <= self.threshold <= 0x100_0000
        &&& self.minimum <= self.expected <= self.threshold
    }

    /// Whether the cutting accepts the sizes.
    pub fn is_valid(&self) -> (r: bool)
        ensures
            r == self.valid(),
    {
        64 <= self.minimum && self.minimum <= 0x10_0000 && 256 <= self.expected && self.expected
            <= 0x40_0000 && 1024 <= self.threshold && self.threshold <= 0x100_0000 && self.minimum
            <= self.expected && self.expected <= self.threshold
    }
}

/// Where the content itself says that a chunk ends, by a rolling hash over its bytes.
pub uninterp spec fn content_cut(
    source: Seq<u8>,
    minimum: u32,
    expected: u32,
    threshold: u32,
    start: usize,
    remaining: usize,
) -> usize;

/// `FastCDC::with_level`, at the first level of normalisation, with `FastCDC::cut`: where the chunk
/// that begins at `start` ends, which the bytes and the sizes decide. It ends behind its start and
/// not past the remaining bytes, is no larger than the largest size, and takes all that remains
/// where that is no more than the smallest.
#[verifier::external_body]
fn next_cut(
    source: &[u8],
    minimum: u32,
    expected: u32,
    threshold: u32,
    start: usize,
    remaining: usize,
) -> (r: usize)
    requires
        64 <= minimum <= 0x10_0000,
        256 <= expected <= 0x40_0000,
        1024 <= threshold <= 0x100_0000,
        minimum <= expected <= threshold,
        start + remaining <= source@.len(),
        remaining > 0,
    ensures
        r == content_cut(source@, minimum, expected, threshold, start, remaining),
        start < r <= start + remaining,
        r - start <= threshold,
        remaining <= minimum ==> r == start + remaining,
{
    fastcdc::v2020::FastCDC::with_level(
        source,
        minimum,
        expected,
        threshold,
        fastcdc::v2020::Normalization::Level1,
    ).cut(start, remaining).1
}

/// Where a chunk ends: after a fixed size, where one is given, and otherwise where the content says.
pub open spec fn chunk_end(
    source: Seq<u8>,
    fixed_size_chunk: usize,
    sizes: ChunkSizes,
    start: int,
) -> int {
    let remaining = source.len() - start;
    if fixed_size_chunk > 0 {
        if fixed_size_chunk < remaining {
            start + fixed_size_chunk
        } else {
            source.len() as int
        }
    } else {
        content_cut(
            source,
            sizes.minimum,
            sizes.expected,
            sizes.threshold,
            start as usize,
            remaining as usize,
        ) as int
    }
}

/// Where the chunks of a content begin, from `start` on. The last number is the end of the content.
/// A chunk that would not go on, or past the end, ends the list.
pub open spec fn chunk_bounds(
    source: Seq<u8>,
    fixed_size_chunk: usize,
    sizes: ChunkSizes,
    start: int,
) -> Seq<usize>
    decreases source.len() - start,
{
    let end = chunk_end(source, fixed_size_chunk, sizes, start);
    if start >= source.len() || end <= start || end > source.len() {
        seq![start as usize]
    } else {
        seq![start as usize] + chunk_bounds(source, fixed_size_chunk, sizes, end)
    }
}

/// Cuts content into chunks. Gives where each begins, and the end of the last.
pub fn split_content(source: &[u8], fixed_size_chunk: usize, sizes: &ChunkSizes) -> (r: Vec<usize>)
    requires
        sizes.valid(),
    ensures
        r@ == chunk_bounds(source@, fixed_size_chunk, *sizes, 0),
        r@.len() >= 1,
        r@[0] == 0,
        r@.last() == source@.len(),
        forall|i: int| 0 <= i < r@.len() - 1 ==> #[trigger] r@[i] < r@[i + 1],
        forall|i: int|
            0 <= i < r@.len() - 1 ==> (#[trigger] r@[i + 1]) - r@[i] <= if fixed_size_chunk > 0 {
                fixed_size_chunk as int
            } else {
                sizes.threshold as int
            },
{
    let size: usize = source.len();
    let mut bounds: Vec<usize> = Vec::new();
    let mut offset: usize = 0;
    bounds.push(0);
    let ghost goal = chunk_bounds(source@, fixed_size_chunk, *sizes, 0);
    let ghost most: int = if fixed_size_chunk > 0 {
        fixed_size_chunk as int
    } else {
        sizes.threshold as int
    };
    assert(bounds@.drop_last() =~= Seq::empty());
    assert(bounds@.drop_last() + goal =~= goal);
    while offset < size
        invariant
            sizes.valid(),
            size == source@.len(),
            offset <= size,
            bounds@.len() >= 1,
            bounds@[0] == 0,
            bounds@.last() == offset,
            goal == bounds@.drop_last() + chunk_bounds(
                source@,
                fixed_size_chunk,
                *sizes,
                offset as int,
            ),
            most == (if fixed_size_chunk > 0 {
                fixed_size_chunk as int
            } else {
                sizes.threshold as int
            }),
            forall|i: int| 0 <= i < bounds@.len() - 1 ==> #[trigger] bounds@[i] < bounds@[i + 1],
            forall|i: int|
                0 <= i < bounds@.len() - 1 ==> (#[trigger] bounds@[i + 1]) - bounds@[i] <= most,
        decreases size - offset,
    {
        let remain: usize = size - offset;
        let end: usize = if fixed_size_chunk > 0 {
            if fixed_size_chunk < remain {
                offset + fixed_size_chunk
            } else {
                size
            }
        } else {
            next_cut(source, sizes.minimum, sizes.expected, sizes.threshold, offset, remain)
        };
        let ghost before = bounds@;
        bounds.push(end);
        proof {
            assert(bounds@.drop_last() =~= before);
            assert(before =~= before.drop_last().push(offset));
            assert(before + chunk_bounds(source@, fixed_size_chunk, *sizes, end as int)
                =~= before.drop_last() + (seq![offset] + chunk_bounds(
                source@,
                fixed_size_chunk,
                *sizes,
                end as int,
            )));
        }
        offset = end;
    }
    assert(bounds@ =~= bounds@.drop_last() + seq![offset]);
    bounds
}

/// What is to be stored for one chunk: where it lies in the content, and its fragment.
#[derive(Clone, Copy, Debug, PartialEq, Eq, Structural)]
pub struct ChunkPlan {
    pub start: usize,
    pub end: usize,
    pub fragment: Fragment,
}

/// The chunk between two bounds.
pub open spec fn chunk_plan(flags: u32, start: usize, end: usize) -> ChunkPlan {
    ChunkPlan {
        start,
        end,
        fragment: Fragment {
            flags,
            size_payload: (end - start) as u32,
            size_content: (end - start) as u64,
        },
    }
}

/// The chunks between some bounds.
pub open spec fn chunk_plans(flags: u32, bounds: Seq<usize>) -> Seq<ChunkPlan> {
    Seq::new(
        (bounds.len() - 1) as nat,
        |i: int| chunk_plan(flags, bounds[i], bounds[i + 1]),
    )
}

/// Plans the chunks between some bounds: what is to be stored for each, in order.
pub fn plan_chunks(bounds: &Vec<usize>, flags: u32) -> (r: Vec<ChunkPlan>)
    requires
        bounds@.len() >= 1,
        forall|k: int|
            0 <= k < bounds@.len() - 1 ==> 0 <= (#[trigger] bounds@[k + 1]) - bounds@[k]
                <= u32::MAX,
    ensures
        r@ == chunk_plans(flags, bounds@),
{
    let mut chunks: Vec<ChunkPlan> = Vec::new();
    let mut i: usize = 0;
    let count: usize = bounds.len() - 1;
    let ghost goal = chunk_plans(flags, bounds@);
    while i < count
        invariant
            count == bounds@.len() - 1,
            i <= count,
            goal == chunk_plans(flags, bounds@),
            chunks@ =~= goal.take(i as int),
            forall|k: int|
                0 <= k < bounds@.len() - 1 ==> 0 <= (#[trigger] bounds@[k + 1]) - bounds@[k]
                    <= u32::MAX,
        decreases count - i,
    {
        let start: usize = bounds[i];
        let end: usize = bounds[i + 1];
        assert(0 <= bounds@[i + 1] - bounds@[i as int] <= u32::MAX);
        let size: usize = end - start;
        chunks.push(
            ChunkPlan {
                start,
                end,
                fragment: Fragment {
                    flags,
                    size_payload: size as u32,
                    size_content: size as u64,
                },
            },
        );
        i = i + 1;
    }
    assert(chunks@ =~= goal);
    chunks
}

/// How content that is cut is written.
pub enum FragmentedPlan {
    /// Everything is in a single chunk: it is stored as it is, with this fragment, and needs no
    /// list.
    Single(Fragment),
    /// The chunks to store, in order. Their list is stored after them.
    Listed(Vec<ChunkPlan>),
}

/// Whether bounds are those of a single chunk.
pub open spec fn one_chunk(bounds: Seq<usize>) -> bool {
    bounds.len() == 2
}

/// Plans how content is written that is to be cut.
pub fn write_fragmented(buffer: &[u8], flags: u32, fixed_size_chunk: usize, sizes: &ChunkSizes) -> (r:
    FragmentedPlan)
    requires
        sizes.valid(),
        fixed_size_chunk <= u32::MAX,
    ensures
        ({
            let bounds = chunk_bounds(buffer@, fixed_size_chunk, *sizes, 0);
            match r {
                FragmentedPlan::Single(fragment) => one_chunk(bounds) && fragment == (Fragment {
                    flags,
                    size_payload: buffer@.len() as u32,
                    size_content: buffer@.len() as u64,
                }),
                FragmentedPlan::Listed(chunks) => !one_chunk(bounds) && chunks@ == chunk_plans(
                    flags,
                    bounds,
                ) && covers(chunks@, buffer@.len() as int, flags),
            }
        }),
{
    let bounds = split_content(buffer, fixed_size_chunk, sizes);
    proof {
        assert forall|k: int| 0 <= k < bounds@.len() - 1 implies 0 <= (#[trigger] bounds@[k + 1])
            - bounds@[k] <= u32::MAX by {
            assert(bounds@[k] < bounds@[k + 1]);
        }
        lemma_plans_cover(flags, bounds@, buffer@.len() as int);
    }
    if bounds.len() == 2 {
        let size: usize = buffer.len();
        return FragmentedPlan::Single(
            Fragment { flags, size_payload: size as u32, size_content: size as u64 },
        );
    }
    FragmentedPlan::Listed(plan_chunks(&bounds, flags))
}

/// Whether some chunks make up a content: each begins where the one before it ends, none is empty,
/// and each has its size on its fragment.
pub open spec fn covers(chunks: Seq<ChunkPlan>, size: int, flags: u32) -> bool {
    &&& size == 0 <==> chunks.len() == 0
    &&& chunks.len() > 0 ==> chunks[0].start == 0 && chunks.last().end == size
    &&& forall|i: int| 0 <= i < chunks.len() - 1 ==> (#[trigger] chunks[i]).end == chunks[i + 1].start
    &&& forall|i: int| 0 <= i < chunks.len() ==> (#[trigger] chunks[i]).start < chunks[i].end
    &&& forall|i: int|
        0 <= i < chunks.len() ==> (#[trigger] chunks[i]).fragment == (Fragment {
            flags,
            size_payload: (chunks[i].end - chunks[i].start) as u32,
            size_content: (chunks[i].end - chunks[i].start) as u64,
        })
}

/// The chunks between increasing bounds make up the content.
proof fn lemma_plans_cover(flags: u32, bounds: Seq<usize>, size: int)
    requires
        bounds.len() >= 1,
        bounds[0] == 0,
        bounds.last() == size,
        forall|k: int| 0 <= k < bounds.len() - 1 ==> #[trigger] bounds[k] < bounds[k + 1],
    ensures
        covers(chunk_plans(flags, bounds), size, flags),
{
    let chunks = chunk_plans(flags, bounds);
    if bounds.len() > 1 {
        lemma_bounds_increase(bounds, 0, bounds.len() - 1);
    }
    assert forall|i: int| 0 <= i < chunks.len() implies (#[trigger] chunks[i]).start
        < chunks[i].end by {
        assert(bounds[i] < bounds[i + 1]);
    }
}

/// Bounds that increase step by step increase altogether.
proof fn lemma_bounds_increase(bounds: Seq<usize>, i: int, j: int)
    requires
        0 <= i < j < bounds.len(),
        forall|k: int| 0 <= k < bounds.len() - 1 ==> #[trigger] bounds[k] < bounds[k + 1],
    ensures
        bounds[i] < bounds[j],
    decreases j - i,
{
    assert(bounds[j - 1] < bounds[j - 1 + 1]);
    if i < j - 1 {
        lemma_bounds_increase(bounds, i, j - 1);
    }
}

/// The references to some chunks: their hashes, and where they begin.
pub open spec fn references(
    starts: Seq<u64>,
    hashes: Seq<crate::types::Hash>,
) -> Seq<FragmentReference> {
    Seq::new(
        starts.len(),
        |i: int| FragmentReference { hash: hashes[i], offset_content: starts[i] },
    )
}

/// Lists chunks by their hashes, in the order of the content.
pub fn list_chunks(chunks: &Vec<ChunkPlan>, hashes: &Vec<crate::types::Hash>) -> (r: Vec<
    FragmentReference,
>)
    requires
        hashes@.len() == chunks@.len(),
    ensures
        r@ == references(chunks@.map_values(|c: ChunkPlan| c.start as u64), hashes@),
{
    let mut list: Vec<FragmentReference> = Vec::new();
    let mut i: usize = 0;
    let ghost goal = references(chunks@.map_values(|c: ChunkPlan| c.start as u64), hashes@);
    while i < chunks.len()
        invariant
            i <= chunks@.len() == hashes@.len(),
            goal == references(chunks@.map_values(|c: ChunkPlan| c.start as u64), hashes@),
            list@ =~= goal.take(i as int),
        decreases chunks@.len() - i,
    {
        list.push(
            FragmentReference { hash: hashes[i], offset_content: chunks[i].start as u64 },
        );
        i = i + 1;
    }
    assert(list@ =~= goal);
    list
}

/// The bytes of a reference.
pub open spec fn reference_bytes(reference: FragmentReference) -> Seq<u8> {
    be_bytes(reference.hash.high as nat, 16) + be_bytes(reference.hash.low as nat, 16) + le_bytes(
        reference.offset_content as nat,
        8,
    )
}

/// The bytes of a list of references.
pub open spec fn list_bytes(list: Seq<FragmentReference>) -> Seq<u8>
    decreases list.len(),
{
    if list.len() == 0 {
        Seq::empty()
    } else {
        list_bytes(list.drop_last()) + reference_bytes(list.last())
    }
}

/// The length of a list's bytes.
pub proof fn lemma_list_length(list: Seq<FragmentReference>)
    ensures
        list_bytes(list).len() == 40 * list.len(),
    decreases list.len(),
{
    if list.len() > 0 {
        lemma_list_length(list.drop_last());
        lemma_lengths(list.last().hash.high as nat, 16);
        lemma_lengths(list.last().hash.low as nat, 16);
        lemma_lengths(list.last().offset_content as nat, 8);
    }
}

/// The bytes of a part of a list.
pub fn encode_list(list: &Vec<FragmentReference>, from: usize, to: usize) -> (r: Vec<u8>)
    requires
        from <= to <= list@.len(),
    ensures
        r@ == list_bytes(list@.subrange(from as int, to as int)),
{
    let mut bytes: Vec<u8> = Vec::new();
    let mut i: usize = from;
    assert(list@.subrange(from as int, from as int) =~= Seq::empty());
    while i < to
        invariant
            from <= i <= to <= list@.len(),
            bytes@ == list_bytes(list@.subrange(from as int, i as int)),
        decreases to - i,
    {
        let ghost before = bytes@;
        push_be(&mut bytes, list[i].hash.high);
        push_be(&mut bytes, list[i].hash.low);
        push_le(&mut bytes, list[i].offset_content as u128, 8);
        proof {
            let part = list@.subrange(from as int, i + 1);
            assert(part.drop_last() =~= list@.subrange(from as int, i as int));
            assert(bytes@ =~= before + reference_bytes(list@[i as int]));
        }
        i = i + 1;
    }
    bytes
}

/// What is to be stored for one part of a list: which references, its fragment, and where its
/// content begins in the whole.
#[derive(Clone, Copy, Debug, PartialEq, Eq, Structural)]
pub struct ListPart {
    pub from: usize,
    pub to: usize,
    pub fragment: Fragment,
    pub offset_content: u64,
}

/// How many references one fragment can hold.
pub open spec fn references_per_fragment(threshold: int) -> int {
    threshold / 40
}

/// Whether the references of a list are in the order of the content and lie within it.
pub open spec fn ordered(list: Seq<FragmentReference>, content_size: u64) -> bool {
    &&& forall|i: int, j: int|
        0 <= i <= j < list.len() ==> (#[trigger] list[i]).offset_content <= (
        #[trigger] list[j]).offset_content
    &&& forall|i: int| 0 <= i < list.len() ==> (#[trigger] list[i]).offset_content <= content_size
}

/// Where the content of a part ends: where the next reference begins, or the content ends.
pub open spec fn content_end(list: Seq<FragmentReference>, to: int, content_size: u64) -> u64 {
    if to < list.len() {
        list[to].offset_content
    } else {
        content_size
    }
}

/// The part of a list between two places.
pub open spec fn list_part(
    list: Seq<FragmentReference>,
    from: int,
    to: int,
    content_size: u64,
    flags: u32,
) -> ListPart {
    ListPart {
        from: from as usize,
        to: to as usize,
        fragment: Fragment {
            flags: flags | PAYLOAD_FRAGMENTED,
            size_payload: (40 * (to - from)) as u32,
            size_content: (content_end(list, to, content_size) - list[from].offset_content) as u64,
        },
        offset_content: (list[from].offset_content - list[0].offset_content) as u64,
    }
}

/// The parts of a list, `most` references each but for the last.
pub open spec fn list_parts(
    list: Seq<FragmentReference>,
    from: int,
    most: int,
    content_size: u64,
    flags: u32,
) -> Seq<ListPart>
    decreases list.len() - from,
{
    if from >= list.len() || most <= 0 {
        Seq::empty()
    } else {
        let to = if from + most < list.len() {
            from + most
        } else {
            list.len() as int
        };
        seq![list_part(list, from, to, content_size, flags)] + list_parts(
            list,
            to,
            most,
            content_size,
            flags,
        )
    }
}

/// What is to be stored for a list.
pub enum ListPlan {
    /// The list is one fragment.
    Whole(Fragment),
    /// The list is stored in parts, and a list of the parts after them.
    Parts(Vec<ListPart>),
}

impl ListPlan {
    /// Whether what is stored for a list is held locally. The list that all is found from always is;
    /// parts of a list go by what the caller wants of the content.
    pub fn cache_local(&self, local_cache_priority: bool) -> (r: bool)
        ensures
            r == match *self {
                ListPlan::Whole(_) => true,
                ListPlan::Parts(_) => local_cache_priority,
            },
    {
        match self {
            ListPlan::Whole(_) => true,
            ListPlan::Parts(_) => local_cache_priority,
        }
    }
}

/// Whether a list fits one fragment.
pub open spec fn fits(list: Seq<FragmentReference>, threshold: int) -> bool {
    40 * list.len() <= threshold
}

/// Plans how a list is written: as one fragment where it fits, and in parts otherwise.
pub fn write_fragmentlist(
    list: &Vec<FragmentReference>,
    content_size: u64,
    flags: u32,
    threshold: u32,
) -> (r: ListPlan)
    requires
        ordered(list@, content_size),
        threshold >= 40,
        40 * list@.len() <= usize::MAX,
    ensures
        match r {
            ListPlan::Whole(fragment) => fits(list@, threshold as int) && fragment == (Fragment {
                flags: flags | PAYLOAD_FRAGMENTED,
                size_payload: (40 * list@.len()) as u32,
                size_content: content_size,
            }),
            ListPlan::Parts(parts) => !fits(list@, threshold as int) && parts@ == list_parts(
                list@,
                0,
                references_per_fragment(threshold as int),
                content_size,
                flags,
            ),
        },
{
    let count: usize = list.len();
    if count * REFERENCE_SIZE <= threshold as usize {
        return ListPlan::Whole(
            Fragment {
                flags: flags | PAYLOAD_FRAGMENTED,
                size_payload: (count * REFERENCE_SIZE) as u32,
                size_content: content_size,
            },
        );
    }
    let most: usize = threshold as usize / REFERENCE_SIZE;
    let mut parts: Vec<ListPart> = Vec::new();
    let ghost goal = list_parts(list@, 0, most as int, content_size, flags);
    let mut from: usize = 0;
    assert(parts@ + goal =~= goal);
    while from < count
        invariant
            ordered(list@, content_size),
            count == list@.len(),
            40 * count <= usize::MAX,
            from <= count,
            most == references_per_fragment(threshold as int),
            most >= 1,
            goal == parts@ + list_parts(list@, from as int, most as int, content_size, flags),
        decreases count - from,
    {
        let to: usize = if most < count - from {
            from + most
        } else {
            count
        };
        let end: u64 = if to < count {
            list[to].offset_content
        } else {
            content_size
        };
        let start: u64 = list[from].offset_content;
        proof {
            assert(list@[0].offset_content <= list@[from as int].offset_content);
            if to < count {
                assert(list@[from as int].offset_content <= list@[to as int].offset_content);
            } else {
                assert(list@[from as int].offset_content <= content_size);
            }
            assert(40 * most <= threshold);
        }
        let part = ListPart {
            from,
            to,
            fragment: Fragment {
                flags: flags | PAYLOAD_FRAGMENTED,
                size_payload: ((to - from) * REFERENCE_SIZE) as u32,
                size_content: end - start,
            },
            offset_content: start - list[0].offset_content,
        };
        let ghost before = parts@;
        parts.push(part);
        proof {
            assert(part == list_part(list@, from as int, to as int, content_size, flags));
            assert(parts@ + list_parts(list@, to as int, most as int, content_size, flags)
                =~= before + (seq![part] + list_parts(
                list@,
                to as int,
                most as int,
                content_size,
                flags,
            )));
        }
        from = to;
    }
    assert(parts@ =~= goal);
    ListPlan::Parts(parts)
}

/// Lists the parts of a list by their hashes.
pub fn list_list_parts(parts: &Vec<ListPart>, hashes: &Vec<crate::types::Hash>) -> (r: Vec<
    FragmentReference,
>)
    requires
        hashes@.len() == parts@.len(),
    ensures
        r@ == references(parts@.map_values(|p: ListPart| p.offset_content), hashes@),
{
    let mut list: Vec<FragmentReference> = Vec::new();
    let mut i: usize = 0;
    let ghost goal = references(parts@.map_values(|p: ListPart| p.offset_content), hashes@);
    while i < parts.len()
        invariant
            i <= parts@.len() == hashes@.len(),
            goal == references(parts@.map_values(|p: ListPart| p.offset_content), hashes@),
            list@ =~= goal.take(i as int),
        decreases parts@.len() - i,
    {
        list.push(
            FragmentReference { hash: hashes[i], offset_content: parts[i].offset_content },
        );
        i = i + 1;
    }
    assert(list@ =~= goal);
    list
}

/// The reference at a place in a list's bytes.
pub open spec fn reference_at(bytes: Seq<u8>, at: int) -> FragmentReference {
    FragmentReference {
        hash: crate::types::Hash {
            high: be_value(bytes.subrange(at, at + 16)) as u128,
            low: be_value(bytes.subrange(at + 16, at + 32)) as u128,
        },
        offset_content: le_value(bytes.subrange(at + 32, at + 40)) as u64,
    }
}

/// The references that some bytes list.
pub open spec fn listed(bytes: Seq<u8>) -> Seq<FragmentReference> {
    Seq::new((bytes.len() / 40) as nat, |i: int| reference_at(bytes, 40 * i))
}

/// Reads a list of references.
pub fn decode_list(bytes: &[u8]) -> (r: Vec<FragmentReference>)
    ensures
        r@ == listed(bytes@),
{
    let count: usize = bytes.len() / REFERENCE_SIZE;
    let end: usize = bytes.len();
    let mut list: Vec<FragmentReference> = Vec::new();
    let mut i: usize = 0;
    let mut at: usize = 0;
    proof {
        lemma_spans();
    }
    while i < count
        invariant
            end == bytes@.len(),
            count == end / 40,
            i <= count,
            at == 40 * i,
            span(8) == 0x1_0000_0000_0000_0000,
            list@ =~= listed(bytes@).take(i as int),
        decreases count - i,
    {
        assert(at + 40 <= end);
        list.push(
            FragmentReference {
                hash: crate::types::Hash { high: read_be(bytes, at), low: read_be(bytes, at + 16) },
                offset_content: read_le(bytes, at + 32, 8) as u64,
            },
        );
        at = at + 40;
        i = i + 1;
    }
    assert(list@ =~= listed(bytes@));
    list
}

/// A list is read back from its bytes.
pub proof fn law_list_round_trip(list: Seq<FragmentReference>)
    ensures
        listed(list_bytes(list)) == list,
    decreases list.len(),
{
    lemma_list_length(list);
    let bytes = list_bytes(list);
    if list.len() > 0 {
        let rest = list.drop_last();
        law_list_round_trip(rest);
        lemma_list_length(rest);
        let last = list.last();
        let n = rest.len() as int;
        let front = list_bytes(rest);
        lemma_spans();
        law_be_round_trip(last.hash.high as nat, 16);
        law_be_round_trip(last.hash.low as nat, 16);
        law_le_round_trip(last.offset_content as nat, 8);
        assert(bytes.subrange(40 * n, 40 * n + 16) =~= be_bytes(last.hash.high as nat, 16));
        assert(bytes.subrange(40 * n + 16, 40 * n + 32) =~= be_bytes(last.hash.low as nat, 16));
        assert(bytes.subrange(40 * n + 32, 40 * n + 40) =~= le_bytes(
            last.offset_content as nat,
            8,
        ));
        assert(reference_at(bytes, 40 * n) == last);
        assert forall|i: int| 0 <= i < n implies #[trigger] listed(bytes)[i] == list[i] by {
            let at = 40 * i;
            assert(bytes.subrange(at, at + 16) =~= front.subrange(at, at + 16));
            assert(bytes.subrange(at + 16, at + 32) =~= front.subrange(at + 16, at + 32));
            assert(bytes.subrange(at + 32, at + 40) =~= front.subrange(at + 32, at + 40));
            assert(reference_at(bytes, at) == reference_at(front, at));
            assert(listed(front)[i] == rest[i]);
        }
    }
    assert(listed(bytes) =~= list);
}

/// The list of the chunks of a content is in the order of the content.
pub proof fn law_chunk_list_is_ordered(
    chunks: Seq<ChunkPlan>,
    size: int,
    flags: u32,
    hashes: Seq<crate::types::Hash>,
)
    requires
        covers(chunks, size, flags),
        hashes.len() == chunks.len(),
        0 <= size <= u64::MAX,
    ensures
        ordered(references(chunks.map_values(|c: ChunkPlan| c.start as u64), hashes), size as u64),
{
    let list = references(chunks.map_values(|c: ChunkPlan| c.start as u64), hashes);
    assert forall|i: int, j: int| 0 <= i <= j < list.len() implies (
    #[trigger] list[i]).offset_content <= (#[trigger] list[j]).offset_content by {
        lemma_chunks_in_order(chunks, size, flags, i, j);
        lemma_chunks_in_order(chunks, size, flags, j, chunks.len() - 1);
    }
    assert forall|i: int| 0 <= i < list.len() implies (#[trigger] list[i]).offset_content
        <= size as u64 by {
        lemma_chunks_in_order(chunks, size, flags, i, chunks.len() - 1);
        assert(chunks[chunks.len() - 1].start < chunks[chunks.len() - 1].end);
    }
}

/// Later chunks begin later.
proof fn lemma_chunks_in_order(chunks: Seq<ChunkPlan>, size: int, flags: u32, i: int, j: int)
    requires
        covers(chunks, size, flags),
        0 <= i <= j < chunks.len(),
    ensures
        chunks[i].start <= chunks[j].start,
        chunks[j].start < chunks[j].end,
    decreases j - i,
{
    assert(chunks[j].start < chunks[j].end);
    if i < j {
        lemma_chunks_in_order(chunks, size, flags, i, j - 1);
        assert(chunks[j - 1].end == chunks[j - 1 + 1].start);
    }
}

/// Whether some parts make up the rest of a list from a place on.
pub open spec fn parts_cover(
    parts: Seq<ListPart>,
    list: Seq<FragmentReference>,
    from: int,
    most: int,
    content_size: u64,
) -> bool {
    &&& from < list.len() <==> parts.len() > 0
    &&& parts.len() > 0 ==> parts[0].from == from && parts.last().to == list.len()
    &&& forall|i: int| 0 <= i < parts.len() - 1 ==> (#[trigger] parts[i]).to == parts[i + 1].from
    &&& forall|i: int|
        0 <= i < parts.len() ==> {
            let part = #[trigger] parts[i];
            &&& from <= part.from < part.to <= list.len()
            &&& part.to - part.from <= most
            &&& part.fragment.size_content == content_end(list, part.to as int, content_size)
                - list[part.from as int].offset_content
            &&& part.offset_content == list[part.from as int].offset_content
                - list[0].offset_content
        }
}

/// The parts of a list make up the list: each begins where the one before it ends, none is larger
/// than a fragment may be, and each has the size of its content.
pub proof fn law_parts_make_up_the_list(
    list: Seq<FragmentReference>,
    from: int,
    most: int,
    content_size: u64,
    flags: u32,
)
    requires
        ordered(list, content_size),
        0 <= from <= list.len() <= usize::MAX,
        most >= 1,
    ensures
        parts_cover(
            list_parts(list, from, most, content_size, flags),
            list,
            from,
            most,
            content_size,
        ),
    decreases list.len() - from,
{
    if from < list.len() {
        let to = if from + most < list.len() {
            from + most
        } else {
            list.len() as int
        };
        law_parts_make_up_the_list(list, to, most, content_size, flags);
        let rest = list_parts(list, to, most, content_size, flags);
        let first = list_part(list, from, to, content_size, flags);
        let parts = list_parts(list, from, most, content_size, flags);
        assert(parts =~= seq![first] + rest);
        assert(list[0].offset_content <= list[from].offset_content);
        if to < list.len() {
            assert(list[from].offset_content <= list[to].offset_content);
        } else {
            assert(list[from].offset_content <= content_size);
        }
        assert forall|i: int| 0 <= i < parts.len() - 1 implies (#[trigger] parts[i]).to == parts[i
            + 1].from by {
            if i > 0 {
                assert(parts[i] == rest[i - 1]);
                assert(rest[i - 1].to == rest[i - 1 + 1].from);
            } else {
                assert(rest[0].from == to);
            }
        }
        assert forall|i: int| 0 <= i < parts.len() implies {
            let part = #[trigger] parts[i];
            &&& from <= part.from < part.to <= list.len()
            &&& part.to - part.from <= most
            &&& part.fragment.size_content == content_end(list, part.to as int, content_size)
                - list[part.from as int].offset_content
            &&& part.offset_content == list[part.from as int].offset_content
                - list[0].offset_content
        } by {
            if i > 0 {
                assert(parts[i] == rest[i - 1]);
            }
        }
        if rest.len() > 0 {
            assert(parts.last() == rest.last());
        }
    }
}

/// The bytes of the parts' content add up to the whole.
pub open spec fn content_sizes(parts: Seq<ListPart>) -> int
    decreases parts.len(),
{
    if parts.len() == 0 {
        0
    } else {
        parts[0].fragment.size_content + content_sizes(parts.subrange(1, parts.len() as int))
    }
}

/// The contents of the parts of a list add up to the content that the list stands for.
pub proof fn law_parts_add_up_to_the_content(
    list: Seq<FragmentReference>,
    from: int,
    most: int,
    content_size: u64,
    flags: u32,
)
    requires
        ordered(list, content_size),
        0 <= from < list.len() <= usize::MAX,
        most >= 1,
    ensures
        content_sizes(list_parts(list, from, most, content_size, flags)) == content_size
            - list[from].offset_content,
    decreases list.len() - from,
{
    let to = if from + most < list.len() {
        from + most
    } else {
        list.len() as int
    };
    let rest = list_parts(list, to, most, content_size, flags);
    let parts = list_parts(list, from, most, content_size, flags);
    let first = list_part(list, from, to, content_size, flags);
    assert(parts =~= seq![first] + rest);
    assert(parts.subrange(1, parts.len() as int) =~= rest);
    if to < list.len() {
        assert(list[from].offset_content <= list[to].offset_content);
        law_parts_add_up_to_the_content(list, to, most, content_size, flags);
    } else {
        assert(list[from].offset_content <= content_size);
        assert(content_sizes(rest) == 0);
    }
}

/// The list of the parts of a list is shorter than the list, so that listing lists comes to an end.
pub proof fn law_lists_of_lists_shrink(
    list: Seq<FragmentReference>,
    from: int,
    most: int,
    content_size: u64,
    flags: u32,
)
    requires
        0 <= from <= list.len(),
        most >= 2,
    ensures
        2 * list_parts(list, from, most, content_size, flags).len() <= list.len() - from + 1,
    decreases list.len() - from,
{
    if from < list.len() {
        let to = if from + most < list.len() {
            from + most
        } else {
            list.len() as int
        };
        law_lists_of_lists_shrink(list, to, most, content_size, flags);
        let rest = list_parts(list, to, most, content_size, flags);
        let first = list_part(list, from, to, content_size, flags);
        assert(list_parts(list, from, most, content_size, flags) =~= seq![first] + rest);
    }
}

/// The list of the parts of a list that begins with the content is in the order of the content
/// again.
pub proof fn law_list_of_parts_is_ordered(
    list: Seq<FragmentReference>,
    most: int,
    content_size: u64,
    flags: u32,
    hashes: Seq<crate::types::Hash>,
)
    requires
        ordered(list, content_size),
        list.len() <= usize::MAX,
        most >= 1,
        hashes.len() == list_parts(list, 0, most, content_size, flags).len(),
    ensures
        ordered(
            references(
                list_parts(list, 0, most, content_size, flags).map_values(
                    |p: ListPart| p.offset_content,
                ),
                hashes,
            ),
            content_size,
        ),
{
    let parts = list_parts(list, 0, most, content_size, flags);
    law_parts_make_up_the_list(list, 0, most, content_size, flags);
    let next = references(parts.map_values(|p: ListPart| p.offset_content), hashes);
    assert forall|i: int, j: int| 0 <= i <= j < next.len() implies (
    #[trigger] next[i]).offset_content <= (#[trigger] next[j]).offset_content by {
        lemma_parts_in_order(parts, list, most, content_size, i, j);
        assert(parts[i].offset_content <= parts[j].offset_content);
    }
    assert forall|i: int| 0 <= i < next.len() implies (#[trigger] next[i]).offset_content
        <= content_size by {
        assert(parts[i].offset_content == list[parts[i].from as int].offset_content
            - list[0].offset_content);
        assert(list[parts[i].from as int].offset_content <= content_size);
    }
}

/// Later parts begin later.
proof fn lemma_parts_in_order(
    parts: Seq<ListPart>,
    list: Seq<FragmentReference>,
    most: int,
    content_size: u64,
    i: int,
    j: int,
)
    requires
        ordered(list, content_size),
        parts_cover(parts, list, 0, most, content_size),
        0 <= i <= j < parts.len(),
    ensures
        parts[i].from <= parts[j].from,
        parts[i].offset_content <= parts[j].offset_content,
    decreases j - i,
{
    if i < j {
        lemma_parts_in_order(parts, list, most, content_size, i, j - 1);
        assert(parts[j - 1].to == parts[j - 1 + 1].from);
        assert(parts[j - 1].from < parts[j - 1].to);
    }
    assert(list[parts[i].from as int].offset_content <= list[parts[j].from as int].offset_content);
}

/// The parts of a list are as large as they may be, but for the last. Each has the bytes of its
/// references as its payload, is marked as a list, and has the other flags that it was given.
pub proof fn law_parts_are_full(
    list: Seq<FragmentReference>,
    from: int,
    threshold: u32,
    content_size: u64,
    flags: u32,
    i: int,
)
    requires
        0 <= from <= list.len() <= usize::MAX,
        threshold >= 40,
        0 <= i < list_parts(
            list,
            from,
            references_per_fragment(threshold as int),
            content_size,
            flags,
        ).len(),
    ensures
        ({
            let parts = list_parts(
                list,
                from,
                references_per_fragment(threshold as int),
                content_size,
                flags,
            );
            let part = parts[i];
            &&& part.fragment.size_payload == 40 * (part.to - part.from)
            &&& part.fragment.size_payload <= threshold
            &&& i < parts.len() - 1 ==> part.fragment.size_payload + 40 > threshold
            &&& part.fragment.flags & PAYLOAD_FRAGMENTED != 0
            &&& part.fragment.flags & !PAYLOAD_FRAGMENTED == flags & !PAYLOAD_FRAGMENTED
        }),
    decreases list.len() - from,
{
    let most = references_per_fragment(threshold as int);
    let to = if from + most < list.len() {
        from + most
    } else {
        list.len() as int
    };
    lemma_list_flag(flags);
    let parts = list_parts(list, from, most, content_size, flags);
    let rest = list_parts(list, to, most, content_size, flags);
    if i > 0 {
        law_parts_are_full(list, to, threshold, content_size, flags, i - 1);
        assert(parts[i] == rest[i - 1]);
    } else {
        assert(parts[0] == list_part(list, from, to, content_size, flags));
        if parts.len() > 1 {
            assert(to < list.len());
        }
    }
}

/// The flag of a list.
proof fn lemma_list_flag(f: u32)
    by (bit_vector)
    ensures
        (f | 0x1u32) & 0x1u32 != 0,
        (f | 0x1u32) & !0x1u32 == f & !0x1u32,
{
}

/// A list is one fragment exactly if its bytes are no more than a fragment may have, which is so if
/// it has no more references than one part.
pub proof fn law_small_lists_are_one_fragment(list: Seq<FragmentReference>, threshold: u32)
    ensures
        fits(list, threshold as int) <==> list_bytes(list).len() <= threshold,
        fits(list, threshold as int) <==> list.len() <= references_per_fragment(threshold as int),
{
    lemma_list_length(list);
}

/// A reference takes 40 bytes: the hash, the most significant byte first, and the place in the
/// content, the least significant byte first. A list is its references, one after the other.
pub proof fn law_fields_of_a_reference_have_their_places(reference: FragmentReference)
    ensures
        ({
            let b = reference_bytes(reference);
            &&& b.len() == 40
            &&& be_value(b.subrange(0, 16)) == reference.hash.high
            &&& be_value(b.subrange(16, 32)) == reference.hash.low
            &&& le_value(b.subrange(32, 40)) == reference.offset_content
            &&& list_bytes(seq![reference]) == b
        }),
{
    let b = reference_bytes(reference);
    lemma_spans();
    law_be_round_trip(reference.hash.high as nat, 16);
    law_be_round_trip(reference.hash.low as nat, 16);
    law_le_round_trip(reference.offset_content as nat, 8);
    assert(b.subrange(0, 16) =~= be_bytes(reference.hash.high as nat, 16));
    assert(b.subrange(16, 32) =~= be_bytes(reference.hash.low as nat, 16));
    assert(b.subrange(32, 40) =~= le_bytes(reference.offset_content as nat, 8));
    let one = seq![reference];
    assert(one.drop_last() =~= Seq::empty());
    assert(list_bytes(one.drop_last()) =~= Seq::empty());
    assert(list_bytes(one) =~= b);
}

/// Content that is cut at fixed sizes is cut at every multiple of the size: all chunks but the last
/// have that size, and the last ends with the content.
pub proof fn law_fixed_chunks_have_their_size(
    source: Seq<u8>,
    fixed_size_chunk: usize,
    sizes: ChunkSizes,
    start: int,
    i: int,
)
    requires
        fixed_size_chunk > 0,
        source.len() <= usize::MAX,
        0 <= start <= source.len(),
        0 <= i < chunk_bounds(source, fixed_size_chunk, sizes, start).len(),
    ensures
        ({
            let bounds = chunk_bounds(source, fixed_size_chunk, sizes, start);
            &&& i < bounds.len() - 1 ==> bounds[i] == start + i * fixed_size_chunk && bounds[i]
                < source.len() <= bounds[i] + fixed_size_chunk * (bounds.len() - 1 - i)
            &&& i == bounds.len() - 1 ==> bounds[i] == source.len()
        }),
    decreases source.len() - start,
{
    let end = chunk_end(source, fixed_size_chunk, sizes, start);
    let bounds = chunk_bounds(source, fixed_size_chunk, sizes, start);
    let size = fixed_size_chunk as int;
    if start < source.len() {
        let rest = chunk_bounds(source, fixed_size_chunk, sizes, end);
        assert(bounds == seq![start as usize] + rest);
        assert(rest.len() >= 1);
        assert(bounds.len() == rest.len() + 1);
        if i > 0 {
            law_fixed_chunks_have_their_size(source, fixed_size_chunk, sizes, end, i - 1);
            assert(bounds[i] == rest[i - 1]);
            if i < bounds.len() - 1 {
                assert(end == start + size);
                assert(end + (i - 1) * size == start + i * size) by (nonlinear_arith)
                    requires
                        end == start + size,
                ;
            }
        } else {
            law_fixed_chunks_have_their_size(source, fixed_size_chunk, sizes, end, 0);
            let n = rest.len() as int;
            if n > 1 {
                assert(rest[0] == end);
                assert(size * n == size + size * (n - 1)) by (nonlinear_arith);
            } else {
                assert(size * 1 == size);
            }
        }
    }
}

/// The chunks of a content are the stretches between its bounds, in order. The fragment of each is as
/// long as its stretch, and has the flags that it was given.
pub proof fn law_chunks_are_what_lies_between_the_bounds(flags: u32, bounds: Seq<usize>, i: int)
    requires
        0 <= i < bounds.len() - 1,
        bounds[i] <= bounds[i + 1],
        bounds[i + 1] - bounds[i] <= u32::MAX,
    ensures
        chunk_plans(flags, bounds).len() == bounds.len() - 1,
        ({
            let chunk = chunk_plans(flags, bounds)[i];
            &&& chunk.start == bounds[i]
            &&& chunk.end == bounds[i + 1]
            &&& chunk.fragment.size_payload == bounds[i + 1] - bounds[i]
            &&& chunk.fragment.size_content == bounds[i + 1] - bounds[i]
            &&& chunk.fragment.flags == flags
        }),
{
}

/// A list has one reference for each chunk: where the chunk begins in the content, and its hash.
pub proof fn law_references_name_their_chunks(
    starts: Seq<u64>,
    hashes: Seq<crate::types::Hash>,
    i: int,
)
    requires
        starts.len() == hashes.len(),
        0 <= i < starts.len(),
    ensures
        references(starts, hashes).len() == starts.len(),
        references(starts, hashes)[i].offset_content == starts[i],
        references(starts, hashes)[i].hash == hashes[i],
{
}

} // verus!
