//! Bucket files: a header, the sorted index, and the entries. Numbers are stored with the least
//! significant byte first; hashes, contexts and partitions as they are.
use vstd::prelude::*;

use crate::encoding::{
    be_bytes, be_value, law_be_round_trip, law_le_round_trip, le_bytes, le_value, lemma_lengths,
    lemma_spans, push_be, push_le, read_be, read_le, span,
};
use crate::error::{InternalError, LocalImmutableStoreError};
use crate::local::bucket::ImmutableStoreBucket;
use crate::local::data::{ImmutableData, ImmutableStoreEntry};
use crate::types::{Address, Context, Partition};

verus! {

/// The versions of the bucket file.
#[derive(Clone, Copy, Debug, PartialEq, Eq, Structural)]
pub enum ImmutableStoreVersion {
    /// Initial version
    Initial,
    /// Added last access timestamp
    LastAccessTimestamps,
    /// Packfiles per group
    PackfilePerGroup,
    /// Last access timestamp in entry
    LastAccessInEntry,
    /// Lazy fan-out: the number of buckets varies by group. The file looks like that of
    /// `LastAccessInEntry`; the version keeps older readers from taking the file names for those
    /// of a flat layout.
    LazyFanOut,
}

/// The length of the header: version, a word that is not used, the number of entries, and another
/// word that is not used.
pub const HEADER_SIZE: usize = 16;

/// The length of one place in the sorted index.
pub const INDEX_SIZE: usize = 4;

/// The length of an entry.
pub const ENTRY_SIZE: usize = 96;

/// The length of an entry from before entries held their last access.
pub const OLD_ENTRY_SIZE: usize = 88;

/// Versions from here on are damage rather than versions to come.
pub const FUTURE_VERSION_END: u32 = 0xffff;

impl ImmutableStoreVersion {
    /// The number of the version in a file.
    pub open spec fn value(self) -> u32 {
        match self {
            ImmutableStoreVersion::Initial => 1,
            ImmutableStoreVersion::LastAccessTimestamps => 2,
            ImmutableStoreVersion::PackfilePerGroup => 3,
            ImmutableStoreVersion::LastAccessInEntry => 4,
            ImmutableStoreVersion::LazyFanOut => 5,
        }
    }

    /// The number of the version in a file.
    pub fn number(self) -> (r: u32)
        ensures
            r == self.value(),
    {
        match self {
            ImmutableStoreVersion::Initial => 1,
            ImmutableStoreVersion::LastAccessTimestamps => 2,
            ImmutableStoreVersion::PackfilePerGroup => 3,
            ImmutableStoreVersion::LastAccessInEntry => 4,
            ImmutableStoreVersion::LazyFanOut => 5,
        }
    }
}

/// What is wrong with a damaged bucket file.
#[derive(Clone, Copy, Debug, PartialEq, Eq, Structural)]
pub enum Corruption {
    /// The file ends within the header.
    Header,
    /// No version has this number.
    Version(u32),
    /// The header counts other entries than the file has room for.
    Count { header: u32, expected: usize },
}

/// Why a bucket file was not read.
#[derive(Clone, Copy, Debug, PartialEq, Eq, Structural)]
pub enum DeserializeFileError {
    /// A newer program wrote the file.
    FutureVersion(u32),
    /// The file is damaged.
    Corrupt(Corruption),
}

/// What a bucket file holds.
pub struct BucketFile {
    pub sorted_index: Vec<u32>,
    pub entry: Vec<ImmutableStoreEntry>,
    /// Whether the payloads lie in the pack files that all groups once shared.
    pub upgrade_packfile: bool,
    /// Whether the bucket must be written again in the current format.
    pub mark_dirty: bool,
}

/// What a bucket file holds, as values.
pub struct BucketFileView {
    pub sorted_index: Seq<u32>,
    pub entry: Seq<ImmutableStoreEntry>,
    pub upgrade_packfile: bool,
    pub mark_dirty: bool,
}

impl View for BucketFile {
    type V = BucketFileView;

    open spec fn view(&self) -> BucketFileView {
        BucketFileView {
            sorted_index: self.sorted_index@,
            entry: self.entry@,
            upgrade_packfile: self.upgrade_packfile,
            mark_dirty: self.mark_dirty,
        }
    }
}

impl BucketFileView {
    /// A file without entries.
    pub open spec fn empty() -> BucketFileView {
        BucketFileView {
            sorted_index: Seq::empty(),
            entry: Seq::empty(),
            upgrade_packfile: false,
            mark_dirty: false,
        }
    }
}

/// The bytes of an entry up to its last access.
pub open spec fn old_entry_bytes(e: ImmutableStoreEntry) -> Seq<u8> {
    be_bytes(e.address.hash.high as nat, 16) + be_bytes(e.address.hash.low as nat, 16) + be_bytes(
        e.address.context.value as nat,
        16,
    ) + be_bytes(e.partition.value as nat, 16) + le_bytes(e.data.flags as nat, 4) + le_bytes(
        e.data.size_payload as nat,
        4,
    ) + le_bytes(e.data.size_content as nat, 8) + le_bytes(e.data.pack_offset as nat, 4)
        + le_bytes(e.data.pack_file as nat, 4)
}

/// The bytes of an entry.
pub open spec fn entry_bytes(e: ImmutableStoreEntry) -> Seq<u8> {
    old_entry_bytes(e) + le_bytes(e.data.last_access as nat, 8)
}

/// The bytes of a header.
pub open spec fn header_bytes(version: u32, count: nat) -> Seq<u8> {
    le_bytes(version as nat, 4) + le_bytes(0, 4) + le_bytes(count, 4) + le_bytes(0, 4)
}

/// The bytes of a sorted index.
pub open spec fn index_bytes(index: Seq<u32>) -> Seq<u8> {
    Seq::new(4 * index.len(), |j: int| le_bytes(index[j / 4] as nat, 4)[j % 4])
}

/// The bytes of a table of entries.
pub open spec fn table_bytes(entry: Seq<ImmutableStoreEntry>) -> Seq<u8> {
    Seq::new(96 * entry.len(), |j: int| entry_bytes(entry[j / 96])[j % 96])
}

/// The bytes of a bucket file.
pub open spec fn file_bytes(
    version: u32,
    index: Seq<u32>,
    entry: Seq<ImmutableStoreEntry>,
) -> Seq<u8> {
    header_bytes(version, entry.len()) + index_bytes(index) + table_bytes(entry)
}

/// The number of `n` bytes at a place in a file.
pub open spec fn le_at(bytes: Seq<u8>, at: int, n: int) -> nat {
    le_value(bytes.subrange(at, at + n))
}

/// The number of sixteen bytes at a place in a file.
pub open spec fn be_at(bytes: Seq<u8>, at: int) -> u128 {
    be_value(bytes.subrange(at, at + 16)) as u128
}

/// The entry at a place in a file. Entries of old files have no last access.
pub open spec fn entry_at(bytes: Seq<u8>, at: int, old: bool) -> ImmutableStoreEntry {
    ImmutableStoreEntry {
        address: Address {
            hash: crate::types::Hash { high: be_at(bytes, at), low: be_at(bytes, at + 16) },
            context: Context { value: be_at(bytes, at + 32) },
        },
        partition: Partition { value: be_at(bytes, at + 48) },
        data: ImmutableData {
            flags: le_at(bytes, at + 64, 4) as u32,
            size_payload: le_at(bytes, at + 68, 4) as u32,
            size_content: le_at(bytes, at + 72, 8) as u64,
            pack_offset: le_at(bytes, at + 80, 4) as u32,
            pack_file: le_at(bytes, at + 84, 4) as u32,
            last_access: if old {
                0
            } else {
                le_at(bytes, at + 88, 8) as u64
            },
        },
    }
}

/// The bytes that a file of a version has per entry, index included. Versions of which nothing is
/// known have none. The first version counted entries at their present length.
pub open spec fn per_entry(version: u32) -> Option<int> {
    if version == 5 || version == 4 || version == 1 {
        Some(100)
    } else if version == 3 || version == 2 {
        Some(96)
    } else {
        None
    }
}

/// What the bytes of a bucket file say.
pub open spec fn parsed(bytes: Seq<u8>) -> Result<BucketFileView, DeserializeFileError> {
    let version = le_at(bytes, 0, 4) as u32;
    let header_count = le_at(bytes, 8, 4) as u32;
    let count = (bytes.len() - 16) / per_entry(version)->0;
    let old = version < 4;
    let size: int = if old { 88 } else { 96 };
    if bytes.len() < 16 {
        Err(DeserializeFileError::Corrupt(Corruption::Header))
    } else if 5 < version < 0xffff {
        Err(DeserializeFileError::FutureVersion(version))
    } else if per_entry(version) is None {
        Err(DeserializeFileError::Corrupt(Corruption::Version(version)))
    } else if count == 0 {
        Ok(BucketFileView::empty())
    } else if header_count as int != count % 0x1_0000_0000 {
        Err(
            DeserializeFileError::Corrupt(
                Corruption::Count { header: header_count, expected: count as usize },
            ),
        )
    } else {
        Ok(
            BucketFileView {
                sorted_index: Seq::new(count as nat, |i: int| le_at(bytes, 16 + 4 * i, 4) as u32),
                entry: Seq::new(
                    count as nat,
                    |i: int| entry_at(bytes, 16 + 4 * count + size * i, old),
                ),
                upgrade_packfile: version < 3,
                mark_dirty: old,
            },
        )
    }
}

/// Reads the entry at a place in a file.
fn read_entry(bytes: &[u8], at: usize, old: bool) -> (r: ImmutableStoreEntry)
    requires
        at + 88 <= bytes@.len(),
        !old ==> at + 96 <= bytes@.len(),
    ensures
        r == entry_at(bytes@, at as int, old),
{
    let end: usize = bytes.len();
    proof {
        lemma_spans();
    }
    ImmutableStoreEntry {
        address: Address {
            hash: crate::types::Hash { high: read_be(bytes, at), low: read_be(bytes, at + 16) },
            context: Context { value: read_be(bytes, at + 32) },
        },
        partition: Partition { value: read_be(bytes, at + 48) },
        data: ImmutableData {
            flags: read_le(bytes, at + 64, 4) as u32,
            size_payload: read_le(bytes, at + 68, 4) as u32,
            size_content: read_le(bytes, at + 72, 8) as u64,
            pack_offset: read_le(bytes, at + 80, 4) as u32,
            pack_file: read_le(bytes, at + 84, 4) as u32,
            last_access: if old {
                0
            } else {
                read_le(bytes, at + 88, 8) as u64
            },
        },
    }
}

/// Reads a bucket file. The version counts before anything else: a file of a newer format may have
/// another length per entry, and must not be taken for a damaged one.
pub fn deserialize_files_parse(bytes: &[u8]) -> (r: Result<BucketFile, DeserializeFileError>)
    ensures
        match r {
            Ok(file) => parsed(bytes@) == Ok::<BucketFileView, DeserializeFileError>(file@),
            Err(e) => parsed(bytes@) == Err::<BucketFileView, DeserializeFileError>(e),
        },
{
    let end: usize = bytes.len();
    if end < HEADER_SIZE {
        return Err(DeserializeFileError::Corrupt(Corruption::Header));
    }
    proof {
        lemma_spans();
    }
    let version: u32 = read_le(bytes, 0, 4) as u32;
    let header_count: u32 = read_le(bytes, 8, 4) as u32;
    if version > ImmutableStoreVersion::LazyFanOut.number() && version < FUTURE_VERSION_END {
        return Err(DeserializeFileError::FutureVersion(version));
    }
    let per_entry_size: usize = if version == ImmutableStoreVersion::LazyFanOut.number() || version
        == ImmutableStoreVersion::LastAccessInEntry.number() || version
        == ImmutableStoreVersion::Initial.number() {
        INDEX_SIZE + ENTRY_SIZE
    } else if version == ImmutableStoreVersion::PackfilePerGroup.number() || version
        == ImmutableStoreVersion::LastAccessTimestamps.number() {
        INDEX_SIZE + OLD_ENTRY_SIZE + 4
    } else {
        return Err(DeserializeFileError::Corrupt(Corruption::Version(version)));
    };
    let expected_count: usize = (end - HEADER_SIZE) / per_entry_size;
    let old = version < ImmutableStoreVersion::LastAccessInEntry.number();
    if expected_count == 0 {
        return Ok(empty_file());
    }
    if header_count as u64 != expected_count as u64 % 0x1_0000_0000 {
        return Err(
            DeserializeFileError::Corrupt(
                Corruption::Count { header: header_count, expected: expected_count },
            ),
        );
    }
    let size: usize = if old {
        OLD_ENTRY_SIZE
    } else {
        ENTRY_SIZE
    };
    proof {
        assert(expected_count * per_entry_size <= end - 16) by (nonlinear_arith)
            requires
                expected_count == (end - 16) / per_entry_size as int,
                per_entry_size > 0,
                end >= 16,
        ;
        assert(expected_count * (4 + size) <= expected_count * per_entry_size)
            by (nonlinear_arith)
            requires
                4 + size <= per_entry_size,
        ;
        assert(expected_count * (4 + size) == 4 * expected_count + size * expected_count)
            by (nonlinear_arith);
    }
    let ghost goal = parsed(bytes@)->Ok_0;
    let mut sorted_index: Vec<u32> = Vec::new();
    let mut entry: Vec<ImmutableStoreEntry> = Vec::new();
    let mut i: usize = 0;
    let mut at: usize = HEADER_SIZE;
    while i < expected_count
        invariant
            end == bytes@.len(),
            i <= expected_count,
            4 * expected_count + size * expected_count <= end - 16,
            0 <= size * expected_count,
            at == 16 + 4 * i,
            sorted_index@.len() == i,
            span(4) == 0x1_0000_0000,
            forall|k: int| 0 <= k < i ==> #[trigger] sorted_index@[k] == le_at(
                bytes@,
                16 + 4 * k,
                4,
            ) as u32,
        decreases expected_count - i,
    {
        sorted_index.push(read_le(bytes, at, 4) as u32);
        at = at + 4;
        i = i + 1;
    }
    i = 0;
    let ghost base = at as int;
    while i < expected_count
        invariant
            end == bytes@.len(),
            i <= expected_count,
            size == (if old { 88int } else { 96 }),
            4 * expected_count + size * expected_count <= end - 16,
            base == 16 + 4 * expected_count,
            at == base + size * i,
            entry@.len() == i,
            forall|k: int| 0 <= k < i ==> #[trigger] entry@[k] == entry_at(
                bytes@,
                base + size * k,
                old,
            ),
        decreases expected_count - i,
    {
        proof {
            assert(size * i + size <= size * expected_count) by (nonlinear_arith)
                requires
                    i + 1 <= expected_count,
            ;
            assert(size * (i + 1) == size * i + size) by (nonlinear_arith);
        }
        entry.push(read_entry(bytes, at, old));
        at = at + size;
        i = i + 1;
    }
    let file = BucketFile {
        sorted_index,
        entry,
        upgrade_packfile: version < ImmutableStoreVersion::PackfilePerGroup.number(),
        mark_dirty: old,
    };
    assert(file@.sorted_index =~= goal.sorted_index);
    assert(file@.entry =~= goal.entry);
    Ok(file)
}

/// What reading a bucket file comes to: its contents, and whether the file is to be removed.
pub open spec fn recovered(file: Option<Seq<u8>>) -> Result<
    (BucketFileView, bool),
    LocalImmutableStoreError,
> {
    match file {
        None => Ok((BucketFileView::empty(), false)),
        Some(bytes) => match parsed(bytes) {
            Ok(contents) => Ok((contents, false)),
            Err(DeserializeFileError::FutureVersion(_)) => Err(
                LocalImmutableStoreError::Internal(InternalError::IncompatibleVersion),
            ),
            Err(DeserializeFileError::Corrupt(_)) => Ok((BucketFileView::empty(), true)),
        },
    }
}

/// The bytes of a file that may be missing.
pub open spec fn file_view(file: Option<Vec<u8>>) -> Option<Seq<u8>> {
    match file {
        None => None,
        Some(bytes) => Some(bytes@),
    }
}

/// A bucket file without entries.
fn empty_file() -> (r: BucketFile)
    ensures
        r@ == BucketFileView::empty(),
{
    let file = BucketFile {
        sorted_index: Vec::new(),
        entry: Vec::new(),
        upgrade_packfile: false,
        mark_dirty: false,
    };
    assert(file@.sorted_index =~= BucketFileView::empty().sorted_index);
    assert(file@.entry =~= BucketFileView::empty().entry);
    file
}

/// Reads a bucket file, or what stands for it. A missing file is an empty bucket. A damaged file,
/// left by a crash, is an empty bucket too, and is to be removed: the second result says so. A file
/// of a newer version is an error and stays as it is.
pub fn deserialize_files(file: &Option<Vec<u8>>) -> (r: Result<
    (BucketFile, bool),
    LocalImmutableStoreError,
>)
    ensures
        match r {
            Ok((contents, remove)) => recovered(file_view(*file)) == Ok::<
                (BucketFileView, bool),
                LocalImmutableStoreError,
            >((contents@, remove)),
            Err(e) => recovered(file_view(*file)) == Err::<
                (BucketFileView, bool),
                LocalImmutableStoreError,
            >(e),
        },
{
    match file {
        None => Ok((empty_file(), false)),
        Some(bytes) => match deserialize_files_parse(bytes.as_slice()) {
            Ok(contents) => Ok((contents, false)),
            Err(DeserializeFileError::FutureVersion(_)) => Err(
                LocalImmutableStoreError::Internal(InternalError::IncompatibleVersion),
            ),
            Err(DeserializeFileError::Corrupt(_)) => Ok((empty_file(), true)),
        },
    }
}

/// Appends the bytes of an entry.
fn push_entry(out: &mut Vec<u8>, e: &ImmutableStoreEntry)
    ensures
        final(out)@ == old(out)@ + entry_bytes(*e),
{
    let ghost start = out@;
    push_be(out, e.address.hash.high);
    push_be(out, e.address.hash.low);
    push_be(out, e.address.context.value);
    push_be(out, e.partition.value);
    push_le(out, e.data.flags as u128, 4);
    push_le(out, e.data.size_payload as u128, 4);
    push_le(out, e.data.size_content as u128, 8);
    push_le(out, e.data.pack_offset as u128, 4);
    push_le(out, e.data.pack_file as u128, 4);
    push_le(out, e.data.last_access as u128, 8);
    assert(out@ =~= start + entry_bytes(*e));
}

impl ImmutableStoreBucket {
    /// The bytes of the bucket's file.
    pub fn serialize_files(&self, version: u32) -> (r: Result<Vec<u8>, LocalImmutableStoreError>)
        requires
            self.entry@.len() <= u32::MAX,
        ensures
            self.sorted_index@.len() != self.entry@.len() ==> r == Err::<
                Vec<u8>,
                LocalImmutableStoreError,
            >(LocalImmutableStoreError::Internal(InternalError::IndexMismatch)),
            self.sorted_index@.len() == self.entry@.len() ==> r is Ok && r->Ok_0@ == file_bytes(
                version,
                self.sorted_index@,
                self.entry@,
            ),
    {
        let count: usize = self.entry.len();
        if self.sorted_index.len() != count {
            return Err(LocalImmutableStoreError::Internal(InternalError::IndexMismatch));
        }
        let mut out: Vec<u8> = Vec::new();
        push_le(&mut out, version as u128, 4);
        push_le(&mut out, 0, 4);
        push_le(&mut out, count as u128, 4);
        push_le(&mut out, 0, 4);
        let ghost header = header_bytes(version, count as nat);
        assert(out@ =~= header);
        let mut i: usize = 0;
        assert(index_bytes(self.sorted_index@.subrange(0, 0)) =~= Seq::<u8>::empty());
        while i < count
            invariant
                i <= count == self.sorted_index@.len(),
                out@ =~= header + index_bytes(self.sorted_index@.subrange(0, i as int)),
            decreases count - i,
        {
            let ghost before = out@;
            push_le(&mut out, self.sorted_index[i] as u128, 4);
            proof {
                lemma_index_bytes_push(
                    self.sorted_index@.subrange(0, i as int),
                    self.sorted_index@[i as int],
                );
                assert(self.sorted_index@.subrange(0, i as int).push(self.sorted_index@[i as int])
                    =~= self.sorted_index@.subrange(0, i + 1));
            }
            i = i + 1;
        }
        let ghost start = out@;
        assert(self.sorted_index@.subrange(0, count as int) =~= self.sorted_index@);
        i = 0;
        assert(table_bytes(self.entry@.subrange(0, 0)) =~= Seq::<u8>::empty());
        while i < count
            invariant
                i <= count == self.entry@.len(),
                out@ =~= start + table_bytes(self.entry@.subrange(0, i as int)),
            decreases count - i,
        {
            push_entry(&mut out, &self.entry[i]);
            proof {
                lemma_table_bytes_push(self.entry@.subrange(0, i as int), self.entry@[i as int]);
                assert(self.entry@.subrange(0, i as int).push(self.entry@[i as int])
                    =~= self.entry@.subrange(0, i + 1));
            }
            i = i + 1;
        }
        assert(self.entry@.subrange(0, count as int) =~= self.entry@);
        assert(out@ =~= file_bytes(version, self.sorted_index@, self.entry@));
        Ok(out)
    }

    /// Takes the entries from the bucket's file, unless that was done before. The result says how
    /// many entries were read and whether the file is to be removed. Sets `dirty` where the file
    /// must be written again.
    pub fn deserialize(&mut self, file: &Option<Vec<u8>>, dirty: &mut bool) -> (r: Result<
        (usize, bool),
        LocalImmutableStoreError,
    >)
        ensures
            old(self).deserialized ==> r == Ok::<(usize, bool), LocalImmutableStoreError>(
                (0, false),
            ) && *final(self) == *old(self) && *final(dirty) == *old(dirty),
            !old(self).deserialized ==> match recovered(file_view(*file)) {
                Err(e) => r == Err::<(usize, bool), LocalImmutableStoreError>(e) && *final(self)
                    == *old(self) && *final(dirty) == *old(dirty),
                Ok((contents, remove)) => {
                    &&& r is Ok
                    &&& r->Ok_0.0 == contents.entry.len()
                    &&& r->Ok_0.1 == remove
                    &&& final(self).entry@ == contents.entry
                    &&& final(self).sorted_index@ == contents.sorted_index
                    &&& final(self).upgrade_packfile == contents.upgrade_packfile
                    &&& final(self).deserialized
                    &&& *final(dirty) == (*old(dirty) || contents.mark_dirty)
                },
            },
    {
        if self.deserialized {
            return Ok((0, false));
        }
        let (contents, remove) = match deserialize_files(file) {
            Ok(read) => read,
            Err(e) => {
                return Err(e);
            },
        };
        let count: usize = contents.entry.len();
        if contents.mark_dirty {
            *dirty = true;
        }
        self.sorted_index = contents.sorted_index;
        self.entry = contents.entry;
        self.upgrade_packfile = contents.upgrade_packfile;
        self.deserialized = true;
        Ok((count, remove))
    }
}

/// One more place in an index adds its bytes at the end.
proof fn lemma_index_bytes_push(index: Seq<u32>, place: u32)
    ensures
        index_bytes(index.push(place)) == index_bytes(index) + le_bytes(place as nat, 4),
{
    let longer = index.push(place);
    lemma_lengths(place as nat, 4);
    assert forall|j: int| 0 <= j < 4 * longer.len() implies #[trigger] index_bytes(longer)[j] == (
    index_bytes(index) + le_bytes(place as nat, 4))[j] by {
        if j < 4 * index.len() {
            assert(longer[j / 4] == index[j / 4]);
        } else {
            assert(longer[j / 4] == place);
            assert(j % 4 == j - 4 * index.len());
        }
    }
    assert(index_bytes(longer) =~= index_bytes(index) + le_bytes(place as nat, 4));
}

/// The length of an entry's bytes.
proof fn lemma_entry_length(e: ImmutableStoreEntry)
    ensures
        old_entry_bytes(e).len() == 88,
        entry_bytes(e).len() == 96,
{
    lemma_lengths(e.address.hash.high as nat, 16);
    lemma_lengths(e.address.hash.low as nat, 16);
    lemma_lengths(e.address.context.value as nat, 16);
    lemma_lengths(e.partition.value as nat, 16);
    lemma_lengths(e.data.flags as nat, 4);
    lemma_lengths(e.data.size_payload as nat, 4);
    lemma_lengths(e.data.size_content as nat, 8);
    lemma_lengths(e.data.pack_offset as nat, 4);
    lemma_lengths(e.data.pack_file as nat, 4);
    lemma_lengths(e.data.last_access as nat, 8);
}

/// One more entry in a table adds its bytes at the end.
proof fn lemma_table_bytes_push(entry: Seq<ImmutableStoreEntry>, e: ImmutableStoreEntry)
    ensures
        table_bytes(entry.push(e)) == table_bytes(entry) + entry_bytes(e),
{
    let longer = entry.push(e);
    lemma_entry_length(e);
    assert forall|j: int| 0 <= j < 96 * longer.len() implies #[trigger] table_bytes(longer)[j] == (
    table_bytes(entry) + entry_bytes(e))[j] by {
        if j < 96 * entry.len() {
            assert(longer[j / 96] == entry[j / 96]);
        } else {
            assert(longer[j / 96] == e);
            assert(j % 96 == j - 96 * entry.len());
        }
    }
    assert(table_bytes(longer) =~= table_bytes(entry) + entry_bytes(e));
}

/// An entry is read back from its bytes, wherever they stand.
proof fn lemma_entry_round_trip(bytes: Seq<u8>, at: int, e: ImmutableStoreEntry)
    requires
        0 <= at,
        at + 96 <= bytes.len(),
        bytes.subrange(at, at + 96) == entry_bytes(e),
    ensures
        entry_at(bytes, at, false) == e,
{
    lemma_entry_length(e);
    lemma_spans();
    let b = entry_bytes(e);
    let high = be_bytes(e.address.hash.high as nat, 16);
    let low = be_bytes(e.address.hash.low as nat, 16);
    let context = be_bytes(e.address.context.value as nat, 16);
    let partition = be_bytes(e.partition.value as nat, 16);
    law_be_round_trip(e.address.hash.high as nat, 16);
    law_be_round_trip(e.address.hash.low as nat, 16);
    law_be_round_trip(e.address.context.value as nat, 16);
    law_be_round_trip(e.partition.value as nat, 16);
    law_le_round_trip(e.data.flags as nat, 4);
    law_le_round_trip(e.data.size_payload as nat, 4);
    law_le_round_trip(e.data.size_content as nat, 8);
    law_le_round_trip(e.data.pack_offset as nat, 4);
    law_le_round_trip(e.data.pack_file as nat, 4);
    law_le_round_trip(e.data.last_access as nat, 8);
    assert forall|k: int, n: int| 0 <= k <= k + n <= 96 implies #[trigger] bytes.subrange(
        at + k,
        at + k + n,
    ) =~= b.subrange(k, k + n) by {
        assert(bytes.subrange(at, at + 96).subrange(k, k + n) =~= bytes.subrange(
            at + k,
            at + k + n,
        ));
    }
    assert(bytes.subrange(at + 0, at + 0 + 16) =~= high);
    assert(bytes.subrange(at + 16, at + 16 + 16) =~= low);
    assert(bytes.subrange(at + 32, at + 32 + 16) =~= context);
    assert(bytes.subrange(at + 48, at + 48 + 16) =~= partition);
    assert(bytes.subrange(at + 64, at + 64 + 4) =~= le_bytes(e.data.flags as nat, 4));
    assert(bytes.subrange(at + 68, at + 68 + 4) =~= le_bytes(e.data.size_payload as nat, 4));
    assert(bytes.subrange(at + 72, at + 72 + 8) =~= le_bytes(e.data.size_content as nat, 8));
    assert(bytes.subrange(at + 80, at + 80 + 4) =~= le_bytes(e.data.pack_offset as nat, 4));
    assert(bytes.subrange(at + 84, at + 84 + 4) =~= le_bytes(e.data.pack_file as nat, 4));
    assert(bytes.subrange(at + 88, at + 88 + 8) =~= le_bytes(e.data.last_access as nat, 8));
}

/// What a bucket writes to its file is read back as it was, in both of the current versions, and
/// needs no upgrade.
pub proof fn law_bucket_file_round_trip(
    version: ImmutableStoreVersion,
    index: Seq<u32>,
    entry: Seq<ImmutableStoreEntry>,
)
    requires
        version == ImmutableStoreVersion::LastAccessInEntry || version
            == ImmutableStoreVersion::LazyFanOut,
        index.len() == entry.len(),
        entry.len() <= u32::MAX,
    ensures
        parsed(file_bytes(version.value(), index, entry)) == Ok::<
            BucketFileView,
            DeserializeFileError,
        >(
            BucketFileView {
                sorted_index: index,
                entry,
                upgrade_packfile: false,
                mark_dirty: false,
            },
        ),
{
    let bytes = file_bytes(version.value(), index, entry);
    let count = entry.len() as int;
    lemma_spans();
    law_le_round_trip(version.value() as nat, 4);
    law_le_round_trip(0, 4);
    law_le_round_trip(count as nat, 4);
    assert(bytes.subrange(0, 4) =~= le_bytes(version.value() as nat, 4));
    assert(bytes.subrange(8, 12) =~= le_bytes(count as nat, 4));
    assert(bytes.len() == 16 + 100 * count);
    assert((bytes.len() - 16) / 100 == count);
    let view = parsed(bytes)->Ok_0;
    if count > 0 {
        assert forall|i: int| 0 <= i < count implies #[trigger] view.sorted_index[i]
            == index[i] by {
            law_le_round_trip(index[i] as nat, 4);
            assert forall|r: int| 0 <= r < 4 implies #[trigger] bytes.subrange(
                16 + 4 * i,
                16 + 4 * i + 4,
            )[r] == le_bytes(index[i] as nat, 4)[r] by {
                let j = 4 * i + r;
                assert(bytes[16 + j] == index_bytes(index)[j]);
                assert(j / 4 == i && j % 4 == r);
            }
            assert(bytes.subrange(16 + 4 * i, 16 + 4 * i + 4) =~= le_bytes(index[i] as nat, 4));
        }
        assert forall|i: int| 0 <= i < count implies #[trigger] view.entry[i] == entry[i] by {
            let at = 16 + 4 * count + 96 * i;
            lemma_entry_length(entry[i]);
            assert forall|r: int| 0 <= r < 96 implies #[trigger] bytes.subrange(at, at + 96)[r]
                == entry_bytes(entry[i])[r] by {
                let j = 96 * i + r;
                assert(bytes[16 + 4 * count + j] == table_bytes(entry)[j]);
                assert(j / 96 == i && j % 96 == r);
            }
            assert(bytes.subrange(at, at + 96) =~= entry_bytes(entry[i]));
            lemma_entry_round_trip(bytes, at, entry[i]);
        }
    }
    assert(view.sorted_index =~= index);
    assert(view.entry =~= entry);
}

/// A file of a newer version is never taken for a damaged one, whatever follows its version.
pub proof fn law_newer_files_are_never_reset(bytes: Seq<u8>)
    requires
        bytes.len() >= 16,
        5 < le_at(bytes, 0, 4) < 0xffff,
    ensures
        recovered(Some(bytes)) == Err::<(BucketFileView, bool), LocalImmutableStoreError>(
            LocalImmutableStoreError::Internal(InternalError::IncompatibleVersion),
        ),
{
}

/// The lower-case hexadecimal digit of a number below sixteen.
pub open spec fn hex_digit(n: int) -> u8 {
    if n < 10 {
        (48 + n) as u8
    } else {
        (87 + n) as u8
    }
}

/// The two hexadecimal digits of a byte.
pub open spec fn hex_byte(n: int) -> Seq<u8> {
    seq![hex_digit(n / 16), hex_digit(n % 16)]
}

/// The characters `index`.
pub open spec fn index_name() -> Seq<u8> {
    seq![0x69u8, 0x6eu8, 0x64u8, 0x65u8, 0x78u8]
}

/// The name of a bucket's file within its group's directory: `index_` and two digits.
pub open spec fn bucket_file_name(bucket: int) -> Seq<u8> {
    index_name() + seq![0x5fu8] + hex_byte(bucket % 256)
}

/// The path of a bucket's file below the store: `index`, the group and the file name.
pub open spec fn bucket_path(group: int, bucket: int) -> Seq<u8> {
    index_name() + seq![0x2fu8] + hex_byte(group % 256) + seq![0x2fu8] + bucket_file_name(bucket)
}

/// Appends the two hexadecimal digits of a byte.
fn push_hex(out: &mut Vec<u8>, byte: u8)
    ensures
        final(out)@ == old(out)@ + hex_byte(byte as int),
{
    let high: u8 = byte / 16;
    let low: u8 = byte % 16;
    let ghost start = out@;
    out.push(
        if high < 10 {
            48 + high
        } else {
            87 + high
        },
    );
    out.push(
        if low < 10 {
            48 + low
        } else {
            87 + low
        },
    );
    assert(out@ =~= start + hex_byte(byte as int));
}

/// Appends the characters `index`.
fn push_index(out: &mut Vec<u8>)
    ensures
        final(out)@ == old(out)@ + index_name(),
{
    let ghost start = out@;
    out.push(0x69);
    out.push(0x6e);
    out.push(0x64);
    out.push(0x65);
    out.push(0x78);
    assert(out@ =~= start + index_name());
}

/// The path of a bucket's file below the directory of the store, in ASCII.
pub fn format_bucket_path(group_index: usize, bucket_index: usize) -> (r: Vec<u8>)
    ensures
        r@ == bucket_path(group_index as int, bucket_index as int),
{
    let mut path: Vec<u8> = Vec::new();
    push_index(&mut path);
    path.push(0x2f);
    push_hex(&mut path, (group_index % 256) as u8);
    path.push(0x2f);
    push_index(&mut path);
    path.push(0x5f);
    push_hex(&mut path, (bucket_index % 256) as u8);
    assert(path@ =~= bucket_path(group_index as int, bucket_index as int));
    path
}

/// A file of a group's directory, as a scan for old versions sees it: its name, and the first four
/// bytes where they could be read.
pub struct ScannedFile {
    pub name: Vec<u8>,
    pub version: Option<[u8; 4]>,
}

/// Whether a name is that of a bucket's file and not of one that is being written.
pub open spec fn is_bucket_name(name: Seq<u8>) -> bool {
    &&& name.len() >= 6
    &&& name.subrange(0, 6) == index_name() + seq![0x5fu8]
    &&& !(name.subrange(name.len() - 4, name.len() as int) == seq![0x2eu8, 0x6eu8, 0x65u8, 0x77u8])
}

/// Whether the first bucket file of a directory has a version from before entries held their last
/// access.
pub open spec fn directory_is_older(files: Seq<ScannedFile>) -> bool {
    exists|i: int|
        {
            &&& 0 <= i < files.len()
            &&& #[trigger] is_bucket_name(files[i].name@)
            &&& forall|j: int| 0 <= j < i ==> !#[trigger] is_bucket_name(files[j].name@)
            &&& files[i].version is Some
            &&& le_value(files[i].version->0@) < 4
        }
}

/// Whether a name is that of a bucket's file.
fn check_bucket_name(name: &Vec<u8>) -> (r: bool)
    ensures
        r == is_bucket_name(name@),
{
    let n: usize = name.len();
    if n < 6 {
        return false;
    }
    let prefix = name[0] == 0x69 && name[1] == 0x6e && name[2] == 0x64 && name[3] == 0x65 && name[4]
        == 0x78 && name[5] == 0x5f;
    let suffix = name[n - 4] == 0x2e && name[n - 3] == 0x6e && name[n - 2] == 0x65 && name[n - 1]
        == 0x77;
    proof {
        let head = name@.subrange(0, 6);
        let wanted = index_name() + seq![0x5fu8];
        if prefix {
            assert(head =~= wanted);
        } else if head == wanted {
            assert(head[0] == 0x69 && head[1] == 0x6e && head[2] == 0x64 && head[3] == 0x65
                && head[4] == 0x78 && head[5] == 0x5f);
        }
        let tail = name@.subrange(n - 4, n as int);
        let new = seq![0x2eu8, 0x6eu8, 0x65u8, 0x77u8];
        if suffix {
            assert(tail =~= new);
        } else if tail == new {
            assert(tail[0] == 0x2e && tail[1] == 0x6e && tail[2] == 0x65 && tail[3] == 0x77);
        }
    }
    prefix && !suffix
}

/// Whether the bucket files of a store, one per group's directory, show a version from before
/// entries held their last access.
pub fn detect_any_older_immutable_bucket(directories: &Vec<Vec<ScannedFile>>) -> (r: bool)
    ensures
        r == exists|d: int|
            0 <= d < directories@.len() && #[trigger] directory_is_older(directories@[d]@),
{
    let mut d: usize = 0;
    while d < directories.len()
        invariant
            d <= directories@.len(),
            forall|k: int| 0 <= k < d ==> !#[trigger] directory_is_older(directories@[k]@),
        decreases directories@.len() - d,
    {
        let files = &directories[d];
        let mut i: usize = 0;
        let mut older = false;
        let mut sampled = false;
        while i < files.len() && !sampled
            invariant
                i <= files@.len(),
                !sampled ==> forall|k: int| 0 <= k < i ==> !#[trigger] is_bucket_name(
                    files@[k].name@,
                ),
                sampled ==> i < files@.len() && is_bucket_name(files@[i as int].name@) && (forall|
                    k: int,
                |
                    0 <= k < i ==> !#[trigger] is_bucket_name(files@[k].name@)) && older == (
                files@[i as int].version is Some && le_value(files@[i as int].version->0@) < 4),
                !sampled ==> !older,
            decreases files@.len() - i, !sampled as int,
        {
            if check_bucket_name(&files[i].name) {
                sampled = true;
                if let Some(bytes) = files[i].version {
                    let version: u128 = read_le(bytes.as_slice(), 0, 4);
                    assert(bytes@.subrange(0, 4) =~= bytes@);
                    older = version < 4;
                }
            } else {
                i = i + 1;
            }
        }
        if older {
            assert(directory_is_older(directories@[d as int]@));
            return true;
        }
        proof {
            if directory_is_older(files@) {
                let w = choose|w: int|
                    {
                        &&& 0 <= w < files@.len()
                        &&& #[trigger] is_bucket_name(files@[w].name@)
                        &&& forall|j: int| 0 <= j < w ==> !#[trigger] is_bucket_name(files@[j].name@)
                        &&& files@[w].version is Some
                        &&& le_value(files@[w].version->0@) < 4
                    };
                assert(sampled && w == i);
            }
        }
        d = d + 1;
    }
    false
}

/// An entry takes 96 bytes of a file: the hash, the context and the partition, the most significant
/// byte first, and then the numbers of its data, the least significant byte first.
pub proof fn law_fields_of_an_entry_have_their_places(e: ImmutableStoreEntry)
    ensures
        ({
            let b = entry_bytes(e);
            &&& b.len() == 96
            &&& be_value(b.subrange(0, 16)) == e.address.hash.high
            &&& be_value(b.subrange(16, 32)) == e.address.hash.low
            &&& be_value(b.subrange(32, 48)) == e.address.context.value
            &&& be_value(b.subrange(48, 64)) == e.partition.value
            &&& le_value(b.subrange(64, 68)) == e.data.flags
            &&& le_value(b.subrange(68, 72)) == e.data.size_payload
            &&& le_value(b.subrange(72, 80)) == e.data.size_content
            &&& le_value(b.subrange(80, 84)) == e.data.pack_offset
            &&& le_value(b.subrange(84, 88)) == e.data.pack_file
            &&& le_value(b.subrange(88, 96)) == e.data.last_access
            &&& old_entry_bytes(e) == b.subrange(0, 88)
        }),
{
    lemma_entry_length(e);
    lemma_spans();
    let b = entry_bytes(e);
    law_be_round_trip(e.address.hash.high as nat, 16);
    law_be_round_trip(e.address.hash.low as nat, 16);
    law_be_round_trip(e.address.context.value as nat, 16);
    law_be_round_trip(e.partition.value as nat, 16);
    law_le_round_trip(e.data.flags as nat, 4);
    law_le_round_trip(e.data.size_payload as nat, 4);
    law_le_round_trip(e.data.size_content as nat, 8);
    law_le_round_trip(e.data.pack_offset as nat, 4);
    law_le_round_trip(e.data.pack_file as nat, 4);
    law_le_round_trip(e.data.last_access as nat, 8);
    assert(b.subrange(0, 16) =~= be_bytes(e.address.hash.high as nat, 16));
    assert(b.subrange(16, 32) =~= be_bytes(e.address.hash.low as nat, 16));
    assert(b.subrange(32, 48) =~= be_bytes(e.address.context.value as nat, 16));
    assert(b.subrange(48, 64) =~= be_bytes(e.partition.value as nat, 16));
    assert(b.subrange(64, 68) =~= le_bytes(e.data.flags as nat, 4));
    assert(b.subrange(68, 72) =~= le_bytes(e.data.size_payload as nat, 4));
    assert(b.subrange(72, 80) =~= le_bytes(e.data.size_content as nat, 8));
    assert(b.subrange(80, 84) =~= le_bytes(e.data.pack_offset as nat, 4));
    assert(b.subrange(84, 88) =~= le_bytes(e.data.pack_file as nat, 4));
    assert(b.subrange(88, 96) =~= le_bytes(e.data.last_access as nat, 8));
    assert(b.subrange(0, 88) =~= old_entry_bytes(e));
}

/// A file begins with its version and its number of entries, each in four bytes, with four bytes of
/// zero after each. The order of the entries follows, four bytes for each, and then the entries.
pub proof fn law_file_has_its_parts_in_order(
    version: u32,
    index: Seq<u32>,
    entry: Seq<ImmutableStoreEntry>,
    i: int,
)
    requires
        index.len() == entry.len() <= u32::MAX,
        0 <= i < entry.len(),
    ensures
        ({
            let bytes = file_bytes(version, index, entry);
            let n = entry.len() as int;
            &&& bytes.len() == 16 + 100 * n
            &&& le_value(bytes.subrange(0, 4)) == version
            &&& le_value(bytes.subrange(4, 8)) == 0
            &&& le_value(bytes.subrange(8, 12)) == n
            &&& le_value(bytes.subrange(12, 16)) == 0
            &&& le_value(bytes.subrange(16 + 4 * i, 20 + 4 * i)) == index[i]
            &&& bytes.subrange(16 + 4 * n + 96 * i, 16 + 4 * n + 96 * i + 96) == entry_bytes(
                entry[i],
            )
        }),
{
    let bytes = file_bytes(version, index, entry);
    let n = entry.len() as int;
    lemma_spans();
    law_le_round_trip(version as nat, 4);
    law_le_round_trip(0, 4);
    law_le_round_trip(n as nat, 4);
    law_le_round_trip(index[i] as nat, 4);
    assert(bytes.subrange(0, 4) =~= le_bytes(version as nat, 4));
    assert(bytes.subrange(4, 8) =~= le_bytes(0, 4));
    assert(bytes.subrange(8, 12) =~= le_bytes(n as nat, 4));
    assert(bytes.subrange(12, 16) =~= le_bytes(0, 4));
    assert forall|r: int| 0 <= r < 4 implies #[trigger] bytes.subrange(
        16 + 4 * i,
        20 + 4 * i,
    )[r] == le_bytes(index[i] as nat, 4)[r] by {
        let j = 4 * i + r;
        assert(bytes[16 + j] == index_bytes(index)[j]);
        assert(j / 4 == i && j % 4 == r);
    }
    assert(bytes.subrange(16 + 4 * i, 20 + 4 * i) =~= le_bytes(index[i] as nat, 4));
    let at = 16 + 4 * n + 96 * i;
    lemma_entry_length(entry[i]);
    assert forall|r: int| 0 <= r < 96 implies #[trigger] bytes.subrange(at, at + 96)[r]
        == entry_bytes(entry[i])[r] by {
        let j = 96 * i + r;
        assert(bytes[16 + 4 * n + j] == table_bytes(entry)[j]);
        assert(j / 96 == i && j % 96 == r);
    }
    assert(bytes.subrange(at, at + 96) =~= entry_bytes(entry[i]));
}

/// A file of an older version is read, without the times of the last access, and is to be written
/// again. Its payloads are to be moved too where the version knows of no pack files of groups.
pub proof fn law_older_files_are_read(
    bytes: Seq<u8>,
    version: u32,
    index: Seq<u32>,
    entry: Seq<ImmutableStoreEntry>,
)
    requires
        1 <= version <= 3,
        0 < entry.len() <= u32::MAX,
        index.len() == entry.len(),
        bytes.len() == 16 + (if version == 1 { 100int } else { 96 }) * entry.len(),
        le_value(bytes.subrange(0, 4)) == version,
        le_value(bytes.subrange(8, 12)) == entry.len(),
        forall|i: int|
            0 <= i < index.len() ==> le_value(bytes.subrange(16 + 4 * i, 20 + 4 * i))
                == #[trigger] index[i],
        forall|i: int|
            0 <= i < entry.len() ==> bytes.subrange(
                16 + 4 * entry.len() + 88 * i,
                16 + 4 * entry.len() + 88 * i + 88,
            ) == old_entry_bytes(#[trigger] entry[i]),
    ensures
        parsed(bytes) == Ok::<BucketFileView, DeserializeFileError>(
            BucketFileView {
                sorted_index: index,
                entry: entry.map_values(
                    |e: ImmutableStoreEntry| e.with_data(ImmutableData { last_access: 0, ..e.data }),
                ),
                upgrade_packfile: version < 3,
                mark_dirty: true,
            },
        ),
{
    let count = entry.len() as int;
    let per: int = if version == 1 {
        100
    } else {
        96
    };
    assert(per * count / per == count) by (nonlinear_arith)
        requires
            per > 0,
    ;
    assert((bytes.len() - 16) / per == count);
    let view = parsed(bytes)->Ok_0;
    let old = entry.map_values(
        |e: ImmutableStoreEntry| e.with_data(ImmutableData { last_access: 0, ..e.data }),
    );
    assert forall|i: int| 0 <= i < count implies #[trigger] view.sorted_index[i] == index[i] by {
        assert(bytes.subrange(16 + 4 * i, 16 + 4 * i + 4) =~= bytes.subrange(
            16 + 4 * i,
            20 + 4 * i,
        ));
        assert(le_value(bytes.subrange(16 + 4 * i, 20 + 4 * i)) == index[i]);
    }
    assert forall|i: int| 0 <= i < count implies #[trigger] view.entry[i] == old[i] by {
        let at = 16 + 4 * count + 88 * i;
        let e = entry[i];
        let b = old_entry_bytes(e);
        assert(bytes.subrange(at, at + 88) == b);
        law_fields_of_an_entry_have_their_places(e);
        let whole = entry_bytes(e);
        assert forall|k: int, n: int| 0 <= k <= k + n <= 88 implies #[trigger] bytes.subrange(
            at + k,
            at + k + n,
        ) =~= whole.subrange(k, k + n) by {
            assert(bytes.subrange(at, at + 88).subrange(k, k + n) =~= bytes.subrange(
                at + k,
                at + k + n,
            ));
            assert(whole.subrange(0, 88).subrange(k, k + n) =~= whole.subrange(k, k + n));
        }
        assert(bytes.subrange(at + 0, at + 0 + 16) =~= whole.subrange(0, 16));
        assert(bytes.subrange(at + 16, at + 16 + 16) =~= whole.subrange(16, 32));
        assert(bytes.subrange(at + 32, at + 32 + 16) =~= whole.subrange(32, 48));
        assert(bytes.subrange(at + 48, at + 48 + 16) =~= whole.subrange(48, 64));
        assert(bytes.subrange(at + 64, at + 64 + 4) =~= whole.subrange(64, 68));
        assert(bytes.subrange(at + 68, at + 68 + 4) =~= whole.subrange(68, 72));
        assert(bytes.subrange(at + 72, at + 72 + 8) =~= whole.subrange(72, 80));
        assert(bytes.subrange(at + 80, at + 80 + 4) =~= whole.subrange(80, 84));
        assert(bytes.subrange(at + 84, at + 84 + 4) =~= whole.subrange(84, 88));
        assert(view.entry[i] == entry_at(bytes, at, true));
    }
    assert(view.sorted_index =~= index);
    assert(view.entry =~= old);
}

/// A file that is damaged counts as empty: one that ends within its header, has a version that never
/// was, or counts other entries than it has room for. A file that is not there is empty too, and not
/// damaged.
pub proof fn law_damaged_files_are_reset(bytes: Seq<u8>)
    ensures
        recovered(None) == Ok::<(BucketFileView, bool), LocalImmutableStoreError>(
            (BucketFileView::empty(), false),
        ),
        ({
            let version = le_value(bytes.subrange(0, 4));
            let n = le_value(bytes.subrange(8, 12));
            let per: int = if version == 2 || version == 3 {
                96
            } else {
                100
            };
            let damaged = bytes.len() < 16 || version == 0 || version >= 0xffff || (version <= 5
                && (bytes.len() - 16) / per != 0 && (bytes.len() - 16) / per <= u32::MAX && (
            bytes.len() - 16) / per != n);
            damaged ==> recovered(Some(bytes)) == Ok::<
                (BucketFileView, bool),
                LocalImmutableStoreError,
            >((BucketFileView::empty(), true))
        }),
{
    if bytes.len() >= 16 {
        lemma_spans();
        crate::encoding::lemma_le_value_bound(bytes.subrange(0, 4));
        crate::encoding::lemma_le_value_bound(bytes.subrange(8, 12));
    }
}

/// Bytes are told apart by their digits.
proof fn lemma_hex_differs(a: int, b: int)
    requires
        0 <= a < 256,
        0 <= b < 256,
        hex_byte(a) == hex_byte(b),
    ensures
        a == b,
{
    assert(hex_byte(a)[0] == hex_byte(b)[0]);
    assert(hex_byte(a)[1] == hex_byte(b)[1]);
    assert(a / 16 == b / 16);
    assert(a % 16 == b % 16);
}

/// Where the digits stand in a path.
proof fn lemma_path_digits(g: int, b: int)
    requires
        0 <= g < 256,
        0 <= b < 256,
    ensures
        bucket_path(g, b).subrange(6, 8) == hex_byte(g),
        bucket_path(g, b).subrange(15, 17) == hex_byte(b),
{
    assert(bucket_path(g, b).subrange(6, 8) =~= hex_byte(g));
    assert(bucket_path(g, b).subrange(15, 17) =~= hex_byte(b));
}

/// Every bucket of every group has a file of its own, whose name tells that it is a bucket.
pub proof fn law_buckets_have_files_of_their_own(g: int, b: int, h: int, c: int)
    requires
        0 <= g < 256,
        0 <= b < 256,
        0 <= h < 256,
        0 <= c < 256,
    ensures
        bucket_path(g, b) == bucket_path(h, c) ==> g == h && b == c,
        is_bucket_name(bucket_file_name(b)),
{
    lemma_path_digits(g, b);
    lemma_path_digits(h, c);
    if bucket_path(g, b) == bucket_path(h, c) {
        lemma_hex_differs(g, h);
        lemma_hex_differs(b, c);
    }
    let name = bucket_file_name(b);
    assert(name.len() == 8);
    assert(name.subrange(0, 6) =~= index_name() + seq![0x5fu8]);
    assert(name.subrange(4, 8)[0] == 0x78u8);
    assert(seq![0x2eu8, 0x6eu8, 0x65u8, 0x77u8][0] == 0x2eu8);
}

/// A file beside its old one, which has not taken its place yet, is no bucket.
pub proof fn law_new_files_are_no_buckets(b: int)
    ensures
        !is_bucket_name(bucket_file_name(b) + seq![0x2eu8, 0x6eu8, 0x65u8, 0x77u8]),
{
    let name = bucket_file_name(b) + seq![0x2eu8, 0x6eu8, 0x65u8, 0x77u8];
    assert(name.len() == 12);
    assert(name.subrange(8, 12) =~= seq![0x2eu8, 0x6eu8, 0x65u8, 0x77u8]);
}

/// The first bucket file of a directory tells its version: the directory is older exactly if that
/// file has a version before times of access stood in the entries. One without bucket files, or whose
/// first has no version, is not.
pub proof fn law_first_bucket_tells_the_version(files: Seq<ScannedFile>, first: int)
    requires
        0 <= first <= files.len(),
        forall|i: int| 0 <= i < first ==> !is_bucket_name((#[trigger] files[i]).name@),
        first < files.len() ==> is_bucket_name(files[first].name@),
    ensures
        directory_is_older(files) <==> first < files.len() && files[first].version is Some
            && le_value(files[first].version->0@) <= 3,
{
    if directory_is_older(files) {
        let i = choose|i: int|
            {
                &&& 0 <= i < files.len()
                &&& #[trigger] is_bucket_name(files[i].name@)
                &&& forall|j: int| 0 <= j < i ==> !#[trigger] is_bucket_name(files[j].name@)
                &&& files[i].version is Some
                &&& le_value(files[i].version->0@) < 4
            };
        if i < first {
            assert(!is_bucket_name(files[i].name@));
        } else if first < i {
            assert(!is_bucket_name(files[first].name@));
        }
    }
}

} // verus!
