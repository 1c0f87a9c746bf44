//! Content addresses, fragments and the flags that describe a stored payload.
use vstd::prelude::*;

use crate::encoding::{be_value, read_be};

verus! {

/// Set on a fragment whose payload is a list of references to other fragments.
pub const PAYLOAD_FRAGMENTED: u32 = 0x0000_0001;

/// Set on a fragment whose payload was compressed with zstd.
pub const PAYLOAD_COMPRESSED_ZSTD: u32 = 0x0000_0010;

/// Every bit that marks a compressed payload.
pub const PAYLOAD_COMPRESSED: u32 = 0x0000_00f0;

/// Set on an entry that is present in the local pack files.
pub const PAYLOAD_STORED_LOCAL: u32 = 0x0000_0100;

/// Set on an entry that a durable store has confirmed.
pub const PAYLOAD_STORED_DURABLE: u32 = 0x0000_0200;

/// Every bit that says where a payload is stored.
pub const PAYLOAD_STORED: u32 = 0x0000_0300;

/// Set on an entry that was obliterated.
pub const PAYLOAD_OBLITERATED: u32 = 0x0000_1000;

/// A content hash of 32 bytes, held as two halves in byte order.
#[derive(Clone, Copy, Debug, PartialEq, Eq, Structural, Hash)]
pub struct Hash {
    pub high: u128,
    pub low: u128,
}

/// The 16 bytes that tell apart uses of one hash.
#[derive(Clone, Copy, Debug, PartialEq, Eq, Structural, Hash)]
pub struct Context {
    pub value: u128,
}

/// The 16 bytes that name a partition (a repository).
#[derive(Clone, Copy, Debug, PartialEq, Eq, Structural, Hash)]
pub struct Partition {
    pub value: u128,
}

/// Where a fragment is found: its content hash and its context.
#[derive(Clone, Copy, Debug, PartialEq, Eq, Structural, Hash)]
pub struct Address {
    pub hash: Hash,
    pub context: Context,
}

/// What is known of a fragment besides its payload.
#[derive(Clone, Copy, Debug, PartialEq, Eq, Structural, Hash)]
pub struct Fragment {
    pub flags: u32,
    pub size_payload: u32,
    pub size_content: u64,
}

/// How much of an address an entry matched.
#[derive(Clone, Copy, Debug, PartialEq, Eq, Structural, Hash)]
pub enum StoreMatch {
    MatchNone,
    MatchHash,
    MatchPartition,
    MatchFull,
}

/// What a query found.
#[derive(Clone, Copy, Debug, PartialEq, Eq, Structural, Hash)]
pub struct StoreQueryResult {
    pub fragment: Fragment,
    pub match_made: StoreMatch,
}

/// A place in a pack file. Pack files are numbered from one.
#[derive(Clone, Copy, Debug, PartialEq, Eq, Structural, Hash)]
pub struct PackRef {
    pub id: u32,
    pub offset: u32,
}

impl StoreMatch {
    /// The rank of a match: the more of the address agrees, the higher.
    pub open spec fn rank(self) -> int {
        match self {
            StoreMatch::MatchNone => 0,
            StoreMatch::MatchHash => 1,
            StoreMatch::MatchPartition => 2,
            StoreMatch::MatchFull => 3,
        }
    }

    /// Whether this match is weaker than `other`.
    pub fn weaker_than(self, other: StoreMatch) -> (r: bool)
        ensures
            r == (self.rank() < other.rank()),
    {
        match self {
            StoreMatch::MatchNone => other != StoreMatch::MatchNone,
            StoreMatch::MatchHash => other == StoreMatch::MatchPartition || other
                == StoreMatch::MatchFull,
            StoreMatch::MatchPartition => other == StoreMatch::MatchFull,
            StoreMatch::MatchFull => false,
        }
    }
}

impl Hash {
    /// Order of the 32 bytes, most significant first.
    pub open spec fn before(self, other: Hash) -> bool {
        self.high < other.high || (self.high == other.high && self.low < other.low)
    }

    /// The hash of 32 zero bytes.
    pub fn zero() -> (r: Hash)
        ensures
            r == (Hash { high: 0, low: 0 }),
    {
        Hash { high: 0, low: 0 }
    }

    /// Whether every byte is zero.
    pub fn is_zero(&self) -> (r: bool)
        ensures
            r == (*self == Hash { high: 0, low: 0 }),
    {
        self.high == 0 && self.low == 0
    }

    /// The hash that 32 bytes spell.
    pub fn from_bytes(bytes: &[u8]) -> (r: Hash)
        requires
            bytes@.len() == 32,
        ensures
            r.high == be_value(bytes@.subrange(0, 16)),
            r.low == be_value(bytes@.subrange(16, 32)),
    {
        Hash { high: read_be(bytes, 0), low: read_be(bytes, 16) }
    }

    /// The first byte, which picks the group of the store.
    pub open spec fn first_byte(self) -> int {
        (self.high as int) / 0x0100_0000_0000_0000_0000_0000_0000_0000
    }

    /// The second byte, which picks the bucket within the group.
    pub open spec fn second_byte(self) -> int {
        ((self.high as int) / 0x1_0000_0000_0000_0000_0000_0000_0000) % 256
    }

    /// The number of the group that holds this hash.
    pub fn group_index(&self) -> (r: usize)
        ensures
            r == self.first_byte(),
            r < 256,
    {
        let byte: u128 = self.high / 0x0100_0000_0000_0000_0000_0000_0000_0000;
        byte as usize
    }
}

impl Context {
    /// The context that 16 bytes spell.
    pub fn from_bytes(bytes: &[u8]) -> (r: Context)
        requires
            bytes@.len() == 16,
        ensures
            r.value == be_value(bytes@),
    {
        assert(bytes@.subrange(0, 16) =~= bytes@);
        Context { value: read_be(bytes, 0) }
    }
}

impl Partition {
    /// The partition that 16 bytes spell.
    pub fn from_bytes(bytes: &[u8]) -> (r: Partition)
        requires
            bytes@.len() == 16,
        ensures
            r.value == be_value(bytes@),
    {
        assert(bytes@.subrange(0, 16) =~= bytes@);
        Partition { value: read_be(bytes, 0) }
    }
}

/// A counter one further. It wraps around.
pub open spec fn counted(n: u64) -> u64 {
    if n == u64::MAX {
        0
    } else {
        (n + 1) as u64
    }
}

/// What orders the entries of a bucket: hash, then partition, then context.
pub struct EntryKey {
    pub hash: Hash,
    pub partition: Partition,
    pub context: Context,
}

impl EntryKey {
    /// Whether this key sorts before `other`.
    pub open spec fn before(self, other: EntryKey) -> bool {
        ||| self.hash.before(other.hash)
        ||| self.hash == other.hash && self.partition.value < other.partition.value
        ||| self.hash == other.hash && self.partition == other.partition && self.context.value
            < other.context.value
    }
}

/// The key of an address in a partition.
pub open spec fn key_of(partition: Partition, address: Address) -> EntryKey {
    EntryKey { hash: address.hash, partition, context: address.context }
}

/// Hashes are ordered as their bytes are: by the first byte in which they differ.
pub proof fn law_first_byte_leads_the_order(a: Hash, b: Hash)
    requires
        a.first_byte() < b.first_byte(),
    ensures
        a.before(b),
{
}

/// The first and the second byte of a hash are those that it spells: the first sixteen bytes of a
/// hash are its higher half, the most significant first.
pub proof fn law_leading_bytes_of_a_hash(hash: Hash)
    ensures
        crate::encoding::be_bytes(hash.high as nat, 16).len() == 16,
        crate::encoding::be_bytes(hash.high as nat, 16)[0] == hash.first_byte(),
        crate::encoding::be_bytes(hash.high as nat, 16)[1] == hash.second_byte(),
{
    reveal_with_fuel(crate::encoding::be_bytes, 17);
}

/// A counter goes up by one, and begins again at zero after the last number that it can hold.
pub proof fn law_counters_count(n: u64)
    ensures
        n < u64::MAX ==> counted(n) == n + 1,
        n == u64::MAX ==> counted(n) == 0,
{
}

} // verus!
