//! What a bucket records of one fragment.
use vstd::prelude::*;

use crate::types::{
    Address, EntryKey, Partition, PAYLOAD_STORED, PAYLOAD_STORED_DURABLE, PAYLOAD_STORED_LOCAL,
};

verus! {

/// Where the payload of an entry lies and how large it is. A `pack_file` of zero says that no
/// payload is held locally.
#[derive(Clone, Copy, Debug, PartialEq, Eq, Structural, Hash)]
pub struct ImmutableData {
    pub flags: u32,
    pub size_payload: u32,
    pub size_content: u64,
    pub pack_offset: u32,
    pub pack_file: u32,
    pub last_access: u64,
}

/// One entry of a bucket.
#[derive(Clone, Copy, Debug, PartialEq, Eq, Structural, Hash)]
pub struct ImmutableStoreEntry {
    pub address: Address,
    pub partition: Partition,
    pub data: ImmutableData,
}

impl ImmutableStoreEntry {
    /// What orders this entry in its bucket.
    pub open spec fn key(self) -> EntryKey {
        EntryKey {
            hash: self.address.hash,
            partition: self.partition,
            context: self.address.context,
        }
    }

    /// The same entry with other data.
    pub open spec fn with_data(self, data: ImmutableData) -> ImmutableStoreEntry {
        ImmutableStoreEntry { data, ..self }
    }
}

impl Default for ImmutableData {
    fn default() -> (r: ImmutableData)
        ensures
            r == ImmutableData::zero(),
    {
        ImmutableData {
            flags: 0,
            size_payload: 0,
            size_content: 0,
            pack_offset: 0,
            pack_file: 0,
            last_access: 0,
        }
    }
}

impl ImmutableData {
    /// Data with every field zero.
    pub open spec fn zero() -> ImmutableData {
        ImmutableData {
            flags: 0,
            size_payload: 0,
            size_content: 0,
            pack_offset: 0,
            pack_file: 0,
            last_access: 0,
        }
    }

    /// This data once it shares the payload of `source`: location, payload size and every flag but
    /// those that say where the payload is stored. The stored-local flag follows the location.
    pub open spec fn deduplicated(self, source: ImmutableData) -> ImmutableData {
        let kept = (source.flags & !PAYLOAD_STORED) | (self.flags & PAYLOAD_STORED);
        ImmutableData {
            flags: if source.pack_file != 0 {
                kept | PAYLOAD_STORED_LOCAL
            } else {
                kept & !PAYLOAD_STORED_LOCAL
            },
            size_payload: source.size_payload,
            pack_offset: source.pack_offset,
            pack_file: source.pack_file,
            size_content: self.size_content,
            last_access: self.last_access,
        }
    }

    /// This data once `source` was copied onto it.
    pub open spec fn copied_from(self, source: ImmutableData, durable: bool) -> ImmutableData {
        let merged = (ImmutableData { size_content: source.size_content, ..self }).deduplicated(
            source,
        );
        if durable {
            ImmutableData { flags: merged.flags | PAYLOAD_STORED_DURABLE, ..merged }
        } else {
            merged
        }
    }

    /// Whether the stored-local flag is set.
    pub open spec fn local(self) -> bool {
        self.flags & PAYLOAD_STORED_LOCAL != 0
    }

    /// Whether the stored-durable flag is set.
    pub open spec fn durable(self) -> bool {
        self.flags & PAYLOAD_STORED_DURABLE != 0
    }

    /// Makes this instance of a fragment point at the payload of another. Keeps the stored-local
    /// flag in step with the resulting `pack_file`.
    pub fn assign_deduplicated_payload(&mut self, deduplicated: ImmutableData)
        ensures
            *final(self) == old(self).deduplicated(deduplicated),
    {
        self.pack_file = deduplicated.pack_file;
        self.pack_offset = deduplicated.pack_offset;
        self.size_payload = deduplicated.size_payload;
        self.flags = (deduplicated.flags & !PAYLOAD_STORED) | (self.flags & PAYLOAD_STORED);
        if self.pack_file != 0 {
            self.flags = self.flags | PAYLOAD_STORED_LOCAL;
        } else {
            self.flags = self.flags & !PAYLOAD_STORED_LOCAL;
        }
    }

    /// Applies the data of a copy's source. The source's durability never carries over: the caller
    /// states the destination's through `durable`, and a durable flag that is already set stays.
    /// The last access time is left alone.
    pub fn merge_from_copy_source(&mut self, source: ImmutableData, durable: bool)
        ensures
            *final(self) == old(self).copied_from(source, durable),
    {
        self.size_content = source.size_content;
        self.assign_deduplicated_payload(source);
        if durable {
            self.flags = self.flags | PAYLOAD_STORED_DURABLE;
        }
    }
}

/// After sharing a payload the stored-local flag and the location agree.
pub proof fn law_local_flag_follows_location(target: ImmutableData, source: ImmutableData)
    ensures
        target.deduplicated(source).local() <==> target.deduplicated(source).pack_file != 0,
{
    let kept = (source.flags & !PAYLOAD_STORED) | (target.flags & PAYLOAD_STORED);
    assert((kept | 0x0000_0100u32) & 0x0000_0100u32 != 0) by (bit_vector);
    assert((kept & !0x0000_0100u32) & 0x0000_0100u32 == 0) by (bit_vector);
}

/// A copy leaves its target durable exactly when the target was durable before or the caller says
/// so; the source's durability does not count.
pub proof fn law_copy_never_spreads_durability(
    target: ImmutableData,
    source: ImmutableData,
    durable: bool,
)
    ensures
        target.copied_from(source, durable).durable() <==> (target.durable() || durable),
{
    let s = source.flags;
    let t = target.flags;
    assert((((s & !0x0000_0300u32) | (t & 0x0000_0300u32)) | 0x0000_0100u32) & 0x0000_0200u32 == t
        & 0x0000_0200u32) by (bit_vector);
    assert((((s & !0x0000_0300u32) | (t & 0x0000_0300u32)) & !0x0000_0100u32) & 0x0000_0200u32 == t
        & 0x0000_0200u32) by (bit_vector);
    let m = (ImmutableData { size_content: source.size_content, ..target }).deduplicated(
        source,
    ).flags;
    assert((m | 0x0000_0200u32) & 0x0000_0200u32 != 0) by (bit_vector);
}

/// Copying the same source again changes nothing.
pub proof fn law_copy_is_idempotent(target: ImmutableData, source: ImmutableData, durable: bool)
    ensures
        target.copied_from(source, durable).copied_from(source, durable) == target.copied_from(
            source,
            durable,
        ),
{
    let s = source.flags;
    let t = target.flags;
    let a = ((s & !0x0000_0300u32) | (t & 0x0000_0300u32)) | 0x0000_0100u32;
    let b = ((s & !0x0000_0300u32) | (t & 0x0000_0300u32)) & !0x0000_0100u32;
    assert(((s & !0x0000_0300u32) | (a & 0x0000_0300u32)) | 0x0000_0100u32 == a) by (bit_vector)
        requires
            a == ((s & !0x0000_0300u32) | (t & 0x0000_0300u32)) | 0x0000_0100u32,
    ;
    assert(((s & !0x0000_0300u32) | (b & 0x0000_0300u32)) & !0x0000_0100u32 == b) by (bit_vector)
        requires
            b == ((s & !0x0000_0300u32) | (t & 0x0000_0300u32)) & !0x0000_0100u32,
    ;
    let c = a | 0x0000_0200u32;
    let d = b | 0x0000_0200u32;
    assert((((s & !0x0000_0300u32) | (c & 0x0000_0300u32)) | 0x0000_0100u32) | 0x0000_0200u32 == c)
        by (bit_vector)
        requires
            c == (((s & !0x0000_0300u32) | (t & 0x0000_0300u32)) | 0x0000_0100u32) | 0x0000_0200u32,
    ;
    assert((((s & !0x0000_0300u32) | (d & 0x0000_0300u32)) & !0x0000_0100u32) | 0x0000_0200u32
        == d) by (bit_vector)
        requires
            d == (((s & !0x0000_0300u32) | (t & 0x0000_0300u32)) & !0x0000_0100u32)
                | 0x0000_0200u32,
    ;
}

/// Copying data onto itself settles it: doing so again changes nothing, whatever time was stamped on
/// it in between.
pub proof fn law_copy_onto_itself_settles(data: ImmutableData, durable: bool, now: u64)
    ensures
        ({
            let once = data.copied_from(data, durable);
            let stamped = ImmutableData { last_access: now, ..once };
            stamped.copied_from(stamped, durable) == stamped && once.copied_from(once, durable)
                == once
        }),
{
    let once = data.copied_from(data, durable);
    let t = data.flags;
    let f = once.flags;
    let with = ((t & !0x0000_0300u32) | (t & 0x0000_0300u32)) | 0x0000_0100u32;
    let without = ((t & !0x0000_0300u32) | (t & 0x0000_0300u32)) & !0x0000_0100u32;
    assert(f == with || f == without || f == with | 0x0000_0200u32 || f == without
        | 0x0000_0200u32);
    assert((f & !0x0000_0300u32) | (f & 0x0000_0300u32) == f) by (bit_vector);
    assert(with | 0x0000_0100u32 == with && without & !0x0000_0100u32 == without && (with
        | 0x0000_0200u32) | 0x0000_0100u32 == with | 0x0000_0200u32 && (without | 0x0000_0200u32)
        & !0x0000_0100u32 == without | 0x0000_0200u32) by (bit_vector)
        requires
            with == ((t & !0x0000_0300u32) | (t & 0x0000_0300u32)) | 0x0000_0100u32,
            without == ((t & !0x0000_0300u32) | (t & 0x0000_0300u32)) & !0x0000_0100u32,
    ;
    assert((with | 0x0000_0200u32) | 0x0000_0200u32 == with | 0x0000_0200u32 && (without
        | 0x0000_0200u32) | 0x0000_0200u32 == without | 0x0000_0200u32) by (bit_vector);
}

} // verus!
