//! Index records: 40 bytes each, big-endian.
use vstd::prelude::*;
use crate::codec::{
    i32_at, lemma_signed_round_trip, lemma_u32_round_trip, lemma_u64_round_trip, push_i32_be,
    push_u64_be, read_i32_be, read_u64_be, signed_of, u32_at, u32_bytes, u64_at, u64_bytes,
    unsigned_of,
};
use vstd::slice::slice_subrange;
use crate::error::DataIndexError;
use crate::node::{Node, NODE_LEN};

verus! {

/// Width of a record in bytes.
pub const ENTRY_LEN: usize = 40;

/// Where the delta base of an entry is to be found.
#[derive(Clone, Copy, Debug, PartialEq, Eq, Structural)]
pub enum DeltaBaseOffset {
    /// Offset of the base's record within the entry table.
    Offset(u32),
    /// The payload is stored as full text.
    FullText,
    /// The base is named but not held by this index.
    Missing,
}

/// Where a payload lies in the pack file, and the node of its delta base.
#[derive(Clone, Copy, Debug)]
pub struct DeltaLocation {
    pub delta_base: Option<Node>,
    pub offset: u64,
    pub size: u64,
}

/// A record of the index, as values.
pub struct EntryView {
    pub node: Seq<u8>,
    pub delta: DeltaBaseOffset,
    pub offset: u64,
    pub size: u64,
}

/// The meaning of a stored delta base value; `None` below -2.
pub open spec fn delta_of(raw: int) -> Option<DeltaBaseOffset> {
    if raw >= 0 {
        Some(DeltaBaseOffset::Offset(raw as u32))
    } else if raw == -1 {
        Some(DeltaBaseOffset::FullText)
    } else if raw == -2 {
        Some(DeltaBaseOffset::Missing)
    } else {
        None
    }
}

/// The signed value that stores a delta base.
pub open spec fn delta_code(d: DeltaBaseOffset) -> int {
    match d {
        DeltaBaseOffset::Offset(v) => signed_of(v),
        DeltaBaseOffset::FullText => -1,
        DeltaBaseOffset::Missing => -2,
    }
}

/// A delta base that survives being stored: an offset must stay non-negative.
pub open spec fn delta_storable(d: DeltaBaseOffset) -> bool {
    match d {
        DeltaBaseOffset::Offset(v) => v < 0x8000_0000,
        _ => true,
    }
}

/// The 40 bytes of a record.
pub open spec fn entry_bytes(e: EntryView) -> Seq<u8> {
    e.node + u32_bytes(unsigned_of(delta_code(e.delta))) + u64_bytes(e.offset) + u64_bytes(e.size)
}

/// The record stored at `s[pos..pos + 40]`, or the error its delta base value gives.
pub open spec fn decode_entry(s: Seq<u8>, pos: int) -> Result<EntryView, DataIndexError> {
    let raw = i32_at(s, pos + 20);
    match delta_of(raw) {
        Some(d) => Ok(
            EntryView {
                node: s.subrange(pos, pos + 20),
                delta: d,
                offset: u64_at(s, pos + 24),
                size: u64_at(s, pos + 32),
            },
        ),
        None => Err(DataIndexError::InvalidDeltaBaseOffset(raw as i32)),
    }
}

impl DeltaBaseOffset {
    /// Reads a stored delta base value.
    pub fn new(value: i32) -> (r: Result<DeltaBaseOffset, DataIndexError>)
        ensures
            r == (match delta_of(value as int) {
                Some(d) => Ok(d),
                None => Err(DataIndexError::InvalidDeltaBaseOffset(value)),
            }),
    {
        if value >= 0 {
            Ok(DeltaBaseOffset::Offset(value as u32))
        } else if value == -1 {
            Ok(DeltaBaseOffset::FullText)
        } else if value == -2 {
            Ok(DeltaBaseOffset::Missing)
        } else {
            Err(DataIndexError::InvalidDeltaBaseOffset(value))
        }
    }

    /// The signed value that stores this delta base; an offset is read as
    /// two's complement.
    pub fn to_i32(&self) -> (r: i32)
        ensures
            r as int == delta_code(*self),
    {
        match self {
            DeltaBaseOffset::Offset(value) => {
                let v = *value;
                if v < 0x8000_0000 {
                    v as i32
                } else {
                    let low = (v - 0x8000_0000) as i32;
                    low - 0x7fff_ffff - 1
                }
            },
            DeltaBaseOffset::FullText => -1,
            DeltaBaseOffset::Missing => -2,
        }
    }
}

pub proof fn lemma_delta_round_trip(d: DeltaBaseOffset)
    requires
        delta_storable(d),
    ensures
        delta_of(signed_of(unsigned_of(delta_code(d)))) == Some(d),
{
    lemma_signed_round_trip(delta_code(d));
}

/// A record of the index.
#[derive(Clone, Copy, Debug)]
pub struct IndexEntry {
    node: Node,
    delta_base_offset: DeltaBaseOffset,
    pack_entry_offset: u64,
    pack_entry_size: u64,
}

impl View for IndexEntry {
    type V = EntryView;

    closed spec fn view(&self) -> EntryView {
        EntryView {
            node: self.node@,
            delta: self.delta_base_offset,
            offset: self.pack_entry_offset,
            size: self.pack_entry_size,
        }
    }
}

/// The value view of a decoded record.
pub open spec fn entry_result_view(r: Result<IndexEntry, DataIndexError>) -> Result<EntryView, DataIndexError> {
    match r {
        Ok(e) => Ok(e@),
        Err(x) => Err(x),
    }
}

impl IndexEntry {
    pub fn new(node: Node, delta_base_offset: DeltaBaseOffset, pack_entry_offset: u64, pack_entry_size: u64) -> (r: IndexEntry)
        ensures
            r@ == (EntryView {
                node: node@,
                delta: delta_base_offset,
                offset: pack_entry_offset,
                size: pack_entry_size,
            }),
    {
        IndexEntry { node, delta_base_offset, pack_entry_offset, pack_entry_size }
    }

    pub fn node(&self) -> (r: &Node)
        ensures
            r@ == self@.node,
    {
        &self.node
    }

    pub fn delta_base_offset(&self) -> (r: DeltaBaseOffset)
        ensures
            r == self@.delta,
    {
        self.delta_base_offset
    }

    pub fn pack_entry_offset(&self) -> (r: u64)
        ensures
            r == self@.offset,
    {
        self.pack_entry_offset
    }

    pub fn pack_entry_size(&self) -> (r: u64)
        ensures
            r == self@.size,
    {
        self.pack_entry_size
    }

    /// Decodes the record at the start of `buf`.
    pub fn read(buf: &[u8]) -> (r: Result<IndexEntry, DataIndexError>)
        ensures
            buf@.len() < ENTRY_LEN ==> r == Err::<IndexEntry, DataIndexError>(
                DataIndexError::InvalidEntryOffset(buf@.len() as usize),
            ),
            buf@.len() >= ENTRY_LEN ==> entry_result_view(r) == decode_entry(buf@, 0),
    {
        if buf.len() < ENTRY_LEN {
            return Err(DataIndexError::InvalidEntryOffset(buf.len()));
        }
        let node = match Node::from_slice(slice_subrange(buf, 0, NODE_LEN)) {
            Some(n) => n,
            None => {
                return Err(DataIndexError::InvalidEntryOffset(buf.len()));
            },
        };
        let raw = read_i32_be(buf, 20);
        let delta_base_offset = match DeltaBaseOffset::new(raw) {
            Ok(d) => d,
            Err(e) => {
                return Err(e);
            },
        };
        let pack_entry_offset = read_u64_be(buf, 24);
        let pack_entry_size = read_u64_be(buf, 32);
        Ok(IndexEntry::new(node, delta_base_offset, pack_entry_offset, pack_entry_size))
    }

    /// Appends the record's 40 bytes.
    pub fn write(&self, out: &mut Vec<u8>)
        ensures
            final(out)@ == old(out)@ + entry_bytes(self@),
    {
        let bytes = self.node.as_bytes();
        let mut i: usize = 0;
        while i < NODE_LEN
            invariant
                i <= NODE_LEN,
                bytes@ == self@.node,
                bytes@.len() == NODE_LEN,
                out@ == old(out)@ + bytes@.subrange(0, i as int),
            decreases NODE_LEN - i,
        {
            out.push(bytes[i]);
            i = i + 1;
            proof {
                assert(bytes@.subrange(0, i as int) =~= bytes@.subrange(0, i - 1) + seq![bytes@[i - 1]]);
            }
        }
        assert(bytes@.subrange(0, NODE_LEN as int) =~= bytes@);
        push_i32_be(out, self.delta_base_offset.to_i32());
        push_u64_be(out, self.pack_entry_offset);
        push_u64_be(out, self.pack_entry_size);
        assert(out@ =~= old(out)@ + entry_bytes(self@));
    }
}

/// A record read back from its bytes is the record written.
pub proof fn lemma_entry_round_trip(e: EntryView, pre: Seq<u8>, rest: Seq<u8>)
    requires
        e.node.len() == NODE_LEN,
        delta_storable(e.delta),
    ensures
        decode_entry(pre + entry_bytes(e) + rest, pre.len() as int) == Ok::<EntryView, DataIndexError>(e),
{
    let s = pre + entry_bytes(e) + rest;
    let p = pre.len() as int;
    let u = unsigned_of(delta_code(e.delta));
    assert(s.subrange(p, p + 20) =~= e.node);
    assert(s.subrange(p + 20, s.len() as int) =~= u32_bytes(u) + (u64_bytes(e.offset) + u64_bytes(e.size) + rest));
    lemma_u32_round_trip(u, u64_bytes(e.offset) + u64_bytes(e.size) + rest);
    assert(u32_at(s, p + 20) == u32_at(s.subrange(p + 20, s.len() as int), 0));
    assert(s.subrange(p + 24, s.len() as int) =~= u64_bytes(e.offset) + (u64_bytes(e.size) + rest));
    lemma_u64_round_trip(e.offset, u64_bytes(e.size) + rest);
    assert(u32_at(s, p + 24) == u32_at(s.subrange(p + 24, s.len() as int), 0));
    assert(u32_at(s, p + 28) == u32_at(s.subrange(p + 24, s.len() as int), 4));
    assert(s.subrange(p + 32, s.len() as int) =~= u64_bytes(e.size) + rest);
    lemma_u64_round_trip(e.size, rest);
    assert(u32_at(s, p + 32) == u32_at(s.subrange(p + 32, s.len() as int), 0));
    assert(u32_at(s, p + 36) == u32_at(s.subrange(p + 32, s.len() as int), 4));
    lemma_delta_round_trip(e.delta);
}

} // verus!
