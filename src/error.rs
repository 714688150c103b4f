//! Errors reported by the index reader and writer.
use vstd::prelude::*;
use crate::node::Node;

verus! {

/// Why a header was refused.
#[derive(Clone, Copy, Debug, PartialEq, Eq)]
pub enum HeaderFault {
    /// Fewer than the two header bytes.
    Empty,
    /// A version byte above 1.
    UnsupportedVersion(u8),
    /// A config byte other than `0x00` and `0x80`.
    InvalidConfig(u8),
    /// A file too short for its fanout table, or whose entry table is not a
    /// whole number of records; holds the file's length.
    Truncated(usize),
}

#[derive(Clone, Copy, Debug, PartialEq, Eq)]
pub enum DataIndexError {
    InvalidHeader(HeaderFault),
    /// An entry offset, or a fanout bound, that reaches past the entry table.
    InvalidEntryOffset(usize),
    KeyNotFound(Node),
    /// A stored delta base offset below -2.
    InvalidDeltaBaseOffset(i32),
    /// A node given twice to the writer.
    DuplicateNode(Node),
}

} // verus!
