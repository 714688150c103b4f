//! The delta index file: a header, a fanout table and a sorted table of
//! records, read from bytes.
use vstd::prelude::*;
use std::cmp::Ordering;
use crate::codec::{read_u32_be, u32_at};
use crate::entry::{decode_entry, entry_result_view, IndexEntry, ENTRY_LEN};
use crate::error::{DataIndexError, HeaderFault};
use crate::node::{compare_at, lemma_lex_asymmetric, lemma_lex_transitive, lex_lt, Node, NODE_LEN};

verus! {

/// Above this many entries the writer picks the two-byte fanout.
pub const SMALL_FANOUT_CUTOFF: usize = 8192;

pub const SMALL_FANOUT_SLOTS: usize = 256;

pub const LARGE_FANOUT_SLOTS: usize = 65536;

/// Config byte of a file with the two-byte fanout.
pub const LARGE_CONFIG: u8 = 0x80;

/// Number of slots of the fanout table.
pub open spec fn fanout_slots(large: bool) -> int {
    if large {
        LARGE_FANOUT_SLOTS as int
    } else {
        SMALL_FANOUT_SLOTS as int
    }
}

/// Offset in the file at which the entry table starts.
pub open spec fn index_start_of(o: DataIndexOptions) -> int {
    2 + 4 * fanout_slots(o.large) + if o.version == 1 {
        8int
    } else {
        0int
    }
}

/// The fanout slot of a node: its first byte, or its first two bytes read big-endian.
pub open spec fn fanout_prefix(node: Seq<u8>, large: bool) -> int {
    if large {
        node[0] as int * 256 + node[1] as int
    } else {
        node[0] as int
    }
}

/// The two header bytes.
#[derive(Clone, Copy, Debug, PartialEq, Eq, Structural)]
pub struct DataIndexOptions {
    pub version: u8,
    /// Whether the fanout is keyed by two bytes rather than one.
    pub large: bool,
}

pub open spec fn header_bytes(o: DataIndexOptions) -> Seq<u8> {
    seq![o.version, if o.large { LARGE_CONFIG } else { 0u8 }]
}

/// The header at the start of `s`.
pub open spec fn parse_header(s: Seq<u8>) -> Result<DataIndexOptions, HeaderFault> {
    if s.len() == 0 {
        Err(HeaderFault::Empty)
    } else if s[0] > 1 {
        Err(HeaderFault::UnsupportedVersion(s[0]))
    } else if s.len() < 2 {
        Err(HeaderFault::Empty)
    } else if s[1] == LARGE_CONFIG {
        Ok(DataIndexOptions { version: s[0], large: true })
    } else if s[1] == 0 {
        Ok(DataIndexOptions { version: s[0], large: false })
    } else {
        Err(HeaderFault::InvalidConfig(s[1]))
    }
}

/// What opening the bytes `s` gives: the header, once the file is long
/// enough for its fanout and holds a whole number of records.
pub open spec fn open_index(s: Seq<u8>) -> Result<DataIndexOptions, DataIndexError> {
    match parse_header(s) {
        Err(f) => Err(DataIndexError::InvalidHeader(f)),
        Ok(o) => if s.len() < index_start_of(o) || (s.len() - index_start_of(o)) % 40 != 0 {
            Err(DataIndexError::InvalidHeader(HeaderFault::Truncated(s.len() as usize)))
        } else {
            Ok(o)
        },
    }
}

/// Length of the entry table.
pub open spec fn region_len(s: Seq<u8>, o: DataIndexOptions) -> int {
    s.len() - index_start_of(o)
}

/// The value of fanout slot `p`.
pub open spec fn fanout_entry(s: Seq<u8>, p: int) -> int {
    u32_at(s, 2 + 4 * p) as int
}

/// Start, within the entry table, of the range the fanout gives for `node`.
pub open spec fn lower_of(s: Seq<u8>, o: DataIndexOptions, node: Seq<u8>) -> int {
    fanout_entry(s, fanout_prefix(node, o.large))
}

/// End, within the entry table, of the range the fanout gives for `node`.
pub open spec fn upper_of(s: Seq<u8>, o: DataIndexOptions, node: Seq<u8>) -> int {
    let p = fanout_prefix(node, o.large);
    if p + 1 < fanout_slots(o.large) {
        fanout_entry(s, p + 1)
    } else {
        region_len(s, o)
    }
}

pub open spec fn bounds_valid(s: Seq<u8>, o: DataIndexOptions, node: Seq<u8>) -> bool {
    0 <= lower_of(s, o, node) <= upper_of(s, o, node) <= region_len(s, o)
}

/// Absolute offset of the first record of the range for `node`.
pub open spec fn range_start(s: Seq<u8>, o: DataIndexOptions, node: Seq<u8>) -> int {
    index_start_of(o) + lower_of(s, o, node)
}

/// Number of whole records in the range for `node`.
pub open spec fn range_count(s: Seq<u8>, o: DataIndexOptions, node: Seq<u8>) -> int {
    (upper_of(s, o, node) - lower_of(s, o, node)) / 40
}

/// The node of the `k`-th record of the run of records starting at `start`.
pub open spec fn rec_node(s: Seq<u8>, start: int, k: int) -> Seq<u8> {
    s.subrange(start + 40 * k, start + 40 * k + 20)
}

/// The run of `count` records at `start` is strictly ascending by node.
pub open spec fn records_sorted(s: Seq<u8>, start: int, count: int) -> bool {
    forall|i: int, j: int|
        0 <= i < j < count ==> lex_lt(#[trigger] rec_node(s, start, i), #[trigger] rec_node(s, start, j))
}

/// The records of the range for `node` are strictly ascending.
pub open spec fn range_sorted(s: Seq<u8>, o: DataIndexOptions, node: Seq<u8>) -> bool {
    records_sorted(s, range_start(s, o, node), range_count(s, o, node))
}

/// The `k`-th record of the range for `node` holds `node`.
pub open spec fn holds_at(s: Seq<u8>, o: DataIndexOptions, node: Seq<u8>, k: int) -> bool {
    0 <= k < range_count(s, o, node) && rec_node(s, range_start(s, o, node), k) == node
}

impl DataIndexOptions {
    /// Reads the header at the start of `buf`.
    pub fn read(buf: &[u8]) -> (r: Result<DataIndexOptions, DataIndexError>)
        ensures
            r == (match parse_header(buf@) {
                Ok(o) => Ok(o),
                Err(f) => Err(DataIndexError::InvalidHeader(f)),
            }),
    {
        if buf.len() == 0 {
            return Err(DataIndexError::InvalidHeader(HeaderFault::Empty));
        }
        let version = buf[0];
        if version > 1 {
            return Err(DataIndexError::InvalidHeader(HeaderFault::UnsupportedVersion(version)));
        }
        if buf.len() < 2 {
            return Err(DataIndexError::InvalidHeader(HeaderFault::Empty));
        }
        let raw_config = buf[1];
        if raw_config == LARGE_CONFIG {
            Ok(DataIndexOptions { version, large: true })
        } else if raw_config == 0 {
            Ok(DataIndexOptions { version, large: false })
        } else {
            Err(DataIndexError::InvalidHeader(HeaderFault::InvalidConfig(raw_config)))
        }
    }

    /// Appends the two header bytes.
    pub fn write(&self, out: &mut Vec<u8>)
        ensures
            final(out)@ == old(out)@ + header_bytes(*self),
    {
        out.push(self.version);
        out.push(if self.large { LARGE_CONFIG } else { 0 });
        assert(out@ =~= old(out)@ + header_bytes(*self));
    }
}

/// A header that is written and read back is the header written.
pub proof fn lemma_header_round_trip(o: DataIndexOptions, rest: Seq<u8>)
    requires
        o.version <= 1,
    ensures
        parse_header(header_bytes(o) + rest) == Ok::<DataIndexOptions, HeaderFault>(o),
{
    let s = header_bytes(o) + rest;
    assert(s[0] == o.version);
    assert(s[1] == header_bytes(o)[1]);
}

/// Size in bytes of the fanout table.
pub fn fanout_size(large: bool) -> (r: usize)
    ensures
        r == 4 * fanout_slots(large),
{
    if large {
        4 * LARGE_FANOUT_SLOTS
    } else {
        4 * SMALL_FANOUT_SLOTS
    }
}

/// The fanout slot of `node`.
pub fn fanout_index(node: &Node, large: bool) -> (r: usize)
    ensures
        r == fanout_prefix(node@, large),
        r < fanout_slots(large),
{
    if large {
        node.byte(0) as usize * 256 + node.byte(1) as usize
    } else {
        node.byte(0) as usize
    }
}

/// A delta index read from the bytes of its file.
pub struct DataIndex {
    data: Vec<u8>,
    options: DataIndexOptions,
    fanout_size: usize,
    index_start: usize,
}

impl DataIndex {
    /// The bytes of the file.
    pub closed spec fn bytes(&self) -> Seq<u8> {
        self.data@
    }

    /// The header of the file.
    pub closed spec fn options(&self) -> DataIndexOptions {
        self.options
    }

    #[verifier::type_invariant]
    closed spec fn inv(&self) -> bool {
        &&& open_index(self.data@) == Ok::<DataIndexOptions, DataIndexError>(self.options)
        &&& self.fanout_size == 4 * fanout_slots(self.options.large)
        &&& self.index_start == index_start_of(self.options)
    }

    /// Opens the bytes of an index file. Beyond the header, the file must be
    /// long enough for its fanout table (and entry count, in version 1), and
    /// its entry table must hold a whole number of records; a file that is
    /// not is refused as truncated, so that later reads of the fanout table
    /// stay in bounds.
    pub fn new(data: Vec<u8>) -> (r: Result<DataIndex, DataIndexError>)
        ensures
            match r {
                Ok(ix) => open_index(data@) == Ok::<DataIndexOptions, DataIndexError>(ix.options())
                    && ix.bytes() == data@,
                Err(e) => open_index(data@) == Err::<DataIndexOptions, DataIndexError>(e),
            },
    {
        let options = match DataIndexOptions::read(data.as_slice()) {
            Ok(o) => o,
            Err(e) => {
                return Err(e);
            },
        };
        let fanout_size = fanout_size(options.large);
        let mut index_start = 2 + fanout_size;
        // Version one records the number of entries in the index.
        if options.version == 1 {
            index_start = index_start + 8;
        }
        if data.len() < index_start || (data.len() - index_start) % ENTRY_LEN != 0 {
            return Err(DataIndexError::InvalidHeader(HeaderFault::Truncated(data.len())));
        }
        Ok(DataIndex { data, options, fanout_size, index_start })
    }

    /// Decodes the record at `offset` within the entry table.
    pub fn read_entry(&self, offset: usize) -> (r: Result<IndexEntry, DataIndexError>)
        ensures
            offset + ENTRY_LEN > region_len(self.bytes(), self.options()) ==> r
                == Err::<IndexEntry, DataIndexError>(DataIndexError::InvalidEntryOffset(offset)),
            offset + ENTRY_LEN <= region_len(self.bytes(), self.options()) ==> entry_result_view(r)
                == decode_entry(self.bytes(), index_start_of(self.options()) + offset),
    {
        proof {
            use_type_invariant(self);
        }
        let region = self.data.len() - self.index_start;
        if region < ENTRY_LEN || offset > region - ENTRY_LEN {
            return Err(DataIndexError::InvalidEntryOffset(offset));
        }
        let pos = self.index_start + offset;
        let raw = vstd::slice::slice_subrange(self.data.as_slice(), pos, pos + ENTRY_LEN);
        let r = IndexEntry::read(raw);
        proof {
            assert forall|k: int| 0 <= k < 40 implies #[trigger] raw@[k] == self.data@[pos + k] by {}
            assert(raw@.subrange(0, 20) =~= self.data@.subrange(pos as int, pos + 20));
        }
        r
    }

    /// The range of the entry table that the fanout gives for `node`.
    fn fanout_bounds(&self, node: &Node) -> (r: Result<(usize, usize), DataIndexError>)
        ensures
            match r {
                Ok((lo, hi)) => bounds_valid(self.bytes(), self.options(), node@)
                    && lo == lower_of(self.bytes(), self.options(), node@)
                    && hi == upper_of(self.bytes(), self.options(), node@),
                Err(e) => !bounds_valid(self.bytes(), self.options(), node@)
                    && e is InvalidEntryOffset,
            },
    {
        proof {
            use_type_invariant(self);
        }
        let region = self.data.len() - self.index_start;
        let p = fanout_index(node, self.options.large);
        let lo = read_u32_be(self.data.as_slice(), 2 + 4 * p) as usize;
        let hi = if p + 1 < self.fanout_size / 4 {
            read_u32_be(self.data.as_slice(), 2 + 4 * (p + 1)) as usize
        } else {
            region
        };
        if lo > hi || hi > region {
            return Err(DataIndexError::InvalidEntryOffset(hi));
        }
        Ok((lo, hi))
    }

    /// Bisects the `count` records at `start` for `node`.
    fn binary_search(&self, node: &Node, start: usize, count: usize) -> (r: Option<usize>)
        requires
            start + 40 * count <= self.bytes().len(),
        ensures
            r matches Some(k) ==> k < count && rec_node(self.bytes(), start as int, k as int) == node@,
            r is None ==> (records_sorted(self.bytes(), start as int, count as int) ==> forall|k: int|
                0 <= k < count ==> rec_node(self.bytes(), start as int, k) != node@),
    {
        let ghost s = self.data@;
        let ghost sorted = records_sorted(s, start as int, count as int);
        let _n = self.data.len();
        let mut lo: usize = 0;
        let mut hi: usize = count;
        while lo < hi
            invariant
                lo <= hi <= count,
                _n == s.len(),
                s == self.data@,
                start + 40 * count <= s.len(),
                sorted == records_sorted(s, start as int, count as int),
                sorted ==> forall|k: int| 0 <= k < lo ==> lex_lt(#[trigger] rec_node(s, start as int, k), node@),
                sorted ==> forall|k: int| hi <= k < count ==> lex_lt(node@, #[trigger] rec_node(s, start as int, k)),
            decreases hi - lo,
        {
            let mid = lo + (hi - lo) / 2;
            let ord = compare_at(self.data.as_slice(), start + 40 * mid, node);
            assert(s.subrange(start + 40 * mid, start + 40 * mid + NODE_LEN) == rec_node(s, start as int, mid as int));
            match ord {
                Ordering::Less => {
                    proof {
                        if sorted {
                            assert forall|k: int| 0 <= k < mid + 1 implies lex_lt(#[trigger] rec_node(s, start as int, k), node@) by {
                                if k < mid {
                                    lemma_lex_transitive(rec_node(s, start as int, k), rec_node(s, start as int, mid as int), node@);
                                }
                            }
                        }
                    }
                    lo = mid + 1;
                },
                Ordering::Greater => {
                    proof {
                        if sorted {
                            assert forall|k: int| mid <= k < count implies lex_lt(node@, #[trigger] rec_node(s, start as int, k)) by {
                                if k > mid {
                                    lemma_lex_transitive(node@, rec_node(s, start as int, mid as int), rec_node(s, start as int, k));
                                }
                            }
                        }
                    }
                    hi = mid;
                },
                Ordering::Equal => {
                    return Some(mid);
                },
            }
        }
        proof {
            if sorted {
                assert forall|k: int| 0 <= k < count implies rec_node(s, start as int, k) != node@ by {
                    if k < lo {
                        lemma_lex_asymmetric(rec_node(s, start as int, k), node@);
                    } else {
                        lemma_lex_asymmetric(node@, rec_node(s, start as int, k));
                    }
                }
            }
        }
        None
    }

    /// Looks `node` up: the fanout bounds the range, bisection finds the record.
    pub fn get_entry(&self, node: &Node) -> (r: Result<IndexEntry, DataIndexError>)
        ensures
            !bounds_valid(self.bytes(), self.options(), node@) ==> r matches Err(
                DataIndexError::InvalidEntryOffset(_),
            ),
            bounds_valid(self.bytes(), self.options(), node@) ==> (r matches Err(
                DataIndexError::KeyNotFound(n),
            ) ==> n@ == node@ && (range_sorted(self.bytes(), self.options(), node@) ==> forall|k: int|
                !holds_at(self.bytes(), self.options(), node@, k))),
            bounds_valid(self.bytes(), self.options(), node@) ==> (!(r matches Err(
                DataIndexError::KeyNotFound(_),
            )) ==> exists|k: int|
                #[trigger] holds_at(self.bytes(), self.options(), node@, k) && entry_result_view(r)
                    == decode_entry(self.bytes(), range_start(self.bytes(), self.options(), node@) + 40 * k)),
    {
        proof {
            use_type_invariant(self);
        }
        let (lo, hi) = match self.fanout_bounds(node) {
            Ok(b) => b,
            Err(e) => {
                return Err(e);
            },
        };
        let _n = self.data.len();
        let count = (hi - lo) / ENTRY_LEN;
        let start = self.index_start + lo;
        match self.binary_search(node, start, count) {
            Some(k) => {
                let r = self.read_entry(lo + ENTRY_LEN * k);
                assert(holds_at(self.bytes(), self.options(), node@, k as int));
                r
            },
            None => Err(DataIndexError::KeyNotFound(*node)),
        }
    }
}

} // verus!
