//! Writing a delta index from a set of nodes and their locations.
use vstd::prelude::*;
use std::cmp::Ordering;
use crate::codec::{push_u32_be, push_u64_be, u32_bytes, u64_bytes};
use crate::dataindex::{
    fanout_index, fanout_prefix, fanout_slots, header_bytes, DataIndex, DataIndexOptions,
    LARGE_FANOUT_SLOTS, SMALL_FANOUT_CUTOFF, SMALL_FANOUT_SLOTS,
};
use crate::entry::{
    entry_bytes, DeltaBaseOffset, DeltaLocation, EntryView, IndexEntry, ENTRY_LEN,
};
use crate::error::DataIndexError;
use crate::node::{
    compare, lemma_lex_asymmetric, lemma_lex_irreflexive, lemma_lex_total, lemma_lex_transitive, lex_lt,
    Node,
};
use vstd::seq_lib::{to_multiset_build, to_multiset_contains, to_multiset_insert};

verus! {

/// Most entries a file can hold: record offsets are stored as non-negative
/// signed 32-bit values.
pub const MAX_ENTRIES: usize = 53687091;

/// No node is given twice.
pub open spec fn nodes_distinct(v: Seq<(Node, DeltaLocation)>) -> bool {
    forall|i: int, j: int| 0 <= i < j < v.len() ==> v[i].0@ != v[j].0@
}

/// Nodes strictly ascend.
pub open spec fn strictly_sorted(v: Seq<(Node, DeltaLocation)>) -> bool {
    forall|i: int, j: int| 0 <= i < j < v.len() ==> lex_lt(#[trigger] v[i].0@, #[trigger] v[j].0@)
}

/// `s` holds the pairs of `v`, in ascending order of node.
pub open spec fn sorted_arrangement(s: Seq<(Node, DeltaLocation)>, v: Seq<(Node, DeltaLocation)>) -> bool {
    strictly_sorted(s) && s.to_multiset() == v.to_multiset()
}

/// The position in `s` of the pair whose node is `b`, if any.
pub open spec fn node_position(s: Seq<(Node, DeltaLocation)>, b: Seq<u8>) -> Option<int> {
    if exists|j: int| 0 <= j < s.len() && s[j].0@ == b {
        Some(choose|j: int| 0 <= j < s.len() && s[j].0@ == b)
    } else {
        None
    }
}

/// How the `i`-th of the sorted pairs `s` refers to its delta base.
pub open spec fn resolved_delta(s: Seq<(Node, DeltaLocation)>, i: int) -> DeltaBaseOffset {
    match s[i].1.delta_base {
        None => DeltaBaseOffset::FullText,
        Some(b) => match node_position(s, b@) {
            Some(j) => DeltaBaseOffset::Offset((40 * j) as u32),
            None => DeltaBaseOffset::Missing,
        },
    }
}

/// The record written for the `i`-th of the sorted pairs `s`.
pub open spec fn resolved_entry(s: Seq<(Node, DeltaLocation)>, i: int) -> EntryView {
    EntryView { node: s[i].0@, delta: resolved_delta(s, i), offset: s[i].1.offset, size: s[i].1.size }
}

/// The entry table for the sorted pairs `s`: record `i` at offset `40 * i`.
pub open spec fn entry_table(s: Seq<(Node, DeltaLocation)>) -> Seq<u8> {
    Seq::new((40 * s.len()) as nat, |k: int| entry_bytes(resolved_entry(s, k / 40))[k % 40])
}

/// How many of the nodes of `s` fall in a fanout slot below `p`.
pub open spec fn count_below(s: Seq<(Node, DeltaLocation)>, p: int, large: bool) -> int
    decreases s.len(),
{
    if s.len() == 0 {
        0
    } else {
        count_below(s.drop_last(), p, large) + if fanout_prefix(s.last().0@, large) < p {
            1int
        } else {
            0int
        }
    }
}

/// The fanout table for the sorted pairs `s`: slot `p` holds the offset of
/// the first record whose slot is `p` or above, or the table's length.
pub open spec fn fanout_table(s: Seq<(Node, DeltaLocation)>, large: bool) -> Seq<u8> {
    Seq::new((4 * fanout_slots(large)) as nat, |k: int| u32_bytes((40 * count_below(s, k / 4, large)) as u32)[k % 4])
}

/// The header the writer gives to `n` entries.
pub open spec fn options_for(n: int) -> DataIndexOptions {
    DataIndexOptions { version: 1, large: n > SMALL_FANOUT_CUTOFF }
}

/// The file written for the sorted pairs `s`.
#[verifier::opaque]
pub open spec fn index_file(s: Seq<(Node, DeltaLocation)>) -> Seq<u8> {
    let o = options_for(s.len() as int);
    header_bytes(o) + fanout_table(s, o.large) + u64_bytes(s.len() as u64) + entry_table(s)
}

/// A node in a lower fanout slot comes first.
pub proof fn lemma_prefix_monotone(a: Seq<u8>, b: Seq<u8>, large: bool)
    requires
        a.len() == 20,
        b.len() == 20,
        lex_lt(a, b),
    ensures
        fanout_prefix(a, large) <= fanout_prefix(b, large),
{
    if a[0] == b[0] {
        assert(lex_lt(a.drop_first(), b.drop_first()));
        assert(a.drop_first()[0] == a[1]);
        assert(b.drop_first()[0] == b[1]);
    }
}

proof fn lemma_count_below_split(s: Seq<(Node, DeltaLocation)>, p: int, large: bool, j: int)
    requires
        0 <= j <= s.len(),
        forall|i: int| 0 <= i < j ==> fanout_prefix(#[trigger] s[i].0@, large) < p,
        forall|i: int| j <= i < s.len() ==> fanout_prefix(#[trigger] s[i].0@, large) >= p,
    ensures
        count_below(s, p, large) == j,
    decreases s.len(),
{
    if s.len() > 0 {
        let t = s.drop_last();
        if j == s.len() {
            lemma_count_below_split(t, p, large, j - 1);
        } else {
            lemma_count_below_split(t, p, large, j);
        }
    }
}

pub(crate) proof fn lemma_fanout_chunk(s: Seq<(Node, DeltaLocation)>, large: bool, p: int)
    requires
        0 <= p < fanout_slots(large),
    ensures
        fanout_table(s, large).subrange(4 * p, 4 * p + 4) == u32_bytes((40 * count_below(s, p, large)) as u32),
{
    let t = fanout_table(s, large);
    let c = u32_bytes((40 * count_below(s, p, large)) as u32);
    assert forall|m: int| 0 <= m < 4 implies #[trigger] t.subrange(4 * p, 4 * p + 4)[m] == c[m] by {
        assert((4 * p + m) / 4 == p && (4 * p + m) % 4 == m) by (nonlinear_arith)
            requires
                0 <= m < 4,
        ;
    }
    assert(t.subrange(4 * p, 4 * p + 4) =~= c);
}

pub(crate) proof fn lemma_entry_chunk(s: Seq<(Node, DeltaLocation)>, i: int)
    requires
        0 <= i < s.len(),
    ensures
        entry_table(s).subrange(40 * i, 40 * i + 40) == entry_bytes(resolved_entry(s, i)),
{
    let t = entry_table(s);
    let c = entry_bytes(resolved_entry(s, i));
    assert(s[i].0@.len() == 20);
    assert forall|m: int| 0 <= m < 40 implies #[trigger] t.subrange(40 * i, 40 * i + 40)[m] == c[m] by {
        assert((40 * i + m) / 40 == i && (40 * i + m) % 40 == m) by (nonlinear_arith)
            requires
                0 <= m < 40,
        ;
    }
    assert(t.subrange(40 * i, 40 * i + 40) =~= c);
}

/// Where `x` belongs among the strictly ascending pairs `s`: after those with
/// a smaller node, before the rest.
fn lower_bound(s: &Vec<(Node, DeltaLocation)>, x: &Node) -> (r: usize)
    requires
        strictly_sorted(s@),
    ensures
        r <= s@.len(),
        forall|k: int| 0 <= k < r ==> lex_lt(#[trigger] s@[k].0@, x@),
        forall|k: int| r <= k < s@.len() ==> !lex_lt(#[trigger] s@[k].0@, x@),
{
    let mut lo: usize = 0;
    let mut hi: usize = s.len();
    while lo < hi
        invariant
            lo <= hi <= s@.len(),
            strictly_sorted(s@),
            forall|k: int| 0 <= k < lo ==> lex_lt(#[trigger] s@[k].0@, x@),
            forall|k: int| hi <= k < s@.len() ==> !lex_lt(#[trigger] s@[k].0@, x@),
        decreases hi - lo,
    {
        let mid = lo + (hi - lo) / 2;
        match compare(&s[mid].0, x) {
            Ordering::Less => {
                proof {
                    assert forall|k: int| 0 <= k < mid + 1 implies lex_lt(#[trigger] s@[k].0@, x@) by {
                        if k < mid {
                            lemma_lex_transitive(s@[k].0@, s@[mid as int].0@, x@);
                        }
                    }
                }
                lo = mid + 1;
            },
            _ => {
                proof {
                    assert forall|k: int| mid <= k < s@.len() implies !lex_lt(#[trigger] s@[k].0@, x@) by {
                        if k > mid && lex_lt(s@[k].0@, x@) {
                            lemma_lex_transitive(s@[mid as int].0@, s@[k].0@, x@);
                        }
                    }
                }
                hi = mid;
            },
        }
    }
    lo
}

/// The position of the pair with node `x` among the strictly ascending pairs `s`.
fn find_node(s: &Vec<(Node, DeltaLocation)>, x: &Node) -> (r: Option<usize>)
    requires
        strictly_sorted(s@),
    ensures
        r == (match node_position(s@, x@) {
            Some(j) => Some(j as usize),
            None => None::<usize>,
        }),
        r matches Some(j) ==> j < s@.len(),
{
    let pos = lower_bound(s, x);
    if pos < s.len() && matches!(compare(&s[pos].0, x), Ordering::Equal) {
        proof {
            let j = choose|j: int| 0 <= j < s@.len() && s@[j].0@ == x@;
            if j != pos {
                if j < pos {
                    assert(lex_lt(s@[j].0@, s@[pos as int].0@));
                } else {
                    assert(lex_lt(s@[pos as int].0@, s@[j].0@));
                }
                lemma_lex_irreflexive(x@);
            }
        }
        Some(pos)
    } else {
        proof {
            assert forall|j: int| 0 <= j < s@.len() implies s@[j].0@ != x@ by {
                if j < pos {
                    lemma_lex_asymmetric(s@[j].0@, x@);
                } else {
                    lemma_lex_total(s@[pos as int].0@, x@);
                    if j > pos {
                        lemma_lex_transitive(x@, s@[pos as int].0@, s@[j].0@);
                        lemma_lex_asymmetric(x@, s@[j].0@);
                    }
                }
            }
        }
        None
    }
}

/// The pairs of `values` in ascending order of node; fails on a node given twice.
fn sort_values(values: &Vec<(Node, DeltaLocation)>) -> (r: Result<Vec<(Node, DeltaLocation)>, DataIndexError>)
    ensures
        match r {
            Ok(s) => nodes_distinct(values@) && sorted_arrangement(s@, values@),
            Err(e) => !nodes_distinct(values@) && (e matches DataIndexError::DuplicateNode(n) && exists|i: int|
                0 <= i < values@.len() && #[trigger] values@[i].0@ == n@),
        },
{
    let mut sorted: Vec<(Node, DeltaLocation)> = Vec::new();
    let mut i: usize = 0;
    assert(sorted@ =~= values@.subrange(0, 0));
    while i < values.len()
        invariant
            i <= values@.len(),
            strictly_sorted(sorted@),
            sorted@.to_multiset() == values@.subrange(0, i as int).to_multiset(),
            nodes_distinct(values@.subrange(0, i as int)),
        decreases values@.len() - i,
    {
        let x = values[i];
        let ghost prefix = values@.subrange(0, i as int);
        let pos = lower_bound(&sorted, &x.0);
        proof {
            assert(values@.subrange(0, i + 1) =~= prefix.push(x));
            to_multiset_build(prefix, x);
        }
        if pos < sorted.len() && matches!(compare(&sorted[pos].0, &x.0), Ordering::Equal) {
            proof {
                let y = sorted@[pos as int];
                to_multiset_contains(sorted@, y);
                to_multiset_contains(prefix, y);
                assert(sorted@.contains(y));
                let j = choose|j: int| 0 <= j < prefix.len() && prefix[j] == y;
                assert(values@[j].0@ == values@[i as int].0@);
            }
            return Err(DataIndexError::DuplicateNode(x.0));
        }
        proof {
            assert forall|j: int| 0 <= j < prefix.len() implies prefix[j].0@ != x.0@ by {
                let y = prefix[j];
                to_multiset_contains(prefix, y);
                to_multiset_contains(sorted@, y);
                assert(prefix.contains(y));
                let k = choose|k: int| 0 <= k < sorted@.len() && sorted@[k] == y;
                if k < pos {
                    lemma_lex_asymmetric(sorted@[k].0@, x.0@);
                } else {
                    lemma_lex_total(sorted@[pos as int].0@, x.0@);
                    if k > pos {
                        lemma_lex_transitive(x.0@, sorted@[pos as int].0@, sorted@[k].0@);
                        lemma_lex_asymmetric(x.0@, sorted@[k].0@);
                    }
                }
            }
            if pos < sorted@.len() {
                lemma_lex_total(sorted@[pos as int].0@, x.0@);
            }
        }
        let ghost old_sorted = sorted@;
        sorted.insert(pos, x);
        proof {
            to_multiset_insert(old_sorted, pos as int, x);
            old_sorted.insert_ensures(pos as int, x);
            assert forall|a: int, b: int| 0 <= a < b < sorted@.len() implies lex_lt(
                #[trigger] sorted@[a].0@,
                #[trigger] sorted@[b].0@,
            ) by {
                if b == pos {
                } else if a == pos {
                    if b > pos + 1 {
                        lemma_lex_transitive(x.0@, old_sorted[pos as int].0@, old_sorted[b - 1].0@);
                    }
                } else if a < pos && b > pos {
                    assert(lex_lt(old_sorted[a].0@, x.0@));
                    if b > pos + 1 {
                        lemma_lex_transitive(x.0@, old_sorted[pos as int].0@, old_sorted[b - 1].0@);
                    }
                    lemma_lex_transitive(old_sorted[a].0@, x.0@, old_sorted[b - 1].0@);
                } else if a > pos {
                    assert(lex_lt(old_sorted[a - 1].0@, old_sorted[b - 1].0@));
                } else {
                    assert(lex_lt(old_sorted[a].0@, old_sorted[b].0@));
                }
            }
            assert forall|a: int, b: int| 0 <= a < b < i + 1 implies #[trigger] values@.subrange(0, i + 1)[a].0@
                != #[trigger] values@.subrange(0, i + 1)[b].0@ by {
                if b < i {
                    assert(prefix[a].0@ != prefix[b].0@);
                } else {
                    assert(prefix[a].0@ != x.0@);
                }
            }
        }
        i = i + 1;
    }
    proof {
        assert(values@.subrange(0, values@.len() as int) =~= values@);
    }
    Ok(sorted)
}

/// Appends the fanout table of the strictly ascending pairs `sorted`.
fn write_fanout(out: &mut Vec<u8>, sorted: &Vec<(Node, DeltaLocation)>, large: bool)
    requires
        strictly_sorted(sorted@),
        sorted@.len() <= MAX_ENTRIES,
    ensures
        final(out)@ == old(out)@ + fanout_table(sorted@, large),
{
    let slots: usize = if large { LARGE_FANOUT_SLOTS } else { SMALL_FANOUT_SLOTS };
    let n = sorted.len();
    let mut j: usize = 0;
    let mut p: usize = 0;
    while p < slots
        invariant
            slots == fanout_slots(large),
            n == sorted@.len(),
            n <= MAX_ENTRIES,
            strictly_sorted(sorted@),
            p <= slots,
            j <= n,
            forall|i: int| 0 <= i < j ==> fanout_prefix(#[trigger] sorted@[i].0@, large) < p,
            out@ == old(out)@ + fanout_table(sorted@, large).subrange(0, 4 * p as int),
        decreases slots - p,
    {
        while j < n && fanout_index(&sorted[j].0, large) < p
            invariant
                n == sorted@.len(),
                j <= n,
                forall|i: int| 0 <= i < j ==> fanout_prefix(#[trigger] sorted@[i].0@, large) < p,
            decreases n - j,
        {
            j = j + 1;
        }
        proof {
            assert forall|i: int| j <= i < n implies fanout_prefix(#[trigger] sorted@[i].0@, large) >= p by {
                if i > j {
                    lemma_prefix_monotone(sorted@[j as int].0@, sorted@[i].0@, large);
                }
            }
            lemma_count_below_split(sorted@, p as int, large, j as int);
            lemma_fanout_chunk(sorted@, large, p as int);
        }
        push_u32_be(out, (ENTRY_LEN * j) as u32);
        proof {
            let t = fanout_table(sorted@, large);
            assert(t.subrange(0, 4 * p + 4) =~= t.subrange(0, 4 * p as int) + t.subrange(4 * p as int, 4 * p + 4));
        }
        p = p + 1;
    }
    proof {
        let t = fanout_table(sorted@, large);
        assert(t.subrange(0, 4 * slots as int) =~= t);
    }
}

/// Appends the entry table of the strictly ascending pairs `sorted`.
fn write_entries(out: &mut Vec<u8>, sorted: &Vec<(Node, DeltaLocation)>)
    requires
        strictly_sorted(sorted@),
        sorted@.len() <= MAX_ENTRIES,
    ensures
        final(out)@ == old(out)@ + entry_table(sorted@),
{
    let n = sorted.len();
    let mut i: usize = 0;
    while i < n
        invariant
            n == sorted@.len(),
            n <= MAX_ENTRIES,
            strictly_sorted(sorted@),
            i <= n,
            out@ == old(out)@ + entry_table(sorted@).subrange(0, 40 * i as int),
        decreases n - i,
    {
        let (node, location) = sorted[i];
        let delta_base_offset = match location.delta_base {
            None => DeltaBaseOffset::FullText,
            Some(base) => match find_node(sorted, &base) {
                Some(j) => DeltaBaseOffset::Offset((ENTRY_LEN * j) as u32),
                None => DeltaBaseOffset::Missing,
            },
        };
        let entry = IndexEntry::new(node, delta_base_offset, location.offset, location.size);
        proof {
            assert(entry@ == resolved_entry(sorted@, i as int));
            lemma_entry_chunk(sorted@, i as int);
        }
        entry.write(out);
        proof {
            let t = entry_table(sorted@);
            assert(t.subrange(0, 40 * i + 40) =~= t.subrange(0, 40 * i as int) + t.subrange(40 * i as int, 40 * i + 40));
        }
        i = i + 1;
    }
    proof {
        let t = entry_table(sorted@);
        assert(t.subrange(0, 40 * n as int) =~= t);
    }
}

impl DataIndex {
    /// Appends to `out` the index file of `values`: a version 1 header, the
    /// fanout table, the entry count and the records in ascending order of
    /// node. A node given twice is refused, and `out` is then left as it was.
    pub fn write(out: &mut Vec<u8>, values: &Vec<(Node, DeltaLocation)>) -> (r: Result<(), DataIndexError>)
        requires
            values@.len() <= MAX_ENTRIES,
        ensures
            r is Ok <==> nodes_distinct(values@),
            r is Ok ==> exists|s: Seq<(Node, DeltaLocation)>|
                #[trigger] sorted_arrangement(s, values@) && final(out)@ == old(out)@ + index_file(s),
            r matches Err(e) ==> final(out)@ == old(out)@ && (e matches DataIndexError::DuplicateNode(n)
                && exists|i: int| 0 <= i < values@.len() && #[trigger] values@[i].0@ == n@),
    {
        let sorted = match sort_values(values) {
            Ok(s) => s,
            Err(e) => {
                return Err(e);
            },
        };
        proof {
            to_multiset_len_eq(sorted@, values@);
        }
        let options = DataIndexOptions { version: 1, large: sorted.len() > SMALL_FANOUT_CUTOFF };
        let ghost start = out@;
        options.write(out);
        write_fanout(out, &sorted, options.large);
        push_u64_be(out, sorted.len() as u64);
        write_entries(out, &sorted);
        proof {
            reveal(index_file);
            assert(out@ =~= start + index_file(sorted@));
            assert(sorted_arrangement(sorted@, values@));
        }
        Ok(())
    }
}

proof fn to_multiset_len_eq(a: Seq<(Node, DeltaLocation)>, b: Seq<(Node, DeltaLocation)>)
    requires
        a.to_multiset() == b.to_multiset(),
    ensures
        a.len() == b.len(),
{
    a.to_multiset_ensures();
    b.to_multiset_ensures();
}

} // verus!
