//! What a written index file holds, and what reading it back gives.
use vstd::prelude::*;
use crate::codec::{lemma_u32_round_trip, u32_at, u32_bytes, u64_bytes};
use crate::dataindex::{
    bounds_valid, fanout_entry, fanout_prefix, fanout_slots, header_bytes, holds_at, index_start_of,
    lemma_header_round_trip, lower_of, open_index, range_count, range_sorted, range_start,
    rec_node, records_sorted, region_len, upper_of, DataIndexOptions, SMALL_FANOUT_CUTOFF,
};
use crate::entry::{
    decode_entry, delta_storable, entry_bytes, lemma_entry_round_trip, DeltaBaseOffset, DeltaLocation,
    EntryView,
};
use crate::error::DataIndexError;
use crate::node::{lemma_lex_irreflexive, lex_lt, Node};
use crate::writer::{
    count_below, entry_table, fanout_table, index_file, lemma_entry_chunk, lemma_fanout_chunk,
    lemma_prefix_monotone, node_position, nodes_distinct, options_for, resolved_entry, sorted_arrangement,
    strictly_sorted, MAX_ENTRIES,
};
use vstd::seq_lib::to_multiset_contains;

verus! {

/// Among strictly ascending pairs, those below `count_below(s, p)` fall in a
/// slot below `p`, the rest in `p` or above.
proof fn lemma_count_below_bounds(s: Seq<(Node, DeltaLocation)>, p: int, large: bool)
    requires
        strictly_sorted(s),
    ensures
        0 <= count_below(s, p, large) <= s.len(),
        forall|i: int| 0 <= i < count_below(s, p, large) ==> fanout_prefix(#[trigger] s[i].0@, large) < p,
        forall|i: int| count_below(s, p, large) <= i < s.len() ==> fanout_prefix(#[trigger] s[i].0@, large) >= p,
    decreases s.len(),
{
    if s.len() > 0 {
        let t = s.drop_last();
        assert forall|i: int, j: int| 0 <= i < j < t.len() implies lex_lt(#[trigger] t[i].0@, #[trigger] t[j].0@) by {
            assert(t[i] == s[i] && t[j] == s[j]);
        }
        lemma_count_below_bounds(t, p, large);
        let c = count_below(t, p, large);
        let last = s.len() - 1;
        if fanout_prefix(s[last].0@, large) < p && c < t.len() {
            lemma_prefix_monotone(s[c].0@, s[last].0@, large);
        }
        assert forall|i: int| 0 <= i < last implies #[trigger] s[i] == t[i] by {}
    }
}

/// Among strictly ascending pairs, fewer fall below a slot than below the next.
proof fn lemma_count_below_monotone(s: Seq<(Node, DeltaLocation)>, p: int, large: bool)
    requires
        strictly_sorted(s),
    ensures
        count_below(s, p, large) <= count_below(s, p + 1, large),
{
    lemma_count_below_bounds(s, p, large);
    lemma_count_below_bounds(s, p + 1, large);
    let a = count_below(s, p, large);
    let b = count_below(s, p + 1, large);
    if b < a {
        assert(fanout_prefix(s[b].0@, large) < p);
    }
}

proof fn lemma_count_below_all(s: Seq<(Node, DeltaLocation)>, large: bool)
    requires
        strictly_sorted(s),
    ensures
        count_below(s, fanout_slots(large), large) == s.len(),
{
    lemma_count_below_bounds(s, fanout_slots(large), large);
    let c = count_below(s, fanout_slots(large), large);
    if c < s.len() {
        assert(s[c].0@.len() == 20);
        assert(fanout_prefix(s[c].0@, large) < fanout_slots(large));
    }
}

proof fn lemma_file_parts(s: Seq<(Node, DeltaLocation)>)
    requires
        s.len() <= MAX_ENTRIES,
    ensures
        index_file(s).len() == index_start_of(options_for(s.len() as int)) + 40 * s.len(),
        index_file(s).subrange(0, 2) == header_bytes(options_for(s.len() as int)),
        index_file(s).subrange(2, 2 + 4 * fanout_slots(options_for(s.len() as int).large))
            == fanout_table(s, options_for(s.len() as int).large),
        index_file(s).subrange(index_start_of(options_for(s.len() as int)), index_file(s).len() as int)
            == entry_table(s),
{
    reveal(index_file);
    let n = s.len() as int;
    let o = options_for(n);
    let f = index_file(s);
    let hb = header_bytes(o);
    let ft = fanout_table(s, o.large);
    let cb = u64_bytes(n as u64);
    let et = entry_table(s);
    assert(f.subrange(0, 2) =~= hb);
    assert(f.subrange(2, 2 + 4 * fanout_slots(o.large)) =~= ft);
    assert(f.subrange(index_start_of(o), f.len() as int) =~= et);
}

proof fn lemma_file_header(s: Seq<(Node, DeltaLocation)>)
    requires
        s.len() <= MAX_ENTRIES,
    ensures
        open_index(index_file(s)) == Ok::<DataIndexOptions, DataIndexError>(options_for(s.len() as int)),
        region_len(index_file(s), options_for(s.len() as int)) == 40 * s.len(),
{
    lemma_file_parts(s);
    let n = s.len() as int;
    let o = options_for(n);
    let f = index_file(s);
    let start = index_start_of(o);
    lemma_header_round_trip(o, f.subrange(2, f.len() as int));
    assert(f =~= f.subrange(0, 2) + f.subrange(2, f.len() as int));
    assert((f.len() - start) % 40 == 0) by (nonlinear_arith)
        requires
            f.len() == start + 40 * n,
            n >= 0,
    ;
}

proof fn lemma_file_fanout(s: Seq<(Node, DeltaLocation)>, p: int)
    requires
        strictly_sorted(s),
        s.len() <= MAX_ENTRIES,
        0 <= p < fanout_slots(options_for(s.len() as int).large),
    ensures
        fanout_entry(index_file(s), p) == 40 * count_below(s, p, options_for(s.len() as int).large),
{
    lemma_file_parts(s);
    let large = options_for(s.len() as int).large;
    let f = index_file(s);
    let ft = fanout_table(s, large);
    lemma_fanout_chunk(s, large, p);
    lemma_count_below_bounds(s, p, large);
    let v = (40 * count_below(s, p, large)) as u32;
    let rest = f.subrange(2 + 4 * p + 4, f.len() as int);
    assert(f.subrange(2 + 4 * p, 2 + 4 * p + 4) =~= ft.subrange(4 * p, 4 * p + 4));
    assert(f.subrange(2 + 4 * p, f.len() as int) =~= u32_bytes(v) + rest);
    lemma_u32_round_trip(v, rest);
    assert(u32_at(f, 2 + 4 * p) == u32_at(f.subrange(2 + 4 * p, f.len() as int), 0));
}

/// Decoding reads only the record's own 40 bytes.
proof fn lemma_decode_local(f: Seq<u8>, pos: int)
    requires
        0 <= pos,
        pos + 40 <= f.len(),
    ensures
        decode_entry(f, pos) == decode_entry(f.subrange(pos, pos + 40), 0),
{
    let w = f.subrange(pos, pos + 40);
    assert(w.subrange(0, 20) =~= f.subrange(pos, pos + 20));
    assert(forall|i: int| 0 <= i < 40 ==> #[trigger] w[i] == f[pos + i]);
}

proof fn lemma_file_entry(s: Seq<(Node, DeltaLocation)>, k: int)
    requires
        s.len() <= MAX_ENTRIES,
        0 <= k < s.len(),
    ensures
        decode_entry(index_file(s), index_start_of(options_for(s.len() as int)) + 40 * k)
            == Ok::<EntryView, DataIndexError>(resolved_entry(s, k)),
        rec_node(index_file(s), index_start_of(options_for(s.len() as int)), k) == s[k].0@,
{
    lemma_file_parts(s);
    let f = index_file(s);
    let start = index_start_of(options_for(s.len() as int));
    let et = entry_table(s);
    lemma_entry_chunk(s, k);
    let pos = start + 40 * k;
    let e = resolved_entry(s, k);
    assert(f.subrange(pos, pos + 40) =~= et.subrange(40 * k, 40 * k + 40));
    let w = f.subrange(pos, pos + 40);
    assert(delta_storable(e.delta));
    lemma_entry_round_trip(e, Seq::empty(), Seq::empty());
    assert(Seq::<u8>::empty() + entry_bytes(e) + Seq::<u8>::empty() =~= w);
    lemma_decode_local(f, pos);
    assert(rec_node(f, start, k) =~= entry_bytes(e).subrange(0, 20));
    assert(entry_bytes(e).subrange(0, 20) =~= s[k].0@);
}

/// How a lookup of `x` sees the file written for strictly ascending pairs:
/// its fanout range is the run of pairs in `x`'s slot.
#[verifier::rlimit(60)]
proof fn lemma_lookup(s: Seq<(Node, DeltaLocation)>, x: Seq<u8>)
    requires
        strictly_sorted(s),
        s.len() <= MAX_ENTRIES,
        x.len() == 20,
    ensures
        ({
            let f = index_file(s);
            let o = options_for(s.len() as int);
            let p = fanout_prefix(x, o.large);
            let c = count_below(s, p, o.large);
            &&& open_index(f) == Ok::<DataIndexOptions, DataIndexError>(o)
            &&& bounds_valid(f, o, x)
            &&& range_sorted(f, o, x)
            &&& range_start(f, o, x) == index_start_of(o) + 40 * c
            &&& lower_of(f, o, x) == 40 * c
            &&& range_count(f, o, x) == count_below(s, p + 1, o.large) - c
            &&& upper_of(f, o, x) == lower_of(f, o, x) + 40 * range_count(f, o, x)
            &&& forall|k: int| 0 <= k < range_count(f, o, x) ==> c + k < s.len()
                && fanout_prefix(#[trigger] s[c + k].0@, o.large) == p
                && rec_node(f, range_start(f, o, x), k) == s[c + k].0@
                && decode_entry(f, range_start(f, o, x) + 40 * k) == Ok::<EntryView, DataIndexError>(resolved_entry(s, c + k))
            &&& forall|t: int| 0 <= t < s.len() && fanout_prefix(#[trigger] s[t].0@, o.large) == p ==> c <= t < c + range_count(f, o, x)
        }),
{
    let f = index_file(s);
    let n = s.len() as int;
    let o = options_for(n);
    let large = o.large;
    let p = fanout_prefix(x, large);
    let c = count_below(s, p, large);
    let d = count_below(s, p + 1, large);
    let start = index_start_of(o);
    lemma_file_header(s);
    lemma_count_below_bounds(s, p, large);
    lemma_count_below_bounds(s, p + 1, large);
    lemma_count_below_monotone(s, p, large);
    lemma_file_fanout(s, p);
    if p + 1 < fanout_slots(large) {
        lemma_file_fanout(s, p + 1);
    } else {
        lemma_count_below_all(s, large);
    }
    assert(upper_of(f, o, x) == 40 * d);
    assert(range_count(f, o, x) == d - c) by (nonlinear_arith)
        requires
            range_count(f, o, x) == (40 * d - 40 * c) / 40,
    ;
    assert forall|k: int| 0 <= k < d - c implies c + k < s.len()
        && fanout_prefix(#[trigger] s[c + k].0@, large) == p
        && rec_node(f, start + 40 * c, k) == s[c + k].0@
        && decode_entry(f, start + 40 * c + 40 * k) == Ok::<EntryView, DataIndexError>(resolved_entry(s, c + k)) by {
        lemma_file_entry(s, c + k);
        assert(rec_node(f, start + 40 * c, k) =~= rec_node(f, start, c + k));
        assert(start + 40 * c + 40 * k == start + 40 * (c + k));
    }
    assert forall|i: int, j: int| 0 <= i < j < d - c implies lex_lt(
        #[trigger] rec_node(f, start + 40 * c, i),
        #[trigger] rec_node(f, start + 40 * c, j),
    ) by {
        lemma_file_entry(s, c + i);
        lemma_file_entry(s, c + j);
        assert(rec_node(f, start + 40 * c, i) =~= rec_node(f, start, c + i));
        assert(rec_node(f, start + 40 * c, j) =~= rec_node(f, start, c + j));
        assert(lex_lt(s[c + i].0@, s[c + j].0@));
    }
}

proof fn lemma_arrangement_len(s: Seq<(Node, DeltaLocation)>, values: Seq<(Node, DeltaLocation)>)
    requires
        sorted_arrangement(s, values),
    ensures
        s.len() == values.len(),
{
    s.to_multiset_ensures();
    values.to_multiset_ensures();
}

/// The position in `s` of a pair of `values`.
proof fn lemma_arrangement_holds(s: Seq<(Node, DeltaLocation)>, values: Seq<(Node, DeltaLocation)>, i: int) -> (t: int)
    requires
        sorted_arrangement(s, values),
        0 <= i < values.len(),
    ensures
        0 <= t < s.len(),
        s[t] == values[i],
{
    to_multiset_contains(values, values[i]);
    to_multiset_contains(s, values[i]);
    assert(values[i] == values[i]);
    assert(values.contains(values[i]));
    choose|t: int| 0 <= t < s.len() && s[t] == values[i]
}

/// The position in `values` of a pair of `s`.
proof fn lemma_arrangement_from(s: Seq<(Node, DeltaLocation)>, values: Seq<(Node, DeltaLocation)>, t: int) -> (i: int)
    requires
        sorted_arrangement(s, values),
        0 <= t < s.len(),
    ensures
        0 <= i < values.len(),
        values[i] == s[t],
{
    to_multiset_contains(values, s[t]);
    to_multiset_contains(s, s[t]);
    assert(s.contains(s[t]));
    choose|i: int| 0 <= i < values.len() && values[i] == s[t]
}

/// Writing pairs with distinct nodes, then opening the file and looking up
/// any of their nodes, finds it: the file opens with the header the writer
/// chose, the fanout range of the node lies within the entry table and is
/// sorted, it holds the node, and every record of the range that holds the
/// node lies strictly inside the range and carries the node's pack offset and
/// size.
#[verifier::rlimit(60)]
pub proof fn lemma_round_trip(values: Seq<(Node, DeltaLocation)>, s: Seq<(Node, DeltaLocation)>, i: int)
    requires
        nodes_distinct(values),
        sorted_arrangement(s, values),
        values.len() <= MAX_ENTRIES,
        0 <= i < values.len(),
    ensures
        ({
            let f = index_file(s);
            let o = options_for(values.len() as int);
            let x = values[i].0@;
            &&& open_index(f) == Ok::<DataIndexOptions, DataIndexError>(o)
            &&& bounds_valid(f, o, x)
            &&& range_sorted(f, o, x)
            &&& exists|k: int| #[trigger] holds_at(f, o, x, k)
            &&& forall|k: int| #[trigger] holds_at(f, o, x, k) ==> {
                &&& lower_of(f, o, x) <= lower_of(f, o, x) + 40 * k
                &&& lower_of(f, o, x) + 40 * k + 40 <= upper_of(f, o, x)
                &&& decode_entry(f, range_start(f, o, x) + 40 * k) matches Ok(e)
                &&& e.node == x
                &&& e.offset == values[i].1.offset
                &&& e.size == values[i].1.size
            }
        }),
{
    lemma_arrangement_len(s, values);
    let t = lemma_arrangement_holds(s, values, i);
    let f = index_file(s);
    let o = options_for(values.len() as int);
    let x = values[i].0@;
    lemma_lookup(s, x);
    let c = count_below(s, fanout_prefix(x, o.large), o.large);
    assert(fanout_prefix(s[t].0@, o.large) == fanout_prefix(x, o.large));
    let k0 = t - c;
    assert(c + k0 == t);
    assert(fanout_prefix(s[c + k0].0@, o.large) == fanout_prefix(x, o.large));
    assert(holds_at(f, o, x, k0));
    let e = resolved_entry(s, t);
    assert(e.node == x && e.offset == values[i].1.offset && e.size == values[i].1.size);
    assert forall|k: int| #[trigger] holds_at(f, o, x, k) implies {
        &&& lower_of(f, o, x) <= lower_of(f, o, x) + 40 * k
        &&& lower_of(f, o, x) + 40 * k + 40 <= upper_of(f, o, x)
        &&& decode_entry(f, range_start(f, o, x) + 40 * k) == Ok::<EntryView, DataIndexError>(e)
    } by {
        if c + k != t {
            if c + k < t {
                assert(lex_lt(s[c + k].0@, s[t].0@));
            } else {
                assert(lex_lt(s[t].0@, s[c + k].0@));
            }
            lemma_lex_irreflexive(x);
        }
    }
}

/// How a found record refers to its delta base: full text where the pair
/// names none; where the base is among the pairs written, an offset whose
/// record, within the entry table, holds the base; otherwise missing.
pub proof fn lemma_delta_base_fidelity(values: Seq<(Node, DeltaLocation)>, s: Seq<(Node, DeltaLocation)>, i: int)
    requires
        nodes_distinct(values),
        sorted_arrangement(s, values),
        values.len() <= MAX_ENTRIES,
        0 <= i < values.len(),
    ensures
        ({
            let f = index_file(s);
            let o = options_for(values.len() as int);
            let x = values[i].0@;
            forall|k: int| #[trigger] holds_at(f, o, x, k) ==> {
                &&& decode_entry(f, range_start(f, o, x) + 40 * k) matches Ok(e)
                &&& match values[i].1.delta_base {
                    None => e.delta == DeltaBaseOffset::FullText,
                    Some(b) => if exists|j: int| 0 <= j < values.len() && #[trigger] values[j].0@ == b@ {
                        &&& e.delta matches DeltaBaseOffset::Offset(off)
                        &&& off + 40 <= region_len(f, o)
                        &&& decode_entry(f, index_start_of(o) + off) matches Ok(base)
                        &&& base.node == b@
                    } else {
                        e.delta == DeltaBaseOffset::Missing
                    },
                }
            }
        }),
{
    lemma_arrangement_len(s, values);
    lemma_round_trip(values, s, i);
    let t = lemma_arrangement_holds(s, values, i);
    let f = index_file(s);
    let o = options_for(values.len() as int);
    let x = values[i].0@;
    lemma_lookup(s, x);
    lemma_file_header(s);
    let c = count_below(s, fanout_prefix(x, o.large), o.large);
    assert forall|k: int| #[trigger] holds_at(f, o, x, k) implies decode_entry(f, range_start(f, o, x) + 40 * k)
        == Ok::<EntryView, DataIndexError>(resolved_entry(s, t)) by {
        if c + k != t {
            if c + k < t {
                assert(lex_lt(s[c + k].0@, s[t].0@));
            } else {
                assert(lex_lt(s[t].0@, s[c + k].0@));
            }
            lemma_lex_irreflexive(x);
        }
    }
    match values[i].1.delta_base {
        None => {},
        Some(b) => {
            if exists|j: int| 0 <= j < values.len() && #[trigger] values[j].0@ == b@ {
                let j = choose|j: int| 0 <= j < values.len() && #[trigger] values[j].0@ == b@;
                let u = lemma_arrangement_holds(s, values, j);
                assert(s[u].0@ == b@);
                let w = choose|w: int| 0 <= w < s.len() && s[w].0@ == b@;
                assert(node_position(s, b@) == Some(w));
                lemma_file_entry(s, w);
                assert(40 * w + 40 <= 40 * s.len());
            } else {
                if exists|w: int| 0 <= w < s.len() && s[w].0@ == b@ {
                    let w = choose|w: int| 0 <= w < s.len() && s[w].0@ == b@;
                    let j = lemma_arrangement_from(s, values, w);
                    assert(values[j].0@ == b@);
                }
            }
        },
    }
}

/// Looking up a node that none of the pairs written holds: the file opens,
/// the node's fanout range is sound and sorted, and no record in it holds the
/// node, so the lookup reports the node as not found.
pub proof fn lemma_missing_key(values: Seq<(Node, DeltaLocation)>, s: Seq<(Node, DeltaLocation)>, x: Seq<u8>)
    requires
        sorted_arrangement(s, values),
        values.len() <= MAX_ENTRIES,
        x.len() == 20,
        forall|i: int| 0 <= i < values.len() ==> #[trigger] values[i].0@ != x,
    ensures
        ({
            let f = index_file(s);
            let o = options_for(values.len() as int);
            &&& open_index(f) == Ok::<DataIndexOptions, DataIndexError>(o)
            &&& bounds_valid(f, o, x)
            &&& range_sorted(f, o, x)
            &&& forall|k: int| !#[trigger] holds_at(f, o, x, k)
        }),
{
    lemma_arrangement_len(s, values);
    let f = index_file(s);
    let o = options_for(values.len() as int);
    lemma_lookup(s, x);
    let c = count_below(s, fanout_prefix(x, o.large), o.large);
    assert forall|k: int| !#[trigger] holds_at(f, o, x, k) by {
        if holds_at(f, o, x, k) {
            assert(fanout_prefix(s[c + k].0@, o.large) == fanout_prefix(x, o.large));
            let j = lemma_arrangement_from(s, values, c + k);
            assert(values[j].0@ == x);
        }
    }
}

/// The records of a written file ascend strictly by node, and fill the entry
/// table.
pub proof fn lemma_entries_sorted(values: Seq<(Node, DeltaLocation)>, s: Seq<(Node, DeltaLocation)>)
    requires
        sorted_arrangement(s, values),
        values.len() <= MAX_ENTRIES,
    ensures
        ({
            let f = index_file(s);
            let o = options_for(values.len() as int);
            &&& open_index(f) == Ok::<DataIndexOptions, DataIndexError>(o)
            &&& region_len(f, o) == 40 * values.len()
            &&& records_sorted(f, index_start_of(o), values.len() as int)
        }),
{
    lemma_arrangement_len(s, values);
    lemma_file_header(s);
    let f = index_file(s);
    let o = options_for(values.len() as int);
    assert forall|i: int, j: int| 0 <= i < j < values.len() implies lex_lt(
        #[trigger] rec_node(f, index_start_of(o), i),
        #[trigger] rec_node(f, index_start_of(o), j),
    ) by {
        lemma_file_entry(s, i);
        lemma_file_entry(s, j);
    }
}

/// A written file uses the two-byte fanout exactly when it holds more than
/// 8192 entries.
pub proof fn lemma_fanout_threshold(values: Seq<(Node, DeltaLocation)>, s: Seq<(Node, DeltaLocation)>)
    requires
        sorted_arrangement(s, values),
        values.len() <= MAX_ENTRIES,
    ensures
        ({
            let f = index_file(s);
            &&& open_index(f) == Ok::<DataIndexOptions, DataIndexError>(options_for(values.len() as int))
            &&& options_for(values.len() as int).large == (values.len() > SMALL_FANOUT_CUTOFF)
            &&& f[1] == if values.len() > SMALL_FANOUT_CUTOFF {
                0x80u8
            } else {
                0u8
            }
        }),
{
    lemma_arrangement_len(s, values);
    lemma_file_header(s);
    lemma_file_parts(s);
    assert(index_file(s)[1] == index_file(s).subrange(0, 2)[1]);
}

} // verus!
