//! Fixed-width content identifiers and their byte-wise order.
use vstd::prelude::*;
use std::cmp::Ordering;

verus! {

/// Width of a node in bytes.
pub const NODE_LEN: usize = 20;

/// A 20-byte content identifier, ordered lexicographically by its bytes.
#[derive(Clone, Copy, Debug, Hash)]
pub struct Node {
    pub bytes: [u8; 20],
}

impl View for Node {
    type V = Seq<u8>;

    open spec fn view(&self) -> Seq<u8> {
        self.bytes@
    }
}

impl PartialEq for Node {
    fn eq(&self, o: &Node) -> (r: bool) {
        matches!(compare(self, o), Ordering::Equal)
    }
}

impl vstd::std_specs::cmp::PartialEqSpecImpl for Node {
    open spec fn obeys_eq_spec() -> bool {
        true
    }

    open spec fn eq_spec(&self, o: &Node) -> bool {
        self@ == o@
    }
}

impl Eq for Node {
}

/// Lexicographic order over unsigned bytes; a proper prefix comes first.
pub open spec fn lex_lt(a: Seq<u8>, b: Seq<u8>) -> bool
    decreases a.len(),
{
    if a.len() == 0 || b.len() == 0 {
        a.len() < b.len()
    } else if a[0] != b[0] {
        a[0] < b[0]
    } else {
        lex_lt(a.drop_first(), b.drop_first())
    }
}

/// Two sequences that agree before `i` and differ at `i` are ordered by that byte.
pub proof fn lemma_lex_first_difference(a: Seq<u8>, b: Seq<u8>, i: int)
    requires
        0 <= i < a.len(),
        a.len() == b.len(),
        forall|j: int| 0 <= j < i ==> a[j] == b[j],
        a[i] != b[i],
    ensures
        lex_lt(a, b) == (a[i] < b[i]),
    decreases i,
{
    if i > 0 {
        lemma_lex_first_difference(a.drop_first(), b.drop_first(), i - 1);
    }
}

pub proof fn lemma_lex_irreflexive(a: Seq<u8>)
    ensures
        !lex_lt(a, a),
    decreases a.len(),
{
    if a.len() > 0 {
        lemma_lex_irreflexive(a.drop_first());
    }
}

pub proof fn lemma_lex_asymmetric(a: Seq<u8>, b: Seq<u8>)
    requires
        lex_lt(a, b),
    ensures
        !lex_lt(b, a),
        a != b,
    decreases a.len(),
{
    if a.len() > 0 && b.len() > 0 && a[0] == b[0] {
        lemma_lex_asymmetric(a.drop_first(), b.drop_first());
    }
    if a == b {
        lemma_lex_irreflexive(a);
    }
}

pub proof fn lemma_lex_transitive(a: Seq<u8>, b: Seq<u8>, c: Seq<u8>)
    requires
        lex_lt(a, b),
        lex_lt(b, c),
    ensures
        lex_lt(a, c),
    decreases a.len(),
{
    if a.len() > 0 && b.len() > 0 && c.len() > 0 && a[0] == b[0] && b[0] == c[0] {
        lemma_lex_transitive(a.drop_first(), b.drop_first(), c.drop_first());
    }
}

/// Distinct sequences of one length are ordered one way or the other.
pub proof fn lemma_lex_total(a: Seq<u8>, b: Seq<u8>)
    requires
        a.len() == b.len(),
        a != b,
    ensures
        lex_lt(a, b) || lex_lt(b, a),
    decreases a.len(),
{
    if a.len() > 0 && a[0] == b[0] {
        if a.drop_first() == b.drop_first() {
            assert(a =~= seq![a[0]] + a.drop_first());
            assert(b =~= seq![b[0]] + b.drop_first());
        }
        lemma_lex_total(a.drop_first(), b.drop_first());
    }
    if a.len() == 0 {
        assert(a =~= b);
    }
}

/// Compares two nodes byte by byte.
pub fn compare(a: &Node, b: &Node) -> (r: Ordering)
    ensures
        (r == Ordering::Less) == lex_lt(a@, b@),
        (r == Ordering::Equal) == (a@ == b@),
        (r == Ordering::Greater) == lex_lt(b@, a@),
{
    let mut i: usize = 0;
    while i < NODE_LEN
        invariant
            i <= NODE_LEN,
            a@.len() == NODE_LEN,
            b@.len() == NODE_LEN,
            forall|j: int| 0 <= j < i ==> a@[j] == b@[j],
        decreases NODE_LEN - i,
    {
        let x = a.bytes[i];
        let y = b.bytes[i];
        if x != y {
            proof {
                lemma_lex_first_difference(a@, b@, i as int);
                lemma_lex_first_difference(b@, a@, i as int);
            }
            if x < y {
                return Ordering::Less;
            } else {
                return Ordering::Greater;
            }
        }
        i = i + 1;
    }
    proof {
        assert(a@ =~= b@);
        lemma_lex_irreflexive(a@);
    }
    Ordering::Equal
}

impl Node {
    /// A node holding the given bytes.
    pub fn new(bytes: [u8; 20]) -> (r: Node)
        ensures
            r@ == bytes@,
    {
        Node { bytes }
    }

    /// A node holding `s`, or `None` where `s` is not 20 bytes long.
    pub fn from_slice(s: &[u8]) -> (r: Option<Node>)
        ensures
            r is Some <==> s@.len() == NODE_LEN,
            r matches Some(n) ==> n@ == s@,
    {
        if s.len() != NODE_LEN {
            return None;
        }
        let mut bytes: [u8; 20] = [0u8; 20];
        let mut i: usize = 0;
        while i < NODE_LEN
            invariant
                i <= NODE_LEN,
                s@.len() == NODE_LEN,
                bytes@.len() == NODE_LEN,
                forall|j: int| 0 <= j < i ==> bytes@[j] == s@[j],
            decreases NODE_LEN - i,
        {
            bytes[i] = s[i];
            i = i + 1;
        }
        proof {
            assert(bytes@ =~= s@);
        }
        Some(Node { bytes })
    }

    /// The node's bytes.
    pub fn as_bytes(&self) -> (r: &[u8])
        ensures
            r@ == self@,
    {
        self.bytes.as_slice()
    }

    /// The `i`-th byte.
    pub fn byte(&self, i: usize) -> (r: u8)
        requires
            i < NODE_LEN,
        ensures
            r == self@[i as int],
    {
        self.bytes[i]
    }
}

/// Compares the 20 bytes at `s[pos..pos + 20]` with `b`.
pub fn compare_at(s: &[u8], pos: usize, b: &Node) -> (r: Ordering)
    requires
        pos + NODE_LEN <= s@.len(),
    ensures
        (r == Ordering::Less) == lex_lt(s@.subrange(pos as int, pos + NODE_LEN), b@),
        (r == Ordering::Equal) == (s@.subrange(pos as int, pos + NODE_LEN) == b@),
        (r == Ordering::Greater) == lex_lt(b@, s@.subrange(pos as int, pos + NODE_LEN)),
{
    let ghost a = s@.subrange(pos as int, pos + NODE_LEN);
    let _n = s.len();
    let mut i: usize = 0;
    while i < NODE_LEN
        invariant
            i <= NODE_LEN,
            pos + NODE_LEN <= s@.len(),
            _n == s@.len(),
            a == s@.subrange(pos as int, pos + NODE_LEN),
            b@.len() == NODE_LEN,
            forall|j: int| 0 <= j < i ==> a[j] == b@[j],
        decreases NODE_LEN - i,
    {
        let x = s[pos + i];
        let y = b.bytes[i];
        if x != y {
            proof {
                lemma_lex_first_difference(a, b@, i as int);
                lemma_lex_first_difference(b@, a, i as int);
            }
            if x < y {
                return Ordering::Less;
            } else {
                return Ordering::Greater;
            }
        }
        i = i + 1;
    }
    proof {
        assert(a =~= b@);
        lemma_lex_irreflexive(a);
    }
    Ordering::Equal
}

} // verus!
