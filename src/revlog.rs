//! Parents of revisions in a packed revision log, with an in-memory tail of
//! revisions not yet on disk, and phase propagation over them.
use vstd::prelude::*;
use crate::codec::{i32_at, read_i32_be};

verus! {

/// Width of an on-disk revision record.
pub const REVLOG_ENTRY_LEN: usize = 64;

/// Offset of the first parent field within a record.
pub const P1_OFFSET: usize = 24;

/// Offset of the second parent field within a record.
pub const P2_OFFSET: usize = 28;

/// Phase of a revision while phases are propagated; ordered
/// `Unspecified < Draft < Public`.
#[derive(Clone, Copy, Debug, PartialEq, Eq, Structural)]
pub enum Phase {
    Unspecified,
    Draft,
    Public,
}

pub open spec fn phase_rank(p: Phase) -> int {
    match p {
        Phase::Unspecified => 0,
        Phase::Draft => 1,
        Phase::Public => 2,
    }
}

/// The greater of two phases.
pub open spec fn phase_max(a: Phase, b: Phase) -> Phase {
    if phase_rank(a) >= phase_rank(b) {
        a
    } else {
        b
    }
}

impl Phase {
    /// The greater of `self` and `other`.
    pub fn max(self, other: Phase) -> (r: Phase)
        ensures
            r == phase_max(self, other),
    {
        let a: u8 = match self {
            Phase::Unspecified => 0,
            Phase::Draft => 1,
            Phase::Public => 2,
        };
        let b: u8 = match other {
            Phase::Unspecified => 0,
            Phase::Draft => 1,
            Phase::Public => 2,
        };
        if a >= b {
            self
        } else {
            other
        }
    }
}

/// Number of whole records in `data`.
pub open spec fn record_count(data: Seq<u8>) -> int {
    data.len() as int / 64
}

/// The stored first parent of record `rev`.
pub open spec fn stored_p1(data: Seq<u8>, rev: int) -> int {
    i32_at(data, 64 * rev + 24)
}

/// The stored second parent of record `rev`.
pub open spec fn stored_p2(data: Seq<u8>, rev: int) -> int {
    i32_at(data, 64 * rev + 28)
}

/// Record `rev` names no second parent without a first, and names only
/// earlier revisions.
pub open spec fn record_valid(data: Seq<u8>, rev: int) -> bool {
    let p1 = stored_p1(data, rev);
    let p2 = stored_p2(data, rev);
    &&& (p1 == -1 ==> p2 == -1)
    &&& (p1 != -1 ==> 0 <= p1 < rev)
    &&& (p2 != -1 ==> 0 <= p2 < rev)
}

/// The parents that record `rev` stores, `-1` meaning none.
pub open spec fn disk_parents(data: Seq<u8>, rev: int) -> Seq<u32> {
    let p1 = stored_p1(data, rev);
    let p2 = stored_p2(data, rev);
    if p1 == -1 {
        seq![]
    } else if p2 == -1 {
        seq![p1 as u32]
    } else {
        seq![p1 as u32, p2 as u32]
    }
}

proof fn lemma_push_contains(s: Seq<u32>, x: u32, y: u32)
    ensures
        s.push(x).contains(y) == (s.contains(y) || x == y),
{
    if s.contains(y) {
        let k = choose|k: int| 0 <= k < s.len() && s[k] == y;
        assert(s.push(x)[k] == y);
    }
    if x == y {
        assert(s.push(x)[s.len() as int] == y);
    }
    if s.push(x).contains(y) {
        let k = choose|k: int| 0 <= k < s.len() + 1 && s.push(x)[k] == y;
        if k < s.len() {
            assert(s[k] == y);
        }
    }
}

/// Revision parents read from packed on-disk records, followed by revisions
/// inserted since.
pub struct RevlogIndex {
    data: Vec<u8>,
    inserted: Vec<Vec<u32>>,
}

impl RevlogIndex {
    /// The on-disk bytes.
    pub closed spec fn disk(&self) -> Seq<u8> {
        self.data@
    }

    /// The parent lists of the inserted revisions, in order.
    pub closed spec fn tail(&self) -> Seq<Seq<u32>> {
        self.inserted@.map_values(|v: Vec<u32>| v@)
    }

    pub open spec fn disk_count(&self) -> int {
        record_count(self.disk())
    }

    pub open spec fn len_spec(&self) -> int {
        self.disk_count() + self.tail().len()
    }

    /// The parents of revision `rev`.
    pub open spec fn parents_of(&self, rev: int) -> Seq<u32> {
        if rev < self.disk_count() {
            disk_parents(self.disk(), rev)
        } else {
            self.tail()[rev - self.disk_count()]
        }
    }

    /// Every revision's parents are earlier revisions, and every on-disk record is valid.
    pub open spec fn dag_valid(&self) -> bool {
        &&& forall|r: int| 0 <= r < self.disk_count() ==> #[trigger] record_valid(self.disk(), r)
        &&& forall|r: int, i: int|
            0 <= r < self.len_spec() && 0 <= i < self.parents_of(r).len() ==> #[trigger] self.parents_of(r)[i] < r
    }

    /// Wraps the bytes of a revision log index.
    pub fn new(data: Vec<u8>) -> (r: RevlogIndex)
        ensures
            r.disk() == data@,
            r.tail() == Seq::<Seq<u32>>::empty(),
    {
        let r = RevlogIndex { data, inserted: Vec::new() };
        assert(r.tail() =~= Seq::<Seq<u32>>::empty());
        r
    }

    /// Revisions in total.
    pub fn len(&self) -> (r: usize)
        requires
            self.len_spec() <= usize::MAX,
        ensures
            r == self.len_spec(),
    {
        self.data_len() + self.inserted.len()
    }

    /// Revisions stored on disk.
    pub fn data_len(&self) -> (r: usize)
        ensures
            r == self.disk_count(),
    {
        self.data.len() / REVLOG_ENTRY_LEN
    }

    /// The parents of revision `rev`: the inserted list for a revision of
    /// the tail, otherwise those its record stores.
    pub fn parents(&self, rev: u32) -> (r: Vec<u32>)
        requires
            rev < self.len_spec(),
            rev < self.disk_count() ==> record_valid(self.disk(), rev as int),
        ensures
            r@ == self.parents_of(rev as int),
            rev < self.disk_count() ==> forall|i: int| 0 <= i < r@.len() ==> r@[i] < rev,
    {
        let data_len = self.data_len();
        if rev as usize >= data_len {
            let r = self.inserted[rev as usize - data_len].clone();
            assert(r@ == self.tail()[rev - data_len]);
            return r;
        }
        let n = self.data.len();
        assert(rev * 64 + 64 <= n) by (nonlinear_arith)
            requires
                rev < n / 64,
        ;
        let base = rev as usize * REVLOG_ENTRY_LEN;
        let p1 = read_i32_be(self.data.as_slice(), base + P1_OFFSET);
        let p2 = read_i32_be(self.data.as_slice(), base + P2_OFFSET);
        if p1 == -1 {
            Vec::new()
        } else if p2 == -1 {
            let mut v = Vec::new();
            v.push(p1 as u32);
            v
        } else {
            let mut v = Vec::new();
            v.push(p1 as u32);
            v.push(p2 as u32);
            v
        }
    }

    /// The phase a revision starts with: `Public` for a public head, else
    /// `Draft` for a draft head.
    pub open spec fn initial_phase(public_heads: Seq<u32>, draft_heads: Seq<u32>, r: int) -> Phase {
        if public_heads.contains(r as u32) {
            Phase::Public
        } else if draft_heads.contains(r as u32) {
            Phase::Draft
        } else {
            Phase::Unspecified
        }
    }

    /// The phase of revision `r` once phases are propagated: the greatest of
    /// its own initial phase and those of the revisions it is a parent of.
    pub open spec fn phase_of(&self, public_heads: Seq<u32>, draft_heads: Seq<u32>, r: int) -> Phase
        decreases self.len_spec() - r, self.len_spec() - r,
    {
        if r < 0 || r >= self.len_spec() {
            Phase::Unspecified
        } else {
            phase_max(
                Self::initial_phase(public_heads, draft_heads, r),
                self.child_phase(public_heads, draft_heads, r, r + 1),
            )
        }
    }

    /// The greatest propagated phase among revisions `c..len` that have `r`
    /// as a parent.
    pub open spec fn child_phase(&self, public_heads: Seq<u32>, draft_heads: Seq<u32>, r: int, c: int) -> Phase
        decreases self.len_spec() - r, self.len_spec() - c,
    {
        if r < 0 || c <= r || c >= self.len_spec() {
            Phase::Unspecified
        } else {
            phase_max(
                if self.parents_of(c).contains(r as u32) {
                    self.phase_of(public_heads, draft_heads, c)
                } else {
                    Phase::Unspecified
                },
                self.child_phase(public_heads, draft_heads, r, c + 1),
            )
        }
    }

    /// The revisions `k..len` whose propagated phase is `phase`, highest first.
    pub open spec fn revs_in_phase(&self, public_heads: Seq<u32>, draft_heads: Seq<u32>, phase: Phase, k: int) -> Seq<u32>
        decreases self.len_spec() - k,
    {
        if k < 0 || k >= self.len_spec() {
            seq![]
        } else {
            self.revs_in_phase(public_heads, draft_heads, phase, k + 1) + if self.phase_of(
                public_heads,
                draft_heads,
                k,
            ) == phase {
                seq![k as u32]
            } else {
                seq![]
            }
        }
    }

    /// Partitions the revisions into public and draft: each head starts with
    /// its phase, public winning over draft, and a walk from the highest
    /// revision down hands each revision's phase on to its parents where it
    /// is greater. Returns the public and the draft revisions, highest first.
    pub fn phase_sets(&self, public_heads: &Vec<u32>, draft_heads: &Vec<u32>) -> (r: (Vec<u32>, Vec<u32>))
        requires
            self.dag_valid(),
            self.len_spec() <= u32::MAX,
            forall|i: int| 0 <= i < public_heads@.len() ==> #[trigger] public_heads@[i] < self.len_spec(),
            forall|i: int| 0 <= i < draft_heads@.len() ==> #[trigger] draft_heads@[i] < self.len_spec(),
        ensures
            r.0@ == self.revs_in_phase(public_heads@, draft_heads@, Phase::Public, 0),
            r.1@ == self.revs_in_phase(public_heads@, draft_heads@, Phase::Draft, 0),
    {
        let ghost ph = public_heads@;
        let ghost dh = draft_heads@;
        let n = self.len();
        let mut phases: Vec<Phase> = Vec::new();
        while phases.len() < n
            invariant
                phases@.len() <= n,
                forall|r: int| 0 <= r < phases@.len() ==> #[trigger] phases@[r] == Phase::Unspecified,
            decreases n - phases@.len(),
        {
            phases.push(Phase::Unspecified);
        }
        let mut i: usize = 0;
        while i < draft_heads.len()
            invariant
                n == self.len_spec(),
                n <= u32::MAX,
                phases@.len() == n,
                i <= dh.len(),
                dh == draft_heads@,
                forall|k: int| 0 <= k < dh.len() ==> #[trigger] dh[k] < n,
                forall|r: int| 0 <= r < n ==> #[trigger] phases@[r] == if dh.subrange(0, i as int).contains(r as u32) {
                    Phase::Draft
                } else {
                    Phase::Unspecified
                },
            decreases dh.len() - i,
        {
            let rev = draft_heads[i];
            assert(dh[i as int] < n);
            phases.set(rev as usize, Phase::Draft);
            proof {
                assert(dh.subrange(0, i + 1) =~= dh.subrange(0, i as int).push(rev));
                assert forall|r: int| 0 <= r < n implies dh.subrange(0, i + 1).contains(#[trigger] (r as u32))
                    == (dh.subrange(0, i as int).contains(r as u32) || r == rev) by {
                    lemma_push_contains(dh.subrange(0, i as int), rev, r as u32);
                }
            }
            i = i + 1;
        }
        proof {
            assert(dh.subrange(0, dh.len() as int) =~= dh);
        }
        let mut i: usize = 0;
        while i < public_heads.len()
            invariant
                n == self.len_spec(),
                n <= u32::MAX,
                phases@.len() == n,
                i <= ph.len(),
                ph == public_heads@,
                dh == draft_heads@,
                forall|k: int| 0 <= k < ph.len() ==> #[trigger] ph[k] < n,
                forall|r: int| 0 <= r < n ==> #[trigger] phases@[r] == if ph.subrange(0, i as int).contains(r as u32) {
                    Phase::Public
                } else if dh.contains(r as u32) {
                    Phase::Draft
                } else {
                    Phase::Unspecified
                },
            decreases ph.len() - i,
        {
            let rev = public_heads[i];
            assert(ph[i as int] < n);
            phases.set(rev as usize, Phase::Public);
            proof {
                assert(ph.subrange(0, i + 1) =~= ph.subrange(0, i as int).push(rev));
                assert forall|r: int| 0 <= r < n implies ph.subrange(0, i + 1).contains(#[trigger] (r as u32))
                    == (ph.subrange(0, i as int).contains(r as u32) || r == rev) by {
                    lemma_push_contains(ph.subrange(0, i as int), rev, r as u32);
                }
            }
            i = i + 1;
        }
        proof {
            assert(ph.subrange(0, ph.len() as int) =~= ph);
            assert(dh.subrange(0, dh.len() as int) =~= dh);
        }
        let mut public_set: Vec<u32> = Vec::new();
        let mut draft_set: Vec<u32> = Vec::new();
        let mut k: usize = n;
        while k > 0
            invariant
                n == self.len_spec(),
                n <= u32::MAX,
                k <= n,
                phases@.len() == n,
                self.dag_valid(),
                forall|r: int| 0 <= r < k ==> #[trigger] phases@[r] == phase_max(
                    Self::initial_phase(ph, dh, r),
                    self.child_phase(ph, dh, r, k as int),
                ),
                public_set@ == self.revs_in_phase(ph, dh, Phase::Public, k as int),
                draft_set@ == self.revs_in_phase(ph, dh, Phase::Draft, k as int),
            decreases k,
        {
            let q = k - 1;
            let phase = phases[q];
            assert(phase == self.phase_of(ph, dh, q as int));
            match phase {
                Phase::Public => public_set.push(q as u32),
                Phase::Draft => draft_set.push(q as u32),
                Phase::Unspecified => {},
            }
            proof {
                assert(public_set@ =~= self.revs_in_phase(ph, dh, Phase::Public, q as int));
                assert(draft_set@ =~= self.revs_in_phase(ph, dh, Phase::Draft, q as int));
            }
            let parents = self.parents(q as u32);
            let mut j: usize = 0;
            while j < parents.len()
                invariant
                    n == self.len_spec(),
                    n <= u32::MAX,
                    q < n,
                    phases@.len() == n,
                    parents@ == self.parents_of(q as int),
                    self.dag_valid(),
                    phase == self.phase_of(ph, dh, q as int),
                    j <= parents@.len(),
                    forall|r: int| 0 <= r < q ==> #[trigger] phases@[r] == phase_max(
                        phase_max(Self::initial_phase(ph, dh, r), self.child_phase(ph, dh, r, q + 1)),
                        if parents@.subrange(0, j as int).contains(r as u32) {
                            phase
                        } else {
                            Phase::Unspecified
                        },
                    ),
                decreases parents@.len() - j,
            {
                let p = parents[j];
                assert(self.parents_of(q as int)[j as int] < q);
                let merged = phases[p as usize].max(phase);
                phases.set(p as usize, merged);
                proof {
                    assert(parents@.subrange(0, j + 1) =~= parents@.subrange(0, j as int).push(p));
                    assert forall|r: int| 0 <= r < q implies parents@.subrange(0, j + 1).contains(
                        #[trigger] (r as u32),
                    ) == (parents@.subrange(0, j as int).contains(r as u32) || r == p) by {
                        lemma_push_contains(parents@.subrange(0, j as int), p, r as u32);
                    }
                }
                j = j + 1;
            }
            proof {
                assert(parents@.subrange(0, parents@.len() as int) =~= parents@);
                assert forall|r: int| 0 <= r < q implies #[trigger] phases@[r] == phase_max(
                    Self::initial_phase(ph, dh, r),
                    self.child_phase(ph, dh, r, q as int),
                ) by {
                    assert(self.child_phase(ph, dh, r, q as int) == phase_max(
                        if self.parents_of(q as int).contains(r as u32) {
                            self.phase_of(ph, dh, q as int)
                        } else {
                            Phase::Unspecified
                        },
                        self.child_phase(ph, dh, r, q + 1),
                    ));
                }
            }
            k = q;
        }
        (public_set, draft_set)
    }

    /// Appends a revision with the given parents to the tail.
    pub fn insert(&mut self, parents: Vec<u32>)
        requires
            old(self).len_spec() < usize::MAX,
        ensures
            final(self).disk() == old(self).disk(),
            final(self).tail() == old(self).tail().push(parents@),
            final(self).len_spec() == old(self).len_spec() + 1,
    {
        self.inserted.push(parents);
        assert(self.tail() =~= old(self).tail().push(parents@));
    }
}

impl RevlogIndex {
    proof fn lemma_child_phase_covers(&self, ph: Seq<u32>, dh: Seq<u32>, r: int, c0: int, c: int)
        requires
            0 <= r < c0 <= c < self.len_spec(),
            self.parents_of(c).contains(r as u32),
        ensures
            phase_rank(self.child_phase(ph, dh, r, c0)) >= phase_rank(self.phase_of(ph, dh, c)),
        decreases c - c0,
    {
        if c0 < c {
            self.lemma_child_phase_covers(ph, dh, r, c0 + 1, c);
        }
    }

    /// Propagated phases only grow towards the roots: a parent's phase is at
    /// least that of its child.
    pub proof fn lemma_phase_monotone(&self, public_heads: Seq<u32>, draft_heads: Seq<u32>, r: int, c: int)
        requires
            0 <= r < c < self.len_spec(),
            self.parents_of(c).contains(r as u32),
        ensures
            phase_rank(self.phase_of(public_heads, draft_heads, r)) >= phase_rank(
                self.phase_of(public_heads, draft_heads, c),
            ),
    {
        self.lemma_child_phase_covers(public_heads, draft_heads, r, r + 1, c);
    }

    proof fn lemma_revs_in_phase_members(&self, ph: Seq<u32>, dh: Seq<u32>, phase: Phase, k: int)
        requires
            0 <= k,
            self.len_spec() <= u32::MAX + 1,
        ensures
            forall|x: u32| #[trigger] self.revs_in_phase(ph, dh, phase, k).contains(x) <==> (k <= x
                < self.len_spec() && self.phase_of(ph, dh, x as int) == phase),
        decreases self.len_spec() - k,
    {
        if k < self.len_spec() {
            self.lemma_revs_in_phase_members(ph, dh, phase, k + 1);
            let rest = self.revs_in_phase(ph, dh, phase, k + 1);
            if self.phase_of(ph, dh, k) == phase {
                assert(self.revs_in_phase(ph, dh, phase, k) =~= rest.push(k as u32));
                assert forall|x: u32| #[trigger] self.revs_in_phase(ph, dh, phase, k).contains(x) <==> (k <= x
                    < self.len_spec() && self.phase_of(ph, dh, x as int) == phase) by {
                    lemma_push_contains(rest, k as u32, x);
                }
            } else {
                assert(self.revs_in_phase(ph, dh, phase, k) =~= rest);
            }
        } else {
            assert forall|x: u32| !(#[trigger] self.revs_in_phase(ph, dh, phase, k).contains(x)) by {}
        }
    }

    /// What the two lists of `phase_sets` hold: a revision is listed public
    /// exactly when its propagated phase is public, and draft exactly when it
    /// is draft; so no revision is in both, a revision no head reaches is in
    /// neither, every public head is public, every draft head is public or
    /// draft, and a parent of a listed public revision is public and a parent
    /// of a listed draft revision is listed too.
    pub proof fn lemma_phase_sets(&self, public_heads: Seq<u32>, draft_heads: Seq<u32>)
        requires
            self.len_spec() <= u32::MAX,
        ensures
            ({
                let public_set = self.revs_in_phase(public_heads, draft_heads, Phase::Public, 0);
                let draft_set = self.revs_in_phase(public_heads, draft_heads, Phase::Draft, 0);
                &&& forall|x: u32| #[trigger] public_set.contains(x) <==> (x < self.len_spec()
                    && self.phase_of(public_heads, draft_heads, x as int) == Phase::Public)
                &&& forall|x: u32| #[trigger] draft_set.contains(x) <==> (x < self.len_spec()
                    && self.phase_of(public_heads, draft_heads, x as int) == Phase::Draft)
                &&& forall|x: u32| !(#[trigger] public_set.contains(x) && draft_set.contains(x))
                &&& forall|x: u32| x < self.len_spec() && #[trigger] public_heads.contains(x) ==> public_set.contains(x)
                &&& forall|x: u32| x < self.len_spec() && #[trigger] draft_heads.contains(x) ==> public_set.contains(x)
                    || draft_set.contains(x)
                &&& forall|c: u32, r: u32|
                    #[trigger] public_set.contains(c) && r < c && #[trigger] self.parents_of(c as int).contains(r)
                        ==> public_set.contains(r)
                &&& forall|c: u32, r: u32|
                    #[trigger] draft_set.contains(c) && r < c && #[trigger] self.parents_of(c as int).contains(r)
                        ==> public_set.contains(r) || draft_set.contains(r)
            }),
    {
        let ph = public_heads;
        let dh = draft_heads;
        self.lemma_revs_in_phase_members(ph, dh, Phase::Public, 0);
        self.lemma_revs_in_phase_members(ph, dh, Phase::Draft, 0);
        let public_set = self.revs_in_phase(ph, dh, Phase::Public, 0);
        let draft_set = self.revs_in_phase(ph, dh, Phase::Draft, 0);
        assert forall|x: u32| x < self.len_spec() && #[trigger] ph.contains(x) implies public_set.contains(x) by {
            assert(Self::initial_phase(ph, dh, x as int) == Phase::Public);
        }
        assert forall|x: u32| x < self.len_spec() && #[trigger] dh.contains(x) implies public_set.contains(x)
            || draft_set.contains(x) by {
            assert(phase_rank(Self::initial_phase(ph, dh, x as int)) >= 1);
        }
        assert forall|c: u32, r: u32| #[trigger] public_set.contains(c) && r < c && #[trigger] self.parents_of(
            c as int,
        ).contains(r) implies public_set.contains(r) by {
            self.lemma_phase_monotone(ph, dh, r as int, c as int);
        }
        assert forall|c: u32, r: u32| #[trigger] draft_set.contains(c) && r < c && #[trigger] self.parents_of(
            c as int,
        ).contains(r) implies public_set.contains(r) || draft_set.contains(r) by {
            self.lemma_phase_monotone(ph, dh, r as int, c as int);
        }
    }

    proof fn lemma_path_rank(&self, ph: Seq<u32>, dh: Seq<u32>, path: Seq<u32>, i: int)
        requires
            self.dag_valid(),
            self.len_spec() <= u32::MAX,
            0 <= i < path.len(),
            path[0] < self.len_spec(),
            forall|j: int| 0 <= j < path.len() - 1 ==> (#[trigger] self.parents_of(path[j] as int)).contains(path[j + 1]),
        ensures
            path[i] < self.len_spec(),
            phase_rank(self.phase_of(ph, dh, path[i] as int)) >= phase_rank(self.phase_of(ph, dh, path[0] as int)),
        decreases i,
    {
        if i > 0 {
            self.lemma_path_rank(ph, dh, path, i - 1);
            let c = path[i - 1] as int;
            assert(self.parents_of(path[i - 1] as int).contains(path[i - 1 + 1]));
            assert(self.parents_of(c).contains(path[i]));
            let k = choose|k: int| 0 <= k < self.parents_of(c).len() && self.parents_of(c)[k] == path[i];
            assert(self.parents_of(c)[k] < c);
            self.lemma_phase_monotone(ph, dh, path[i] as int, c);
        }
    }

    /// Along any chain of parents that starts at a head: every revision
    /// reached from a public head is listed public, and every revision
    /// reached from a draft head is listed public or draft.
    pub proof fn lemma_phase_ancestors(&self, public_heads: Seq<u32>, draft_heads: Seq<u32>, path: Seq<u32>)
        requires
            self.dag_valid(),
            self.len_spec() <= u32::MAX,
            path.len() > 0,
            path[0] < self.len_spec(),
            forall|j: int| 0 <= j < path.len() - 1 ==> (#[trigger] self.parents_of(path[j] as int)).contains(path[j + 1]),
        ensures
            public_heads.contains(path[0]) ==> self.revs_in_phase(public_heads, draft_heads, Phase::Public, 0).contains(
                path.last(),
            ),
            draft_heads.contains(path[0]) ==> self.revs_in_phase(public_heads, draft_heads, Phase::Public, 0).contains(
                path.last(),
            ) || self.revs_in_phase(public_heads, draft_heads, Phase::Draft, 0).contains(path.last()),
    {
        self.lemma_path_rank(public_heads, draft_heads, path, path.len() - 1);
        self.lemma_phase_sets(public_heads, draft_heads);
        assert(public_heads.contains(path[0]) ==> Self::initial_phase(public_heads, draft_heads, path[0] as int)
            == Phase::Public);
        assert(draft_heads.contains(path[0]) ==> phase_rank(
            Self::initial_phase(public_heads, draft_heads, path[0] as int),
        ) >= 1);
    }

    /// `path` is a chain of parents from one of `heads` down to `r`.
    pub open spec fn is_chain(&self, heads: Seq<u32>, path: Seq<u32>, r: u32) -> bool {
        &&& path.len() > 0
        &&& heads.contains(path[0])
        &&& path[0] < self.len_spec()
        &&& path.last() == r
        &&& forall|j: int| 0 <= j < path.len() - 1 ==> (#[trigger] self.parents_of(path[j] as int)).contains(path[j + 1])
    }

    proof fn lemma_child_witness(&self, ph: Seq<u32>, dh: Seq<u32>, r: int, c0: int, phase: Phase) -> (c: int)
        requires
            self.child_phase(ph, dh, r, c0) == phase,
            phase != Phase::Unspecified,
        ensures
            r < c0 <= c < self.len_spec(),
            0 <= r,
            self.parents_of(c).contains(r as u32),
            self.phase_of(ph, dh, c) == phase,
        decreases self.len_spec() - c0,
    {
        if self.child_phase(ph, dh, r, c0 + 1) == phase {
            self.lemma_child_witness(ph, dh, r, c0 + 1, phase)
        } else {
            c0
        }
    }

    proof fn lemma_phase_reached(&self, ph: Seq<u32>, dh: Seq<u32>, r: int, phase: Phase) -> (path: Seq<u32>)
        requires
            self.len_spec() <= u32::MAX,
            self.phase_of(ph, dh, r) == phase,
            phase != Phase::Unspecified,
        ensures
            0 <= r < self.len_spec(),
            path.len() > 0,
            path[0] < self.len_spec(),
            Self::initial_phase(ph, dh, path[0] as int) == phase,
            path.last() == r,
            forall|j: int| 0 <= j < path.len() - 1 ==> (#[trigger] self.parents_of(path[j] as int)).contains(path[j + 1]),
        decreases self.len_spec() - r,
    {
        if Self::initial_phase(ph, dh, r) == phase {
            seq![r as u32]
        } else {
            let c = self.lemma_child_witness(ph, dh, r, r + 1, phase);
            let upper = self.lemma_phase_reached(ph, dh, c, phase);
            let path = upper.push(r as u32);
            assert forall|j: int| 0 <= j < path.len() - 1 implies (#[trigger] self.parents_of(path[j] as int)).contains(
                path[j + 1],
            ) by {
                if j < upper.len() - 1 {
                    assert(path[j] == upper[j] && path[j + 1] == upper[j + 1]);
                    assert(self.parents_of(upper[j] as int).contains(upper[j + 1]));
                } else {
                    assert(path[j] == c && path[j + 1] == r as u32);
                }
            }
            path
        }
    }

    /// Which revisions each list of `phase_sets` holds, stated by chains of
    /// parents: a revision is listed public exactly when a chain reaches it
    /// from a public head, and draft exactly when a chain reaches it from a
    /// draft head and none from a public head.
    pub proof fn lemma_phase_reach(&self, public_heads: Seq<u32>, draft_heads: Seq<u32>, r: u32)
        requires
            self.dag_valid(),
            self.len_spec() <= u32::MAX,
            r < self.len_spec(),
        ensures
            self.revs_in_phase(public_heads, draft_heads, Phase::Public, 0).contains(r) <==> exists|path: Seq<u32>|
                #[trigger] self.is_chain(public_heads, path, r),
            self.revs_in_phase(public_heads, draft_heads, Phase::Draft, 0).contains(r) <==> ((exists|path: Seq<u32>|
                #[trigger] self.is_chain(draft_heads, path, r)) && !(exists|path: Seq<u32>|
                #[trigger] self.is_chain(public_heads, path, r))),
    {
        let ph = public_heads;
        let dh = draft_heads;
        self.lemma_phase_sets(ph, dh);
        let public_set = self.revs_in_phase(ph, dh, Phase::Public, 0);
        let draft_set = self.revs_in_phase(ph, dh, Phase::Draft, 0);
        assert forall|path: Seq<u32>| #[trigger] self.is_chain(ph, path, r) implies public_set.contains(r) by {
            self.lemma_phase_ancestors(ph, dh, path);
        }
        assert forall|path: Seq<u32>| #[trigger] self.is_chain(dh, path, r) implies public_set.contains(r)
            || draft_set.contains(r) by {
            self.lemma_phase_ancestors(ph, dh, path);
        }
        if public_set.contains(r) {
            let path = self.lemma_phase_reached(ph, dh, r as int, Phase::Public);
            assert(ph.contains(path[0]));
            assert(self.is_chain(ph, path, r));
        }
        if draft_set.contains(r) {
            let path = self.lemma_phase_reached(ph, dh, r as int, Phase::Draft);
            assert(dh.contains(path[0]));
            assert(self.is_chain(dh, path, r));
        }
    }

    /// Inserting revisions one after another lays them over the on-disk ones:
    /// revision `disk_count + i` has the `i`-th inserted parent list, and the
    /// length grows by one for each.
    pub proof fn lemma_tail_overlay(before: RevlogIndex, after: RevlogIndex, inserted: Seq<Seq<u32>>)
        requires
            after.disk() == before.disk(),
            after.tail() == before.tail() + inserted,
        ensures
            after.len_spec() == before.len_spec() + inserted.len(),
            forall|i: int| 0 <= i < inserted.len() ==> #[trigger] after.parents_of(before.len_spec() + i)
                == inserted[i],
            forall|r: int| 0 <= r < before.len_spec() ==> #[trigger] after.parents_of(r) == before.parents_of(r),
    {
        assert forall|i: int| 0 <= i < inserted.len() implies #[trigger] after.parents_of(before.len_spec() + i)
            == inserted[i] by {
            assert(after.tail()[before.tail().len() + i] == inserted[i]);
        }
        assert forall|r: int| 0 <= r < before.len_spec() implies #[trigger] after.parents_of(r) == before.parents_of(r) by {
            if r >= before.disk_count() {
                assert(after.tail()[r - before.disk_count()] == before.tail()[r - before.disk_count()]);
            }
        }
    }
}

} // verus!
