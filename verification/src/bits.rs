//! Bitvector pair over a dense integer column space: a sparse form holding
//! the set column positions in ascending order, and a dense form holding a
//! fixed-size occupancy array, with the overlap (intersection) count between
//! the two as the central operation.

use vstd::prelude::*;

verus! {

/// Number of `true` entries among the first `n` positions of `s`.
pub open spec fn count_true_upto(s: Seq<bool>, n: int) -> int
    decreases n,
{
    if n <= 0 {
        0
    } else {
        count_true_upto(s, n - 1) + (if s[n - 1] {
            1int
        } else {
            0int
        })
    }
}

/// Number of `true` entries of `s`.
pub open spec fn count_true(s: Seq<bool>) -> int {
    count_true_upto(s, s.len() as int)
}

/// Column `i` is set in both occupancy sequences.
pub open spec fn both_set(x: Seq<bool>, y: Seq<bool>, i: int) -> bool {
    0 <= i < x.len() && i < y.len() && x[i] && y[i]
}

/// Column `i` is set in at least one of the occupancy sequences (and lies in
/// both column ranges).
pub open spec fn either_set(x: Seq<bool>, y: Seq<bool>, i: int) -> bool {
    0 <= i < x.len() && i < y.len() && (x[i] || y[i])
}

/// Number of columns below `n` set in both sequences.
pub open spec fn count_and_upto(x: Seq<bool>, y: Seq<bool>, n: int) -> int
    decreases n,
{
    if n <= 0 {
        0
    } else {
        count_and_upto(x, y, n - 1) + (if both_set(x, y, n - 1) {
            1int
        } else {
            0int
        })
    }
}

/// Number of columns below `n` set in at least one of the sequences.
pub open spec fn count_or_upto(x: Seq<bool>, y: Seq<bool>, n: int) -> int
    decreases n,
{
    if n <= 0 {
        0
    } else {
        count_or_upto(x, y, n - 1) + (if either_set(x, y, n - 1) {
            1int
        } else {
            0int
        })
    }
}

/// The overlap of two occupancy sequences over the same column space:
/// the number of columns set in both.
pub open spec fn overlap_count(x: Seq<bool>, y: Seq<bool>) -> int {
    count_and_upto(x, y, x.len() as int)
}

pub proof fn lemma_count_true_bounds(s: Seq<bool>, n: int)
    requires
        0 <= n <= s.len(),
    ensures
        0 <= count_true_upto(s, n) <= n,
    decreases n,
{
    if n > 0 {
        lemma_count_true_bounds(s, n - 1);
    }
}

pub proof fn lemma_count_and_sym(x: Seq<bool>, y: Seq<bool>, n: int)
    ensures
        count_and_upto(x, y, n) == count_and_upto(y, x, n),
    decreases n,
{
    if n > 0 {
        lemma_count_and_sym(x, y, n - 1);
    }
}

pub proof fn lemma_count_and_self(x: Seq<bool>, n: int)
    requires
        n <= x.len(),
    ensures
        count_and_upto(x, x, n) == count_true_upto(x, n),
    decreases n,
{
    if n > 0 {
        lemma_count_and_self(x, n - 1);
    }
}

pub proof fn lemma_count_and_le_left(x: Seq<bool>, y: Seq<bool>, n: int)
    ensures
        0 <= count_and_upto(x, y, n) <= count_true_upto(x, n),
    decreases n,
{
    if n > 0 {
        lemma_count_and_le_left(x, y, n - 1);
    }
}

/// Pointwise inclusion-exclusion: within the shared column range, the
/// overlap and the union together count each set column exactly as often as
/// the two sequences do separately.
pub proof fn lemma_inclusion_exclusion(x: Seq<bool>, y: Seq<bool>, n: int)
    requires
        0 <= n <= x.len(),
        n <= y.len(),
    ensures
        count_and_upto(x, y, n) + count_or_upto(x, y, n) == count_true_upto(x, n)
            + count_true_upto(y, n),
        count_or_upto(x, y, n) <= n,
    decreases n,
{
    if n > 0 {
        lemma_inclusion_exclusion(x, y, n - 1);
    }
}

/// Overlap is symmetric: `Overlap(A, B) == Overlap(B, A)`.
pub proof fn lemma_overlap_symmetric(x: Seq<bool>, y: Seq<bool>)
    requires
        x.len() == y.len(),
    ensures
        overlap_count(x, y) == overlap_count(y, x),
{
    lemma_count_and_sym(x, y, x.len() as int);
}

/// Overlap with oneself is one's own cardinality: `Overlap(A, A) == |A|`.
pub proof fn lemma_overlap_self(x: Seq<bool>)
    ensures
        overlap_count(x, x) == count_true(x),
{
    lemma_count_and_self(x, x.len() as int);
}

/// The overlap never exceeds either operand's cardinality.
pub proof fn lemma_overlap_bounds(x: Seq<bool>, y: Seq<bool>)
    requires
        x.len() == y.len(),
    ensures
        0 <= overlap_count(x, y) <= count_true(x),
        overlap_count(x, y) <= count_true(y),
{
    lemma_count_and_le_left(x, y, x.len() as int);
    lemma_count_and_sym(x, y, x.len() as int);
    lemma_count_and_le_left(y, x, y.len() as int);
}

/// The union bound needed for the fourth cell of a 2x2 contingency table:
/// `|A| + |B| - Overlap(A, B)` columns are occupied in all, so at most the
/// width of the column space.
pub proof fn lemma_union_bound(x: Seq<bool>, y: Seq<bool>)
    requires
        x.len() == y.len(),
    ensures
        count_true(x) + count_true(y) - overlap_count(x, y) <= x.len(),
{
    lemma_inclusion_exclusion(x, y, x.len() as int);
}

/// Dense bitvector: one occupancy flag per column, plus the cached count of
/// occupied columns.
pub struct DenseBitVec {
    pub v: Vec<bool>,
    pub n: usize,
}

impl DenseBitVec {
    /// The cached count agrees with the occupancy array.
    pub open spec fn wf(self) -> bool {
        self.n == count_true(self.v@)
    }

    /// Wraps an occupancy array, counting its set columns.
    pub fn from_flags(v: Vec<bool>) -> (r: DenseBitVec)
        ensures
            r.v@ == v@,
            r.wf(),
    {
        let mut n: usize = 0;
        let mut i: usize = 0;
        while i < v.len()
            invariant
                i <= v.len(),
                n == count_true_upto(v@, i as int),
                n <= i,
            decreases v.len() - i,
        {
            if v[i] {
                n = n + 1;
            }
            i = i + 1;
        }
        DenseBitVec { v, n }
    }
}

/// Column `c` occurs among the sparse positions `s`.
pub open spec fn sparse_mem(s: Seq<u16>, c: int) -> bool {
    exists|j: int| 0 <= j < s.len() && s[j] == c
}

/// Positions strictly increase along the sequence (so they are ascending and
/// deduplicated).
pub open spec fn strictly_sorted_u16(s: Seq<u16>) -> bool {
    forall|i: int, j: int| 0 <= i < j < s.len() ==> s[i] < s[j]
}

/// The occupancy sequence that a sparse position list denotes over `ncols`
/// columns.
pub open spec fn sparse_occupancy(s: Seq<u16>, ncols: nat) -> Seq<bool> {
    Seq::new(ncols, |i: int| sparse_mem(s, i))
}

/// Sparse bitvector: the ascending, deduplicated list of set column indices.
pub struct SparseBitVec {
    pub v: Vec<u16>,
}

impl SparseBitVec {
    /// Positions are strictly ascending and lie inside the column space.
    pub open spec fn wf(self, ncols: int) -> bool {
        &&& strictly_sorted_u16(self.v@)
        &&& forall|j: int| 0 <= j < self.v@.len() ==> (self.v@[j] as int) < ncols
    }

    /// The occupancy sequence this sparse vector denotes.
    pub open spec fn occupancy(self, ncols: nat) -> Seq<bool> {
        sparse_occupancy(self.v@, ncols)
    }
}

/// Overlap accumulated over the first `j` sparse positions.
pub open spec fn sparse_prefix_overlap(d: Seq<bool>, s: Seq<u16>, j: int) -> int
    decreases j,
{
    if j <= 0 {
        0
    } else {
        sparse_prefix_overlap(d, s, j - 1) + (if 0 <= (s[j - 1] as int) < d.len() && d[s[j
            - 1] as int] {
            1int
        } else {
            0int
        })
    }
}

proof fn lemma_count_and_update(x: Seq<bool>, y: Seq<bool>, p: int, n: int)
    requires
        0 <= p < y.len(),
        !y[p],
    ensures
        count_and_upto(x, y.update(p, true), n) == count_and_upto(x, y, n) + (if p < n && p
            < x.len() && x[p] {
            1int
        } else {
            0int
        }),
    decreases n,
{
    if n > 0 {
        lemma_count_and_update(x, y, p, n - 1);
    }
}

proof fn lemma_count_true_update(y: Seq<bool>, p: int, n: int)
    requires
        0 <= p < y.len(),
        n <= y.len(),
        !y[p],
    ensures
        count_true_upto(y.update(p, true), n) == count_true_upto(y, n) + (if p < n {
            1int
        } else {
            0int
        }),
    decreases n,
{
    if n > 0 {
        lemma_count_true_update(y, p, n - 1);
    }
}

proof fn lemma_occupancy_push(s: Seq<u16>, p: u16, ncols: nat)
    requires
        forall|j: int| 0 <= j < s.len() ==> s[j] < p,
        (p as int) < ncols,
    ensures
        sparse_occupancy(s.push(p), ncols) == sparse_occupancy(s, ncols).update(p as int, true),
        !sparse_occupancy(s, ncols)[p as int],
{
    let a = sparse_occupancy(s.push(p), ncols);
    let b = sparse_occupancy(s, ncols).update(p as int, true);
    assert forall|i: int| 0 <= i < ncols implies a[i] == b[i] by {
        if i == p as int {
            let sp = s.push(p);
            assert(sp[s.len() as int] == p);
            assert(sparse_mem(sp, i));
        } else {
            if sparse_mem(s.push(p), i) {
                let j = choose|j: int| 0 <= j < s.push(p).len() && s.push(p)[j] == i;
                assert(j < s.len() && s[j] == i);
                assert(sparse_mem(s, i));
            }
            if sparse_mem(s, i) {
                let j = choose|j: int| 0 <= j < s.len() && s[j] == i;
                assert(s.push(p)[j] == i);
                assert(sparse_mem(s.push(p), i));
            }
        }
    }
    assert(a =~= b);
}

/// Walking the sparse positions and testing dense membership computes
/// exactly the overlap of the two occupancy sequences, and the sparse
/// position count is exactly the cardinality of its occupancy sequence.
pub proof fn lemma_sparse_overlap_eq(d: Seq<bool>, s: Seq<u16>)
    requires
        strictly_sorted_u16(s),
        forall|j: int| 0 <= j < s.len() ==> (s[j] as int) < d.len(),
    ensures
        sparse_prefix_overlap(d, s, s.len() as int) == overlap_count(
            d,
            sparse_occupancy(s, d.len()),
        ),
        count_true(sparse_occupancy(s, d.len())) == s.len(),
    decreases s.len(),
{
    let n = d.len() as int;
    if s.len() == 0 {
        lemma_count_and_zero(d, sparse_occupancy(s, d.len()), n);
        lemma_count_true_zero(sparse_occupancy(s, d.len()), n);
    } else {
        let s0 = s.drop_last();
        let p = s.last();
        assert(forall|j: int| 0 <= j < s0.len() ==> s0[j] < p);
        assert(forall|j: int| 0 <= j < s0.len() ==> (s0[j] as int) < d.len());
        assert(strictly_sorted_u16(s0));
        lemma_sparse_overlap_eq(d, s0);
        lemma_occupancy_push(s0, p, d.len());
        assert(s0.push(p) =~= s);
        let occ0 = sparse_occupancy(s0, d.len());
        lemma_count_and_update(d, occ0, p as int, n);
        lemma_count_true_update(occ0, p as int, n);
        assert(sparse_prefix_overlap(d, s, s.len() as int) == sparse_prefix_overlap(
            d,
            s,
            s.len() - 1,
        ) + (if d[p as int] {
            1int
        } else {
            0int
        }));
        lemma_sparse_prefix_same(d, s, s0, s.len() - 1);
    }
}

proof fn lemma_count_and_zero(x: Seq<bool>, y: Seq<bool>, n: int)
    requires
        forall|i: int| 0 <= i < y.len() ==> !y[i],
    ensures
        count_and_upto(x, y, n) == 0,
    decreases n,
{
    if n > 0 {
        lemma_count_and_zero(x, y, n - 1);
    }
}

proof fn lemma_count_true_zero(y: Seq<bool>, n: int)
    requires
        n <= y.len(),
        forall|i: int| 0 <= i < y.len() ==> !y[i],
    ensures
        count_true_upto(y, n) == 0,
    decreases n,
{
    if n > 0 {
        lemma_count_true_zero(y, n - 1);
    }
}

proof fn lemma_sparse_prefix_same(d: Seq<bool>, s1: Seq<u16>, s2: Seq<u16>, j: int)
    requires
        j <= s1.len(),
        j <= s2.len(),
        forall|i: int| 0 <= i < j ==> s1[i] == s2[i],
    ensures
        sparse_prefix_overlap(d, s1, j) == sparse_prefix_overlap(d, s2, j),
    decreases j,
{
    if j > 0 {
        lemma_sparse_prefix_same(d, s1, s2, j - 1);
    }
}

/// The hot inner loop: iterate the sparse operand's positions and test dense
/// membership. Returns the overlap of the two occupancy sequences.
pub fn compute_overlap(dense: &DenseBitVec, sparse: &SparseBitVec) -> (r: usize)
    requires
        sparse.wf(dense.v@.len() as int),
    ensures
        r as int == overlap_count(dense.v@, sparse.occupancy(dense.v@.len())),
        r <= sparse.v@.len(),
{
    let mut acc: usize = 0;
    let mut j: usize = 0;
    while j < sparse.v.len()
        invariant
            j <= sparse.v@.len(),
            acc as int == sparse_prefix_overlap(dense.v@, sparse.v@, j as int),
            acc <= j,
            sparse.wf(dense.v@.len() as int),
        decreases sparse.v@.len() - j,
    {
        let pos = sparse.v[j];
        if dense.v[pos as usize] {
            acc = acc + 1;
        }
        j = j + 1;
    }
    proof {
        lemma_sparse_overlap_eq(dense.v@, sparse.v@);
    }
    acc
}


/// Value equality of two occupancy arrays.
pub fn bools_eq(a: &Vec<bool>, b: &Vec<bool>) -> (r: bool)
    ensures
        r == (a@ == b@),
{
    if a.len() != b.len() {
        return false;
    }
    let mut i: usize = 0;
    while i < a.len()
        invariant
            i <= a@.len(),
            a@.len() == b@.len(),
            forall|t: int| 0 <= t < i ==> a@[t] == b@[t],
        decreases a@.len() - i,
    {
        if a[i] != b[i] {
            return false;
        }
        i = i + 1;
    }
    proof {
        assert(a@ =~= b@);
    }
    true
}


/// Inserting an element anywhere adds exactly it to the sequence's
/// multiset.
pub proof fn lemma_insert_to_multiset<A>(s: Seq<A>, p: int, a: A)
    requires
        0 <= p <= s.len(),
    ensures
        s.insert(p, a).to_multiset() == s.to_multiset().insert(a),
{
    broadcast use vstd::seq_lib::group_to_multiset_ensures;
    broadcast use vstd::multiset::group_multiset_axioms;

    let s0 = s.subrange(0, p);
    let s1 = s.subrange(p, s.len() as int);
    assert(s.insert(p, a) == s0.push(a) + s1);
    assert(s == s0 + s1);
    vstd::seq_lib::lemma_multiset_commutative(s0.push(a), s1);
    vstd::seq_lib::lemma_multiset_commutative(s0, s1);
    assert(s0.push(a).to_multiset() == s0.to_multiset().insert(a));
    assert forall|x: A|
        s.insert(p, a).to_multiset().count(x) == s.to_multiset().insert(a).count(
            x,
        ) by {}
    assert(s.insert(p, a).to_multiset() =~= s.to_multiset().insert(a));
}

/// Moving one element of a sequence to another position keeps its
/// multiset.
pub proof fn lemma_move_to_multiset<A>(s1: Seq<A>, s2: Seq<A>, i: int, p: int)
    requires
        0 <= i < s1.len(),
        0 <= p <= i,
        s2 == s1.remove(i).insert(p, s1[i]),
    ensures
        s2.to_multiset() == s1.to_multiset(),
{
    broadcast use vstd::seq_lib::group_to_multiset_ensures;
    broadcast use vstd::multiset::group_multiset_axioms;

    lemma_insert_to_multiset(s1.remove(i), p, s1[i]);
    assert(s1.remove(i).to_multiset() == s1.to_multiset().remove(s1[i]));
    assert(s1.to_multiset().count(s1[i]) > 0);
    assert forall|x: A| s2.to_multiset().count(x) == s1.to_multiset().count(x) by {}
    assert(s2.to_multiset() =~= s1.to_multiset());
}

/// Two positions holding equal elements put that element in the
/// multiset at least twice.
pub proof fn lemma_eq_positions_count2<A>(s: Seq<A>, q1: int, q2: int)
    requires
        0 <= q1 < q2 < s.len(),
        s[q1] == s[q2],
    ensures
        s.to_multiset().count(s[q1]) >= 2,
{
    broadcast use vstd::seq_lib::group_to_multiset_ensures;
    broadcast use vstd::multiset::group_multiset_axioms;

    let s0 = s.subrange(0, q2);
    let s1 = s.subrange(q2, s.len() as int);
    assert(s == s0 + s1);
    vstd::seq_lib::lemma_multiset_commutative(s0, s1);
    assert(s0[q1] == s[q1]);
    assert(s0.contains(s[q1]));
    assert(s0.to_multiset().count(s[q1]) > 0);
    assert(s1[0] == s[q1]);
    assert(s1.contains(s[q1]));
    assert(s1.to_multiset().count(s[q1]) > 0);
}

/// An element counted at least twice occurs at two distinct positions.
pub proof fn lemma_count2_eq_positions<A>(s: Seq<A>, x: A)
    requires
        s.to_multiset().count(x) >= 2,
    ensures
        exists|q1: int, q2: int| 0 <= q1 < q2 < s.len() && #[trigger] s[q1] == x && #[trigger] s[q2] == x,
{
    broadcast use vstd::seq_lib::group_to_multiset_ensures;
    broadcast use vstd::multiset::group_multiset_axioms;

    assert(s.contains(x));
    let q1 = choose|q1: int| 0 <= q1 < s.len() && s[q1] == x;
    let rest = s.remove(q1);
    assert(rest.to_multiset() == s.to_multiset().remove(s[q1]));
    assert(rest.to_multiset().count(x) >= 1);
    assert(rest.contains(x));
    let r = choose|r: int| 0 <= r < rest.len() && rest[r] == x;
    s.remove_ensures(q1);
    if r < q1 {
        assert(s[r] == x);
        assert(s[q1] == x);
    } else {
        assert(s[r + 1] == x);
        assert(s[q1] == x);
    }
}

} // verus!
