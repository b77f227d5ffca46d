//! Benjamini-Hochberg multiple-testing correction over exact rationals.
//!
//! For inputs `p_1 .. p_m` the adjusted value of `p_i` is
//! `min(1, min { p_j * m / rank(p_j) : p_j >= p_i })`, where `rank(p_j)` is
//! the number of inputs at most `p_j`. That order-free form equals the
//! classical step-up procedure (sort ascending, take suffix minima of
//! `p_(k) * m / k`, clamp at one) for every tie pattern.

use vstd::prelude::*;
use crate::bignum::{big_from_u64, big_mul};
use crate::ratio::{Ratio, rle, rle_t, req_t, clamp1, lemma_rle_trans};

verus! {

/// The `(numerator, denominator)` value pairs of a ratio sequence.
pub open spec fn pairs_of(v: Seq<Ratio>) -> Seq<(nat, nat)> {
    Seq::new(v.len(), |i: int| v[i].pair())
}

/// Every entry is well-formed and at most one.
pub open spec fn all_wf_le_one(v: Seq<Ratio>) -> bool {
    forall|i: int|
        0 <= i < v.len() ==> (#[trigger] v[i]).wf() && rle_t(v[i].pair(), (1nat, 1nat))
}

/// How many entries of the first `n` are at most `x`.
pub open spec fn count_le_upto(ps: Seq<(nat, nat)>, x: (nat, nat), n: int) -> int
    decreases n,
{
    if n <= 0 {
        0
    } else {
        count_le_upto(ps, x, n - 1) + (if rle_t(ps[n - 1], x) {
            1int
        } else {
            0int
        })
    }
}

/// The rank of entry `j`: how many entries are at most it.
pub open spec fn rank_of(ps: Seq<(nat, nat)>, j: int) -> int {
    count_le_upto(ps, ps[j], ps.len() as int)
}

/// The candidate quotient of entry `j`: `p_j * m / rank(p_j)`.
pub open spec fn qval(ps: Seq<(nat, nat)>, j: int) -> (nat, nat) {
    (ps[j].0 * ps.len(), ps[j].1 * rank_of(ps, j) as nat)
}

/// `v` is the Benjamini-Hochberg adjusted value for entry `i`: at most one,
/// at most every candidate quotient of an entry at least `p_i`, and equal to
/// one of those bounds.
pub open spec fn bh_pinned(ps: Seq<(nat, nat)>, i: int, v: (nat, nat)) -> bool {
    &&& rle_t(v, (1nat, 1nat))
    &&& forall|j: int|
        0 <= j < ps.len() && rle_t(ps[i], ps[j]) ==> rle_t(v, clamp1(#[trigger] qval(ps, j)))
    &&& (req_t(v, (1nat, 1nat)) || exists|j: int|
        0 <= j < ps.len() && rle_t(ps[i], ps[j]) && req_t(v, clamp1(#[trigger] qval(ps, j))))
}

proof fn lemma_count_le_bounds(ps: Seq<(nat, nat)>, x: (nat, nat), n: int)
    requires
        0 <= n,
    ensures
        0 <= count_le_upto(ps, x, n) <= n,
    decreases n,
{
    if n > 0 {
        lemma_count_le_bounds(ps, x, n - 1);
    }
}

proof fn lemma_count_le_self(ps: Seq<(nat, nat)>, j: int, n: int)
    requires
        0 <= j < n,
    ensures
        count_le_upto(ps, ps[j], n) >= 1,
    decreases n,
{
    if j < n - 1 {
        lemma_count_le_self(ps, j, n - 1);
    } else {
        lemma_count_le_bounds(ps, ps[j], n - 1);
    }
}

/// Transitivity of `rle_t` for pairs with positive denominators.
pub proof fn lemma_rle_t_trans(a: (nat, nat), b: (nat, nat), c: (nat, nat))
    requires
        a.1 > 0,
        b.1 > 0,
        c.1 > 0,
        rle_t(a, b),
        rle_t(b, c),
    ensures
        rle_t(a, c),
{
    lemma_rle_trans(a.0, a.1, b.0, b.1, c.0, c.1);
}

/// A value at most `p_j` and at most one is at most `p_j`'s clamped
/// candidate quotient.
proof fn lemma_cand_ge(pi: (nat, nat), pj: (nat, nat), m: nat, cnt: nat)
    requires
        pi.1 > 0,
        pj.1 > 0,
        rle_t(pi, pj),
        rle_t(pi, (1nat, 1nat)),
        1 <= cnt <= m,
    ensures
        rle_t(pi, clamp1((pj.0 * m, pj.1 * cnt))),
        (pj.1 * cnt) > 0,
{
    assert(pj.1 * cnt > 0) by (nonlinear_arith)
        requires
            pj.1 > 0,
            cnt >= 1,
    ;
    assert(pi.0 * (pj.1 * cnt) <= (pj.0 * m) * pi.1) by (nonlinear_arith)
        requires
            pi.0 * pj.1 <= pj.0 * pi.1,
            1 <= cnt <= m,
            pi.0 >= 0,
            pi.1 > 0,
    ;
}

/// Performs the correction on a vector of exact p-values, all at most one.
/// The result pins, entry by entry, the exact Benjamini-Hochberg adjusted
/// value, and every adjusted value is at least its raw value.
pub fn adjust(p: &Vec<Ratio>) -> (adj: Vec<Ratio>)
    requires
        all_wf_le_one(p@),
    ensures
        adj@.len() == p@.len(),
        forall|i: int| 0 <= i < adj@.len() ==> (#[trigger] adj@[i]).wf(),
        forall|i: int|
            0 <= i < adj@.len() ==> bh_pinned(pairs_of(p@), i, (#[trigger] adj@[i]).pair()),
        forall|i: int|
            0 <= i < adj@.len() ==> rle_t(pairs_of(p@)[i], (#[trigger] adj@[i]).pair()),
{
    let ghost ps = pairs_of(p@);
    let m = p.len();
    let m_big = big_from_u64(m as u64);

    // ranks: for each entry, how many entries are at most it
    let mut cnts: Vec<usize> = Vec::new();
    let mut j: usize = 0;
    while j < m
        invariant
            j <= m,
            m == p@.len(),
            ps == pairs_of(p@),
            cnts@.len() == j,
            forall|t: int|
                0 <= t < j ==> #[trigger] cnts@[t] as int == rank_of(ps, t) && 1 <= cnts@[t]
                    <= m,
        decreases m - j,
    {
        let mut c: usize = 0;
        let mut i: usize = 0;
        while i < m
            invariant
                i <= m,
                j < m,
                m == p@.len(),
                ps == pairs_of(p@),
                c as int == count_le_upto(ps, ps[j as int], i as int),
                c <= i,
            decreases m - i,
        {
            if p[i].le(&p[j]) {
                c = c + 1;
            }
            i = i + 1;
        }
        proof {
            lemma_count_le_self(ps, j as int, m as int);
        }
        cnts.push(c);
        j = j + 1;
    }

    let mut adj: Vec<Ratio> = Vec::new();
    let mut i: usize = 0;
    while i < m
        invariant
            i <= m,
            m == p@.len(),
            ps == pairs_of(p@),
            all_wf_le_one(p@),
            cnts@.len() == m,
            forall|t: int|
                0 <= t < m ==> #[trigger] cnts@[t] as int == rank_of(ps, t) && 1 <= cnts@[t]
                    <= m,
            big_from_u64_holds(m_big, m),
            adj@.len() == i,
            forall|t: int| 0 <= t < i ==> (#[trigger] adj@[t]).wf(),
            forall|t: int| 0 <= t < i ==> bh_pinned(ps, t, (#[trigger] adj@[t]).pair()),
            forall|t: int| 0 <= t < i ==> rle_t(ps[t], (#[trigger] adj@[t]).pair()),
        decreases m - i,
    {
        let mut best = Ratio::one();
        let mut j: usize = 0;
        while j < m
            invariant
                j <= m,
                i < m,
                m == p@.len(),
                ps == pairs_of(p@),
                all_wf_le_one(p@),
                cnts@.len() == m,
                forall|t: int|
                    0 <= t < m ==> #[trigger] cnts@[t] as int == rank_of(ps, t) && 1
                        <= cnts@[t] <= m,
                big_from_u64_holds(m_big, m),
                best.wf(),
                rle_t(best.pair(), (1nat, 1nat)),
                rle_t(ps[i as int], best.pair()),
                forall|t: int|
                    0 <= t < j && rle_t(ps[i as int], ps[t]) ==> rle_t(
                        best.pair(),
                        clamp1(#[trigger] qval(ps, t)),
                    ),
                req_t(best.pair(), (1nat, 1nat)) || exists|t: int|
                    0 <= t < j && rle_t(ps[i as int], ps[t]) && req_t(
                        best.pair(),
                        clamp1(#[trigger] qval(ps, t)),
                    ),
            decreases m - j,
        {
            if p[i].le(&p[j]) {
                let cnt_big = big_from_u64(cnts[j] as u64);
                let q = Ratio { num: big_mul(&p[j].num, &m_big), den: big_mul(&p[j].den, &cnt_big) };
                proof {
                    lemma_cand_ge(
                        ps[i as int],
                        ps[j as int],
                        m as nat,
                        cnts@[j as int] as nat,
                    );
                    assert(q.pair() == qval(ps, j as int));
                }
                let qc = q.min_one();
                proof {
                    assert(qc.pair() == clamp1(qval(ps, j as int)));
                }
                if qc.le(&best) {
                    proof {
                        // every earlier bound still holds for the new best
                        assert forall|t: int|
                            0 <= t < j + 1 && rle_t(ps[i as int], ps[t]) implies rle_t(
                            qc.pair(),
                            clamp1(#[trigger] qval(ps, t)),
                        ) by {
                            if t < j {
                                assert(cnts@[t] as int == rank_of(ps, t) && 1 <= cnts@[t]);
                                lemma_clamp_pos(ps, t, m as nat);
                                lemma_rle_t_trans(
                                    qc.pair(),
                                    best.pair(),
                                    clamp1(qval(ps, t)),
                                );
                            }
                        }
                        // the raw value stays below the new best
                        lemma_clamp_cases(ps, i as int, j as int, qc.pair());
                    }
                    best = qc;
                } else {
                    proof {
                        // totality: the kept best is at most the new candidate
                        assert(rle_t(best.pair(), qc.pair()));
                    }
                }
            }
            j = j + 1;
        }
        adj.push(best);
        i = i + 1;
    }
    adj
}

/// The clamped candidate quotient has a positive denominator.
proof fn lemma_clamp_pos(ps: Seq<(nat, nat)>, t: int, m: nat)
    requires
        0 <= t < ps.len(),
        ps[t].1 > 0,
        1 <= rank_of(ps, t),
    ensures
        clamp1(qval(ps, t)).1 > 0,
{
    assert(ps[t].1 * rank_of(ps, t) as nat > 0) by (nonlinear_arith)
        requires
            ps[t].1 > 0,
            rank_of(ps, t) >= 1,
    ;
}

/// From `p_i <= clamp1(q_j)` stated via `lemma_cand_ge`, conclude the raw
/// value is at most the adopted candidate.
proof fn lemma_clamp_cases(ps: Seq<(nat, nat)>, i: int, j: int, v: (nat, nat))
    requires
        0 <= i < ps.len(),
        0 <= j < ps.len(),
        rle_t(ps[i], clamp1(qval(ps, j))),
        v == clamp1(qval(ps, j)),
    ensures
        rle_t(ps[i], v),
{
}

/// The ghost fact that `m_big` holds the value `m`.
pub open spec fn big_from_u64_holds(b: num::BigUint, m: usize) -> bool {
    crate::bignum::big_nat(b) == m as nat
}


/// A pinned adjusted value is at least its raw value: with every raw
/// value at most one, the one bound and every candidate quotient
/// dominate the raw value, so their minimum does too.
pub proof fn lemma_bh_pinned_ge_raw(ps: Seq<(nat, nat)>, i: int, v: (nat, nat))
    requires
        0 <= i < ps.len(),
        forall|t: int| 0 <= t < ps.len() ==> (#[trigger] ps[t]).1 > 0,
        rle_t(ps[i], (1nat, 1nat)),
        v.1 > 0,
        bh_pinned(ps, i, v),
    ensures
        rle_t(ps[i], v),
{
    if req_t(v, (1nat, 1nat)) {
        assert(rle_t((1nat, 1nat), v));
        lemma_rle_t_trans(ps[i], (1nat, 1nat), v);
    } else {
        let j = choose|j: int|
            0 <= j < ps.len() && rle_t(ps[i], ps[j]) && req_t(v, clamp1(#[trigger] qval(ps, j)));
        lemma_count_le_self(ps, j, ps.len() as int);
        lemma_count_le_bounds(ps, ps[j], ps.len() as int);
        lemma_clamp_pos(ps, j, ps.len() as nat);
        lemma_cand_ge(ps[i], ps[j], ps.len() as nat, rank_of(ps, j) as nat);
        assert(rle_t(clamp1(qval(ps, j)), v));
        lemma_rle_t_trans(ps[i], clamp1(qval(ps, j)), v);
    }
}

/// Benjamini-Hochberg is monotone: a smaller raw p-value never receives a
/// larger adjusted value. Stated over the pinned form that `adjust`
/// guarantees.
pub proof fn lemma_bh_monotone(
    ps: Seq<(nat, nat)>,
    i1: int,
    i2: int,
    v1: (nat, nat),
    v2: (nat, nat),
)
    requires
        0 <= i1 < ps.len(),
        0 <= i2 < ps.len(),
        forall|t: int| 0 <= t < ps.len() ==> (#[trigger] ps[t]).1 > 0,
        v1.1 > 0,
        v2.1 > 0,
        rle_t(ps[i1], ps[i2]),
        bh_pinned(ps, i1, v1),
        bh_pinned(ps, i2, v2),
    ensures
        rle_t(v1, v2),
{
    if req_t(v2, (1nat, 1nat)) {
        // v1 <= 1 == v2
        assert(rle_t((1nat, 1nat), v2));
        lemma_rle_t_trans(v1, (1nat, 1nat), v2);
    } else {
        let j = choose|j: int|
            0 <= j < ps.len() && rle_t(ps[i2], ps[j]) && req_t(v2, clamp1(#[trigger] qval(ps, j)));
        lemma_rle_t_trans(ps[i1], ps[i2], ps[j]);
        lemma_count_le_self(ps, j, ps.len() as int);
        lemma_clamp_pos(ps, j, ps.len() as nat);
        assert(rle_t(v1, clamp1(qval(ps, j))));
        assert(rle_t(clamp1(qval(ps, j)), v2));
        lemma_rle_t_trans(v1, clamp1(qval(ps, j)), v2);
    }
}

/// The pinned adjusted value is unique up to rational equality.
pub proof fn lemma_bh_pinned_unique(ps: Seq<(nat, nat)>, i: int, v1: (nat, nat), v2: (nat, nat))
    requires
        0 <= i < ps.len(),
        forall|t: int| 0 <= t < ps.len() ==> (#[trigger] ps[t]).1 > 0,
        v1.1 > 0,
        v2.1 > 0,
        bh_pinned(ps, i, v1),
        bh_pinned(ps, i, v2),
    ensures
        req_t(v1, v2),
{
    lemma_bh_monotone(ps, i, i, v1, v2);
    lemma_bh_monotone(ps, i, i, v2, v1);
}

} // verus!
