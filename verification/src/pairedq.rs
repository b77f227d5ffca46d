//! The paired (mimicker/reverser) pipeline: both input directions are
//! intersected against both halves of every signature pair; same-direction
//! overlaps form the mimicker statistic, cross-direction overlaps the
//! reverser statistic, each with its own exact test and correction.

use vstd::prelude::*;
use crate::bits::{
    DenseBitVec, compute_overlap, count_true, lemma_count_true_bounds, lemma_overlap_bounds,
    lemma_sparse_overlap_eq, overlap_count,
};
use crate::catalog::BackgroundIndex;
use crate::fisher::{FactTable, p_value, pvalue_den, pvalue_num};
use crate::ratio::{Ratio, clamp1, rle_t};
use crate::pipeline::entry_occ;
use crate::bh;

verus! {

/// The overlap of one input direction with one half of pair `t`.
pub open spec fn pair_ov(
    ix: BackgroundIndex,
    dir: DenseBitVec,
    t: int,
    use_up_half: bool,
) -> int {
    let k = if use_up_half {
        ix.pairs@[t].0 as int
    } else {
        ix.pairs@[t].1 as int
    };
    overlap_count(dir.v@, entry_occ(ix, k))
}

/// The mimicker overlap of pair `t`: same-direction overlaps summed.
pub open spec fn mim_ov(ix: BackgroundIndex, up: DenseBitVec, down: DenseBitVec, t: int) -> int {
    pair_ov(ix, up, t, true) + pair_ov(ix, down, t, false)
}

/// The reverser overlap of pair `t`: cross-direction overlaps summed.
pub open spec fn rev_ov(ix: BackgroundIndex, up: DenseBitVec, down: DenseBitVec, t: int) -> int {
    pair_ov(ix, up, t, false) + pair_ov(ix, down, t, true)
}

/// The combined size of both halves of pair `t`.
pub open spec fn pair_size(ix: BackgroundIndex, t: int) -> int {
    ix.entries@[ix.pairs@[t].0 as int].genes.v@.len() as int
        + ix.entries@[ix.pairs@[t].1 as int].genes.v@.len() as int
}

/// The combined size of both input directions.
pub open spec fn user_size(up: DenseBitVec, down: DenseBitVec) -> int {
    count_true(up.v@) + count_true(down.v@)
}

/// The fourth cell `|background| - b - c + a` is nonnegative, so the 2x2
/// table of this overlap can be formed at all. (Oversized inputs can make
/// it negative; such a pair is skipped.)
pub open spec fn pair_table_valid(
    ix: BackgroundIndex,
    up: DenseBitVec,
    down: DenseBitVec,
    t: int,
    a: int,
) -> bool {
    ix.genes@.len() + a - (user_size(up, down) - a) - (pair_size(ix, t) - a) >= 0
}

/// The 2x2 table of pair `t` for overlap `a`.
pub open spec fn pair_cells(
    ix: BackgroundIndex,
    up: DenseBitVec,
    down: DenseBitVec,
    t: int,
    a: int,
) -> (nat, nat, nat, nat) {
    let n = ix.genes@.len() as int;
    let nu = user_size(up, down);
    let cs = pair_size(ix, t);
    (a as nat, (nu - a) as nat, (cs - a) as nat, (n - (nu - a) - (cs - a) + a) as nat)
}

/// The exact-test p-value of pair `t` for overlap `a`, clamped at one.
pub open spec fn pair_p(
    ix: BackgroundIndex,
    up: DenseBitVec,
    down: DenseBitVec,
    t: int,
    a: int,
) -> (nat, nat) {
    let (ca, cb, cc, cd) = pair_cells(ix, up, down, t, a);
    clamp1((pvalue_num(ca, cb, cc, cd), pvalue_den(ca, cb, cc, cd)))
}

/// The odds ratio of pair `t` for overlap `a`:
/// `(a / |user|) / (c / |background|)`, or `None` on a zero denominator.
pub open spec fn pair_odds(
    ix: BackgroundIndex,
    up: DenseBitVec,
    down: DenseBitVec,
    t: int,
    a: int,
) -> Option<(u64, u64)> {
    let n = ix.genes@.len() as int;
    let nu = user_size(up, down);
    let c = pair_size(ix, t) - a;
    if nu * c > 0 {
        Some(((a * n) as u64, (nu * c) as u64))
    } else {
        None
    }
}

/// Pair `t` passes the overlap floor on either statistic, both of its
/// tables can be formed, and either raw p-value clears the ceiling.
pub open spec fn pair_survives(
    ix: BackgroundIndex,
    up: DenseBitVec,
    down: DenseBitVec,
    t: int,
    overlap_ge: int,
    pvalue_le: (nat, nat),
) -> bool {
    let m = mim_ov(ix, up, down, t);
    let r = rev_ov(ix, up, down, t);
    &&& (m >= overlap_ge || r >= overlap_ge)
    &&& pair_table_valid(ix, up, down, t, m)
    &&& pair_table_valid(ix, up, down, t, r)
    &&& (rle_t(pair_p(ix, up, down, t, m), pvalue_le) || rle_t(
        pair_p(ix, up, down, t, r),
        pvalue_le,
    ))
}

/// The full-length p-value vector of one statistic over all pairs: the
/// pair's value for survivors, one for everything else.
pub open spec fn pair_pv_full(
    ix: BackgroundIndex,
    up: DenseBitVec,
    down: DenseBitVec,
    overlap_ge: int,
    pvalue_le: (nat, nat),
    mimic: bool,
) -> Seq<(nat, nat)> {
    Seq::new(
        ix.pairs@.len(),
        |t: int|
            if pair_survives(ix, up, down, t, overlap_ge, pvalue_le) {
                if mimic {
                    pair_p(ix, up, down, t, mim_ov(ix, up, down, t))
                } else {
                    pair_p(ix, up, down, t, rev_ov(ix, up, down, t))
                }
            } else {
                (1nat, 1nat)
            },
    )
}

/// One scored signature pair of a paired query result.
pub struct PairScored {
    pub index: usize,
    pub index_up: usize,
    pub index_down: usize,
    pub mimicker_overlap: usize,
    pub reverser_overlap: usize,
    pub odds_mimic: Option<(u64, u64)>,
    pub odds_reverse: Option<(u64, u64)>,
    pub pvalue_mimic: Ratio,
    pub pvalue_reverse: Ratio,
    pub adj_pvalue_mimic: Ratio,
    pub adj_pvalue_reverse: Ratio,
}

/// The mathematical value of a scored pair.
#[verifier::ext_equal]
pub struct PairView {
    pub index: int,
    pub index_up: int,
    pub index_down: int,
    pub mimicker_overlap: int,
    pub reverser_overlap: int,
    pub odds_mimic: Option<(u64, u64)>,
    pub odds_reverse: Option<(u64, u64)>,
    pub pvalue_mimic: (nat, nat),
    pub pvalue_reverse: (nat, nat),
    pub adj_pvalue_mimic: (nat, nat),
    pub adj_pvalue_reverse: (nat, nat),
}

/// The value of a scored pair.
pub open spec fn pv(e: PairScored) -> PairView {
    PairView {
        index: e.index as int,
        index_up: e.index_up as int,
        index_down: e.index_down as int,
        mimicker_overlap: e.mimicker_overlap as int,
        reverser_overlap: e.reverser_overlap as int,
        odds_mimic: e.odds_mimic,
        odds_reverse: e.odds_reverse,
        pvalue_mimic: e.pvalue_mimic.pair(),
        pvalue_reverse: e.pvalue_reverse.pair(),
        adj_pvalue_mimic: e.adj_pvalue_mimic.pair(),
        adj_pvalue_reverse: e.adj_pvalue_reverse.pair(),
    }
}

/// The scored fields of `e` are exactly those of signature pair
/// `e.index` for this query.
pub open spec fn pair_scored_ok(
    ix: BackgroundIndex,
    up: DenseBitVec,
    down: DenseBitVec,
    e: PairScored,
) -> bool {
    &&& (e.index as int) < ix.pairs@.len()
    &&& e.index_up == ix.pairs@[e.index as int].0
    &&& e.index_down == ix.pairs@[e.index as int].1
    &&& e.mimicker_overlap as int == mim_ov(ix, up, down, e.index as int)
    &&& e.reverser_overlap as int == rev_ov(ix, up, down, e.index as int)
    &&& e.pvalue_mimic.wf()
    &&& e.pvalue_mimic.pair() == pair_p(ix, up, down, e.index as int, mim_ov(ix, up, down, e.index as int))
    &&& e.pvalue_reverse.wf()
    &&& e.pvalue_reverse.pair() == pair_p(ix, up, down, e.index as int, rev_ov(ix, up, down, e.index as int))
    &&& e.odds_mimic == pair_odds(ix, up, down, e.index as int, mim_ov(ix, up, down, e.index as int))
    &&& e.odds_reverse == pair_odds(ix, up, down, e.index as int, rev_ov(ix, up, down, e.index as int))
    &&& e.adj_pvalue_mimic.wf()
    &&& e.adj_pvalue_reverse.wf()
}

/// Some element of `s` scores signature pair `t`.
pub open spec fn contains_pair(s: Seq<PairScored>, t: int) -> bool {
    exists|i: int| 0 <= i < s.len() && (#[trigger] s[i]).index as int == t
}

/// Some element of `s` has the value `x`.
pub open spec fn has_pair_elem(s: Seq<PairScored>, x: PairView) -> bool {
    exists|j: int| 0 <= j < s.len() && pv(#[trigger] s[j]) == x
}

/// Scores every signature pair against the two input directions: for each
/// pair passing the overlap floor (on either statistic) whose tables can
/// be formed and whose raw p-values clear the ceiling on either side, its
/// exact overlaps, odds ratios and exact-test p-values, in pair order.
#[verifier::rlimit(100)]
pub fn score_pairs(
    ix: &BackgroundIndex,
    table: &mut FactTable,
    up: &DenseBitVec,
    down: &DenseBitVec,
    overlap_ge: usize,
    pvalue_le: &Ratio,
) -> (r: Vec<PairScored>)
    requires
        ix.wf(),
        old(table).wf(),
        up.wf(),
        down.wf(),
        up.v@.len() == ix.genes@.len(),
        down.v@.len() == ix.genes@.len(),
    ensures
        final (table).wf(),
        final (table).facts@.len() >= old(table).facts@.len(),
        forall|i: int|
            0 <= i < r@.len() ==> pair_scored_ok(*ix, *up, *down, #[trigger] r@[i])
                && pair_survives(
                *ix,
                *up,
                *down,
                r@[i].index as int,
                overlap_ge as int,
                pvalue_le.pair(),
            ),
        forall|i1: int, i2: int| 0 <= i1 < i2 < r@.len() ==> r@[i1].index < r@[i2].index,
        forall|t: int|
            0 <= t < ix.pairs@.len() && pair_survives(
                *ix,
                *up,
                *down,
                t,
                overlap_ge as int,
                pvalue_le.pair(),
            ) ==> #[trigger] contains_pair(r@, t),
{
    let ncols = ix.genes.len();
    table.extend_to(5 * ncols);
    let mut r: Vec<PairScored> = Vec::new();
    let mut t: usize = 0;
    while t < ix.pairs.len()
        invariant
            t <= ix.pairs@.len(),
            ix.wf(),
            table.wf(),
            up.wf(),
            down.wf(),
            up.v@.len() == ix.genes@.len(),
            down.v@.len() == ix.genes@.len(),
            ncols == ix.genes@.len(),
            table.covers(5 * ncols as int),
            forall|i: int|
                0 <= i < r@.len() ==> pair_scored_ok(*ix, *up, *down, #[trigger] r@[i])
                    && pair_survives(
                    *ix,
                    *up,
                    *down,
                    r@[i].index as int,
                    overlap_ge as int,
                    pvalue_le.pair(),
                ),
            forall|i: int| 0 <= i < r@.len() ==> (#[trigger] r@[i]).index < t,
            forall|i1: int, i2: int| 0 <= i1 < i2 < r@.len() ==> r@[i1].index < r@[i2].index,
            forall|t2: int|
                0 <= t2 < t && pair_survives(
                    *ix,
                    *up,
                    *down,
                    t2,
                    overlap_ge as int,
                    pvalue_le.pair(),
                ) ==> #[trigger] contains_pair(r@, t2),
        decreases ix.pairs@.len() - t,
    {
        let (ui, di) = ix.pairs[t];
        let ghost occ_u = entry_occ(*ix, ui as int);
        let ghost occ_d = entry_occ(*ix, di as int);
        proof {
            lemma_sparse_overlap_eq(up.v@, ix.entries@[ui as int].genes.v@);
            lemma_sparse_overlap_eq(down.v@, ix.entries@[di as int].genes.v@);
            lemma_overlap_bounds(up.v@, occ_u);
            lemma_overlap_bounds(up.v@, occ_d);
            lemma_overlap_bounds(down.v@, occ_u);
            lemma_overlap_bounds(down.v@, occ_d);
            lemma_count_true_bounds(up.v@, up.v@.len() as int);
            lemma_count_true_bounds(down.v@, down.v@.len() as int);
        }
        let ov_uu = compute_overlap(up, &ix.entries[ui].genes);
        let ov_dd = compute_overlap(down, &ix.entries[di].genes);
        let ov_ud = compute_overlap(up, &ix.entries[di].genes);
        let ov_du = compute_overlap(down, &ix.entries[ui].genes);
        let mim = ov_uu + ov_dd;
        let rev = ov_ud + ov_du;
        let n_user = up.n + down.n;
        let csize = ix.entries[ui].genes.v.len() + ix.entries[di].genes.v.len();
        let ghost old_r = r@;
        proof {
            assert(mim as int == mim_ov(*ix, *up, *down, t as int));
            assert(rev as int == rev_ov(*ix, *up, *down, t as int));
            assert(n_user as int == user_size(*up, *down));
            assert(csize as int == pair_size(*ix, t as int));
        }
        if (mim >= overlap_ge || rev >= overlap_ge) && ncols + mim >= (n_user - mim) + (csize
            - mim) && ncols + rev >= (n_user - rev) + (csize - rev) {
            let b_m = n_user - mim;
            let c_m = csize - mim;
            let d_m = ncols + mim - b_m - c_m;
            let b_r = n_user - rev;
            let c_r = csize - rev;
            let d_r = ncols + rev - b_r - c_r;
            proof {
                assert(pair_cells(*ix, *up, *down, t as int, mim as int) == (
                    mim as nat,
                    b_m as nat,
                    c_m as nat,
                    d_m as nat,
                ));
                assert(pair_cells(*ix, *up, *down, t as int, rev as int) == (
                    rev as nat,
                    b_r as nat,
                    c_r as nat,
                    d_r as nat,
                ));
                assert(mim + b_m + c_m + d_m <= 5 * ncols);
                assert(rev + b_r + c_r + d_r <= 5 * ncols);
            }
            let p_m = p_value(table, mim, b_m, c_m, d_m).min_one();
            let p_r = p_value(table, rev, b_r, c_r, d_r).min_one();
            let keep = {
                let km = p_m.le(pvalue_le);
                if km {
                    true
                } else {
                    p_r.le(pvalue_le)
                }
            };
            if keep {
                proof {
                    assert(ncols <= 65536 && n_user <= 2 * 65536 && csize <= 2 * 65536);
                    assert((mim as int) * (ncols as int) <= 2 * 65536 * 65536) by (
                    nonlinear_arith)
                        requires
                            0 <= mim <= 2 * 65536,
                            0 <= ncols <= 65536,
                    ;
                    assert((rev as int) * (ncols as int) <= 2 * 65536 * 65536) by (
                    nonlinear_arith)
                        requires
                            0 <= rev <= 2 * 65536,
                            0 <= ncols <= 65536,
                    ;
                    assert((n_user as int) * (c_m as int) <= 4 * 65536 * 65536) by (
                    nonlinear_arith)
                        requires
                            0 <= n_user <= 2 * 65536,
                            0 <= c_m <= 2 * 65536,
                    ;
                    assert((n_user as int) * (c_r as int) <= 4 * 65536 * 65536) by (
                    nonlinear_arith)
                        requires
                            0 <= n_user <= 2 * 65536,
                            0 <= c_r <= 2 * 65536,
                    ;
                    assert(((n_user as int) * (c_m as int) > 0) == (n_user > 0 && c_m > 0)) by (
                    nonlinear_arith);
                    assert(((n_user as int) * (c_r as int) > 0) == (n_user > 0 && c_r > 0)) by (
                    nonlinear_arith);
                }
                let odds_m: Option<(u64, u64)> = if n_user > 0 && c_m > 0 {
                    Some((((mim as u64) * (ncols as u64)), ((n_user as u64) * (c_m as u64))))
                } else {
                    None
                };
                let odds_r: Option<(u64, u64)> = if n_user > 0 && c_r > 0 {
                    Some((((rev as u64) * (ncols as u64)), ((n_user as u64) * (c_r as u64))))
                } else {
                    None
                };
                let e = PairScored {
                    index: t,
                    index_up: ui,
                    index_down: di,
                    mimicker_overlap: mim,
                    reverser_overlap: rev,
                    odds_mimic: odds_m,
                    odds_reverse: odds_r,
                    pvalue_mimic: p_m,
                    pvalue_reverse: p_r,
                    adj_pvalue_mimic: Ratio::one(),
                    adj_pvalue_reverse: Ratio::one(),
                };
                proof {
                    assert(pair_scored_ok(*ix, *up, *down, e));
                    assert(pair_survives(
                        *ix,
                        *up,
                        *down,
                        t as int,
                        overlap_ge as int,
                        pvalue_le.pair(),
                    ));
                }
                r.push(e);
                proof {
                    assert forall|t2: int|
                        0 <= t2 < t + 1 && pair_survives(
                            *ix,
                            *up,
                            *down,
                            t2,
                            overlap_ge as int,
                            pvalue_le.pair(),
                        ) implies #[trigger] contains_pair(r@, t2) by {
                        if t2 < t as int {
                            assert(contains_pair(old_r, t2));
                            let i = choose|i: int|
                                0 <= i < old_r.len() && (#[trigger] old_r[i]).index as int == t2;
                            assert(r@[i].index as int == t2);
                        } else {
                            assert(r@[old_r.len() as int].index as int == t2);
                        }
                    }
                }
            } else {
                proof {
                    assert(!pair_survives(
                        *ix,
                        *up,
                        *down,
                        t as int,
                        overlap_ge as int,
                        pvalue_le.pair(),
                    ));
                }
            }
        } else {
            proof {
                assert(!pair_survives(
                    *ix,
                    *up,
                    *down,
                    t as int,
                    overlap_ge as int,
                    pvalue_le.pair(),
                ));
            }
        }
        proof {
            assert forall|t2: int|
                0 <= t2 < t + 1 && pair_survives(
                    *ix,
                    *up,
                    *down,
                    t2,
                    overlap_ge as int,
                    pvalue_le.pair(),
                ) implies #[trigger] contains_pair(r@, t2) by {
                if t2 < t as int || r@.len() > old_r.len() {
                } else {
                    assert(!pair_survives(
                        *ix,
                        *up,
                        *down,
                        t as int,
                        overlap_ge as int,
                        pvalue_le.pair(),
                    ));
                }
            }
        }
        t = t + 1;
    }
    r
}


/// Builds the full-length p-value vector of one statistic: the scored
/// value at each surviving pair's position, one everywhere else.
pub fn pair_full_pvector(
    ix: &BackgroundIndex,
    up: &DenseBitVec,
    down: &DenseBitVec,
    scores: &Vec<PairScored>,
    overlap_ge: usize,
    pvalue_le: &Ratio,
    mimic: bool,
) -> (out: Vec<Ratio>)
    requires
        ix.wf(),
        forall|i: int|
            0 <= i < scores@.len() ==> pair_scored_ok(*ix, *up, *down, #[trigger] scores@[i])
                && pair_survives(
                *ix,
                *up,
                *down,
                scores@[i].index as int,
                overlap_ge as int,
                pvalue_le.pair(),
            ),
        forall|i1: int, i2: int|
            0 <= i1 < i2 < scores@.len() ==> scores@[i1].index < scores@[i2].index,
        forall|t: int|
            0 <= t < ix.pairs@.len() && pair_survives(
                *ix,
                *up,
                *down,
                t,
                overlap_ge as int,
                pvalue_le.pair(),
            ) ==> #[trigger] contains_pair(scores@, t),
    ensures
        out@.len() == ix.pairs@.len(),
        bh::all_wf_le_one(out@),
        bh::pairs_of(out@) == pair_pv_full(
            *ix,
            *up,
            *down,
            overlap_ge as int,
            pvalue_le.pair(),
            mimic,
        ),
{
    let ghost target = pair_pv_full(*ix, *up, *down, overlap_ge as int, pvalue_le.pair(), mimic);
    let mut out: Vec<Ratio> = Vec::new();
    let mut k: usize = 0;
    while k < ix.pairs.len()
        invariant
            k <= ix.pairs@.len(),
            out@.len() == k,
            forall|t: int|
                0 <= t < k ==> (#[trigger] out@[t]).wf() && out@[t].pair() == (1nat, 1nat),
        decreases ix.pairs@.len() - k,
    {
        out.push(Ratio::one());
        k = k + 1;
    }
    let mut j: usize = 0;
    while j < scores.len()
        invariant
            j <= scores@.len(),
            ix.wf(),
            out@.len() == ix.pairs@.len(),
            forall|i: int|
                0 <= i < scores@.len() ==> pair_scored_ok(*ix, *up, *down, #[trigger] scores@[i])
                    && pair_survives(
                    *ix,
                    *up,
                    *down,
                    scores@[i].index as int,
                    overlap_ge as int,
                    pvalue_le.pair(),
                ),
            forall|i1: int, i2: int|
                0 <= i1 < i2 < scores@.len() ==> scores@[i1].index < scores@[i2].index,
            forall|t: int| 0 <= t < out@.len() ==> (#[trigger] out@[t]).wf(),
            forall|t: int|
                0 <= t < out@.len() ==> #[trigger] out@[t].pair() == (if exists|i: int|
                    0 <= i < j && (#[trigger] scores@[i]).index as int == t {
                    if mimic {
                        pair_p(*ix, *up, *down, t, mim_ov(*ix, *up, *down, t))
                    } else {
                        pair_p(*ix, *up, *down, t, rev_ov(*ix, *up, *down, t))
                    }
                } else {
                    (1nat, 1nat)
                }),
        decreases scores@.len() - j,
    {
        let idx = scores[j].index;
        let val = if mimic {
            scores[j].pvalue_mimic.clone_val()
        } else {
            scores[j].pvalue_reverse.clone_val()
        };
        let ghost old_out = out@;
        out.set(idx, val);
        proof {
            assert(pair_scored_ok(*ix, *up, *down, scores@[j as int]));
            assert forall|t: int| 0 <= t < out@.len() implies #[trigger] out@[t].pair() == (
            if exists|i: int| 0 <= i < j + 1 && (#[trigger] scores@[i]).index as int == t {
                if mimic {
                    pair_p(*ix, *up, *down, t, mim_ov(*ix, *up, *down, t))
                } else {
                    pair_p(*ix, *up, *down, t, rev_ov(*ix, *up, *down, t))
                }
            } else {
                (1nat, 1nat)
            }) by {
                if t == idx as int {
                    assert(scores@[j as int].index as int == t);
                } else {
                    assert(out@[t] == old_out[t]);
                    if exists|i: int| 0 <= i < j + 1 && (#[trigger] scores@[i]).index as int
                        == t {
                        let i = choose|i: int|
                            0 <= i < j + 1 && (#[trigger] scores@[i]).index as int == t;
                        assert(i < j);
                        assert(exists|i2: int|
                            0 <= i2 < j && (#[trigger] scores@[i2]).index as int == t);
                    }
                }
            }
        }
        j = j + 1;
    }
    proof {
        assert forall|t: int| 0 <= t < out@.len() implies #[trigger] out@[t].pair()
            == target[t] by {
            if pair_survives(*ix, *up, *down, t, overlap_ge as int, pvalue_le.pair()) {
                assert(contains_pair(scores@, t));
                let i = choose|i: int|
                    0 <= i < scores@.len() && (#[trigger] scores@[i]).index as int == t;
                assert(exists|i2: int|
                    0 <= i2 < scores@.len() && (#[trigger] scores@[i2]).index as int == t);
            } else {
                if exists|i: int|
                    0 <= i < scores@.len() && (#[trigger] scores@[i]).index as int == t {
                    let i = choose|i: int|
                        0 <= i < scores@.len() && (#[trigger] scores@[i]).index as int == t;
                    assert(pair_survives(
                        *ix,
                        *up,
                        *down,
                        t,
                        overlap_ge as int,
                        pvalue_le.pair(),
                    ));
                    assert(false);
                }
            }
        }
        assert(bh::pairs_of(out@) =~= target);
        assert forall|t: int| 0 <= t < out@.len() implies (#[trigger] out@[t]).wf() && rle_t(
            out@[t].pair(),
            (1nat, 1nat),
        ) by {
            assert(out@[t].pair() == target[t]);
        }
    }
    out
}

/// The element is a fully adjusted, threshold-passing paired result row:
/// exact scored fields, survival of the raw thresholds, the exact
/// adjusted value of each statistic, and passage of the adjusted ceiling
/// on at least one side.
pub open spec fn result_pair_ok(
    ix: BackgroundIndex,
    up: DenseBitVec,
    down: DenseBitVec,
    overlap_ge: int,
    pvalue_le: (nat, nat),
    adj_le: (nat, nat),
    e: PairScored,
) -> bool {
    &&& pair_scored_ok(ix, up, down, e)
    &&& pair_survives(ix, up, down, e.index as int, overlap_ge, pvalue_le)
    &&& bh::bh_pinned(
        pair_pv_full(ix, up, down, overlap_ge, pvalue_le, true),
        e.index as int,
        e.adj_pvalue_mimic.pair(),
    )
    &&& bh::bh_pinned(
        pair_pv_full(ix, up, down, overlap_ge, pvalue_le, false),
        e.index as int,
        e.adj_pvalue_reverse.pair(),
    )
    &&& (rle_t(e.adj_pvalue_mimic.pair(), adj_le) || rle_t(e.adj_pvalue_reverse.pair(), adj_le))
}

/// Attaches both adjusted p-values and keeps a pair when either adjusted
/// value clears the ceiling.
#[verifier::rlimit(100)]
pub fn apply_pair_adjustment(
    ix: &BackgroundIndex,
    up: &DenseBitVec,
    down: &DenseBitVec,
    scores: &Vec<PairScored>,
    adj_m: &Vec<Ratio>,
    adj_r: &Vec<Ratio>,
    adj_le: &Ratio,
    overlap_ge: usize,
    pvalue_le: &Ratio,
) -> (out: Vec<PairScored>)
    requires
        ix.wf(),
        forall|i: int|
            0 <= i < scores@.len() ==> pair_scored_ok(*ix, *up, *down, #[trigger] scores@[i])
                && pair_survives(
                *ix,
                *up,
                *down,
                scores@[i].index as int,
                overlap_ge as int,
                pvalue_le.pair(),
            ),
        forall|i1: int, i2: int|
            0 <= i1 < i2 < scores@.len() ==> scores@[i1].index < scores@[i2].index,
        forall|t: int|
            0 <= t < ix.pairs@.len() && pair_survives(
                *ix,
                *up,
                *down,
                t,
                overlap_ge as int,
                pvalue_le.pair(),
            ) ==> #[trigger] contains_pair(scores@, t),
        adj_m@.len() == ix.pairs@.len(),
        adj_r@.len() == ix.pairs@.len(),
        forall|i: int| 0 <= i < adj_m@.len() ==> (#[trigger] adj_m@[i]).wf(),
        forall|i: int| 0 <= i < adj_r@.len() ==> (#[trigger] adj_r@[i]).wf(),
        forall|i: int|
            0 <= i < adj_m@.len() ==> bh::bh_pinned(
                pair_pv_full(*ix, *up, *down, overlap_ge as int, pvalue_le.pair(), true),
                i,
                (#[trigger] adj_m@[i]).pair(),
            ),
        forall|i: int|
            0 <= i < adj_r@.len() ==> bh::bh_pinned(
                pair_pv_full(*ix, *up, *down, overlap_ge as int, pvalue_le.pair(), false),
                i,
                (#[trigger] adj_r@[i]).pair(),
            ),
    ensures
        forall|i: int|
            0 <= i < out@.len() ==> result_pair_ok(
                *ix,
                *up,
                *down,
                overlap_ge as int,
                pvalue_le.pair(),
                adj_le.pair(),
                #[trigger] out@[i],
            ),
        forall|i1: int, i2: int| 0 <= i1 < i2 < out@.len() ==> out@[i1].index < out@[i2].index,
        forall|t: int|
            0 <= t < ix.pairs@.len() && pair_survives(
                *ix,
                *up,
                *down,
                t,
                overlap_ge as int,
                pvalue_le.pair(),
            ) && (rle_t(adj_m@[t].pair(), adj_le.pair()) || rle_t(
                adj_r@[t].pair(),
                adj_le.pair(),
            )) ==> #[trigger] contains_pair(out@, t),
{
    let mut out: Vec<PairScored> = Vec::new();
    let mut j: usize = 0;
    while j < scores.len()
        invariant
            j <= scores@.len(),
            ix.wf(),
            forall|i: int|
                0 <= i < scores@.len() ==> pair_scored_ok(*ix, *up, *down, #[trigger] scores@[i])
                    && pair_survives(
                    *ix,
                    *up,
                    *down,
                    scores@[i].index as int,
                    overlap_ge as int,
                    pvalue_le.pair(),
                ),
            forall|i1: int, i2: int|
                0 <= i1 < i2 < scores@.len() ==> scores@[i1].index < scores@[i2].index,
            adj_m@.len() == ix.pairs@.len(),
            adj_r@.len() == ix.pairs@.len(),
            forall|i: int| 0 <= i < adj_m@.len() ==> (#[trigger] adj_m@[i]).wf(),
            forall|i: int| 0 <= i < adj_r@.len() ==> (#[trigger] adj_r@[i]).wf(),
            forall|i: int|
                0 <= i < adj_m@.len() ==> bh::bh_pinned(
                    pair_pv_full(*ix, *up, *down, overlap_ge as int, pvalue_le.pair(), true),
                    i,
                    (#[trigger] adj_m@[i]).pair(),
                ),
            forall|i: int|
                0 <= i < adj_r@.len() ==> bh::bh_pinned(
                    pair_pv_full(*ix, *up, *down, overlap_ge as int, pvalue_le.pair(), false),
                    i,
                    (#[trigger] adj_r@[i]).pair(),
                ),
            forall|i: int|
                0 <= i < out@.len() ==> result_pair_ok(
                    *ix,
                    *up,
                    *down,
                    overlap_ge as int,
                    pvalue_le.pair(),
                    adj_le.pair(),
                    #[trigger] out@[i],
                ),
            forall|i1: int, i2: int| 0 <= i1 < i2 < out@.len() ==> out@[i1].index < out@[i2].index,
            forall|i: int|
                0 <= i < out@.len() ==> exists|j2: int|
                    0 <= j2 < j && (#[trigger] out@[i]).index == scores@[j2].index,
            forall|j2: int|
                0 <= j2 < j && (rle_t(
                    adj_m@[(#[trigger] scores@[j2]).index as int].pair(),
                    adj_le.pair(),
                ) || rle_t(
                    adj_r@[scores@[j2].index as int].pair(),
                    adj_le.pair(),
                )) ==> contains_pair(out@, scores@[j2].index as int),
        decreases scores@.len() - j,
    {
        let idx = scores[j].index;
        let am = adj_m[idx].clone_val();
        let ar = adj_r[idx].clone_val();
        let ghost old_out = out@;
        let keep_m = am.le(adj_le);
        let keep_r = ar.le(adj_le);
        if keep_m || keep_r {
            let e2 = PairScored {
                index: idx,
                index_up: scores[j].index_up,
                index_down: scores[j].index_down,
                mimicker_overlap: scores[j].mimicker_overlap,
                reverser_overlap: scores[j].reverser_overlap,
                odds_mimic: scores[j].odds_mimic,
                odds_reverse: scores[j].odds_reverse,
                pvalue_mimic: scores[j].pvalue_mimic.clone_val(),
                pvalue_reverse: scores[j].pvalue_reverse.clone_val(),
                adj_pvalue_mimic: am,
                adj_pvalue_reverse: ar,
            };
            proof {
                assert(pair_scored_ok(*ix, *up, *down, scores@[j as int]));
                assert(pair_scored_ok(*ix, *up, *down, e2));
                if out@.len() > 0 {
                    let last = out@.len() - 1;
                    let j2 = choose|j2: int|
                        0 <= j2 < j && (#[trigger] out@[last]).index == scores@[j2].index;
                    assert(scores@[j2].index < scores@[j as int].index);
                }
            }
            out.push(e2);
            proof {
                assert forall|j2: int|
                    0 <= j2 < j + 1 && (rle_t(
                        adj_m@[(#[trigger] scores@[j2]).index as int].pair(),
                        adj_le.pair(),
                    ) || rle_t(
                        adj_r@[scores@[j2].index as int].pair(),
                        adj_le.pair(),
                    )) implies contains_pair(out@, scores@[j2].index as int) by {
                    if j2 < j {
                        assert(contains_pair(old_out, scores@[j2].index as int));
                        let i = choose|i: int|
                            0 <= i < old_out.len() && (#[trigger] old_out[i]).index as int
                                == scores@[j2].index as int;
                        assert(out@[i].index as int == scores@[j2].index as int);
                    } else {
                        assert(out@[old_out.len() as int].index as int == scores@[j2].index as int);
                    }
                }
            }
        } else {
            proof {
                assert forall|j2: int|
                    0 <= j2 < j + 1 && (rle_t(
                        adj_m@[(#[trigger] scores@[j2]).index as int].pair(),
                        adj_le.pair(),
                    ) || rle_t(
                        adj_r@[scores@[j2].index as int].pair(),
                        adj_le.pair(),
                    )) implies contains_pair(out@, scores@[j2].index as int) by {
                    if j2 == j {
                        assert(false);
                    }
                }
            }
        }
        j = j + 1;
    }
    proof {
        assert forall|t: int|
            0 <= t < ix.pairs@.len() && pair_survives(
                *ix,
                *up,
                *down,
                t,
                overlap_ge as int,
                pvalue_le.pair(),
            ) && (rle_t(adj_m@[t].pair(), adj_le.pair()) || rle_t(
                adj_r@[t].pair(),
                adj_le.pair(),
            )) implies #[trigger] contains_pair(out@, t) by {
            assert(contains_pair(scores@, t));
            let i = choose|i: int|
                0 <= i < scores@.len() && (#[trigger] scores@[i]).index as int == t;
            assert(rle_t(adj_m@[(scores@[i as int]).index as int].pair(), adj_le.pair()) || rle_t(
                adj_r@[(scores@[i as int]).index as int].pair(),
                adj_le.pair(),
            ));
        }
    }
    out
}

/// Compares the mimicker p-values of two rows.
fn pair_pv_le_at(v: &Vec<PairScored>, p: usize, i: usize) -> (r: bool)
    requires
        p < v@.len(),
        i < v@.len(),
    ensures
        r == rle_t(v@[p as int].pvalue_mimic.pair(), v@[i as int].pvalue_mimic.pair()),
{
    v[p].pvalue_mimic.le(&v[i].pvalue_mimic)
}

/// Moving one element of a sequence to an earlier position keeps exactly
/// the same element values.
proof fn lemma_pair_move_preserves(s1: Seq<PairScored>, s2: Seq<PairScored>, i: int, p: int)
    requires
        0 <= i < s1.len(),
        0 <= p <= i,
        s2 == s1.remove(i).insert(p, s1[i]),
    ensures
        s2.len() == s1.len(),
        forall|x: PairView| has_pair_elem(s1, x) <==> has_pair_elem(s2, x),
{
    s1.remove_ensures(i);
    s1.remove(i).insert_ensures(p, s1[i]);
    assert(s2.len() == s1.len());
    assert forall|x: PairView| has_pair_elem(s1, x) implies has_pair_elem(s2, x) by {
        let j = choose|j: int| 0 <= j < s1.len() && pv(#[trigger] s1[j]) == x;
        if j == i {
            assert(pv(s2[p]) == x);
        } else if j < i {
            assert(s1.remove(i)[j] == s1[j]);
            if j < p {
                assert(s2[j] == s1.remove(i)[j]);
                assert(pv(s2[j]) == x);
            } else {
                assert(s2[j + 1] == s1.remove(i)[j]);
                assert(pv(s2[j + 1]) == x);
            }
        } else {
            assert(s1.remove(i)[j - 1] == s1[j]);
            assert(s2[j] == s1.remove(i)[j - 1]);
            assert(pv(s2[j]) == x);
        }
    }
    assert forall|x: PairView| has_pair_elem(s2, x) implies has_pair_elem(s1, x) by {
        let j = choose|j: int| 0 <= j < s2.len() && pv(#[trigger] s2[j]) == x;
        if j == p {
            assert(pv(s1[i]) == x);
        } else if j < p {
            assert(s2[j] == s1.remove(i)[j]);
            assert(pv(s1[j]) == x);
        } else {
            assert(s2[j] == s1.remove(i)[j - 1]);
            if j - 1 < i {
                assert(pv(s1[j - 1]) == x);
            } else {
                assert(pv(s1[j]) == x);
            }
        }
    }
}

/// Sorts the rows ascending by mimicker p-value (stable), preserving
/// exactly the element values.
#[verifier::rlimit(100)]
#[verifier::spinoff_prover]
pub fn sort_pairs_by_pvalue(v: &mut Vec<PairScored>)
    requires
        forall|j: int| 0 <= j < old(v)@.len() ==> (#[trigger] old(v)@[j]).pvalue_mimic.wf(),
    ensures
        final (v)@.len() == old(v)@.len(),
        final (v)@.to_multiset() == old(v)@.to_multiset(),
        forall|i1: int, i2: int|
            0 <= i1 < i2 < final (v)@.len() ==> rle_t(
                final (v)@[i1].pvalue_mimic.pair(),
                final (v)@[i2].pvalue_mimic.pair(),
            ),
        forall|i: int|
            0 <= i < final (v)@.len() ==> has_pair_elem(old(v)@, pv(#[trigger] final (v)@[i])),
        forall|j: int|
            0 <= j < old(v)@.len() ==> has_pair_elem(final (v)@, pv(#[trigger] old(v)@[j])),
{
    let mut i: usize = 1;
    proof {
        assert forall|j: int| 0 <= j < v@.len() implies has_pair_elem(
            v@,
            pv(#[trigger] v@[j]),
        ) by {
            assert(pv(v@[j]) == pv(v@[j]));
        }
    }
    while i < v.len()
        invariant
            1 <= i <= v@.len() || v@.len() == 0,
            v@.len() == old(v)@.len(),
            v@.to_multiset() == old(v)@.to_multiset(),
            forall|j: int| 0 <= j < v@.len() ==> (#[trigger] v@[j]).pvalue_mimic.wf(),
            forall|i1: int, i2: int|
                0 <= i1 < i2 < i ==> rle_t(v@[i1].pvalue_mimic.pair(), v@[i2].pvalue_mimic.pair()),
            forall|t: int| 0 <= t < v@.len() ==> has_pair_elem(old(v)@, pv(#[trigger] v@[t])),
            forall|j: int| 0 <= j < old(v)@.len() ==> has_pair_elem(v@, pv(#[trigger] old(v)@[j])),
        decreases v@.len() - i,
    {
        let mut p: usize = 0;
        while p < i && pair_pv_le_at(v, p, i)
            invariant
                p <= i < v@.len(),
                forall|t: int|
                    0 <= t < p ==> rle_t(
                        v@[t].pvalue_mimic.pair(),
                        v@[i as int].pvalue_mimic.pair(),
                    ),
            decreases i - p,
        {
            p = p + 1;
        }
        let ghost s1 = v@;
        if p < i {
            let x = v.remove(i);
            v.insert(p, x);
            proof {
                assert(v@ =~= s1.remove(i as int).insert(p as int, s1[i as int]));
                lemma_pair_move_preserves(s1, v@, i as int, p as int);
                crate::bits::lemma_move_to_multiset(s1, v@, i as int, p as int);
                s1.remove_ensures(i as int);
                s1.remove(i as int).insert_ensures(p as int, s1[i as int]);
                assert(!rle_t(s1[p as int].pvalue_mimic.pair(), s1[i as int].pvalue_mimic.pair()));
                crate::ratio::lemma_rle_total(
                    s1[p as int].pvalue_mimic.n(),
                    s1[p as int].pvalue_mimic.d(),
                    s1[i as int].pvalue_mimic.n(),
                    s1[i as int].pvalue_mimic.d(),
                );
                assert forall|i1: int, i2: int| 0 <= i1 < i2 < i + 1 implies rle_t(
                    v@[i1].pvalue_mimic.pair(),
                    v@[i2].pvalue_mimic.pair(),
                ) by {
                    if i1 < p && i2 < p {
                        assert(v@[i1] == s1[i1] && v@[i2] == s1[i2]);
                    } else if i1 < p && i2 == p {
                        assert(v@[i1] == s1[i1] && v@[i2] == s1[i as int]);
                    } else if i1 < p && i2 > p {
                        assert(v@[i1] == s1[i1] && v@[i2] == s1[i2 - 1]);
                    } else if i1 == p && i2 > p {
                        assert(v@[i1] == s1[i as int] && v@[i2] == s1[i2 - 1]);
                        crate::bh::lemma_rle_t_trans(
                            s1[i as int].pvalue_mimic.pair(),
                            s1[p as int].pvalue_mimic.pair(),
                            s1[i2 - 1].pvalue_mimic.pair(),
                        );
                    } else {
                        assert(v@[i1] == s1[i1 - 1] && v@[i2] == s1[i2 - 1]);
                    }
                }
                assert forall|t: int| 0 <= t < v@.len() implies has_pair_elem(
                    old(v)@,
                    pv(#[trigger] v@[t]),
                ) by {
                    assert(has_pair_elem(s1, pv(v@[t])));
                    let j2 = choose|j2: int| 0 <= j2 < s1.len() && pv(#[trigger] s1[j2]) == pv(
                        v@[t],
                    );
                    assert(has_pair_elem(old(v)@, pv(s1[j2])));
                }
                assert forall|j: int| 0 <= j < old(v)@.len() implies has_pair_elem(
                    v@,
                    pv(#[trigger] old(v)@[j]),
                ) by {
                    assert(has_pair_elem(s1, pv(old(v)@[j])));
                }
            }
        } else {
            proof {
                assert forall|i1: int, i2: int| 0 <= i1 < i2 < i + 1 implies rle_t(
                    v@[i1].pvalue_mimic.pair(),
                    v@[i2].pvalue_mimic.pair(),
                ) by {
                    if i2 == i as int {
                        assert(rle_t(
                            v@[i1].pvalue_mimic.pair(),
                            v@[i as int].pvalue_mimic.pair(),
                        ));
                    }
                }
            }
        }
        i = i + 1;
    }
}


/// A multiset-preserving rearrangement keeps pair positions pairwise
/// distinct.
pub proof fn lemma_distinct_pair_index_kept(s1: Seq<PairScored>, s2: Seq<PairScored>)
    requires
        s2.to_multiset() == s1.to_multiset(),
        forall|i1: int, i2: int| 0 <= i1 < i2 < s1.len() ==> s1[i1].index != s1[i2].index,
    ensures
        forall|i1: int, i2: int| 0 <= i1 < i2 < s2.len() ==> s2[i1].index != s2[i2].index,
{
    broadcast use vstd::seq_lib::group_to_multiset_ensures;
    broadcast use vstd::multiset::group_multiset_axioms;

    assert forall|q1: int, q2: int| 0 <= q1 < q2 < s2.len() implies s2[q1].index
        != s2[q2].index by {
        if s2[q1].index == s2[q2].index {
            if s2[q1] == s2[q2] {
                crate::bits::lemma_eq_positions_count2(s2, q1, q2);
                crate::bits::lemma_count2_eq_positions(s1, s2[q1]);
                let (p1, p2) = choose|p1: int, p2: int|
                    0 <= p1 < p2 < s1.len() && #[trigger] s1[p1] == s2[q1] && #[trigger] s1[p2]
                        == s2[q1];
                assert(s1[p1].index == s1[p2].index);
                assert(false);
            } else {
                assert(s2.contains(s2[q1]));
                assert(s1.to_multiset().count(s2[q1]) > 0);
                assert(s1.contains(s2[q1]));
                let p1 = choose|p1: int| 0 <= p1 < s1.len() && s1[p1] == s2[q1];
                assert(s2.contains(s2[q2]));
                assert(s1.to_multiset().count(s2[q2]) > 0);
                assert(s1.contains(s2[q2]));
                let p2 = choose|p2: int| 0 <= p2 < s1.len() && s1[p2] == s2[q2];
                assert(p1 != p2);
                if p1 < p2 {
                    assert(s1[p1].index != s1[p2].index);
                } else {
                    assert(s1[p2].index != s1[p1].index);
                }
                assert(false);
            }
        }
    }
}

/// Every position of a paired full p-value vector has a positive
/// denominator.
pub proof fn lemma_pair_pv_full_dens(
    ix: BackgroundIndex,
    up: DenseBitVec,
    down: DenseBitVec,
    overlap_ge: int,
    pvalue_le: (nat, nat),
    mimic: bool,
)
    ensures
        forall|t: int|
            0 <= t < pair_pv_full(ix, up, down, overlap_ge, pvalue_le, mimic).len() ==> (
            #[trigger] pair_pv_full(ix, up, down, overlap_ge, pvalue_le, mimic)[t]).1 > 0,
{
    assert forall|t: int|
        0 <= t < pair_pv_full(ix, up, down, overlap_ge, pvalue_le, mimic).len() implies (
    #[trigger] pair_pv_full(ix, up, down, overlap_ge, pvalue_le, mimic)[t]).1 > 0 by {
        if pair_survives(ix, up, down, t, overlap_ge, pvalue_le) {
            let a = if mimic {
                mim_ov(ix, up, down, t)
            } else {
                rev_ov(ix, up, down, t)
            };
            let (ca, cb, cc, cd) = pair_cells(ix, up, down, t, a);
            crate::fisher::lemma_binom_pos((ca + cb + cc + cd) as nat, (ca + cc) as nat);
        }
    }
}

/// The paired pipeline up to ranking: score every signature pair against
/// both input directions, correct both full p-value vectors
/// independently, keep the pairs whose adjusted value clears the ceiling
/// on either side, and sort ascending by raw mimicker p-value.
pub fn compute_pair_enrichment(
    ix: &BackgroundIndex,
    table: &mut FactTable,
    up: &DenseBitVec,
    down: &DenseBitVec,
    overlap_ge: usize,
    pvalue_le: &Ratio,
    adj_pvalue_le: &Ratio,
) -> (r: Vec<PairScored>)
    requires
        ix.wf(),
        old(table).wf(),
        up.wf(),
        down.wf(),
        up.v@.len() == ix.genes@.len(),
        down.v@.len() == ix.genes@.len(),
        pvalue_le.wf(),
        adj_pvalue_le.wf(),
    ensures
        final (table).wf(),
        final (table).facts@.len() >= old(table).facts@.len(),
        forall|i: int|
            0 <= i < r@.len() ==> result_pair_ok(
                *ix,
                *up,
                *down,
                overlap_ge as int,
                pvalue_le.pair(),
                adj_pvalue_le.pair(),
                #[trigger] r@[i],
            ),
        forall|i1: int, i2: int|
            0 <= i1 < i2 < r@.len() ==> rle_t(
                r@[i1].pvalue_mimic.pair(),
                r@[i2].pvalue_mimic.pair(),
            ),
        forall|i1: int, i2: int| 0 <= i1 < i2 < r@.len() ==> r@[i1].index != r@[i2].index,
        forall|t: int, vm: (nat, nat), vr: (nat, nat)|
            0 <= t < ix.pairs@.len() && pair_survives(
                *ix,
                *up,
                *down,
                t,
                overlap_ge as int,
                pvalue_le.pair(),
            ) && #[trigger] bh::bh_pinned(
                pair_pv_full(*ix, *up, *down, overlap_ge as int, pvalue_le.pair(), true),
                t,
                vm,
            ) && #[trigger] bh::bh_pinned(
                pair_pv_full(*ix, *up, *down, overlap_ge as int, pvalue_le.pair(), false),
                t,
                vr,
            ) && vm.1 > 0 && vr.1 > 0 && (rle_t(vm, adj_pvalue_le.pair()) || rle_t(
                vr,
                adj_pvalue_le.pair(),
            )) ==> contains_pair(r@, t),
{
    let ghost psm = pair_pv_full(*ix, *up, *down, overlap_ge as int, pvalue_le.pair(), true);
    let ghost psr = pair_pv_full(*ix, *up, *down, overlap_ge as int, pvalue_le.pair(), false);
    let scores = score_pairs(ix, table, up, down, overlap_ge, pvalue_le);
    let pvm = pair_full_pvector(ix, up, down, &scores, overlap_ge, pvalue_le, true);
    let pvr = pair_full_pvector(ix, up, down, &scores, overlap_ge, pvalue_le, false);
    let adj_m = bh::adjust(&pvm);
    let adj_r = bh::adjust(&pvr);
    let mut out = apply_pair_adjustment(
        ix,
        up,
        down,
        &scores,
        &adj_m,
        &adj_r,
        adj_pvalue_le,
        overlap_ge,
        pvalue_le,
    );
    let ghost pre_sort = out@;
    proof {
        assert(bh::pairs_of(pvm@) == psm);
        assert(bh::pairs_of(pvr@) == psr);
    }
    sort_pairs_by_pvalue(&mut out);
    proof {
        lemma_distinct_pair_index_kept(pre_sort, out@);
        lemma_pair_pv_full_dens(
            *ix,
            *up,
            *down,
            overlap_ge as int,
            pvalue_le.pair(),
            true,
        );
        lemma_pair_pv_full_dens(
            *ix,
            *up,
            *down,
            overlap_ge as int,
            pvalue_le.pair(),
            false,
        );
        assert forall|i: int| 0 <= i < out@.len() implies result_pair_ok(
            *ix,
            *up,
            *down,
            overlap_ge as int,
            pvalue_le.pair(),
            adj_pvalue_le.pair(),
            #[trigger] out@[i],
        ) by {
            assert(has_pair_elem(pre_sort, pv(out@[i])));
            let j = choose|j: int| 0 <= j < pre_sort.len() && pv(#[trigger] pre_sort[j]) == pv(
                out@[i],
            );
            assert(result_pair_ok(
                *ix,
                *up,
                *down,
                overlap_ge as int,
                pvalue_le.pair(),
                adj_pvalue_le.pair(),
                pre_sort[j],
            ));
        }
        assert forall|t: int, vm: (nat, nat), vr: (nat, nat)|
            0 <= t < ix.pairs@.len() && pair_survives(
                *ix,
                *up,
                *down,
                t,
                overlap_ge as int,
                pvalue_le.pair(),
            ) && #[trigger] bh::bh_pinned(psm, t, vm) && #[trigger] bh::bh_pinned(psr, t, vr)
            && vm.1 > 0 && vr.1 > 0 && (rle_t(vm, adj_pvalue_le.pair()) || rle_t(
            vr,
            adj_pvalue_le.pair(),
        )) implies contains_pair(out@, t) by {
            assert(bh::bh_pinned(psm, t, adj_m@[t].pair()));
            assert(bh::bh_pinned(psr, t, adj_r@[t].pair()));
            bh::lemma_bh_pinned_unique(psm, t, adj_m@[t].pair(), vm);
            bh::lemma_bh_pinned_unique(psr, t, adj_r@[t].pair(), vr);
            if rle_t(vm, adj_pvalue_le.pair()) {
                crate::bh::lemma_rle_t_trans(adj_m@[t].pair(), vm, adj_pvalue_le.pair());
            } else {
                crate::bh::lemma_rle_t_trans(adj_r@[t].pair(), vr, adj_pvalue_le.pair());
            }
            assert(contains_pair(pre_sort, t));
            let i = choose|i: int|
                0 <= i < pre_sort.len() && (#[trigger] pre_sort[i]).index as int == t;
            assert(has_pair_elem(out@, pv(pre_sort[i])));
            let i2 = choose|i2: int| 0 <= i2 < out@.len() && pv(#[trigger] out@[i2]) == pv(
                pre_sort[i],
            );
            assert(out@[i2].index as int == t);
        }
    }
    out
}

} // verus!
