//! The single-set enrichment pipeline: bitset intersection, exact test,
//! multiple-testing correction, threshold filtering, and ranking by raw
//! p-value.

use vstd::prelude::*;
use crate::bits::{
    DenseBitVec, compute_overlap, count_true, lemma_overlap_bounds, lemma_sparse_overlap_eq,
    lemma_union_bound, overlap_count,
};
use crate::catalog::BackgroundIndex;
use crate::fisher::{FactTable, p_value, pvalue_den, pvalue_num};
use crate::ratio::{Ratio, clamp1, req_t, rle_t};
use crate::bh;

verus! {

/// The occupancy of catalog entry `k` over the background's columns.
pub open spec fn entry_occ(ix: BackgroundIndex, k: int) -> Seq<bool> {
    ix.entries@[k].genes.occupancy(ix.genes@.len() as nat)
}

/// The overlap of the query input with catalog entry `k`.
pub open spec fn ov(ix: BackgroundIndex, input: DenseBitVec, k: int) -> int {
    overlap_count(input.v@, entry_occ(ix, k))
}

/// The 2x2 contingency table of entry `k`:
/// `(a, b, c, d) = (overlap, |input| - a, |entry| - a, |background| - b - c + a)`.
pub open spec fn cells(ix: BackgroundIndex, input: DenseBitVec, k: int) -> (nat, nat, nat, nat) {
    let n = ix.genes@.len() as int;
    let a = ov(ix, input, k);
    let ni = count_true(input.v@);
    let ne = ix.entries@[k].genes.v@.len() as int;
    (a as nat, (ni - a) as nat, (ne - a) as nat, (n - (ni - a) - (ne - a) + a) as nat)
}

/// The exact-test p-value of entry `k`, clamped at one.
pub open spec fn entry_p(ix: BackgroundIndex, input: DenseBitVec, k: int) -> (nat, nat) {
    let (a, b, c, d) = cells(ix, input, k);
    clamp1((pvalue_num(a, b, c, d), pvalue_den(a, b, c, d)))
}

/// The odds ratio of entry `k`:
/// `(overlap / |input|) / (|entry| / |background|)`, as an exact pair, or
/// `None` when the entry is empty (a zero denominator).
pub open spec fn entry_odds(ix: BackgroundIndex, input: DenseBitVec, k: int) -> Option<(u64, u64)> {
    let n = ix.genes@.len() as int;
    let a = ov(ix, input, k);
    let ni = count_true(input.v@);
    let ne = ix.entries@[k].genes.v@.len() as int;
    if ni * ne > 0 {
        Some(((a * n) as u64, (ni * ne) as u64))
    } else {
        None
    }
}

/// Entry `k` passes the overlap floor and the raw p-value ceiling.
pub open spec fn survives(
    ix: BackgroundIndex,
    input: DenseBitVec,
    k: int,
    overlap_ge: int,
    pvalue_le: (nat, nat),
) -> bool {
    ov(ix, input, k) >= overlap_ge && rle_t(entry_p(ix, input, k), pvalue_le)
}

/// The full-length p-value vector fed to the correction: the entry's
/// p-value for survivors, one for everything else.
pub open spec fn pv_full(
    ix: BackgroundIndex,
    input: DenseBitVec,
    overlap_ge: int,
    pvalue_le: (nat, nat),
) -> Seq<(nat, nat)> {
    Seq::new(
        ix.entries@.len(),
        |k: int|
            if survives(ix, input, k, overlap_ge, pvalue_le) {
                entry_p(ix, input, k)
            } else {
                (1nat, 1nat)
            },
    )
}

/// One scored catalog entry of a query result.
pub struct ScoredEntry {
    pub index: usize,
    pub n_overlap: usize,
    pub odds: Option<(u64, u64)>,
    pub pvalue: Ratio,
    pub adj_pvalue: Ratio,
}

/// The mathematical value of a scored entry.
#[verifier::ext_equal]
pub struct ScoredView {
    pub index: int,
    pub n_overlap: int,
    pub odds: Option<(u64, u64)>,
    pub pvalue: (nat, nat),
    pub adj_pvalue: (nat, nat),
}

/// The value of a scored entry.
pub open spec fn sv(e: ScoredEntry) -> ScoredView {
    ScoredView {
        index: e.index as int,
        n_overlap: e.n_overlap as int,
        odds: e.odds,
        pvalue: e.pvalue.pair(),
        adj_pvalue: e.adj_pvalue.pair(),
    }
}

/// The scored fields of `e` are exactly those of catalog entry
/// `e.index` for this query.
pub open spec fn scored_ok(ix: BackgroundIndex, input: DenseBitVec, e: ScoredEntry) -> bool {
    &&& (e.index as int) < ix.entries@.len()
    &&& e.n_overlap as int == ov(ix, input, e.index as int)
    &&& e.pvalue.wf()
    &&& e.pvalue.pair() == entry_p(ix, input, e.index as int)
    &&& e.odds == entry_odds(ix, input, e.index as int)
    &&& e.adj_pvalue.wf()
}

/// Some element of `s` scores catalog entry `k`.
pub open spec fn contains_index(s: Seq<ScoredEntry>, k: int) -> bool {
    exists|i: int| 0 <= i < s.len() && (#[trigger] s[i]).index as int == k
}

/// Some element of `s` has the value `x`.
pub open spec fn has_elem(s: Seq<ScoredEntry>, x: ScoredView) -> bool {
    exists|j: int| 0 <= j < s.len() && sv(#[trigger] s[j]) == x
}

/// Scores every catalog entry against the input bitvector: for each entry
/// passing the overlap floor and the raw p-value ceiling, its exact
/// overlap, odds ratio and exact-test p-value, in catalog order. The
/// adjusted p-value field is a placeholder one.
pub fn score_entries(
    ix: &BackgroundIndex,
    table: &mut FactTable,
    input: &DenseBitVec,
    overlap_ge: usize,
    pvalue_le: &Ratio,
) -> (r: Vec<ScoredEntry>)
    requires
        ix.wf(),
        old(table).wf(),
        input.wf(),
        input.v@.len() == ix.genes@.len(),
    ensures
        final (table).wf(),
        final (table).facts@.len() >= old(table).facts@.len(),
        forall|i: int|
            0 <= i < r@.len() ==> scored_ok(*ix, *input, #[trigger] r@[i]) && survives(
                *ix,
                *input,
                r@[i].index as int,
                overlap_ge as int,
                pvalue_le.pair(),
            ) && req_t(r@[i].adj_pvalue.pair(), (1nat, 1nat)),
        forall|i1: int, i2: int| 0 <= i1 < i2 < r@.len() ==> r@[i1].index < r@[i2].index,
        forall|k: int|
            0 <= k < ix.entries@.len() && survives(
                *ix,
                *input,
                k,
                overlap_ge as int,
                pvalue_le.pair(),
            ) ==> #[trigger] contains_index(r@, k),
{
    let ncols = ix.genes.len();
    table.extend_to(3 * ncols);
    let mut r: Vec<ScoredEntry> = Vec::new();
    let mut k: usize = 0;
    while k < ix.entries.len()
        invariant
            k <= ix.entries@.len(),
            ix.wf(),
            table.wf(),
            input.wf(),
            input.v@.len() == ix.genes@.len(),
            ncols == ix.genes@.len(),
            table.covers(3 * ncols as int),
            forall|i: int|
                0 <= i < r@.len() ==> scored_ok(*ix, *input, #[trigger] r@[i]) && survives(
                    *ix,
                    *input,
                    r@[i].index as int,
                    overlap_ge as int,
                    pvalue_le.pair(),
                ) && req_t(r@[i].adj_pvalue.pair(), (1nat, 1nat)),
            forall|i: int| 0 <= i < r@.len() ==> (#[trigger] r@[i]).index < k,
            forall|i1: int, i2: int| 0 <= i1 < i2 < r@.len() ==> r@[i1].index < r@[i2].index,
            forall|t: int|
                0 <= t < k && survives(
                    *ix,
                    *input,
                    t,
                    overlap_ge as int,
                    pvalue_le.pair(),
                ) ==> #[trigger] contains_index(r@, t),
        decreases ix.entries@.len() - k,
    {
        let ghost occ = entry_occ(*ix, k as int);
        proof {
            lemma_sparse_overlap_eq(input.v@, ix.entries@[k as int].genes.v@);
            lemma_overlap_bounds(input.v@, occ);
            lemma_union_bound(input.v@, occ);
        }
        let a = compute_overlap(input, &ix.entries[k].genes);
        let ghost old_r = r@;
        if a >= overlap_ge {
            let ne = ix.entries[k].genes.v.len();
            let ni = input.n;
            let b = ni - a;
            let c = ne - a;
            let d = ncols + a - b - c;
            proof {
                assert(cells(*ix, *input, k as int) == (
                    a as nat,
                    b as nat,
                    c as nat,
                    d as nat,
                ));
                assert(a + b + c + d <= 3 * ncols);
            }
            let p = p_value(table, a, b, c, d);
            let pc = p.min_one();
            if pc.le(pvalue_le) {
                proof {
                    crate::bits::lemma_count_true_bounds(input.v@, input.v@.len() as int);
                    assert(ni <= ncols && ne <= ncols && a <= ne && ncols <= 65536);
                    assert((a as int) * (ncols as int) <= 65536 * 65536) by (nonlinear_arith)
                        requires
                            0 <= a <= 65536,
                            0 <= ncols <= 65536,
                    ;
                    assert((ni as int) * (ne as int) <= 65536 * 65536) by (nonlinear_arith)
                        requires
                            0 <= ni <= 65536,
                            0 <= ne <= 65536,
                    ;
                }
                let odds: Option<(u64, u64)> = if ni > 0 && ne > 0 {
                    Some((((a as u64) * (ncols as u64)), ((ni as u64) * (ne as u64))))
                } else {
                    None
                };
                proof {
                    assert(((ni as int) * (ne as int) > 0) == (ni > 0 && ne > 0)) by (
                    nonlinear_arith);
                }
                let e = ScoredEntry {
                    index: k,
                    n_overlap: a,
                    odds,
                    pvalue: pc,
                    adj_pvalue: Ratio::one(),
                };
                proof {
                    assert(e.pvalue.pair() == entry_p(*ix, *input, k as int));
                    assert(e.odds == entry_odds(*ix, *input, k as int));
                    assert(scored_ok(*ix, *input, e));
                }
                r.push(e);
                proof {
                    assert forall|t: int|
                        0 <= t < k + 1 && survives(
                            *ix,
                            *input,
                            t,
                            overlap_ge as int,
                            pvalue_le.pair(),
                        ) implies #[trigger] contains_index(r@, t) by {
                        if t < k as int {
                            assert(contains_index(old_r, t));
                            let i = choose|i: int|
                                0 <= i < old_r.len() && (#[trigger] old_r[i]).index as int == t;
                            assert(r@[i].index as int == t);
                        } else {
                            assert(r@[old_r.len() as int].index as int == t);
                        }
                    }
                }
            } else {
                proof {
                    assert(!survives(*ix, *input, k as int, overlap_ge as int, pvalue_le.pair()));
                }
            }
        } else {
            proof {
                assert(!survives(*ix, *input, k as int, overlap_ge as int, pvalue_le.pair()));
            }
        }
        proof {
            assert forall|t: int|
                0 <= t < k + 1 && survives(
                    *ix,
                    *input,
                    t,
                    overlap_ge as int,
                    pvalue_le.pair(),
                ) implies #[trigger] contains_index(r@, t) by {
                if t < k as int || r@.len() > old_r.len() {
                } else {
                    assert(!survives(*ix, *input, k as int, overlap_ge as int, pvalue_le.pair()));
                }
            }
        }
        k = k + 1;
    }
    r
}

/// Builds the full-length p-value vector: the scored p-value at each
/// surviving entry's position, one everywhere else.
pub fn full_pvector(ix: &BackgroundIndex, input: &DenseBitVec, scores: &Vec<ScoredEntry>, overlap_ge: usize, pvalue_le: &Ratio) -> (pv: Vec<Ratio>)
    requires
        ix.wf(),
        forall|i: int|
            0 <= i < scores@.len() ==> scored_ok(*ix, *input, #[trigger] scores@[i]) && survives(
                *ix,
                *input,
                scores@[i].index as int,
                overlap_ge as int,
                pvalue_le.pair(),
            ),
        forall|i1: int, i2: int|
            0 <= i1 < i2 < scores@.len() ==> scores@[i1].index < scores@[i2].index,
        forall|k: int|
            0 <= k < ix.entries@.len() && survives(
                *ix,
                *input,
                k,
                overlap_ge as int,
                pvalue_le.pair(),
            ) ==> #[trigger] contains_index(scores@, k),
    ensures
        pv@.len() == ix.entries@.len(),
        bh::all_wf_le_one(pv@),
        bh::pairs_of(pv@) == pv_full(*ix, *input, overlap_ge as int, pvalue_le.pair()),
{
    let ghost target = pv_full(*ix, *input, overlap_ge as int, pvalue_le.pair());
    let mut pv: Vec<Ratio> = Vec::new();
    let mut k: usize = 0;
    while k < ix.entries.len()
        invariant
            k <= ix.entries@.len(),
            pv@.len() == k,
            forall|t: int|
                0 <= t < k ==> (#[trigger] pv@[t]).wf() && pv@[t].pair() == (1nat, 1nat),
        decreases ix.entries@.len() - k,
    {
        pv.push(Ratio::one());
        k = k + 1;
    }
    let mut j: usize = 0;
    while j < scores.len()
        invariant
            j <= scores@.len(),
            ix.wf(),
            pv@.len() == ix.entries@.len(),
            forall|i: int|
                0 <= i < scores@.len() ==> scored_ok(*ix, *input, #[trigger] scores@[i])
                    && survives(
                    *ix,
                    *input,
                    scores@[i].index as int,
                    overlap_ge as int,
                    pvalue_le.pair(),
                ),
            forall|i1: int, i2: int|
                0 <= i1 < i2 < scores@.len() ==> scores@[i1].index < scores@[i2].index,
            forall|t: int| 0 <= t < pv@.len() ==> (#[trigger] pv@[t]).wf(),
            forall|t: int|
                0 <= t < pv@.len() ==> #[trigger] pv@[t].pair() == (if exists|i: int|
                    0 <= i < j && (#[trigger] scores@[i]).index as int == t {
                    entry_p(*ix, *input, t)
                } else {
                    (1nat, 1nat)
                }),
        decreases scores@.len() - j,
    {
        let idx = scores[j].index;
        let val = scores[j].pvalue.clone_val();
        let ghost old_pv = pv@;
        pv.set(idx, val);
        proof {
            assert(scored_ok(*ix, *input, scores@[j as int]));
            assert forall|t: int| 0 <= t < pv@.len() implies #[trigger] pv@[t].pair() == (
            if exists|i: int| 0 <= i < j + 1 && (#[trigger] scores@[i]).index as int == t {
                entry_p(*ix, *input, t)
            } else {
                (1nat, 1nat)
            }) by {
                if t == idx as int {
                    assert(scores@[j as int].index as int == t);
                } else {
                    assert(pv@[t] == old_pv[t]);
                    if exists|i: int| 0 <= i < j + 1 && (#[trigger] scores@[i]).index as int
                        == t {
                        let i = choose|i: int|
                            0 <= i < j + 1 && (#[trigger] scores@[i]).index as int == t;
                        assert(i < j);
                        assert(exists|i2: int|
                            0 <= i2 < j && (#[trigger] scores@[i2]).index as int == t);
                    }
                }
            }
        }
        j = j + 1;
    }
    proof {
        assert forall|t: int| 0 <= t < pv@.len() implies #[trigger] pv@[t].pair()
            == target[t] by {
            if survives(*ix, *input, t, overlap_ge as int, pvalue_le.pair()) {
                assert(contains_index(scores@, t));
                let i = choose|i: int|
                    0 <= i < scores@.len() && (#[trigger] scores@[i]).index as int == t;
                assert(exists|i2: int|
                    0 <= i2 < scores@.len() && (#[trigger] scores@[i2]).index as int == t);
            } else {
                if exists|i: int|
                    0 <= i < scores@.len() && (#[trigger] scores@[i]).index as int == t {
                    let i = choose|i: int|
                        0 <= i < scores@.len() && (#[trigger] scores@[i]).index as int == t;
                    assert(survives(
                        *ix,
                        *input,
                        t,
                        overlap_ge as int,
                        pvalue_le.pair(),
                    ));
                    assert(false);
                }
            }
        }
        assert(bh::pairs_of(pv@) =~= target);
        assert forall|t: int| 0 <= t < pv@.len() implies (#[trigger] pv@[t]).wf() && rle_t(
            pv@[t].pair(),
            (1nat, 1nat),
        ) by {
            assert(pv@[t].pair() == target[t]);
        }
    }
    pv
}


/// The element is a fully adjusted, threshold-passing result row of this
/// query: exact scored fields, survival of the raw thresholds, the exact
/// Benjamini-Hochberg adjusted value of its position, and passage of the
/// adjusted ceiling.
pub open spec fn result_entry_ok(
    ix: BackgroundIndex,
    input: DenseBitVec,
    overlap_ge: int,
    pvalue_le: (nat, nat),
    adj_le: (nat, nat),
    e: ScoredEntry,
) -> bool {
    &&& scored_ok(ix, input, e)
    &&& survives(ix, input, e.index as int, overlap_ge, pvalue_le)
    &&& bh::bh_pinned(pv_full(ix, input, overlap_ge, pvalue_le), e.index as int, e.adj_pvalue.pair())
    &&& rle_t(e.adj_pvalue.pair(), adj_le)
}

/// Attaches each survivor's adjusted p-value and drops the survivors
/// whose adjusted value exceeds the ceiling.
pub fn apply_adjustment(
    ix: &BackgroundIndex,
    input: &DenseBitVec,
    scores: &Vec<ScoredEntry>,
    adj: &Vec<Ratio>,
    adj_le: &Ratio,
    overlap_ge: usize,
    pvalue_le: &Ratio,
) -> (out: Vec<ScoredEntry>)
    requires
        ix.wf(),
        forall|i: int|
            0 <= i < scores@.len() ==> scored_ok(*ix, *input, #[trigger] scores@[i]) && survives(
                *ix,
                *input,
                scores@[i].index as int,
                overlap_ge as int,
                pvalue_le.pair(),
            ),
        forall|i1: int, i2: int|
            0 <= i1 < i2 < scores@.len() ==> scores@[i1].index < scores@[i2].index,
        forall|k: int|
            0 <= k < ix.entries@.len() && survives(
                *ix,
                *input,
                k,
                overlap_ge as int,
                pvalue_le.pair(),
            ) ==> #[trigger] contains_index(scores@, k),
        adj@.len() == ix.entries@.len(),
        forall|i: int| 0 <= i < adj@.len() ==> (#[trigger] adj@[i]).wf(),
        forall|i: int|
            0 <= i < adj@.len() ==> bh::bh_pinned(
                pv_full(*ix, *input, overlap_ge as int, pvalue_le.pair()),
                i,
                (#[trigger] adj@[i]).pair(),
            ),
    ensures
        forall|i: int|
            0 <= i < out@.len() ==> result_entry_ok(
                *ix,
                *input,
                overlap_ge as int,
                pvalue_le.pair(),
                adj_le.pair(),
                #[trigger] out@[i],
            ),
        forall|i1: int, i2: int| 0 <= i1 < i2 < out@.len() ==> out@[i1].index < out@[i2].index,
        forall|k: int|
            0 <= k < ix.entries@.len() && survives(
                *ix,
                *input,
                k,
                overlap_ge as int,
                pvalue_le.pair(),
            ) && rle_t(adj@[k].pair(), adj_le.pair()) ==> #[trigger] contains_index(out@, k),
{
    let mut out: Vec<ScoredEntry> = Vec::new();
    let mut j: usize = 0;
    while j < scores.len()
        invariant
            j <= scores@.len(),
            ix.wf(),
            forall|i: int|
                0 <= i < scores@.len() ==> scored_ok(*ix, *input, #[trigger] scores@[i])
                    && survives(
                    *ix,
                    *input,
                    scores@[i].index as int,
                    overlap_ge as int,
                    pvalue_le.pair(),
                ),
            forall|i1: int, i2: int|
                0 <= i1 < i2 < scores@.len() ==> scores@[i1].index < scores@[i2].index,
            adj@.len() == ix.entries@.len(),
            forall|i: int| 0 <= i < adj@.len() ==> (#[trigger] adj@[i]).wf(),
            forall|i: int|
                0 <= i < adj@.len() ==> bh::bh_pinned(
                    pv_full(*ix, *input, overlap_ge as int, pvalue_le.pair()),
                    i,
                    (#[trigger] adj@[i]).pair(),
                ),
            forall|i: int|
                0 <= i < out@.len() ==> result_entry_ok(
                    *ix,
                    *input,
                    overlap_ge as int,
                    pvalue_le.pair(),
                    adj_le.pair(),
                    #[trigger] out@[i],
                ),
            forall|i1: int, i2: int| 0 <= i1 < i2 < out@.len() ==> out@[i1].index < out@[i2].index,
            forall|i: int|
                0 <= i < out@.len() ==> exists|j2: int|
                    0 <= j2 < j && (#[trigger] out@[i]).index == scores@[j2].index,
            forall|j2: int|
                0 <= j2 < j && rle_t(
                    adj@[(#[trigger] scores@[j2]).index as int].pair(),
                    adj_le.pair(),
                ) ==> contains_index(out@, scores@[j2].index as int),
        decreases scores@.len() - j,
    {
        let idx = scores[j].index;
        let a = adj[idx].clone_val();
        let ghost old_out = out@;
        if a.le(adj_le) {
            let e2 = ScoredEntry {
                index: idx,
                n_overlap: scores[j].n_overlap,
                odds: scores[j].odds,
                pvalue: scores[j].pvalue.clone_val(),
                adj_pvalue: a,
            };
            proof {
                assert(scored_ok(*ix, *input, scores@[j as int]));
                assert(scored_ok(*ix, *input, e2));
                if out@.len() > 0 {
                    let last = out@.len() - 1;
                    let j2 = choose|j2: int|
                        0 <= j2 < j && (#[trigger] out@[last]).index == scores@[j2].index;
                    assert(scores@[j2].index < scores@[j as int].index);
                }
            }
            out.push(e2);
            proof {
                assert forall|j2: int|
                    0 <= j2 < j + 1 && rle_t(
                        adj@[(#[trigger] scores@[j2]).index as int].pair(),
                        adj_le.pair(),
                    ) implies contains_index(out@, scores@[j2].index as int) by {
                    if j2 < j {
                        assert(contains_index(old_out, scores@[j2].index as int));
                        let i = choose|i: int|
                            0 <= i < old_out.len() && (#[trigger] old_out[i]).index as int
                                == scores@[j2].index as int;
                        assert(out@[i].index as int == scores@[j2].index as int);
                    } else {
                        assert(out@[old_out.len() as int].index as int == scores@[j2].index as int);
                    }
                }
            }
        } else {
            proof {
                assert forall|j2: int|
                    0 <= j2 < j + 1 && rle_t(
                        adj@[(#[trigger] scores@[j2]).index as int].pair(),
                        adj_le.pair(),
                    ) implies contains_index(out@, scores@[j2].index as int) by {
                    if j2 == j {
                        assert(false);
                    }
                }
            }
        }
        j = j + 1;
    }
    proof {
        assert forall|k: int|
            0 <= k < ix.entries@.len() && survives(
                *ix,
                *input,
                k,
                overlap_ge as int,
                pvalue_le.pair(),
            ) && rle_t(adj@[k].pair(), adj_le.pair()) implies #[trigger] contains_index(
            out@,
            k,
        ) by {
            assert(contains_index(scores@, k));
            let i = choose|i: int|
                0 <= i < scores@.len() && (#[trigger] scores@[i]).index as int == k;
            assert(rle_t(adj@[(scores@[i as int]).index as int].pair(), adj_le.pair()));
        }
    }
    out
}

/// Compares the raw p-values of two rows.
fn pv_le_at(v: &Vec<ScoredEntry>, p: usize, i: usize) -> (r: bool)
    requires
        p < v@.len(),
        i < v@.len(),
    ensures
        r == rle_t(v@[p as int].pvalue.pair(), v@[i as int].pvalue.pair()),
{
    v[p].pvalue.le(&v[i].pvalue)
}

/// Moving one element of a sequence to an earlier position keeps exactly
/// the same element values.
proof fn lemma_move_preserves(s1: Seq<ScoredEntry>, s2: Seq<ScoredEntry>, i: int, p: int)
    requires
        0 <= i < s1.len(),
        0 <= p <= i,
        s2 == s1.remove(i).insert(p, s1[i]),
    ensures
        s2.len() == s1.len(),
        forall|x: ScoredView| has_elem(s1, x) <==> has_elem(s2, x),
{
    s1.remove_ensures(i);
    s1.remove(i).insert_ensures(p, s1[i]);
    assert(s2.len() == s1.len());
    assert forall|x: ScoredView| has_elem(s1, x) implies has_elem(s2, x) by {
        let j = choose|j: int| 0 <= j < s1.len() && sv(#[trigger] s1[j]) == x;
        if j == i {
            assert(sv(s2[p]) == x);
        } else if j < i {
            assert(s1.remove(i)[j] == s1[j]);
            if j < p {
                assert(s2[j] == s1.remove(i)[j]);
                assert(sv(s2[j]) == x);
            } else {
                assert(s2[j + 1] == s1.remove(i)[j]);
                assert(sv(s2[j + 1]) == x);
            }
        } else {
            assert(s1.remove(i)[j - 1] == s1[j]);
            assert(s2[j] == s1.remove(i)[j - 1]);
            assert(sv(s2[j]) == x);
        }
    }
    assert forall|x: ScoredView| has_elem(s2, x) implies has_elem(s1, x) by {
        let j = choose|j: int| 0 <= j < s2.len() && sv(#[trigger] s2[j]) == x;
        if j == p {
            assert(sv(s1[i]) == x);
        } else if j < p {
            assert(s2[j] == s1.remove(i)[j]);
            assert(sv(s1[j]) == x);
        } else {
            assert(s2[j] == s1.remove(i)[j - 1]);
            if j - 1 < i {
                assert(sv(s1[j - 1]) == x);
            } else {
                assert(sv(s1[j]) == x);
            }
        }
    }
}

/// Sorts the rows ascending by raw p-value (a stable insertion sort, so
/// ties keep their insertion order), preserving exactly the element
/// values.
pub fn sort_by_pvalue(v: &mut Vec<ScoredEntry>)
    requires
        forall|j: int| 0 <= j < old(v)@.len() ==> (#[trigger] old(v)@[j]).pvalue.wf(),
    ensures
        final (v)@.len() == old(v)@.len(),
        final (v)@.to_multiset() == old(v)@.to_multiset(),
        forall|i1: int, i2: int|
            0 <= i1 < i2 < final (v)@.len() ==> rle_t(
                final (v)@[i1].pvalue.pair(),
                final (v)@[i2].pvalue.pair(),
            ),
        forall|i: int| 0 <= i < final (v)@.len() ==> has_elem(old(v)@, sv(#[trigger] final (v)@[i])),
        forall|j: int| 0 <= j < old(v)@.len() ==> has_elem(final (v)@, sv(#[trigger] old(v)@[j])),
{
    let mut i: usize = 1;
    proof {
        assert forall|j: int| 0 <= j < v@.len() implies has_elem(v@, sv(#[trigger] v@[j])) by {
            assert(sv(v@[j]) == sv(v@[j]));
        }
    }
    while i < v.len()
        invariant
            1 <= i <= v@.len() || v@.len() == 0,
            v@.len() == old(v)@.len(),
            v@.to_multiset() == old(v)@.to_multiset(),
            forall|j: int| 0 <= j < v@.len() ==> (#[trigger] v@[j]).pvalue.wf(),
            forall|i1: int, i2: int|
                0 <= i1 < i2 < i ==> rle_t(v@[i1].pvalue.pair(), v@[i2].pvalue.pair()),
            forall|t: int| 0 <= t < v@.len() ==> has_elem(old(v)@, sv(#[trigger] v@[t])),
            forall|j: int| 0 <= j < old(v)@.len() ==> has_elem(v@, sv(#[trigger] old(v)@[j])),
        decreases v@.len() - i,
    {
        // find the stable insertion point of element i in the sorted prefix
        let mut p: usize = 0;
        while p < i && pv_le_at(v, p, i)
            invariant
                p <= i < v@.len(),
                forall|t: int| 0 <= t < p ==> rle_t(v@[t].pvalue.pair(), v@[i as int].pvalue.pair()),
            decreases i - p,
        {
            p = p + 1;
        }
        let ghost s1 = v@;
        if p < i {
            let x = v.remove(i);
            v.insert(p, x);
            proof {
                assert(v@ =~= s1.remove(i as int).insert(p as int, s1[i as int]));
                lemma_move_preserves(s1, v@, i as int, p as int);
                crate::bits::lemma_move_to_multiset(s1, v@, i as int, p as int);
                s1.remove_ensures(i as int);
                s1.remove(i as int).insert_ensures(p as int, s1[i as int]);
                // the prefix of length i + 1 is sorted again
                assert(!rle_t(s1[p as int].pvalue.pair(), s1[i as int].pvalue.pair()));
                crate::ratio::lemma_rle_total(
                    s1[p as int].pvalue.n(),
                    s1[p as int].pvalue.d(),
                    s1[i as int].pvalue.n(),
                    s1[i as int].pvalue.d(),
                );
                assert forall|i1: int, i2: int| 0 <= i1 < i2 < i + 1 implies rle_t(
                    v@[i1].pvalue.pair(),
                    v@[i2].pvalue.pair(),
                ) by {
                    if i1 < p && i2 < p {
                        assert(v@[i1] == s1[i1] && v@[i2] == s1[i2]);
                    } else if i1 < p && i2 == p {
                        assert(v@[i1] == s1[i1] && v@[i2] == s1[i as int]);
                    } else if i1 < p && i2 > p {
                        assert(v@[i1] == s1[i1] && v@[i2] == s1[i2 - 1]);
                    } else if i1 == p && i2 > p {
                        assert(v@[i1] == s1[i as int] && v@[i2] == s1[i2 - 1]);
                        // x <= s1[p] <= s1[i2 - 1]
                        crate::bh::lemma_rle_t_trans(
                            s1[i as int].pvalue.pair(),
                            s1[p as int].pvalue.pair(),
                            s1[i2 - 1].pvalue.pair(),
                        );
                    } else {
                        assert(v@[i1] == s1[i1 - 1] && v@[i2] == s1[i2 - 1]);
                    }
                }
                assert forall|t: int| 0 <= t < v@.len() implies has_elem(
                    old(v)@,
                    sv(#[trigger] v@[t]),
                ) by {
                    assert(has_elem(s1, sv(v@[t])));
                    let j2 = choose|j2: int| 0 <= j2 < s1.len() && sv(#[trigger] s1[j2]) == sv(
                        v@[t],
                    );
                    assert(has_elem(old(v)@, sv(s1[j2])));
                }
                assert forall|j: int| 0 <= j < old(v)@.len() implies has_elem(
                    v@,
                    sv(#[trigger] old(v)@[j]),
                ) by {
                    assert(has_elem(s1, sv(old(v)@[j])));
                }
            }
        } else {
            proof {
                assert forall|i1: int, i2: int| 0 <= i1 < i2 < i + 1 implies rle_t(
                    v@[i1].pvalue.pair(),
                    v@[i2].pvalue.pair(),
                ) by {
                    if i2 == i as int {
                        assert(rle_t(v@[i1].pvalue.pair(), v@[i as int].pvalue.pair()));
                    }
                }
            }
        }
        i = i + 1;
    }
}



/// A multiset-preserving rearrangement keeps catalog positions pairwise
/// distinct.
pub proof fn lemma_distinct_index_kept(s1: Seq<ScoredEntry>, s2: Seq<ScoredEntry>)
    requires
        s2.to_multiset() == s1.to_multiset(),
        forall|i1: int, i2: int| 0 <= i1 < i2 < s1.len() ==> s1[i1].index != s1[i2].index,
    ensures
        forall|i1: int, i2: int| 0 <= i1 < i2 < s2.len() ==> s2[i1].index != s2[i2].index,
{
    broadcast use vstd::seq_lib::group_to_multiset_ensures;
    broadcast use vstd::multiset::group_multiset_axioms;

    assert forall|q1: int, q2: int| 0 <= q1 < q2 < s2.len() implies s2[q1].index
        != s2[q2].index by {
        if s2[q1].index == s2[q2].index {
            if s2[q1] == s2[q2] {
                crate::bits::lemma_eq_positions_count2(s2, q1, q2);
                crate::bits::lemma_count2_eq_positions(s1, s2[q1]);
                let (p1, p2) = choose|p1: int, p2: int|
                    0 <= p1 < p2 < s1.len() && #[trigger] s1[p1] == s2[q1] && #[trigger] s1[p2]
                        == s2[q1];
                assert(s1[p1].index == s1[p2].index);
                assert(false);
            } else {
                assert(s2.contains(s2[q1]));
                assert(s1.to_multiset().count(s2[q1]) > 0);
                assert(s1.contains(s2[q1]));
                let p1 = choose|p1: int| 0 <= p1 < s1.len() && s1[p1] == s2[q1];
                assert(s2.contains(s2[q2]));
                assert(s1.to_multiset().count(s2[q2]) > 0);
                assert(s1.contains(s2[q2]));
                let p2 = choose|p2: int| 0 <= p2 < s1.len() && s1[p2] == s2[q2];
                assert(p1 != p2);
                if p1 < p2 {
                    assert(s1[p1].index != s1[p2].index);
                } else {
                    assert(s1[p2].index != s1[p1].index);
                }
                assert(false);
            }
        }
    }
}

/// Every position of the full p-value vector has a positive denominator.
pub proof fn lemma_pv_full_dens(
    ix: BackgroundIndex,
    input: DenseBitVec,
    overlap_ge: int,
    pvalue_le: (nat, nat),
)
    ensures
        forall|t: int|
            0 <= t < pv_full(ix, input, overlap_ge, pvalue_le).len() ==> (#[trigger] pv_full(
                ix,
                input,
                overlap_ge,
                pvalue_le,
            )[t]).1 > 0,
{
    assert forall|t: int|
        0 <= t < pv_full(ix, input, overlap_ge, pvalue_le).len() implies (#[trigger] pv_full(
        ix,
        input,
        overlap_ge,
        pvalue_le,
    )[t]).1 > 0 by {
        if survives(ix, input, t, overlap_ge, pvalue_le) {
            let (a, b, c, d) = cells(ix, input, t);
            crate::fisher::lemma_binom_pos((a + b + c + d) as nat, (a + c) as nat);
        }
    }
}

/// The single-set pipeline up to ranking: score every entry, correct the
/// full p-value vector, drop rows above the adjusted ceiling, and sort
/// ascending by raw p-value. Every returned row carries exact statistics,
/// and every entry that passes all three thresholds is returned.
pub fn compute_enrichment(
    ix: &BackgroundIndex,
    table: &mut FactTable,
    input: &DenseBitVec,
    overlap_ge: usize,
    pvalue_le: &Ratio,
    adj_pvalue_le: &Ratio,
) -> (r: Vec<ScoredEntry>)
    requires
        ix.wf(),
        old(table).wf(),
        input.wf(),
        input.v@.len() == ix.genes@.len(),
        pvalue_le.wf(),
        adj_pvalue_le.wf(),
    ensures
        final (table).wf(),
        final (table).facts@.len() >= old(table).facts@.len(),
        forall|i: int|
            0 <= i < r@.len() ==> result_entry_ok(
                *ix,
                *input,
                overlap_ge as int,
                pvalue_le.pair(),
                adj_pvalue_le.pair(),
                #[trigger] r@[i],
            ),
        forall|i1: int, i2: int|
            0 <= i1 < i2 < r@.len() ==> rle_t(r@[i1].pvalue.pair(), r@[i2].pvalue.pair()),
        forall|i1: int, i2: int| 0 <= i1 < i2 < r@.len() ==> r@[i1].index != r@[i2].index,
        forall|k: int, v: (nat, nat)|
            0 <= k < ix.entries@.len() && survives(
                *ix,
                *input,
                k,
                overlap_ge as int,
                pvalue_le.pair(),
            ) && #[trigger] bh::bh_pinned(
                pv_full(*ix, *input, overlap_ge as int, pvalue_le.pair()),
                k,
                v,
            ) && v.1 > 0 && rle_t(v, adj_pvalue_le.pair()) ==> contains_index(r@, k),
{
    let ghost ps = pv_full(*ix, *input, overlap_ge as int, pvalue_le.pair());
    let scores = score_entries(ix, table, input, overlap_ge, pvalue_le);
    let pv = full_pvector(ix, input, &scores, overlap_ge, pvalue_le);
    let adj = bh::adjust(&pv);
    let mut out = apply_adjustment(ix, input, &scores, &adj, adj_pvalue_le, overlap_ge, pvalue_le);
    let ghost pre_sort = out@;
    proof {
        assert(bh::pairs_of(pv@) == ps);
    }
    sort_by_pvalue(&mut out);
    proof {
        lemma_distinct_index_kept(pre_sort, out@);
        lemma_pv_full_dens(*ix, *input, overlap_ge as int, pvalue_le.pair());
        assert forall|i: int| 0 <= i < out@.len() implies result_entry_ok(
            *ix,
            *input,
            overlap_ge as int,
            pvalue_le.pair(),
            adj_pvalue_le.pair(),
            #[trigger] out@[i],
        ) by {
            assert(has_elem(pre_sort, sv(out@[i])));
            let j = choose|j: int| 0 <= j < pre_sort.len() && sv(#[trigger] pre_sort[j]) == sv(
                out@[i],
            );
            assert(result_entry_ok(
                *ix,
                *input,
                overlap_ge as int,
                pvalue_le.pair(),
                adj_pvalue_le.pair(),
                pre_sort[j],
            ));
        }
        assert forall|k: int, v: (nat, nat)|
            0 <= k < ix.entries@.len() && survives(
                *ix,
                *input,
                k,
                overlap_ge as int,
                pvalue_le.pair(),
            ) && #[trigger] bh::bh_pinned(ps, k, v) && v.1 > 0 && rle_t(
                v,
                adj_pvalue_le.pair(),
            ) implies contains_index(out@, k) by {
            // the computed adjusted value at k equals v, so it clears the
            // ceiling too
            assert(bh::bh_pinned(ps, k, adj@[k].pair()));
            bh::lemma_bh_pinned_unique(ps, k, adj@[k].pair(), v);
            crate::bh::lemma_rle_t_trans(adj@[k].pair(), v, adj_pvalue_le.pair());
            assert(contains_index(pre_sort, k));
            let i = choose|i: int|
                0 <= i < pre_sort.len() && (#[trigger] pre_sort[i]).index as int == k;
            assert(has_elem(out@, sv(pre_sort[i])));
            let i2 = choose|i2: int| 0 <= i2 < out@.len() && sv(#[trigger] out@[i2]) == sv(
                pre_sort[i],
            );
            assert(out@[i2].index as int == k);
        }
    }
    out
}

} // verus!
