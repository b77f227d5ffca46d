//! Result rows: the post-cache stage of a query. Scored entries become
//! rows carrying the catalog entry's content hash, text/approval/agent
//! filters are applied, rows are re-sorted by the requested key, and the
//! final page is cut out.

use vstd::prelude::*;
use crate::catalog::BackgroundIndex;
use crate::columns::copy_bytes;
use crate::pairs::{up_suffix, down_suffix};
use crate::pipeline::ScoredEntry;
use crate::pairedq::PairScored;
use crate::ratio::{Ratio, rle, rle_t};
use crate::text::{contains_bytes, contains_sub, lower_bytes, remove_all, to_lower, trim, trimmed,
    removed};

verus! {

/// The requested ranking key.
#[derive(PartialEq, Eq, Structural, Clone, Copy)]
pub enum SortKey {
    Pvalue,
    OddsRatio,
    OddsRatioUp,
    OddsRatioDown,
    PvalueUp,
    PvalueDown,
    Overlap,
    PvalueMimic,
    PvalueReverse,
    OddsRatioMimic,
    OddsRatioReverse,
}

/// One row of a single-set query result.
pub struct ResultRow {
    pub hash: u128,
    pub n_overlap: usize,
    pub odds: Option<(u64, u64)>,
    pub pvalue: Ratio,
    pub adj_pvalue: Ratio,
}

/// One row of a paired query result.
pub struct PairRow {
    pub hash_up: u128,
    pub hash_down: u128,
    pub mimicker_overlap: usize,
    pub reverser_overlap: usize,
    pub odds_mimic: Option<(u64, u64)>,
    pub odds_reverse: Option<(u64, u64)>,
    pub pvalue_mimic: Ratio,
    pub adj_pvalue_mimic: Ratio,
    pub pvalue_reverse: Ratio,
    pub adj_pvalue_reverse: Ratio,
}

/// The cleaned text filter: direction markers removed, whitespace
/// trimmed, lowercased.
pub open spec fn clean_of(f: Seq<u8>) -> Seq<u8> {
    lower_bytes(trimmed(removed(removed(f, up_suffix()), down_suffix())))
}

/// Some term name of entry `k`, lowercased, carries `pat`.
pub open spec fn any_term_lc(ix: BackgroundIndex, k: int, pat: Seq<u8>) -> bool {
    exists|t: int|
        0 <= t < ix.entries@[k].terms@.len() && contains_bytes(
            lower_bytes((#[trigger] ix.entries@[k].terms@[t]).term@),
            pat,
        )
}

/// Some term name or description of entry `k`, lowercased, carries
/// `pat`.
pub open spec fn any_text_lc(ix: BackgroundIndex, k: int, pat: Seq<u8>) -> bool {
    exists|t: int|
        0 <= t < ix.entries@[k].terms@.len() && (contains_bytes(
            lower_bytes((#[trigger] ix.entries@[k].terms@[t]).term@),
            pat,
        ) || contains_bytes(lower_bytes(ix.entries@[k].terms@[t].description@), pat))
}

/// Every metadata record of entry `k` carries the approval flag.
pub open spec fn all_terms_approved(ix: BackgroundIndex, k: int) -> bool {
    forall|t: int|
        0 <= t < ix.entries@[k].terms@.len() ==> (#[trigger] ix.entries@[k].terms@[t]).fda_approved
}

/// Every metadata record of entry `k` has a perturbation label with a
/// space (a compound agent name).
pub open spec fn all_perts_spaced(ix: BackgroundIndex, k: int) -> bool {
    forall|t: int|
        0 <= t < ix.entries@[k].terms@.len() ==> contains_bytes(
            (#[trigger] ix.entries@[k].terms@[t]).pert@,
            seq![32u8],
        )
}

/// The single-set row filter: a lowercased text filter with a direction
/// marker keeps entries with a matching-direction term and drops the
/// rest; the cleaned text must occur in some term; the approval filter
/// keeps fully approved entries; the agent filter keeps entries whose
/// labels are compound names.
pub open spec fn keep_entry(
    ix: BackgroundIndex,
    k: int,
    f: Option<Seq<u8>>,
    fda: Option<bool>,
    ko: Option<bool>,
) -> bool {
    let tpass = match f {
        Option::None => true,
        Option::Some(fv) => {
            let is_up = contains_bytes(fv, up_suffix());
            let is_down = contains_bytes(fv, down_suffix());
            if is_up && !any_term_lc(ix, k, up_suffix()) {
                false
            } else if is_down && !any_term_lc(ix, k, down_suffix()) {
                false
            } else {
                any_text_lc(ix, k, clean_of(fv))
            }
        },
    };
    let fpass = match fda {
        Option::Some(true) => all_terms_approved(ix, k),
        _ => true,
    };
    let kpass = match ko {
        Option::Some(true) => all_perts_spaced(ix, k),
        _ => true,
    };
    tpass && fpass && kpass
}

/// The paired row filter: the cleaned text must occur in some term of
/// the up half's entry; approval and agent filters as in the single-set
/// case, on the up half's entry.
pub open spec fn keep_pair_entry(
    ix: BackgroundIndex,
    k_up: int,
    f: Option<Seq<u8>>,
    fda: Option<bool>,
    ko: Option<bool>,
) -> bool {
    let tpass = match f {
        Option::None => true,
        Option::Some(fv) => any_text_lc(ix, k_up, clean_of(fv)),
    };
    let fpass = match fda {
        Option::Some(true) => all_terms_approved(ix, k_up),
        _ => true,
    };
    let kpass = match ko {
        Option::Some(true) => all_perts_spaced(ix, k_up),
        _ => true,
    };
    tpass && fpass && kpass
}

fn exec_any_term_lc(ix: &BackgroundIndex, k: usize, pat: &Vec<u8>) -> (r: bool)
    requires
        ix.wf(),
        (k as int) < ix.entries@.len(),
    ensures
        r == any_term_lc(*ix, k as int, pat@),
{
    let n = ix.entries[k].terms.len();
    let mut t: usize = 0;
    while t < n
        invariant
            t <= n,
            ix.wf(),
            (k as int) < ix.entries@.len(),
            n == ix.entries@[k as int].terms@.len(),
            forall|t2: int|
                0 <= t2 < t ==> !contains_bytes(
                    lower_bytes((#[trigger] ix.entries@[k as int].terms@[t2]).term@),
                    pat@,
                ),
        decreases n - t,
    {
        let lc = to_lower(&ix.entries[k].terms[t].term);
        if contains_sub(&lc, pat) {
            return true;
        }
        t = t + 1;
    }
    false
}

fn exec_any_text_lc(ix: &BackgroundIndex, k: usize, pat: &Vec<u8>) -> (r: bool)
    requires
        ix.wf(),
        (k as int) < ix.entries@.len(),
    ensures
        r == any_text_lc(*ix, k as int, pat@),
{
    let n = ix.entries[k].terms.len();
    let mut t: usize = 0;
    while t < n
        invariant
            t <= n,
            ix.wf(),
            (k as int) < ix.entries@.len(),
            n == ix.entries@[k as int].terms@.len(),
            forall|t2: int|
                0 <= t2 < t ==> !contains_bytes(
                    lower_bytes((#[trigger] ix.entries@[k as int].terms@[t2]).term@),
                    pat@,
                ) && !contains_bytes(
                    lower_bytes(ix.entries@[k as int].terms@[t2].description@),
                    pat@,
                ),
        decreases n - t,
    {
        let lc = to_lower(&ix.entries[k].terms[t].term);
        if contains_sub(&lc, pat) {
            return true;
        }
        let dc = to_lower(&ix.entries[k].terms[t].description);
        if contains_sub(&dc, pat) {
            return true;
        }
        t = t + 1;
    }
    false
}

fn exec_all_approved(ix: &BackgroundIndex, k: usize) -> (r: bool)
    requires
        ix.wf(),
        (k as int) < ix.entries@.len(),
    ensures
        r == all_terms_approved(*ix, k as int),
{
    let n = ix.entries[k].terms.len();
    let mut t: usize = 0;
    while t < n
        invariant
            t <= n,
            ix.wf(),
            (k as int) < ix.entries@.len(),
            n == ix.entries@[k as int].terms@.len(),
            forall|t2: int|
                0 <= t2 < t ==> (#[trigger] ix.entries@[k as int].terms@[t2]).fda_approved,
        decreases n - t,
    {
        if !ix.entries[k].terms[t].fda_approved {
            return false;
        }
        t = t + 1;
    }
    true
}

fn exec_all_spaced(ix: &BackgroundIndex, k: usize) -> (r: bool)
    requires
        ix.wf(),
        (k as int) < ix.entries@.len(),
    ensures
        r == all_perts_spaced(*ix, k as int),
{
    let space: Vec<u8> = vec![32u8];
    proof {
        assert(space@ =~= seq![32u8]);
    }
    let n = ix.entries[k].terms.len();
    let mut t: usize = 0;
    while t < n
        invariant
            t <= n,
            ix.wf(),
            space@ == seq![32u8],
            (k as int) < ix.entries@.len(),
            n == ix.entries@[k as int].terms@.len(),
            forall|t2: int|
                0 <= t2 < t ==> contains_bytes(
                    (#[trigger] ix.entries@[k as int].terms@[t2]).pert@,
                    seq![32u8],
                ),
        decreases n - t,
    {
        if !contains_sub(&ix.entries[k].terms[t].pert, &space) {
            return false;
        }
        t = t + 1;
    }
    true
}

/// Computes the cleaned text filter.
pub fn clean_filter(f: &Vec<u8>) -> (r: Vec<u8>)
    ensures
        r@ == clean_of(f@),
{
    let up: Vec<u8> = vec![32u8, 117u8, 112u8];
    let down: Vec<u8> = vec![32u8, 100u8, 111u8, 119u8, 110u8];
    proof {
        assert(up@ =~= up_suffix());
        assert(down@ =~= down_suffix());
    }
    let a = remove_all(f, &up);
    let b = remove_all(&a, &down);
    let c = trim(&b);
    to_lower(&c)
}

/// Whether one entry passes the row filters.
pub fn exec_keep_entry(
    ix: &BackgroundIndex,
    k: usize,
    f: &Option<Vec<u8>>,
    fda: Option<bool>,
    ko: Option<bool>,
) -> (r: bool)
    requires
        ix.wf(),
        (k as int) < ix.entries@.len(),
    ensures
        r == keep_entry(
            *ix,
            k as int,
            match f {
                Option::None => Option::<Seq<u8>>::None,
                Option::Some(fv) => Option::Some(fv@),
            },
            fda,
            ko,
        ),
{
    let tpass: bool = match f {
        Option::None => true,
        Option::Some(fv) => {
            let up: Vec<u8> = vec![32u8, 117u8, 112u8];
            let down: Vec<u8> = vec![32u8, 100u8, 111u8, 119u8, 110u8];
            proof {
                assert(up@ =~= up_suffix());
                assert(down@ =~= down_suffix());
            }
            let is_up = contains_sub(fv, &up);
            let is_down = contains_sub(fv, &down);
            if is_up && !exec_any_term_lc(ix, k, &up) {
                false
            } else if is_down && !exec_any_term_lc(ix, k, &down) {
                false
            } else {
                let clean = clean_filter(fv);
                exec_any_text_lc(ix, k, &clean)
            }
        },
    };
    let fpass: bool = match fda {
        Option::Some(true) => exec_all_approved(ix, k),
        _ => true,
    };
    let kpass: bool = match ko {
        Option::Some(true) => exec_all_spaced(ix, k),
        _ => true,
    };
    tpass && fpass && kpass
}

/// Whether one pair passes the row filters (judged on its up half).
pub fn exec_keep_pair_entry(
    ix: &BackgroundIndex,
    k_up: usize,
    f: &Option<Vec<u8>>,
    fda: Option<bool>,
    ko: Option<bool>,
) -> (r: bool)
    requires
        ix.wf(),
        (k_up as int) < ix.entries@.len(),
    ensures
        r == keep_pair_entry(
            *ix,
            k_up as int,
            match f {
                Option::None => Option::<Seq<u8>>::None,
                Option::Some(fv) => Option::Some(fv@),
            },
            fda,
            ko,
        ),
{
    let tpass: bool = match f {
        Option::None => true,
        Option::Some(fv) => {
            let clean = clean_filter(fv);
            exec_any_text_lc(ix, k_up, &clean)
        },
    };
    let fpass: bool = match fda {
        Option::Some(true) => exec_all_approved(ix, k_up),
        _ => true,
    };
    let kpass: bool = match ko {
        Option::Some(true) => exec_all_spaced(ix, k_up),
        _ => true,
    };
    tpass && fpass && kpass
}

/// The value of one result row.
#[verifier::ext_equal]
pub struct RowV {
    pub hash: u128,
    pub n_overlap: int,
    pub odds: Option<(u64, u64)>,
    pub pvalue: (nat, nat),
    pub adj_pvalue: (nat, nat),
}

/// The value of a built row.
pub open spec fn rv(r: ResultRow) -> RowV {
    RowV {
        hash: r.hash,
        n_overlap: r.n_overlap as int,
        odds: r.odds,
        pvalue: r.pvalue.pair(),
        adj_pvalue: r.adj_pvalue.pair(),
    }
}

/// The row a scored entry yields.
pub open spec fn row_of(ix: BackgroundIndex, e: ScoredEntry) -> RowV {
    RowV {
        hash: ix.entries@[e.index as int].hash,
        n_overlap: e.n_overlap as int,
        odds: e.odds,
        pvalue: e.pvalue.pair(),
        adj_pvalue: e.adj_pvalue.pair(),
    }
}

/// The rows of the first `i` scored entries that pass the filters, in
/// order.
pub open spec fn rows_upto(
    ix: BackgroundIndex,
    scores: Seq<ScoredEntry>,
    f: Option<Seq<u8>>,
    fda: Option<bool>,
    ko: Option<bool>,
    i: int,
) -> Seq<RowV>
    decreases i,
{
    if i <= 0 {
        Seq::empty()
    } else {
        let pre = rows_upto(ix, scores, f, fda, ko, i - 1);
        if keep_entry(ix, scores[i - 1].index as int, f, fda, ko) {
            pre.push(row_of(ix, scores[i - 1]))
        } else {
            pre
        }
    }
}

/// The produced rows carry exactly the modelled values.
pub open spec fn rows_match(actual: Seq<ResultRow>, model: Seq<RowV>) -> bool {
    actual.len() == model.len() && forall|l: int|
        0 <= l < actual.len() ==> rv(#[trigger] actual[l]) == model[l]
}

/// Builds the filtered result rows of a ranked score list, in rank
/// order.
pub fn build_rows(
    ix: &BackgroundIndex,
    scores: &Vec<ScoredEntry>,
    f: &Option<Vec<u8>>,
    fda: Option<bool>,
    ko: Option<bool>,
) -> (rows: Vec<ResultRow>)
    requires
        ix.wf(),
        forall|i: int|
            0 <= i < scores@.len() ==> ((#[trigger] scores@[i]).index as int) < ix.entries@.len()
                && scores@[i].pvalue.wf() && scores@[i].adj_pvalue.wf(),
    ensures
        rows_match(
            rows@,
            rows_upto(
                *ix,
                scores@,
                match f {
                    Option::None => Option::<Seq<u8>>::None,
                    Option::Some(fv) => Option::Some(fv@),
                },
                fda,
                ko,
                scores@.len() as int,
            ),
        ),
        rows_pv_wf(rows@),
        forall|l: int| 0 <= l < rows@.len() ==> (#[trigger] rows@[l]).adj_pvalue.wf(),
{
    let ghost fspec = match f {
        Option::None => Option::<Seq<u8>>::None,
        Option::Some(fv) => Option::Some(fv@),
    };
    let mut rows: Vec<ResultRow> = Vec::new();
    let mut i: usize = 0;
    while i < scores.len()
        invariant
            i <= scores@.len(),
            ix.wf(),
            forall|i2: int|
                0 <= i2 < scores@.len() ==> ((#[trigger] scores@[i2]).index as int)
                    < ix.entries@.len() && scores@[i2].pvalue.wf() && scores@[i2].adj_pvalue.wf(),
            fspec == match f {
                Option::None => Option::<Seq<u8>>::None,
                Option::Some(fv) => Option::Some(fv@),
            },
            rows_match(rows@, rows_upto(*ix, scores@, fspec, fda, ko, i as int)),
            rows_pv_wf(rows@),
            forall|l: int| 0 <= l < rows@.len() ==> (#[trigger] rows@[l]).adj_pvalue.wf(),
        decreases scores@.len() - i,
    {
        let e = &scores[i];
        if exec_keep_entry(ix, e.index, f, fda, ko) {
            let ghost old_rows = rows@;
            let new_row = ResultRow {
                hash: ix.entries[e.index].hash,
                n_overlap: e.n_overlap,
                odds: e.odds,
                pvalue: e.pvalue.clone_val(),
                adj_pvalue: e.adj_pvalue.clone_val(),
            };
            proof {
                assert(((scores@[i as int]).index as int) < ix.entries@.len());
                assert(new_row.pvalue.wf() && new_row.adj_pvalue.wf());
            }
            rows.push(new_row);
            proof {
                let model = rows_upto(*ix, scores@, fspec, fda, ko, i + 1);
                assert forall|l: int| 0 <= l < rows@.len() implies rv(#[trigger] rows@[l])
                    == model[l] by {
                    if l < old_rows.len() {
                        assert(rows@[l] == old_rows[l]);
                    }
                }
                assert forall|l: int| 0 <= l < rows@.len() implies (#[trigger] rows@[l]).pvalue.wf()
                    && rows@[l].adj_pvalue.wf() by {
                    if l < old_rows.len() {
                        assert(rows@[l] == old_rows[l]);
                    }
                }
            }
        }
        i = i + 1;
    }
    rows
}

/// The value of one paired row.
#[verifier::ext_equal]
pub struct PairRowV {
    pub hash_up: u128,
    pub hash_down: u128,
    pub mimicker_overlap: int,
    pub reverser_overlap: int,
    pub odds_mimic: Option<(u64, u64)>,
    pub odds_reverse: Option<(u64, u64)>,
    pub pvalue_mimic: (nat, nat),
    pub adj_pvalue_mimic: (nat, nat),
    pub pvalue_reverse: (nat, nat),
    pub adj_pvalue_reverse: (nat, nat),
}

/// The value of a built paired row.
pub open spec fn prv(r: PairRow) -> PairRowV {
    PairRowV {
        hash_up: r.hash_up,
        hash_down: r.hash_down,
        mimicker_overlap: r.mimicker_overlap as int,
        reverser_overlap: r.reverser_overlap as int,
        odds_mimic: r.odds_mimic,
        odds_reverse: r.odds_reverse,
        pvalue_mimic: r.pvalue_mimic.pair(),
        adj_pvalue_mimic: r.adj_pvalue_mimic.pair(),
        pvalue_reverse: r.pvalue_reverse.pair(),
        adj_pvalue_reverse: r.adj_pvalue_reverse.pair(),
    }
}

/// The paired row a scored pair yields.
pub open spec fn pair_row_of(ix: BackgroundIndex, e: PairScored) -> PairRowV {
    PairRowV {
        hash_up: ix.entries@[e.index_up as int].hash,
        hash_down: ix.entries@[e.index_down as int].hash,
        mimicker_overlap: e.mimicker_overlap as int,
        reverser_overlap: e.reverser_overlap as int,
        odds_mimic: e.odds_mimic,
        odds_reverse: e.odds_reverse,
        pvalue_mimic: e.pvalue_mimic.pair(),
        adj_pvalue_mimic: e.adj_pvalue_mimic.pair(),
        pvalue_reverse: e.pvalue_reverse.pair(),
        adj_pvalue_reverse: e.adj_pvalue_reverse.pair(),
    }
}

/// The paired rows of the first `i` scored pairs that pass the filters.
pub open spec fn pair_rows_upto(
    ix: BackgroundIndex,
    scores: Seq<PairScored>,
    f: Option<Seq<u8>>,
    fda: Option<bool>,
    ko: Option<bool>,
    i: int,
) -> Seq<PairRowV>
    decreases i,
{
    if i <= 0 {
        Seq::empty()
    } else {
        let pre = pair_rows_upto(ix, scores, f, fda, ko, i - 1);
        if keep_pair_entry(ix, scores[i - 1].index_up as int, f, fda, ko) {
            pre.push(pair_row_of(ix, scores[i - 1]))
        } else {
            pre
        }
    }
}

/// The produced paired rows carry exactly the modelled values.
pub open spec fn pair_rows_match(actual: Seq<PairRow>, model: Seq<PairRowV>) -> bool {
    actual.len() == model.len() && forall|l: int|
        0 <= l < actual.len() ==> prv(#[trigger] actual[l]) == model[l]
}

/// Builds the filtered paired result rows of a ranked score list.
pub fn build_pair_rows(
    ix: &BackgroundIndex,
    scores: &Vec<PairScored>,
    f: &Option<Vec<u8>>,
    fda: Option<bool>,
    ko: Option<bool>,
) -> (rows: Vec<PairRow>)
    requires
        ix.wf(),
        forall|i: int|
            0 <= i < scores@.len() ==> ((#[trigger] scores@[i]).index_up as int)
                < ix.entries@.len() && (scores@[i].index_down as int) < ix.entries@.len()
                && scores@[i].pvalue_mimic.wf() && scores@[i].pvalue_reverse.wf()
                && scores@[i].adj_pvalue_mimic.wf() && scores@[i].adj_pvalue_reverse.wf(),
    ensures
        pair_rows_pv_wf(rows@),
        forall|l: int|
            0 <= l < rows@.len() ==> (#[trigger] rows@[l]).adj_pvalue_mimic.wf()
                && rows@[l].adj_pvalue_reverse.wf(),
        pair_rows_match(
            rows@,
            pair_rows_upto(
                *ix,
                scores@,
                match f {
                    Option::None => Option::<Seq<u8>>::None,
                    Option::Some(fv) => Option::Some(fv@),
                },
                fda,
                ko,
                scores@.len() as int,
            ),
        ),
{
    let ghost fspec = match f {
        Option::None => Option::<Seq<u8>>::None,
        Option::Some(fv) => Option::Some(fv@),
    };
    let mut rows: Vec<PairRow> = Vec::new();
    let mut i: usize = 0;
    while i < scores.len()
        invariant
            i <= scores@.len(),
            ix.wf(),
            forall|i2: int|
                0 <= i2 < scores@.len() ==> ((#[trigger] scores@[i2]).index_up as int)
                    < ix.entries@.len() && (scores@[i2].index_down as int) < ix.entries@.len()
                    && scores@[i2].pvalue_mimic.wf() && scores@[i2].pvalue_reverse.wf()
                    && scores@[i2].adj_pvalue_mimic.wf() && scores@[i2].adj_pvalue_reverse.wf(),
            fspec == match f {
                Option::None => Option::<Seq<u8>>::None,
                Option::Some(fv) => Option::Some(fv@),
            },
            pair_rows_match(rows@, pair_rows_upto(*ix, scores@, fspec, fda, ko, i as int)),
            pair_rows_pv_wf(rows@),
            forall|l: int|
                0 <= l < rows@.len() ==> (#[trigger] rows@[l]).adj_pvalue_mimic.wf()
                    && rows@[l].adj_pvalue_reverse.wf(),
        decreases scores@.len() - i,
    {
        let e = &scores[i];
        if exec_keep_pair_entry(ix, e.index_up, f, fda, ko) {
            let ghost old_rows = rows@;
            let new_row = PairRow {
                hash_up: ix.entries[e.index_up].hash,
                hash_down: ix.entries[e.index_down].hash,
                mimicker_overlap: e.mimicker_overlap,
                reverser_overlap: e.reverser_overlap,
                odds_mimic: e.odds_mimic,
                odds_reverse: e.odds_reverse,
                pvalue_mimic: e.pvalue_mimic.clone_val(),
                adj_pvalue_mimic: e.adj_pvalue_mimic.clone_val(),
                pvalue_reverse: e.pvalue_reverse.clone_val(),
                adj_pvalue_reverse: e.adj_pvalue_reverse.clone_val(),
            };
            proof {
                assert(((scores@[i as int]).index_up as int) < ix.entries@.len());
                assert(new_row.pvalue_mimic.wf() && new_row.pvalue_reverse.wf()
                    && new_row.adj_pvalue_mimic.wf() && new_row.adj_pvalue_reverse.wf());
            }
            rows.push(new_row);
            proof {
                let model = pair_rows_upto(*ix, scores@, fspec, fda, ko, i + 1);
                assert forall|l: int| 0 <= l < rows@.len() implies prv(#[trigger] rows@[l])
                    == model[l] by {
                    if l < old_rows.len() {
                        assert(rows@[l] == old_rows[l]);
                    }
                }
                assert forall|l: int| 0 <= l < rows@.len() implies (
                #[trigger] rows@[l]).pvalue_mimic.wf() && rows@[l].pvalue_reverse.wf()
                    && rows@[l].adj_pvalue_mimic.wf() && rows@[l].adj_pvalue_reverse.wf() by {
                    if l < old_rows.len() {
                        assert(rows@[l] == old_rows[l]);
                    }
                }
            }
        }
        i = i + 1;
    }
    rows
}

/// Descending order on optional odds ratios: an absent value sorts last,
/// a zero denominator counts as unbounded.
pub open spec fn odds_ge(a: Option<(u64, u64)>, b: Option<(u64, u64)>) -> bool {
    let cmp = match (a, b) {
        (Option::None, _) => false,
        (Option::Some(_), Option::None) => true,
        (Option::Some(x), Option::Some(y)) => {
            if x.1 == 0 {
                true
            } else if y.1 == 0 {
                false
            } else {
                rle(y.0 as nat, y.1 as nat, x.0 as nat, x.1 as nat)
            }
        },
    };
    cmp || a == b
}

/// Compares two optional odds ratios, descending.
pub fn exec_odds_ge(a: Option<(u64, u64)>, b: Option<(u64, u64)>) -> (r: bool)
    ensures
        r == odds_ge(a, b),
{
    match (a, b) {
        (Option::None, Option::None) => true,
        (Option::None, Option::Some(_)) => false,
        (Option::Some(_), Option::None) => true,
        (Option::Some(x), Option::Some(y)) => {
            if x.1 == 0 {
                true
            } else if y.1 == 0 {
                proof {
                    if a == b {
                        assert(x.1 == 0);
                    }
                }
                false
            } else {
                proof {
                    assert((y.0 as int) * (x.1 as int) <= u64::MAX * u64::MAX) by (
                    nonlinear_arith)
                        requires
                            0 <= y.0 <= u64::MAX,
                            0 <= x.1 <= u64::MAX,
                    ;
                    assert((x.0 as int) * (y.1 as int) <= u64::MAX * u64::MAX) by (
                    nonlinear_arith)
                        requires
                            0 <= x.0 <= u64::MAX,
                            0 <= y.1 <= u64::MAX,
                    ;
                }
                let l = (y.0 as u128) * (x.1 as u128);
                let rr = (x.0 as u128) * (y.1 as u128);
                proof {
                    if a == b {
                        assert((y.0 as nat) * (x.1 as nat) == (x.0 as nat) * (y.1 as nat)) by (
                        nonlinear_arith)
                            requires
                                x.0 == y.0,
                                x.1 == y.1,
                        ;
                    }
                }
                l <= rr
            }
        },
    }
}

/// Descending odds order is transitive.
pub proof fn lemma_odds_ge_trans(a: Option<(u64, u64)>, b: Option<(u64, u64)>, c: Option<
    (u64, u64),
>)
    requires
        odds_ge(a, b),
        odds_ge(b, c),
    ensures
        odds_ge(a, c),
{
    match (a, b, c) {
        (Option::Some(x), Option::Some(y), Option::Some(z)) => {
            if x.1 != 0 && y.1 != 0 && z.1 != 0 {
                crate::ratio::lemma_rle_trans(
                    z.0 as nat,
                    z.1 as nat,
                    y.0 as nat,
                    y.1 as nat,
                    x.0 as nat,
                    x.1 as nat,
                );
            }
        },
        _ => {},
    }
}


/// Some element of `s` has the value `x`.
pub open spec fn has_row(s: Seq<ResultRow>, x: RowV) -> bool {
    exists|j: int| 0 <= j < s.len() && rv(#[trigger] s[j]) == x
}

/// Some element of `s` has the value `x`.
pub open spec fn has_pair_row(s: Seq<PairRow>, x: PairRowV) -> bool {
    exists|j: int| 0 <= j < s.len() && prv(#[trigger] s[j]) == x
}

/// The ranking order on result rows: ascending raw p-value, or
/// descending odds ratio, or descending overlap.
pub open spec fn result_le(key: SortKey, a: ResultRow, b: ResultRow) -> bool {
    match key {
        SortKey::OddsRatio => odds_ge(a.odds, b.odds),
        SortKey::Overlap => a.n_overlap >= b.n_overlap,
        _ => rle_t(a.pvalue.pair(), b.pvalue.pair()),
    }
}

/// The ranking order on paired rows.
pub open spec fn pair_row_le(key: SortKey, a: PairRow, b: PairRow) -> bool {
    match key {
        SortKey::PvalueReverse => rle_t(a.pvalue_reverse.pair(), b.pvalue_reverse.pair()),
        SortKey::OddsRatioMimic => odds_ge(a.odds_mimic, b.odds_mimic),
        SortKey::OddsRatioReverse => odds_ge(a.odds_reverse, b.odds_reverse),
        _ => rle_t(a.pvalue_mimic.pair(), b.pvalue_mimic.pair()),
    }
}

/// The order is total.
pub proof fn lemma_result_le_total(key: SortKey, a: ResultRow, b: ResultRow)
    ensures
        result_le(key, a, b) || result_le(key, b, a),
{
    match key {
        SortKey::OddsRatio => {
            lemma_odds_ge_total(a.odds, b.odds);
        },
        _ => {},
    }
}

/// Descending odds order is total.
pub proof fn lemma_odds_ge_total(a: Option<(u64, u64)>, b: Option<(u64, u64)>)
    ensures
        odds_ge(a, b) || odds_ge(b, a),
{
}

/// The order is transitive.
pub proof fn lemma_result_le_trans(key: SortKey, a: ResultRow, b: ResultRow, c: ResultRow)
    requires
        a.pvalue.wf(),
        b.pvalue.wf(),
        c.pvalue.wf(),
        result_le(key, a, b),
        result_le(key, b, c),
    ensures
        result_le(key, a, c),
{
    match key {
        SortKey::OddsRatio => {
            lemma_odds_ge_trans(a.odds, b.odds, c.odds);
        },
        SortKey::Overlap => {},
        _ => {
            crate::bh::lemma_rle_t_trans(a.pvalue.pair(), b.pvalue.pair(), c.pvalue.pair());
        },
    }
}

/// The order is total.
pub proof fn lemma_pair_row_le_total(key: SortKey, a: PairRow, b: PairRow)
    ensures
        pair_row_le(key, a, b) || pair_row_le(key, b, a),
{
    match key {
        SortKey::OddsRatioMimic => {
            lemma_odds_ge_total(a.odds_mimic, b.odds_mimic);
        },
        SortKey::OddsRatioReverse => {
            lemma_odds_ge_total(a.odds_reverse, b.odds_reverse);
        },
        _ => {},
    }
}

/// The order is transitive.
pub proof fn lemma_pair_row_le_trans(key: SortKey, a: PairRow, b: PairRow, c: PairRow)
    requires
        a.pvalue_mimic.wf() && a.pvalue_reverse.wf(),
        b.pvalue_mimic.wf() && b.pvalue_reverse.wf(),
        c.pvalue_mimic.wf() && c.pvalue_reverse.wf(),
        pair_row_le(key, a, b),
        pair_row_le(key, b, c),
    ensures
        pair_row_le(key, a, c),
{
    match key {
        SortKey::PvalueReverse => {
            crate::bh::lemma_rle_t_trans(
                a.pvalue_reverse.pair(),
                b.pvalue_reverse.pair(),
                c.pvalue_reverse.pair(),
            );
        },
        SortKey::OddsRatioMimic => {
            lemma_odds_ge_trans(a.odds_mimic, b.odds_mimic, c.odds_mimic);
        },
        SortKey::OddsRatioReverse => {
            lemma_odds_ge_trans(a.odds_reverse, b.odds_reverse, c.odds_reverse);
        },
        _ => {
            crate::bh::lemma_rle_t_trans(
                a.pvalue_mimic.pair(),
                b.pvalue_mimic.pair(),
                c.pvalue_mimic.pair(),
            );
        },
    }
}

fn exec_result_le(key: SortKey, a: &ResultRow, b: &ResultRow) -> (r: bool)
    ensures
        r == result_le(key, *a, *b),
{
    match key {
        SortKey::OddsRatio => exec_odds_ge(a.odds, b.odds),
        SortKey::Overlap => a.n_overlap >= b.n_overlap,
        _ => a.pvalue.le(&b.pvalue),
    }
}

fn exec_pair_row_le(key: SortKey, a: &PairRow, b: &PairRow) -> (r: bool)
    ensures
        r == pair_row_le(key, *a, *b),
{
    match key {
        SortKey::PvalueReverse => a.pvalue_reverse.le(&b.pvalue_reverse),
        SortKey::OddsRatioMimic => exec_odds_ge(a.odds_mimic, b.odds_mimic),
        SortKey::OddsRatioReverse => exec_odds_ge(a.odds_reverse, b.odds_reverse),
        _ => a.pvalue_mimic.le(&b.pvalue_mimic),
    }
}

#[verifier::rlimit(100)]
proof fn lemma_row_move_preserves(s1: Seq<ResultRow>, s2: Seq<ResultRow>, i: int, p: int)
    requires
        0 <= i < s1.len(),
        0 <= p <= i,
        s2 == s1.remove(i).insert(p, s1[i]),
    ensures
        s2.len() == s1.len(),
        forall|x: RowV| has_row(s1, x) <==> has_row(s2, x),
{
    s1.remove_ensures(i);
    s1.remove(i).insert_ensures(p, s1[i]);
    assert forall|x: RowV| has_row(s1, x) implies has_row(s2, x) by {
        let j = choose|j: int| 0 <= j < s1.len() && rv(#[trigger] s1[j]) == x;
        if j == i {
            assert(rv(s2[p]) == x);
        } else if j < i {
            assert(s1.remove(i)[j] == s1[j]);
            if j < p {
                assert(s2[j] == s1.remove(i)[j]);
                assert(rv(s2[j]) == x);
            } else {
                assert(s2[j + 1] == s1.remove(i)[j]);
                assert(rv(s2[j + 1]) == x);
            }
        } else {
            assert(s1.remove(i)[j - 1] == s1[j]);
            assert(s2[j] == s1.remove(i)[j - 1]);
            assert(rv(s2[j]) == x);
        }
    }
    assert forall|x: RowV| has_row(s2, x) implies has_row(s1, x) by {
        let j = choose|j: int| 0 <= j < s2.len() && rv(#[trigger] s2[j]) == x;
        if j == p {
            assert(rv(s1[i]) == x);
        } else if j < p {
            assert(s2[j] == s1.remove(i)[j]);
            assert(rv(s1[j]) == x);
        } else {
            assert(s2[j] == s1.remove(i)[j - 1]);
            if j - 1 < i {
                assert(rv(s1[j - 1]) == x);
            } else {
                assert(rv(s1[j]) == x);
            }
        }
    }
}

#[verifier::rlimit(100)]
proof fn lemma_prow_move_preserves(s1: Seq<PairRow>, s2: Seq<PairRow>, i: int, p: int)
    requires
        0 <= i < s1.len(),
        0 <= p <= i,
        s2 == s1.remove(i).insert(p, s1[i]),
    ensures
        s2.len() == s1.len(),
        forall|x: PairRowV| has_pair_row(s1, x) <==> has_pair_row(s2, x),
{
    s1.remove_ensures(i);
    s1.remove(i).insert_ensures(p, s1[i]);
    assert forall|x: PairRowV| has_pair_row(s1, x) implies has_pair_row(s2, x) by {
        let j = choose|j: int| 0 <= j < s1.len() && prv(#[trigger] s1[j]) == x;
        if j == i {
            assert(prv(s2[p]) == x);
        } else if j < i {
            assert(s1.remove(i)[j] == s1[j]);
            if j < p {
                assert(s2[j] == s1.remove(i)[j]);
                assert(prv(s2[j]) == x);
            } else {
                assert(s2[j + 1] == s1.remove(i)[j]);
                assert(prv(s2[j + 1]) == x);
            }
        } else {
            assert(s1.remove(i)[j - 1] == s1[j]);
            assert(s2[j] == s1.remove(i)[j - 1]);
            assert(prv(s2[j]) == x);
        }
    }
    assert forall|x: PairRowV| has_pair_row(s2, x) implies has_pair_row(s1, x) by {
        let j = choose|j: int| 0 <= j < s2.len() && prv(#[trigger] s2[j]) == x;
        if j == p {
            assert(prv(s1[i]) == x);
        } else if j < p {
            assert(s2[j] == s1.remove(i)[j]);
            assert(prv(s1[j]) == x);
        } else {
            assert(s2[j] == s1.remove(i)[j - 1]);
            if j - 1 < i {
                assert(prv(s1[j - 1]) == x);
            } else {
                assert(prv(s1[j]) == x);
            }
        }
    }
}

/// All p-value fields of the rows are well-formed.
pub open spec fn rows_pv_wf(s: Seq<ResultRow>) -> bool {
    forall|j: int| 0 <= j < s.len() ==> (#[trigger] s[j]).pvalue.wf()
}

/// All p-value fields of the paired rows are well-formed.
pub open spec fn pair_rows_pv_wf(s: Seq<PairRow>) -> bool {
    forall|j: int|
        0 <= j < s.len() ==> (#[trigger] s[j]).pvalue_mimic.wf() && s[j].pvalue_reverse.wf()
}

/// Sorts the result rows by the requested key (stable insertion sort),
/// preserving exactly the element values.
#[verifier::rlimit(100)]
#[verifier::spinoff_prover]
pub fn sort_rows(v: &mut Vec<ResultRow>, key: SortKey)
    requires
        rows_pv_wf(old(v)@),
    ensures
        final (v)@.len() == old(v)@.len(),
        final (v)@.to_multiset() == old(v)@.to_multiset(),
        forall|i1: int, i2: int|
            0 <= i1 < i2 < final (v)@.len() ==> result_le(key, final (v)@[i1], final (v)@[i2]),
        forall|i: int| 0 <= i < final (v)@.len() ==> has_row(old(v)@, rv(#[trigger] final (v)@[i])),
        forall|j: int| 0 <= j < old(v)@.len() ==> has_row(final (v)@, rv(#[trigger] old(v)@[j])),
{
    let mut i: usize = 1;
    proof {
        assert forall|j: int| 0 <= j < v@.len() implies has_row(v@, rv(#[trigger] v@[j])) by {
            assert(rv(v@[j]) == rv(v@[j]));
        }
    }
    while i < v.len()
        invariant
            1 <= i <= v@.len() || v@.len() == 0,
            v@.len() == old(v)@.len(),
            v@.to_multiset() == old(v)@.to_multiset(),
            rows_pv_wf(v@),
            forall|i1: int, i2: int| 0 <= i1 < i2 < i ==> result_le(key, v@[i1], v@[i2]),
            forall|t: int| 0 <= t < v@.len() ==> has_row(old(v)@, rv(#[trigger] v@[t])),
            forall|j: int| 0 <= j < old(v)@.len() ==> has_row(v@, rv(#[trigger] old(v)@[j])),
        decreases v@.len() - i,
    {
        let mut p: usize = 0;
        while p < i && exec_result_le(key, &v[p], &v[i])
            invariant
                p <= i < v@.len(),
                forall|t: int| 0 <= t < p ==> result_le(key, v@[t], v@[i as int]),
            decreases i - p,
        {
            p = p + 1;
        }
        let ghost s1 = v@;
        if p < i {
            let x = v.remove(i);
            v.insert(p, x);
            proof {
                assert(v@ =~= s1.remove(i as int).insert(p as int, s1[i as int]));
                lemma_row_move_preserves(s1, v@, i as int, p as int);
                crate::bits::lemma_move_to_multiset(s1, v@, i as int, p as int);
                s1.remove_ensures(i as int);
                s1.remove(i as int).insert_ensures(p as int, s1[i as int]);
                assert(!result_le(key, s1[p as int], s1[i as int]));
                lemma_result_le_total(key, s1[p as int], s1[i as int]);
                assert forall|i1: int, i2: int| 0 <= i1 < i2 < i + 1 implies result_le(
                    key,
                    v@[i1],
                    v@[i2],
                ) by {
                    if i1 < p && i2 < p {
                        assert(v@[i1] == s1[i1] && v@[i2] == s1[i2]);
                    } else if i1 < p && i2 == p {
                        assert(v@[i1] == s1[i1] && v@[i2] == s1[i as int]);
                    } else if i1 < p && i2 > p {
                        assert(v@[i1] == s1[i1] && v@[i2] == s1[i2 - 1]);
                    } else if i1 == p && i2 > p {
                        assert(v@[i1] == s1[i as int] && v@[i2] == s1[i2 - 1]);
                        lemma_result_le_trans(key, s1[i as int], s1[p as int], s1[i2 - 1]);
                    } else {
                        assert(v@[i1] == s1[i1 - 1] && v@[i2] == s1[i2 - 1]);
                    }
                }
                assert forall|t: int| 0 <= t < v@.len() implies has_row(
                    old(v)@,
                    rv(#[trigger] v@[t]),
                ) by {
                    assert(has_row(s1, rv(v@[t])));
                    let j2 = choose|j2: int| 0 <= j2 < s1.len() && rv(#[trigger] s1[j2]) == rv(
                        v@[t],
                    );
                    assert(has_row(old(v)@, rv(s1[j2])));
                }
                assert forall|j: int| 0 <= j < old(v)@.len() implies has_row(
                    v@,
                    rv(#[trigger] old(v)@[j]),
                ) by {
                    assert(has_row(s1, rv(old(v)@[j])));
                }
            }
        } else {
            proof {
                assert forall|i1: int, i2: int| 0 <= i1 < i2 < i + 1 implies result_le(
                    key,
                    v@[i1],
                    v@[i2],
                ) by {
                    if i2 == i as int {
                        assert(result_le(key, v@[i1], v@[i as int]));
                    }
                }
            }
        }
        i = i + 1;
    }
}

/// Sorts the paired rows by the requested key (stable insertion sort),
/// preserving exactly the element values.
#[verifier::rlimit(100)]
#[verifier::spinoff_prover]
pub fn sort_pair_rows(v: &mut Vec<PairRow>, key: SortKey)
    requires
        pair_rows_pv_wf(old(v)@),
    ensures
        final (v)@.len() == old(v)@.len(),
        final (v)@.to_multiset() == old(v)@.to_multiset(),
        forall|i1: int, i2: int|
            0 <= i1 < i2 < final (v)@.len() ==> pair_row_le(key, final (v)@[i1], final (v)@[i2]),
        forall|i: int|
            0 <= i < final (v)@.len() ==> has_pair_row(old(v)@, prv(#[trigger] final (v)@[i])),
        forall|j: int|
            0 <= j < old(v)@.len() ==> has_pair_row(final (v)@, prv(#[trigger] old(v)@[j])),
{
    let mut i: usize = 1;
    proof {
        assert forall|j: int| 0 <= j < v@.len() implies has_pair_row(
            v@,
            prv(#[trigger] v@[j]),
        ) by {
            assert(prv(v@[j]) == prv(v@[j]));
        }
    }
    while i < v.len()
        invariant
            1 <= i <= v@.len() || v@.len() == 0,
            v@.len() == old(v)@.len(),
            v@.to_multiset() == old(v)@.to_multiset(),
            pair_rows_pv_wf(v@),
            forall|i1: int, i2: int| 0 <= i1 < i2 < i ==> pair_row_le(key, v@[i1], v@[i2]),
            forall|t: int| 0 <= t < v@.len() ==> has_pair_row(old(v)@, prv(#[trigger] v@[t])),
            forall|j: int| 0 <= j < old(v)@.len() ==> has_pair_row(v@, prv(#[trigger] old(v)@[j])),
        decreases v@.len() - i,
    {
        let mut p: usize = 0;
        while p < i && exec_pair_row_le(key, &v[p], &v[i])
            invariant
                p <= i < v@.len(),
                forall|t: int| 0 <= t < p ==> pair_row_le(key, v@[t], v@[i as int]),
            decreases i - p,
        {
            p = p + 1;
        }
        let ghost s1 = v@;
        if p < i {
            let x = v.remove(i);
            v.insert(p, x);
            proof {
                assert(v@ =~= s1.remove(i as int).insert(p as int, s1[i as int]));
                lemma_prow_move_preserves(s1, v@, i as int, p as int);
                crate::bits::lemma_move_to_multiset(s1, v@, i as int, p as int);
                s1.remove_ensures(i as int);
                s1.remove(i as int).insert_ensures(p as int, s1[i as int]);
                assert(!pair_row_le(key, s1[p as int], s1[i as int]));
                lemma_pair_row_le_total(key, s1[p as int], s1[i as int]);
                assert forall|i1: int, i2: int| 0 <= i1 < i2 < i + 1 implies pair_row_le(
                    key,
                    v@[i1],
                    v@[i2],
                ) by {
                    if i1 < p && i2 < p {
                        assert(v@[i1] == s1[i1] && v@[i2] == s1[i2]);
                    } else if i1 < p && i2 == p {
                        assert(v@[i1] == s1[i1] && v@[i2] == s1[i as int]);
                    } else if i1 < p && i2 > p {
                        assert(v@[i1] == s1[i1] && v@[i2] == s1[i2 - 1]);
                    } else if i1 == p && i2 > p {
                        assert(v@[i1] == s1[i as int] && v@[i2] == s1[i2 - 1]);
                        lemma_pair_row_le_trans(key, s1[i as int], s1[p as int], s1[i2 - 1]);
                    } else {
                        assert(v@[i1] == s1[i1 - 1] && v@[i2] == s1[i2 - 1]);
                    }
                }
                assert forall|t: int| 0 <= t < v@.len() implies has_pair_row(
                    old(v)@,
                    prv(#[trigger] v@[t]),
                ) by {
                    assert(has_pair_row(s1, prv(v@[t])));
                    let j2 = choose|j2: int| 0 <= j2 < s1.len() && prv(#[trigger] s1[j2]) == prv(
                        v@[t],
                    );
                    assert(has_pair_row(old(v)@, prv(s1[j2])));
                }
                assert forall|j: int| 0 <= j < old(v)@.len() implies has_pair_row(
                    v@,
                    prv(#[trigger] old(v)@[j]),
                ) by {
                    assert(has_pair_row(s1, prv(old(v)@[j])));
                }
            }
        } else {
            proof {
                assert forall|i1: int, i2: int| 0 <= i1 < i2 < i + 1 implies pair_row_le(
                    key,
                    v@[i1],
                    v@[i2],
                ) by {
                    if i2 == i as int {
                        assert(pair_row_le(key, v@[i1], v@[i as int]));
                    }
                }
            }
        }
        i = i + 1;
    }
}

/// The page start: the offset clamped to the list length, so an offset
/// beyond the length yields an empty page.
pub open spec fn page_start(total: int, offset: int) -> int {
    if offset < total {
        offset
    } else {
        total
    }
}

/// The page end: at most `limit` elements past the start, the whole rest
/// without a limit.
pub open spec fn page_end(total: int, start: int, limit: Option<usize>) -> int {
    match limit {
        Option::None => total,
        Option::Some(l) => if start + l < total {
            start + l
        } else {
            total
        },
    }
}

/// Cuts the requested page out of a ranked list: the elements from the
/// clamped offset up to the limit, with the content-range triple
/// (page start, page end, total).
pub fn paginate<T>(v: Vec<T>, offset: usize, limit: Option<usize>) -> (r: (Vec<T>, usize, usize, usize))
    ensures
        r.3 == v@.len(),
        r.1 == page_start(v@.len() as int, offset as int),
        r.2 == page_end(v@.len() as int, r.1 as int, limit),
        r.0@ == v@.subrange(r.1 as int, r.2 as int),
{
    let ghost orig = v@;
    let mut v = v;
    let total = v.len();
    let start = if offset < total {
        offset
    } else {
        total
    };
    let end = match limit {
        Option::None => total,
        Option::Some(l) => {
            if l < total - start {
                start + l
            } else {
                total
            }
        },
    };
    v.truncate(end);
    proof {
        assert(v@ =~= orig.subrange(0, end as int));
    }
    let mut k: usize = 0;
    while k < start
        invariant
            k <= start <= end <= orig.len(),
            v@ == orig.subrange(k as int, end as int),
        decreases start - k,
    {
        let ghost before = v@;
        v.remove(0);
        proof {
            before.remove_ensures(0);
            assert(v@ =~= orig.subrange(k + 1, end as int));
        }
        k = k + 1;
    }
    (v, start, end, total)
}

} // verus!
