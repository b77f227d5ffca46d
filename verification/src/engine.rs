//! The query engine: owns the background registry, the shared factorial
//! table, and the result caches, and orchestrates one logical operation
//! per call — ensure, query, paired query, evict, bulk export. The
//! surrounding runtime supplies data-source rows, the clock, and
//! concurrency; every decision here is verified.

use vstd::prelude::*;
use crate::bits::{DenseBitVec, count_true};
use crate::cache::{PairCache, ResultCache};
use crate::catalog::{BackgroundIndex, BuildError, CatalogRow, build_index, built_from};
use crate::columns::{GeneRecord, dense_of_list, dense_from_list, input_has_id, seq_has_u128, strictly_sorted_u128};
use crate::consensus::{
    ConsensusRow, adjust_consensus, consensus_rows, cons_wf, filter_consensus, group_agents,
    sort_consensus,
};
use crate::fisher::FactTable;
use crate::pairedq::{PairScored, compute_pair_enrichment};
use crate::pipeline::{ScoredEntry, compute_enrichment};
use crate::ratio::Ratio;
use crate::registry::{BuildDecision, Registry, StatusV};
use crate::rows::{
    PairRow, ResultRow, SortKey, build_pair_rows, build_rows, paginate, sort_pair_rows, sort_rows,
};
use crate::text::to_lower;
use crate::gmt::{gmt_lines, gmt_view, lines_match};

verus! {

/// Why a request was rejected. Data-source failures never reach the
/// engine: the runtime aborts the build instead, and the background
/// stays absent so a later request retries.
#[derive(Debug, PartialEq, Eq, Structural)]
pub enum EngineError {
    /// The input is rejected before any index or cache access: an empty
    /// effective gene list, an empty background, or a background too
    /// large for the column space.
    InvalidInput,
    /// The background is not registered as ready (or no "latest" alias
    /// was ever set).
    NotFound,
}

/// The thresholds, filters, ranking and paging of one query.
pub struct QueryParams {
    pub overlap_ge: usize,
    pub pvalue_le: Ratio,
    pub adj_pvalue_le: Ratio,
    pub filter_term: Option<Vec<u8>>,
    pub filter_fda: Option<bool>,
    pub filter_ko: Option<bool>,
    pub sortby: Option<SortKey>,
    pub offset: usize,
    pub limit: Option<usize>,
    pub top_n: usize,
}

impl QueryParams {
    /// Both p-value ceilings are well-formed rationals.
    pub open spec fn wf(self) -> bool {
        self.pvalue_le.wf() && self.adj_pvalue_le.wf()
    }
}

/// One page of a single-set query answer.
pub struct QueryOutput {
    pub rows: Vec<ResultRow>,
    pub consensus: Vec<ConsensusRow>,
    pub range_start: usize,
    pub range_end: usize,
    pub range_total: usize,
    pub consensus_total: usize,
    pub from_cache: bool,
}

/// One page of a paired query answer.
pub struct PairQueryOutput {
    pub rows: Vec<PairRow>,
    pub consensus: Vec<ConsensusRow>,
    pub range_start: usize,
    pub range_end: usize,
    pub range_total: usize,
    pub consensus_total: usize,
    pub from_cache: bool,
}

/// The engine state shared by all requests.
pub struct Engine {
    pub registry: Registry,
    pub fisher: FactTable,
    pub cache: ResultCache,
    pub cachepair: PairCache,
}

/// A value-preserving copy of a score list.
fn clone_scores(v: &Vec<ScoredEntry>) -> (r: Vec<ScoredEntry>)
    ensures
        r@.len() == v@.len(),
        forall|i: int| 0 <= i < v@.len() ==> crate::pipeline::sv(#[trigger] r@[i]) == crate::pipeline::sv(v@[i]),
{
    let mut out: Vec<ScoredEntry> = Vec::new();
    let mut i: usize = 0;
    while i < v.len()
        invariant
            i <= v@.len(),
            out@.len() == i,
            forall|t: int|
                0 <= t < i ==> crate::pipeline::sv(#[trigger] out@[t]) == crate::pipeline::sv(
                    v@[t],
                ),
        decreases v@.len() - i,
    {
        let e = &v[i];
        out.push(
            ScoredEntry {
                index: e.index,
                n_overlap: e.n_overlap,
                odds: e.odds,
                pvalue: e.pvalue.clone_val(),
                adj_pvalue: e.adj_pvalue.clone_val(),
            },
        );
        i = i + 1;
    }
    out
}

/// A value-preserving copy of a paired score list.
fn clone_pair_scores(v: &Vec<PairScored>) -> (r: Vec<PairScored>)
    ensures
        r@.len() == v@.len(),
        forall|i: int| 0 <= i < v@.len() ==> crate::pairedq::pv(#[trigger] r@[i]) == crate::pairedq::pv(v@[i]),
{
    let mut out: Vec<PairScored> = Vec::new();
    let mut i: usize = 0;
    while i < v.len()
        invariant
            i <= v@.len(),
            out@.len() == i,
            forall|t: int|
                0 <= t < i ==> crate::pairedq::pv(#[trigger] out@[t]) == crate::pairedq::pv(
                    v@[t],
                ),
        decreases v@.len() - i,
    {
        let e = &v[i];
        out.push(
            PairScored {
                index: e.index,
                index_up: e.index_up,
                index_down: e.index_down,
                mimicker_overlap: e.mimicker_overlap,
                reverser_overlap: e.reverser_overlap,
                odds_mimic: e.odds_mimic,
                odds_reverse: e.odds_reverse,
                pvalue_mimic: e.pvalue_mimic.clone_val(),
                pvalue_reverse: e.pvalue_reverse.clone_val(),
                adj_pvalue_mimic: e.adj_pvalue_mimic.clone_val(),
                adj_pvalue_reverse: e.adj_pvalue_reverse.clone_val(),
            },
        );
        i = i + 1;
    }
    out
}

/// A value-preserving copy of an occupancy array.
fn copy_bools(v: &Vec<bool>) -> (r: Vec<bool>)
    ensures
        r@ == v@,
{
    let mut out: Vec<bool> = Vec::new();
    let mut i: usize = 0;
    while i < v.len()
        invariant
            i <= v@.len(),
            out@.len() == i,
            forall|t: int| 0 <= t < i ==> out@[t] == v@[t],
        decreases v@.len() - i,
    {
        out.push(v[i]);
        i = i + 1;
    }
    proof {
        assert(out@ =~= v@);
    }
    out
}

/// A cached score list is usable against this catalog: indices in
/// range and every rational well-formed.
pub open spec fn scores_usable(scores: Seq<ScoredEntry>, n_entries: int) -> bool {
    forall|i: int|
        0 <= i < scores.len() ==> ((#[trigger] scores[i]).index as int) < n_entries
            && scores[i].pvalue.wf() && scores[i].adj_pvalue.wf()
}

fn validate_scores(scores: &Vec<ScoredEntry>, n_entries: usize) -> (r: bool)
    ensures
        r == scores_usable(scores@, n_entries as int),
{
    let mut i: usize = 0;
    while i < scores.len()
        invariant
            i <= scores@.len(),
            forall|t: int|
                0 <= t < i ==> ((#[trigger] scores@[t]).index as int) < n_entries
                    && scores@[t].pvalue.wf() && scores@[t].adj_pvalue.wf(),
        decreases scores@.len() - i,
    {
        if scores[i].index >= n_entries || !scores[i].pvalue.is_wf()
            || !scores[i].adj_pvalue.is_wf() {
            return false;
        }
        i = i + 1;
    }
    true
}

/// A cached paired score list is usable against this catalog.
pub open spec fn pair_scores_usable(scores: Seq<PairScored>, n_entries: int, n_pairs: int) -> bool {
    forall|i: int|
        0 <= i < scores.len() ==> ((#[trigger] scores[i]).index_up as int) < n_entries && (
        scores[i].index_down as int) < n_entries && scores[i].pvalue_mimic.wf()
            && scores[i].pvalue_reverse.wf() && scores[i].adj_pvalue_mimic.wf()
            && scores[i].adj_pvalue_reverse.wf()
}

fn validate_pair_scores(scores: &Vec<PairScored>, n_entries: usize, n_pairs: usize) -> (r: bool)
    ensures
        r == pair_scores_usable(scores@, n_entries as int, n_pairs as int),
{
    let mut i: usize = 0;
    while i < scores.len()
        invariant
            i <= scores@.len(),
            forall|t: int|
                0 <= t < i ==> ((#[trigger] scores@[t]).index_up as int) < n_entries && (
                scores@[t].index_down as int) < n_entries && scores@[t].pvalue_mimic.wf()
                    && scores@[t].pvalue_reverse.wf() && scores@[t].adj_pvalue_mimic.wf()
                    && scores@[t].adj_pvalue_reverse.wf(),
        decreases scores@.len() - i,
    {
        if scores[i].index_up >= n_entries || scores[i].index_down >= n_entries
            || !scores[i].pvalue_mimic.is_wf() || !scores[i].pvalue_reverse.is_wf()
            || !scores[i].adj_pvalue_mimic.is_wf() || !scores[i].adj_pvalue_reverse.is_wf() {
            return false;
        }
        i = i + 1;
    }
    true
}

impl Engine {
    /// Every owned structure is well-formed.
    pub open spec fn wf(self) -> bool {
        &&& self.registry.wf()
        &&& self.fisher.wf()
        &&& self.cache.wf()
        &&& self.cachepair.wf()
    }

    /// The requested background, with the sentinel "latest" resolved.
    pub open spec fn resolve_id(self, bg: Option<u128>) -> Option<u128> {
        match bg {
            Option::Some(id) => Option::Some(id),
            Option::None => self.registry.latest,
        }
    }

    /// The ready index the request resolves to, if any.
    pub open spec fn ready_of(self, bg: Option<u128>) -> Option<BackgroundIndex> {
        match self.resolve_id(bg) {
            Option::None => Option::None,
            Option::Some(id) => match self.registry.status(id) {
                StatusV::Ready(ix) => Option::Some(ix),
                _ => Option::None,
            },
        }
    }

    /// A fresh engine: empty registry, empty caches, and the one-element
    /// factorial table.
    pub fn new(cache_ttl: u64) -> (r: Engine)
        ensures
            r.wf(),
            r.registry.latest is None,
            forall|id: u128| r.registry.status(id) is Absent,
            forall|bg: u128, key: Seq<bool>| !r.cache.has_key(bg, key),
            forall|bg: u128, ku: Seq<bool>, kd: Seq<bool>| !r.cachepair.has_key(bg, ku, kd),
            r.cache.ttl == cache_ttl,
            r.cachepair.ttl == cache_ttl,
            r.fisher.facts@.len() == 1,
    {
        Engine {
            registry: Registry::new(),
            fisher: FactTable::new(),
            cache: ResultCache::new(cache_ttl),
            cachepair: PairCache::new(cache_ttl),
        }
    }

    fn resolve(&self, bg: Option<u128>) -> (r: Option<u128>)
        ensures
            r == self.resolve_id(bg),
    {
        match bg {
            Option::Some(id) => Option::Some(id),
            Option::None => self.registry.latest,
        }
    }

    /// Registers and builds a background from fetched data-source rows,
    /// records it as the process-wide latest, and reports its column
    /// count and catalog size. An already-registered ready background is
    /// reported as is; one being built elsewhere is not touched.
    pub fn install_background(
        &mut self,
        id: u128,
        background: &Vec<GeneRecord>,
        rows: &Vec<CatalogRow>,
    ) -> (r: Result<(usize, usize), EngineError>)
        requires
            old(self).wf(),
        ensures
            final (self).wf(),
            final (self).fisher == old(self).fisher,
            final (self).cache == old(self).cache,
            final (self).cachepair == old(self).cachepair,
            forall|g: u128|
                g != id ==> final (self).registry.status(g) == old(self).registry.status(g),
            match r {
                Ok(counts) => match final (self).registry.status(id) {
                    StatusV::Ready(ix) => counts.0 == ix.genes@.len() && counts.1
                        == ix.entries@.len() && (old(self).registry.status(id) is Absent
                        ==> built_from(ix, background@, rows@) && final (self).registry.latest
                        == Some(id)) && (old(self).registry.status(id) is Ready ==> *final (self)
                        == *old(self)),
                    _ => false,
                },
                Err(EngineError::NotFound) => old(self).registry.status(id) is Building && *final (
                self) == *old(self),
                Err(EngineError::InvalidInput) => old(self).registry.status(id) is Absent && final (
                self).registry.status(id) is Absent && final (self).registry.latest == old(
                    self,
                ).registry.latest && (exists|s: Seq<u128>|
                    strictly_sorted_u128(s) && (forall|g: u128|
                        seq_has_u128(s, g) <==> input_has_id(background@, g)) && s.len() > 65536),
            },
    {
        let decision = self.registry.begin_build(id);
        match decision {
            BuildDecision::Read => {
                match self.registry.get_ready(id) {
                    Option::Some(ix) => Ok((ix.genes.len(), ix.entries.len())),
                    Option::None => {
                        proof {
                            assert(false);
                        }
                        Err(EngineError::NotFound)
                    },
                }
            },
            BuildDecision::Wait => Err(EngineError::NotFound),
            BuildDecision::Start => {
                match build_index(background, rows) {
                    Ok(ix) => {
                        let cols = ix.genes.len();
                        let size = ix.entries.len();
                        self.registry.finish_build(id, ix);
                        Ok((cols, size))
                    },
                    Err(BuildError::TooManyGenes) => {
                        self.registry.abort_build(id);
                        Err(EngineError::InvalidInput)
                    },
                }
            },
        }
    }

    /// Reports a ready background's column count and catalog size.
    pub fn ensure_ready(&self, bg: Option<u128>) -> (r: Result<(usize, usize), EngineError>)
        requires
            self.wf(),
        ensures
            match r {
                Ok(counts) => self.ready_of(bg) is Some && counts.0 == self.ready_of(
                    bg,
                ).unwrap().genes@.len() && counts.1 == self.ready_of(bg).unwrap().entries@.len(),
                Err(e) => self.ready_of(bg) is None && e is NotFound,
            },
    {
        let id = match self.resolve(bg) {
            Option::Some(id) => id,
            Option::None => {
                return Err(EngineError::NotFound);
            },
        };
        match self.registry.get_ready(id) {
            Option::Some(ix) => Ok((ix.genes.len(), ix.entries.len())),
            Option::None => Err(EngineError::NotFound),
        }
    }

    /// Evicts a background: afterwards it is absent, and the next
    /// request for it triggers a full rebuild. Every other background,
    /// both caches, the factorial table and the latest alias survive.
    pub fn delete(&mut self, bg: Option<u128>) -> (r: Result<(), EngineError>)
        requires
            old(self).wf(),
        ensures
            final (self).wf(),
            final (self).fisher == old(self).fisher,
            final (self).cache == old(self).cache,
            final (self).cachepair == old(self).cachepair,
            final (self).registry.latest == old(self).registry.latest,
            forall|g: u128|
                old(self).resolve_id(bg) != Some(g) ==> final (self).registry.status(g) == old(
                    self,
                ).registry.status(g),
            match r {
                Ok(u) => old(self).resolve_id(bg) is Some && final (self).registry.status(
                    old(self).resolve_id(bg).unwrap(),
                ) is Absent,
                Err(e) => e is NotFound && *final (self) == *old(self) && (old(self).resolve_id(
                    bg,
                ) is None || !old(self).registry.has_id(old(self).resolve_id(bg).unwrap())),
            },
    {
        let id = match self.resolve(bg) {
            Option::Some(id) => id,
            Option::None => {
                return Err(EngineError::NotFound);
            },
        };
        let was = self.registry.remove(id);
        if was {
            Ok(())
        } else {
            Err(EngineError::NotFound)
        }
    }

    /// Produces the bulk-export lines of a ready background.
    pub fn gmt_export(&self, bg: Option<u128>) -> (r: Result<Vec<Vec<u8>>, EngineError>)
        requires
            self.wf(),
        ensures
            match r {
                Ok(lines) => self.ready_of(bg) is Some && lines_match(
                    lines@,
                    gmt_view(self.ready_of(bg).unwrap()),
                ),
                Err(e) => self.ready_of(bg) is None && e is NotFound,
            },
    {
        let id = match self.resolve(bg) {
            Option::Some(id) => id,
            Option::None => {
                return Err(EngineError::NotFound);
            },
        };
        match self.registry.get_ready(id) {
            Option::Some(ix) => Ok(gmt_lines(ix)),
            Option::None => Err(EngineError::NotFound),
        }
    }
}



/// The lowercased text filter of a request.
pub open spec fn filter_spec(params: QueryParams) -> Option<Seq<u8>> {
    match params.filter_term {
        Option::None => Option::None,
        Option::Some(fv) => Option::Some(crate::text::lower_bytes(fv@)),
    }
}

/// The re-sort key a request applies to single-set result rows, if any.
pub open spec fn row_key_of(params: QueryParams) -> Option<SortKey> {
    match params.sortby {
        Option::Some(SortKey::Pvalue) => Option::Some(SortKey::Pvalue),
        Option::Some(SortKey::OddsRatio) => Option::Some(SortKey::OddsRatio),
        Option::Some(SortKey::Overlap) => Option::Some(SortKey::Overlap),
        _ => Option::None,
    }
}

/// The re-sort key a request applies to paired result rows, if any.
pub open spec fn pair_row_key_of(params: QueryParams) -> Option<SortKey> {
    match params.sortby {
        Option::Some(SortKey::PvalueMimic) => Option::Some(SortKey::PvalueMimic),
        Option::Some(SortKey::PvalueReverse) => Option::Some(SortKey::PvalueReverse),
        Option::Some(SortKey::OddsRatioMimic) => Option::Some(SortKey::OddsRatioMimic),
        Option::Some(SortKey::OddsRatioReverse) => Option::Some(SortKey::OddsRatioReverse),
        _ => Option::None,
    }
}

/// The key the consensus rows of a single-set query are ranked by.
pub open spec fn cons_key_of(params: QueryParams) -> SortKey {
    match params.sortby {
        Option::Some(SortKey::Pvalue) => SortKey::Pvalue,
        Option::Some(SortKey::OddsRatio) => SortKey::OddsRatio,
        Option::Some(SortKey::OddsRatioUp) => SortKey::OddsRatioUp,
        Option::Some(SortKey::OddsRatioDown) => SortKey::OddsRatioDown,
        Option::Some(SortKey::PvalueUp) => SortKey::PvalueUp,
        Option::Some(SortKey::PvalueDown) => SortKey::PvalueDown,
        _ => SortKey::Pvalue,
    }
}

/// The key the consensus rows of a paired query are ranked by.
pub open spec fn pair_cons_key_of(params: QueryParams) -> SortKey {
    match params.sortby {
        Option::Some(SortKey::Pvalue) => SortKey::Pvalue,
        Option::Some(SortKey::OddsRatio) => SortKey::OddsRatio,
        Option::Some(SortKey::OddsRatioUp) => SortKey::OddsRatioUp,
        Option::Some(SortKey::OddsRatioDown) => SortKey::OddsRatioDown,
        Option::Some(SortKey::PvalueUp) => SortKey::PvalueUp,
        Option::Some(SortKey::PvalueDown) => SortKey::PvalueDown,
        Option::Some(SortKey::PvalueMimic) => SortKey::PvalueUp,
        Option::Some(SortKey::PvalueReverse) => SortKey::PvalueDown,
        Option::Some(SortKey::OddsRatioMimic) => SortKey::OddsRatioUp,
        Option::Some(SortKey::OddsRatioReverse) => SortKey::OddsRatioDown,
        _ => SortKey::Pvalue,
    }
}

/// Element-for-element value equality of two score lists.
pub open spec fn sv_lists_equal(a: Seq<ScoredEntry>, b: Seq<ScoredEntry>) -> bool {
    a.len() == b.len() && forall|i: int|
        0 <= i < a.len() ==> crate::pipeline::sv(#[trigger] a[i]) == crate::pipeline::sv(b[i])
}

/// Element-for-element value equality of two paired score lists.
pub open spec fn pv_lists_equal(a: Seq<PairScored>, b: Seq<PairScored>) -> bool {
    a.len() == b.len() && forall|i: int|
        0 <= i < a.len() ==> crate::pairedq::pv(#[trigger] a[i]) == crate::pairedq::pv(b[i])
}

/// `s` is a ranked score list freshly computed for these thresholds:
/// exact fields, survival of every threshold, the pinned adjusted value,
/// ascending raw p-value, and completeness over the catalog.
pub open spec fn computed_scores(
    ix: BackgroundIndex,
    input: DenseBitVec,
    params: QueryParams,
    s: Seq<ScoredEntry>,
) -> bool {
    &&& forall|i: int|
        0 <= i < s.len() ==> crate::pipeline::result_entry_ok(
            ix,
            input,
            params.overlap_ge as int,
            params.pvalue_le.pair(),
            params.adj_pvalue_le.pair(),
            #[trigger] s[i],
        )
    &&& forall|i1: int, i2: int|
        0 <= i1 < i2 < s.len() ==> crate::ratio::rle_t(s[i1].pvalue.pair(), s[i2].pvalue.pair())
    &&& forall|i1: int, i2: int| 0 <= i1 < i2 < s.len() ==> s[i1].index != s[i2].index
    &&& forall|k: int, v: (nat, nat)|
        0 <= k < ix.entries@.len() && crate::pipeline::survives(
            ix,
            input,
            k,
            params.overlap_ge as int,
            params.pvalue_le.pair(),
        ) && #[trigger] crate::bh::bh_pinned(
            crate::pipeline::pv_full(ix, input, params.overlap_ge as int, params.pvalue_le.pair()),
            k,
            v,
        ) && v.1 > 0 && crate::ratio::rle_t(v, params.adj_pvalue_le.pair())
            ==> crate::pipeline::contains_index(s, k)
}

/// `s` is a ranked paired score list freshly computed for these
/// thresholds.
pub open spec fn computed_pair_scores(
    ix: BackgroundIndex,
    up: DenseBitVec,
    down: DenseBitVec,
    params: QueryParams,
    s: Seq<PairScored>,
) -> bool {
    &&& forall|i: int|
        0 <= i < s.len() ==> crate::pairedq::result_pair_ok(
            ix,
            up,
            down,
            params.overlap_ge as int,
            params.pvalue_le.pair(),
            params.adj_pvalue_le.pair(),
            #[trigger] s[i],
        )
    &&& forall|i1: int, i2: int|
        0 <= i1 < i2 < s.len() ==> crate::ratio::rle_t(
            s[i1].pvalue_mimic.pair(),
            s[i2].pvalue_mimic.pair(),
        )
    &&& forall|i1: int, i2: int| 0 <= i1 < i2 < s.len() ==> s[i1].index != s[i2].index
    &&& forall|tp: int, vm: (nat, nat), vr: (nat, nat)|
        0 <= tp < ix.pairs@.len() && crate::pairedq::pair_survives(
            ix,
            up,
            down,
            tp,
            params.overlap_ge as int,
            params.pvalue_le.pair(),
        ) && #[trigger] crate::bh::bh_pinned(
            crate::pairedq::pair_pv_full(
                ix,
                up,
                down,
                params.overlap_ge as int,
                params.pvalue_le.pair(),
                true,
            ),
            tp,
            vm,
        ) && #[trigger] crate::bh::bh_pinned(
            crate::pairedq::pair_pv_full(
                ix,
                up,
                down,
                params.overlap_ge as int,
                params.pvalue_le.pair(),
                false,
            ),
            tp,
            vr,
        ) && vm.1 > 0 && vr.1 > 0 && (crate::ratio::rle_t(vm, params.adj_pvalue_le.pair())
            || crate::ratio::rle_t(vr, params.adj_pvalue_le.pair()))
            ==> crate::pairedq::contains_pair(s, tp)
}

/// `s` restates, value for value, the fresh list cached under this
/// query's fingerprint — itself a computed, ranked, distinct-position
/// score list for this very occupancy under some index and thresholds.
pub open spec fn cached_scores(
    e: Engine,
    id: u128,
    input: DenseBitVec,
    now: u64,
    s: Seq<ScoredEntry>,
) -> bool {
    &&& e.cache.has_key(id, input.v@)
    &&& crate::cache::fresh(
        e.cache.entries@[e.cache.pos_of(id, input.v@)].stamp,
        now,
        e.cache.ttl,
    )
    &&& sv_lists_equal(s, e.cache.entries@[e.cache.pos_of(id, input.v@)].results@)
    &&& exists|
        ix2: BackgroundIndex,
        input2: DenseBitVec,
        ov2: int,
        ple2: (nat, nat),
        aple2: (nat, nat),
    |
        #[trigger] crate::cache::scores_pinned(ix2, input2, ov2, ple2, aple2, input.v@, s)
}

/// A pinned score list keeps every clause under value-for-value
/// replacement of its elements.
proof fn lemma_scores_pinned_sv(
    ix: BackgroundIndex,
    input: DenseBitVec,
    ov: int,
    ple: (nat, nat),
    aple: (nat, nat),
    key: Seq<bool>,
    s1: Seq<ScoredEntry>,
    s2: Seq<ScoredEntry>,
)
    requires
        crate::cache::scores_pinned(ix, input, ov, ple, aple, key, s1),
        sv_lists_equal(s2, s1),
    ensures
        crate::cache::scores_pinned(ix, input, ov, ple, aple, key, s2),
{
    assert forall|i: int| 0 <= i < s2.len() implies crate::pipeline::result_entry_ok(
        ix,
        input,
        ov,
        ple,
        aple,
        #[trigger] s2[i],
    ) by {
        assert(crate::pipeline::sv(s2[i]) == crate::pipeline::sv(s1[i]));
        assert(crate::pipeline::result_entry_ok(ix, input, ov, ple, aple, s1[i]));
    }
    assert forall|i1: int, i2: int| 0 <= i1 < i2 < s2.len() implies crate::ratio::rle_t(
        s2[i1].pvalue.pair(),
        s2[i2].pvalue.pair(),
    ) && s2[i1].index != s2[i2].index by {
        assert(crate::pipeline::sv(s2[i1]) == crate::pipeline::sv(s1[i1]));
        assert(crate::pipeline::sv(s2[i2]) == crate::pipeline::sv(s1[i2]));
    }
}

/// A pinned paired score list keeps every clause under value-for-value
/// replacement of its elements.
proof fn lemma_pair_scores_pinned_sv(
    ix: BackgroundIndex,
    up: DenseBitVec,
    down: DenseBitVec,
    ov: int,
    ple: (nat, nat),
    aple: (nat, nat),
    ku: Seq<bool>,
    kd: Seq<bool>,
    s1: Seq<PairScored>,
    s2: Seq<PairScored>,
)
    requires
        crate::cache::pair_scores_pinned(ix, up, down, ov, ple, aple, ku, kd, s1),
        pv_lists_equal(s2, s1),
    ensures
        crate::cache::pair_scores_pinned(ix, up, down, ov, ple, aple, ku, kd, s2),
{
    assert forall|i: int| 0 <= i < s2.len() implies crate::pairedq::result_pair_ok(
        ix,
        up,
        down,
        ov,
        ple,
        aple,
        #[trigger] s2[i],
    ) by {
        assert(crate::pairedq::pv(s2[i]) == crate::pairedq::pv(s1[i]));
        assert(crate::pairedq::result_pair_ok(ix, up, down, ov, ple, aple, s1[i]));
    }
    assert forall|i1: int, i2: int| 0 <= i1 < i2 < s2.len() implies crate::ratio::rle_t(
        s2[i1].pvalue_mimic.pair(),
        s2[i2].pvalue_mimic.pair(),
    ) && s2[i1].index != s2[i2].index by {
        assert(crate::pairedq::pv(s2[i1]) == crate::pairedq::pv(s1[i1]));
        assert(crate::pairedq::pv(s2[i2]) == crate::pairedq::pv(s1[i2]));
    }
}

/// `s` restates, value for value, the fresh paired list cached under
/// this query's fingerprint.
pub open spec fn cached_pair_scores(
    e: Engine,
    id: u128,
    up: DenseBitVec,
    down: DenseBitVec,
    now: u64,
    s: Seq<PairScored>,
) -> bool {
    &&& e.cachepair.has_key(id, up.v@, down.v@)
    &&& crate::cache::fresh(
        e.cachepair.entries@[e.cachepair.pos_of(id, up.v@, down.v@)].stamp,
        now,
        e.cachepair.ttl,
    )
    &&& pv_lists_equal(s, e.cachepair.entries@[e.cachepair.pos_of(id, up.v@, down.v@)].results@)
    &&& exists|
        ix2: BackgroundIndex,
        up2: DenseBitVec,
        down2: DenseBitVec,
        ov2: int,
        ple2: (nat, nat),
        aple2: (nat, nat),
    |
        #[trigger] crate::cache::pair_scores_pinned(
            ix2,
            up2,
            down2,
            ov2,
            ple2,
            aple2,
            up.v@,
            down.v@,
            s,
        )
}

/// The row value occurs in the model list.
pub open spec fn rowv_in(model: Seq<crate::rows::RowV>, x: crate::rows::RowV) -> bool {
    exists|j: int| 0 <= j < model.len() && #[trigger] model[j] == x
}

/// The paired row value occurs in the model list.
pub open spec fn pairv_in(model: Seq<crate::rows::PairRowV>, x: crate::rows::PairRowV) -> bool {
    exists|j: int| 0 <= j < model.len() && #[trigger] model[j] == x
}

/// The consensus row value occurs in the model list.
pub open spec fn consv_in(model: Seq<crate::consensus::ConsV>, x: crate::consensus::ConsV) -> bool {
    exists|j: int| 0 <= j < model.len() && #[trigger] model[j] == x
}

/// `full` carries the filtered rows of `model`: exactly `model` in order
/// when no re-sort applies, else the same row values ranked by the key.
pub open spec fn full_rows_ok(
    model: Seq<crate::rows::RowV>,
    key: Option<SortKey>,
    full: Seq<ResultRow>,
) -> bool {
    &&& full.len() == model.len()
    &&& match key {
        Option::None => forall|l: int|
            0 <= l < full.len() ==> crate::rows::rv(#[trigger] full[l]) == model[l],
        Option::Some(kk) => {
            &&& forall|l: int|
                #![trigger full[l]]
                0 <= l < full.len() ==> rowv_in(model, crate::rows::rv(full[l]))
            &&& forall|j: int|
                #![trigger model[j]]
                0 <= j < model.len() ==> crate::rows::has_row(full, model[j])
            &&& forall|l1: int, l2: int|
                0 <= l1 < l2 < full.len() ==> crate::rows::result_le(kk, full[l1], full[l2])
        },
    }
}

/// `full` carries the filtered paired rows of `model`.
pub open spec fn full_pair_rows_ok(
    model: Seq<crate::rows::PairRowV>,
    key: Option<SortKey>,
    full: Seq<PairRow>,
) -> bool {
    &&& full.len() == model.len()
    &&& match key {
        Option::None => forall|l: int|
            0 <= l < full.len() ==> crate::rows::prv(#[trigger] full[l]) == model[l],
        Option::Some(kk) => {
            &&& forall|l: int|
                #![trigger full[l]]
                0 <= l < full.len() ==> pairv_in(model, crate::rows::prv(full[l]))
            &&& forall|j: int|
                #![trigger model[j]]
                0 <= j < model.len() ==> crate::rows::has_pair_row(full, model[j])
            &&& forall|l1: int, l2: int|
                0 <= l1 < l2 < full.len() ==> crate::rows::pair_row_le(kk, full[l1], full[l2])
        },
    }
}

/// `cfull` carries the filtered consensus rows of `model`, ranked by the
/// key.
pub open spec fn full_cons_ok(
    model: Seq<crate::consensus::ConsV>,
    key: SortKey,
    cfull: Seq<ConsensusRow>,
) -> bool {
    &&& cfull.len() == model.len()
    &&& forall|l: int|
        #![trigger cfull[l]]
        0 <= l < cfull.len() ==> consv_in(model, crate::consensus::cv(cfull[l]))
    &&& forall|j: int|
        #![trigger model[j]]
        0 <= j < model.len() ==> crate::consensus::has_cons(cfull, model[j])
    &&& forall|l1: int, l2: int|
        0 <= l1 < l2 < cfull.len() ==> crate::consensus::cons_le(key, cfull[l1], cfull[l2])
}

/// The rows page and content range of a single-set answer follow from
/// the score list `s`.
pub open spec fn rows_page_ok(
    ix: BackgroundIndex,
    s: Seq<ScoredEntry>,
    params: QueryParams,
    out: QueryOutput,
) -> bool {
    let model = crate::rows::rows_upto(
        ix,
        s,
        filter_spec(params),
        params.filter_fda,
        params.filter_ko,
        s.len() as int,
    );
    &&& out.range_total == model.len()
    &&& out.range_start == crate::rows::page_start(model.len() as int, params.offset as int)
    &&& out.range_end == crate::rows::page_end(
        model.len() as int,
        out.range_start as int,
        params.limit,
    )
    &&& exists|full: Seq<ResultRow>|
        #[trigger] full_rows_ok(model, row_key_of(params), full) && out.rows@ == full.subrange(
            out.range_start as int,
            out.range_end as int,
        )
}

/// The rows page and content range of a paired answer follow from the
/// score list `s`.
pub open spec fn pair_rows_page_ok(
    ix: BackgroundIndex,
    s: Seq<PairScored>,
    params: QueryParams,
    out: PairQueryOutput,
) -> bool {
    let model = crate::rows::pair_rows_upto(
        ix,
        s,
        filter_spec(params),
        params.filter_fda,
        params.filter_ko,
        s.len() as int,
    );
    &&& out.range_total == model.len()
    &&& out.range_start == crate::rows::page_start(model.len() as int, params.offset as int)
    &&& out.range_end == crate::rows::page_end(
        model.len() as int,
        out.range_start as int,
        params.limit,
    )
    &&& exists|full: Seq<PairRow>|
        #[trigger] full_pair_rows_ok(model, pair_row_key_of(params), full) && out.rows@
            == full.subrange(out.range_start as int, out.range_end as int)
}

/// The grouped agents, their statistics rows, and the corrected rows of
/// one consensus pass.
pub open spec fn consensus_chain_ok(
    ix: BackgroundIndex,
    s: Seq<ScoredEntry>,
    flags: Seq<bool>,
    by_flag: bool,
    top_n: int,
    nsig: int,
    ninsig: int,
    agents: Seq<crate::consensus::AgentCount>,
    rows0: Seq<ConsensusRow>,
    adj: Seq<ConsensusRow>,
) -> bool {
    let lim = if top_n < s.len() {
        top_n
    } else {
        s.len() as int
    };
    &&& forall|m1: int, m2: int|
        0 <= m1 < m2 < agents.len() ==> agents[m1].pert@ != agents[m2].pert@
    &&& forall|m: int| 0 <= m < agents.len() ==> (#[trigger] agents[m]).pert@.len() > 0
    &&& forall|m: int|
        0 <= m < agents.len() ==> crate::bignum::big_nat((#[trigger] agents[m]).sig)
            == crate::consensus::sig_count(ix, s, agents[m].pert@, lim, 0)
    &&& forall|m: int|
        0 <= m < agents.len() ==> crate::bignum::big_nat((#[trigger] agents[m]).sig_up)
            == crate::consensus::sig_up_count(ix, s, flags, by_flag, agents[m].pert@, lim, 0)
    &&& forall|m: int|
        0 <= m < agents.len() ==> crate::consensus::agent_meta_ok(
            ix,
            s,
            lim,
            #[trigger] agents[m],
        )
    &&& forall|pert: Seq<u8>|
        crate::consensus::pert_seen(ix, s, lim, 0, pert)
            ==> #[trigger] crate::consensus::agent_listed(agents, pert)
    &&& rows0.len() == agents.len()
    &&& forall|m: int|
        0 <= m < rows0.len() ==> (#[trigger] rows0[m]).pert@ == agents[m].pert@
            && crate::bignum::big_nat(rows0[m].count_significant) == crate::bignum::big_nat(
            agents[m].sig,
        ) && crate::bignum::big_nat(rows0[m].count_insignificant) == crate::consensus::insig_of(
            crate::bignum::big_nat(agents[m].sig) as int,
            agents[m].total as int,
        ) && crate::bignum::big_nat(rows0[m].count_up_significant) == crate::bignum::big_nat(
            agents[m].sig_up,
        ) && rows0[m].approved == agents[m].approved && crate::consensus::stats_fields_ok(
            crate::bignum::big_nat(agents[m].sig) as int,
            crate::consensus::insig_of(
                crate::bignum::big_nat(agents[m].sig) as int,
                agents[m].total as int,
            ),
            crate::bignum::big_nat(agents[m].sig_up) as int,
            nsig,
            ninsig,
            rows0[m],
        )
    &&& adj.len() == rows0.len()
    &&& forall|m: int|
        0 <= m < adj.len() ==> crate::consensus::row_same_but_adj(#[trigger] adj[m], rows0[m])
            && adj[m].adj_pvalue.wf() && adj[m].adj_pvalue_up.wf() && adj[m].adj_pvalue_down.wf()
            && crate::bh::bh_pinned(
            crate::consensus::cons_pv(rows0),
            m,
            adj[m].adj_pvalue.pair(),
        ) && crate::bh::bh_pinned(
            crate::consensus::cons_pv_up(rows0),
            m,
            adj[m].adj_pvalue_up.pair(),
        ) && crate::bh::bh_pinned(
            crate::consensus::cons_pv_down(rows0),
            m,
            adj[m].adj_pvalue_down.pair(),
        )
}

/// The consensus page and total of an answer follow from the corrected
/// rows `adj`.
pub open spec fn cons_page_ok(
    adj: Seq<ConsensusRow>,
    params: QueryParams,
    key: SortKey,
    cons_total: int,
    cons_page: Seq<ConsensusRow>,
) -> bool {
    let model = crate::consensus::cons_upto(
        adj,
        filter_spec(params),
        params.filter_fda,
        params.filter_ko,
        adj.len() as int,
    );
    let cstart = crate::rows::page_start(model.len() as int, params.offset as int);
    let cend = crate::rows::page_end(model.len() as int, cstart, params.limit);
    &&& cons_total == model.len()
    &&& exists|cfull: Seq<ConsensusRow>|
        #[trigger] full_cons_ok(model, key, cfull) && cons_page == cfull.subrange(cstart, cend)
}

/// The consensus of an answer follows from some chain over `s`.
pub open spec fn consensus_answer_ok(
    ix: BackgroundIndex,
    s: Seq<ScoredEntry>,
    flags: Seq<bool>,
    by_flag: bool,
    params: QueryParams,
    key: SortKey,
    nsig: int,
    ninsig: int,
    cons_total: int,
    cons_page: Seq<ConsensusRow>,
) -> bool {
    exists|
        agents: Seq<crate::consensus::AgentCount>,
        rows0: Seq<ConsensusRow>,
        adj: Seq<ConsensusRow>,
    |
        #[trigger] consensus_chain_ok(
            ix,
            s,
            flags,
            by_flag,
            params.top_n as int,
            nsig,
            ninsig,
            agents,
            rows0,
            adj,
        ) && cons_page_ok(adj, params, key, cons_total, cons_page)
}

/// One witness for a single-set answer: the effective input bitvector
/// and the score list (freshly computed for these thresholds, or a
/// value-identical copy of the fresh cached list) from which the rows,
/// consensus and ranges all follow.
pub open spec fn query_witness(
    e: Engine,
    e2: Engine,
    ix: BackgroundIndex,
    id: u128,
    genes: Seq<u128>,
    params: QueryParams,
    now: u64,
    input: DenseBitVec,
    s: Seq<ScoredEntry>,
    out: QueryOutput,
) -> bool {
    &&& input.wf()
    &&& input.v@ == dense_of_list(ix.genes@, genes)
    &&& scores_usable(s, ix.entries@.len() as int)
    &&& (out.from_cache ==> cached_scores(e, id, input, now, s) && e2.cache == e.cache)
    &&& (!out.from_cache ==> computed_scores(ix, input, params, s) && e2.cache.has_key(
        id,
        input.v@,
    ) && e2.cache.entries@[e2.cache.pos_of(id, input.v@)].stamp == now && sv_lists_equal(
        e2.cache.entries@[e2.cache.pos_of(id, input.v@)].results@,
        s,
    ) && crate::cache::cache_kept_others(e.cache, e2.cache, id, input.v@))
    &&& rows_page_ok(ix, s, params, out)
    &&& consensus_answer_ok(
        ix,
        s,
        Seq::empty(),
        false,
        params,
        cons_key_of(params),
        s.len() as int,
        (if s.len() <= ix.entries@.len() {
            ix.entries@.len() - s.len()
        } else {
            0
        }) as int,
        out.consensus_total as int,
        out.consensus@,
    )
}

/// The single-set answer is fully determined (up to cache reuse) by the
/// ready index, the input membership, the thresholds and the clock.
pub open spec fn query_answer_ok(
    e: Engine,
    e2: Engine,
    ix: BackgroundIndex,
    id: u128,
    genes: Seq<u128>,
    params: QueryParams,
    now: u64,
    out: QueryOutput,
) -> bool {
    exists|input: DenseBitVec, s: Seq<ScoredEntry>|
        #[trigger] query_witness(e, e2, ix, id, genes, params, now, input, s, out)
}

/// One witness for a paired answer: both input bitvectors, the paired
/// score list, and the proxy rows and direction flags its consensus pass
/// tallies.
pub open spec fn pair_query_witness(
    e: Engine,
    e2: Engine,
    ix: BackgroundIndex,
    id: u128,
    up_genes: Seq<u128>,
    down_genes: Seq<u128>,
    params: QueryParams,
    now: u64,
    up: DenseBitVec,
    down: DenseBitVec,
    s: Seq<PairScored>,
    proxies: Seq<ScoredEntry>,
    flags: Seq<bool>,
    out: PairQueryOutput,
) -> bool {
    &&& up.wf() && down.wf()
    &&& up.v@ == dense_of_list(ix.genes@, up_genes)
    &&& down.v@ == dense_of_list(ix.genes@, down_genes)
    &&& pair_scores_usable(s, ix.entries@.len() as int, ix.pairs@.len() as int)
    &&& (out.from_cache ==> cached_pair_scores(e, id, up, down, now, s) && e2.cachepair
        == e.cachepair)
    &&& (!out.from_cache ==> computed_pair_scores(ix, up, down, params, s)
        && e2.cachepair.has_key(id, up.v@, down.v@) && e2.cachepair.entries@[e2.cachepair.pos_of(
        id,
        up.v@,
        down.v@,
    )].stamp == now && pv_lists_equal(
        e2.cachepair.entries@[e2.cachepair.pos_of(id, up.v@, down.v@)].results@,
        s,
    ) && crate::cache::pair_cache_kept_others(e.cachepair, e2.cachepair, id, up.v@, down.v@))
    &&& pair_rows_page_ok(ix, s, params, out)
    &&& proxies.len() == s.len()
    &&& forall|i: int|
        0 <= i < s.len() ==> ((#[trigger] proxies[i]).index as int) == (s[i].index_up as int)
    &&& flags.len() == s.len()
    &&& forall|i: int|
        0 <= i < s.len() ==> #[trigger] flags[i] == !crate::ratio::rle_t(
            s[i].pvalue_reverse.pair(),
            s[i].pvalue_mimic.pair(),
        )
    &&& consensus_answer_ok(
        ix,
        proxies,
        flags,
        true,
        params,
        pair_cons_key_of(params),
        (s.len() / 2) as int,
        (if s.len() / 2 <= ix.entries@.len() / 2 {
            ix.entries@.len() / 2 - s.len() / 2
        } else {
            0
        }) as int,
        out.consensus_total as int,
        out.consensus@,
    )
}

/// The paired answer is fully determined (up to cache reuse) by the
/// ready index, both input memberships, the thresholds and the clock.
pub open spec fn pair_query_answer_ok(
    e: Engine,
    e2: Engine,
    ix: BackgroundIndex,
    id: u128,
    up_genes: Seq<u128>,
    down_genes: Seq<u128>,
    params: QueryParams,
    now: u64,
    out: PairQueryOutput,
) -> bool {
    exists|
        up: DenseBitVec,
        down: DenseBitVec,
        s: Seq<PairScored>,
        proxies: Seq<ScoredEntry>,
        flags: Seq<bool>,
    |
        #[trigger] pair_query_witness(
            e,
            e2,
            ix,
            id,
            up_genes,
            down_genes,
            params,
            now,
            up,
            down,
            s,
            proxies,
            flags,
            out,
        )
}


#[verifier::rlimit(100)]
#[verifier::spinoff_prover]
proof fn lemma_full_rows_sorted(
    built: Seq<ResultRow>,
    full: Seq<ResultRow>,
    model: Seq<crate::rows::RowV>,
    kk: SortKey,
)
    requires
        crate::rows::rows_match(built, model),
        full.len() == built.len(),
        forall|l: int|
            0 <= l < full.len() ==> crate::rows::has_row(built, crate::rows::rv(#[trigger] full[l])),
        forall|j: int|
            0 <= j < built.len() ==> crate::rows::has_row(
                full,
                crate::rows::rv(#[trigger] built[j]),
            ),
        forall|l1: int, l2: int|
            0 <= l1 < l2 < full.len() ==> crate::rows::result_le(kk, full[l1], full[l2]),
    ensures
        full_rows_ok(model, Option::Some(kk), full),
{
    assert forall|l: int| #![trigger full[l]] 0 <= l < full.len() implies rowv_in(
        model,
        crate::rows::rv(full[l]),
    ) by {
        let j = choose|j: int|
            0 <= j < built.len() && crate::rows::rv(#[trigger] built[j]) == crate::rows::rv(
                full[l],
            );
        assert(model[j] == crate::rows::rv(full[l]));
    }
    assert forall|j: int| #![trigger model[j]] 0 <= j < model.len() implies crate::rows::has_row(
        full,
        model[j],
    ) by {
        assert(crate::rows::rv(built[j]) == model[j]);
        assert(crate::rows::has_row(full, crate::rows::rv(built[j])));
    }
}

#[verifier::rlimit(100)]
#[verifier::spinoff_prover]
proof fn lemma_full_pair_rows_sorted(
    built: Seq<PairRow>,
    full: Seq<PairRow>,
    model: Seq<crate::rows::PairRowV>,
    kk: SortKey,
)
    requires
        crate::rows::pair_rows_match(built, model),
        full.len() == built.len(),
        forall|l: int|
            0 <= l < full.len() ==> crate::rows::has_pair_row(
                built,
                crate::rows::prv(#[trigger] full[l]),
            ),
        forall|j: int|
            0 <= j < built.len() ==> crate::rows::has_pair_row(
                full,
                crate::rows::prv(#[trigger] built[j]),
            ),
        forall|l1: int, l2: int|
            0 <= l1 < l2 < full.len() ==> crate::rows::pair_row_le(kk, full[l1], full[l2]),
    ensures
        full_pair_rows_ok(model, Option::Some(kk), full),
{
    assert forall|l: int| #![trigger full[l]] 0 <= l < full.len() implies pairv_in(
        model,
        crate::rows::prv(full[l]),
    ) by {
        let j = choose|j: int|
            0 <= j < built.len() && crate::rows::prv(#[trigger] built[j]) == crate::rows::prv(
                full[l],
            );
        assert(model[j] == crate::rows::prv(full[l]));
    }
    assert forall|j: int| #![trigger model[j]] 0 <= j
        < model.len() implies crate::rows::has_pair_row(full, model[j]) by {
        assert(crate::rows::prv(built[j]) == model[j]);
        assert(crate::rows::has_pair_row(full, crate::rows::prv(built[j])));
    }
}

#[verifier::rlimit(100)]
#[verifier::spinoff_prover]
proof fn lemma_full_cons_sorted(
    filtered: Seq<ConsensusRow>,
    full: Seq<ConsensusRow>,
    model: Seq<crate::consensus::ConsV>,
    key: SortKey,
)
    requires
        crate::consensus::cons_match(filtered, model),
        full.len() == filtered.len(),
        forall|l: int|
            0 <= l < full.len() ==> crate::consensus::has_cons(
                filtered,
                crate::consensus::cv(#[trigger] full[l]),
            ),
        forall|j: int|
            0 <= j < filtered.len() ==> crate::consensus::has_cons(
                full,
                crate::consensus::cv(#[trigger] filtered[j]),
            ),
        forall|l1: int, l2: int|
            0 <= l1 < l2 < full.len() ==> crate::consensus::cons_le(key, full[l1], full[l2]),
    ensures
        full_cons_ok(model, key, full),
{
    assert forall|l: int| #![trigger full[l]] 0 <= l < full.len() implies consv_in(
        model,
        crate::consensus::cv(full[l]),
    ) by {
        let j = choose|j: int|
            0 <= j < filtered.len() && crate::consensus::cv(#[trigger] filtered[j])
                == crate::consensus::cv(full[l]);
        assert(model[j] == crate::consensus::cv(full[l]));
    }
    assert forall|j: int| #![trigger model[j]] 0 <= j
        < model.len() implies crate::consensus::has_cons(full, model[j]) by {
        assert(crate::consensus::cv(filtered[j]) == model[j]);
        assert(crate::consensus::has_cons(full, crate::consensus::cv(filtered[j])));
    }
}

/// The effective query is empty: an empty background or an input gene
/// list with no member in it.
pub open spec fn empty_query(ix: BackgroundIndex, genes: Seq<u128>) -> bool {
    ix.genes@.len() == 0 || count_true(dense_of_list(ix.genes@, genes)) == 0
}

/// The effective paired query is empty: an empty background or two input
/// lists with no member in them.
pub open spec fn empty_pair_query(ix: BackgroundIndex, up: Seq<u128>, down: Seq<u128>) -> bool {
    ix.genes@.len() == 0 || (count_true(dense_of_list(ix.genes@, up)) + count_true(
        dense_of_list(ix.genes@, down),
    ) == 0)
}

impl Engine {
    /// Answers a single-set query: resolve the background, reject an
    /// empty effective input, reuse a fresh cached score list or compute
    /// and cache one, aggregate consensus statistics over the top-ranked
    /// rows, apply the filters, rank by the requested key, and cut the
    /// requested pages.
    #[verifier::rlimit(100)]
    #[verifier::spinoff_prover]
    pub fn query(
        &mut self,
        bg: Option<u128>,
        genes: &Vec<u128>,
        params: &QueryParams,
        now: u64,
    ) -> (r: Result<QueryOutput, EngineError>)
        requires
            old(self).wf(),
            params.wf(),
        ensures
            final (self).wf(),
            final (self).registry == old(self).registry,
            final (self).cachepair == old(self).cachepair,
            final (self).fisher.facts@.len() >= old(self).fisher.facts@.len(),
            match r {
                Ok(out) => old(self).ready_of(bg) is Some && !empty_query(
                    old(self).ready_of(bg).unwrap(),
                    genes@,
                ) && out.range_start <= out.range_end <= out.range_total && out.rows@.len()
                    == out.range_end - out.range_start && query_answer_ok(
                    *old(self),
                    *final (self),
                    old(self).ready_of(bg).unwrap(),
                    old(self).resolve_id(bg).unwrap(),
                    genes@,
                    *params,
                    now,
                    out,
                ),
                Err(EngineError::NotFound) => old(self).ready_of(bg) is None && *final (self)
                    == *old(self),
                Err(EngineError::InvalidInput) => old(self).ready_of(bg) is Some && empty_query(
                    old(self).ready_of(bg).unwrap(),
                    genes@,
                ) && *final (self) == *old(self),
            },
    {
        let id = match self.resolve(bg) {
            Option::Some(id) => id,
            Option::None => {
                return Err(EngineError::NotFound);
            },
        };
        let ix = match self.registry.get_ready(id) {
            Option::Some(ix) => ix,
            Option::None => {
                return Err(EngineError::NotFound);
            },
        };
        proof {
            assert(old(self).resolve_id(bg) == Some(id));
            assert(old(self).ready_of(bg) == Some(*ix));
        }
        let input = dense_from_list(&ix.genes, genes);
        if ix.genes.len() == 0 || input.n == 0 {
            return Err(EngineError::InvalidInput);
        }
        let n_entries = ix.entries.len();
        let mut from_cache = false;
        let mut scores: Vec<ScoredEntry>;
        let mut cache_ok = false;
        proof {
            assert(self.cache == old(self).cache);
        }
        match self.cache.get(id, &input.v, now) {
            Option::Some(v) => {
                scores = clone_scores(v);
                proof {
                    assert(sv_lists_equal(
                        scores@,
                        old(self).cache.entries@[old(self).cache.pos_of(id, input.v@)].results@,
                    ));
                }
                if validate_scores(&scores, n_entries) {
                    from_cache = true;
                    cache_ok = true;
                    proof {
                        // the stored list carries a computation of its
                        // own, which its value-copy keeps
                        let pos = old(self).cache.pos_of(id, input.v@);
                        assert(crate::cache::stored_scores_ok(old(self).cache.entries@[pos]));
                        assert(old(self).cache.entries@[pos].key@ == input.v@);
                        let (ix2, input2, ov2, ple2, aple2) = choose|
                            ix2: BackgroundIndex,
                            input2: DenseBitVec,
                            ov2: int,
                            ple2: (nat, nat),
                            aple2: (nat, nat),
                        |
                            #[trigger] crate::cache::scores_pinned(
                                ix2,
                                input2,
                                ov2,
                                ple2,
                                aple2,
                                old(self).cache.entries@[pos].key@,
                                old(self).cache.entries@[pos].results@,
                            );
                        lemma_scores_pinned_sv(
                            ix2,
                            input2,
                            ov2,
                            ple2,
                            aple2,
                            input.v@,
                            old(self).cache.entries@[pos].results@,
                            scores@,
                        );
                        assert(cached_scores(*old(self), id, input, now, scores@));
                    }
                }
            },
            Option::None => {
                scores = Vec::new();
            },
        }
        if !cache_ok {
            scores = compute_enrichment(
                ix,
                &mut self.fisher,
                &input,
                params.overlap_ge,
                &params.pvalue_le,
                &params.adj_pvalue_le,
            );
            proof {
                assert forall|i: int| 0 <= i < scores@.len() implies ((
                #[trigger] scores@[i]).index as int) < n_entries && scores@[i].pvalue.wf()
                    && scores@[i].adj_pvalue.wf() by {
                    assert(crate::pipeline::result_entry_ok(
                        *ix,
                        input,
                        params.overlap_ge as int,
                        params.pvalue_le.pair(),
                        params.adj_pvalue_le.pair(),
                        scores@[i],
                    ));
                }
            }
            proof {
                assert(computed_scores(*ix, input, *params, scores@));
            }
            let copy = clone_scores(&scores);
            proof {
                // the list being cached is the computation just made
                assert(crate::cache::scores_pinned(
                    *ix,
                    input,
                    params.overlap_ge as int,
                    params.pvalue_le.pair(),
                    params.adj_pvalue_le.pair(),
                    input.v@,
                    scores@,
                ));
                lemma_scores_pinned_sv(
                    *ix,
                    input,
                    params.overlap_ge as int,
                    params.pvalue_le.pair(),
                    params.adj_pvalue_le.pair(),
                    input.v@,
                    scores@,
                    copy@,
                );
            }
            self.cache.insert(id, copy_bools(&input.v), copy, now);
        }
        proof {
            assert(scores_usable(scores@, n_entries as int));
        }
        // consensus aggregation over the top-ranked rows
        let n_sig = scores.len();
        let n_insig = if n_sig <= n_entries {
            n_entries - n_sig
        } else {
            0
        };
        let noflags: Vec<bool> = Vec::new();
        let agents = group_agents(ix, &scores, &noflags, false, params.top_n);
        let crows = consensus_rows(
            &agents,
            n_sig as u64,
            n_insig as u64,
            &mut self.fisher,
        );
        proof {
            assert forall|m: int| 0 <= m < crows@.len() implies (#[trigger] crows@[m]).pvalue.wf()
                && crows@[m].pvalue_up.wf() && crows@[m].pvalue_down.wf()
                && crate::ratio::rle_t(crows@[m].pvalue.pair(), (1nat, 1nat))
                && crate::ratio::rle_t(crows@[m].pvalue_up.pair(), (1nat, 1nat))
                && crate::ratio::rle_t(crows@[m].pvalue_down.pair(), (1nat, 1nat)) by {
                assert(crate::consensus::stats_fields_ok(
                    crate::bignum::big_nat(agents@[m].sig) as int,
                    crate::consensus::insig_of(
                        crate::bignum::big_nat(agents@[m].sig) as int,
                        agents@[m].total as int,
                    ),
                    crate::bignum::big_nat(agents@[m].sig_up) as int,
                    n_sig as int,
                    n_insig as int,
                    crows@[m],
                ));
            }
        }
        let adjusted = adjust_consensus(&crows);
        let f_lc: Option<Vec<u8>> = match &params.filter_term {
            Option::Some(fv) => Option::Some(to_lower(fv)),
            Option::None => Option::None,
        };
        proof {
            assert forall|m: int| 0 <= m < adjusted@.len() implies cons_wf(
                #[trigger] adjusted@[m],
            ) by {
                assert(crate::consensus::row_same_but_adj(adjusted@[m], crows@[m]));
                assert(crate::consensus::stats_fields_ok(
                    crate::bignum::big_nat(agents@[m].sig) as int,
                    crate::consensus::insig_of(
                        crate::bignum::big_nat(agents@[m].sig) as int,
                        agents@[m].total as int,
                    ),
                    crate::bignum::big_nat(agents@[m].sig_up) as int,
                    n_sig as int,
                    n_insig as int,
                    crows@[m],
                ));
            }
        }
        let ghost fspec = filter_spec(*params);
        proof {
            assert((match f_lc {
                Option::<Vec<u8>>::None => Option::<Seq<u8>>::None,
                Option::Some(fv) => Option::Some(fv@),
            }) == fspec);
            assert(consensus_chain_ok(
                *ix,
                scores@,
                Seq::<bool>::empty(),
                false,
                params.top_n as int,
                n_sig as int,
                n_insig as int,
                agents@,
                crows@,
                adjusted@,
            )) by {
                assert(noflags@ =~= Seq::<bool>::empty());
            }
        }
        let mut cons = filter_consensus(
            &adjusted,
            &f_lc,
            params.filter_fda,
            params.filter_ko,
        );
        let ghost filtered_cons = cons@;
        let ghost cons_model = crate::consensus::cons_upto(
            adjusted@,
            fspec,
            params.filter_fda,
            params.filter_ko,
            adjusted@.len() as int,
        );
        let cons_key: SortKey = match params.sortby {
            Option::Some(SortKey::Pvalue) => SortKey::Pvalue,
            Option::Some(SortKey::OddsRatio) => SortKey::OddsRatio,
            Option::Some(SortKey::OddsRatioUp) => SortKey::OddsRatioUp,
            Option::Some(SortKey::OddsRatioDown) => SortKey::OddsRatioDown,
            Option::Some(SortKey::PvalueUp) => SortKey::PvalueUp,
            Option::Some(SortKey::PvalueDown) => SortKey::PvalueDown,
            _ => SortKey::Pvalue,
        };
        proof {
            assert(cons_key == cons_key_of(*params));
        }
        sort_consensus(&mut cons, cons_key);
        let ghost full_cons = cons@;
        proof {
            lemma_full_cons_sorted(filtered_cons, full_cons, cons_model, cons_key_of(*params));
        }
        let consensus_total = cons.len();
        // the primary rows, filtered, re-ranked and paged
        let mut rows = build_rows(ix, &scores, &f_lc, params.filter_fda, params.filter_ko);
        let ghost built_rows = rows@;
        let ghost rows_model = crate::rows::rows_upto(
            *ix,
            scores@,
            fspec,
            params.filter_fda,
            params.filter_ko,
            scores@.len() as int,
        );
        let rk: Option<SortKey> = match params.sortby {
            Option::Some(SortKey::Pvalue) => Option::Some(SortKey::Pvalue),
            Option::Some(SortKey::OddsRatio) => Option::Some(SortKey::OddsRatio),
            Option::Some(SortKey::Overlap) => Option::Some(SortKey::Overlap),
            _ => Option::None,
        };
        proof {
            assert(rk == row_key_of(*params));
            assert(crate::rows::rows_match(built_rows, rows_model));
        }
        match rk {
            Option::Some(kk) => sort_rows(&mut rows, kk),
            Option::None => {},
        }
        let ghost full_rows = rows@;
        proof {
            match rk {
                Option::Some(kk) => {
                    lemma_full_rows_sorted(built_rows, full_rows, rows_model, kk);
                },
                Option::None => {
                    assert(full_rows_ok(rows_model, row_key_of(*params), full_rows));
                },
            }
        }
        let (page, start, end, total) = paginate(rows, params.offset, params.limit);
        let (cons_page, _cs, _ce, _ct) = paginate(cons, params.offset, params.limit);
        let out = QueryOutput {
            rows: page,
            consensus: cons_page,
            range_start: start,
            range_end: end,
            range_total: total,
            consensus_total,
            from_cache,
        };
        proof {
            assert(out.rows@ == full_rows.subrange(out.range_start as int, out.range_end as int));
            assert(rows_page_ok(*ix, scores@, *params, out));
            assert(cons_page_ok(
                adjusted@,
                *params,
                cons_key_of(*params),
                out.consensus_total as int,
                out.consensus@,
            ));
            assert(consensus_answer_ok(
                *ix,
                scores@,
                Seq::<bool>::empty(),
                false,
                *params,
                cons_key_of(*params),
                scores@.len() as int,
                (if scores@.len() <= ix.entries@.len() {
                    ix.entries@.len() - scores@.len()
                } else {
                    0
                }) as int,
                out.consensus_total as int,
                out.consensus@,
            ));
            if !out.from_cache {
                // the freshly computed list now sits under this fingerprint
                assert(sv_lists_equal(
                    self.cache.entries@[self.cache.pos_of(id, input.v@)].results@,
                    scores@,
                ));
            }
            assert(query_witness(
                *old(self),
                *self,
                *ix,
                id,
                genes@,
                *params,
                now,
                input,
                scores@,
                out,
            ));
            assert(query_answer_ok(*old(self), *self, *ix, id, genes@, *params, now, out));
        }
        Ok(out)
    }

    /// Answers a paired (mimicker/reverser) query over the signature
    /// pairs, with the same cache, consensus, filter, ranking and paging
    /// shape as the single-set query. The consensus up-direction
    /// criterion here is the row having a more significant mimicker than
    /// reverser statistic.
    #[verifier::rlimit(100)]
    #[verifier::spinoff_prover]
    pub fn query_pairs(
        &mut self,
        bg: Option<u128>,
        up_genes: &Vec<u128>,
        down_genes: &Vec<u128>,
        params: &QueryParams,
        now: u64,
    ) -> (r: Result<PairQueryOutput, EngineError>)
        requires
            old(self).wf(),
            params.wf(),
        ensures
            final (self).wf(),
            final (self).registry == old(self).registry,
            final (self).cache == old(self).cache,
            final (self).fisher.facts@.len() >= old(self).fisher.facts@.len(),
            match r {
                Ok(out) => old(self).ready_of(bg) is Some && !empty_pair_query(
                    old(self).ready_of(bg).unwrap(),
                    up_genes@,
                    down_genes@,
                ) && out.range_start <= out.range_end <= out.range_total && out.rows@.len()
                    == out.range_end - out.range_start && pair_query_answer_ok(
                    *old(self),
                    *final (self),
                    old(self).ready_of(bg).unwrap(),
                    old(self).resolve_id(bg).unwrap(),
                    up_genes@,
                    down_genes@,
                    *params,
                    now,
                    out,
                ),
                Err(EngineError::NotFound) => old(self).ready_of(bg) is None && *final (self)
                    == *old(self),
                Err(EngineError::InvalidInput) => old(self).ready_of(bg) is Some
                    && empty_pair_query(
                    old(self).ready_of(bg).unwrap(),
                    up_genes@,
                    down_genes@,
                ) && *final (self) == *old(self),
            },
    {
        let id = match self.resolve(bg) {
            Option::Some(id) => id,
            Option::None => {
                return Err(EngineError::NotFound);
            },
        };
        let ix = match self.registry.get_ready(id) {
            Option::Some(ix) => ix,
            Option::None => {
                return Err(EngineError::NotFound);
            },
        };
        proof {
            assert(old(self).resolve_id(bg) == Some(id));
            assert(old(self).ready_of(bg) == Some(*ix));
        }
        let up = dense_from_list(&ix.genes, up_genes);
        let down = dense_from_list(&ix.genes, down_genes);
        if ix.genes.len() == 0 || (up.n == 0 && down.n == 0) {
            return Err(EngineError::InvalidInput);
        }
        let n_entries = ix.entries.len();
        let n_pairs = ix.pairs.len();
        let mut from_cache = false;
        let mut scores: Vec<PairScored>;
        let mut cache_ok = false;
        proof {
            assert(self.cachepair == old(self).cachepair);
        }
        match self.cachepair.get(id, &up.v, &down.v, now) {
            Option::Some(v) => {
                scores = clone_pair_scores(v);
                proof {
                    assert(pv_lists_equal(
                        scores@,
                        old(self).cachepair.entries@[old(self).cachepair.pos_of(
                            id,
                            up.v@,
                            down.v@,
                        )].results@,
                    ));
                }
                if validate_pair_scores(&scores, n_entries, n_pairs) {
                    from_cache = true;
                    cache_ok = true;
                    proof {
                        // the stored list carries a computation of its
                        // own, which its value-copy keeps
                        let pos = old(self).cachepair.pos_of(id, up.v@, down.v@);
                        assert(crate::cache::stored_pair_scores_ok(
                            old(self).cachepair.entries@[pos],
                        ));
                        assert(old(self).cachepair.entries@[pos].key_up@ == up.v@);
                        assert(old(self).cachepair.entries@[pos].key_down@ == down.v@);
                        let (ix2, up2, down2, ov2, ple2, aple2) = choose|
                            ix2: BackgroundIndex,
                            up2: DenseBitVec,
                            down2: DenseBitVec,
                            ov2: int,
                            ple2: (nat, nat),
                            aple2: (nat, nat),
                        |
                            #[trigger] crate::cache::pair_scores_pinned(
                                ix2,
                                up2,
                                down2,
                                ov2,
                                ple2,
                                aple2,
                                old(self).cachepair.entries@[pos].key_up@,
                                old(self).cachepair.entries@[pos].key_down@,
                                old(self).cachepair.entries@[pos].results@,
                            );
                        lemma_pair_scores_pinned_sv(
                            ix2,
                            up2,
                            down2,
                            ov2,
                            ple2,
                            aple2,
                            up.v@,
                            down.v@,
                            old(self).cachepair.entries@[pos].results@,
                            scores@,
                        );
                        assert(cached_pair_scores(*old(self), id, up, down, now, scores@));
                    }
                }
            },
            Option::None => {
                scores = Vec::new();
            },
        }
        if !cache_ok {
            scores = compute_pair_enrichment(
                ix,
                &mut self.fisher,
                &up,
                &down,
                params.overlap_ge,
                &params.pvalue_le,
                &params.adj_pvalue_le,
            );
            proof {
                assert forall|i: int| 0 <= i < scores@.len() implies ((
                #[trigger] scores@[i]).index_up as int) < n_entries && (scores@[i].index_down
                    as int) < n_entries && scores@[i].pvalue_mimic.wf()
                    && scores@[i].pvalue_reverse.wf() && scores@[i].adj_pvalue_mimic.wf()
                    && scores@[i].adj_pvalue_reverse.wf() by {
                    assert(crate::pairedq::result_pair_ok(
                        *ix,
                        up,
                        down,
                        params.overlap_ge as int,
                        params.pvalue_le.pair(),
                        params.adj_pvalue_le.pair(),
                        scores@[i],
                    ));
                }
            }
            proof {
                assert(computed_pair_scores(*ix, up, down, *params, scores@));
            }
            let copy = clone_pair_scores(&scores);
            proof {
                // the list being cached is the computation just made
                assert(crate::cache::pair_scores_pinned(
                    *ix,
                    up,
                    down,
                    params.overlap_ge as int,
                    params.pvalue_le.pair(),
                    params.adj_pvalue_le.pair(),
                    up.v@,
                    down.v@,
                    scores@,
                ));
                lemma_pair_scores_pinned_sv(
                    *ix,
                    up,
                    down,
                    params.overlap_ge as int,
                    params.pvalue_le.pair(),
                    params.adj_pvalue_le.pair(),
                    up.v@,
                    down.v@,
                    scores@,
                    copy@,
                );
            }
            self.cachepair.insert(id, copy_bools(&up.v), copy_bools(&down.v), copy, now);
        }
        proof {
            assert(pair_scores_usable(scores@, n_entries as int, n_pairs as int));
        }
        // consensus aggregation: proxy rows on the up half, with the
        // row-level direction criterion
        let mut proxies: Vec<ScoredEntry> = Vec::new();
        let mut flags: Vec<bool> = Vec::new();
        let mut i: usize = 0;
        while i < scores.len()
            invariant
                i <= scores@.len(),
                pair_scores_usable(scores@, n_entries as int, n_pairs as int),
                proxies@.len() == i,
                flags@.len() == i,
                forall|t: int|
                    0 <= t < i ==> ((#[trigger] proxies@[t]).index as int) == (
                    scores@[t].index_up as int),
                forall|t: int|
                    0 <= t < i ==> #[trigger] flags@[t] == !crate::ratio::rle_t(
                        scores@[t].pvalue_reverse.pair(),
                        scores@[t].pvalue_mimic.pair(),
                    ),
            decreases scores@.len() - i,
        {
            let e = &scores[i];
            proxies.push(
                ScoredEntry {
                    index: e.index_up,
                    n_overlap: 0,
                    odds: Option::None,
                    pvalue: Ratio::one(),
                    adj_pvalue: Ratio::one(),
                },
            );
            flags.push(!e.pvalue_reverse.le(&e.pvalue_mimic));
            i = i + 1;
        }
        let n_sig = scores.len() / 2;
        let half_terms = n_entries / 2;
        let n_insig = if n_sig <= half_terms {
            half_terms - n_sig
        } else {
            0
        };
        proof {
            assert forall|t: int| 0 <= t < proxies@.len() implies ((
            #[trigger] proxies@[t]).index as int) < n_entries by {
                assert((scores@[t].index_up as int) < n_entries);
            }
        }
        let agents = group_agents(ix, &proxies, &flags, true, params.top_n);
        let crows = consensus_rows(
            &agents,
            n_sig as u64,
            n_insig as u64,
            &mut self.fisher,
        );
        proof {
            assert forall|m: int| 0 <= m < crows@.len() implies (#[trigger] crows@[m]).pvalue.wf()
                && crows@[m].pvalue_up.wf() && crows@[m].pvalue_down.wf()
                && crate::ratio::rle_t(crows@[m].pvalue.pair(), (1nat, 1nat))
                && crate::ratio::rle_t(crows@[m].pvalue_up.pair(), (1nat, 1nat))
                && crate::ratio::rle_t(crows@[m].pvalue_down.pair(), (1nat, 1nat)) by {
                assert(crate::consensus::stats_fields_ok(
                    crate::bignum::big_nat(agents@[m].sig) as int,
                    crate::consensus::insig_of(
                        crate::bignum::big_nat(agents@[m].sig) as int,
                        agents@[m].total as int,
                    ),
                    crate::bignum::big_nat(agents@[m].sig_up) as int,
                    n_sig as int,
                    n_insig as int,
                    crows@[m],
                ));
            }
        }
        let adjusted = adjust_consensus(&crows);
        let f_lc: Option<Vec<u8>> = match &params.filter_term {
            Option::Some(fv) => Option::Some(to_lower(fv)),
            Option::None => Option::None,
        };
        proof {
            assert forall|m: int| 0 <= m < adjusted@.len() implies cons_wf(
                #[trigger] adjusted@[m],
            ) by {
                assert(crate::consensus::row_same_but_adj(adjusted@[m], crows@[m]));
                assert(crate::consensus::stats_fields_ok(
                    crate::bignum::big_nat(agents@[m].sig) as int,
                    crate::consensus::insig_of(
                        crate::bignum::big_nat(agents@[m].sig) as int,
                        agents@[m].total as int,
                    ),
                    crate::bignum::big_nat(agents@[m].sig_up) as int,
                    n_sig as int,
                    n_insig as int,
                    crows@[m],
                ));
            }
        }
        let ghost fspec = filter_spec(*params);
        proof {
            assert((match f_lc {
                Option::<Vec<u8>>::None => Option::<Seq<u8>>::None,
                Option::Some(fv) => Option::Some(fv@),
            }) == fspec);
            assert(consensus_chain_ok(
                *ix,
                proxies@,
                flags@,
                true,
                params.top_n as int,
                n_sig as int,
                n_insig as int,
                agents@,
                crows@,
                adjusted@,
            ));
        }
        let mut cons = filter_consensus(
            &adjusted,
            &f_lc,
            params.filter_fda,
            params.filter_ko,
        );
        let ghost filtered_cons = cons@;
        let ghost cons_model = crate::consensus::cons_upto(
            adjusted@,
            fspec,
            params.filter_fda,
            params.filter_ko,
            adjusted@.len() as int,
        );
        let cons_key: SortKey = match params.sortby {
            Option::Some(SortKey::Pvalue) => SortKey::Pvalue,
            Option::Some(SortKey::OddsRatio) => SortKey::OddsRatio,
            Option::Some(SortKey::OddsRatioUp) => SortKey::OddsRatioUp,
            Option::Some(SortKey::OddsRatioDown) => SortKey::OddsRatioDown,
            Option::Some(SortKey::PvalueUp) => SortKey::PvalueUp,
            Option::Some(SortKey::PvalueDown) => SortKey::PvalueDown,
            Option::Some(SortKey::PvalueMimic) => SortKey::PvalueUp,
            Option::Some(SortKey::PvalueReverse) => SortKey::PvalueDown,
            Option::Some(SortKey::OddsRatioMimic) => SortKey::OddsRatioUp,
            Option::Some(SortKey::OddsRatioReverse) => SortKey::OddsRatioDown,
            _ => SortKey::Pvalue,
        };
        proof {
            assert(cons_key == pair_cons_key_of(*params));
        }
        sort_consensus(&mut cons, cons_key);
        let ghost full_cons = cons@;
        proof {
            lemma_full_cons_sorted(filtered_cons, full_cons, cons_model, pair_cons_key_of(*params));
        }
        let consensus_total = cons.len();
        let mut rows = build_pair_rows(ix, &scores, &f_lc, params.filter_fda, params.filter_ko);
        let ghost built_rows = rows@;
        let ghost rows_model = crate::rows::pair_rows_upto(
            *ix,
            scores@,
            fspec,
            params.filter_fda,
            params.filter_ko,
            scores@.len() as int,
        );
        let rk: Option<SortKey> = match params.sortby {
            Option::Some(SortKey::PvalueMimic) => Option::Some(SortKey::PvalueMimic),
            Option::Some(SortKey::PvalueReverse) => Option::Some(SortKey::PvalueReverse),
            Option::Some(SortKey::OddsRatioMimic) => Option::Some(SortKey::OddsRatioMimic),
            Option::Some(SortKey::OddsRatioReverse) => Option::Some(SortKey::OddsRatioReverse),
            _ => Option::None,
        };
        proof {
            assert(rk == pair_row_key_of(*params));
            assert(crate::rows::pair_rows_match(built_rows, rows_model));
        }
        match rk {
            Option::Some(kk) => sort_pair_rows(&mut rows, kk),
            Option::None => {},
        }
        let ghost full_rows = rows@;
        proof {
            match rk {
                Option::Some(kk) => {
                    lemma_full_pair_rows_sorted(built_rows, full_rows, rows_model, kk);
                },
                Option::None => {
                    assert(full_pair_rows_ok(rows_model, pair_row_key_of(*params), full_rows));
                },
            }
        }
        let (page, start, end, total) = paginate(rows, params.offset, params.limit);
        let (cons_page, _cs, _ce, _ct) = paginate(cons, params.offset, params.limit);
        let out = PairQueryOutput {
            rows: page,
            consensus: cons_page,
            range_start: start,
            range_end: end,
            range_total: total,
            consensus_total,
            from_cache,
        };
        proof {
            assert(out.rows@ == full_rows.subrange(out.range_start as int, out.range_end as int));
            assert(pair_rows_page_ok(*ix, scores@, *params, out));
            assert(cons_page_ok(
                adjusted@,
                *params,
                pair_cons_key_of(*params),
                out.consensus_total as int,
                out.consensus@,
            ));
            assert(consensus_answer_ok(
                *ix,
                proxies@,
                flags@,
                true,
                *params,
                pair_cons_key_of(*params),
                (scores@.len() / 2) as int,
                (if scores@.len() / 2 <= ix.entries@.len() / 2 {
                    ix.entries@.len() / 2 - scores@.len() / 2
                } else {
                    0
                }) as int,
                out.consensus_total as int,
                out.consensus@,
            ));
            if !out.from_cache {
                // the freshly computed list now sits under this fingerprint
                assert(pv_lists_equal(
                    self.cachepair.entries@[self.cachepair.pos_of(id, up.v@, down.v@)].results@,
                    scores@,
                ));
            }
            assert(pair_query_witness(
                *old(self),
                *self,
                *ix,
                id,
                up_genes@,
                down_genes@,
                *params,
                now,
                up,
                down,
                scores@,
                proxies@,
                flags@,
                out,
            ));
            assert(pair_query_answer_ok(
                *old(self),
                *self,
                *ix,
                id,
                up_genes@,
                down_genes@,
                *params,
                now,
                out,
            ));
        }
        Ok(out)
    }
}

} // verus!
