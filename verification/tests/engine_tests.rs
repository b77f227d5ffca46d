//! End-to-end scenarios against the query engine: column assignment,
//! exact statistics against a reference computation, caching, the
//! registry state machine, eviction, paired queries, filters and paging.

use enrich::catalog::CatalogRow;
use enrich::columns::{GeneRecord, build_columns};
use enrich::engine::{Engine, EngineError, QueryParams};
use enrich::ratio::Ratio;
use enrich::registry::{BuildDecision, Registry};
use enrich::rows::SortKey;
use num::BigUint;

fn gene(id: u128, symbol: &str) -> GeneRecord {
    GeneRecord { id, symbol: symbol.as_bytes().to_vec() }
}

fn row(
    id: u128,
    term: &str,
    hash: u128,
    gene_ids: &[u128],
    fda: bool,
    count: u32,
    pert: &str,
) -> CatalogRow {
    CatalogRow {
        id,
        term: term.as_bytes().to_vec(),
        description: b"desc".to_vec(),
        hash,
        gene_ids: gene_ids.to_vec(),
        fda_approved: fda,
        count,
        pert: pert.as_bytes().to_vec(),
    }
}

fn default_params() -> QueryParams {
    QueryParams {
        overlap_ge: 1,
        pvalue_le: Ratio::from_u64s(1, 1),
        adj_pvalue_le: Ratio::from_u64s(1, 1),
        filter_term: None,
        filter_fda: None,
        filter_ko: None,
        sortby: None,
        offset: 0,
        limit: None,
        top_n: 1000,
    }
}

fn ratio_f64(r: &Ratio) -> f64 {
    let n: f64 = r.num.to_string().parse().unwrap();
    let d: f64 = r.den.to_string().parse().unwrap();
    n / d
}

fn ln_binom(n: u64, k: u64) -> f64 {
    // log C(n, k) summed termwise, good enough as a reference
    let mut acc = 0.0f64;
    for i in 0..k {
        acc += ((n - i) as f64).ln() - ((i + 1) as f64).ln();
    }
    acc
}

/// The classical one-sided (greater) Fisher p-value over the margins of
/// the table `(a, b, c, d)`.
fn reference_fisher(a: u64, b: u64, c: u64, d: u64) -> f64 {
    let r1 = a + b;
    let r2 = c + d;
    let m = a + c;
    let total = r1 + r2;
    let mut p = 0.0f64;
    let hi = if m < r1 { m } else { r1 };
    for k in a..=hi {
        if m - k <= r2 {
            p += (ln_binom(r1, k) + ln_binom(r2, m - k) - ln_binom(total, m)).exp();
        }
    }
    p
}

fn hundred_gene_engine() -> Engine {
    let mut engine = Engine::new(30000);
    let background: Vec<GeneRecord> =
        (1..=100u128).map(|i| gene(i, &format!("gene{}", i))).collect();
    let rows = vec![row(1000, "entry one", 1, &(1..=10u128).collect::<Vec<_>>(), false, 2, "")];
    engine.install_background(7, &background, &rows).unwrap();
    engine
}

#[test]
fn column_assignment_is_sorted_and_deduplicated() {
    let input = vec![gene(30, "c"), gene(10, "a"), gene(20, "b"), gene(10, "a2")];
    let (genes, symbols) = build_columns(&input);
    assert_eq!(genes, vec![10u128, 20, 30]);
    assert_eq!(symbols.len(), 3);
    assert_eq!(symbols[1], b"b".to_vec());
    // rebuilding from the same members gives the identical mapping
    let (genes2, _) = build_columns(&vec![gene(10, "a"), gene(30, "c"), gene(20, "b")]);
    assert_eq!(genes, genes2);
}

#[test]
fn end_to_end_exact_statistics() {
    let mut engine = hundred_gene_engine();
    let mut input: Vec<u128> = (1..=5u128).collect();
    input.extend(90..=95u128);
    let out = engine.query(Some(7), &input, &default_params(), 0).unwrap();
    assert_eq!(out.rows.len(), 1);
    let r = &out.rows[0];
    assert_eq!(r.n_overlap, 5);
    // odds ratio (5 / 11) / (10 / 100) exactly
    let (on, od) = r.odds.unwrap();
    assert_eq!(on as u128 * 110, od as u128 * 500);
    // p-value against a reference Fisher computation over the same
    // margins (a, b, c, d) = (5, 6, 5, 94)
    let expected = reference_fisher(5, 6, 5, 94);
    let got = ratio_f64(&r.pvalue);
    assert!((got - expected).abs() < 1e-9, "{} vs {}", got, expected);
    // a single test keeps its raw p-value after adjustment
    assert!(r.adj_pvalue.eq_val(&r.pvalue));
}

#[test]
fn cache_idempotence_two_identical_queries() {
    let mut engine = hundred_gene_engine();
    let input: Vec<u128> = (1..=5u128).collect();
    let first = engine.query(Some(7), &input, &default_params(), 0).unwrap();
    assert!(!first.from_cache);
    // submission order of the gene list does not matter
    let shuffled: Vec<u128> = vec![5, 3, 1, 4, 2];
    let second = engine.query(Some(7), &shuffled, &default_params(), 100).unwrap();
    assert!(second.from_cache);
    assert_eq!(first.rows.len(), second.rows.len());
    for i in 0..first.rows.len() {
        assert_eq!(first.rows[i].hash, second.rows[i].hash);
        assert_eq!(first.rows[i].n_overlap, second.rows[i].n_overlap);
        assert_eq!(first.rows[i].odds, second.rows[i].odds);
        assert_eq!(first.rows[i].pvalue.num, second.rows[i].pvalue.num);
        assert_eq!(first.rows[i].pvalue.den, second.rows[i].pvalue.den);
        assert_eq!(first.rows[i].adj_pvalue.num, second.rows[i].adj_pvalue.num);
        assert_eq!(first.rows[i].adj_pvalue.den, second.rows[i].adj_pvalue.den);
    }
    // past the time-to-live the entry is stale and recomputed
    let third = engine.query(Some(7), &input, &default_params(), 50000).unwrap();
    assert!(!third.from_cache);
}

#[test]
fn concurrent_first_access_single_builder() {
    let mut registry = Registry::new();
    let d1 = registry.begin_build(42);
    let d2 = registry.begin_build(42);
    let d3 = registry.begin_build(42);
    assert!(matches!(d1, BuildDecision::Start));
    assert!(matches!(d2, BuildDecision::Wait));
    assert!(matches!(d3, BuildDecision::Wait));
}

#[test]
fn failed_build_returns_to_absent() {
    let mut registry = Registry::new();
    let d1 = registry.begin_build(42);
    assert!(matches!(d1, BuildDecision::Start));
    registry.abort_build(42);
    assert!(!registry.contains(42));
    let d2 = registry.begin_build(42);
    assert!(matches!(d2, BuildDecision::Start));
}

#[test]
fn eviction_triggers_full_rebuild() {
    let mut engine = hundred_gene_engine();
    let input: Vec<u128> = (1..=5u128).collect();
    engine.query(Some(7), &input, &default_params(), 0).unwrap();
    engine.delete(Some(7)).unwrap();
    // the background is gone until it is installed again
    let gone = engine.query(Some(7), &input, &default_params(), 1);
    assert!(matches!(gone, Err(EngineError::NotFound)));
    let background: Vec<GeneRecord> =
        (1..=100u128).map(|i| gene(i, &format!("gene{}", i))).collect();
    let rows = vec![row(1000, "entry one", 1, &(1..=10u128).collect::<Vec<_>>(), false, 2, "")];
    let (cols, size) = engine.install_background(7, &background, &rows).unwrap();
    assert_eq!(cols, 100);
    assert_eq!(size, 1);
    let again = engine.query(Some(7), &input, &default_params(), 2).unwrap();
    assert_eq!(again.rows.len(), 1);
    assert_eq!(again.rows[0].n_overlap, 5);
}

#[test]
fn deleting_unknown_background_is_not_found() {
    let mut engine = Engine::new(30000);
    assert!(matches!(engine.delete(Some(9)), Err(EngineError::NotFound)));
    assert!(matches!(engine.delete(None), Err(EngineError::NotFound)));
}

#[test]
fn latest_alias_resolves_to_most_recent_install() {
    let mut engine = hundred_gene_engine();
    let input: Vec<u128> = (1..=5u128).collect();
    let out = engine.query(None, &input, &default_params(), 0).unwrap();
    assert_eq!(out.rows.len(), 1);
}

#[test]
fn empty_input_is_rejected_before_computing() {
    let mut engine = hundred_gene_engine();
    let none_member: Vec<u128> = vec![5000, 6000];
    let r = engine.query(Some(7), &none_member, &default_params(), 0);
    assert!(matches!(r, Err(EngineError::InvalidInput)));
    let empty: Vec<u128> = Vec::new();
    let r2 = engine.query(Some(7), &empty, &default_params(), 0);
    assert!(matches!(r2, Err(EngineError::InvalidInput)));
}

#[test]
fn unknown_background_is_not_found() {
    let mut engine = Engine::new(30000);
    let input: Vec<u128> = vec![1];
    let r = engine.query(Some(3), &input, &default_params(), 0);
    assert!(matches!(r, Err(EngineError::NotFound)));
    let r2 = engine.query(None, &input, &default_params(), 0);
    assert!(matches!(r2, Err(EngineError::NotFound)));
}

#[test]
fn paired_query_mimicker_and_reverser_overlaps() {
    let mut engine = Engine::new(30000);
    let background: Vec<GeneRecord> =
        (1..=20u128).map(|i| gene(i, &format!("g{}", i))).collect();
    let rows = vec![
        row(1, "X up", 11, &[1, 2], false, 2, ""),
        row(2, "X down", 12, &[3, 4], false, 2, ""),
    ];
    engine.install_background(5, &background, &rows).unwrap();
    let up: Vec<u128> = vec![1];
    let down: Vec<u128> = vec![3];
    let out = engine.query_pairs(Some(5), &up, &down, &default_params(), 0).unwrap();
    assert_eq!(out.rows.len(), 1);
    assert_eq!(out.rows[0].mimicker_overlap, 2);
    assert_eq!(out.rows[0].reverser_overlap, 0);
    // repeated identical paired query is served from the cache
    let second = engine.query_pairs(Some(5), &up, &down, &default_params(), 1).unwrap();
    assert!(second.from_cache);
    assert_eq!(second.rows[0].mimicker_overlap, 2);
}

#[test]
fn overlap_floor_filters_entries() {
    let mut engine = hundred_gene_engine();
    let input: Vec<u128> = (1..=5u128).collect();
    let mut params = default_params();
    params.overlap_ge = 6;
    let out = engine.query(Some(7), &input, &params, 0).unwrap();
    assert_eq!(out.rows.len(), 0);
    assert_eq!(out.range_total, 0);
}

#[test]
fn term_filter_drops_non_matching_entries() {
    let mut engine = Engine::new(30000);
    let background: Vec<GeneRecord> =
        (1..=20u128).map(|i| gene(i, &format!("g{}", i))).collect();
    let rows = vec![
        row(1, "Aspirin response", 21, &[1, 2, 3], true, 2, "aspirin x"),
        row(2, "Heat shock", 22, &[2, 3, 4], false, 2, "heat"),
    ];
    engine.install_background(5, &background, &rows).unwrap();
    let input: Vec<u128> = vec![2, 3];
    let mut params = default_params();
    params.filter_term = Some(b"ASPIRIN".to_vec());
    let out = engine.query(Some(5), &input, &params, 0).unwrap();
    assert_eq!(out.rows.len(), 1);
    assert_eq!(out.rows[0].hash, 21);
    // approval filter keeps only fully approved entries
    let mut params2 = default_params();
    params2.filter_fda = Some(true);
    let out2 = engine.query(Some(5), &input, &params2, 1).unwrap();
    assert_eq!(out2.rows.len(), 1);
    assert_eq!(out2.rows[0].hash, 21);
    // compound-agent filter keeps labels with a space
    let mut params3 = default_params();
    params3.filter_ko = Some(true);
    let out3 = engine.query(Some(5), &input, &params3, 2).unwrap();
    assert_eq!(out3.rows.len(), 1);
    assert_eq!(out3.rows[0].hash, 21);
    // the text filter also matches inside descriptions
    let mut params4 = default_params();
    params4.filter_term = Some(b"DESC".to_vec());
    let out4 = engine.query(Some(5), &input, &params4, 3).unwrap();
    assert_eq!(out4.rows.len(), 2);
}

#[test]
fn pagination_clamps_offset_beyond_length() {
    let mut engine = Engine::new(30000);
    let background: Vec<GeneRecord> =
        (1..=20u128).map(|i| gene(i, &format!("g{}", i))).collect();
    let rows = vec![
        row(1, "one", 21, &[1, 2, 3], false, 2, ""),
        row(2, "two", 22, &[2, 3, 4], false, 2, ""),
        row(3, "three", 23, &[3, 4, 5], false, 2, ""),
    ];
    engine.install_background(5, &background, &rows).unwrap();
    let input: Vec<u128> = vec![3];
    let mut params = default_params();
    params.offset = 1;
    params.limit = Some(1);
    let out = engine.query(Some(5), &input, &params, 0).unwrap();
    assert_eq!(out.range_total, 3);
    assert_eq!(out.rows.len(), 1);
    assert_eq!(out.range_start, 1);
    assert_eq!(out.range_end, 2);
    let mut params2 = default_params();
    params2.offset = 50;
    let out2 = engine.query(Some(5), &input, &params2, 1).unwrap();
    assert_eq!(out2.rows.len(), 0);
    assert_eq!(out2.range_start, 3);
    assert_eq!(out2.range_total, 3);
}

#[test]
fn sort_by_overlap_descending() {
    let mut engine = Engine::new(30000);
    let background: Vec<GeneRecord> =
        (1..=20u128).map(|i| gene(i, &format!("g{}", i))).collect();
    let rows = vec![
        row(1, "one", 21, &[1, 2], false, 2, ""),
        row(2, "two", 22, &[1, 2, 3, 4], false, 2, ""),
    ];
    engine.install_background(5, &background, &rows).unwrap();
    let input: Vec<u128> = vec![1, 2, 3, 4];
    let mut params = default_params();
    params.sortby = Some(SortKey::Overlap);
    let out = engine.query(Some(5), &input, &params, 0).unwrap();
    assert_eq!(out.rows.len(), 2);
    assert!(out.rows[0].n_overlap >= out.rows[1].n_overlap);
    assert_eq!(out.rows[0].hash, 22);
}

#[test]
fn consensus_counts_and_neutral_fallback() {
    let mut engine = Engine::new(30000);
    let background: Vec<GeneRecord> =
        (1..=30u128).map(|i| gene(i, &format!("g{}", i))).collect();
    // six significant catalog entries of one agent, two of another
    let mut rows: Vec<CatalogRow> = Vec::new();
    for k in 0..6u128 {
        rows.push(row(
            100 + k,
            &format!("sig{} up", k),
            200 + k,
            &[1, 2, (3 + k)],
            false,
            12,
            "drug a",
        ));
    }
    rows.push(row(300, "other one", 400, &[1, 2, 9], false, 4, "drug b"));
    rows.push(row(301, "other two", 401, &[1, 2, 10], false, 4, "drug b"));
    engine.install_background(5, &background, &rows).unwrap();
    let input: Vec<u128> = vec![1, 2];
    let out = engine.query(Some(5), &input, &default_params(), 0).unwrap();
    assert_eq!(out.consensus.len(), 2);
    let a = out.consensus.iter().find(|c| c.pert == b"drug a".to_vec()).unwrap();
    let b = out.consensus.iter().find(|c| c.pert == b"drug b".to_vec()).unwrap();
    assert_eq!(a.count_significant, BigUint::from(6u32));
    assert_eq!(a.count_insignificant, BigUint::from(6u32));
    assert_eq!(a.count_up_significant, BigUint::from(6u32));
    assert_eq!(b.count_significant, BigUint::from(2u32));
    // fewer than five significant entries: the neutral statistics
    assert_eq!(b.pvalue.num, BigUint::from(1u32));
    assert_eq!(b.pvalue.den, BigUint::from(1u32));
    assert_eq!(b.odds.num, BigUint::from(0u32));
}

#[test]
fn gmt_export_lines() {
    let mut engine = Engine::new(30000);
    let background = vec![gene(1, "alpha"), gene(2, "beta"), gene(3, "gamma")];
    let rows = vec![row(1, "set one", 9, &[1, 3], false, 2, "")];
    engine.install_background(4, &background, &rows).unwrap();
    let lines = engine.gmt_export(Some(4)).unwrap();
    assert_eq!(lines.len(), 1);
    assert_eq!(lines[0], b"set one\tdesc\talpha\tgamma".to_vec());
}

#[test]
fn ensure_reports_counts() {
    let engine = hundred_gene_engine();
    let (cols, size) = engine.ensure_ready(Some(7)).unwrap();
    assert_eq!(cols, 100);
    assert_eq!(size, 1);
    assert!(matches!(engine.ensure_ready(Some(8)), Err(EngineError::NotFound)));
}

#[test]
fn shared_content_hash_collapses_entries() {
    let mut engine = Engine::new(30000);
    let background: Vec<GeneRecord> =
        (1..=10u128).map(|i| gene(i, &format!("g{}", i))).collect();
    // two rows with the same content hash share one catalog entry
    let rows = vec![
        row(1, "name one", 77, &[1, 2], false, 2, ""),
        row(2, "name two", 77, &[1, 2], false, 2, ""),
        row(3, "other", 78, &[3, 4], false, 2, ""),
    ];
    let (_, size) = engine.install_background(6, &background, &rows).unwrap();
    assert_eq!(size, 2);
    let lines = engine.gmt_export(Some(6)).unwrap();
    // the shared entry exports one line per metadata record
    assert_eq!(lines.len(), 3);
}

#[test]
fn rows_rank_ascending_by_pvalue() {
    let mut engine = Engine::new(30000);
    let background: Vec<GeneRecord> =
        (1..=50u128).map(|i| gene(i, &format!("g{}", i))).collect();
    let rows = vec![
        row(1, "weak", 61, &[1, 40, 41, 42], false, 2, ""),
        row(2, "strong", 62, &[1, 2, 3, 4], false, 2, ""),
    ];
    engine.install_background(5, &background, &rows).unwrap();
    let input: Vec<u128> = vec![1, 2, 3, 4];
    let out = engine.query(Some(5), &input, &default_params(), 0).unwrap();
    assert_eq!(out.rows.len(), 2);
    // the fully overlapping entry is more significant and ranks first
    assert_eq!(out.rows[0].hash, 62);
    assert!(out.rows[0].pvalue.le(&out.rows[1].pvalue));
}

#[test]
fn paired_consensus_groups_by_agent() {
    let mut engine = Engine::new(30000);
    let background: Vec<GeneRecord> =
        (1..=40u128).map(|i| gene(i, &format!("g{}", i))).collect();
    let mut rows: Vec<CatalogRow> = Vec::new();
    for k in 0..3u128 {
        rows.push(row(
            10 + k,
            &format!("sig{} up", k),
            50 + 2 * k,
            &[1, (5 + k)],
            false,
            6,
            "agent z",
        ));
        rows.push(row(
            20 + k,
            &format!("sig{} down", k),
            51 + 2 * k,
            &[2, (15 + k)],
            false,
            6,
            "agent z",
        ));
    }
    engine.install_background(5, &background, &rows).unwrap();
    let up: Vec<u128> = vec![1];
    let down: Vec<u128> = vec![2];
    let out = engine.query_pairs(Some(5), &up, &down, &default_params(), 0).unwrap();
    assert_eq!(out.rows.len(), 3);
    assert_eq!(out.consensus.len(), 1);
    let a = &out.consensus[0];
    assert_eq!(a.pert, b"agent z".to_vec());
    // each surviving pair contributes its up half's metadata record
    assert_eq!(a.count_significant, BigUint::from(3u32));
    // below five significant entries the statistics stay neutral
    assert_eq!(a.pvalue.num, BigUint::from(1u32));
    assert_eq!(a.odds.num, BigUint::from(0u32));
}
