//! Unit checks of the core building blocks: bitvectors, byte-string
//! helpers, the exact Fisher test, and the Benjamini-Hochberg correction
//! against a reference implementation.

use enrich::bits::{DenseBitVec, SparseBitVec, compute_overlap};
use enrich::bh;
use enrich::fisher::FactTable;
use enrich::fisher::p_value;
use enrich::ratio::Ratio;
use enrich::text::{contains_sub, remove_all, strip_suffix, to_lower, trim};
use num::BigUint;

fn dense_of(bits: &[bool]) -> DenseBitVec {
    DenseBitVec::from_flags(bits.to_vec())
}

fn sparse_of(pos: &[u16]) -> SparseBitVec {
    SparseBitVec { v: pos.to_vec() }
}

fn ratio_f64(r: &Ratio) -> f64 {
    let n: f64 = r.num.to_string().parse().unwrap();
    let d: f64 = r.den.to_string().parse().unwrap();
    n / d
}

#[test]
fn overlap_counts_shared_columns() {
    let d = dense_of(&[true, false, true, true, false]);
    let s = sparse_of(&[1, 2, 4]);
    assert_eq!(compute_overlap(&d, &s), 1);
}

#[test]
fn overlap_is_symmetric() {
    // the same two sets, each written once densely and once sparsely
    let a_dense = dense_of(&[true, true, false, false, true, false]);
    let a_sparse = sparse_of(&[0, 1, 4]);
    let b_dense = dense_of(&[false, true, true, false, true, true]);
    let b_sparse = sparse_of(&[1, 2, 4, 5]);
    let ab = compute_overlap(&a_dense, &b_sparse);
    let ba = compute_overlap(&b_dense, &a_sparse);
    assert_eq!(ab, ba);
    assert_eq!(ab, 2);
}

#[test]
fn overlap_with_self_is_cardinality() {
    let a_dense = dense_of(&[true, false, true, true, false, true]);
    let a_sparse = sparse_of(&[0, 2, 3, 5]);
    assert_eq!(compute_overlap(&a_dense, &a_sparse), 4);
    assert_eq!(a_dense.n, 4);
}

#[test]
fn empty_overlap() {
    let d = dense_of(&[false, false, false]);
    let s = sparse_of(&[0, 1, 2]);
    assert_eq!(compute_overlap(&d, &s), 0);
}

#[test]
fn text_to_lower() {
    assert_eq!(to_lower(&b"Dexamethasone UP".to_vec()), b"dexamethasone up".to_vec());
}

#[test]
fn text_contains() {
    assert!(contains_sub(&b"aspirin up".to_vec(), &b" up".to_vec()));
    assert!(!contains_sub(&b"aspirin down".to_vec(), &b" up".to_vec()));
    assert!(contains_sub(&b"anything".to_vec(), &b"".to_vec()));
}

#[test]
fn text_remove_all() {
    assert_eq!(
        remove_all(&b"x up y up".to_vec(), &b" up".to_vec()),
        b"x y".to_vec()
    );
}

#[test]
fn text_trim() {
    assert_eq!(trim(&b"  drug x \t".to_vec()), b"drug x".to_vec());
}

#[test]
fn text_strip_suffix() {
    let r = strip_suffix(&b"signature up".to_vec(), &b" up".to_vec());
    assert_eq!(r, Some(b"signature".to_vec()));
    assert_eq!(strip_suffix(&b"signature down".to_vec(), &b" up".to_vec()), None);
}

#[test]
fn factorial_table_grows_and_serves_binomials() {
    let mut t = FactTable::new();
    t.extend_to(10);
    assert_eq!(t.binom_at(5, 2), BigUint::from(10u32));
    assert_eq!(t.binom_at(10, 5), BigUint::from(252u32));
    assert_eq!(t.binom_at(10, 0), BigUint::from(1u32));
    // growing further never shrinks
    let before = t.facts.len();
    t.extend_to(4);
    assert_eq!(t.facts.len(), before);
}

#[test]
fn exact_test_small_table() {
    // table (1, 1, 1, 1): tail = [C(2,1) C(2,1) + C(2,2) C(2,0)] / C(4,2)
    let mut t = FactTable::new();
    t.extend_to(4);
    let p = p_value(&t, 1, 1, 1, 1);
    assert_eq!(p.num, BigUint::from(5u32));
    assert_eq!(p.den, BigUint::from(6u32));
}

#[test]
fn exact_test_monotone_in_overlap() {
    // margins fixed, overlap cell raised by one: p can only shrink
    let mut t = FactTable::new();
    t.extend_to(64);
    let p1 = p_value(&t, 2, 6, 4, 8).min_one();
    let p2 = p_value(&t, 3, 5, 3, 9).min_one();
    assert!(p2.le(&p1));
}

#[test]
fn bh_matches_reference_adjustment() {
    let raw = [0.1f64, 0.2, 0.3, 0.4, 0.1];
    let reference = adjustp::adjust(&raw, adjustp::Procedure::BenjaminiHochberg);
    let input: Vec<Ratio> = vec![
        Ratio::from_u64s(1, 10),
        Ratio::from_u64s(2, 10),
        Ratio::from_u64s(3, 10),
        Ratio::from_u64s(4, 10),
        Ratio::from_u64s(1, 10),
    ];
    let adj = bh::adjust(&input);
    assert_eq!(adj.len(), reference.len());
    for i in 0..adj.len() {
        let ours = ratio_f64(&adj[i]);
        assert!((ours - reference[i]).abs() < 1e-12, "at {}: {} vs {}", i, ours, reference[i]);
    }
}

#[test]
fn bh_adjusted_at_least_raw_and_monotone() {
    let input: Vec<Ratio> = vec![
        Ratio::from_u64s(1, 100),
        Ratio::from_u64s(50, 100),
        Ratio::from_u64s(3, 100),
        Ratio::from_u64s(99, 100),
    ];
    let adj = bh::adjust(&input);
    for i in 0..adj.len() {
        assert!(input[i].le(&adj[i]), "adjusted below raw at {}", i);
        assert!(adj[i].le(&Ratio::from_u64s(1, 1)));
        for j in 0..adj.len() {
            if input[i].le(&input[j]) {
                assert!(adj[i].le(&adj[j]), "monotonicity broken at {} {}", i, j);
            }
        }
    }
}

#[test]
fn bh_empty_input() {
    let adj = bh::adjust(&Vec::new());
    assert_eq!(adj.len(), 0);
}

#[test]
fn ratio_comparisons_are_exact() {
    let a = Ratio::from_u64s(1, 3);
    let b = Ratio::from_u64s(333333333, 1000000000);
    assert!(b.le(&a));
    assert!(!a.le(&b));
    assert!(a.eq_val(&Ratio::from_u64s(2, 6)));
}
