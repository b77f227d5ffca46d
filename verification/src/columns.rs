//! The column mapping of a background universe: its member genes, ordered
//! and deduplicated, define a contiguous 0-based column space. Column
//! assignment is by ascending gene identifier, so rebuilding from the same
//! members always yields the same mapping.

use vstd::prelude::*;
use crate::bits::{DenseBitVec, SparseBitVec, sparse_mem};

verus! {

/// Identifiers strictly increase along the sequence.
pub open spec fn strictly_sorted_u128(s: Seq<u128>) -> bool {
    forall|i: int, j: int| 0 <= i < j < s.len() ==> s[i] < s[j]
}

/// `g` occurs in `s`.
pub open spec fn seq_has_u128(s: Seq<u128>, g: u128) -> bool {
    exists|j: int| 0 <= j < s.len() && s[j] == g
}

/// One member-gene record handed in by the data source: a stable
/// identifier and a display symbol.
pub struct GeneRecord {
    pub id: u128,
    pub symbol: Vec<u8>,
}

/// Some input record carries this identifier.
pub open spec fn input_has_id(input: Seq<GeneRecord>, g: u128) -> bool {
    exists|j: int| 0 <= j < input.len() && input[j].id == g
}

/// Some input record carries this identifier together with this symbol.
pub open spec fn column_symbol_ok(input: Seq<GeneRecord>, id: u128, sym: Seq<u8>) -> bool {
    exists|j: int| 0 <= j < input.len() && (#[trigger] input[j]).id == id && input[j].symbol@ == sym
}

/// A value-preserving copy of a byte string.
pub fn copy_bytes(v: &Vec<u8>) -> (r: Vec<u8>)
    ensures
        r@ == v@,
{
    let mut out: Vec<u8> = Vec::new();
    let mut i: usize = 0;
    while i < v.len()
        invariant
            i <= v@.len(),
            out@.len() == i,
            forall|t: int| 0 <= t < i ==> out@[t] == v@[t],
        decreases v@.len() - i,
    {
        out.push(v[i]);
        i = i + 1;
    }
    proof {
        assert(out@ =~= v@);
    }
    out
}

/// The first position whose identifier is at least `g` (the insertion
/// point that keeps the column order sorted).
pub fn lower_bound(genes: &Vec<u128>, g: u128) -> (pos: usize)
    requires
        strictly_sorted_u128(genes@),
    ensures
        pos <= genes@.len(),
        forall|j: int| 0 <= j < pos ==> genes@[j] < g,
        forall|j: int| pos <= j < genes@.len() ==> genes@[j] >= g,
{
    let mut lo: usize = 0;
    let mut hi: usize = genes.len();
    while lo < hi
        invariant
            lo <= hi <= genes@.len(),
            forall|j: int| 0 <= j < lo ==> genes@[j] < g,
            forall|j: int| hi <= j < genes@.len() ==> genes@[j] >= g,
            strictly_sorted_u128(genes@),
        decreases hi - lo,
    {
        let mid = lo + (hi - lo) / 2;
        if genes[mid] < g {
            proof {
                assert forall|j: int| 0 <= j < mid + 1 implies genes@[j] < g by {
                    if j < mid {
                        assert(genes@[j] < genes@[mid as int]);
                    }
                }
            }
            lo = mid + 1;
        } else {
            proof {
                assert forall|j: int| mid <= j < genes@.len() implies genes@[j] >= g by {
                    if j > mid {
                        assert(genes@[mid as int] < genes@[j]);
                    }
                }
            }
            hi = mid;
        }
    }
    lo
}

/// The column of gene `g`, or `None` when `g` is not a member of the
/// background.
pub fn find_column(genes: &Vec<u128>, g: u128) -> (r: Option<usize>)
    requires
        strictly_sorted_u128(genes@),
    ensures
        match r {
            Some(c) => c < genes@.len() && genes@[c as int] == g,
            None => !seq_has_u128(genes@, g),
        },
{
    let pos = lower_bound(genes, g);
    if pos < genes.len() {
        if genes[pos] == g {
            return Some(pos);
        }
    }
    proof {
        if seq_has_u128(genes@, g) {
            let j = choose|j: int| 0 <= j < genes@.len() && genes@[j] == g;
            assert(j < pos || pos <= j);
        }
    }
    None
}

/// Builds the column mapping from the member-gene records: identifiers
/// sorted ascending and deduplicated, each column carrying the symbol of
/// one record with its identifier. Duplicate identifiers collapse into one
/// column.
pub fn build_columns(input: &Vec<GeneRecord>) -> (r: (Vec<u128>, Vec<Vec<u8>>))
    ensures
        strictly_sorted_u128(r.0@),
        r.1@.len() == r.0@.len(),
        forall|g: u128| seq_has_u128(r.0@, g) <==> input_has_id(input@, g),
        forall|c: int|
            0 <= c < r.0@.len() ==> #[trigger] column_symbol_ok(input@, r.0@[c], r.1@[c]@),
{
    let mut genes: Vec<u128> = Vec::new();
    let mut symbols: Vec<Vec<u8>> = Vec::new();
    let ghost mut src: Seq<int> = Seq::empty();
    let mut i: usize = 0;
    while i < input.len()
        invariant
            i <= input@.len(),
            strictly_sorted_u128(genes@),
            symbols@.len() == genes@.len(),
            src.len() == genes@.len(),
            forall|g: u128|
                seq_has_u128(genes@, g) <==> input_has_id(input@.subrange(0, i as int), g),
            forall|c: int|
                0 <= c < genes@.len() ==> 0 <= #[trigger] src[c] < input@.len()
                    && input@[src[c]].id == genes@[c] && input@[src[c]].symbol@ == symbols@[c]@,
        decreases input@.len() - i,
    {
        let g = input[i].id;
        let pos = lower_bound(&genes, g);
        let ghost old_genes = genes@;
        let ghost old_symbols = symbols@;
        let mut present = false;
        if pos < genes.len() {
            if genes[pos] == g {
                present = true;
            }
        }
        if !present {
            let sym = copy_bytes(&input[i].symbol);
            genes.insert(pos, g);
            symbols.insert(pos, sym);
            proof {
                let ghost pre = input@.subrange(0, i as int);
                let ghost cur = input@.subrange(0, i + 1);
                assert(cur[i as int] == input@[i as int]);
                assert forall|c1: int, c2: int| 0 <= c1 < c2 < genes@.len() implies genes@[c1]
                    < genes@[c2] by {
                    assert(genes@ == old_genes.insert(pos as int, g));
                }
                assert forall|gx: u128| seq_has_u128(genes@, gx) implies input_has_id(
                    cur,
                    gx,
                ) by {
                    let c = choose|c: int| 0 <= c < genes@.len() && genes@[c] == gx;
                    if c == pos {
                        assert(cur[i as int].id == gx);
                    } else {
                        if c < pos {
                            assert(old_genes[c] == gx);
                        } else {
                            assert(old_genes[c - 1] == gx);
                        }
                        assert(seq_has_u128(old_genes, gx));
                        assert(input_has_id(pre, gx));
                        let j = choose|j: int| 0 <= j < pre.len() && pre[j].id == gx;
                        assert(cur[j].id == gx);
                    }
                }
                assert forall|gx: u128| input_has_id(cur, gx) implies seq_has_u128(
                    genes@,
                    gx,
                ) by {
                    let j = choose|j: int| 0 <= j < cur.len() && cur[j].id == gx;
                    if j < i {
                        assert(pre[j].id == gx);
                        assert(input_has_id(pre, gx));
                        assert(seq_has_u128(old_genes, gx));
                        let c = choose|c: int| 0 <= c < old_genes.len() && old_genes[c] == gx;
                        if c < pos {
                            assert(genes@[c] == gx);
                        } else {
                            assert(genes@[c + 1] == gx);
                        }
                    } else {
                        assert(genes@[pos as int] == gx);
                    }
                }
                let ghost old_src = src;
                src = src.insert(pos as int, i as int);
                old_src.insert_ensures(pos as int, i as int);
                old_genes.insert_ensures(pos as int, g);
                old_symbols.insert_ensures(pos as int, sym);
                assert forall|c: int| 0 <= c < genes@.len() implies 0 <= #[trigger] src[c]
                    < input@.len() && input@[src[c]].id == genes@[c] && input@[src[c]].symbol@
                    == symbols@[c]@ by {
                    if c < pos {
                        assert(src[c] == old_src[c]);
                        assert(genes@[c] == old_genes[c]);
                        assert(symbols@[c] == old_symbols[c]);
                    } else if c == pos {
                        assert(src[c] == i as int);
                        assert(genes@[c] == g);
                        assert(symbols@[c] == sym);
                    } else {
                        assert(src[c] == old_src[c - 1]);
                        assert(genes@[c] == old_genes[c - 1]);
                        assert(symbols@[c] == old_symbols[c - 1]);
                    }
                }
            }
        } else {
            proof {
                let ghost pre = input@.subrange(0, i as int);
                let ghost cur = input@.subrange(0, i + 1);
                assert(cur[i as int] == input@[i as int]);
                assert forall|gx: u128| input_has_id(cur, gx) implies seq_has_u128(
                    genes@,
                    gx,
                ) by {
                    let j = choose|j: int| 0 <= j < cur.len() && cur[j].id == gx;
                    if j < i {
                        assert(pre[j].id == gx);
                        assert(input_has_id(pre, gx));
                    } else {
                        assert(gx == g);
                        assert(genes@[pos as int] == g);
                    }
                }
                assert forall|gx: u128| seq_has_u128(genes@, gx) implies input_has_id(
                    cur,
                    gx,
                ) by {
                    assert(input_has_id(pre, gx));
                    let j = choose|j: int| 0 <= j < pre.len() && pre[j].id == gx;
                    assert(cur[j].id == gx);
                }
            }
        }
        i = i + 1;
    }
    proof {
        assert(input@.subrange(0, input@.len() as int) =~= input@);
        assert forall|c: int| 0 <= c < genes@.len() implies #[trigger] column_symbol_ok(
            input@,
            genes@[c],
            symbols@[c]@,
        ) by {
            let j = src[c];
            assert(0 <= j < input@.len() && input@[j].id == genes@[c] && input@[j].symbol@
                == symbols@[c]@);
        }
    }
    (genes, symbols)
}

/// The dense occupancy of `list` against the column space `genes`: column
/// `c` is set exactly when `genes[c]` occurs in `list`. Genes absent from
/// the background are silently dropped.
pub open spec fn dense_of_list(genes: Seq<u128>, list: Seq<u128>) -> Seq<bool> {
    Seq::new(genes.len(), |c: int| seq_has_u128(list, genes[c]))
}

/// Builds the dense bitvector of a user-supplied gene list.
pub fn dense_from_list(genes: &Vec<u128>, list: &Vec<u128>) -> (d: DenseBitVec)
    requires
        strictly_sorted_u128(genes@),
    ensures
        d.wf(),
        d.v@ == dense_of_list(genes@, list@),
{
    let ghost target = dense_of_list(genes@, list@);
    let mut flags: Vec<bool> = Vec::new();
    let mut c: usize = 0;
    while c < genes.len()
        invariant
            c <= genes@.len(),
            flags@.len() == c,
            forall|t: int| 0 <= t < c ==> !flags@[t],
        decreases genes@.len() - c,
    {
        flags.push(false);
        c = c + 1;
    }
    let mut i: usize = 0;
    while i < list.len()
        invariant
            i <= list@.len(),
            strictly_sorted_u128(genes@),
            flags@.len() == genes@.len(),
            forall|t: int|
                0 <= t < genes@.len() ==> #[trigger] flags@[t] == seq_has_u128(
                    list@.subrange(0, i as int),
                    genes@[t],
                ),
        decreases list@.len() - i,
    {
        let g = list[i];
        let found = find_column(genes, g);
        let ghost old_flags = flags@;
        match found {
            Some(col) => {
                flags.set(col, true);
            },
            None => {},
        }
        proof {
            assert forall|t: int| 0 <= t < genes@.len() implies #[trigger] flags@[t]
                == seq_has_u128(list@.subrange(0, i + 1), genes@[t]) by {
                let pre = list@.subrange(0, i as int);
                let cur = list@.subrange(0, i + 1);
                assert(cur[i as int] == list@[i as int]);
                if flags@[t] {
                    if old_flags[t] {
                        let j = choose|j: int| 0 <= j < pre.len() && pre[j] == genes@[t];
                        assert(cur[j] == genes@[t]);
                    } else {
                        // the bit was set this round, so genes[t] == g
                        assert(cur[i as int] == genes@[t]);
                    }
                } else {
                    if seq_has_u128(cur, genes@[t]) {
                        let j = choose|j: int| 0 <= j < cur.len() && cur[j] == genes@[t];
                        if j < i {
                            assert(pre[j] == genes@[t]);
                        } else {
                            // g is a member, so find_column returned its column
                            assert(genes@[t] == g);
                            match found {
                                Some(col) => {
                                    if col != t {
                                        assert(genes@[col as int] == genes@[t]);
                                        assert(false);
                                    }
                                },
                                None => {
                                    assert(!seq_has_u128(genes@, g));
                                    assert(false);
                                },
                            }
                        }
                    }
                }
            }
        }
        i = i + 1;
    }
    proof {
        assert(list@.subrange(0, list@.len() as int) =~= list@);
        assert(flags@ =~= target);
    }
    DenseBitVec::from_flags(flags)
}

/// Builds the sparse bitvector of a catalog entry's gene list: the
/// ascending columns of its member genes, unknown genes dropped.
pub fn sparse_from_list(genes: &Vec<u128>, list: &Vec<u128>) -> (s: SparseBitVec)
    requires
        strictly_sorted_u128(genes@),
        genes@.len() <= 65536,
    ensures
        s.wf(genes@.len() as int),
        s.occupancy(genes@.len() as nat) == dense_of_list(genes@, list@),
        s.v@.len() <= genes@.len(),
{
    let d = dense_from_list(genes, list);
    let mut v: Vec<u16> = Vec::new();
    let mut c: usize = 0;
    while c < d.v.len()
        invariant
            c <= d.v@.len(),
            d.v@.len() == genes@.len() <= 65536,
            v@.len() <= c,
            forall|j: int| 0 <= j < v@.len() ==> (v@[j] as int) < c,
            forall|j1: int, j2: int| 0 <= j1 < j2 < v@.len() ==> v@[j1] < v@[j2],
            forall|t: int| 0 <= t < c ==> sparse_mem(v@, t) == d.v@[t],
        decreases d.v@.len() - c,
    {
        let ghost old_v = v@;
        if d.v[c] {
            v.push(c as u16);
        }
        proof {
            assert forall|t: int| 0 <= t < c + 1 implies sparse_mem(v@, t) == d.v@[t] by {
                if d.v@[c as int] {
                    assert(v@ == old_v.push(c as u16));
                    assert(v@[old_v.len() as int] == c as u16);
                    if t < c {
                        if sparse_mem(old_v, t) {
                            let j = choose|j: int| 0 <= j < old_v.len() && old_v[j] == t;
                            assert(v@[j] == t);
                        }
                        if sparse_mem(v@, t) {
                            let j = choose|j: int| 0 <= j < v@.len() && v@[j] == t;
                            assert(j < old_v.len());
                            assert(old_v[j] == t);
                        }
                    } else {
                        assert(sparse_mem(v@, t));
                    }
                } else {
                    if t == c && sparse_mem(v@, t) {
                        let j = choose|j: int| 0 <= j < v@.len() && v@[j] == t;
                        assert((v@[j] as int) < c);
                        assert(false);
                    }
                }
            }
        }
        c = c + 1;
    }
    let s = SparseBitVec { v };
    proof {
        assert(s.occupancy(genes@.len() as nat) =~= dense_of_list(genes@, list@));
        if s.v@.len() > genes@.len() {
            crate::bits::lemma_sparse_overlap_eq(
                dense_of_list(genes@, list@),
                s.v@,
            );
        }
    }
    s
}

/// The column mapping is a bijection between the member genes and
/// `0 .. columnCount`: distinct columns carry distinct genes, and every
/// member gene has a column.
pub proof fn lemma_column_bijection(genes: Seq<u128>)
    requires
        strictly_sorted_u128(genes),
    ensures
        forall|c1: int, c2: int| 0 <= c1 < c2 < genes.len() ==> genes[c1] != genes[c2],
        forall|g: u128|
            seq_has_u128(genes, g) ==> exists|c: int| 0 <= c < genes.len() && genes[c] == g,
{
}

/// Two strictly sorted sequences carrying the same identifiers are the
/// same sequence: the column mapping is determined by the member set, so
/// rebuilding from identical source data yields an identical mapping.
pub proof fn lemma_sorted_unique(a: Seq<u128>, b: Seq<u128>)
    requires
        strictly_sorted_u128(a),
        strictly_sorted_u128(b),
        forall|g: u128| seq_has_u128(a, g) <==> seq_has_u128(b, g),
    ensures
        a == b,
    decreases a.len(),
{
    if a.len() == 0 {
        if b.len() > 0 {
            assert(seq_has_u128(b, b[0]));
            assert(seq_has_u128(a, b[0]));
            assert(false);
        }
        assert(a =~= b);
    } else {
        assert(seq_has_u128(a, a.last()));
        assert(seq_has_u128(b, a.last()));
        if b.len() == 0 {
            assert(false);
        }
        assert(seq_has_u128(b, b.last()));
        assert(seq_has_u128(a, b.last()));
        let ca = choose|c: int| 0 <= c < b.len() && b[c] == a.last();
        let cb = choose|c: int| 0 <= c < a.len() && a[c] == b.last();
        // each last element is its sequence's maximum
        assert(b[ca] <= b.last());
        assert(a[cb] <= a.last());
        assert(a.last() == b.last());
        let a0 = a.drop_last();
        let b0 = b.drop_last();
        assert forall|g: u128| seq_has_u128(a0, g) implies seq_has_u128(b0, g) by {
            let j = choose|j: int| 0 <= j < a0.len() && a0[j] == g;
            assert(a[j] == g);
            assert(seq_has_u128(b, g));
            let c = choose|c: int| 0 <= c < b.len() && b[c] == g;
            assert(a[j] < a.last());
            if c == b.len() - 1 {
                assert(g == b.last());
                assert(false);
            }
            assert(b0[c] == g);
        }
        assert forall|g: u128| seq_has_u128(b0, g) implies seq_has_u128(a0, g) by {
            let j = choose|j: int| 0 <= j < b0.len() && b0[j] == g;
            assert(b[j] == g);
            assert(seq_has_u128(a, g));
            let c = choose|c: int| 0 <= c < a.len() && a[c] == g;
            assert(b[j] < b.last());
            if c == a.len() - 1 {
                assert(g == a.last());
                assert(false);
            }
            assert(a0[c] == g);
        }
        lemma_sorted_unique(a0, b0);
        assert forall|k: int| 0 <= k < a.len() implies a[k] == b[k] by {
            if k < a.len() - 1 {
                assert(a0[k] == b0[k]);
            }
        }
        assert(a =~= b);
    }
}

} // verus!
