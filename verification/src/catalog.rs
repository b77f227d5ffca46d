//! The per-background catalog: gene sets keyed by content hash (rows with
//! identical gene content share one entry), each carrying the metadata
//! records of every catalog row that mapped to it, plus the derived
//! signature pairs.

use vstd::prelude::*;
use crate::bits::SparseBitVec;
use crate::columns::{
    GeneRecord, build_columns, column_symbol_ok, copy_bytes, dense_of_list, input_has_id,
    seq_has_u128, sparse_from_list, strictly_sorted_u128,
};

verus! {

/// One metadata record of a catalog entry: the originating row id, term
/// name, description, approval flag, clinical usage count, and
/// perturbation-agent label.
pub struct TermMeta {
    pub id: u128,
    pub term: Vec<u8>,
    pub description: Vec<u8>,
    pub fda_approved: bool,
    pub count: u32,
    pub pert: Vec<u8>,
}

/// The mathematical value of a metadata record.
#[verifier::ext_equal]
pub struct TermMetaView {
    pub id: u128,
    pub term: Seq<u8>,
    pub description: Seq<u8>,
    pub fda_approved: bool,
    pub count: u32,
    pub pert: Seq<u8>,
}

/// The value of a stored metadata record.
pub open spec fn meta_view(m: TermMeta) -> TermMetaView {
    TermMetaView {
        id: m.id,
        term: m.term@,
        description: m.description@,
        fda_approved: m.fda_approved,
        count: m.count,
        pert: m.pert@,
    }
}

/// The values of a metadata list.
pub open spec fn metas_of(ts: Seq<TermMeta>) -> Seq<TermMetaView> {
    Seq::new(ts.len(), |t: int| meta_view(ts[t]))
}

/// One catalog row as handed in by the data source.
pub struct CatalogRow {
    pub id: u128,
    pub term: Vec<u8>,
    pub description: Vec<u8>,
    pub hash: u128,
    pub gene_ids: Vec<u128>,
    pub fda_approved: bool,
    pub count: u32,
    pub pert: Vec<u8>,
}

/// The metadata record a catalog row contributes.
pub open spec fn row_meta(r: CatalogRow) -> TermMetaView {
    TermMetaView {
        id: r.id,
        term: r.term@,
        description: r.description@,
        fda_approved: r.fda_approved,
        count: r.count,
        pert: r.pert@,
    }
}

/// One catalog entry: a content hash, the gene set as a sparse bitvector
/// in the owning background's column space, and the metadata records of
/// every row with this hash.
pub struct CatalogEntry {
    pub hash: u128,
    pub genes: SparseBitVec,
    pub terms: Vec<TermMeta>,
}

/// The content hashes of the entry list, in order.
pub open spec fn hashes_of(entries: Seq<CatalogEntry>) -> Seq<u128> {
    Seq::new(entries.len(), |k: int| entries[k].hash)
}

/// The entry's bitvector is the occupancy of some row with its hash
/// (rows sharing a content hash share their gene content, so any such row
/// determines it).
pub open spec fn entry_from_rows(genes: Seq<u128>, rows: Seq<CatalogRow>, e: CatalogEntry) -> bool {
    exists|ri: int|
        0 <= ri < rows.len() && (#[trigger] rows[ri]).hash == e.hash && e.genes.occupancy(
            genes.len() as nat,
        ) == dense_of_list(genes, rows[ri].gene_ids@)
}

/// The distinct row hashes among the first `n` rows, in first-seen order.
pub open spec fn hashes_upto(rows: Seq<CatalogRow>, n: int) -> Seq<u128>
    decreases n,
{
    if n <= 0 {
        Seq::empty()
    } else {
        let pre = hashes_upto(rows, n - 1);
        if seq_has_u128(pre, rows[n - 1].hash) {
            pre
        } else {
            pre.push(rows[n - 1].hash)
        }
    }
}

/// The metadata values of the rows with hash `h` among the first `n`
/// rows, in row order.
pub open spec fn metas_upto(rows: Seq<CatalogRow>, h: u128, n: int) -> Seq<TermMetaView>
    decreases n,
{
    if n <= 0 {
        Seq::empty()
    } else {
        let pre = metas_upto(rows, h, n - 1);
        if rows[n - 1].hash == h {
            pre.push(row_meta(rows[n - 1]))
        } else {
            pre
        }
    }
}

/// A hash occurs among the first `n` distinct hashes exactly when some of
/// the first `n` rows carries it.
pub proof fn lemma_hashes_membership(rows: Seq<CatalogRow>, n: int)
    requires
        n <= rows.len(),
    ensures
        forall|h: u128|
            seq_has_u128(hashes_upto(rows, n), h) <==> exists|ri: int|
                0 <= ri < n && (#[trigger] rows[ri]).hash == h,
    decreases n,
{
    if n > 0 {
        lemma_hashes_membership(rows, n - 1);
        let pre = hashes_upto(rows, n - 1);
        let cur = hashes_upto(rows, n);
        assert forall|h: u128| seq_has_u128(cur, h) implies exists|ri: int|
            0 <= ri < n && (#[trigger] rows[ri]).hash == h by {
            let c = choose|c: int| 0 <= c < cur.len() && cur[c] == h;
            if c < pre.len() {
                assert(pre[c] == h);
                assert(seq_has_u128(pre, h));
                let ri = choose|ri: int| 0 <= ri < n - 1 && (#[trigger] rows[ri]).hash == h;
                assert(rows[ri].hash == h);
            } else {
                assert(rows[n - 1].hash == h);
            }
        }
        assert forall|h: u128|
            (exists|ri: int| 0 <= ri < n && (#[trigger] rows[ri]).hash == h) implies seq_has_u128(
            cur,
            h,
        ) by {
            let ri = choose|ri: int| 0 <= ri < n && (#[trigger] rows[ri]).hash == h;
            if ri < n - 1 {
                assert(seq_has_u128(pre, h));
                let c = choose|c: int| 0 <= c < pre.len() && pre[c] == h;
                assert(cur[c] == h);
            } else {
                if seq_has_u128(pre, h) {
                    let c = choose|c: int| 0 <= c < pre.len() && pre[c] == h;
                    assert(cur[c] == h);
                } else {
                    assert(cur[pre.len() as int] == h);
                }
            }
        }
    }
}

/// The distinct-hash list carries no duplicates.
pub proof fn lemma_hashes_nodup(rows: Seq<CatalogRow>, n: int)
    requires
        n <= rows.len(),
    ensures
        forall|a: int, b: int|
            0 <= a < b < hashes_upto(rows, n).len() ==> hashes_upto(rows, n)[a] != hashes_upto(
                rows,
                n,
            )[b],
    decreases n,
{
    if n > 0 {
        lemma_hashes_nodup(rows, n - 1);
        let pre = hashes_upto(rows, n - 1);
        let cur = hashes_upto(rows, n);
        if !seq_has_u128(pre, rows[n - 1].hash) {
            assert forall|a: int, b: int| 0 <= a < b < cur.len() implies cur[a] != cur[b] by {
                if b < pre.len() {
                    assert(pre[a] == cur[a] && pre[b] == cur[b]);
                } else {
                    if cur[a] == cur[b] {
                        assert(pre[a] == rows[n - 1].hash);
                        assert(seq_has_u128(pre, rows[n - 1].hash));
                        assert(false);
                    }
                }
            }
        }
    }
}

/// No row among the first `n` carries `h`, so `h` has no metadata there.
pub proof fn lemma_metas_empty(rows: Seq<CatalogRow>, h: u128, n: int)
    requires
        forall|ri: int| 0 <= ri < n ==> (#[trigger] rows[ri]).hash != h,
    ensures
        metas_upto(rows, h, n) == Seq::<TermMetaView>::empty(),
    decreases n,
{
    if n > 0 {
        lemma_metas_empty(rows, h, n - 1);
    }
}

/// Why a background index could not be built.
pub enum BuildError {
    /// The background has more member genes than the 16-bit column space
    /// can address.
    TooManyGenes,
}

/// The per-background index: the column mapping, the display symbol of
/// each column, the content-hash deduplicated catalog, and the derived
/// signature pairs.
pub struct BackgroundIndex {
    pub genes: Vec<u128>,
    pub symbols: Vec<Vec<u8>>,
    pub entries: Vec<CatalogEntry>,
    pub pairs: Vec<(usize, usize)>,
}

impl BackgroundIndex {
    /// The width of the column space.
    pub open spec fn ncols(self) -> int {
        self.genes@.len() as int
    }

    /// Well-formedness: sorted deduplicated columns that fit the 16-bit
    /// position type, one symbol per column, every entry bitvector inside
    /// the column space, pairwise distinct entry hashes, and pair indices
    /// inside the catalog.
    pub open spec fn wf(self) -> bool {
        &&& strictly_sorted_u128(self.genes@)
        &&& self.symbols@.len() == self.genes@.len()
        &&& self.genes@.len() <= 65536
        &&& forall|k: int|
            0 <= k < self.entries@.len() ==> (#[trigger] self.entries@[k]).genes.wf(self.ncols())
        &&& forall|k: int|
            0 <= k < self.entries@.len() ==> (#[trigger] self.entries@[k]).genes.v@.len()
                <= self.ncols()
        &&& forall|k1: int, k2: int|
            0 <= k1 < k2 < self.entries@.len() ==> self.entries@[k1].hash != self.entries@[k2].hash
        &&& forall|t: int|
            0 <= t < self.pairs@.len() ==> (#[trigger] self.pairs@[t]).0 < self.entries@.len()
                && self.pairs@[t].1 < self.entries@.len()
    }
}

/// The position of the entry with hash `h`, if one exists.
pub fn find_entry(entries: &Vec<CatalogEntry>, h: u128) -> (r: Option<usize>)
    ensures
        match r {
            Some(k) => k < entries@.len() && entries@[k as int].hash == h,
            None => forall|k: int| 0 <= k < entries@.len() ==> (#[trigger] entries@[k]).hash != h,
        },
{
    let mut k: usize = 0;
    while k < entries.len()
        invariant
            k <= entries@.len(),
            forall|t: int| 0 <= t < k ==> (#[trigger] entries@[t]).hash != h,
        decreases entries@.len() - k,
    {
        if entries[k].hash == h {
            return Some(k);
        }
        k = k + 1;
    }
    None
}

/// The index is exactly what building from these data-source rows
/// yields: the sorted deduplicated column mapping with its symbols, one
/// catalog entry per distinct content hash in first-seen order carrying
/// that hash's metadata records in row order, and sound and complete
/// signature pairs.
pub open spec fn built_from(
    ix: BackgroundIndex,
    background: Seq<GeneRecord>,
    rows: Seq<CatalogRow>,
) -> bool {
    &&& ix.wf()
    &&& forall|g: u128| seq_has_u128(ix.genes@, g) <==> input_has_id(background, g)
    &&& forall|c: int|
        0 <= c < ix.genes@.len() ==> #[trigger] column_symbol_ok(
            background,
            ix.genes@[c],
            ix.symbols@[c]@,
        )
    &&& hashes_of(ix.entries@) == hashes_upto(rows, rows.len() as int)
    &&& forall|k: int|
        0 <= k < ix.entries@.len() ==> metas_of((#[trigger] ix.entries@[k]).terms@) == metas_upto(
            rows,
            ix.entries@[k].hash,
            rows.len() as int,
        )
    &&& forall|k: int|
        0 <= k < ix.entries@.len() ==> #[trigger] entry_from_rows(ix.genes@, rows, ix.entries@[k])
    &&& crate::pairs::pairs_sound(ix.entries@, ix.pairs@)
    &&& crate::pairs::pairs_complete(ix.entries@, ix.pairs@)
    &&& crate::pairs::pairs_match_model(ix.entries@, ix.pairs@)
}

/// Builds a background index: columns by sorted gene identifier, one
/// catalog entry per distinct content hash in first-seen order, the
/// metadata records of every row attached to its hash's entry, and the
/// signature pairs computed last. Rows whose gene sets name genes outside
/// the background have those genes silently dropped. Fails only when the
/// background has more distinct genes than the column space can address.
pub fn build_index(background: &Vec<GeneRecord>, rows: &Vec<CatalogRow>) -> (r: Result<
    BackgroundIndex,
    BuildError,
>)
    ensures
        match r {
            Ok(ix) => built_from(ix, background@, rows@),
            Err(e) => exists|s: Seq<u128>|
                strictly_sorted_u128(s) && (forall|g: u128|
                    seq_has_u128(s, g) <==> input_has_id(background@, g)) && s.len() > 65536,
        },
{
    let (genes, symbols) = build_columns(background);
    if genes.len() > 65536 {
        proof {
            assert(strictly_sorted_u128(genes@) && (forall|g: u128|
                seq_has_u128(genes@, g) <==> input_has_id(background@, g)) && genes@.len() > 65536);
        }
        return Err(BuildError::TooManyGenes);
    }
    let ghost ncols = genes@.len() as int;
    let mut entries: Vec<CatalogEntry> = Vec::new();
    let mut i: usize = 0;
    while i < rows.len()
        invariant
            i <= rows@.len(),
            strictly_sorted_u128(genes@),
            genes@.len() <= 65536,
            ncols == genes@.len() as int,
            hashes_of(entries@) == hashes_upto(rows@, i as int),
            forall|k: int|
                0 <= k < entries@.len() ==> (#[trigger] entries@[k]).genes.wf(ncols)
                    && entries@[k].genes.v@.len() <= ncols,
            forall|k1: int, k2: int|
                0 <= k1 < k2 < entries@.len() ==> entries@[k1].hash != entries@[k2].hash,
            forall|k: int|
                0 <= k < entries@.len() ==> metas_of((#[trigger] entries@[k]).terms@)
                    == metas_upto(rows@, entries@[k].hash, i as int),
            forall|k: int|
                0 <= k < entries@.len() ==> #[trigger] entry_from_rows(
                    genes@,
                    rows@,
                    entries@[k],
                ),
        decreases rows@.len() - i,
    {
        let h = rows[i].hash;
        let meta = TermMeta {
            id: rows[i].id,
            term: copy_bytes(&rows[i].term),
            description: copy_bytes(&rows[i].description),
            fda_approved: rows[i].fda_approved,
            count: rows[i].count,
            pert: copy_bytes(&rows[i].pert),
        };
        proof {
            assert(meta_view(meta) =~= row_meta(rows@[i as int]));
            lemma_hashes_membership(rows@, i as int);
        }
        let found = find_entry(&entries, h);
        let ghost old_entries = entries@;
        match found {
            Some(idx) => {
                let mut e = entries.remove(idx);
                let ghost old_terms = e.terms@;
                e.terms.push(meta);
                entries.insert(idx, e);
                proof {
                    old_entries.remove_ensures(idx as int);
                    assert(entries@ =~= old_entries.update(idx as int, e));
                    // the row's hash was already present, so the distinct
                    // hash list does not grow
                    assert(hashes_of(old_entries)[idx as int] == h);
                    assert(seq_has_u128(hashes_upto(rows@, i as int), h));
                    assert(hashes_upto(rows@, i + 1) == hashes_upto(rows@, i as int));
                    assert(hashes_of(entries@) =~= hashes_of(old_entries));
                    assert forall|k: int| 0 <= k < entries@.len() implies metas_of(
                        (#[trigger] entries@[k]).terms@,
                    ) == metas_upto(rows@, entries@[k].hash, i + 1) by {
                        if k == idx {
                            assert(entries@[k].terms@ =~= old_terms.push(meta));
                            assert(metas_of(entries@[k].terms@) =~= metas_of(old_terms).push(
                                meta_view(meta),
                            ));
                            assert(metas_upto(rows@, h, i + 1) == metas_upto(rows@, h, i as int)
                                .push(row_meta(rows@[i as int])));
                        } else {
                            assert(entries@[k] == old_entries[k]);
                            // distinct hashes: only the matched entry's
                            // hash equals this row's hash
                            assert(entries@[k].hash != h);
                            assert(metas_upto(rows@, entries@[k].hash, i + 1) == metas_upto(
                                rows@,
                                entries@[k].hash,
                                i as int,
                            ));
                        }
                    }
                    assert forall|k: int| 0 <= k < entries@.len() implies
                        #[trigger] entry_from_rows(genes@, rows@, entries@[k]) by {
                        if k == idx {
                            assert(entry_from_rows(genes@, rows@, old_entries[k]));
                            let ri = choose|ri: int|
                                0 <= ri < rows@.len() && (#[trigger] rows@[ri]).hash
                                    == old_entries[k].hash && old_entries[k].genes.occupancy(
                                    genes@.len() as nat,
                                ) == dense_of_list(genes@, rows@[ri].gene_ids@);
                            assert(entries@[k].genes == old_entries[k].genes);
                            assert(entries@[k].hash == old_entries[k].hash);
                            assert(rows@[ri].hash == entries@[k].hash);
                        } else {
                            assert(entries@[k] == old_entries[k]);
                        }
                    }
                }
            },
            None => {
                let sparse = sparse_from_list(&genes, &rows[i].gene_ids);
                let mut terms: Vec<TermMeta> = Vec::new();
                terms.push(meta);
                let e = CatalogEntry { hash: h, genes: sparse, terms };
                entries.push(e);
                proof {
                    assert(!seq_has_u128(hashes_upto(rows@, i as int), h));
                    assert(hashes_upto(rows@, i + 1) == hashes_upto(rows@, i as int).push(h));
                    assert(hashes_of(entries@) =~= hashes_of(old_entries).push(h));
                    assert forall|k1: int, k2: int|
                        0 <= k1 < k2 < entries@.len() implies entries@[k1].hash
                        != entries@[k2].hash by {
                        if k2 == old_entries.len() {
                            assert(hashes_of(old_entries)[k1] == old_entries[k1].hash);
                        }
                    }
                    assert forall|k: int| 0 <= k < entries@.len() implies metas_of(
                        (#[trigger] entries@[k]).terms@,
                    ) == metas_upto(rows@, entries@[k].hash, i + 1) by {
                        if k == old_entries.len() {
                            assert forall|ri: int| 0 <= ri < i implies (#[trigger] rows@[ri]).hash
                                != h by {
                                if rows@[ri].hash == h {
                                    assert(seq_has_u128(hashes_upto(rows@, i as int), h));
                                }
                            }
                            lemma_metas_empty(rows@, h, i as int);
                            assert(metas_upto(rows@, h, i + 1) =~= Seq::<
                                TermMetaView,
                            >::empty().push(row_meta(rows@[i as int])));
                            assert(metas_of(entries@[k].terms@) =~= Seq::<
                                TermMetaView,
                            >::empty().push(meta_view(meta)));
                        } else {
                            assert(entries@[k] == old_entries[k]);
                            assert(hashes_of(old_entries)[k] == entries@[k].hash);
                            assert(seq_has_u128(hashes_upto(rows@, i as int), entries@[k].hash));
                            assert(entries@[k].hash != h);
                            assert(metas_upto(rows@, entries@[k].hash, i + 1) == metas_upto(
                                rows@,
                                entries@[k].hash,
                                i as int,
                            ));
                        }
                    }
                    assert forall|k: int| 0 <= k < entries@.len() implies
                        #[trigger] entry_from_rows(genes@, rows@, entries@[k]) by {
                        if k == old_entries.len() {
                            assert(rows@[i as int].hash == entries@[k].hash && entries@[k
                            ].genes.occupancy(genes@.len() as nat) == dense_of_list(
                                genes@,
                                rows@[i as int].gene_ids@,
                            ));
                        } else {
                            assert(entries@[k] == old_entries[k]);
                            assert(entry_from_rows(genes@, rows@, old_entries[k]));
                        }
                    }
                }
            },
        }
        i = i + 1;
    }
    let pairs = crate::pairs::compute_pairs(&entries);
    let ix = BackgroundIndex { genes, symbols, entries, pairs };
    Ok(ix)
}

} // verus!
