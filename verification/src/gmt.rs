//! Bulk export: one tab-separated line per (term, description,
//! member-gene-symbols) tuple, built from a ready background index.

use vstd::prelude::*;
use crate::catalog::{BackgroundIndex, CatalogEntry};
use crate::columns::copy_bytes;

verus! {

/// The tab-joined symbol columns of the first `j` sparse positions.
pub open spec fn gene_cols_suffix(symbols: Seq<Vec<u8>>, pos: Seq<u16>, j: int) -> Seq<u8>
    decreases j,
{
    if j <= 0 {
        Seq::empty()
    } else {
        gene_cols_suffix(symbols, pos, j - 1) + seq![9u8] + symbols[pos[j - 1] as int]@
    }
}

/// One export line: term, description, and the entry's gene symbols, all
/// tab-separated.
pub open spec fn gmt_line_of(
    term: Seq<u8>,
    desc: Seq<u8>,
    symbols: Seq<Vec<u8>>,
    pos: Seq<u16>,
) -> Seq<u8> {
    term + seq![9u8] + desc + gene_cols_suffix(symbols, pos, pos.len() as int)
}

/// The lines of one entry's first `t` metadata records.
pub open spec fn entry_lines_upto(e: CatalogEntry, symbols: Seq<Vec<u8>>, t: int) -> Seq<Seq<u8>>
    decreases t,
{
    if t <= 0 {
        Seq::empty()
    } else {
        entry_lines_upto(e, symbols, t - 1).push(
            gmt_line_of(e.terms@[t - 1].term@, e.terms@[t - 1].description@, symbols, e.genes.v@),
        )
    }
}

/// The lines of the first `k` entries.
pub open spec fn gmt_upto(entries: Seq<CatalogEntry>, symbols: Seq<Vec<u8>>, k: int) -> Seq<
    Seq<u8>,
>
    decreases k,
{
    if k <= 0 {
        Seq::empty()
    } else {
        gmt_upto(entries, symbols, k - 1) + entry_lines_upto(
            entries[k - 1],
            symbols,
            entries[k - 1].terms@.len() as int,
        )
    }
}

/// The full export of an index.
pub open spec fn gmt_view(ix: BackgroundIndex) -> Seq<Seq<u8>> {
    gmt_upto(ix.entries@, ix.symbols@, ix.entries@.len() as int)
}

/// The produced lines carry exactly the modelled byte strings.
pub open spec fn lines_match(actual: Seq<Vec<u8>>, model: Seq<Seq<u8>>) -> bool {
    actual.len() == model.len() && forall|l: int|
        0 <= l < actual.len() ==> (#[trigger] actual[l])@ == model[l]
}

/// Appends one byte string to another.
pub fn append_bytes(dst: &mut Vec<u8>, src: &Vec<u8>)
    ensures
        final (dst)@ == old(dst)@ + src@,
{
    let mut i: usize = 0;
    while i < src.len()
        invariant
            i <= src@.len(),
            dst@ == old(dst)@ + src@.subrange(0, i as int),
        decreases src@.len() - i,
    {
        let ghost before = dst@;
        dst.push(src[i]);
        proof {
            assert(dst@ =~= old(dst)@ + src@.subrange(0, i + 1));
        }
        i = i + 1;
    }
    proof {
        assert(src@.subrange(0, src@.len() as int) =~= src@);
        assert(old(dst)@ + src@.subrange(0, 0) =~= old(dst)@);
    }
}

/// Builds the export lines of a ready index: for every catalog entry, in
/// order, one line per metadata record, carrying the term, the
/// description, and the symbol of every member gene.
pub fn gmt_lines(ix: &BackgroundIndex) -> (r: Vec<Vec<u8>>)
    requires
        ix.wf(),
    ensures
        lines_match(r@, gmt_view(*ix)),
{
    let mut out: Vec<Vec<u8>> = Vec::new();
    let mut k: usize = 0;
    while k < ix.entries.len()
        invariant
            k <= ix.entries@.len(),
            ix.wf(),
            lines_match(out@, gmt_upto(ix.entries@, ix.symbols@, k as int)),
        decreases ix.entries@.len() - k,
    {
        let nterms = ix.entries[k].terms.len();
        let mut t: usize = 0;
        while t < nterms
            invariant
                k < ix.entries@.len(),
                ix.wf(),
                nterms == ix.entries@[k as int].terms@.len(),
                t <= nterms,
                lines_match(
                    out@,
                    gmt_upto(ix.entries@, ix.symbols@, k as int) + entry_lines_upto(
                        ix.entries@[k as int],
                        ix.symbols@,
                        t as int,
                    ),
                ),
            decreases nterms - t,
        {
            let mut line = copy_bytes(&ix.entries[k].terms[t].term);
            line.push(9u8);
            proof {
                assert(line@ =~= ix.entries@[k as int].terms@[t as int].term@ + seq![9u8]);
            }
            append_bytes(&mut line, &ix.entries[k].terms[t].description);
            let ghost e = ix.entries@[k as int];
            let ghost head = e.terms@[t as int].term@ + seq![9u8] + e.terms@[t as int].description@;
            proof {
                assert(line@ =~= head);
                assert(gene_cols_suffix(ix.symbols@, e.genes.v@, 0) =~= Seq::<u8>::empty());
                assert(line@ =~= head + gene_cols_suffix(ix.symbols@, e.genes.v@, 0));
            }
            let npos = ix.entries[k].genes.v.len();
            let mut j: usize = 0;
            while j < npos
                invariant
                    k < ix.entries@.len(),
                    ix.wf(),
                    e == ix.entries@[k as int],
                    npos == e.genes.v@.len(),
                    j <= npos,
                    head == e.terms@[t as int].term@ + seq![9u8] + e.terms@[t as int].description@,
                    t < e.terms@.len(),
                    line@ == head + gene_cols_suffix(ix.symbols@, e.genes.v@, j as int),
                decreases npos - j,
            {
                line.push(9u8);
                let pos = ix.entries[k].genes.v[j];
                append_bytes(&mut line, &ix.symbols[pos as usize]);
                proof {
                    assert(line@ =~= head + (gene_cols_suffix(ix.symbols@, e.genes.v@, j as int)
                        + seq![9u8] + ix.symbols@[e.genes.v@[j as int] as int]@));
                }
                j = j + 1;
            }
            let ghost old_out = out@;
            out.push(line);
            proof {
                assert(line@ =~= gmt_line_of(
                    e.terms@[t as int].term@,
                    e.terms@[t as int].description@,
                    ix.symbols@,
                    e.genes.v@,
                ));
                let model = gmt_upto(ix.entries@, ix.symbols@, k as int) + entry_lines_upto(
                    e,
                    ix.symbols@,
                    t + 1,
                );
                assert forall|l: int| 0 <= l < out@.len() implies (#[trigger] out@[l])@
                    == model[l] by {
                    if l < old_out.len() {
                        assert(out@[l] == old_out[l]);
                    }
                }
                assert(out@.len() == model.len());
            }
            t = t + 1;
        }
        proof {
            assert(gmt_upto(ix.entries@, ix.symbols@, k + 1) =~= gmt_upto(
                ix.entries@,
                ix.symbols@,
                k as int,
            ) + entry_lines_upto(
                ix.entries@[k as int],
                ix.symbols@,
                ix.entries@[k as int].terms@.len() as int,
            ));
        }
        k = k + 1;
    }
    out
}

} // verus!
