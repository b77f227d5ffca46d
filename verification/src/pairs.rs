//! Signature pairs: the "up" and "down" halves of one named experimental
//! signature, matched by stripping a trailing direction suffix from the
//! term name, stored as index pairs into the catalog-entry list.

use vstd::prelude::*;
use crate::catalog::CatalogEntry;
use crate::text::{bytes_eq, strip_suffix};

verus! {

/// The " up" direction suffix.
pub open spec fn up_suffix() -> Seq<u8> {
    seq![32u8, 117u8, 112u8]
}

/// The " down" direction suffix.
pub open spec fn down_suffix() -> Seq<u8> {
    seq![32u8, 100u8, 111u8, 119u8, 110u8]
}

/// Entry `k` carries a term named `base` + " up".
pub open spec fn up_match(entries: Seq<CatalogEntry>, k: int, base: Seq<u8>) -> bool {
    0 <= k < entries.len() && exists|t: int|
        0 <= t < entries[k].terms@.len() && (#[trigger] entries[k].terms@[t]).term@ == base
            + up_suffix()
}

/// Entry `k` carries a term named `base` + " down".
pub open spec fn down_match(entries: Seq<CatalogEntry>, k: int, base: Seq<u8>) -> bool {
    0 <= k < entries.len() && exists|t: int|
        0 <= t < entries[k].terms@.len() && (#[trigger] entries[k].terms@[t]).term@ == base
            + down_suffix()
}

/// `(ku, kd)` are the up and down halves of the signature named `base`.
pub open spec fn is_pair_for(
    entries: Seq<CatalogEntry>,
    ku: int,
    kd: int,
    base: Seq<u8>,
) -> bool {
    up_match(entries, ku, base) && down_match(entries, kd, base)
}

/// `(ku, kd)` are the halves of some signature.
pub open spec fn pair_ok(entries: Seq<CatalogEntry>, ku: int, kd: int) -> bool {
    exists|base: Seq<u8>| is_pair_for(entries, ku, kd, base)
}

/// Every stored pair is a genuine up/down match.
pub open spec fn pairs_sound(entries: Seq<CatalogEntry>, pairs: Seq<(usize, usize)>) -> bool {
    forall|t: int|
        0 <= t < pairs.len() ==> pair_ok(
            entries,
            (#[trigger] pairs[t]).0 as int,
            pairs[t].1 as int,
        )
}

/// Some entry carries `base` + " up".
pub open spec fn has_up(entries: Seq<CatalogEntry>, base: Seq<u8>) -> bool {
    exists|k: int| up_match(entries, k, base)
}

/// Some entry carries `base` + " down".
pub open spec fn has_down(entries: Seq<CatalogEntry>, base: Seq<u8>) -> bool {
    exists|k: int| down_match(entries, k, base)
}

/// The pair list carries a pair for the signature named `base`.
pub open spec fn base_paired(
    entries: Seq<CatalogEntry>,
    pairs: Seq<(usize, usize)>,
    base: Seq<u8>,
) -> bool {
    exists|t: int|
        0 <= t < pairs.len() && is_pair_for(
            entries,
            (#[trigger] pairs[t]).0 as int,
            pairs[t].1 as int,
            base,
        )
}

/// Every signature with both halves present gets a pair.
pub open spec fn pairs_complete(entries: Seq<CatalogEntry>, pairs: Seq<(usize, usize)>) -> bool {
    forall|base: Seq<u8>|
        #![trigger has_up(entries, base), has_down(entries, base)]
        has_up(entries, base) && has_down(entries, base) ==> base_paired(entries, pairs, base)
}

/// Some term strictly before position `(k, t)` (entry-major order) is
/// named `base` + " up".
pub open spec fn up_seen(entries: Seq<CatalogEntry>, k: int, t: int, base: Seq<u8>) -> bool {
    exists|k2: int, t2: int|
        0 <= k2 < entries.len() && 0 <= t2 < entries[k2].terms@.len() && (k2 < k || (k2 == k && t2
            < t)) && (#[trigger] entries[k2].terms@[t2]).term@ == base + up_suffix()
}

/// Some term strictly before position `(k, t)` is named `base` + " down".
pub open spec fn down_seen(entries: Seq<CatalogEntry>, k: int, t: int, base: Seq<u8>) -> bool {
    exists|k2: int, t2: int|
        0 <= k2 < entries.len() && 0 <= t2 < entries[k2].terms@.len() && (k2 < k || (k2 == k && t2
            < t)) && (#[trigger] entries[k2].terms@[t2]).term@ == base + down_suffix()
}


/// An `Option<usize>` index as a ghost integer.
pub open spec fn opt_int(o: Option<usize>) -> Option<int> {
    match o {
        Option::Some(v) => Option::Some(v as int),
        Option::None => Option::None,
    }
}

/// The first slot carrying this base name, or the list length.
pub open spec fn slot_find_at(
    s: Seq<(Seq<u8>, Option<int>, Option<int>)>,
    base: Seq<u8>,
) -> int
    decreases s.len(),
{
    if s.len() == 0 {
        0
    } else if s[0].0 == base {
        0
    } else {
        1 + slot_find_at(s.skip(1), base)
    }
}

proof fn lemma_slot_find_char(s: Seq<(Seq<u8>, Option<int>, Option<int>)>, base: Seq<u8>)
    ensures
        0 <= slot_find_at(s, base) <= s.len(),
        slot_find_at(s, base) < s.len() ==> s[slot_find_at(s, base)].0 == base,
        forall|m: int| 0 <= m < slot_find_at(s, base) ==> s[m].0 != base,
    decreases s.len(),
{
    if s.len() > 0 && s[0].0 != base {
        lemma_slot_find_char(s.skip(1), base);
        let f = slot_find_at(s, base);
        assert forall|m: int| 0 <= m < f implies s[m].0 != base by {
            if m > 0 {
                assert(s.skip(1)[m - 1] == s[m]);
            }
        }
        if f < s.len() {
            assert(s.skip(1)[f - 1] == s[f]);
        }
    }
}

/// The slot list after recording that entry `k` carries one direction
/// half of the signature named `base`: the base's slot takes `k` in that
/// direction (a later record overwrites an earlier one), a new slot
/// appearing at the end the first time the base occurs.
pub open spec fn slots_record(
    s: Seq<(Seq<u8>, Option<int>, Option<int>)>,
    base: Seq<u8>,
    k: int,
    record_up: bool,
) -> Seq<(Seq<u8>, Option<int>, Option<int>)> {
    let m = slot_find_at(s, base);
    if m < s.len() {
        if record_up {
            s.update(m, (base, Option::Some(k), s[m].2))
        } else {
            s.update(m, (base, s[m].1, Option::Some(k)))
        }
    } else {
        if record_up {
            s.push((base, Option::Some(k), Option::None))
        } else {
            s.push((base, Option::None, Option::Some(k)))
        }
    }
}

proof fn lemma_record_step(
    vold: Seq<(Seq<u8>, Option<int>, Option<int>)>,
    vnew: Seq<(Seq<u8>, Option<int>, Option<int>)>,
    base: Seq<u8>,
    k: int,
    record_up: bool,
    found: Option<int>,
)
    requires
        forall|m1: int, m2: int| 0 <= m1 < m2 < vold.len() ==> vold[m1].0 != vold[m2].0,
        match found {
            Option::Some(m) => 0 <= m < vold.len() && vold[m].0 == base && vnew == vold.update(
                m,
                if record_up {
                    (base, Option::Some(k), vold[m].2)
                } else {
                    (base, vold[m].1, Option::Some(k))
                },
            ),
            Option::None => (forall|m: int| 0 <= m < vold.len() ==> vold[m].0 != base) && vnew
                == vold.push(
                if record_up {
                    (base, Option::Some(k), Option::None)
                } else {
                    (base, Option::None, Option::Some(k))
                },
            ),
        },
    ensures
        vnew == slots_record(vold, base, k, record_up),
{
    lemma_slot_find_char(vold, base);
    let f = slot_find_at(vold, base);
    match found {
        Option::Some(m) => {
            if f != m {
                if f < vold.len() {
                    assert(vold[f].0 == base && vold[m].0 == base);
                    assert(false);
                } else {
                    assert(vold[m].0 != base);
                    assert(false);
                }
            }
        },
        Option::None => {
            if f < vold.len() {
                assert(vold[f].0 == base);
                assert(false);
            }
        },
    }
}

/// The slot list after every term strictly before position
/// `(ub_k, ub_t)` in entry-major order.
pub open spec fn slots_upto(entries: Seq<CatalogEntry>, ub_k: int, ub_t: int) -> Seq<
    (Seq<u8>, Option<int>, Option<int>),
>
    decreases ub_k, ub_t,
{
    if ub_k < 0 || ub_t < 0 {
        Seq::empty()
    } else if ub_t > 0 {
        let pre = slots_upto(entries, ub_k, ub_t - 1);
        if 0 <= ub_k < entries.len() && ub_t - 1 < entries[ub_k].terms@.len() {
            let term = entries[ub_k].terms@[ub_t - 1].term@;
            if crate::text::ends_with(term, up_suffix()) {
                slots_record(
                    pre,
                    term.subrange(0, term.len() - up_suffix().len()),
                    ub_k,
                    true,
                )
            } else if crate::text::ends_with(term, down_suffix()) {
                slots_record(
                    pre,
                    term.subrange(0, term.len() - down_suffix().len()),
                    ub_k,
                    false,
                )
            } else {
                pre
            }
        } else {
            pre
        }
    } else if ub_k > 0 {
        slots_upto(
            entries,
            ub_k - 1,
            if 0 <= ub_k - 1 < entries.len() {
                entries[ub_k - 1].terms@.len() as int
            } else {
                0
            },
        )
    } else {
        Seq::empty()
    }
}

/// The pairs the first `m` slots yield, in slot (first-seen base) order:
/// one pair for each slot holding both direction halves.
pub open spec fn pairs_of_slots(
    s: Seq<(Seq<u8>, Option<int>, Option<int>)>,
    m: int,
) -> Seq<(int, int)>
    decreases m,
{
    if m <= 0 {
        Seq::empty()
    } else {
        let pre = pairs_of_slots(s, m - 1);
        match (s[m - 1].1, s[m - 1].2) {
            (Option::Some(u), Option::Some(d)) => pre.push((u, d)),
            _ => pre,
        }
    }
}

/// The signature-pair list a catalog determines: exactly one pair per
/// base name whose " up" and " down" halves both occur, listed in
/// first-seen base order, each half linking the last entry in
/// entry-major order whose terms name it.
pub open spec fn pairs_model(entries: Seq<CatalogEntry>) -> Seq<(int, int)> {
    let fin = slots_upto(entries, entries.len() as int, 0);
    pairs_of_slots(fin, fin.len() as int)
}

/// The pair list equals the determined model, pair for pair.
pub open spec fn pairs_match_model(entries: Seq<CatalogEntry>, pairs: Seq<(usize, usize)>) -> bool {
    &&& pairs.len() == pairs_model(entries).len()
    &&& forall|t: int|
        0 <= t < pairs.len() ==> (#[trigger] pairs[t]).0 as int == pairs_model(entries)[t].0
            && pairs[t].1 as int == pairs_model(entries)[t].1
}

/// The ghost values of the working slot list.
spec fn slot_views(slots: Seq<PairSlot>) -> Seq<(Seq<u8>, Option<int>, Option<int>)> {
    Seq::new(slots.len(), |m: int| (slots[m].base@, opt_int(slots[m].up), opt_int(slots[m].down)))
}

/// One base name's slot while pairs are being collected.
struct PairSlot {
    base: Vec<u8>,
    up: Option<usize>,
    down: Option<usize>,
}

/// A slot records a genuine match for each direction it holds, and base
/// names are unique.
spec fn slots_wf(entries: Seq<CatalogEntry>, slots: Seq<PairSlot>) -> bool {
    &&& forall|m: int|
        0 <= m < slots.len() ==> match (#[trigger] slots[m]).up {
            Some(k) => up_match(entries, k as int, slots[m].base@),
            None => true,
        }
    &&& forall|m: int|
        0 <= m < slots.len() ==> match (#[trigger] slots[m]).down {
            Some(k) => down_match(entries, k as int, slots[m].base@),
            None => true,
        }
    &&& forall|m1: int, m2: int| 0 <= m1 < m2 < slots.len() ==> slots[m1].base@ != slots[m2].base@
}

/// A slot with this base name holds an up half.
spec fn slot_has_up(slots: Seq<PairSlot>, base: Seq<u8>) -> bool {
    exists|m: int| 0 <= m < slots.len() && (#[trigger] slots[m]).base@ == base && slots[m].up is Some
}

/// A slot with this base name holds a down half.
spec fn slot_has_down(slots: Seq<PairSlot>, base: Seq<u8>) -> bool {
    exists|m: int|
        0 <= m < slots.len() && (#[trigger] slots[m]).base@ == base && slots[m].down is Some
}

/// Appending the same suffix to two base names gives the same term only
/// for the same base name.
proof fn lemma_concat_cancel(a: Seq<u8>, b: Seq<u8>, s: Seq<u8>)
    requires
        a + s == b + s,
    ensures
        a == b,
{
    assert((a + s).len() == a.len() + s.len());
    assert((b + s).len() == b.len() + s.len());
    assert(a.len() == b.len());
    assert forall|i: int| 0 <= i < a.len() implies a[i] == b[i] by {
        assert((a + s)[i] == a[i]);
        assert((b + s)[i] == b[i]);
    }
    assert(a =~= b);
}

/// The position of the slot with this base name, if one exists.
fn find_slot(slots: &Vec<PairSlot>, base: &Vec<u8>) -> (r: Option<usize>)
    ensures
        match r {
            Some(m) => m < slots@.len() && slots@[m as int].base@ == base@,
            None => forall|m: int| 0 <= m < slots@.len() ==> (#[trigger] slots@[m]).base@ != base@,
        },
{
    let mut m: usize = 0;
    while m < slots.len()
        invariant
            m <= slots@.len(),
            forall|t: int| 0 <= t < m ==> (#[trigger] slots@[t]).base@ != base@,
        decreases slots@.len() - m,
    {
        if bytes_eq(&slots[m].base, base) {
            return Some(m);
        }
        m = m + 1;
    }
    None
}

/// Computes the signature pairs of a catalog: for each base name whose
/// " up" and " down" halves both occur among the term names, one index
/// pair into the entry list. When a direction of one base name occurs on
/// several entries, the last one in entry-major order wins.
pub fn compute_pairs(entries: &Vec<CatalogEntry>) -> (pairs: Vec<(usize, usize)>)
    ensures
        forall|t: int|
            0 <= t < pairs@.len() ==> (#[trigger] pairs@[t]).0 < entries@.len() && pairs@[t].1
                < entries@.len(),
        pairs_sound(entries@, pairs@),
        pairs_complete(entries@, pairs@),
        pairs_match_model(entries@, pairs@),
{
    let usuf: Vec<u8> = vec![32u8, 117u8, 112u8];
    let dsuf: Vec<u8> = vec![32u8, 100u8, 111u8, 119u8, 110u8];
    proof {
        assert(usuf@ =~= up_suffix());
        assert(dsuf@ =~= down_suffix());
    }
    let mut slots: Vec<PairSlot> = Vec::new();
    let mut k: usize = 0;
    while k < entries.len()
        invariant
            k <= entries@.len(),
            usuf@ == up_suffix(),
            dsuf@ == down_suffix(),
            slots_wf(entries@, slots@),
            slot_views(slots@) == slots_upto(entries@, k as int, 0),
            forall|base: Seq<u8>|
                up_seen(entries@, k as int, 0, base) ==> #[trigger] slot_has_up(slots@, base),
            forall|base: Seq<u8>|
                down_seen(entries@, k as int, 0, base) ==> #[trigger] slot_has_down(slots@, base),
        decreases entries@.len() - k,
    {
        let nterms = entries[k].terms.len();
        let mut t: usize = 0;
        while t < nterms
            invariant
                k < entries@.len(),
                nterms == entries@[k as int].terms@.len(),
                t <= nterms,
                usuf@ == up_suffix(),
                dsuf@ == down_suffix(),
                slots_wf(entries@, slots@),
                slot_views(slots@) == slots_upto(entries@, k as int, t as int),
                forall|base: Seq<u8>|
                    up_seen(entries@, k as int, t as int, base) ==> #[trigger] slot_has_up(
                        slots@,
                        base,
                    ),
                forall|base: Seq<u8>|
                    down_seen(entries@, k as int, t as int, base) ==> #[trigger] slot_has_down(
                        slots@,
                        base,
                    ),
            decreases nterms - t,
        {
            let ghost old_slots = slots@;
            let ghost term_val = entries@[k as int].terms@[t as int].term@;
            if let Some(base) = strip_suffix(&entries[k].terms[t].term, &usuf) {
                // this term names the up half of `base`
                let ghost base_val = base@;
                let pos = find_slot(&slots, &base);
                match pos {
                    Some(m) => {
                        let mut s = slots.remove(m);
                        s.up = Some(k);
                        slots.insert(m, s);
                        proof {
                            assert(slots@ =~= old_slots.update(m as int, slots@[m as int]));
                        }
                    },
                    None => {
                        slots.push(PairSlot { base, up: Some(k), down: None });
                    },
                }
                proof {
                    let ghost bm = match pos {
                        Some(m) => m as int,
                        None => slots@.len() - 1,
                    };
                    assert(slots@[bm].up == Some(k as usize));
                    assert(term_val == slots@[bm].base@ + up_suffix());
                    assert(up_match(entries@, k as int, slots@[bm].base@));
                    assert forall|b2: Seq<u8>| up_seen(
                        entries@,
                        k as int,
                        t + 1,
                        b2,
                    ) implies #[trigger] slot_has_up(slots@, b2) by {
                        let (k2, t2) = choose|k2: int, t2: int|
                            0 <= k2 < entries@.len() && 0 <= t2 < entries@[k2].terms@.len() && (k2
                                < k as int || (k2 == k as int && t2 < t + 1)) && (
                            #[trigger] entries@[k2].terms@[t2]).term@ == b2 + up_suffix();
                        if k2 == k as int && t2 == t as int {
                            lemma_concat_cancel(b2, slots@[bm].base@, up_suffix());
                            assert(slots@[bm].base@ == b2 && slots@[bm].up is Some);
                        } else {
                            assert(up_seen(entries@, k as int, t as int, b2));
                            assert(slot_has_up(old_slots, b2));
                            let m2 = choose|m2: int|
                                0 <= m2 < old_slots.len() && (#[trigger] old_slots[m2]).base@ == b2
                                    && old_slots[m2].up is Some;
                            assert(slots@[m2].base@ == b2 && slots@[m2].up is Some);
                        }
                    }
                    assert forall|b2: Seq<u8>| down_seen(
                        entries@,
                        k as int,
                        t + 1,
                        b2,
                    ) implies #[trigger] slot_has_down(slots@, b2) by {
                        let (k2, t2) = choose|k2: int, t2: int|
                            0 <= k2 < entries@.len() && 0 <= t2 < entries@[k2].terms@.len() && (k2
                                < k as int || (k2 == k as int && t2 < t + 1)) && (
                            #[trigger] entries@[k2].terms@[t2]).term@ == b2 + down_suffix();
                        if k2 == k as int && t2 == t as int {
                            // one term cannot end in both suffixes
                            assert(term_val[term_val.len() - 1] == 112u8);
                            assert((b2 + down_suffix())[(b2 + down_suffix()).len() - 1] == 110u8);
                            assert(false);
                        } else {
                            assert(down_seen(entries@, k as int, t as int, b2));
                            assert(slot_has_down(old_slots, b2));
                            let m2 = choose|m2: int|
                                0 <= m2 < old_slots.len() && (#[trigger] old_slots[m2]).base@ == b2
                                    && old_slots[m2].down is Some;
                            assert(slots@[m2].base@ == b2 && slots@[m2].down is Some);
                        }
                    }
                    // the ghost slot list takes the same recording step
                    let vold = slot_views(old_slots);
                    let vnew = slot_views(slots@);
                    assert forall|m1: int, m2: int| 0 <= m1 < m2 < vold.len() implies vold[m1].0
                        != vold[m2].0 by {
                        assert(old_slots[m1].base@ != old_slots[m2].base@);
                    }
                    match pos {
                        Some(m) => {
                            assert(slots@[m as int].base@ == old_slots[m as int].base@);
                            assert(slots@[m as int].down == old_slots[m as int].down);
                            assert forall|j: int| 0 <= j < vnew.len() implies vnew[j]
                                == vold.update(
                                m as int,
                                (base_val, Option::Some(k as int), vold[m as int].2),
                            )[j] by {
                                if j != m as int {
                                    assert(slots@[j] == old_slots[j]);
                                }
                            }
                            assert(vnew =~= vold.update(
                                m as int,
                                (base_val, Option::Some(k as int), vold[m as int].2),
                            ));
                            lemma_record_step(
                                vold,
                                vnew,
                                base_val,
                                k as int,
                                true,
                                Option::Some(m as int),
                            );
                        },
                        None => {
                            assert forall|j: int| 0 <= j < vnew.len() implies vnew[j]
                                == vold.push(
                                (base_val, Option::Some(k as int), Option::None),
                            )[j] by {
                                if j < vold.len() {
                                    assert(slots@[j] == old_slots[j]);
                                }
                            }
                            assert(vnew =~= vold.push(
                                (base_val, Option::Some(k as int), Option::None),
                            ));
                            assert forall|m2: int| 0 <= m2 < vold.len() implies vold[m2].0
                                != base_val by {
                                assert(old_slots[m2].base@ != base_val);
                            }
                            lemma_record_step(
                                vold,
                                vnew,
                                base_val,
                                k as int,
                                true,
                                Option::None,
                            );
                        },
                    }
                    assert(base_val == term_val.subrange(
                        0,
                        term_val.len() - up_suffix().len(),
                    ));
                    assert(slot_views(slots@) == slots_upto(entries@, k as int, t + 1));
                }
            } else if let Some(base) = strip_suffix(&entries[k].terms[t].term, &dsuf) {
                // this term names the down half of `base`
                let ghost base_val = base@;
                let pos = find_slot(&slots, &base);
                match pos {
                    Some(m) => {
                        let mut s = slots.remove(m);
                        s.down = Some(k);
                        slots.insert(m, s);
                        proof {
                            assert(slots@ =~= old_slots.update(m as int, slots@[m as int]));
                        }
                    },
                    None => {
                        slots.push(PairSlot { base, up: None, down: Some(k) });
                    },
                }
                proof {
                    let ghost bm = match pos {
                        Some(m) => m as int,
                        None => slots@.len() - 1,
                    };
                    assert(slots@[bm].down == Some(k as usize));
                    assert(term_val == slots@[bm].base@ + down_suffix());
                    assert(down_match(entries@, k as int, slots@[bm].base@));
                    assert forall|b2: Seq<u8>| down_seen(
                        entries@,
                        k as int,
                        t + 1,
                        b2,
                    ) implies #[trigger] slot_has_down(slots@, b2) by {
                        let (k2, t2) = choose|k2: int, t2: int|
                            0 <= k2 < entries@.len() && 0 <= t2 < entries@[k2].terms@.len() && (k2
                                < k as int || (k2 == k as int && t2 < t + 1)) && (
                            #[trigger] entries@[k2].terms@[t2]).term@ == b2 + down_suffix();
                        if k2 == k as int && t2 == t as int {
                            lemma_concat_cancel(b2, slots@[bm].base@, down_suffix());
                            assert(slots@[bm].base@ == b2 && slots@[bm].down is Some);
                        } else {
                            assert(down_seen(entries@, k as int, t as int, b2));
                            assert(slot_has_down(old_slots, b2));
                            let m2 = choose|m2: int|
                                0 <= m2 < old_slots.len() && (#[trigger] old_slots[m2]).base@ == b2
                                    && old_slots[m2].down is Some;
                            assert(slots@[m2].base@ == b2 && slots@[m2].down is Some);
                        }
                    }
                    assert forall|b2: Seq<u8>| up_seen(
                        entries@,
                        k as int,
                        t + 1,
                        b2,
                    ) implies #[trigger] slot_has_up(slots@, b2) by {
                        let (k2, t2) = choose|k2: int, t2: int|
                            0 <= k2 < entries@.len() && 0 <= t2 < entries@[k2].terms@.len() && (k2
                                < k as int || (k2 == k as int && t2 < t + 1)) && (
                            #[trigger] entries@[k2].terms@[t2]).term@ == b2 + up_suffix();
                        if k2 == k as int && t2 == t as int {
                            // the term ends in " down", not " up"
                            assert(crate::text::ends_with(term_val, up_suffix()));
                            assert(false);
                        } else {
                            assert(up_seen(entries@, k as int, t as int, b2));
                            assert(slot_has_up(old_slots, b2));
                            let m2 = choose|m2: int|
                                0 <= m2 < old_slots.len() && (#[trigger] old_slots[m2]).base@ == b2
                                    && old_slots[m2].up is Some;
                            assert(slots@[m2].base@ == b2 && slots@[m2].up is Some);
                        }
                    }
                    // the ghost slot list takes the same recording step
                    let vold = slot_views(old_slots);
                    let vnew = slot_views(slots@);
                    assert forall|m1: int, m2: int| 0 <= m1 < m2 < vold.len() implies vold[m1].0
                        != vold[m2].0 by {
                        assert(old_slots[m1].base@ != old_slots[m2].base@);
                    }
                    match pos {
                        Some(m) => {
                            assert(slots@[m as int].base@ == old_slots[m as int].base@);
                            assert(slots@[m as int].up == old_slots[m as int].up);
                            assert forall|j: int| 0 <= j < vnew.len() implies vnew[j]
                                == vold.update(
                                m as int,
                                (base_val, vold[m as int].1, Option::Some(k as int)),
                            )[j] by {
                                if j != m as int {
                                    assert(slots@[j] == old_slots[j]);
                                }
                            }
                            assert(vnew =~= vold.update(
                                m as int,
                                (base_val, vold[m as int].1, Option::Some(k as int)),
                            ));
                            lemma_record_step(
                                vold,
                                vnew,
                                base_val,
                                k as int,
                                false,
                                Option::Some(m as int),
                            );
                        },
                        None => {
                            assert forall|j: int| 0 <= j < vnew.len() implies vnew[j]
                                == vold.push(
                                (base_val, Option::None, Option::Some(k as int)),
                            )[j] by {
                                if j < vold.len() {
                                    assert(slots@[j] == old_slots[j]);
                                }
                            }
                            assert(vnew =~= vold.push(
                                (base_val, Option::None, Option::Some(k as int)),
                            ));
                            assert forall|m2: int| 0 <= m2 < vold.len() implies vold[m2].0
                                != base_val by {
                                assert(old_slots[m2].base@ != base_val);
                            }
                            lemma_record_step(
                                vold,
                                vnew,
                                base_val,
                                k as int,
                                false,
                                Option::None,
                            );
                        },
                    }
                    assert(base_val == term_val.subrange(
                        0,
                        term_val.len() - down_suffix().len(),
                    ));
                    assert(slot_views(slots@) == slots_upto(entries@, k as int, t + 1));
                }
            } else {
                proof {
                    assert(slot_views(slots@) == slots_upto(entries@, k as int, t + 1));
                    assert forall|b2: Seq<u8>| up_seen(
                        entries@,
                        k as int,
                        t + 1,
                        b2,
                    ) implies #[trigger] slot_has_up(slots@, b2) by {
                        let (k2, t2) = choose|k2: int, t2: int|
                            0 <= k2 < entries@.len() && 0 <= t2 < entries@[k2].terms@.len() && (k2
                                < k as int || (k2 == k as int && t2 < t + 1)) && (
                            #[trigger] entries@[k2].terms@[t2]).term@ == b2 + up_suffix();
                        if k2 == k as int && t2 == t as int {
                            assert(term_val.subrange(
                                term_val.len() - up_suffix().len(),
                                term_val.len() as int,
                            ) =~= up_suffix());
                            assert(crate::text::ends_with(term_val, up_suffix()));
                            assert(false);
                        } else {
                            assert(up_seen(entries@, k as int, t as int, b2));
                        }
                    }
                    assert forall|b2: Seq<u8>| down_seen(
                        entries@,
                        k as int,
                        t + 1,
                        b2,
                    ) implies #[trigger] slot_has_down(slots@, b2) by {
                        let (k2, t2) = choose|k2: int, t2: int|
                            0 <= k2 < entries@.len() && 0 <= t2 < entries@[k2].terms@.len() && (k2
                                < k as int || (k2 == k as int && t2 < t + 1)) && (
                            #[trigger] entries@[k2].terms@[t2]).term@ == b2 + down_suffix();
                        if k2 == k as int && t2 == t as int {
                            assert(term_val.subrange(
                                term_val.len() - down_suffix().len(),
                                term_val.len() as int,
                            ) =~= down_suffix());
                            assert(crate::text::ends_with(term_val, down_suffix()));
                            assert(false);
                        } else {
                            assert(down_seen(entries@, k as int, t as int, b2));
                        }
                    }
                }
            }
            t = t + 1;
        }
        proof {
            assert forall|base: Seq<u8>| up_seen(entries@, k + 1, 0, base) implies
                #[trigger] slot_has_up(slots@, base) by {
                let (k2, t2) = choose|k2: int, t2: int|
                    0 <= k2 < entries@.len() && 0 <= t2 < entries@[k2].terms@.len() && (k2 < k + 1
                        || (k2 == k + 1 && t2 < 0)) && (#[trigger] entries@[k2].terms@[t2]).term@
                        == base + up_suffix();
                assert(up_seen(entries@, k as int, nterms as int, base));
            }
            assert forall|base: Seq<u8>| down_seen(entries@, k + 1, 0, base) implies
                #[trigger] slot_has_down(slots@, base) by {
                let (k2, t2) = choose|k2: int, t2: int|
                    0 <= k2 < entries@.len() && 0 <= t2 < entries@[k2].terms@.len() && (k2 < k + 1
                        || (k2 == k + 1 && t2 < 0)) && (#[trigger] entries@[k2].terms@[t2]).term@
                        == base + down_suffix();
                assert(down_seen(entries@, k as int, nterms as int, base));
            }
            assert(slots_upto(entries@, k + 1, 0) == slots_upto(
                entries@,
                k as int,
                nterms as int,
            ));
        }
        k = k + 1;
    }
    // extract the base names with both halves
    let ghost fin = slot_views(slots@);
    proof {
        assert(fin == slots_upto(entries@, entries@.len() as int, 0));
    }
    let mut pairs: Vec<(usize, usize)> = Vec::new();
    let mut m: usize = 0;
    while m < slots.len()
        invariant
            m <= slots@.len(),
            slots_wf(entries@, slots@),
            fin == slot_views(slots@),
            fin == slots_upto(entries@, entries@.len() as int, 0),
            pairs@.len() == pairs_of_slots(fin, m as int).len(),
            forall|t: int|
                0 <= t < pairs@.len() ==> (#[trigger] pairs@[t]).0 as int == pairs_of_slots(
                    fin,
                    m as int,
                )[t].0 && pairs@[t].1 as int == pairs_of_slots(fin, m as int)[t].1,
            forall|t: int|
                0 <= t < pairs@.len() ==> (#[trigger] pairs@[t]).0 < entries@.len() && pairs@[t].1
                    < entries@.len(),
            pairs_sound(entries@, pairs@),
            forall|m2: int|
                #![trigger slots@[m2]]
                0 <= m2 < m && slots@[m2].up is Some && slots@[m2].down is Some ==> exists|t: int|
                    0 <= t < pairs@.len() && is_pair_for(
                        entries@,
                        (#[trigger] pairs@[t]).0 as int,
                        pairs@[t].1 as int,
                        slots@[m2].base@,
                    ),
        decreases slots@.len() - m,
    {
        let up = slots[m].up;
        let down = slots[m].down;
        let ghost old_pairs = pairs@;
        proof {
            assert(fin[m as int] == (slots@[m as int].base@, opt_int(up), opt_int(down)));
        }
        if let Some(u) = up {
            if let Some(d) = down {
                pairs.push((u, d));
                proof {
                    assert(pairs_of_slots(fin, m + 1) == pairs_of_slots(fin, m as int).push(
                        (u as int, d as int),
                    ));
                    assert(is_pair_for(entries@, u as int, d as int, slots@[m as int].base@));
                    assert(pair_ok(entries@, u as int, d as int));
                    assert forall|t: int| 0 <= t < pairs@.len() implies pair_ok(
                        entries@,
                        (#[trigger] pairs@[t]).0 as int,
                        pairs@[t].1 as int,
                    ) by {
                        if t < old_pairs.len() {
                            assert(pairs@[t] == old_pairs[t]);
                        }
                    }
                    assert forall|m2: int|
                        #![trigger slots@[m2]]
                        0 <= m2 < m + 1 && slots@[m2].up is Some && slots@[m2].down
                        is Some implies exists|t: int|
                        0 <= t < pairs@.len() && is_pair_for(
                            entries@,
                            (#[trigger] pairs@[t]).0 as int,
                            pairs@[t].1 as int,
                            slots@[m2].base@,
                        ) by {
                        if m2 < m {
                            let t = choose|t: int|
                                0 <= t < old_pairs.len() && is_pair_for(
                                    entries@,
                                    (#[trigger] old_pairs[t]).0 as int,
                                    old_pairs[t].1 as int,
                                    slots@[m2].base@,
                                );
                            assert(pairs@[t] == old_pairs[t]);
                        } else {
                            let t = pairs@.len() - 1;
                            assert(is_pair_for(
                                entries@,
                                (#[trigger] pairs@[t]).0 as int,
                                pairs@[t].1 as int,
                                slots@[m2].base@,
                            ));
                        }
                    }
                }
            }
        }
        proof {
            if !(up is Some && down is Some) {
                assert(pairs_of_slots(fin, m + 1) == pairs_of_slots(fin, m as int));
            }
        }
        m = m + 1;
    }
    proof {
        assert(pairs_match_model(entries@, pairs@));
        assert forall|base: Seq<u8>|
            #![trigger has_up(entries@, base), has_down(entries@, base)]
            has_up(entries@, base) && has_down(entries@, base) implies base_paired(
            entries@,
            pairs@,
            base,
        ) by {
            let ku = choose|ku: int| up_match(entries@, ku, base);
            let tu = choose|tu: int|
                0 <= tu < entries@[ku].terms@.len() && (#[trigger] entries@[ku].terms@[tu]).term@
                    == base + up_suffix();
            assert(up_seen(entries@, entries@.len() as int, 0, base));
            assert(slot_has_up(slots@, base));
            let kd = choose|kd: int| down_match(entries@, kd, base);
            let td = choose|td: int|
                0 <= td < entries@[kd].terms@.len() && (#[trigger] entries@[kd].terms@[td]).term@
                    == base + down_suffix();
            assert(down_seen(entries@, entries@.len() as int, 0, base));
            assert(slot_has_down(slots@, base));
            let m1 = choose|m1: int|
                0 <= m1 < slots@.len() && (#[trigger] slots@[m1]).base@ == base && slots@[m1].up
                is Some;
            let m2 = choose|m2: int|
                0 <= m2 < slots@.len() && (#[trigger] slots@[m2]).base@ == base && slots@[m2].down
                is Some;
            if m1 != m2 {
                assert(slots@[m1].base@ != slots@[m2].base@);
                assert(false);
            }
            assert(slots@[m1].up is Some && slots@[m1].down is Some);
        }
    }
    pairs
}

} // verus!
