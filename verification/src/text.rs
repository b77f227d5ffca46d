//! Byte-string helpers for term names and text filters: ASCII lowercasing,
//! substring search, suffix stripping, occurrence removal, and whitespace
//! trimming, each with an exact specification.

use vstd::prelude::*;

verus! {

/// ASCII space, tab, line feed or carriage return.
pub open spec fn is_space(b: u8) -> bool {
    b == 32 || b == 9 || b == 10 || b == 13
}

/// ASCII lowercasing of one byte.
pub open spec fn lower_byte(b: u8) -> u8 {
    if 65 <= b <= 90 {
        (b + 32) as u8
    } else {
        b
    }
}

/// ASCII lowercasing of a byte string.
pub open spec fn lower_bytes(s: Seq<u8>) -> Seq<u8> {
    Seq::new(s.len(), |i: int| lower_byte(s[i]))
}

/// `pat` occurs in `s` starting at position `i`.
pub open spec fn matches_at(s: Seq<u8>, pat: Seq<u8>, i: int) -> bool {
    0 <= i && i + pat.len() <= s.len() && s.subrange(i, i + pat.len()) == pat
}

/// `pat` occurs somewhere in `s`.
pub open spec fn contains_bytes(s: Seq<u8>, pat: Seq<u8>) -> bool {
    exists|i: int| matches_at(s, pat, i)
}

/// `s` ends with `suf`.
pub open spec fn ends_with(s: Seq<u8>, suf: Seq<u8>) -> bool {
    s.len() >= suf.len() && s.subrange(s.len() - suf.len(), s.len() as int) == suf
}

/// `s` with every (non-overlapping, leftmost-first) occurrence of `pat`
/// removed, scanning from position `i`.
pub open spec fn removed_from(s: Seq<u8>, pat: Seq<u8>, i: int) -> Seq<u8>
    recommends
        pat.len() >= 1,
    decreases s.len() - i,
{
    if i < 0 || i >= s.len() || pat.len() < 1 {
        Seq::empty()
    } else if i + pat.len() <= s.len() && s.subrange(i, i + pat.len()) == pat {
        removed_from(s, pat, i + pat.len())
    } else {
        seq![s[i]] + removed_from(s, pat, i + 1)
    }
}

/// `s` with every occurrence of `pat` removed.
pub open spec fn removed(s: Seq<u8>, pat: Seq<u8>) -> Seq<u8> {
    removed_from(s, pat, 0)
}

/// `s` without leading spaces.
pub open spec fn trim_front(s: Seq<u8>) -> Seq<u8>
    decreases s.len(),
{
    if s.len() > 0 && is_space(s[0]) {
        trim_front(s.skip(1))
    } else {
        s
    }
}

/// `s` without trailing spaces.
pub open spec fn trim_back(s: Seq<u8>) -> Seq<u8>
    decreases s.len(),
{
    if s.len() > 0 && is_space(s.last()) {
        trim_back(s.drop_last())
    } else {
        s
    }
}

/// `s` without leading and trailing spaces.
pub open spec fn trimmed(s: Seq<u8>) -> Seq<u8> {
    trim_back(trim_front(s))
}

/// Value equality of two byte strings.
pub fn bytes_eq(a: &Vec<u8>, b: &Vec<u8>) -> (r: bool)
    ensures
        r == (a@ == b@),
{
    if a.len() != b.len() {
        return false;
    }
    let mut i: usize = 0;
    while i < a.len()
        invariant
            i <= a@.len(),
            a@.len() == b@.len(),
            forall|t: int| 0 <= t < i ==> a@[t] == b@[t],
        decreases a@.len() - i,
    {
        if a[i] != b[i] {
            return false;
        }
        i = i + 1;
    }
    proof {
        assert(a@ =~= b@);
    }
    true
}

/// ASCII lowercasing.
pub fn to_lower(s: &Vec<u8>) -> (r: Vec<u8>)
    ensures
        r@ == lower_bytes(s@),
{
    let mut out: Vec<u8> = Vec::new();
    let mut i: usize = 0;
    while i < s.len()
        invariant
            i <= s@.len(),
            out@.len() == i,
            forall|t: int| 0 <= t < i ==> out@[t] == lower_byte(s@[t]),
        decreases s@.len() - i,
    {
        let b = s[i];
        if 65 <= b && b <= 90 {
            out.push(b + 32);
        } else {
            out.push(b);
        }
        i = i + 1;
    }
    proof {
        assert(out@ =~= lower_bytes(s@));
    }
    out
}

/// Substring search.
pub fn contains_sub(s: &Vec<u8>, pat: &Vec<u8>) -> (r: bool)
    ensures
        r == contains_bytes(s@, pat@),
{
    if pat.len() == 0 {
        proof {
            assert(s@.subrange(0, 0) =~= pat@);
            assert(matches_at(s@, pat@, 0));
        }
        return true;
    }
    if pat.len() > s.len() {
        return false;
    }
    let last_start = s.len() - pat.len();
    let mut i: usize = 0;
    while i <= last_start
        invariant
            s@.len() <= usize::MAX,
            1 <= pat@.len() <= s@.len(),
            last_start == s@.len() - pat@.len(),
            0 <= i <= last_start + 1,
            forall|t: int| 0 <= t < i ==> !matches_at(s@, pat@, t),
        decreases last_start + 1 - i,
    {
        let mut j: usize = 0;
        let mut hit = true;
        while j < pat.len()
            invariant
                s@.len() <= usize::MAX,
                0 <= i <= last_start,
                last_start == s@.len() - pat@.len(),
                pat@.len() <= s@.len(),
                j <= pat@.len(),
                hit ==> forall|t: int| 0 <= t < j ==> s@[i + t] == pat@[t],
                !hit ==> !matches_at(s@, pat@, i as int),
            decreases pat@.len() - j,
        {
            if s[i + j] != pat[j] {
                proof {
                    if matches_at(s@, pat@, i as int) {
                        assert(s@.subrange(i as int, i + pat@.len())[j as int] == pat@[j as int]);
                    }
                }
                hit = false;
                j = pat.len();
            } else {
                j = j + 1;
            }
        }
        if hit {
            proof {
                assert(s@.subrange(i as int, i + pat@.len()) =~= pat@);
                assert(matches_at(s@, pat@, i as int));
            }
            return true;
        }
        i = i + 1;
    }
    proof {
        assert forall|t: int| !matches_at(s@, pat@, t) by {
            if 0 <= t && t + pat@.len() <= s@.len() {
                assert(t < i);
            }
        }
    }
    false
}

/// The base name of `s` when it ends with `suf`: strips the suffix.
pub fn strip_suffix(s: &Vec<u8>, suf: &Vec<u8>) -> (r: Option<Vec<u8>>)
    ensures
        match r {
            Some(base) => ends_with(s@, suf@) && base@ == s@.subrange(
                0,
                s@.len() - suf@.len(),
            ) && s@ == base@ + suf@,
            None => !ends_with(s@, suf@),
        },
{
    if suf.len() > s.len() {
        return None;
    }
    let start = s.len() - suf.len();
    let mut j: usize = 0;
    while j < suf.len()
        invariant
            s@.len() <= usize::MAX,
            start == s@.len() - suf@.len(),
            suf@.len() <= s@.len(),
            j <= suf@.len(),
            forall|t: int| 0 <= t < j ==> s@[start + t] == suf@[t],
        decreases suf@.len() - j,
    {
        if s[start + j] != suf[j] {
            proof {
                if ends_with(s@, suf@) {
                    assert(s@.subrange(s@.len() - suf@.len(), s@.len() as int)[j as int]
                        == suf@[j as int]);
                }
            }
            return None;
        }
        j = j + 1;
    }
    let mut base: Vec<u8> = Vec::new();
    let mut i: usize = 0;
    while i < start
        invariant
            s@.len() <= usize::MAX,
            start <= s@.len(),
            base@.len() == i,
            i <= start,
            forall|t: int| 0 <= t < i ==> base@[t] == s@[t],
        decreases start - i,
    {
        base.push(s[i]);
        i = i + 1;
    }
    proof {
        assert(s@.subrange(s@.len() - suf@.len(), s@.len() as int) =~= suf@);
        assert(base@ =~= s@.subrange(0, s@.len() - suf@.len()));
        assert(s@ =~= base@ + suf@);
    }
    Some(base)
}

/// Removes every (non-overlapping, leftmost-first) occurrence of `pat`.
pub fn remove_all(s: &Vec<u8>, pat: &Vec<u8>) -> (r: Vec<u8>)
    requires
        pat@.len() >= 1,
    ensures
        r@ == removed(s@, pat@),
{
    let slen = s.len();
    let mut out: Vec<u8> = Vec::new();
    let mut i: usize = 0;
    while i < slen
        invariant
            slen == s@.len() <= usize::MAX,
            pat@.len() >= 1,
            0 <= i <= s@.len(),
            out@ + removed_from(s@, pat@, i as int) == removed(s@, pat@),
        decreases s@.len() - i,
    {
        let mut hit = false;
        if pat.len() <= s.len() - i {
            let mut j: usize = 0;
            hit = true;
            while j < pat.len()
                invariant
                    s@.len() <= usize::MAX,
                    0 <= i,
                    i + pat@.len() <= s@.len(),
                    j <= pat@.len(),
                    hit ==> forall|t: int| 0 <= t < j ==> s@[i + t] == pat@[t],
                    !hit ==> s@.subrange(i as int, i + pat@.len()) != pat@,
                decreases pat@.len() - j,
            {
                if s[i + j] != pat[j] {
                    proof {
                        if s@.subrange(i as int, i + pat@.len()) == pat@ {
                            assert(s@.subrange(i as int, i + pat@.len())[j as int]
                                == pat@[j as int]);
                        }
                    }
                    hit = false;
                    j = pat.len();
                } else {
                    j = j + 1;
                }
            }
        }
        if hit {
            proof {
                assert(s@.subrange(i as int, i + pat@.len()) =~= pat@);
            }
            i = i + pat.len();
        } else {
            let ghost before = out@;
            out.push(s[i]);
            proof {
                assert(out@ =~= before + seq![s@[i as int]]);
                assert(before + (seq![s@[i as int]] + removed_from(s@, pat@, i + 1)) =~= (before
                    + seq![s@[i as int]]) + removed_from(s@, pat@, i + 1));
            }
            i = i + 1;
        }
    }
    out
}

/// Whether one byte is ASCII whitespace.
pub fn is_space_byte(b: u8) -> (r: bool)
    ensures
        r == is_space(b),
{
    b == 32 || b == 9 || b == 10 || b == 13
}

/// Removes leading and trailing ASCII whitespace.
pub fn trim(s: &Vec<u8>) -> (r: Vec<u8>)
    ensures
        r@ == trimmed(s@),
{
    let mut i0: usize = 0;
    proof {
        assert(s@.skip(0) =~= s@);
    }
    while i0 < s.len() && is_space_byte(s[i0])
        invariant
            0 <= i0 <= s@.len(),
            trim_front(s@.skip(i0 as int)) == trim_front(s@),
        decreases s@.len() - i0,
    {
        proof {
            assert(s@.skip(i0 as int)[0] == s@[i0 as int]);
            assert(s@.skip(i0 as int).skip(1) =~= s@.skip(i0 + 1));
        }
        i0 = i0 + 1;
    }
    proof {
        if i0 < s@.len() {
            assert(s@.skip(i0 as int)[0] == s@[i0 as int]);
        }
        assert(trim_front(s@) == s@.skip(i0 as int));
    }
    let ghost t = s@.skip(i0 as int);
    let mut j1: usize = s.len() - i0;
    proof {
        assert(t.len() == s@.len() - i0);
        assert(t.take(j1 as int) =~= t);
    }
    while j1 > 0 && is_space_byte(s[i0 + j1 - 1])
        invariant
            s@.len() <= usize::MAX,
            0 <= j1 <= t.len(),
            t == s@.skip(i0 as int),
            i0 + t.len() == s@.len(),
            trim_back(t.take(j1 as int)) == trim_back(t),
        decreases j1,
    {
        proof {
            assert(t.take(j1 as int).last() == s@[i0 + j1 - 1]);
            assert(t.take(j1 as int).drop_last() =~= t.take(j1 - 1));
        }
        j1 = j1 - 1;
    }
    proof {
        if j1 > 0 {
            assert(t.take(j1 as int).last() == s@[i0 + j1 - 1]);
        }
        assert(trim_back(t.take(j1 as int)) == t.take(j1 as int));
        assert(t.take(t.len() as int) =~= t);
    }
    let mut out: Vec<u8> = Vec::new();
    let mut k: usize = 0;
    while k < j1
        invariant
            s@.len() <= usize::MAX,
            i0 + j1 <= s@.len(),
            out@.len() == k,
            k <= j1,
            forall|u: int| 0 <= u < k ==> out@[u] == s@[i0 + u],
        decreases j1 - k,
    {
        out.push(s[i0 + k]);
        k = k + 1;
    }
    proof {
        assert(out@ =~= t.take(j1 as int));
    }
    out
}

} // verus!
