//! The result cache: a time-bounded map from (background, normalized
//! query bitvector) to previously computed, ranked result lists. Two
//! structurally identical inputs hit the same entry regardless of the
//! submission order of the gene list, because the key is the dense
//! occupancy itself.

use vstd::prelude::*;
use crate::bits::DenseBitVec;
use crate::catalog::BackgroundIndex;
use crate::pipeline::ScoredEntry;
use crate::pairedq::PairScored;

verus! {

/// The list is a genuinely computed, ranked single-set score list for
/// the occupancy `key` under the given index and thresholds: exact
/// fields with pinned adjustment, survival of every threshold, ascending
/// raw p-value, and pairwise-distinct catalog positions.
pub open spec fn scores_pinned(
    ix: BackgroundIndex,
    input: DenseBitVec,
    overlap_ge: int,
    ple: (nat, nat),
    aple: (nat, nat),
    key: Seq<bool>,
    s: Seq<ScoredEntry>,
) -> bool {
    &&& input.wf()
    &&& input.v@ == key
    &&& forall|i: int|
        0 <= i < s.len() ==> crate::pipeline::result_entry_ok(
            ix,
            input,
            overlap_ge,
            ple,
            aple,
            #[trigger] s[i],
        )
    &&& forall|i1: int, i2: int|
        0 <= i1 < i2 < s.len() ==> crate::ratio::rle_t(s[i1].pvalue.pair(), s[i2].pvalue.pair())
    &&& forall|i1: int, i2: int| 0 <= i1 < i2 < s.len() ==> s[i1].index != s[i2].index
}

/// The stored list came from a computation for its own fingerprint.
pub open spec fn stored_scores_ok(e: CacheEntry) -> bool {
    exists|
        ix: BackgroundIndex,
        input: DenseBitVec,
        overlap_ge: int,
        ple: (nat, nat),
        aple: (nat, nat),
    |
        #[trigger] scores_pinned(ix, input, overlap_ge, ple, aple, e.key@, e.results@)
}

/// The list is a genuinely computed, ranked paired score list for the
/// occupancy pair `(ku, kd)` under the given index and thresholds.
pub open spec fn pair_scores_pinned(
    ix: BackgroundIndex,
    up: DenseBitVec,
    down: DenseBitVec,
    overlap_ge: int,
    ple: (nat, nat),
    aple: (nat, nat),
    ku: Seq<bool>,
    kd: Seq<bool>,
    s: Seq<PairScored>,
) -> bool {
    &&& up.wf() && down.wf()
    &&& up.v@ == ku
    &&& down.v@ == kd
    &&& forall|i: int|
        0 <= i < s.len() ==> crate::pairedq::result_pair_ok(
            ix,
            up,
            down,
            overlap_ge,
            ple,
            aple,
            #[trigger] s[i],
        )
    &&& forall|i1: int, i2: int|
        0 <= i1 < i2 < s.len() ==> crate::ratio::rle_t(
            s[i1].pvalue_mimic.pair(),
            s[i2].pvalue_mimic.pair(),
        )
    &&& forall|i1: int, i2: int| 0 <= i1 < i2 < s.len() ==> s[i1].index != s[i2].index
}

/// The stored paired list came from a computation for its own
/// fingerprint.
pub open spec fn stored_pair_scores_ok(e: PairCacheEntry) -> bool {
    exists|
        ix: BackgroundIndex,
        up: DenseBitVec,
        down: DenseBitVec,
        overlap_ge: int,
        ple: (nat, nat),
        aple: (nat, nat),
    |
        #[trigger] pair_scores_pinned(
            ix,
            up,
            down,
            overlap_ge,
            ple,
            aple,
            e.key_up@,
            e.key_down@,
            e.results@,
        )
}

/// Entries under every other fingerprint survive an insertion, and the
/// time-to-live is kept.
pub open spec fn cache_kept_others(c1: ResultCache, c2: ResultCache, bg: u128, key: Seq<bool>) -> bool {
    &&& c2.ttl == c1.ttl
    &&& forall|bg2: u128, key2: Seq<bool>|
        !(bg2 == bg && key2 == key) ==> #[trigger] c2.has_key(bg2, key2) == c1.has_key(bg2, key2)
            && (c1.has_key(bg2, key2) ==> c2.entries@[c2.pos_of(bg2, key2)] == c1.entries@[c1.pos_of(
            bg2,
            key2,
        )])
}

/// Entries under every other fingerprint pair survive an insertion, and
/// the time-to-live is kept.
pub open spec fn pair_cache_kept_others(
    c1: PairCache,
    c2: PairCache,
    bg: u128,
    ku: Seq<bool>,
    kd: Seq<bool>,
) -> bool {
    &&& c2.ttl == c1.ttl
    &&& forall|bg2: u128, ku2: Seq<bool>, kd2: Seq<bool>|
        !(bg2 == bg && ku2 == ku && kd2 == kd) ==> #[trigger] c2.has_key(bg2, ku2, kd2)
            == c1.has_key(bg2, ku2, kd2) && (c1.has_key(bg2, ku2, kd2) ==> c2.entries@[c2.pos_of(
            bg2,
            ku2,
            kd2,
        )] == c1.entries@[c1.pos_of(bg2, ku2, kd2)])
}

/// One cached single-set result list.
pub struct CacheEntry {
    pub bg: u128,
    pub key: Vec<bool>,
    pub results: Vec<ScoredEntry>,
    pub stamp: u64,
}

/// One cached paired result list, keyed by both direction bitvectors.
pub struct PairCacheEntry {
    pub bg: u128,
    pub key_up: Vec<bool>,
    pub key_down: Vec<bool>,
    pub results: Vec<PairScored>,
    pub stamp: u64,
}

/// The single-set result cache with its fixed time-to-live.
pub struct ResultCache {
    pub entries: Vec<CacheEntry>,
    pub ttl: u64,
}

/// The paired result cache with its fixed time-to-live.
pub struct PairCache {
    pub entries: Vec<PairCacheEntry>,
    pub ttl: u64,
}

/// The cached entry is fresh at time `now`.
pub open spec fn fresh(stamp: u64, now: u64, ttl: u64) -> bool {
    stamp <= now <= stamp + ttl
}

impl ResultCache {
    /// Keys are unique, and every stored list came from a computation
    /// for its own fingerprint.
    pub open spec fn wf(self) -> bool {
        &&& forall|j1: int, j2: int|
            0 <= j1 < j2 < self.entries@.len() ==> !(self.entries@[j1].bg == self.entries@[j2].bg
                && self.entries@[j1].key@ == self.entries@[j2].key@)
        &&& forall|j: int|
            0 <= j < self.entries@.len() ==> stored_scores_ok(#[trigger] self.entries@[j])
    }

    /// The position of the entry with this key.
    pub open spec fn pos_of(self, bg: u128, key: Seq<bool>) -> int {
        choose|j: int|
            0 <= j < self.entries@.len() && self.entries@[j].bg == bg && self.entries@[j].key@
                == key
    }

    /// A (fresh or stale) entry with this key exists.
    pub open spec fn has_key(self, bg: u128, key: Seq<bool>) -> bool {
        exists|j: int|
            0 <= j < self.entries@.len() && (#[trigger] self.entries@[j]).bg == bg
                && self.entries@[j].key@ == key
    }

    /// An empty cache with the given time-to-live.
    pub fn new(ttl: u64) -> (r: ResultCache)
        ensures
            r.wf(),
            r.ttl == ttl,
            forall|bg: u128, key: Seq<bool>| !r.has_key(bg, key),
    {
        ResultCache { entries: Vec::new(), ttl }
    }

    fn find(&self, bg: u128, key: &Vec<bool>) -> (r: Option<usize>)
        requires
            self.wf(),
        ensures
            match r {
                Some(j) => j < self.entries@.len() && self.entries@[j as int].bg == bg
                    && self.entries@[j as int].key@ == key@ && self.pos_of(bg, key@) == j as int,
                None => !self.has_key(bg, key@),
            },
    {
        let mut j: usize = 0;
        while j < self.entries.len()
            invariant
                j <= self.entries@.len(),
                self.wf(),
                forall|t: int|
                    0 <= t < j ==> !((#[trigger] self.entries@[t]).bg == bg
                        && self.entries@[t].key@ == key@),
            decreases self.entries@.len() - j,
        {
            if self.entries[j].bg == bg {
                if crate::bits::bools_eq(&self.entries[j].key, key) {
                    proof {
                        let p = self.pos_of(bg, key@);
                        if p != j as int {
                            assert(!(self.entries@[p].bg == bg && self.entries@[p].key@ == key@)
                                || !(self.entries@[j as int].bg == bg
                                && self.entries@[j as int].key@ == key@));
                        }
                    }
                    return Some(j);
                }
            }
            j = j + 1;
        }
        None
    }

    /// A non-blocking read: the cached list, when a fresh entry with this
    /// exact key exists.
    pub fn get(&self, bg: u128, key: &Vec<bool>, now: u64) -> (r: Option<&Vec<ScoredEntry>>)
        requires
            self.wf(),
        ensures
            match r {
                Some(v) => self.has_key(bg, key@) && v@ == self.entries@[self.pos_of(
                    bg,
                    key@,
                )].results@ && fresh(self.entries@[self.pos_of(bg, key@)].stamp, now, self.ttl),
                None => !self.has_key(bg, key@) || !fresh(
                    self.entries@[self.pos_of(bg, key@)].stamp,
                    now,
                    self.ttl,
                ),
            },
    {
        let found = self.find(bg, key);
        match found {
            Some(j) => {
                let stamp = self.entries[j].stamp;
                if stamp <= now && now - stamp <= self.ttl {
                    Some(&self.entries[j].results)
                } else {
                    None
                }
            },
            None => None,
        }
    }

    /// Caches a result list under its query fingerprint, replacing any
    /// earlier list with the same fingerprint.
    pub fn insert(&mut self, bg: u128, key: Vec<bool>, results: Vec<ScoredEntry>, now: u64)
        requires
            old(self).wf(),
            exists|
                ix: BackgroundIndex,
                input: DenseBitVec,
                overlap_ge: int,
                ple: (nat, nat),
                aple: (nat, nat),
            |
                #[trigger] scores_pinned(ix, input, overlap_ge, ple, aple, key@, results@),
        ensures
            final (self).wf(),
            final (self).ttl == old(self).ttl,
            final (self).has_key(bg, key@),
            final (self).entries@[final (self).pos_of(bg, key@)].results@ == results@,
            final (self).entries@[final (self).pos_of(bg, key@)].stamp == now,
            cache_kept_others(*old(self), *final (self), bg, key@),
    {
        let found = self.find(bg, &key);
        let ghost pre = *self;
        match found {
            Some(j) => {
                self.entries.remove(j);
                proof {
                    pre.entries@.remove_ensures(j as int);
                    assert forall|j1: int, j2: int|
                        0 <= j1 < j2 < self.entries@.len() implies !(self.entries@[j1].bg
                        == self.entries@[j2].bg && self.entries@[j1].key@
                        == self.entries@[j2].key@) by {
                        let m1 = if j1 < j {
                            j1
                        } else {
                            j1 + 1
                        };
                        let m2 = if j2 < j {
                            j2
                        } else {
                            j2 + 1
                        };
                        assert(self.entries@[j1] == pre.entries@[m1]);
                        assert(self.entries@[j2] == pre.entries@[m2]);
                    }
                    assert forall|t: int|
                        0 <= t < self.entries@.len() implies !((#[trigger] self.entries@[t]).bg
                        == bg && self.entries@[t].key@ == key@) by {
                        let m = if t < j {
                            t
                        } else {
                            t + 1
                        };
                        assert(self.entries@[t] == pre.entries@[m]);
                        if m != j as int && pre.entries@[m].bg == bg && pre.entries@[m].key@
                            == key@ {
                            assert(pre.entries@[j as int].bg == bg && pre.entries@[j as int].key@
                                == key@);
                            assert(false);
                        }
                    }
                    assert forall|t: int|
                        0 <= t < self.entries@.len() implies stored_scores_ok(
                        #[trigger] self.entries@[t],
                    ) by {
                        let m = if t < j {
                            t
                        } else {
                            t + 1
                        };
                        assert(self.entries@[t] == pre.entries@[m]);
                        assert(stored_scores_ok(pre.entries@[m]));
                    }
                }
            },
            None => {},
        }
        let ghost mid = *self;
        proof {
            assert(!mid.has_key(bg, key@));
        }
        self.entries.push(CacheEntry { bg, key, results, stamp: now });
        proof {
            let last = self.entries@.len() - 1;
            assert(self.entries@[last].bg == bg && self.entries@[last].key@ == key@);
            assert forall|j1: int, j2: int|
                0 <= j1 < j2 < self.entries@.len() implies !(self.entries@[j1].bg
                == self.entries@[j2].bg && self.entries@[j1].key@ == self.entries@[j2].key@) by {
                if j2 == last {
                    assert(self.entries@[j1] == mid.entries@[j1]);
                    if self.entries@[j1].bg == bg && self.entries@[j1].key@ == key@ {
                        assert(mid.has_key(bg, key@));
                    }
                } else {
                    assert(self.entries@[j1] == mid.entries@[j1]);
                    assert(self.entries@[j2] == mid.entries@[j2]);
                }
            }
            let p = self.pos_of(bg, key@);
            if p != last {
                assert(self.entries@[p].bg == bg && self.entries@[p].key@ == key@);
                assert(false);
            }
            // the new entry, like every kept one, carries a computed list
            assert forall|t: int| 0 <= t < self.entries@.len() implies stored_scores_ok(
                #[trigger] self.entries@[t],
            ) by {
                if t < mid.entries@.len() {
                    assert(self.entries@[t] == mid.entries@[t]);
                    assert(stored_scores_ok(mid.entries@[t]));
                } else {
                    let (ix, input, ov, ple, aple) = choose|
                        ix: BackgroundIndex,
                        input: DenseBitVec,
                        ov: int,
                        ple: (nat, nat),
                        aple: (nat, nat),
                    | #[trigger] scores_pinned(ix, input, ov, ple, aple, key@, results@);
                    assert(scores_pinned(
                        ix,
                        input,
                        ov,
                        ple,
                        aple,
                        self.entries@[t].key@,
                        self.entries@[t].results@,
                    ));
                }
            }
            // every other fingerprint's entry survives unchanged
            assert forall|bg2: u128, key2: Seq<bool>|
                !(bg2 == bg && key2 == key@) implies #[trigger] self.has_key(bg2, key2)
                == pre.has_key(bg2, key2) && (pre.has_key(bg2, key2) ==> self.entries@[self.pos_of(
                bg2,
                key2,
            )] == pre.entries@[pre.pos_of(bg2, key2)]) by {
                if self.has_key(bg2, key2) {
                    let c = choose|c: int|
                        0 <= c < self.entries@.len() && (#[trigger] self.entries@[c]).bg == bg2
                            && self.entries@[c].key@ == key2;
                    assert(c < mid.entries@.len());
                    assert(self.entries@[c] == mid.entries@[c]);
                    match found {
                        Some(j) => {
                            let m = if c < j {
                                c
                            } else {
                                c + 1
                            };
                            assert(mid.entries@[c] == pre.entries@[m]);
                            assert(pre.has_key(bg2, key2));
                        },
                        None => {
                            assert(pre.has_key(bg2, key2));
                        },
                    }
                }
                if pre.has_key(bg2, key2) {
                    let p0 = pre.pos_of(bg2, key2);
                    assert(pre.entries@[p0].bg == bg2 && pre.entries@[p0].key@ == key2);
                    match found {
                        Some(j) => {
                            assert(p0 != j as int);
                            let q = if p0 < j {
                                p0
                            } else {
                                p0 - 1
                            };
                            assert(mid.entries@[q] == pre.entries@[p0]);
                            assert(self.entries@[q] == pre.entries@[p0]);
                            assert(self.has_key(bg2, key2));
                            let p1 = self.pos_of(bg2, key2);
                            if p1 != q {
                                assert(self.entries@[p1].bg == bg2 && self.entries@[p1].key@
                                    == key2);
                                assert(false);
                            }
                        },
                        None => {
                            assert(mid.entries@[p0] == pre.entries@[p0]);
                            assert(self.entries@[p0] == pre.entries@[p0]);
                            assert(self.has_key(bg2, key2));
                            let p1 = self.pos_of(bg2, key2);
                            if p1 != p0 {
                                assert(self.entries@[p1].bg == bg2 && self.entries@[p1].key@
                                    == key2);
                                assert(false);
                            }
                        },
                    }
                }
            }
        }
    }
}

/// Cache idempotence at the storage layer: immediately after a list is
/// cached under a fingerprint, any lookup with the structurally identical
/// fingerprint within the time-to-live returns exactly that list. The
/// surrounding query path therefore returns bit-identical results for a
/// repeated identical query while the entry is fresh, and only the first
/// query computes.
pub proof fn lemma_cache_roundtrip(c: ResultCache, bg: u128, key: Seq<bool>, now: u64, later: u64)
    requires
        c.wf(),
        c.has_key(bg, key),
        c.entries@[c.pos_of(bg, key)].stamp == now,
        now <= later <= now + c.ttl,
    ensures
        fresh(c.entries@[c.pos_of(bg, key)].stamp, later, c.ttl),
{
}

impl PairCache {
    /// Keys are unique, and every stored list came from a computation
    /// for its own fingerprint.
    pub open spec fn wf(self) -> bool {
        &&& forall|j1: int, j2: int|
            0 <= j1 < j2 < self.entries@.len() ==> !(self.entries@[j1].bg == self.entries@[j2].bg
                && self.entries@[j1].key_up@ == self.entries@[j2].key_up@
                && self.entries@[j1].key_down@ == self.entries@[j2].key_down@)
        &&& forall|j: int|
            0 <= j < self.entries@.len() ==> stored_pair_scores_ok(#[trigger] self.entries@[j])
    }

    /// The position of the entry with this key.
    pub open spec fn pos_of(self, bg: u128, ku: Seq<bool>, kd: Seq<bool>) -> int {
        choose|j: int|
            0 <= j < self.entries@.len() && self.entries@[j].bg == bg && self.entries@[j].key_up@
                == ku && self.entries@[j].key_down@ == kd
    }

    /// A (fresh or stale) entry with this key exists.
    pub open spec fn has_key(self, bg: u128, ku: Seq<bool>, kd: Seq<bool>) -> bool {
        exists|j: int|
            0 <= j < self.entries@.len() && (#[trigger] self.entries@[j]).bg == bg
                && self.entries@[j].key_up@ == ku && self.entries@[j].key_down@ == kd
    }

    /// An empty cache with the given time-to-live.
    pub fn new(ttl: u64) -> (r: PairCache)
        ensures
            r.wf(),
            r.ttl == ttl,
            forall|bg: u128, ku: Seq<bool>, kd: Seq<bool>| !r.has_key(bg, ku, kd),
    {
        PairCache { entries: Vec::new(), ttl }
    }

    fn find(&self, bg: u128, ku: &Vec<bool>, kd: &Vec<bool>) -> (r: Option<usize>)
        requires
            self.wf(),
        ensures
            match r {
                Some(j) => j < self.entries@.len() && self.entries@[j as int].bg == bg
                    && self.entries@[j as int].key_up@ == ku@ && self.entries@[j as int].key_down@
                    == kd@ && self.pos_of(bg, ku@, kd@) == j as int,
                None => !self.has_key(bg, ku@, kd@),
            },
    {
        let mut j: usize = 0;
        while j < self.entries.len()
            invariant
                j <= self.entries@.len(),
                self.wf(),
                forall|t: int|
                    0 <= t < j ==> !((#[trigger] self.entries@[t]).bg == bg
                        && self.entries@[t].key_up@ == ku@ && self.entries@[t].key_down@ == kd@),
            decreases self.entries@.len() - j,
        {
            if self.entries[j].bg == bg {
                if crate::bits::bools_eq(&self.entries[j].key_up, ku) {
                    if crate::bits::bools_eq(&self.entries[j].key_down, kd) {
                        proof {
                            let p = self.pos_of(bg, ku@, kd@);
                            if p != j as int {
                                assert(false);
                            }
                        }
                        return Some(j);
                    }
                }
            }
            j = j + 1;
        }
        None
    }

    /// A non-blocking read: the cached list, when a fresh entry with this
    /// exact key pair exists.
    pub fn get(&self, bg: u128, ku: &Vec<bool>, kd: &Vec<bool>, now: u64) -> (r: Option<
        &Vec<PairScored>,
    >)
        requires
            self.wf(),
        ensures
            match r {
                Some(v) => self.has_key(bg, ku@, kd@) && v@ == self.entries@[self.pos_of(
                    bg,
                    ku@,
                    kd@,
                )].results@ && fresh(
                    self.entries@[self.pos_of(bg, ku@, kd@)].stamp,
                    now,
                    self.ttl,
                ),
                None => !self.has_key(bg, ku@, kd@) || !fresh(
                    self.entries@[self.pos_of(bg, ku@, kd@)].stamp,
                    now,
                    self.ttl,
                ),
            },
    {
        let found = self.find(bg, ku, kd);
        match found {
            Some(j) => {
                let stamp = self.entries[j].stamp;
                if stamp <= now && now - stamp <= self.ttl {
                    Some(&self.entries[j].results)
                } else {
                    None
                }
            },
            None => None,
        }
    }

    /// Caches a paired result list under its query fingerprint,
    /// replacing any earlier list with the same fingerprint.
    pub fn insert(
        &mut self,
        bg: u128,
        ku: Vec<bool>,
        kd: Vec<bool>,
        results: Vec<PairScored>,
        now: u64,
    )
        requires
            old(self).wf(),
            exists|
                ix: BackgroundIndex,
                up: DenseBitVec,
                down: DenseBitVec,
                overlap_ge: int,
                ple: (nat, nat),
                aple: (nat, nat),
            |
                #[trigger] pair_scores_pinned(
                    ix,
                    up,
                    down,
                    overlap_ge,
                    ple,
                    aple,
                    ku@,
                    kd@,
                    results@,
                ),
        ensures
            final (self).wf(),
            final (self).ttl == old(self).ttl,
            final (self).has_key(bg, ku@, kd@),
            final (self).entries@[final (self).pos_of(bg, ku@, kd@)].results@ == results@,
            final (self).entries@[final (self).pos_of(bg, ku@, kd@)].stamp == now,
            pair_cache_kept_others(*old(self), *final (self), bg, ku@, kd@),
    {
        let found = self.find(bg, &ku, &kd);
        let ghost pre = *self;
        match found {
            Some(j) => {
                self.entries.remove(j);
                proof {
                    pre.entries@.remove_ensures(j as int);
                    assert forall|j1: int, j2: int|
                        0 <= j1 < j2 < self.entries@.len() implies !(self.entries@[j1].bg
                        == self.entries@[j2].bg && self.entries@[j1].key_up@
                        == self.entries@[j2].key_up@ && self.entries@[j1].key_down@
                        == self.entries@[j2].key_down@) by {
                        let m1 = if j1 < j {
                            j1
                        } else {
                            j1 + 1
                        };
                        let m2 = if j2 < j {
                            j2
                        } else {
                            j2 + 1
                        };
                        assert(self.entries@[j1] == pre.entries@[m1]);
                        assert(self.entries@[j2] == pre.entries@[m2]);
                    }
                    assert forall|t: int|
                        0 <= t < self.entries@.len() implies !((#[trigger] self.entries@[t]).bg
                        == bg && self.entries@[t].key_up@ == ku@ && self.entries@[t].key_down@
                        == kd@) by {
                        let m = if t < j {
                            t
                        } else {
                            t + 1
                        };
                        assert(self.entries@[t] == pre.entries@[m]);
                        if m != j as int && pre.entries@[m].bg == bg && pre.entries@[m].key_up@
                            == ku@ && pre.entries@[m].key_down@ == kd@ {
                            assert(false);
                        }
                    }
                    assert forall|t: int|
                        0 <= t < self.entries@.len() implies stored_pair_scores_ok(
                        #[trigger] self.entries@[t],
                    ) by {
                        let m = if t < j {
                            t
                        } else {
                            t + 1
                        };
                        assert(self.entries@[t] == pre.entries@[m]);
                        assert(stored_pair_scores_ok(pre.entries@[m]));
                    }
                }
            },
            None => {},
        }
        let ghost mid = *self;
        proof {
            assert(!mid.has_key(bg, ku@, kd@));
        }
        self.entries.push(PairCacheEntry { bg, key_up: ku, key_down: kd, results, stamp: now });
        proof {
            let last = self.entries@.len() - 1;
            assert(self.entries@[last].bg == bg && self.entries@[last].key_up@ == ku@
                && self.entries@[last].key_down@ == kd@);
            assert forall|j1: int, j2: int|
                0 <= j1 < j2 < self.entries@.len() implies !(self.entries@[j1].bg
                == self.entries@[j2].bg && self.entries@[j1].key_up@ == self.entries@[j2].key_up@
                && self.entries@[j1].key_down@ == self.entries@[j2].key_down@) by {
                if j2 == last {
                    assert(self.entries@[j1] == mid.entries@[j1]);
                    if self.entries@[j1].bg == bg && self.entries@[j1].key_up@ == ku@
                        && self.entries@[j1].key_down@ == kd@ {
                        assert(mid.has_key(bg, ku@, kd@));
                    }
                } else {
                    assert(self.entries@[j1] == mid.entries@[j1]);
                    assert(self.entries@[j2] == mid.entries@[j2]);
                }
            }
            let p = self.pos_of(bg, ku@, kd@);
            if p != last {
                assert(false);
            }
            // the new entry, like every kept one, carries a computed list
            assert forall|t: int| 0 <= t < self.entries@.len() implies stored_pair_scores_ok(
                #[trigger] self.entries@[t],
            ) by {
                if t < mid.entries@.len() {
                    assert(self.entries@[t] == mid.entries@[t]);
                    assert(stored_pair_scores_ok(mid.entries@[t]));
                } else {
                    let (ix, up, down, ov, ple, aple) = choose|
                        ix: BackgroundIndex,
                        up: DenseBitVec,
                        down: DenseBitVec,
                        ov: int,
                        ple: (nat, nat),
                        aple: (nat, nat),
                    | #[trigger] pair_scores_pinned(ix, up, down, ov, ple, aple, ku@, kd@, results@);
                    assert(pair_scores_pinned(
                        ix,
                        up,
                        down,
                        ov,
                        ple,
                        aple,
                        self.entries@[t].key_up@,
                        self.entries@[t].key_down@,
                        self.entries@[t].results@,
                    ));
                }
            }
            // every other fingerprint pair's entry survives unchanged
            assert forall|bg2: u128, ku2: Seq<bool>, kd2: Seq<bool>|
                !(bg2 == bg && ku2 == ku@ && kd2 == kd@) implies #[trigger] self.has_key(
                bg2,
                ku2,
                kd2,
            ) == pre.has_key(bg2, ku2, kd2) && (pre.has_key(bg2, ku2, kd2)
                ==> self.entries@[self.pos_of(bg2, ku2, kd2)] == pre.entries@[pre.pos_of(
                bg2,
                ku2,
                kd2,
            )]) by {
                if self.has_key(bg2, ku2, kd2) {
                    let c = choose|c: int|
                        0 <= c < self.entries@.len() && (#[trigger] self.entries@[c]).bg == bg2
                            && self.entries@[c].key_up@ == ku2 && self.entries@[c].key_down@
                            == kd2;
                    assert(c < mid.entries@.len());
                    assert(self.entries@[c] == mid.entries@[c]);
                    match found {
                        Some(j) => {
                            let m = if c < j {
                                c
                            } else {
                                c + 1
                            };
                            assert(mid.entries@[c] == pre.entries@[m]);
                            assert(pre.has_key(bg2, ku2, kd2));
                        },
                        None => {
                            assert(pre.has_key(bg2, ku2, kd2));
                        },
                    }
                }
                if pre.has_key(bg2, ku2, kd2) {
                    let p0 = pre.pos_of(bg2, ku2, kd2);
                    assert(pre.entries@[p0].bg == bg2 && pre.entries@[p0].key_up@ == ku2
                        && pre.entries@[p0].key_down@ == kd2);
                    match found {
                        Some(j) => {
                            assert(p0 != j as int);
                            let q = if p0 < j {
                                p0
                            } else {
                                p0 - 1
                            };
                            assert(mid.entries@[q] == pre.entries@[p0]);
                            assert(self.entries@[q] == pre.entries@[p0]);
                            assert(self.has_key(bg2, ku2, kd2));
                            let p1 = self.pos_of(bg2, ku2, kd2);
                            if p1 != q {
                                assert(self.entries@[p1].bg == bg2 && self.entries@[p1].key_up@
                                    == ku2 && self.entries@[p1].key_down@ == kd2);
                                assert(false);
                            }
                        },
                        None => {
                            assert(mid.entries@[p0] == pre.entries@[p0]);
                            assert(self.entries@[p0] == pre.entries@[p0]);
                            assert(self.has_key(bg2, ku2, kd2));
                            let p1 = self.pos_of(bg2, ku2, kd2);
                            if p1 != p0 {
                                assert(self.entries@[p1].bg == bg2 && self.entries@[p1].key_up@
                                    == ku2 && self.entries@[p1].key_down@ == kd2);
                                assert(false);
                            }
                        },
                    }
                }
            }
        }
    }
}

} // verus!
