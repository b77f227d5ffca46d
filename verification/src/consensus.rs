//! The consensus aggregation layer: rolls gene-set-level significance up
//! to perturbation-agent-level statistics. Agents are grouped from the
//! top-ranked surviving rows; each agent gets a second round of 2x2 exact
//! tests plus direction-sensitivity tables, with a documented neutral
//! fallback where the test is unreliable or a table cannot be formed.

use vstd::prelude::*;
use num::BigUint;
use crate::bignum::{big_add, big_clone, big_from_u64, big_mul, big_nat, big_sub, big_to_u64};
use crate::fisher::{FactTable, p_value, pvalue_den, pvalue_num};
use crate::ratio::{Ratio, clamp1, rle_t};
use crate::bh;
use crate::catalog::BackgroundIndex;
use crate::pipeline::ScoredEntry;
use crate::text::{bytes_eq, contains_bytes, contains_sub};
use crate::rows::{SortKey, clean_of, clean_filter};
use crate::pairs::{up_suffix, down_suffix};
use crate::columns::copy_bytes;

verus! {

/// The " up" marker searched for inside term names.
pub open spec fn up_marker() -> Seq<u8> {
    seq![32u8, 117u8, 112u8]
}

/// Term `t` of the entry scored by row `i` exists and carries the
/// perturbation label `pert`.
pub open spec fn term_pert_at(
    ix: BackgroundIndex,
    scores: Seq<ScoredEntry>,
    i: int,
    t: int,
    pert: Seq<u8>,
) -> bool {
    &&& 0 <= i < scores.len()
    &&& (scores[i].index as int) < ix.entries@.len()
    &&& 0 <= t < ix.entries@[scores[i].index as int].terms@.len()
    &&& ix.entries@[scores[i].index as int].terms@[t].pert@ == pert
}

/// That term's name carries the " up" marker.
pub open spec fn term_up_at(ix: BackgroundIndex, scores: Seq<ScoredEntry>, i: int, t: int) -> bool {
    contains_bytes(ix.entries@[scores[i].index as int].terms@[t].term@, up_marker())
}

/// The up criterion of a tallied term: a row-level flag when grouping a
/// paired query (the mimicker side is the more significant one), else
/// the " up" marker in the term's own name.
pub open spec fn up_mark(
    ix: BackgroundIndex,
    scores: Seq<ScoredEntry>,
    flags: Seq<bool>,
    by_flag: bool,
    i: int,
    t: int,
) -> bool {
    if by_flag {
        0 <= i < flags.len() && flags[i]
    } else {
        term_up_at(ix, scores, i, t)
    }
}

/// A nonempty label `pert` occurs on some term strictly before position
/// `(ub_i, ub_t)` in row-major order.
pub open spec fn pert_seen(
    ix: BackgroundIndex,
    scores: Seq<ScoredEntry>,
    ub_i: int,
    ub_t: int,
    pert: Seq<u8>,
) -> bool {
    pert.len() > 0 && exists|i: int, t: int|
        #![trigger term_pert_at(ix, scores, i, t, pert)]
        (i < ub_i || (i == ub_i && t < ub_t)) && term_pert_at(ix, scores, i, t, pert)
}

/// How many terms strictly before `(ub_i, ub_t)` carry the label `pert`.
pub open spec fn sig_count(
    ix: BackgroundIndex,
    scores: Seq<ScoredEntry>,
    pert: Seq<u8>,
    ub_i: int,
    ub_t: int,
) -> int
    decreases ub_i, ub_t,
{
    if ub_i < 0 || ub_t < 0 {
        0
    } else if ub_t > 0 {
        sig_count(ix, scores, pert, ub_i, ub_t - 1) + (if term_pert_at(
            ix,
            scores,
            ub_i,
            ub_t - 1,
            pert,
        ) {
            1int
        } else {
            0int
        })
    } else if ub_i > 0 {
        sig_count(
            ix,
            scores,
            pert,
            ub_i - 1,
            if 0 <= ub_i - 1 < scores.len() && (scores[ub_i - 1].index as int)
                < ix.entries@.len() {
                ix.entries@[scores[ub_i - 1].index as int].terms@.len() as int
            } else {
                0
            },
        )
    } else {
        0
    }
}

/// How many of those terms also meet the up criterion.
pub open spec fn sig_up_count(
    ix: BackgroundIndex,
    scores: Seq<ScoredEntry>,
    flags: Seq<bool>,
    by_flag: bool,
    pert: Seq<u8>,
    ub_i: int,
    ub_t: int,
) -> int
    decreases ub_i, ub_t,
{
    if ub_i < 0 || ub_t < 0 {
        0
    } else if ub_t > 0 {
        sig_up_count(ix, scores, flags, by_flag, pert, ub_i, ub_t - 1) + (if term_pert_at(
            ix,
            scores,
            ub_i,
            ub_t - 1,
            pert,
        ) && up_mark(ix, scores, flags, by_flag, ub_i, ub_t - 1) {
            1int
        } else {
            0int
        })
    } else if ub_i > 0 {
        sig_up_count(
            ix,
            scores,
            flags,
            by_flag,
            pert,
            ub_i - 1,
            if 0 <= ub_i - 1 < scores.len() && (scores[ub_i - 1].index as int)
                < ix.entries@.len() {
                ix.entries@[scores[ub_i - 1].index as int].terms@.len() as int
            } else {
                0
            },
        )
    } else {
        0
    }
}


/// A label that occurs nowhere before the bound has a zero tally there.
proof fn lemma_count_unseen(
    ix: BackgroundIndex,
    scores: Seq<ScoredEntry>,
    pert: Seq<u8>,
    ub_i: int,
    ub_t: int,
)
    requires
        forall|i: int, t: int|
            #![trigger term_pert_at(ix, scores, i, t, pert)]
            (i < ub_i || (i == ub_i && t < ub_t)) ==> !term_pert_at(ix, scores, i, t, pert),
    ensures
        sig_count(ix, scores, pert, ub_i, ub_t) == 0,
        forall|flags: Seq<bool>, by_flag: bool|
            sig_up_count(ix, scores, flags, by_flag, pert, ub_i, ub_t) == 0,
    decreases ub_i, ub_t,
{
    if ub_i < 0 || ub_t < 0 {
    } else if ub_t > 0 {
        lemma_count_unseen(ix, scores, pert, ub_i, ub_t - 1);
        assert(!term_pert_at(ix, scores, ub_i, ub_t - 1, pert));
        assert forall|flags: Seq<bool>, by_flag: bool|
            sig_up_count(ix, scores, flags, by_flag, pert, ub_i, ub_t) == 0 by {
            assert(sig_up_count(ix, scores, flags, by_flag, pert, ub_i, ub_t - 1) == 0);
        }
    } else if ub_i > 0 {
        let l = if 0 <= ub_i - 1 < scores.len() && (scores[ub_i - 1].index as int)
            < ix.entries@.len() {
            ix.entries@[scores[ub_i - 1].index as int].terms@.len() as int
        } else {
            0
        };
        lemma_count_unseen(ix, scores, pert, ub_i - 1, l);
        assert forall|flags: Seq<bool>, by_flag: bool|
            sig_up_count(ix, scores, flags, by_flag, pert, ub_i, ub_t) == 0 by {
            assert(sig_up_count(ix, scores, flags, by_flag, pert, ub_i - 1, l) == 0);
        }
    }
}

/// One perturbation agent's tallies over the top-ranked rows.
pub struct AgentCount {
    pub pert: Vec<u8>,
    pub sig: BigUint,
    pub sig_up: BigUint,
    pub total: u32,
    pub approved: bool,
}

/// The agent's total count and approval flag come from some metadata
/// record carrying its label among the tallied rows.
pub open spec fn agent_meta_ok(
    ix: BackgroundIndex,
    scores: Seq<ScoredEntry>,
    ub_i: int,
    a: AgentCount,
) -> bool {
    exists|i: int, t: int|
        #![trigger term_pert_at(ix, scores, i, t, a.pert@)]
        i < ub_i && term_pert_at(ix, scores, i, t, a.pert@) && a.total
            == ix.entries@[scores[i].index as int].terms@[t].count && a.approved
            == ix.entries@[scores[i].index as int].terms@[t].fda_approved
}

/// Some listed agent carries this label.
pub open spec fn agent_listed(agents: Seq<AgentCount>, pert: Seq<u8>) -> bool {
    exists|m: int| 0 <= m < agents.len() && (#[trigger] agents[m]).pert@ == pert
}

/// Groups the top `top_n` ranked rows by perturbation-agent label: one
/// tally per nonempty label, counting its significant terms and how many
/// of them are up-regulated, with the total count and approval flag taken
/// from a metadata record of the label.
#[verifier::rlimit(100)]
pub fn group_agents(
    ix: &BackgroundIndex,
    scores: &Vec<ScoredEntry>,
    flags: &Vec<bool>,
    by_flag: bool,
    top_n: usize,
) -> (agents: Vec<AgentCount>)
    requires
        ix.wf(),
        forall|i: int| 0 <= i < scores@.len() ==> ((#[trigger] scores@[i]).index as int) < ix.entries@.len(),
        by_flag ==> flags@.len() == scores@.len(),
    ensures
        forall|m1: int, m2: int|
            0 <= m1 < m2 < agents@.len() ==> agents@[m1].pert@ != agents@[m2].pert@,
        forall|m: int| 0 <= m < agents@.len() ==> (#[trigger] agents@[m]).pert@.len() > 0,
        forall|m: int|
            0 <= m < agents@.len() ==> big_nat((#[trigger] agents@[m]).sig) == sig_count(
                *ix,
                scores@,
                agents@[m].pert@,
                (if top_n < scores@.len() {
                    top_n as int
                } else {
                    scores@.len() as int
                }),
                0,
            ),
        forall|m: int|
            0 <= m < agents@.len() ==> big_nat((#[trigger] agents@[m]).sig_up) == sig_up_count(
                *ix,
                scores@,
                flags@,
                by_flag,
                agents@[m].pert@,
                (if top_n < scores@.len() {
                    top_n as int
                } else {
                    scores@.len() as int
                }),
                0,
            ),
        forall|m: int|
            0 <= m < agents@.len() ==> agent_meta_ok(
                *ix,
                scores@,
                (if top_n < scores@.len() {
                    top_n as int
                } else {
                    scores@.len() as int
                }),
                #[trigger] agents@[m],
            ),
        forall|pert: Seq<u8>|
            pert_seen(
                *ix,
                scores@,
                (if top_n < scores@.len() {
                    top_n as int
                } else {
                    scores@.len() as int
                }),
                0,
                pert,
            ) ==> #[trigger] agent_listed(agents@, pert),
{
    let lim = if top_n < scores.len() {
        top_n
    } else {
        scores.len()
    };
    let mut agents: Vec<AgentCount> = Vec::new();
    let mut i: usize = 0;
    while i < lim
        invariant
            i <= lim,
            lim == (if top_n < scores@.len() {
                top_n as int
            } else {
                scores@.len() as int
            }),
            ix.wf(),
            by_flag ==> flags@.len() == scores@.len(),
            forall|i2: int|
                0 <= i2 < scores@.len() ==> ((#[trigger] scores@[i2]).index as int)
                    < ix.entries@.len(),
            forall|m1: int, m2: int|
                0 <= m1 < m2 < agents@.len() ==> agents@[m1].pert@ != agents@[m2].pert@,
            forall|m: int| 0 <= m < agents@.len() ==> (#[trigger] agents@[m]).pert@.len() > 0,
            forall|m: int|
                0 <= m < agents@.len() ==> big_nat((#[trigger] agents@[m]).sig) == sig_count(
                    *ix,
                    scores@,
                    agents@[m].pert@,
                    i as int,
                    0,
                ),
            forall|m: int|
                0 <= m < agents@.len() ==> big_nat((#[trigger] agents@[m]).sig_up)
                    == sig_up_count(*ix, scores@, flags@, by_flag, agents@[m].pert@, i as int, 0),
            forall|m: int|
                0 <= m < agents@.len() ==> agent_meta_ok(
                    *ix,
                    scores@,
                    i as int,
                    #[trigger] agents@[m],
                ),
            forall|pert: Seq<u8>|
                pert_seen(*ix, scores@, i as int, 0, pert) ==> #[trigger] agent_listed(
                    agents@,
                    pert,
                ),
        decreases lim - i,
    {
        let k = scores[i].index;
        let nterms = ix.entries[k].terms.len();
        let mut t: usize = 0;
        proof {
            assert forall|m: int| 0 <= m < agents@.len() implies big_nat(
                (#[trigger] agents@[m]).sig,
            ) == sig_count(*ix, scores@, agents@[m].pert@, i as int, 0) && big_nat(
                agents@[m].sig_up,
            ) == sig_up_count(*ix, scores@, flags@, by_flag, agents@[m].pert@, i as int, 0) by {}
        }
        while t < nterms
            invariant
                t <= nterms,
                i < lim,
                lim == (if top_n < scores@.len() {
                    top_n as int
                } else {
                    scores@.len() as int
                }),
                lim <= scores@.len(),
                ix.wf(),
                by_flag ==> flags@.len() == scores@.len(),
                k == scores@[i as int].index,
                (k as int) < ix.entries@.len(),
                nterms == ix.entries@[k as int].terms@.len(),
                forall|i2: int|
                    0 <= i2 < scores@.len() ==> ((#[trigger] scores@[i2]).index as int)
                        < ix.entries@.len(),
                forall|m1: int, m2: int|
                    0 <= m1 < m2 < agents@.len() ==> agents@[m1].pert@ != agents@[m2].pert@,
                forall|m: int| 0 <= m < agents@.len() ==> (#[trigger] agents@[m]).pert@.len() > 0,
                forall|m: int|
                    0 <= m < agents@.len() ==> big_nat((#[trigger] agents@[m]).sig) == sig_count(
                        *ix,
                        scores@,
                        agents@[m].pert@,
                        i as int,
                        t as int,
                    ),
                forall|m: int|
                    0 <= m < agents@.len() ==> big_nat((#[trigger] agents@[m]).sig_up)
                        == sig_up_count(*ix, scores@, flags@, by_flag, agents@[m].pert@, i as int, t as int),
                forall|m: int|
                    0 <= m < agents@.len() ==> agent_meta_ok(
                        *ix,
                        scores@,
                        i + 1,
                        #[trigger] agents@[m],
                    ),
                forall|pert: Seq<u8>|
                    pert_seen(*ix, scores@, i as int, t as int, pert) ==> #[trigger] agent_listed(
                        agents@,
                        pert,
                    ),
            decreases nterms - t,
        {
            let ghost pert_val = ix.entries@[k as int].terms@[t as int].pert@;
            if ix.entries[k].terms[t].pert.len() > 0 {
                let pert = copy_bytes(&ix.entries[k].terms[t].pert);
                let is_up = if by_flag {
                    flags[i]
                } else {
                    let marker: Vec<u8> = vec![32u8, 117u8, 112u8];
                    proof {
                        assert(marker@ =~= up_marker());
                    }
                    contains_sub(&ix.entries[k].terms[t].term, &marker)
                };
                proof {
                    assert(is_up == up_mark(*ix, scores@, flags@, by_flag, i as int, t as int));
                }
                let pos = find_agent(&agents, &pert);
                let ghost old_agents = agents@;
                match pos {
                    Some(m) => {
                        let mut s = agents.remove(m);
                        let one = big_from_u64(1);
                        s.sig = big_add(&s.sig, &one);
                        if is_up {
                            s.sig_up = big_add(&s.sig_up, &one);
                        }
                        agents.insert(m, s);
                        proof {
                            assert(agents@ =~= old_agents.update(m as int, agents@[m as int]));
                        }
                    },
                    None => {
                        let one = big_from_u64(1);
                        let su = if is_up {
                            big_from_u64(1)
                        } else {
                            big_from_u64(0)
                        };
                        agents.push(
                            AgentCount {
                                pert,
                                sig: one,
                                sig_up: su,
                                total: ix.entries[k].terms[t].count,
                                approved: ix.entries[k].terms[t].fda_approved,
                            },
                        );
                    },
                }
                proof {
                    let ghost bm = match pos {
                        Some(m) => m as int,
                        None => agents@.len() - 1,
                    };
                    assert(agents@[bm].pert@ == pert_val);
                    assert(term_pert_at(*ix, scores@, i as int, t as int, pert_val));
                    if pos is None {
                        // a label never seen before starts its tally at one
                        assert forall|i2: int, t2: int|
                            #![trigger term_pert_at(*ix, scores@, i2, t2, pert_val)]
                            (i2 < i as int || (i2 == i as int && t2 < t as int))
                                implies !term_pert_at(*ix, scores@, i2, t2, pert_val) by {
                            if term_pert_at(*ix, scores@, i2, t2, pert_val) {
                                assert(pert_seen(*ix, scores@, i as int, t as int, pert_val));
                                assert(agent_listed(old_agents, pert_val));
                                let m2 = choose|m2: int|
                                    0 <= m2 < old_agents.len() && (#[trigger] old_agents[m2]).pert@
                                        == pert_val;
                                assert(false);
                            }
                        }
                        lemma_count_unseen(*ix, scores@, pert_val, i as int, t as int);
                    }
                    assert forall|m: int| 0 <= m < agents@.len() implies big_nat(
                        (#[trigger] agents@[m]).sig,
                    ) == sig_count(*ix, scores@, agents@[m].pert@, i as int, t + 1) by {
                        if m == bm {
                        } else {
                            assert(agents@[m].pert@ != pert_val);
                            assert(!term_pert_at(*ix, scores@, i as int, t as int, agents@[m].pert@));
                        }
                    }
                    assert forall|m: int| 0 <= m < agents@.len() implies big_nat(
                        (#[trigger] agents@[m]).sig_up,
                    ) == sig_up_count(*ix, scores@, flags@, by_flag, agents@[m].pert@, i as int, t + 1) by {
                        if m == bm {
                            assert(is_up == up_mark(
                                *ix,
                                scores@,
                                flags@,
                                by_flag,
                                i as int,
                                t as int,
                            ));
                            assert(sig_up_count(
                                *ix,
                                scores@,
                                flags@,
                                by_flag,
                                pert_val,
                                i as int,
                                t + 1,
                            ) == sig_up_count(
                                *ix,
                                scores@,
                                flags@,
                                by_flag,
                                pert_val,
                                i as int,
                                t as int,
                            ) + (if term_pert_at(*ix, scores@, i as int, t as int, pert_val)
                                && up_mark(*ix, scores@, flags@, by_flag, i as int, t as int) {
                                1int
                            } else {
                                0int
                            }));
                        } else {
                            assert(agents@[m].pert@ != pert_val);
                            assert(!term_pert_at(*ix, scores@, i as int, t as int, agents@[m].pert@));
                        }
                    }
                    assert forall|m: int| 0 <= m < agents@.len() implies agent_meta_ok(
                        *ix,
                        scores@,
                        i + 1,
                        #[trigger] agents@[m],
                    ) by {
                        if m != bm || pos is Some {
                            assert(agent_meta_ok(*ix, scores@, i + 1, old_agents[m]));
                        } else {
                            assert(term_pert_at(*ix, scores@, i as int, t as int, pert_val));
                        }
                    }
                    assert forall|pert2: Seq<u8>| pert_seen(
                        *ix,
                        scores@,
                        i as int,
                        t + 1,
                        pert2,
                    ) implies #[trigger] agent_listed(agents@, pert2) by {
                        let (i2, t2) = choose|i2: int, t2: int|
                            #![trigger term_pert_at(*ix, scores@, i2, t2, pert2)]
                            (i2 < i as int || (i2 == i as int && t2 < t + 1)) && term_pert_at(
                                *ix,
                                scores@,
                                i2,
                                t2,
                                pert2,
                            );
                        if i2 == i as int && t2 == t as int {
                            assert(agents@[bm].pert@ == pert2);
                        } else {
                            assert(pert_seen(*ix, scores@, i as int, t as int, pert2));
                            assert(agent_listed(old_agents, pert2));
                            let m2 = choose|m2: int|
                                0 <= m2 < old_agents.len() && (#[trigger] old_agents[m2]).pert@
                                    == pert2;
                            assert(agents@[m2].pert@ == pert2);
                        }
                    }
                }
            } else {
                proof {
                    assert forall|m: int| 0 <= m < agents@.len() implies big_nat(
                        (#[trigger] agents@[m]).sig,
                    ) == sig_count(*ix, scores@, agents@[m].pert@, i as int, t + 1) && big_nat(
                        agents@[m].sig_up,
                    ) == sig_up_count(*ix, scores@, flags@, by_flag, agents@[m].pert@, i as int, t + 1) by {
                        assert(agents@[m].pert@.len() > 0);
                        assert(!term_pert_at(*ix, scores@, i as int, t as int, agents@[m].pert@));
                    }
                    assert forall|pert2: Seq<u8>| pert_seen(
                        *ix,
                        scores@,
                        i as int,
                        t + 1,
                        pert2,
                    ) implies #[trigger] agent_listed(agents@, pert2) by {
                        let (i2, t2) = choose|i2: int, t2: int|
                            #![trigger term_pert_at(*ix, scores@, i2, t2, pert2)]
                            (i2 < i as int || (i2 == i as int && t2 < t + 1)) && term_pert_at(
                                *ix,
                                scores@,
                                i2,
                                t2,
                                pert2,
                            );
                        if i2 == i as int && t2 == t as int {
                            assert(pert2 == pert_val);
                            assert(pert2.len() == 0);
                            assert(false);
                        } else {
                            assert(pert_seen(*ix, scores@, i as int, t as int, pert2));
                        }
                    }
                }
            }
            t = t + 1;
        }
        proof {
            // roll the inner bound (i, nterms) over to (i + 1, 0)
            assert forall|m: int| 0 <= m < agents@.len() implies big_nat(
                (#[trigger] agents@[m]).sig,
            ) == sig_count(*ix, scores@, agents@[m].pert@, i + 1, 0) && big_nat(
                agents@[m].sig_up,
            ) == sig_up_count(*ix, scores@, flags@, by_flag, agents@[m].pert@, i + 1, 0) by {
                assert(sig_count(*ix, scores@, agents@[m].pert@, i + 1, 0) == sig_count(
                    *ix,
                    scores@,
                    agents@[m].pert@,
                    i as int,
                    nterms as int,
                ));
                assert(sig_up_count(*ix, scores@, flags@, by_flag, agents@[m].pert@, i + 1, 0)
                    == sig_up_count(
                    *ix,
                    scores@,
                    flags@,
                    by_flag,
                    agents@[m].pert@,
                    i as int,
                    nterms as int,
                ));
            }
            assert forall|pert2: Seq<u8>| pert_seen(
                *ix,
                scores@,
                i + 1,
                0,
                pert2,
            ) implies #[trigger] agent_listed(agents@, pert2) by {
                let (i2, t2) = choose|i2: int, t2: int|
                    #![trigger term_pert_at(*ix, scores@, i2, t2, pert2)]
                    (i2 < i + 1 || (i2 == i + 1 && t2 < 0)) && term_pert_at(
                        *ix,
                        scores@,
                        i2,
                        t2,
                        pert2,
                    );
                assert(pert_seen(*ix, scores@, i as int, nterms as int, pert2));
            }
        }
        i = i + 1;
    }
    agents
}

/// The position of the agent with this label, if one is listed.
fn find_agent(agents: &Vec<AgentCount>, pert: &Vec<u8>) -> (r: Option<usize>)
    ensures
        match r {
            Some(m) => m < agents@.len() && agents@[m as int].pert@ == pert@,
            None => forall|m: int| 0 <= m < agents@.len() ==> (#[trigger] agents@[m]).pert@ != pert@,
        },
{
    let mut m: usize = 0;
    while m < agents.len()
        invariant
            m <= agents@.len(),
            forall|t: int| 0 <= t < m ==> (#[trigger] agents@[t]).pert@ != pert@,
        decreases agents@.len() - m,
    {
        if bytes_eq(&agents[m].pert, pert) {
            return Some(m);
        }
        m = m + 1;
    }
    None
}


/// One consensus result row: per-agent counts and three independently
/// corrected statistics (overall, up-direction, down-direction).
pub struct ConsensusRow {
    pub pert: Vec<u8>,
    pub count_significant: BigUint,
    pub count_insignificant: BigUint,
    pub count_up_significant: BigUint,
    pub approved: bool,
    pub odds: Ratio,
    pub pvalue: Ratio,
    pub adj_pvalue: Ratio,
    pub odds_up: Ratio,
    pub pvalue_up: Ratio,
    pub adj_pvalue_up: Ratio,
    pub odds_down: Ratio,
    pub pvalue_down: Ratio,
    pub adj_pvalue_down: Ratio,
}

/// The insignificant count: the agent's total known catalog-entry count
/// minus its significant count, floored at zero.
pub open spec fn insig_of(sig: int, total: int) -> int {
    if total >= sig {
        total - sig
    } else {
        0
    }
}

/// The neutral fallback applies: fewer than five significant entries, a
/// table cell that cannot be formed, or margins beyond what the machine
/// can address.
pub open spec fn cns_neutral(sig: int, insig: int, sigup: int, nsig: int, ninsig: int) -> bool {
    let tbd = (sig + insig) / 2;
    ||| sig < 5
    ||| sig > nsig
    ||| insig > ninsig
    ||| sigup > sig
    ||| sigup > tbd
    ||| insig < tbd - sigup
    ||| sig + insig + nsig + ninsig >= usize::MAX
}

/// The statistics fields of one consensus row are exactly the specified
/// ones: neutral values under the fallback, otherwise the exact test over
/// the agent's 2x2 table, the continuity-corrected odds ratios, and the
/// two directional sub-tests. Adjusted fields are placeholder ones.
pub open spec fn stats_fields_ok(
    sig: int,
    insig: int,
    sigup: int,
    nsig: int,
    ninsig: int,
    row: ConsensusRow,
) -> bool {
    let neutral = cns_neutral(sig, insig, sigup, nsig, ninsig);
    let c = nsig - sig;
    let d = ninsig - insig;
    let tbd = (sig + insig) / 2;
    let au = sigup;
    let bu = sig - sigup;
    let ad = tbd - sigup;
    let bd = insig - ad;
    &&& row.odds.wf() && row.pvalue.wf() && row.odds_up.wf() && row.pvalue_up.wf()
        && row.odds_down.wf() && row.pvalue_down.wf() && row.adj_pvalue.wf()
        && row.adj_pvalue_up.wf() && row.adj_pvalue_down.wf()
    &&& row.adj_pvalue.pair() == (1nat, 1nat)
    &&& row.adj_pvalue_up.pair() == (1nat, 1nat)
    &&& row.adj_pvalue_down.pair() == (1nat, 1nat)
    &&& (if neutral {
        &&& row.odds.pair() == (0nat, 1nat)
        &&& row.pvalue.pair() == (1nat, 1nat)
        &&& row.odds_up.pair() == (0nat, 1nat)
        &&& row.pvalue_up.pair() == (1nat, 1nat)
        &&& row.odds_down.pair() == (0nat, 1nat)
        &&& row.pvalue_down.pair() == (1nat, 1nat)
    } else {
        &&& row.pvalue.pair() == clamp1(
            (
                pvalue_num(sig as nat, insig as nat, c as nat, d as nat),
                pvalue_den(sig as nat, insig as nat, c as nat, d as nat),
            ),
        )
        &&& row.odds.pair() == (
            ((2 * sig + 1) * (2 * d + 1)) as nat,
            ((2 * insig + 1) * (2 * c + 1)) as nat,
        )
        &&& row.pvalue_up.pair() == clamp1(
            (
                pvalue_num(au as nat, bu as nat, ad as nat, bd as nat),
                pvalue_den(au as nat, bu as nat, ad as nat, bd as nat),
            ),
        )
        &&& row.pvalue_down.pair() == clamp1(
            (
                pvalue_num(bu as nat, au as nat, bd as nat, ad as nat),
                pvalue_den(bu as nat, au as nat, bd as nat, ad as nat),
            ),
        )
        &&& row.odds_up.pair() == (
            ((2 * au + 1) * (2 * bd + 1)) as nat,
            ((2 * bu + 1) * (2 * ad + 1)) as nat,
        )
        &&& row.odds_down.pair() == (
            ((2 * bu + 1) * (2 * ad + 1)) as nat,
            ((2 * au + 1) * (2 * bd + 1)) as nat,
        )
    })
}

/// `(2 x + 1)` as a big integer.
fn twice_plus_one(x: &BigUint) -> (r: BigUint)
    ensures
        big_nat(r) == 2 * big_nat(*x) + 1,
{
    let two = big_from_u64(2);
    let one = big_from_u64(1);
    let d = big_mul(&two, x);
    big_add(&d, &one)
}

/// Computes one agent's statistics row.
#[verifier::rlimit(100)]
fn agent_stats(
    agent: &AgentCount,
    nsig: u64,
    ninsig: u64,
    table: &mut FactTable,
) -> (row: ConsensusRow)
    requires
        old(table).wf(),
    ensures
        final (table).wf(),
        final (table).facts@.len() >= old(table).facts@.len(),
        row.pert@ == agent.pert@,
        big_nat(row.count_significant) == big_nat(agent.sig),
        big_nat(row.count_insignificant) == insig_of(
            big_nat(agent.sig) as int,
            agent.total as int,
        ),
        big_nat(row.count_up_significant) == big_nat(agent.sig_up),
        row.approved == agent.approved,
        stats_fields_ok(
            big_nat(agent.sig) as int,
            insig_of(big_nat(agent.sig) as int, agent.total as int),
            big_nat(agent.sig_up) as int,
            nsig as int,
            ninsig as int,
            row,
        ),
{
    let total_big = big_from_u64(agent.total as u64);
    let insig_big = if crate::bignum::big_le(&agent.sig, &total_big) {
        big_sub(&total_big, &agent.sig)
    } else {
        big_from_u64(0)
    };
    let pert = copy_bytes(&agent.pert);
    let sig_c = big_clone(&agent.sig);
    let sigup_c = big_clone(&agent.sig_up);

    // try to bring every quantity into machine range; fall back to the
    // neutral row when that is impossible
    let s1 = big_to_u64(&agent.sig);
    let s2 = big_to_u64(&insig_big);
    let s3 = big_to_u64(&agent.sig_up);
    let ghost gsig = big_nat(agent.sig) as int;
    let ghost ginsig = insig_of(big_nat(agent.sig) as int, agent.total as int);
    let ghost gsigup = big_nat(agent.sig_up) as int;
    if let (Some(sig_u), Some(insig_u), Some(sigup_u)) = (s1, s2, s3) {
        let in_range = (sig_u as u128) + (insig_u as u128) + (nsig as u128) + (ninsig as u128)
            < usize::MAX as u128;
        let tbd = (sig_u / 2) + (insig_u / 2) + (if sig_u % 2 == 1 && insig_u % 2 == 1 {
            1u64
        } else {
            0u64
        });
        proof {
            assert(tbd as int == (gsig + ginsig) / 2) by (nonlinear_arith)
                requires
                    gsig == sig_u as int,
                    ginsig == insig_u as int,
                    tbd as int == sig_u as int / 2 + insig_u as int / 2 + (if sig_u as int % 2
                        == 1 && insig_u as int % 2 == 1 {
                        1int
                    } else {
                        0int
                    }),
            ;
        }
        if in_range && sig_u >= 5 && sig_u <= nsig && insig_u <= ninsig && sigup_u <= sig_u
            && sigup_u <= tbd && insig_u >= tbd - sigup_u {
            let c_u = nsig - sig_u;
            let d_u = ninsig - insig_u;
            let au = sigup_u;
            let bu = sig_u - sigup_u;
            let ad = tbd - sigup_u;
            let bd = insig_u - ad;
            proof {
                assert(!cns_neutral(gsig, ginsig, gsigup, nsig as int, ninsig as int));
                assert(nsig as int <= usize::MAX && ninsig as int <= usize::MAX);
            }
            let cap1 = (nsig as usize) + (ninsig as usize);
            let cap2 = (sig_u as usize) + (insig_u as usize);
            table.extend_to(cap1);
            table.extend_to(cap2);
            let p_all = p_value(
                table,
                sig_u as usize,
                insig_u as usize,
                c_u as usize,
                d_u as usize,
            ).min_one();
            let p_up = p_value(table, au as usize, bu as usize, ad as usize, bd as usize).min_one();
            let p_down = p_value(table, bu as usize, au as usize, bd as usize, ad as usize)
                .min_one();
            let c_big = big_from_u64(c_u);
            let d_big = big_from_u64(d_u);
            let au_big = big_from_u64(au);
            let bu_big = big_from_u64(bu);
            let ad_big = big_from_u64(ad);
            let bd_big = big_from_u64(bd);
            let odds = Ratio {
                num: big_mul(&twice_plus_one(&agent.sig), &twice_plus_one(&d_big)),
                den: big_mul(&twice_plus_one(&insig_big), &twice_plus_one(&c_big)),
            };
            let odds_up = Ratio {
                num: big_mul(&twice_plus_one(&au_big), &twice_plus_one(&bd_big)),
                den: big_mul(&twice_plus_one(&bu_big), &twice_plus_one(&ad_big)),
            };
            let odds_down = Ratio {
                num: big_mul(&twice_plus_one(&bu_big), &twice_plus_one(&ad_big)),
                den: big_mul(&twice_plus_one(&au_big), &twice_plus_one(&bd_big)),
            };
            proof {
                assert(big_nat(odds.den) >= 1) by (nonlinear_arith)
                    requires
                        big_nat(odds.den) == (2 * ginsig + 1) * (2 * (nsig as int - gsig) + 1),
                        ginsig >= 0,
                        nsig as int - gsig >= 0,
                ;
                assert(big_nat(odds_up.den) >= 1) by (nonlinear_arith)
                    requires
                        big_nat(odds_up.den) == (2 * (gsig - gsigup) + 1) * (2 * ((gsig + ginsig)
                            / 2 - gsigup) + 1),
                        gsig - gsigup >= 0,
                        (gsig + ginsig) / 2 - gsigup >= 0,
                ;
                assert(big_nat(odds_down.den) >= 1) by (nonlinear_arith)
                    requires
                        big_nat(odds_down.den) == (2 * gsigup + 1) * (2 * (ginsig - ((gsig
                            + ginsig) / 2 - gsigup)) + 1),
                        gsigup >= 0,
                        ginsig - ((gsig + ginsig) / 2 - gsigup) >= 0,
                ;
            }
            return ConsensusRow {
                pert,
                count_significant: sig_c,
                count_insignificant: insig_big,
                count_up_significant: sigup_c,
                approved: agent.approved,
                odds,
                pvalue: p_all,
                adj_pvalue: Ratio::one(),
                odds_up,
                pvalue_up: p_up,
                adj_pvalue_up: Ratio::one(),
                odds_down,
                pvalue_down: p_down,
                adj_pvalue_down: Ratio::one(),
            };
        }
        proof {
            assert(cns_neutral(gsig, ginsig, gsigup, nsig as int, ninsig as int));
        }
    } else {
        proof {
            if s1 is None || s2 is None {
                assert(gsig > u64::MAX || ginsig > u64::MAX);
                assert(gsig + ginsig + nsig as int + ninsig as int >= usize::MAX);
            } else {
                assert(gsigup > u64::MAX);
                if gsigup <= gsig {
                    assert(gsig + ginsig + nsig as int + ninsig as int >= usize::MAX);
                } else {
                    assert(gsigup > gsig);
                }
            }
            assert(cns_neutral(gsig, ginsig, gsigup, nsig as int, ninsig as int));
        }
    }
    ConsensusRow {
        pert,
        count_significant: sig_c,
        count_insignificant: insig_big,
        count_up_significant: sigup_c,
        approved: agent.approved,
        odds: Ratio::from_u64s(0, 1),
        pvalue: Ratio::one(),
        adj_pvalue: Ratio::one(),
        odds_up: Ratio::from_u64s(0, 1),
        pvalue_up: Ratio::one(),
        adj_pvalue_up: Ratio::one(),
        odds_down: Ratio::from_u64s(0, 1),
        pvalue_down: Ratio::one(),
        adj_pvalue_down: Ratio::one(),
    }
}


/// The overall p-value pairs of the rows.
pub open spec fn cons_pv(rows: Seq<ConsensusRow>) -> Seq<(nat, nat)> {
    Seq::new(rows.len(), |m: int| rows[m].pvalue.pair())
}

/// The up-direction p-value pairs of the rows.
pub open spec fn cons_pv_up(rows: Seq<ConsensusRow>) -> Seq<(nat, nat)> {
    Seq::new(rows.len(), |m: int| rows[m].pvalue_up.pair())
}

/// The down-direction p-value pairs of the rows.
pub open spec fn cons_pv_down(rows: Seq<ConsensusRow>) -> Seq<(nat, nat)> {
    Seq::new(rows.len(), |m: int| rows[m].pvalue_down.pair())
}

/// All statistics fields of the two rows agree except the adjusted ones.
pub open spec fn row_same_but_adj(a: ConsensusRow, b: ConsensusRow) -> bool {
    &&& a.pert@ == b.pert@
    &&& big_nat(a.count_significant) == big_nat(b.count_significant)
    &&& big_nat(a.count_insignificant) == big_nat(b.count_insignificant)
    &&& big_nat(a.count_up_significant) == big_nat(b.count_up_significant)
    &&& a.approved == b.approved
    &&& a.odds.pair() == b.odds.pair() && a.odds.wf() == b.odds.wf()
    &&& a.pvalue.pair() == b.pvalue.pair() && a.pvalue.wf() == b.pvalue.wf()
    &&& a.odds_up.pair() == b.odds_up.pair() && a.odds_up.wf() == b.odds_up.wf()
    &&& a.pvalue_up.pair() == b.pvalue_up.pair() && a.pvalue_up.wf() == b.pvalue_up.wf()
    &&& a.odds_down.pair() == b.odds_down.pair() && a.odds_down.wf() == b.odds_down.wf()
    &&& a.pvalue_down.pair() == b.pvalue_down.pair() && a.pvalue_down.wf() == b.pvalue_down.wf()
}

/// Computes the statistics row of every grouped agent.
pub fn consensus_rows(
    agents: &Vec<AgentCount>,
    nsig: u64,
    ninsig: u64,
    table: &mut FactTable,
) -> (rows: Vec<ConsensusRow>)
    requires
        old(table).wf(),
    ensures
        final (table).wf(),
        final (table).facts@.len() >= old(table).facts@.len(),
        rows@.len() == agents@.len(),
        forall|m: int|
            0 <= m < rows@.len() ==> (#[trigger] rows@[m]).pert@ == agents@[m].pert@ && big_nat(
                rows@[m].count_significant,
            ) == big_nat(agents@[m].sig) && big_nat(rows@[m].count_insignificant) == insig_of(
                big_nat(agents@[m].sig) as int,
                agents@[m].total as int,
            ) && big_nat(rows@[m].count_up_significant) == big_nat(agents@[m].sig_up)
                && rows@[m].approved == agents@[m].approved && stats_fields_ok(
                big_nat(agents@[m].sig) as int,
                insig_of(big_nat(agents@[m].sig) as int, agents@[m].total as int),
                big_nat(agents@[m].sig_up) as int,
                nsig as int,
                ninsig as int,
                rows@[m],
            ),
{
    let mut rows: Vec<ConsensusRow> = Vec::new();
    let mut m: usize = 0;
    while m < agents.len()
        invariant
            m <= agents@.len(),
            table.wf(),
            table.facts@.len() >= old(table).facts@.len(),
            rows@.len() == m,
            forall|m2: int|
                0 <= m2 < rows@.len() ==> (#[trigger] rows@[m2]).pert@ == agents@[m2].pert@
                    && big_nat(rows@[m2].count_significant) == big_nat(agents@[m2].sig) && big_nat(
                    rows@[m2].count_insignificant,
                ) == insig_of(big_nat(agents@[m2].sig) as int, agents@[m2].total as int)
                    && big_nat(rows@[m2].count_up_significant) == big_nat(agents@[m2].sig_up)
                    && rows@[m2].approved == agents@[m2].approved && stats_fields_ok(
                    big_nat(agents@[m2].sig) as int,
                    insig_of(big_nat(agents@[m2].sig) as int, agents@[m2].total as int),
                    big_nat(agents@[m2].sig_up) as int,
                    nsig as int,
                    ninsig as int,
                    rows@[m2],
                ),
        decreases agents@.len() - m,
    {
        let row = agent_stats(&agents[m], nsig, ninsig, table);
        rows.push(row);
        m = m + 1;
    }
    rows
}

/// Independently Benjamini-Hochberg-adjusts the overall, up and down
/// p-value vectors across all agents, writing each agent's three exact
/// adjusted values into its row.
pub fn adjust_consensus(rows: &Vec<ConsensusRow>) -> (out: Vec<ConsensusRow>)
    requires
        forall|m: int|
            0 <= m < rows@.len() ==> (#[trigger] rows@[m]).pvalue.wf() && rows@[m].pvalue_up.wf()
                && rows@[m].pvalue_down.wf() && rle_t(rows@[m].pvalue.pair(), (1nat, 1nat))
                && rle_t(rows@[m].pvalue_up.pair(), (1nat, 1nat)) && rle_t(
                rows@[m].pvalue_down.pair(),
                (1nat, 1nat),
            ),
    ensures
        out@.len() == rows@.len(),
        forall|m: int|
            0 <= m < out@.len() ==> row_same_but_adj(#[trigger] out@[m], rows@[m]),
        forall|m: int|
            0 <= m < out@.len() ==> (#[trigger] out@[m]).adj_pvalue.wf()
                && out@[m].adj_pvalue_up.wf() && out@[m].adj_pvalue_down.wf(),
        forall|m: int|
            0 <= m < out@.len() ==> bh::bh_pinned(
                cons_pv(rows@),
                m,
                (#[trigger] out@[m]).adj_pvalue.pair(),
            ),
        forall|m: int|
            0 <= m < out@.len() ==> bh::bh_pinned(
                cons_pv_up(rows@),
                m,
                (#[trigger] out@[m]).adj_pvalue_up.pair(),
            ),
        forall|m: int|
            0 <= m < out@.len() ==> bh::bh_pinned(
                cons_pv_down(rows@),
                m,
                (#[trigger] out@[m]).adj_pvalue_down.pair(),
            ),
{
    let mut pv0: Vec<Ratio> = Vec::new();
    let mut pv1: Vec<Ratio> = Vec::new();
    let mut pv2: Vec<Ratio> = Vec::new();
    let mut m: usize = 0;
    while m < rows.len()
        invariant
            m <= rows@.len(),
            forall|m2: int|
                0 <= m2 < rows@.len() ==> (#[trigger] rows@[m2]).pvalue.wf()
                    && rows@[m2].pvalue_up.wf() && rows@[m2].pvalue_down.wf() && rle_t(
                    rows@[m2].pvalue.pair(),
                    (1nat, 1nat),
                ) && rle_t(rows@[m2].pvalue_up.pair(), (1nat, 1nat)) && rle_t(
                    rows@[m2].pvalue_down.pair(),
                    (1nat, 1nat),
                ),
            pv0@.len() == m && pv1@.len() == m && pv2@.len() == m,
            forall|m2: int|
                0 <= m2 < m ==> (#[trigger] pv0@[m2]).wf() && pv0@[m2].pair()
                    == rows@[m2].pvalue.pair(),
            forall|m2: int|
                0 <= m2 < m ==> (#[trigger] pv1@[m2]).wf() && pv1@[m2].pair()
                    == rows@[m2].pvalue_up.pair(),
            forall|m2: int|
                0 <= m2 < m ==> (#[trigger] pv2@[m2]).wf() && pv2@[m2].pair()
                    == rows@[m2].pvalue_down.pair(),
        decreases rows@.len() - m,
    {
        pv0.push(rows[m].pvalue.clone_val());
        pv1.push(rows[m].pvalue_up.clone_val());
        pv2.push(rows[m].pvalue_down.clone_val());
        m = m + 1;
    }
    proof {
        assert(bh::pairs_of(pv0@) =~= cons_pv(rows@));
        assert(bh::pairs_of(pv1@) =~= cons_pv_up(rows@));
        assert(bh::pairs_of(pv2@) =~= cons_pv_down(rows@));
        assert forall|m2: int| 0 <= m2 < pv0@.len() implies (#[trigger] pv0@[m2]).wf() && rle_t(
            pv0@[m2].pair(),
            (1nat, 1nat),
        ) by {
            assert(pv0@[m2].pair() == rows@[m2].pvalue.pair());
        }
        assert forall|m2: int| 0 <= m2 < pv1@.len() implies (#[trigger] pv1@[m2]).wf() && rle_t(
            pv1@[m2].pair(),
            (1nat, 1nat),
        ) by {
            assert(pv1@[m2].pair() == rows@[m2].pvalue_up.pair());
        }
        assert forall|m2: int| 0 <= m2 < pv2@.len() implies (#[trigger] pv2@[m2]).wf() && rle_t(
            pv2@[m2].pair(),
            (1nat, 1nat),
        ) by {
            assert(pv2@[m2].pair() == rows@[m2].pvalue_down.pair());
        }
    }
    let adj0 = bh::adjust(&pv0);
    let adj1 = bh::adjust(&pv1);
    let adj2 = bh::adjust(&pv2);
    let mut out: Vec<ConsensusRow> = Vec::new();
    let mut m: usize = 0;
    while m < rows.len()
        invariant
            m <= rows@.len(),
            adj0@.len() == rows@.len() && adj1@.len() == rows@.len() && adj2@.len()
                == rows@.len(),
            forall|m2: int|
                0 <= m2 < rows@.len() ==> (#[trigger] adj0@[m2]).wf() && adj1@[m2].wf()
                    && adj2@[m2].wf(),
            forall|m2: int|
                0 <= m2 < rows@.len() ==> bh::bh_pinned(
                    cons_pv(rows@),
                    m2,
                    (#[trigger] adj0@[m2]).pair(),
                ),
            forall|m2: int|
                0 <= m2 < rows@.len() ==> bh::bh_pinned(
                    cons_pv_up(rows@),
                    m2,
                    (#[trigger] adj1@[m2]).pair(),
                ),
            forall|m2: int|
                0 <= m2 < rows@.len() ==> bh::bh_pinned(
                    cons_pv_down(rows@),
                    m2,
                    (#[trigger] adj2@[m2]).pair(),
                ),
            out@.len() == m,
            forall|m2: int|
                0 <= m2 < out@.len() ==> row_same_but_adj(#[trigger] out@[m2], rows@[m2])
                    && out@[m2].adj_pvalue.wf() && out@[m2].adj_pvalue_up.wf()
                    && out@[m2].adj_pvalue_down.wf() && out@[m2].adj_pvalue.pair()
                    == adj0@[m2].pair() && out@[m2].adj_pvalue_up.pair() == adj1@[m2].pair()
                    && out@[m2].adj_pvalue_down.pair() == adj2@[m2].pair(),
        decreases rows@.len() - m,
    {
        let r = &rows[m];
        out.push(
            ConsensusRow {
                pert: copy_bytes(&r.pert),
                count_significant: big_clone(&r.count_significant),
                count_insignificant: big_clone(&r.count_insignificant),
                count_up_significant: big_clone(&r.count_up_significant),
                approved: r.approved,
                odds: r.odds.clone_val(),
                pvalue: r.pvalue.clone_val(),
                adj_pvalue: adj0[m].clone_val(),
                odds_up: r.odds_up.clone_val(),
                pvalue_up: r.pvalue_up.clone_val(),
                adj_pvalue_up: adj1[m].clone_val(),
                odds_down: r.odds_down.clone_val(),
                pvalue_down: r.pvalue_down.clone_val(),
                adj_pvalue_down: adj2[m].clone_val(),
            },
        );
        m = m + 1;
    }
    out
}


/// The value of one consensus row.
#[verifier::ext_equal]
pub struct ConsV {
    pub pert: Seq<u8>,
    pub sig: nat,
    pub insig: nat,
    pub up: nat,
    pub approved: bool,
    pub odds: (nat, nat),
    pub pvalue: (nat, nat),
    pub adj_pvalue: (nat, nat),
    pub odds_up: (nat, nat),
    pub pvalue_up: (nat, nat),
    pub adj_pvalue_up: (nat, nat),
    pub odds_down: (nat, nat),
    pub pvalue_down: (nat, nat),
    pub adj_pvalue_down: (nat, nat),
}

/// The value of a consensus row.
pub open spec fn cv(r: ConsensusRow) -> ConsV {
    ConsV {
        pert: r.pert@,
        sig: big_nat(r.count_significant),
        insig: big_nat(r.count_insignificant),
        up: big_nat(r.count_up_significant),
        approved: r.approved,
        odds: r.odds.pair(),
        pvalue: r.pvalue.pair(),
        adj_pvalue: r.adj_pvalue.pair(),
        odds_up: r.odds_up.pair(),
        pvalue_up: r.pvalue_up.pair(),
        adj_pvalue_up: r.adj_pvalue_up.pair(),
        odds_down: r.odds_down.pair(),
        pvalue_down: r.pvalue_down.pair(),
        adj_pvalue_down: r.adj_pvalue_down.pair(),
    }
}

/// Some element of `s` has the value `x`.
pub open spec fn has_cons(s: Seq<ConsensusRow>, x: ConsV) -> bool {
    exists|j: int| 0 <= j < s.len() && cv(#[trigger] s[j]) == x
}

/// Strictly less as rationals.
pub open spec fn rlt_t(a: (nat, nat), b: (nat, nat)) -> bool {
    !rle_t(b, a)
}

/// The consensus row filter: the approval filter keeps approved agents;
/// a text filter keeps agents whose label carries the cleaned text, and
/// with a direction marker additionally those whose matching direction
/// is the more significant one; the agent filter keeps compound labels.
pub open spec fn keep_cons(
    row: ConsensusRow,
    f: Option<Seq<u8>>,
    fda: Option<bool>,
    ko: Option<bool>,
) -> bool {
    let fpass = match fda {
        Option::Some(true) => row.approved,
        _ => true,
    };
    let tpass = match f {
        Option::None => true,
        Option::Some(fv) => {
            let is_up = contains_bytes(fv, up_suffix());
            let is_down = contains_bytes(fv, down_suffix());
            contains_bytes(row.pert@, clean_of(fv)) && (if is_up {
                rlt_t(row.pvalue_up.pair(), row.pvalue_down.pair())
            } else if is_down {
                rlt_t(row.pvalue_down.pair(), row.pvalue_up.pair())
            } else {
                true
            })
        },
    };
    let kpass = match ko {
        Option::Some(true) => contains_bytes(row.pert@, seq![32u8]),
        _ => true,
    };
    fpass && tpass && kpass
}

/// The kept rows of the first `i`, in order.
pub open spec fn cons_upto(
    rows: Seq<ConsensusRow>,
    f: Option<Seq<u8>>,
    fda: Option<bool>,
    ko: Option<bool>,
    i: int,
) -> Seq<ConsV>
    decreases i,
{
    if i <= 0 {
        Seq::empty()
    } else {
        let pre = cons_upto(rows, f, fda, ko, i - 1);
        if keep_cons(rows[i - 1], f, fda, ko) {
            pre.push(cv(rows[i - 1]))
        } else {
            pre
        }
    }
}

/// The produced rows carry exactly the modelled values.
pub open spec fn cons_match(actual: Seq<ConsensusRow>, model: Seq<ConsV>) -> bool {
    actual.len() == model.len() && forall|l: int|
        0 <= l < actual.len() ==> cv(#[trigger] actual[l]) == model[l]
}

/// A value-preserving copy of a consensus row.
fn clone_cons(r: &ConsensusRow) -> (out: ConsensusRow)
    ensures
        cv(out) == cv(*r),
        out.pvalue.wf() == r.pvalue.wf(),
        out.pvalue_up.wf() == r.pvalue_up.wf(),
        out.pvalue_down.wf() == r.pvalue_down.wf(),
        out.odds.wf() == r.odds.wf(),
        out.odds_up.wf() == r.odds_up.wf(),
        out.odds_down.wf() == r.odds_down.wf(),
        out.adj_pvalue.wf() == r.adj_pvalue.wf(),
        out.adj_pvalue_up.wf() == r.adj_pvalue_up.wf(),
        out.adj_pvalue_down.wf() == r.adj_pvalue_down.wf(),
{
    let out = ConsensusRow {
        pert: copy_bytes(&r.pert),
        count_significant: big_clone(&r.count_significant),
        count_insignificant: big_clone(&r.count_insignificant),
        count_up_significant: big_clone(&r.count_up_significant),
        approved: r.approved,
        odds: r.odds.clone_val(),
        pvalue: r.pvalue.clone_val(),
        adj_pvalue: r.adj_pvalue.clone_val(),
        odds_up: r.odds_up.clone_val(),
        pvalue_up: r.pvalue_up.clone_val(),
        adj_pvalue_up: r.adj_pvalue_up.clone_val(),
        odds_down: r.odds_down.clone_val(),
        pvalue_down: r.pvalue_down.clone_val(),
        adj_pvalue_down: r.adj_pvalue_down.clone_val(),
    };
    proof {
        assert(cv(out) =~= cv(*r));
    }
    out
}

/// Applies the consensus row filters.
pub fn filter_consensus(
    rows: &Vec<ConsensusRow>,
    f: &Option<Vec<u8>>,
    fda: Option<bool>,
    ko: Option<bool>,
) -> (out: Vec<ConsensusRow>)
    requires
        forall|m: int| 0 <= m < rows@.len() ==> cons_wf(#[trigger] rows@[m]),
    ensures
        cons_match(
            out@,
            cons_upto(
                rows@,
                match f {
                    Option::None => Option::<Seq<u8>>::None,
                    Option::Some(fv) => Option::Some(fv@),
                },
                fda,
                ko,
                rows@.len() as int,
            ),
        ),
        forall|m: int| 0 <= m < out@.len() ==> cons_wf(#[trigger] out@[m]),
{
    let ghost fspec = match f {
        Option::None => Option::<Seq<u8>>::None,
        Option::Some(fv) => Option::Some(fv@),
    };
    let space: Vec<u8> = vec![32u8];
    let up: Vec<u8> = vec![32u8, 117u8, 112u8];
    let down: Vec<u8> = vec![32u8, 100u8, 111u8, 119u8, 110u8];
    proof {
        assert(space@ =~= seq![32u8]);
        assert(up@ =~= up_suffix());
        assert(down@ =~= down_suffix());
    }
    let mut out: Vec<ConsensusRow> = Vec::new();
    let mut m: usize = 0;
    while m < rows.len()
        invariant
            m <= rows@.len(),
            forall|m2: int| 0 <= m2 < rows@.len() ==> cons_wf(#[trigger] rows@[m2]),
            fspec == match f {
                Option::None => Option::<Seq<u8>>::None,
                Option::Some(fv) => Option::Some(fv@),
            },
            space@ == seq![32u8],
            up@ == up_suffix(),
            down@ == down_suffix(),
            cons_match(out@, cons_upto(rows@, fspec, fda, ko, m as int)),
            forall|m2: int| 0 <= m2 < out@.len() ==> cons_wf(#[trigger] out@[m2]),
        decreases rows@.len() - m,
    {
        let row = &rows[m];
        let fpass: bool = match fda {
            Option::Some(true) => row.approved,
            _ => true,
        };
        let tpass: bool = match f {
            Option::None => true,
            Option::Some(fv) => {
                let is_up = contains_sub(fv, &up);
                let is_down = contains_sub(fv, &down);
                let clean = clean_filter(fv);
                let mut keep = contains_sub(&row.pert, &clean);
                if keep {
                    if is_up {
                        keep = !row.pvalue_down.le(&row.pvalue_up);
                    } else if is_down {
                        keep = !row.pvalue_up.le(&row.pvalue_down);
                    }
                }
                keep
            },
        };
        let kpass: bool = match ko {
            Option::Some(true) => contains_sub(&row.pert, &space),
            _ => true,
        };
        if fpass && tpass && kpass {
            let ghost old_out = out@;
            out.push(clone_cons(row));
            proof {
                assert(keep_cons(rows@[m as int], fspec, fda, ko));
                let model = cons_upto(rows@, fspec, fda, ko, m + 1);
                assert forall|l: int| 0 <= l < out@.len() implies cv(#[trigger] out@[l])
                    == model[l] by {
                    if l < old_out.len() {
                        assert(out@[l] == old_out[l]);
                    }
                }
            }
        } else {
            proof {
                assert(!keep_cons(rows@[m as int], fspec, fda, ko));
            }
        }
        m = m + 1;
    }
    out
}

/// The six compared statistics of a row are well-formed rationals.
pub open spec fn cons_wf(r: ConsensusRow) -> bool {
    &&& r.odds.wf() && r.pvalue.wf() && r.odds_up.wf() && r.pvalue_up.wf() && r.odds_down.wf()
        && r.pvalue_down.wf()
    &&& r.adj_pvalue.wf() && r.adj_pvalue_up.wf() && r.adj_pvalue_down.wf()
}

/// The ranking order on consensus rows.
pub open spec fn cons_le(key: SortKey, a: ConsensusRow, b: ConsensusRow) -> bool {
    match key {
        SortKey::OddsRatio => rle_t(b.odds.pair(), a.odds.pair()),
        SortKey::OddsRatioUp => rle_t(b.odds_up.pair(), a.odds_up.pair()),
        SortKey::OddsRatioDown => rle_t(b.odds_down.pair(), a.odds_down.pair()),
        SortKey::PvalueUp => rle_t(a.pvalue_up.pair(), b.pvalue_up.pair()),
        SortKey::PvalueDown => rle_t(a.pvalue_down.pair(), b.pvalue_down.pair()),
        _ => rle_t(a.pvalue.pair(), b.pvalue.pair()),
    }
}

proof fn lemma_cons_le_trans(key: SortKey, a: ConsensusRow, b: ConsensusRow, c: ConsensusRow)
    requires
        cons_wf(a),
        cons_wf(b),
        cons_wf(c),
        cons_le(key, a, b),
        cons_le(key, b, c),
    ensures
        cons_le(key, a, c),
{
    match key {
        SortKey::OddsRatio => {
            crate::bh::lemma_rle_t_trans(c.odds.pair(), b.odds.pair(), a.odds.pair());
        },
        SortKey::OddsRatioUp => {
            crate::bh::lemma_rle_t_trans(c.odds_up.pair(), b.odds_up.pair(), a.odds_up.pair());
        },
        SortKey::OddsRatioDown => {
            crate::bh::lemma_rle_t_trans(
                c.odds_down.pair(),
                b.odds_down.pair(),
                a.odds_down.pair(),
            );
        },
        SortKey::PvalueUp => {
            crate::bh::lemma_rle_t_trans(
                a.pvalue_up.pair(),
                b.pvalue_up.pair(),
                c.pvalue_up.pair(),
            );
        },
        SortKey::PvalueDown => {
            crate::bh::lemma_rle_t_trans(
                a.pvalue_down.pair(),
                b.pvalue_down.pair(),
                c.pvalue_down.pair(),
            );
        },
        _ => {
            crate::bh::lemma_rle_t_trans(a.pvalue.pair(), b.pvalue.pair(), c.pvalue.pair());
        },
    }
}

fn exec_cons_le(key: SortKey, a: &ConsensusRow, b: &ConsensusRow) -> (r: bool)
    ensures
        r == cons_le(key, *a, *b),
{
    match key {
        SortKey::OddsRatio => b.odds.le(&a.odds),
        SortKey::OddsRatioUp => b.odds_up.le(&a.odds_up),
        SortKey::OddsRatioDown => b.odds_down.le(&a.odds_down),
        SortKey::PvalueUp => a.pvalue_up.le(&b.pvalue_up),
        SortKey::PvalueDown => a.pvalue_down.le(&b.pvalue_down),
        _ => a.pvalue.le(&b.pvalue),
    }
}

#[verifier::rlimit(100)]
proof fn lemma_cons_move_preserves(s1: Seq<ConsensusRow>, s2: Seq<ConsensusRow>, i: int, p: int)
    requires
        0 <= i < s1.len(),
        0 <= p <= i,
        s2 == s1.remove(i).insert(p, s1[i]),
    ensures
        s2.len() == s1.len(),
        forall|x: ConsV| has_cons(s1, x) <==> has_cons(s2, x),
        forall|j: int|
            0 <= j < s2.len() ==> exists|j2: int| 0 <= j2 < s1.len() && #[trigger] s2[j] == s1[j2],
{
    s1.remove_ensures(i);
    s1.remove(i).insert_ensures(p, s1[i]);
    assert forall|j: int| 0 <= j < s2.len() implies exists|j2: int|
        0 <= j2 < s1.len() && #[trigger] s2[j] == s1[j2] by {
        if j == p {
            assert(s2[j] == s1[i]);
        } else if j < p {
            assert(s2[j] == s1.remove(i)[j]);
            assert(s2[j] == s1[j]);
        } else {
            assert(s2[j] == s1.remove(i)[j - 1]);
            if j - 1 < i {
                assert(s2[j] == s1[j - 1]);
            } else {
                assert(s2[j] == s1[j]);
            }
        }
    }
    assert forall|x: ConsV| has_cons(s1, x) implies has_cons(s2, x) by {
        let j = choose|j: int| 0 <= j < s1.len() && cv(#[trigger] s1[j]) == x;
        if j == i {
            assert(cv(s2[p]) == x);
        } else if j < i {
            assert(s1.remove(i)[j] == s1[j]);
            if j < p {
                assert(cv(s2[j]) == x);
            } else {
                assert(s2[j + 1] == s1.remove(i)[j]);
                assert(cv(s2[j + 1]) == x);
            }
        } else {
            assert(s1.remove(i)[j - 1] == s1[j]);
            assert(s2[j] == s1.remove(i)[j - 1]);
            assert(cv(s2[j]) == x);
        }
    }
    assert forall|x: ConsV| has_cons(s2, x) implies has_cons(s1, x) by {
        let j = choose|j: int| 0 <= j < s2.len() && cv(#[trigger] s2[j]) == x;
        let j2 = choose|j2: int| 0 <= j2 < s1.len() && #[trigger] s2[j] == s1[j2];
        assert(cv(s1[j2]) == x);
    }
}

/// Sorts the consensus rows by the requested key (stable insertion
/// sort), preserving exactly the element values.
#[verifier::rlimit(100)]
#[verifier::spinoff_prover]
pub fn sort_consensus(v: &mut Vec<ConsensusRow>, key: SortKey)
    requires
        forall|j: int| 0 <= j < old(v)@.len() ==> cons_wf(#[trigger] old(v)@[j]),
    ensures
        final (v)@.len() == old(v)@.len(),
        final (v)@.to_multiset() == old(v)@.to_multiset(),
        forall|j: int| 0 <= j < final (v)@.len() ==> cons_wf(#[trigger] final (v)@[j]),
        forall|i1: int, i2: int|
            0 <= i1 < i2 < final (v)@.len() ==> cons_le(key, final (v)@[i1], final (v)@[i2]),
        forall|i: int| 0 <= i < final (v)@.len() ==> has_cons(old(v)@, cv(#[trigger] final (v)@[i])),
        forall|j: int| 0 <= j < old(v)@.len() ==> has_cons(final (v)@, cv(#[trigger] old(v)@[j])),
{
    let mut i: usize = 1;
    proof {
        assert forall|j: int| 0 <= j < v@.len() implies has_cons(v@, cv(#[trigger] v@[j])) by {
            assert(cv(v@[j]) == cv(v@[j]));
        }
    }
    while i < v.len()
        invariant
            1 <= i <= v@.len() || v@.len() == 0,
            v@.len() == old(v)@.len(),
            v@.to_multiset() == old(v)@.to_multiset(),
            forall|j: int| 0 <= j < v@.len() ==> cons_wf(#[trigger] v@[j]),
            forall|i1: int, i2: int| 0 <= i1 < i2 < i ==> cons_le(key, v@[i1], v@[i2]),
            forall|t: int| 0 <= t < v@.len() ==> has_cons(old(v)@, cv(#[trigger] v@[t])),
            forall|j: int| 0 <= j < old(v)@.len() ==> has_cons(v@, cv(#[trigger] old(v)@[j])),
        decreases v@.len() - i,
    {
        let mut p: usize = 0;
        while p < i && exec_cons_le(key, &v[p], &v[i])
            invariant
                p <= i < v@.len(),
                forall|t: int| 0 <= t < p ==> cons_le(key, v@[t], v@[i as int]),
            decreases i - p,
        {
            p = p + 1;
        }
        let ghost s1 = v@;
        if p < i {
            let x = v.remove(i);
            v.insert(p, x);
            proof {
                assert(v@ =~= s1.remove(i as int).insert(p as int, s1[i as int]));
                lemma_cons_move_preserves(s1, v@, i as int, p as int);
                crate::bits::lemma_move_to_multiset(s1, v@, i as int, p as int);
                s1.remove_ensures(i as int);
                s1.remove(i as int).insert_ensures(p as int, s1[i as int]);
                assert(!cons_le(key, s1[p as int], s1[i as int]));
                assert(cons_le(key, s1[i as int], s1[p as int]));
                assert forall|j: int| 0 <= j < v@.len() implies cons_wf(#[trigger] v@[j]) by {
                    let j2 = choose|j2: int| 0 <= j2 < s1.len() && #[trigger] v@[j] == s1[j2];
                }
                assert forall|i1: int, i2: int| 0 <= i1 < i2 < i + 1 implies cons_le(
                    key,
                    v@[i1],
                    v@[i2],
                ) by {
                    if i1 < p && i2 < p {
                        assert(v@[i1] == s1[i1] && v@[i2] == s1[i2]);
                    } else if i1 < p && i2 == p {
                        assert(v@[i1] == s1[i1] && v@[i2] == s1[i as int]);
                    } else if i1 < p && i2 > p {
                        assert(v@[i1] == s1[i1] && v@[i2] == s1[i2 - 1]);
                    } else if i1 == p && i2 > p {
                        assert(v@[i1] == s1[i as int] && v@[i2] == s1[i2 - 1]);
                        lemma_cons_le_trans(key, s1[i as int], s1[p as int], s1[i2 - 1]);
                    } else {
                        assert(v@[i1] == s1[i1 - 1] && v@[i2] == s1[i2 - 1]);
                    }
                }
                assert forall|t: int| 0 <= t < v@.len() implies has_cons(
                    old(v)@,
                    cv(#[trigger] v@[t]),
                ) by {
                    assert(has_cons(s1, cv(v@[t])));
                    let j2 = choose|j2: int| 0 <= j2 < s1.len() && cv(#[trigger] s1[j2]) == cv(
                        v@[t],
                    );
                    assert(has_cons(old(v)@, cv(s1[j2])));
                }
                assert forall|j: int| 0 <= j < old(v)@.len() implies has_cons(
                    v@,
                    cv(#[trigger] old(v)@[j]),
                ) by {
                    assert(has_cons(s1, cv(old(v)@[j])));
                }
            }
        } else {
            proof {
                assert forall|i1: int, i2: int| 0 <= i1 < i2 < i + 1 implies cons_le(
                    key,
                    v@[i1],
                    v@[i2],
                ) by {
                    if i2 == i as int {
                        assert(cons_le(key, v@[i1], v@[i as int]));
                    }
                }
            }
        }
        i = i + 1;
    }
}

} // verus!
