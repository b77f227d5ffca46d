//! The background index registry: a map from background identifier to its
//! index, supporting lazy, at-most-once construction. Each identifier
//! moves through absent, building, ready, and back to absent on eviction
//! or on a failed build. The surrounding runtime holds the registry under
//! a lock; the state machine here decides, and its contracts carry the
//! at-most-one-builder invariant.

use vstd::prelude::*;
use crate::catalog::BackgroundIndex;
use crate::columns::seq_has_u128;

verus! {

/// One registered background: being built, or ready and read-only.
pub enum Slot {
    Building,
    Ready(BackgroundIndex),
}

/// What a requester of an unbuilt background is told to do.
#[derive(PartialEq, Eq, Structural)]
pub enum BuildDecision {
    /// The identifier was absent: this requester builds.
    Start,
    /// Another requester is building: wait for it.
    Wait,
    /// The index is ready: read it.
    Read,
}

/// The registry of backgrounds plus the process-wide "latest" alias.
pub struct Registry {
    pub ids: Vec<u128>,
    pub slots: Vec<Slot>,
    pub latest: Option<u128>,
}

/// The ghost status of one identifier.
pub enum StatusV {
    Absent,
    Building,
    Ready(BackgroundIndex),
}

/// What one request does to an identifier's status: an absent background
/// is registered as building; any other status is left alone.
pub open spec fn begin_step(s: StatusV) -> StatusV {
    if s is Absent {
        StatusV::Building
    } else {
        s
    }
}

/// What one request is told: build an absent background, wait for a
/// building one, read a ready one.
pub open spec fn begin_decision(s: StatusV) -> BuildDecision {
    match s {
        StatusV::Absent => BuildDecision::Start,
        StatusV::Building => BuildDecision::Wait,
        StatusV::Ready(_) => BuildDecision::Read,
    }
}

impl Registry {
    /// One slot per identifier, identifiers distinct, ready indexes
    /// well-formed.
    pub open spec fn wf(self) -> bool {
        &&& self.ids@.len() == self.slots@.len()
        &&& forall|j1: int, j2: int| 0 <= j1 < j2 < self.ids@.len() ==> self.ids@[j1] != self.ids@[j2]
        &&& forall|j: int|
            0 <= j < self.slots@.len() ==> match #[trigger] self.slots@[j] {
                Slot::Building => true,
                Slot::Ready(ix) => ix.wf(),
            }
    }

    /// The identifier is registered (building or ready).
    pub open spec fn has_id(self, id: u128) -> bool {
        seq_has_u128(self.ids@, id)
    }

    /// The position of a registered identifier.
    pub open spec fn pos_of(self, id: u128) -> int {
        choose|j: int| 0 <= j < self.ids@.len() && self.ids@[j] == id
    }

    /// The status of an identifier.
    pub open spec fn status(self, id: u128) -> StatusV {
        if !self.has_id(id) {
            StatusV::Absent
        } else {
            match self.slots@[self.pos_of(id)] {
                Slot::Building => StatusV::Building,
                Slot::Ready(ix) => StatusV::Ready(ix),
            }
        }
    }

    /// An empty registry with no latest alias.
    pub fn new() -> (r: Registry)
        ensures
            r.wf(),
            forall|id: u128| r.status(id) is Absent,
            r.latest is None,
    {
        Registry { ids: Vec::new(), slots: Vec::new(), latest: None }
    }

    /// The registered position of `id`, if any.
    fn find(&self, id: u128) -> (r: Option<usize>)
        requires
            self.wf(),
        ensures
            match r {
                Some(j) => j < self.ids@.len() && self.ids@[j as int] == id && self.pos_of(id)
                    == j as int,
                None => !self.has_id(id),
            },
    {
        let mut j: usize = 0;
        while j < self.ids.len()
            invariant
                j <= self.ids@.len(),
                self.wf(),
                forall|t: int| 0 <= t < j ==> self.ids@[t] != id,
            decreases self.ids@.len() - j,
        {
            if self.ids[j] == id {
                proof {
                    assert(self.ids@[j as int] == id);
                    let p = self.pos_of(id);
                    if p != j as int {
                        assert(self.ids@[p] == self.ids@[j as int]);
                        assert(false);
                    }
                }
                return Some(j);
            }
            j = j + 1;
        }
        None
    }

    /// Whether the identifier is registered.
    pub fn contains(&self, id: u128) -> (r: bool)
        requires
            self.wf(),
        ensures
            r == self.has_id(id),
    {
        self.find(id).is_some()
    }

    /// A requester asks for `id`: exactly when it is absent, the slot is
    /// registered as building (visible to concurrent requesters as
    /// "exists, not yet ready") and this requester is told to build; a
    /// building slot tells it to wait; a ready slot tells it to read.
    pub fn begin_build(&mut self, id: u128) -> (d: BuildDecision)
        requires
            old(self).wf(),
        ensures
            final (self).wf(),
            d == begin_decision(old(self).status(id)),
            final (self).status(id) == begin_step(old(self).status(id)),
            forall|g: u128| g != id ==> final (self).status(g) == old(self).status(g),
            final (self).latest == old(self).latest,
            d != BuildDecision::Start ==> *final (self) == *old(self),
    {
        let found = self.find(id);
        match found {
            Some(j) => {
                let ghost pre = *self;
                match &self.slots[j] {
                    Slot::Building => BuildDecision::Wait,
                    Slot::Ready(_) => BuildDecision::Read,
                }
            },
            None => {
                let ghost pre = *self;
                self.ids.push(id);
                self.slots.push(Slot::Building);
                proof {
                    assert forall|j1: int, j2: int|
                        0 <= j1 < j2 < self.ids@.len() implies self.ids@[j1] != self.ids@[j2] by {
                        if j2 == self.ids@.len() - 1 {
                            assert(pre.ids@[j1] == self.ids@[j1]);
                            if self.ids@[j1] == id {
                                assert(pre.has_id(id));
                            }
                        }
                    }
                    assert(self.ids@[self.ids@.len() - 1] == id);
                    assert(self.has_id(id));
                    let p = self.pos_of(id);
                    if p != self.ids@.len() - 1 {
                        assert(pre.ids@[p] == id);
                        assert(pre.has_id(id));
                        assert(false);
                    }
                    assert(self.status(id) is Building);
                    assert forall|g: u128| g != id implies final (self).status(g) == pre.status(
                        g,
                    ) by {
                        if pre.has_id(g) {
                            let p2 = pre.pos_of(g);
                            assert(self.ids@[p2] == g);
                            assert(self.has_id(g));
                            let p3 = self.pos_of(g);
                            if p3 != p2 {
                                assert(self.ids@[p3] == g);
                                if p3 == self.ids@.len() - 1 {
                                    assert(g == id);
                                } else {
                                    assert(pre.ids@[p3] == g);
                                }
                                assert(false);
                            }
                            assert(self.slots@[p2] == pre.slots@[p2]);
                        } else {
                            if self.has_id(g) {
                                let p3 = self.pos_of(g);
                                assert(self.ids@[p3] == g);
                                if p3 < pre.ids@.len() {
                                    assert(pre.ids@[p3] == g);
                                    assert(false);
                                } else {
                                    assert(g == id);
                                    assert(false);
                                }
                            }
                        }
                    }
                }
                BuildDecision::Start
            },
        }
    }

    /// The builder hands in the finished index: the slot becomes ready,
    /// and this background becomes the process-wide latest alias. No
    /// reader can have observed the index before this point.
    pub fn finish_build(&mut self, id: u128, ix: BackgroundIndex)
        requires
            old(self).wf(),
            old(self).status(id) is Building,
            ix.wf(),
        ensures
            final (self).wf(),
            final (self).status(id) == StatusV::Ready(ix),
            forall|g: u128| g != id ==> final (self).status(g) == old(self).status(g),
            final (self).latest == Some(id),
    {
        let found = self.find(id);
        let ghost pre = *self;
        match found {
            Some(j) => {
                self.slots.set(j, Slot::Ready(ix));
                self.latest = Some(id);
                proof {
                    assert(self.ids@ == pre.ids@);
                    assert(self.has_id(id));
                    assert(self.pos_of(id) == pre.pos_of(id));
                    assert forall|g: u128| g != id implies final (self).status(g) == pre.status(
                        g,
                    ) by {
                        if pre.has_id(g) {
                            let p2 = pre.pos_of(g);
                            assert(self.pos_of(g) == p2);
                            assert(p2 != j as int);
                            assert(self.slots@[p2] == pre.slots@[p2]);
                        }
                    }
                }
            },
            None => {
                proof {
                    assert(false);
                }
            },
        }
    }

    /// A failed build returns the identifier to absent, so a later
    /// request may retry construction; no half-built entry stays visible.
    pub fn abort_build(&mut self, id: u128)
        requires
            old(self).wf(),
            old(self).status(id) is Building,
        ensures
            final (self).wf(),
            final (self).status(id) is Absent,
            forall|g: u128| g != id ==> final (self).status(g) == old(self).status(g),
            final (self).latest == old(self).latest,
    {
        let removed = self.remove(id);
    }

    /// Reads the ready index of an identifier.
    pub fn get_ready(&self, id: u128) -> (r: Option<&BackgroundIndex>)
        requires
            self.wf(),
        ensures
            match r {
                Some(ix) => self.status(id) == StatusV::Ready(*ix) && ix.wf(),
                None => !(self.status(id) is Ready),
            },
    {
        let found = self.find(id);
        match found {
            Some(j) => {
                match &self.slots[j] {
                    Slot::Ready(ix) => Some(ix),
                    Slot::Building => None,
                }
            },
            None => None,
        }
    }

    /// Evicts an identifier: afterwards it is absent, so the next request
    /// rebuilds it from scratch. Returns whether it was registered.
    pub fn remove(&mut self, id: u128) -> (r: bool)
        requires
            old(self).wf(),
        ensures
            final (self).wf(),
            r == old(self).has_id(id),
            final (self).status(id) is Absent,
            forall|g: u128| g != id ==> final (self).status(g) == old(self).status(g),
            final (self).latest == old(self).latest,
            !r ==> *final (self) == *old(self),
    {
        let found = self.find(id);
        let ghost pre = *self;
        match found {
            Some(j) => {
                self.ids.remove(j);
                self.slots.remove(j);
                proof {
                    pre.ids@.remove_ensures(j as int);
                    pre.slots@.remove_ensures(j as int);
                    assert forall|j1: int, j2: int|
                        0 <= j1 < j2 < self.ids@.len() implies self.ids@[j1] != self.ids@[j2] by {
                        let m1 = if j1 < j {
                            j1
                        } else {
                            j1 + 1
                        };
                        let m2 = if j2 < j {
                            j2
                        } else {
                            j2 + 1
                        };
                        assert(self.ids@[j1] == pre.ids@[m1]);
                        assert(self.ids@[j2] == pre.ids@[m2]);
                    }
                    if self.has_id(id) {
                        let p = self.pos_of(id);
                        let m = if p < j {
                            p
                        } else {
                            p + 1
                        };
                        assert(pre.ids@[m] == id);
                        assert(pre.ids@[j as int] == id);
                        assert(m == j as int);
                        assert(false);
                    }
                    assert forall|g: u128| g != id implies final (self).status(g) == pre.status(
                        g,
                    ) by {
                        if pre.has_id(g) {
                            let p2 = pre.pos_of(g);
                            assert(p2 != j as int);
                            let q = if p2 < j {
                                p2
                            } else {
                                p2 - 1
                            };
                            assert(self.ids@[q] == g);
                            assert(self.has_id(g));
                            let p3 = self.pos_of(g);
                            if p3 != q {
                                let m3 = if p3 < j {
                                    p3
                                } else {
                                    p3 + 1
                                };
                                assert(pre.ids@[m3] == g);
                                assert(m3 == p2);
                                assert(false);
                            }
                            assert(self.slots@[q] == pre.slots@[p2]);
                        } else {
                            if self.has_id(g) {
                                let p3 = self.pos_of(g);
                                let m3 = if p3 < j {
                                    p3
                                } else {
                                    p3 + 1
                                };
                                assert(pre.ids@[m3] == g);
                                assert(false);
                            }
                        }
                    }
                }
                true
            },
            None => false,
        }
    }
}

proof fn lemma_statuses_nonabsent(statuses: Seq<StatusV>, i: int)
    requires
        statuses.len() >= 1,
        statuses[0] is Absent,
        forall|j: int|
            0 <= j < statuses.len() - 1 ==> statuses[j + 1] == begin_step(#[trigger] statuses[j]),
        1 <= i < statuses.len(),
    ensures
        !(statuses[i] is Absent),
    decreases i,
{
    if i == 1 {
        assert(statuses[1] == begin_step(statuses[0]));
    } else {
        lemma_statuses_nonabsent(statuses, i - 1);
        assert(statuses[i] == begin_step(statuses[i - 1]));
    }
}

/// Concurrent first-access: any number of requests for one unbuilt
/// background, each taking its turn under the registry's exclusive lock,
/// produce exactly one construction pass. `statuses[j]` is the
/// identifier's status seen by request `j`, and each request transforms
/// the status and receives the decision that `begin_build` guarantees:
/// only the first request is told to build, every later one is told to
/// wait or to read.
pub proof fn lemma_concurrent_first_access(statuses: Seq<StatusV>, decisions: Seq<BuildDecision>)
    requires
        statuses.len() == decisions.len() + 1,
        decisions.len() >= 1,
        statuses[0] is Absent,
        forall|j: int|
            0 <= j < decisions.len() ==> #[trigger] decisions[j] == begin_decision(statuses[j]),
        forall|j: int|
            0 <= j < decisions.len() ==> statuses[j + 1] == begin_step(#[trigger] statuses[j]),
    ensures
        decisions[0] == BuildDecision::Start,
        forall|j: int| 1 <= j < decisions.len() ==> decisions[j] != BuildDecision::Start,
{
    assert forall|j: int| 1 <= j < decisions.len() implies decisions[j]
        != BuildDecision::Start by {
        lemma_statuses_nonabsent(statuses, j);
    }
}

/// Eviction: `remove` leaves the identifier absent, and an absent
/// identifier is exactly what the next request is told to rebuild from
/// scratch.
pub proof fn lemma_eviction_rebuilds(r: Registry, id: u128)
    requires
        r.wf(),
        r.status(id) is Absent,
    ensures
        begin_decision(r.status(id)) == BuildDecision::Start,
{
}

} // verus!
