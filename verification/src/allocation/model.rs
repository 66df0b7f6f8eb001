//! The mathematical model of the replica-placement engine.
//!
//! A state records, for every site, a vote counter and a mode, together with
//! the set of sites that currently hold a replica and the largest size that
//! set has had. Requests move the state forward through [`AllocationState::step`],
//! which also yields the cost charged for the request.

use vstd::prelude::*;

verus! {

/// Mode of a site.
///
/// `Waiting` marks the sole surviving replica: it is kept until another site
/// is promoted, however far its counter has decayed.
#[derive(Debug, Clone, Copy, PartialEq, Eq, Structural)]
pub enum CounterState {
    Normal,
    Waiting,
}

/// One request for the object, tagged with the site that issues it.
#[derive(Debug, Clone, Copy, PartialEq, Eq, Structural)]
pub enum Request {
    Read(usize),
    Write(usize),
}

impl Request {
    /// The site that issues the request.
    pub open spec fn site(self) -> int {
        match self {
            Request::Read(page) => page as int,
            Request::Write(page) => page as int,
        }
    }

    /// Tags `page` with the outcome of a coin flip: a write when `write` is
    /// set, a read otherwise.
    pub fn new_random_request(write: bool, page: usize) -> (request: Request)
        ensures
            request == (if write {
                Request::Write(page)
            } else {
                Request::Read(page)
            }),
    {
        if write {
            Request::Write(page)
        } else {
            Request::Read(page)
        }
    }
}

/// State of the engine, seen mathematically.
#[verifier::ext_equal]
pub struct AllocationState {
    /// Votes a site outside the replica set needs before it is promoted.
    pub threshold: nat,
    /// Vote counter of each site.
    pub counters: Seq<nat>,
    /// Mode of each site.
    pub modes: Seq<CounterState>,
    /// Sites that hold a replica.
    pub copies: Set<int>,
    /// Largest size the replica set has had.
    pub max_copies: nat,
}

impl AllocationState {
    /// Number of sites.
    pub open spec fn nodes(self) -> nat {
        self.counters.len()
    }

    /// Whether `site` names one of the sites.
    pub open spec fn valid_site(self, site: int) -> bool {
        0 <= site < self.nodes()
    }

    /// The state an engine starts in: site 0 holds the only replica and is
    /// `Waiting`, every counter is zero.
    pub open spec fn initial(nodes: nat, threshold: nat) -> AllocationState {
        AllocationState {
            threshold,
            counters: Seq::new(nodes, |i: int| 0nat),
            modes: Seq::new(
                nodes,
                |i: int|
                    if i == 0 {
                        CounterState::Waiting
                    } else {
                        CounterState::Normal
                    },
            ),
            copies: set![0int],
            max_copies: 1,
        }
    }

    /// Whether `site` holds a replica and is `Waiting`.
    pub open spec fn is_waiting_copy(self, site: int) -> bool {
        &&& self.valid_site(site)
        &&& self.copies.contains(site)
        &&& self.modes[site] == CounterState::Waiting
    }

    /// Whether some replica is `Waiting`.
    pub open spec fn has_waiting_copy(self) -> bool {
        exists|site: int| self.is_waiting_copy(site)
    }

    /// The lowest-numbered `Waiting` replica among the sites below `upto`,
    /// leaving `skip` aside.
    pub open spec fn waiting_copy_below(self, skip: int, upto: int) -> Option<int>
        decreases upto,
    {
        if upto <= 0 {
            None
        } else {
            match self.waiting_copy_below(skip, upto - 1) {
                Some(site) => Some(site),
                None => if upto - 1 != skip && self.is_waiting_copy(upto - 1) {
                    Some(upto - 1)
                } else {
                    None
                },
            }
        }
    }

    /// The replica set is finite, holds sites only, and has between one and
    /// `nodes` members.
    pub open spec fn copies_bounded(self) -> bool {
        &&& self.copies.finite()
        &&& forall|site: int| #[trigger] self.copies.contains(site) ==> self.valid_site(site)
        &&& 1 <= self.copies.len() <= self.nodes()
    }

    /// No counter exceeds the threshold.
    pub open spec fn counters_bounded(self) -> bool {
        forall|site: int| self.valid_site(site) ==> #[trigger] self.counters[site] <= self.threshold
    }

    /// A `Waiting` site is the only member of the replica set.
    pub open spec fn waiting_is_sole_copy(self) -> bool {
        forall|site: int|
            self.valid_site(site) && #[trigger] self.modes[site] == CounterState::Waiting
                ==> self.copies == set![site]
    }

    /// At most one site is `Waiting`.
    pub open spec fn one_waiting_at_most(self) -> bool {
        forall|a: int, b: int|
            self.valid_site(a) && self.valid_site(b) && #[trigger] self.modes[a]
                == CounterState::Waiting && #[trigger] self.modes[b] == CounterState::Waiting ==> a
                == b
    }

    /// A `Waiting` site has no votes left.
    pub open spec fn waiting_is_drained(self) -> bool {
        forall|site: int|
            self.valid_site(site) && #[trigger] self.modes[site] == CounterState::Waiting
                ==> self.counters[site] == 0
    }

    /// A site outside the replica set has fewer votes than the threshold.
    pub open spec fn outsiders_short_of_threshold(self) -> bool {
        forall|site: int|
            self.valid_site(site) && !self.copies.contains(site) ==> #[trigger] self.counters[site]
                < self.threshold
    }

    /// What holds of every state an engine can reach.
    pub open spec fn inv(self) -> bool {
        &&& self.threshold >= 1
        &&& self.modes.len() == self.counters.len()
        &&& self.copies_bounded()
        &&& self.counters_bounded()
        &&& self.waiting_is_sole_copy()
        &&& self.waiting_is_drained()
        &&& self.outsiders_short_of_threshold()
        &&& self.copies.len() <= self.max_copies <= self.nodes()
    }

    /// The state with one more vote for `site`.
    pub open spec fn bump(self, site: int) -> AllocationState {
        AllocationState { counters: self.counters.update(site, self.counters[site] + 1), ..self }
    }

    /// Whether the rules allow `site` to be promoted: its counter is full and
    /// it holds no replica yet.
    pub open spec fn may_promote(self, site: int) -> bool {
        &&& self.valid_site(site)
        &&& self.counters[site] == self.threshold
        &&& !self.copies.contains(site)
    }

    /// Promotion of `site`: it joins the replica set, the peak is raised to
    /// the size reached, and then one other `Waiting` replica, if there is
    /// one, is evicted and becomes `Normal`.
    pub open spec fn promote(self, site: int) -> AllocationState {
        let grown = self.copies.insert(site);
        let peak = if grown.len() > self.max_copies {
            grown.len()
        } else {
            self.max_copies
        };
        match self.waiting_copy_below(site, self.nodes() as int) {
            Some(victim) => AllocationState {
                copies: grown.remove(victim),
                modes: self.modes.update(victim, CounterState::Normal),
                max_copies: peak,
                ..self
            },
            None => AllocationState { copies: grown, max_copies: peak, ..self },
        }
    }

    /// A read issued by `site`, with its cost.
    ///
    /// A hit is free and changes nothing. A miss costs 1 and adds a vote
    /// unless the counter is full; a counter that is then full promotes the
    /// site, for `threshold` more.
    pub open spec fn read(self, site: int) -> (AllocationState, nat) {
        if self.copies.contains(site) {
            (self, 0)
        } else {
            let voted = if self.counters[site] < self.threshold {
                self.bump(site)
            } else {
                self
            };
            if voted.counters[site] == voted.threshold {
                (voted.promote(site), 1 + self.threshold)
            } else {
                (voted, 1)
            }
        }
    }

    /// Decay of `site` after a write elsewhere.
    ///
    /// Only replicas decay. A replica loses one vote; once it has none it is
    /// evicted and becomes `Normal`, unless it is the last replica, which
    /// stays and becomes `Waiting`.
    pub open spec fn decay_site(self, site: int) -> AllocationState {
        if !self.copies.contains(site) {
            self
        } else {
            let left: nat = if self.counters[site] > 0 {
                (self.counters[site] - 1) as nat
            } else {
                0
            };
            let drained = AllocationState { counters: self.counters.update(site, left), ..self };
            if left > 0 {
                drained
            } else if self.copies.len() > 1 {
                AllocationState {
                    copies: self.copies.remove(site),
                    modes: self.modes.update(site, CounterState::Normal),
                    ..drained
                }
            } else {
                AllocationState {
                    modes: self.modes.update(site, CounterState::Waiting),
                    ..drained
                }
            }
        }
    }

    /// The decay pass of a write by `written`, carried out for the sites
    /// below `upto` in ascending order.
    pub open spec fn decay_below(self, written: int, upto: int) -> AllocationState
        decreases upto,
    {
        if upto <= 0 {
            self
        } else {
            let before = self.decay_below(written, upto - 1);
            if upto - 1 == written {
                before
            } else {
                before.decay_site(upto - 1)
            }
        }
    }

    /// The first part of a write issued by `site`, before the other sites
    /// decay, with the cost of the write.
    ///
    /// With `c` replicas before the write, a replica pays `c - 1` and any
    /// other site `c`. A site without a replica gains a vote only while the
    /// single replica is `Waiting`; a counter that is then full promotes the
    /// site, for `threshold` more.
    pub open spec fn write_served(self, site: int) -> (AllocationState, nat) {
        let c = self.copies.len();
        if self.copies.contains(site) {
            (
                self,
                if c >= 1 {
                    (c - 1) as nat
                } else {
                    0
                },
            )
        } else {
            let voted = if c == 1 && self.has_waiting_copy() && self.counters[site]
                < self.threshold {
                self.bump(site)
            } else {
                self
            };
            if voted.counters[site] == voted.threshold {
                (voted.promote(site), c + self.threshold)
            } else {
                (voted, c)
            }
        }
    }

    /// A write issued by `site`, with its cost: the write is served as
    /// [`Self::write_served`] says, and every other site decays afterwards.
    pub open spec fn write(self, site: int) -> (AllocationState, nat) {
        let served = self.write_served(site);
        (served.0.decay_below(site, self.nodes() as int), served.1)
    }

    /// The state after `request`, with the cost of serving it.
    pub open spec fn step(self, request: Request) -> (AllocationState, nat) {
        match request {
            Request::Read(page) => self.read(page as int),
            Request::Write(page) => self.write(page as int),
        }
    }

    /// The state after a whole stream of requests, with the cost of each.
    pub open spec fn run(self, requests: Seq<Request>) -> (AllocationState, Seq<nat>)
        decreases requests.len(),
    {
        if requests.len() == 0 {
            (self, Seq::empty())
        } else {
            let before = self.run(requests.drop_last());
            let last = before.0.step(requests.last());
            (last.0, before.1.push(last.1))
        }
    }

    /// Whether every request of the stream names one of the sites.
    pub open spec fn accepts(self, requests: Seq<Request>) -> bool {
        forall|i: int| 0 <= i < requests.len() ==> self.valid_site(#[trigger] requests[i].site())
    }
}

/// Sum of a sequence of costs.
pub open spec fn total(costs: Seq<nat>) -> nat
    decreases costs.len(),
{
    if costs.len() == 0 {
        0
    } else {
        total(costs.drop_last()) + costs.last()
    }
}

} // verus!
