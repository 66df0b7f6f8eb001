//! The executable replica-placement engine.

use vstd::prelude::*;
use vstd::set_lib::{lemma_int_range, lemma_len_subset, set_int_range};
use crate::allocation::laws::{lemma_initial_inv, lemma_step_inv, lemma_waiting_copy_below};
use crate::allocation::model::{AllocationState, CounterState, Request};

verus! {

/// Number of sites of an engine built with [`PageAllocation::new`].
pub const NODES: usize = 64;

/// Why the engine refused a construction or a request.
#[derive(Debug, Clone, Copy, PartialEq, Eq, Structural)]
pub enum AllocationError {
    /// The threshold is below 1, or there is no site at all.
    Configuration,
    /// A request names a site that does not exist.
    InvalidSite,
}

/// Replica placement for one object over a fixed number of sites.
pub struct PageAllocation {
    /// Vote counter of each site.
    counters: Vec<u64>,
    /// Mode of each site.
    modes: Vec<CounterState>,
    /// Whether each site holds a replica.
    held: Vec<bool>,
    /// Number of replicas.
    copies: usize,
    /// Votes needed for promotion.
    threshold: u64,
    /// Largest number of replicas seen.
    max_copies: usize,
}

impl View for PageAllocation {
    type V = AllocationState;

    closed spec fn view(&self) -> AllocationState {
        AllocationState {
            threshold: self.threshold as nat,
            counters: Seq::new(self.counters.len() as nat, |site: int| self.counters[site] as nat),
            modes: self.modes@,
            copies: Set::new(|site: int| 0 <= site < self.held.len() && self.held[site]),
            max_copies: self.max_copies as nat,
        }
    }
}

impl PageAllocation {
    /// The three per-site tables have one entry per site, the replica count
    /// is the size of the replica set, and no cost can overflow.
    pub closed spec fn consistent(&self) -> bool {
        &&& self.modes.len() == self.counters.len()
        &&& self.held.len() == self.counters.len()
        &&& self.copies == self@.copies.len()
        &&& self.threshold + self.counters.len() <= u64::MAX
    }

    /// Well-formedness: the representation is consistent and the state
    /// satisfies the invariant of the model.
    pub open spec fn wf(&self) -> bool {
        &&& self.consistent()
        &&& self@.inv()
    }

    /// The replica set of any engine is finite and holds sites only.
    proof fn lemma_copies_are_sites(&self)
        requires
            self.held.len() == self.counters.len(),
        ensures
            self@.copies.finite(),
            self@.copies.len() <= self@.nodes(),
            forall|site: int| #[trigger] self@.copies.contains(site) ==> self@.valid_site(site),
    {
        let sites = set_int_range(0, self.held.len() as int);
        lemma_int_range(0, self.held.len() as int);
        assert(self@.copies.subset_of(sites));
        lemma_len_subset(self@.copies, sites);
    }

    /// Builds an engine over `nodes` sites.
    ///
    /// Site 0 holds the only replica and is `Waiting`; every counter is zero.
    /// A threshold below 1 and an empty set of sites are refused.
    pub fn with_nodes(nodes: usize, threshold: u64) -> (built: Result<PageAllocation, AllocationError>)
        requires
            threshold + nodes <= u64::MAX,
        ensures
            match built {
                Ok(engine) => {
                    &&& nodes >= 1
                    &&& threshold >= 1
                    &&& engine.wf()
                    &&& engine@ == AllocationState::initial(nodes as nat, threshold as nat)
                },
                Err(error) => error == AllocationError::Configuration && (nodes < 1 || threshold
                    < 1),
            },
    {
        if nodes < 1 || threshold < 1 {
            return Err(AllocationError::Configuration);
        }
        let mut counters: Vec<u64> = Vec::new();
        let mut modes: Vec<CounterState> = Vec::new();
        let mut held: Vec<bool> = Vec::new();
        counters.push(0);
        modes.push(CounterState::Waiting);
        held.push(true);
        let mut site: usize = 1;
        while site < nodes
            invariant
                1 <= site <= nodes,
                counters.len() == site,
                modes.len() == site,
                held.len() == site,
                forall|i: int| 0 <= i < site ==> counters[i] == 0,
                forall|i: int| 0 <= i < site ==> held[i] == (i == 0),
                forall|i: int| 0 <= i < site ==> modes[i] == (if i == 0 {
                    CounterState::Waiting
                } else {
                    CounterState::Normal
                }),
            decreases nodes - site,
        {
            counters.push(0);
            modes.push(CounterState::Normal);
            held.push(false);
            site += 1;
        }
        let engine = PageAllocation { counters, modes, held, copies: 1, threshold, max_copies: 1 };
        proof {
            let first = AllocationState::initial(nodes as nat, threshold as nat);
            assert(engine@.copies =~= first.copies);
            assert(engine@.counters =~= first.counters);
            assert(engine@.modes =~= first.modes);
            assert(engine@ =~= first);
            lemma_initial_inv(nodes as nat, threshold as nat);
        }
        Ok(engine)
    }

    /// Builds an engine over [`NODES`] sites.
    pub fn new(threshold: u64) -> (built: Result<PageAllocation, AllocationError>)
        requires
            threshold + NODES <= u64::MAX,
        ensures
            match built {
                Ok(engine) => {
                    &&& threshold >= 1
                    &&& engine.wf()
                    &&& engine@ == AllocationState::initial(NODES as nat, threshold as nat)
                },
                Err(error) => error == AllocationError::Configuration && threshold < 1,
            },
    {
        PageAllocation::with_nodes(NODES, threshold)
    }

    /// Serves one request and returns its cost.
    ///
    /// A request for a site that does not exist is refused and leaves the
    /// engine as it was.
    pub fn process_request(&mut self, request: &Request) -> (served: Result<u64, AllocationError>)
        requires
            old(self).wf(),
        ensures
            final(self).wf(),
            match served {
                Ok(cost) => {
                    &&& old(self)@.valid_site(request.site())
                    &&& final(self)@ == old(self)@.step(*request).0
                    &&& cost == old(self)@.step(*request).1
                },
                Err(error) => {
                    &&& error == AllocationError::InvalidSite
                    &&& !old(self)@.valid_site(request.site())
                    &&& final(self)@ == old(self)@
                },
            },
    {
        match request {
            Request::Read(page) => {
                if *page < self.counters.len() {
                    Ok(self.process_read(*page))
                } else {
                    Err(AllocationError::InvalidSite)
                }
            },
            Request::Write(page) => {
                if *page < self.counters.len() {
                    Ok(self.process_write(*page))
                } else {
                    Err(AllocationError::InvalidSite)
                }
            },
        }
    }

    /// Number of sites.
    pub fn nodes(&self) -> (nodes: usize)
        ensures
            nodes == self@.nodes(),
    {
        self.counters.len()
    }

    /// Votes a site outside the replica set needs before it is promoted.
    pub fn threshold(&self) -> (threshold: u64)
        ensures
            threshold == self@.threshold,
    {
        self.threshold
    }

    /// Number of replicas.
    pub fn copy_count(&self) -> (count: usize)
        requires
            self.wf(),
        ensures
            count == self@.copies.len(),
            1 <= count <= self@.nodes(),
    {
        self.copies
    }

    /// Whether `page` holds a replica. A site that does not exist holds none.
    pub fn has_copy(&self, page: usize) -> (held: bool)
        ensures
            held == self@.copies.contains(page as int),
    {
        page < self.held.len() && self.held[page]
    }

    /// The vote counter of `page`, if the site exists.
    pub fn count(&self, page: usize) -> (votes: Option<u64>)
        ensures
            match votes {
                Some(held) => self@.valid_site(page as int) && held == self@.counters[page as int],
                None => !self@.valid_site(page as int),
            },
    {
        if page < self.counters.len() {
            Some(self.counters[page])
        } else {
            None
        }
    }

    /// The mode of `page`, if the site exists.
    pub fn state(&self, page: usize) -> (mode: Option<CounterState>)
        requires
            self.wf(),
        ensures
            mode == (if self@.valid_site(page as int) {
                Some(self@.modes[page as int])
            } else {
                None
            }),
    {
        if page < self.modes.len() {
            Some(self.modes[page])
        } else {
            None
        }
    }

    /// The largest number of replicas the object has had.
    pub fn max_copies(&self) -> (peak: usize)
        ensures
            peak == self@.max_copies,
            self.wf() ==> 1 <= peak <= self@.nodes(),
    {
        self.max_copies
    }

    /// A read by `page`: a miss costs 1 and adds a vote unless the counter is
    /// full; a counter that is then full promotes the site.
    fn process_read(&mut self, page: usize) -> (cost: u64)
        requires
            old(self).wf(),
            old(self)@.valid_site(page as int),
        ensures
            final(self).wf(),
            final(self)@ == old(self)@.read(page as int).0,
            cost == old(self)@.read(page as int).1,
    {
        proof {
            lemma_step_inv(self@, Request::Read(page));
        }
        let mut cost: u64 = 0;
        if !self.held[page] {
            cost += 1;
            if self.counters[page] < self.threshold {
                self.vote(page);
            }
            if self.counters[page] == self.threshold {
                cost += self.add_copy(page);
            }
        }
        cost
    }

    /// A write by `page`: it is propagated to every other replica, may add a
    /// vote and promote the site, and then makes every other site decay.
    fn process_write(&mut self, page: usize) -> (cost: u64)
        requires
            old(self).wf(),
            old(self)@.valid_site(page as int),
        ensures
            final(self).wf(),
            final(self)@ == old(self)@.write(page as int).0,
            cost == old(self)@.write(page as int).1,
    {
        proof {
            lemma_step_inv(self@, Request::Write(page));
            self.lemma_copies_are_sites();
        }
        let current_copies: u64 = self.copies as u64;
        let mut cost: u64 = 0;
        if self.held[page] {
            cost += current_copies - 1;
        } else {
            cost += current_copies;
            if current_copies == 1 && self.counters[page] < self.threshold {
                let waiting = self.find_waiting(page);
                proof {
                    lemma_waiting_copy_below(self@, page as int, self@.nodes() as int);
                    if waiting.is_some() {
                        assert(self@.is_waiting_copy(waiting.unwrap() as int));
                    }
                }
                if waiting.is_some() {
                    self.vote(page);
                }
            }
            if self.counters[page] == self.threshold {
                cost += self.add_copy(page);
            }
        }
        let ghost served = self@;
        let nodes = self.counters.len();
        let mut other: usize = 0;
        while other < nodes
            invariant
                other <= nodes,
                nodes == served.nodes(),
                self.consistent(),
                self@ == served.decay_below(page as int, other as int),
                self@.nodes() == nodes,
            decreases nodes - other,
        {
            if other != page {
                self.process_write_by_another_page(other);
            }
            other += 1;
        }
        cost
    }

    /// Decay of `page` after a write elsewhere: a replica loses a vote, and
    /// one without votes is evicted unless it is the last, which waits.
    fn process_write_by_another_page(&mut self, page: usize)
        requires
            old(self).consistent(),
            old(self)@.valid_site(page as int),
        ensures
            final(self).consistent(),
            final(self)@ == old(self)@.decay_site(page as int),
    {
        proof {
            self.lemma_copies_are_sites();
        }
        if self.held[page] {
            if self.counters[page] > 0 {
                let left = self.counters[page] - 1;
                self.counters.set(page, left);
            }
            if self.counters[page] == 0 {
                if self.copies > 1 {
                    self.held.set(page, false);
                    self.copies -= 1;
                    self.modes.set(page, CounterState::Normal);
                    proof {
                        assert(self@.copies =~= old(self)@.copies.remove(page as int));
                    }
                } else {
                    self.modes.set(page, CounterState::Waiting);
                    proof {
                        assert(self@.copies =~= old(self)@.copies);
                    }
                }
            } else {
                proof {
                    assert(self@.copies =~= old(self)@.copies);
                }
            }
            proof {
                assert(self@.counters =~= old(self)@.decay_site(page as int).counters);
                assert(self@ =~= old(self)@.decay_site(page as int));
            }
        }
    }

    /// Promotion of `page`, at the cost of `threshold`: it joins the replica
    /// set, the peak follows, and one other `Waiting` replica is evicted.
    ///
    /// Only a site with a full counter and without a replica is promoted.
    fn add_copy(&mut self, page: usize) -> (cost: u64)
        requires
            old(self).consistent(),
            old(self)@.may_promote(page as int),
        ensures
            final(self).consistent(),
            final(self)@ == old(self)@.promote(page as int),
            cost == old(self)@.threshold,
    {
        let victim = self.find_waiting(page);
        self.held.set(page, true);
        proof {
            lemma_waiting_copy_below(old(self)@, page as int, old(self)@.nodes() as int);
            assert(self@.copies =~= old(self)@.copies.insert(page as int));
            old(self).lemma_copies_are_sites();
            self.lemma_copies_are_sites();
        }
        self.copies += 1;
        if self.copies > self.max_copies {
            self.max_copies = self.copies;
        }
        if let Some(evicted) = victim {
            self.held.set(evicted, false);
            self.copies -= 1;
            self.modes.set(evicted, CounterState::Normal);
            proof {
                assert(self@.copies =~= old(self)@.copies.insert(page as int).remove(
                    evicted as int,
                ));
            }
        }
        proof {
            assert(self@.counters =~= old(self)@.promote(page as int).counters);
            assert(self@ =~= old(self)@.promote(page as int));
        }
        self.threshold
    }

    /// One more vote for `page`.
    fn vote(&mut self, page: usize)
        requires
            old(self).consistent(),
            old(self)@.valid_site(page as int),
            old(self)@.counters[page as int] < old(self)@.threshold,
        ensures
            final(self).consistent(),
            final(self)@ == old(self)@.bump(page as int),
    {
        let raised = self.counters[page] + 1;
        self.counters.set(page, raised);
        proof {
            assert(self@.copies =~= old(self)@.copies);
            assert(self@.counters =~= old(self)@.bump(page as int).counters);
            assert(self@ =~= old(self)@.bump(page as int));
        }
    }

    /// The lowest-numbered `Waiting` replica other than `skip`, if any.
    fn find_waiting(&self, skip: usize) -> (found: Option<usize>)
        requires
            self.consistent(),
        ensures
            match found {
                Some(site) => self@.waiting_copy_below(skip as int, self@.nodes() as int) == Some(
                    site as int,
                ),
                None => self@.waiting_copy_below(skip as int, self@.nodes() as int).is_none(),
            },
    {
        let nodes = self.counters.len();
        let mut site: usize = 0;
        while site < nodes
            invariant
                site <= nodes,
                nodes == self@.nodes(),
                self.consistent(),
                self@.waiting_copy_below(skip as int, site as int).is_none(),
            decreases nodes - site,
        {
            if site != skip && self.held[site] && self.modes[site] == CounterState::Waiting {
                proof {
                    self.lemma_found_stays(skip as int, site as int + 1, nodes as int);
                }
                return Some(site);
            }
            site += 1;
        }
        None
    }

    /// A `Waiting` replica found below `upto` is still the one found below
    /// any later bound.
    proof fn lemma_found_stays(&self, skip: int, upto: int, later: int)
        requires
            upto <= later,
            self@.waiting_copy_below(skip, upto).is_some(),
        ensures
            self@.waiting_copy_below(skip, later) == self@.waiting_copy_below(skip, upto),
        decreases later - upto,
    {
        if upto < later {
            self.lemma_found_stays(skip, upto, later - 1);
        }
    }
}

} // verus!
