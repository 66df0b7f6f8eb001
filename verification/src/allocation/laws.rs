//! Invariants of the replica-placement model, proved for every request.

use vstd::prelude::*;
use vstd::set_lib::{lemma_int_range, lemma_len_subset, set_int_range};
use crate::allocation::model::{AllocationState, CounterState, Request};

verus! {

/// A finite set with one member is the set of that member.
proof fn lemma_sole_member(copies: Set<int>, site: int)
    requires
        copies.finite(),
        copies.len() == 1,
        copies.contains(site),
    ensures
        copies == set![site],
{
    assert(copies.remove(site).len() == 0);
}

/// A finite set of sites has at most as many members as there are sites.
proof fn lemma_copies_fit(copies: Set<int>, nodes: nat)
    requires
        forall|site: int| copies.contains(site) ==> 0 <= site < nodes,
    ensures
        copies.finite(),
        copies.len() <= nodes,
{
    lemma_int_range(0, nodes as int);
    lemma_len_subset(copies, set_int_range(0, nodes as int));
}

/// What the search for a `Waiting` replica finds: the lowest-numbered one
/// below `upto` other than `skip`, or nothing when there is none.
pub proof fn lemma_waiting_copy_below(state: AllocationState, skip: int, upto: int)
    ensures
        match state.waiting_copy_below(skip, upto) {
            Some(found) => {
                &&& 0 <= found < upto
                &&& found != skip
                &&& state.is_waiting_copy(found)
                &&& forall|site: int|
                    0 <= site < found && site != skip ==> !state.is_waiting_copy(site)
            },
            None => forall|site: int|
                0 <= site < upto && site != skip ==> !state.is_waiting_copy(site),
        },
    decreases upto,
{
    if upto > 0 {
        lemma_waiting_copy_below(state, skip, upto - 1);
    }
}

/// A freshly built state satisfies the invariant.
pub proof fn lemma_initial_inv(nodes: nat, threshold: nat)
    requires
        nodes >= 1,
        threshold >= 1,
    ensures
        AllocationState::initial(nodes, threshold).inv(),
{
}

/// In a state that satisfies the invariant, at most one site is `Waiting`.
pub proof fn lemma_one_waiting_at_most(state: AllocationState)
    requires
        state.inv(),
    ensures
        state.one_waiting_at_most(),
{
    assert forall|a: int, b: int|
        state.valid_site(a) && state.valid_site(b) && #[trigger] state.modes[a]
            == CounterState::Waiting && #[trigger] state.modes[b]
            == CounterState::Waiting implies a == b by {
        assert(set![a].contains(a));
    }
}

/// Promotion of a site whose counter has just become full keeps the
/// invariant, and leaves no site `Waiting`.
pub proof fn lemma_promote_inv(state: AllocationState, site: int)
    requires
        state.inv(),
        state.valid_site(site),
        !state.copies.contains(site),
        state.counters[site] + 1 == state.threshold,
    ensures
        state.bump(site).may_promote(site),
        state.bump(site).promote(site).inv(),
        state.bump(site).promote(site).nodes() == state.nodes(),
        state.bump(site).promote(site).threshold == state.threshold,
        state.bump(site).promote(site).max_copies >= state.max_copies,
        state.bump(site).promote(site).copies.contains(site),
        forall|other: int|
            state.valid_site(other) ==> #[trigger] state.bump(site).promote(site).modes[other]
                == CounterState::Normal,
{
    let voted = state.bump(site);
    let after = voted.promote(site);
    lemma_waiting_copy_below(voted, site, voted.nodes() as int);
    lemma_copies_fit(voted.copies.insert(site), state.nodes());
    if voted.waiting_copy_below(site, voted.nodes() as int).is_none() {
        assert forall|other: int| state.valid_site(other) implies #[trigger] after.modes[other]
            == CounterState::Normal by {
            if state.modes[other] == CounterState::Waiting {
                assert(voted.is_waiting_copy(other));
            }
        }
    }
}

/// Decay of one site keeps the invariant. It never adds a replica, and it
/// leaves the peak and every other site's counter as they were.
pub proof fn lemma_decay_site_inv(state: AllocationState, site: int)
    requires
        state.inv(),
        state.valid_site(site),
    ensures
        state.decay_site(site).inv(),
        state.decay_site(site).nodes() == state.nodes(),
        state.decay_site(site).threshold == state.threshold,
        state.decay_site(site).max_copies == state.max_copies,
        state.decay_site(site).copies.subset_of(state.copies),
        forall|other: int|
            state.valid_site(other) && other != site ==> #[trigger] state.decay_site(
                site,
            ).counters[other] == state.counters[other],
{
    if state.copies.contains(site) && state.counters[site] <= 1 && state.copies.len() <= 1 {
        lemma_sole_member(state.copies, site);
    }
}

/// The decay pass keeps the invariant. It never adds a replica, and it leaves
/// the peak and the writing site's counter as they were.
pub proof fn lemma_decay_below_inv(state: AllocationState, written: int, upto: int)
    requires
        state.inv(),
        state.valid_site(written),
        0 <= upto <= state.nodes(),
    ensures
        state.decay_below(written, upto).inv(),
        state.decay_below(written, upto).nodes() == state.nodes(),
        state.decay_below(written, upto).threshold == state.threshold,
        state.decay_below(written, upto).max_copies == state.max_copies,
        state.decay_below(written, upto).copies.subset_of(state.copies),
        state.decay_below(written, upto).counters[written] == state.counters[written],
    decreases upto,
{
    if upto > 0 {
        lemma_decay_below_inv(state, written, upto - 1);
        if upto - 1 != written {
            lemma_decay_site_inv(state.decay_below(written, upto - 1), upto - 1);
        }
    }
}

/// The first part of a write keeps the invariant. It adds at most the
/// writing site to the replica set, and only by promotion.
pub proof fn lemma_write_served_inv(state: AllocationState, site: int)
    requires
        state.inv(),
        state.valid_site(site),
    ensures
        state.write_served(site).0.inv(),
        state.write_served(site).0.nodes() == state.nodes(),
        state.write_served(site).0.threshold == state.threshold,
        state.write_served(site).0.max_copies >= state.max_copies,
        state.write_served(site).1 <= state.nodes() + state.threshold,
        state.write_served(site).0.copies.len() <= state.copies.len() + 1,
        forall|other: int|
            #[trigger] state.write_served(site).0.copies.contains(other)
                && !state.copies.contains(other) ==> {
                &&& other == site
                &&& state.counters[site] + 1 == state.threshold
                &&& state.write_served(site).0.counters[site] == state.threshold
            },
{
    if !state.copies.contains(site) && state.bump(site).counters[site] == state.threshold {
        lemma_promote_inv(state, site);
        lemma_waiting_copy_below(state.bump(site), site, state.nodes() as int);
    }
}

/// Every request that names a site keeps the invariant.
///
/// The number of sites and the threshold stay as they are, the peak never
/// falls, and the cost is at most the number of sites plus the threshold.
pub proof fn lemma_step_inv(state: AllocationState, request: Request)
    requires
        state.inv(),
        state.valid_site(request.site()),
    ensures
        state.step(request).0.inv(),
        state.step(request).0.nodes() == state.nodes(),
        state.step(request).0.threshold == state.threshold,
        state.step(request).0.max_copies >= state.max_copies,
        state.step(request).1 <= state.nodes() + state.threshold,
{
    let site = request.site();
    match request {
        Request::Read(_) => {
            if !state.copies.contains(site) && state.bump(site).counters[site]
                == state.threshold {
                lemma_promote_inv(state, site);
            }
        },
        Request::Write(_) => {
            lemma_write_served_inv(state, site);
            lemma_decay_below_inv(state.write_served(site).0, site, state.nodes() as int);
        },
    }
}

/// A site joins the replica set only by promotion: it is the site of the
/// request, it held no replica, and the request gave it the vote that
/// filled its counter. No other site joins.
pub proof fn lemma_joins_by_promotion(state: AllocationState, request: Request, site: int)
    requires
        state.inv(),
        state.valid_site(request.site()),
        state.step(request).0.copies.contains(site),
        !state.copies.contains(site),
    ensures
        site == request.site(),
        state.counters[site] + 1 == state.threshold,
        state.bump(site).may_promote(site),
        state.step(request).0.counters[site] == state.threshold,
{
    if request is Write {
        let asked = request.site();
        lemma_write_served_inv(state, asked);
        lemma_decay_below_inv(state.write_served(asked).0, asked, state.nodes() as int);
    }
}

/// A request adds at most one replica: every promotion is paired with at
/// most one eviction, and decay only evicts.
pub proof fn lemma_growth_bounded(state: AllocationState, request: Request)
    requires
        state.inv(),
        state.valid_site(request.site()),
    ensures
        state.step(request).0.copies.len() <= state.copies.len() + 1,
{
    if request is Write {
        let site = request.site();
        let served = state.write_served(site).0;
        lemma_write_served_inv(state, site);
        lemma_decay_below_inv(served, site, state.nodes() as int);
        lemma_len_subset(served.decay_below(site, state.nodes() as int).copies, served.copies);
    }
}

/// With a single site, the replica set is always that site and every request
/// is free.
pub proof fn lemma_single_site(state: AllocationState, request: Request)
    requires
        state.inv(),
        state.nodes() == 1,
        state.valid_site(request.site()),
    ensures
        state.step(request).0.copies == set![0int],
        state.step(request).1 == 0,
{
    assert(state.copies.contains(0)) by {
        let held = state.copies.choose();
        assert(state.copies.contains(held));
    }
    reveal_with_fuel(AllocationState::decay_below, 2);
}

/// Every stream of requests that names sites only keeps the invariant, and
/// yields one cost per request.
pub proof fn lemma_run_inv(state: AllocationState, requests: Seq<Request>)
    requires
        state.inv(),
        state.accepts(requests),
    ensures
        state.run(requests).0.inv(),
        state.run(requests).0.nodes() == state.nodes(),
        state.run(requests).0.threshold == state.threshold,
        state.run(requests).0.max_copies >= state.max_copies,
        state.run(requests).1.len() == requests.len(),
        forall|i: int|
            0 <= i < requests.len() ==> #[trigger] state.run(requests).1[i] <= state.nodes()
                + state.threshold,
    decreases requests.len(),
{
    if requests.len() > 0 {
        let earlier = requests.drop_last();
        lemma_run_inv(state, earlier);
        lemma_step_inv(state.run(earlier).0, requests.last());
    }
}

/// Every state that an engine reaches from its initial state satisfies the
/// invariant: between one and `nodes` replicas, no counter above the
/// threshold, and a `Waiting` site only as the single replica.
pub proof fn lemma_reachable_inv(nodes: nat, threshold: nat, requests: Seq<Request>)
    requires
        nodes >= 1,
        threshold >= 1,
        AllocationState::initial(nodes, threshold).accepts(requests),
    ensures
        AllocationState::initial(nodes, threshold).run(requests).0.inv(),
        AllocationState::initial(nodes, threshold).run(requests).0.one_waiting_at_most(),
{
    lemma_run_inv(AllocationState::initial(nodes, threshold), requests);
    lemma_one_waiting_at_most(AllocationState::initial(nodes, threshold).run(requests).0);
}

/// Replaying one stream through two engines that start in the same state
/// gives the same costs and the same replica set: the engine draws on no
/// other source.
pub proof fn lemma_replay_deterministic(
    first: AllocationState,
    second: AllocationState,
    requests: Seq<Request>,
)
    requires
        first == second,
    ensures
        first.run(requests).1 == second.run(requests).1,
        first.run(requests).0.copies == second.run(requests).0.copies,
        first.run(requests).0 == second.run(requests).0,
{
}

} // verus!
