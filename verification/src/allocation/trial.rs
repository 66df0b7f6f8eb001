//! One trial: a fresh engine driven through a whole stream of requests.

use rand::rngs::ThreadRng;
use vstd::prelude::*;
use crate::allocation::engine::{AllocationError, PageAllocation};
use crate::allocation::laws::lemma_run_inv;
use crate::allocation::model::{total, AllocationState, Request};
use crate::random::random_index;

verus! {

/// The sum of costs grows by each cost that is appended.
proof fn lemma_total_push(costs: Seq<nat>, cost: nat)
    ensures
        total(costs.push(cost)) == total(costs) + cost,
{
    assert(costs.push(cost).drop_last() =~= costs);
}

/// Runs one trial on a given stream: builds an engine over `nodes` sites with
/// the given threshold, serves `requests` in order, and returns the total
/// cost with the peak number of replicas.
///
/// The trial fails if the engine cannot be built, or if a request names a
/// site that does not exist.
pub fn replay(nodes: usize, threshold: u64, requests: &Vec<Request>) -> (outcome: Result<
    (u128, usize),
    AllocationError,
>)
    requires
        threshold + nodes <= u64::MAX,
    ensures
        match outcome {
            Ok((cost, peak)) => {
                let first = AllocationState::initial(nodes as nat, threshold as nat);
                &&& nodes >= 1
                &&& threshold >= 1
                &&& first.accepts(requests@)
                &&& cost == total(first.run(requests@).1)
                &&& peak == first.run(requests@).0.max_copies
            },
            Err(AllocationError::Configuration) => nodes < 1 || threshold < 1,
            Err(AllocationError::InvalidSite) => {
                &&& nodes >= 1
                &&& threshold >= 1
                &&& !AllocationState::initial(nodes as nat, threshold as nat).accepts(requests@)
            },
        },
{
    let mut alloc = match PageAllocation::with_nodes(nodes, threshold) {
        Ok(engine) => engine,
        Err(error) => {
            return Err(error);
        },
    };
    let ghost first = alloc@;
    let mut total_cost: u128 = 0;
    let mut served: usize = 0;
    proof {
        assert(requests@.take(0) =~= Seq::<Request>::empty());
    }
    while served < requests.len()
        invariant
            served <= requests.len(),
            first == AllocationState::initial(nodes as nat, threshold as nat),
            first.inv(),
            alloc.wf(),
            first.accepts(requests@.take(served as int)),
            alloc@ == first.run(requests@.take(served as int)).0,
            total_cost == total(first.run(requests@.take(served as int)).1),
            total_cost <= served * u64::MAX,
        decreases requests.len() - served,
    {
        let ghost before = requests@.take(served as int);
        let ghost upto = requests@.take(served as int + 1);
        proof {
            assert(upto.drop_last() =~= before);
            assert(upto.last() == requests@[served as int]);
        }
        match alloc.process_request(&requests[served]) {
            Ok(cost) => {
                proof {
                    lemma_run_inv(first, before);
                    assert forall|i: int| 0 <= i < upto.len() implies first.valid_site(
                        #[trigger] upto[i].site(),
                    ) by {
                        if i < served {
                            assert(upto[i] == before[i]);
                        }
                    }
                    lemma_total_push(first.run(before).1, cost as nat);
                    assert((served + 1) * u64::MAX == served * u64::MAX + u64::MAX)
                        by (nonlinear_arith);
                    assert(served * u64::MAX + u64::MAX <= u64::MAX * u64::MAX + u64::MAX)
                        by (nonlinear_arith)
                        requires
                            served <= u64::MAX,
                    ;
                }
                total_cost += cost as u128;
            },
            Err(error) => {
                proof {
                    assert(requests@[served as int].site() == requests[served as int].site());
                    lemma_run_inv(first, before);
                }
                return Err(error);
            },
        }
        served += 1;
    }
    proof {
        assert(requests@.take(served as int) =~= requests@);
    }
    Ok((total_cost, alloc.max_copies()))
}

/// Whether `requests` is a stream that [`simulate`] may draw for `writes`:
/// one request per entry, a write where the entry is set and a read where it
/// is not, each from one of the `nodes` sites.
pub open spec fn drawn(writes: Seq<bool>, nodes: usize, requests: Seq<Request>) -> bool {
    &&& requests.len() == writes.len()
    &&& forall|i: int|
        0 <= i < requests.len() ==> (#[trigger] requests[i]).site() < nodes && requests[i] == (
        if writes[i] {
            Request::Write(requests[i].site() as usize)
        } else {
            Request::Read(requests[i].site() as usize)
        })
}

/// Runs one trial on a random stream: for every entry of `writes` a site is
/// drawn from `rng`, uniformly among the `nodes` sites, and issues a write
/// where the entry is set and a read where it is not. The stream is then
/// served as [`replay`] serves it.
///
/// The trial fails only if the engine cannot be built.
pub fn simulate(rng: &mut ThreadRng, writes: &Vec<bool>, nodes: usize, threshold: u64) -> (outcome:
    Result<(u128, usize), AllocationError>)
    requires
        threshold + nodes <= u64::MAX,
    ensures
        match outcome {
            Ok((cost, peak)) => {
                let first = AllocationState::initial(nodes as nat, threshold as nat);
                &&& nodes >= 1
                &&& threshold >= 1
                &&& exists|requests: Seq<Request>|
                    {
                        &&& #[trigger] drawn(writes@, nodes, requests)
                        &&& cost == total(first.run(requests).1)
                        &&& peak == first.run(requests).0.max_copies
                    }
            },
            Err(error) => error == AllocationError::Configuration && (nodes < 1 || threshold < 1),
        },
{
    if nodes < 1 || threshold < 1 {
        return Err(AllocationError::Configuration);
    }
    let mut requests: Vec<Request> = Vec::new();
    let mut at: usize = 0;
    while at < writes.len()
        invariant
            at <= writes.len(),
            nodes >= 1,
            drawn(writes@.take(at as int), nodes, requests@),
        decreases writes.len() - at,
    {
        let page = random_index(rng, nodes);
        requests.push(Request::new_random_request(writes[at], page));
        at += 1;
    }
    proof {
        assert(writes@.take(at as int) =~= writes@);
    }
    match replay(nodes, threshold, &requests) {
        Ok(totals) => Ok(totals),
        Err(error) => {
            proof {
                let first = AllocationState::initial(nodes as nat, threshold as nat);
                assert(first.accepts(requests@));
            }
            Err(error)
        },
    }
}

} // verus!
