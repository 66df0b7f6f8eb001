//! The migration policies.

use vstd::prelude::*;
use crate::migration::metric::{GraphStructure, DIAMETER, GRAPH_NODES};

verus! {

/// When the page moves, and where.
#[derive(Clone, Copy, Debug)]
pub enum MigrationType {
    /// After every `d` requests the page moves to the node with the smallest
    /// total distance to the nodes that issued them.
    MoveToMin,
    /// After every request a coin decides whether the page moves to the node
    /// that issued it.
    CoinFlip,
}

/// State of a migrating page, seen mathematically.
pub struct MigrationState {
    /// The node that holds the page.
    pub page: nat,
    /// The size of the page: moving it over one edge costs `d`.
    pub d: nat,
    /// The network.
    pub metric: GraphStructure,
    /// The policy.
    pub policy: MigrationType,
    /// The requests since the last move of a `MoveToMin` page.
    pub buffer: Seq<usize>,
}

/// Sum of the distances from `node` to the nodes of `requests`.
pub open spec fn total_distance(metric: GraphStructure, node: nat, requests: Seq<usize>) -> nat
    decreases requests.len(),
{
    if requests.len() == 0 {
        0
    } else {
        total_distance(metric, node, requests.drop_last()) + metric.spec_distance(
            node,
            requests.last() as nat,
        )
    }
}

/// The first node below `upto` with the smallest total distance to the
/// nodes of `requests`.
pub open spec fn nearest_below(metric: GraphStructure, requests: Seq<usize>, upto: nat) -> nat
    decreases upto,
{
    if upto <= 1 {
        0
    } else {
        let best = nearest_below(metric, requests, (upto - 1) as nat);
        if total_distance(metric, (upto - 1) as nat, requests) < total_distance(
            metric,
            best,
            requests,
        ) {
            (upto - 1) as nat
        } else {
            best
        }
    }
}

impl MigrationState {
    /// What holds of every state: the page is at a node, every buffered
    /// request names a node, a `MoveToMin` page moves before its buffer holds
    /// `d` requests, and no cost can overflow.
    pub open spec fn inv(self) -> bool {
        &&& self.page < GRAPH_NODES
        &&& forall|i: int| 0 <= i < self.buffer.len() ==> #[trigger] self.buffer[i] < GRAPH_NODES
        &&& self.d >= 1 ==> self.buffer.len() < self.d
        &&& DIAMETER * self.d + DIAMETER <= usize::MAX
    }

    /// The state after a request from node `req`, with its cost: the
    /// distance to the page, and `d` times the distance the page moves.
    ///
    /// `flip` is the outcome of the coin of a `CoinFlip` page.
    pub open spec fn step(self, req: usize, flip: bool) -> (MigrationState, nat) {
        let dist = self.metric.spec_distance(self.page, req as nat);
        match self.policy {
            MigrationType::MoveToMin => {
                let buffer = self.buffer.push(req);
                if buffer.len() == self.d {
                    let best = nearest_below(self.metric, buffer, GRAPH_NODES as nat);
                    (
                        MigrationState { page: best, buffer: Seq::empty(), ..self },
                        dist + self.d * self.metric.spec_distance(self.page, best),
                    )
                } else {
                    (MigrationState { buffer, ..self }, dist)
                }
            },
            MigrationType::CoinFlip => {
                if flip {
                    (MigrationState { page: req as nat, ..self }, dist + self.d * dist)
                } else {
                    (self, dist)
                }
            },
        }
    }
}

/// A page that migrates between the nodes of a network.
pub struct PageMigration {
    /// The node that holds the page.
    page: usize,
    /// The size of the page.
    d: usize,
    /// The network.
    metric: GraphStructure,
    /// The policy.
    policy: MigrationType,
    /// The requests since the last move; used by `MoveToMin` only.
    buffer: Vec<usize>,
}

impl View for PageMigration {
    type V = MigrationState;

    closed spec fn view(&self) -> MigrationState {
        MigrationState {
            page: self.page as nat,
            d: self.d as nat,
            metric: self.metric,
            policy: self.policy,
            buffer: self.buffer@,
        }
    }
}

/// The nearest node is a node, and no node below `upto` is nearer.
pub proof fn lemma_nearest_below(metric: GraphStructure, requests: Seq<usize>, upto: nat)
    requires
        upto >= 1,
    ensures
        nearest_below(metric, requests, upto) < upto,
        forall|node: nat|
            node < upto ==> total_distance(
                metric,
                nearest_below(metric, requests, upto),
                requests,
            ) <= #[trigger] total_distance(metric, node, requests),
        forall|node: nat|
            node < nearest_below(metric, requests, upto) ==> total_distance(
                metric,
                nearest_below(metric, requests, upto),
                requests,
            ) < #[trigger] total_distance(metric, node, requests),
    decreases upto,
{
    if upto > 1 {
        lemma_nearest_below(metric, requests, (upto - 1) as nat);
    }
}

impl PageMigration {
    /// Well-formedness: the state satisfies the invariant of the model.
    pub open spec fn wf(&self) -> bool {
        self@.inv()
    }

    /// Places a page of size `d` at node `start`.
    pub fn new(start: usize, d: usize, metric: GraphStructure, policy: MigrationType) -> (migration:
        PageMigration)
        requires
            start < GRAPH_NODES,
            DIAMETER * d + DIAMETER <= usize::MAX,
        ensures
            migration.wf(),
            migration@ == (MigrationState {
                page: start as nat,
                d: d as nat,
                metric,
                policy,
                buffer: Seq::empty(),
            }),
    {
        let migration = PageMigration {
            page: start,
            d,
            metric,
            policy,
            buffer: Vec::with_capacity(d),
        };
        proof {
            assert(migration@.buffer.len() == 0);
            if d >= 1 {
                assert(migration@.buffer.len() < migration@.d);
            }
        }
        migration
    }

    /// The node that holds the page.
    pub fn page(&self) -> (page: usize)
        ensures
            page == self@.page,
    {
        self.page
    }

    /// Every buffered request names a node.
    spec fn buffer_names_nodes(&self) -> bool {
        forall|i: int| 0 <= i < self.buffer@.len() ==> #[trigger] self.buffer@[i] < GRAPH_NODES
    }

    /// Sum of the distances from `node` to the buffered requests.
    fn total_distance_to(&self, node: usize) -> (total: usize)
        requires
            self.buffer_names_nodes(),
            node < GRAPH_NODES,
            DIAMETER * self@.buffer.len() <= usize::MAX,
        ensures
            total == total_distance(self@.metric, node as nat, self@.buffer),
    {
        let mut total: usize = 0;
        let mut at: usize = 0;
        proof {
            assert(self.buffer@.take(0) =~= Seq::<usize>::empty());
        }
        while at < self.buffer.len()
            invariant
                at <= self.buffer@.len(),
                node < GRAPH_NODES,
                self.buffer_names_nodes(),
                DIAMETER * self@.buffer.len() <= usize::MAX,
                total == total_distance(self@.metric, node as nat, self.buffer@.take(at as int)),
                total <= DIAMETER * at,
            decreases self.buffer@.len() - at,
        {
            proof {
                assert(self.buffer@.take(at as int + 1).drop_last() =~= self.buffer@.take(
                    at as int,
                ));
                assert(self.buffer@[at as int] < GRAPH_NODES);
            }
            total += self.metric.distance(node, self.buffer[at]);
            at += 1;
        }
        proof {
            assert(self.buffer@.take(at as int) =~= self.buffer@);
        }
        total
    }

    /// The first node with the smallest total distance to the buffered
    /// requests.
    fn nearest(&self) -> (best: usize)
        requires
            self.buffer_names_nodes(),
            DIAMETER * self@.buffer.len() <= usize::MAX,
        ensures
            best == nearest_below(self@.metric, self@.buffer, GRAPH_NODES as nat),
            best < GRAPH_NODES,
    {
        let mut best: usize = 0;
        let mut least = self.total_distance_to(0);
        let mut node: usize = 1;
        while node < GRAPH_NODES
            invariant
                1 <= node <= GRAPH_NODES,
                self.buffer_names_nodes(),
                DIAMETER * self@.buffer.len() <= usize::MAX,
                best < node,
                best == nearest_below(self@.metric, self@.buffer, node as nat),
                least == total_distance(self@.metric, best as nat, self@.buffer),
            decreases GRAPH_NODES - node,
        {
            let total = self.total_distance_to(node);
            if total < least {
                best = node;
                least = total;
            }
            node += 1;
        }
        best
    }

    /// Serves a request from node `req` and returns its cost: the distance to
    /// the page, and the cost of moving the page if the policy moves it.
    ///
    /// `flip` is the outcome of the coin that a `CoinFlip` page throws for
    /// this request; a `MoveToMin` page does not look at it.
    pub fn on_request(&mut self, req: usize, flip: bool) -> (cost: usize)
        requires
            old(self).wf(),
            req < GRAPH_NODES,
        ensures
            final(self).wf(),
            final(self)@ == old(self)@.step(req, flip).0,
            cost == old(self)@.step(req, flip).1,
    {
        let dist = self.metric.distance(self.page, req);
        let mut cost = dist;
        proof {
            assert(self.d * dist <= self.d * DIAMETER) by (nonlinear_arith)
                requires
                    dist <= DIAMETER,
            ;
        }
        match self.policy {
            MigrationType::MoveToMin => {
                self.buffer.push(req);
                proof {
                    assert forall|i: int| 0 <= i < self.buffer@.len() implies #[trigger] self.buffer@[i]
                        < GRAPH_NODES by {
                        if i < old(self).buffer@.len() {
                            assert(old(self)@.buffer[i] < GRAPH_NODES);
                        }
                    }
                }
                if self.buffer.len() == self.d {
                    proof {
                        assert(DIAMETER * self.buffer@.len() <= DIAMETER * self.d + DIAMETER)
                            by (nonlinear_arith)
                            requires
                                self.buffer@.len() == self.d,
                        ;
                    }
                    let best = self.nearest();
                    let mig = self.metric.distance(self.page, best);
                    proof {
                        assert(self.d * mig <= self.d * DIAMETER) by (nonlinear_arith)
                            requires
                                mig <= DIAMETER,
                        ;
                    }
                    cost += self.d * mig;
                    self.page = best;
                    self.buffer.clear();
                }
            },
            MigrationType::CoinFlip => {
                if flip {
                    cost += self.d * dist;
                    self.page = req;
                }
            },
        }
        proof {
            assert forall|i: int| 0 <= i < self@.buffer.len() implies #[trigger] self@.buffer[i]
                < GRAPH_NODES by {
                if i < old(self)@.buffer.len() {
                    assert(old(self)@.buffer[i] < GRAPH_NODES);
                }
            }
        }
        cost
    }
}

} // verus!
