//! Shortest-path distances on the two networks.

use vstd::prelude::*;

verus! {

/// Number of nodes of either network.
pub const GRAPH_NODES: usize = 64;

/// Largest distance between two nodes, on either network.
pub const DIAMETER: usize = 6;

/// The shape of the network.
#[derive(Clone, Copy, Debug)]
pub enum GraphStructure {
    /// The hypercube of dimension 6: two nodes are neighbours when their
    /// numbers differ in one binary digit.
    Hypercube,
    /// The torus of 4 x 4 x 4 nodes: node `x + 4 y + 16 z` has the
    /// coordinates `(x, y, z)`, and every axis wraps around.
    Torus,
}

/// Number of the lowest `digits` binary digits in which `a` and `b` differ.
pub open spec fn differing_digits(a: nat, b: nat, digits: nat) -> nat
    decreases digits,
{
    if digits == 0 {
        0
    } else {
        (if a % 2 != b % 2 {
            1nat
        } else {
            0nat
        }) + differing_digits(a / 2, b / 2, (digits - 1) as nat)
    }
}

/// Distance between two coordinates on an axis of 4 nodes that wraps around.
pub open spec fn ring_distance(a: nat, b: nat) -> nat {
    let delta = if a >= b {
        a - b
    } else {
        b - a
    };
    if delta <= 4 - delta {
        delta as nat
    } else {
        (4 - delta) as nat
    }
}

/// Coordinate of node `node` on axis `axis` of the torus.
pub open spec fn coordinate(node: nat, axis: nat) -> nat {
    if axis == 0 {
        node % 4
    } else if axis == 1 {
        (node / 4) % 4
    } else {
        (node / 16) % 4
    }
}

/// Distance on the torus: the sum of the distances on the three axes.
pub open spec fn torus_distance(a: nat, b: nat) -> nat {
    ring_distance(coordinate(a, 0), coordinate(b, 0)) + ring_distance(
        coordinate(a, 1),
        coordinate(b, 1),
    ) + ring_distance(coordinate(a, 2), coordinate(b, 2))
}

/// Distance between two coordinates on an axis of the torus.
fn ring(a: usize, b: usize) -> (length: usize)
    requires
        a < 4,
        b < 4,
    ensures
        length == ring_distance(a as nat, b as nat),
        length <= 2,
{
    let delta = if a >= b {
        a - b
    } else {
        b - a
    };
    if delta <= 4 - delta {
        delta
    } else {
        4 - delta
    }
}

impl GraphStructure {
    /// Length of a shortest path between the nodes `a` and `b`.
    pub open spec fn spec_distance(self, a: nat, b: nat) -> nat {
        match self {
            GraphStructure::Hypercube => differing_digits(a, b, 6),
            GraphStructure::Torus => torus_distance(a, b),
        }
    }

    /// Length of a shortest path between the nodes `a` and `b`.
    pub fn distance(&self, a: usize, b: usize) -> (length: usize)
        requires
            a < GRAPH_NODES,
            b < GRAPH_NODES,
        ensures
            length == self.spec_distance(a as nat, b as nat),
            length <= DIAMETER,
    {
        match self {
            GraphStructure::Hypercube => {
                let mut length: usize = 0;
                let mut left = a;
                let mut right = b;
                let mut digit: usize = 0;
                while digit < 6
                    invariant
                        digit <= 6,
                        length <= digit,
                        length + differing_digits(left as nat, right as nat, (6 - digit) as nat)
                            == differing_digits(a as nat, b as nat, 6),
                    decreases 6 - digit,
                {
                    if left % 2 != right % 2 {
                        length += 1;
                    }
                    left = left / 2;
                    right = right / 2;
                    digit += 1;
                }
                length
            },
            GraphStructure::Torus => {
                ring(a % 4, b % 4) + ring((a / 4) % 4, (b / 4) % 4) + ring(
                    (a / 16) % 4,
                    (b / 16) % 4,
                )
            },
        }
    }
}

/// The distance of a node to itself is zero, the distance is the same in
/// both directions, and it never exceeds the diameter.
pub proof fn lemma_distance(metric: GraphStructure, a: nat, b: nat)
    ensures
        metric.spec_distance(a, a) == 0,
        metric.spec_distance(a, b) == metric.spec_distance(b, a),
        metric.spec_distance(a, b) <= DIAMETER,
{
    lemma_differing_digits(a, b, 6);
}

/// Two numbers differ in at most `digits` of their lowest `digits` digits, a
/// number differs from itself in none, and the count is the same in both
/// directions.
proof fn lemma_differing_digits(a: nat, b: nat, digits: nat)
    ensures
        differing_digits(a, b, digits) <= digits,
        differing_digits(a, a, digits) == 0,
        differing_digits(a, b, digits) == differing_digits(b, a, digits),
    decreases digits,
{
    if digits > 0 {
        lemma_differing_digits(a / 2, b / 2, (digits - 1) as nat);
        lemma_differing_digits(a / 2, a / 2, (digits - 1) as nat);
    }
}

} // verus!
