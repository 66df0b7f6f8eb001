//! Page migration on a network of 64 nodes: one page moves between the
//! nodes to stay close to the nodes that request it.
//!
//! [`metric`] measures the distance between two nodes, [`policy`] decides
//! when the page moves and where.

pub mod metric;
pub mod policy;
