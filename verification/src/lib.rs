//! A dynamically learned network-topology model with a cost-weighted
//! shortest-path search, for routing through a packet-relay network whose
//! link quality and load change over time.
//!
//! The [`graph`] module holds the weighted topology graph: known nodes with
//! their role and learned statistics, undirected adjacency, the per-node
//! traversal cost, and a best-first path search constrained by node role.
//! The [`routing_handler`] module owns the current and previous topology
//! snapshots and the raw reliability and congestion tallies, translates
//! discovery responses and delivery signals into graph updates, and answers
//! the single "best path" query. The [`cost`] module defines the fixed-point
//! statistics scale and the cost formula both build on.

pub mod cost;
pub mod graph;
pub mod routing_handler;
