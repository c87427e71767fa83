//! Travelling-salesman search on a complete graph with symmetric integer costs.
//!
//! City 0 is the home city: every tour starts and ends there. The crate holds
//! the cost matrix, the record of the best tour a strategy has seen, and the
//! search strategies themselves: exhaustive enumeration, nearest neighbour,
//! random sampling, and the bookkeeping of an Ant System.

pub mod aco;
pub mod ecm;
pub mod heap;
pub mod tour;
pub mod tsp;
