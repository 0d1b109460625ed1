//! Verified daily puzzle solvers.
//!
//! The heart of the crate is a deduplicating min-priority queue
//! ([`priority_queue`]) and the single-source shortest-distance searches
//! built on it ([`shortest_path`]), run over directed graphs stored in
//! `petgraph` ([`graph`]); [`climb`] drives them over a character height
//! grid.  The remaining modules are self-contained solvers over plain
//! text lines, sharing the verified number and token parsing of
//! [`parse`].

pub mod assignments;
pub mod beacons;
pub mod blizzard;
pub mod cathode;
pub mod climb;
pub mod dirtree;
pub mod graph;
pub mod lava;
pub mod mixer;
pub mod monkey_map;
pub mod parse;
pub mod priority_queue;
pub mod rope;
pub mod rps;
pub mod rucksack;
pub mod sand;
pub mod shortest_path;
pub mod signal;
pub mod snafu;
