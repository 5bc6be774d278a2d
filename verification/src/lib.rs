//! Vanity commit identifiers: a search over pairs of timestamps for a commit
//! whose content address matches a masked pattern, and the generation number
//! of a commit in its ancestry graph.

pub mod cli;
pub mod commit;
pub mod digest;
pub mod generation;
pub mod graph;
pub mod hex;
pub mod relaxation;
pub mod search;
pub mod testing;
pub mod zigzag;
