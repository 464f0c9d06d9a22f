//! Rank sort: every element's final position is the number of elements
//! strictly smaller than it, and equal elements share out a run of slots.

pub mod counting;
pub mod input;
pub mod interleaving;
pub mod merge;
pub mod order;
pub mod pipeline;
pub mod rank;
pub mod scatter;
pub mod sort;
pub mod tally;
pub mod timing;
