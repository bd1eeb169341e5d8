//! Incremental scoring for assigning tagged members to groups, with the
//! move vocabulary and candidate generator used by a local search.

pub mod action;
pub mod anneal;
pub mod cache;
pub mod model;
pub mod score;
pub mod tally;
