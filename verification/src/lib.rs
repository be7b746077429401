//! A verified simulation of elections on a social network.
//!
//! A population of agents, connected by a small-world friendship graph,
//! vote for political parties while being influenced by their neighbours'
//! prior votes, their ideological distance to each party, and random
//! loyalty and susceptibility traits.  All scalar quantities in [0, 1]
//! are held in fixed-point form: an integer number of units of
//! 1 / `numeric::SCALE`, so that every computation is exact integer
//! arithmetic and can be verified.

pub mod agent;
pub mod election;
pub mod errors;
pub mod network;
pub mod numeric;
pub mod party;
pub mod probability;
pub mod rng;
