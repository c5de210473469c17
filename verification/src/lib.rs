//! A concurrent-lawn-mower simulation core: agents ("tondeuses") move over a
//! shared bounded grid ("pelouse"), each following its own instruction string,
//! and no two agents ever occupy the same cell.
//!
//! The library holds the verified logic: the grid occupancy model, the
//! per-agent instruction interpreter, the input-record parsing, a sequential
//! driver with an exact contract, and proofs that the occupancy invariant is
//! preserved under every interleaving of agent steps.

pub mod orientation;
pub mod grid;
pub mod agent;
pub mod parse;
pub mod driver;
pub mod interleave;
