//! Exhaustive search for extremal sumset invariants of finite abelian groups.
//!
//! Subsets of a group are held either as packed bit masks (cyclic groups that
//! fit a machine word) or as vectors of coordinate tuples (any finite product
//! of cyclic groups). Every sumset operator and every search family is stated
//! against one mathematical model, so both representations provably agree.

pub mod bitword;
pub mod cache;
pub mod comb;
pub mod exactset;
pub mod fastset;
pub mod laws;
pub mod model;
pub mod public;
pub mod setlike;
pub mod subsets;
pub mod sumset;
pub mod tuples;
