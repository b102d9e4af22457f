//! Breeding-path calculations over a table of pals: which child two
//! parents give, which pairs give a wanted child, and which breeding trees
//! lead from a set of parents to a target.
use vstd::prelude::*;

pub mod calc;
pub mod compact;
pub mod data;
pub mod laws;
pub mod table;

verus! {

} // verus!
