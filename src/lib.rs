use vstd::prelude::*;

pub mod command;
pub mod state;
pub mod gens;
pub mod server;
pub mod laws;

verus! {

} // verus!
