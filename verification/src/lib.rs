use vstd::prelude::*;

pub mod compiler;
pub mod config;
pub mod types;
pub mod parser;

verus! {

} // verus!
