use vstd::prelude::*;

pub mod cli;
pub mod document;
pub mod graph;
pub mod scan;
pub mod resolve;
pub mod section;
pub mod theorems;
pub mod value;

verus! {

} // verus!
