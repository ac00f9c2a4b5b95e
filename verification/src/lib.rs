use vstd::prelude::*;

pub mod algorithm;
pub mod detect;
pub mod emit;
pub mod flat;
pub mod glob;
pub mod graph;
pub mod maps;
pub mod minpath;
pub mod parse;
pub mod pg;
pub mod style;
pub mod text;

verus! {

} // verus!
