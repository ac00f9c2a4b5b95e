//! Listing nodes and edges.
use vstd::prelude::*;

pub mod edges;
pub mod metrics;
pub mod nodes;

verus! {

/// What to print for a node: its id or its label.
#[derive(Debug, Clone, Copy, PartialEq, Eq, Structural)]
pub enum OutputFields {
    Id,
    Label,
}

impl Default for OutputFields {
    fn default() -> (r: OutputFields)
        ensures
            r == OutputFields::Label,
    {
        OutputFields::Label
    }
}

} // verus!
