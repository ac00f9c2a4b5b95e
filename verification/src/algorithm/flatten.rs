//! Moving every node and edge to the top level.
use vstd::prelude::*;

use crate::graph::{all_nodes_spec, collect_edges, edge_views, node_views, DepGraph, GraphView};
use crate::maps::{node_entries, str_map_clone};

verus! {

/// The flattened graph: the same id and attributes, every node and edge of
/// every level at the top, and no subgraphs.
pub open spec fn flatten_view(g: GraphView) -> GraphView {
    GraphView {
        id: g.id,
        attrs: g.attrs,
        nodes: all_nodes_spec(g),
        edges: collect_edges(g),
        subgraphs: Seq::empty(),
    }
}

/// Flatten a graph by moving all nodes and edges from subgraphs to the top
/// level. Graph attributes are kept; subgraph attributes are dropped.
pub fn flatten(graph: &DepGraph) -> (r: DepGraph)
    ensures
        r@ == flatten_view(graph@),
{
    let id = match &graph.id {
        Some(s) => Some(s.clone()),
        None => None,
    };
    let r = DepGraph {
        id,
        attrs: str_map_clone(&graph.attrs),
        nodes: graph.all_nodes(),
        edges: graph.all_edges(),
        subgraphs: Vec::new(),
    };
    assert(r@.subgraphs =~= Seq::<GraphView>::empty());
    r
}

} // verus!
