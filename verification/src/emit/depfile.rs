//! Makefile-style depfile output.
use vstd::prelude::*;

use crate::graph::{adjacency, collect_edges, DepGraph, GraphView};
use crate::maps::{adj_entries, adj_map_get_index, adj_map_len, str_views};
use crate::text::{concat, lemma_concat_step, push_char, push_str};

verus! {

/// `target: dep1 dep2 ...` for one adjacency entry.
pub open spec fn depfile_line(e: (Seq<char>, Seq<Seq<char>>)) -> Seq<char> {
    e.0 + seq![':'] + concat(e.1.map_values(|d: Seq<char>| seq![' '] + d)) + seq!['\n']
}

/// The depfile text of a graph: one line per edge source, in order of
/// first appearance, listing its targets in edge order.
pub open spec fn depfile_spec(g: GraphView) -> Seq<char> {
    concat(adjacency(collect_edges(g)).map_values(|e: (Seq<char>, Seq<Seq<char>>)| depfile_line(e)))
}

/// The depfile text of a graph.
///
/// Only the topology survives: node labels and attributes, edge labels and
/// attributes, graph attributes, and nodes without outgoing edges (which
/// appear only as dependencies) are dropped.
pub fn emit(graph: &DepGraph) -> (r: String)
    ensures
        r@ == depfile_spec(graph@),
{
    let adj = graph.adjacency_list();
    let ghost ents = adj_entries(adj);
    let ghost lines = ents.map_values(|e: (Seq<char>, Seq<Seq<char>>)| depfile_line(e));
    let mut out = String::new();
    let n = adj_map_len(&adj);
    let mut i: usize = 0;
    assert(lines.take(0) =~= Seq::<Seq<char>>::empty());
    while i < n
        invariant
            i <= n == ents.len() == lines.len(),
            ents == adj_entries(adj),
            lines == ents.map_values(|e: (Seq<char>, Seq<Seq<char>>)| depfile_line(e)),
            out@ == concat(lines.take(i as int)),
        decreases n - i,
    {
        let (target, deps) = adj_map_get_index(&adj, i).unwrap();
        proof {
            lemma_concat_step(lines, i as int);
        }
        let ghost before = out@;
        push_str(&mut out, target.as_str());
        push_char(&mut out, ':');
        let ghost ds = str_views(deps@);
        let ghost parts = ds.map_values(|d: Seq<char>| seq![' '] + d);
        let mut k: usize = 0;
        assert(parts.take(0) =~= Seq::<Seq<char>>::empty());
        while k < deps.len()
            invariant
                k <= deps@.len() == ds.len() == parts.len(),
                ds == str_views(deps@),
                parts == ds.map_values(|d: Seq<char>| seq![' '] + d),
                out@ == before + target@ + seq![':'] + concat(parts.take(k as int)),
            decreases deps@.len() - k,
        {
            proof {
                lemma_concat_step(parts, k as int);
            }
            push_char(&mut out, ' ');
            push_str(&mut out, deps[k].as_str());
            k = k + 1;
            assert(out@ =~= before + target@ + seq![':'] + concat(parts.take(k as int)));
        }
        assert(parts.take(deps@.len() as int) =~= parts);
        push_char(&mut out, '\n');
        i = i + 1;
        assert(out@ =~= before + depfile_line(ents[i - 1]));
    }
    assert(lines.take(n as int) =~= lines);
    out
}

} // verus!
