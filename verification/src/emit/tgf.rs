//! TGF (Trivial Graph Format) output.
use vstd::prelude::*;

use crate::graph::{all_nodes_spec, collect_edges, edge_views, node_views, DepGraph, EdgeView, GraphView, NodeView};
use crate::text::{chars_of, concat, is_ascii_ws, lemma_concat_step, push_char, push_str};

verus! {

/// `id` with each ASCII whitespace character replaced by `_`, so that it
/// reads back as one token.
pub open spec fn tgf_id(id: Seq<char>) -> Seq<char> {
    id.map_values(|c: char| if is_ascii_ws(c) { '_' } else { c })
}

/// The node line: id, then a tab and the label when it differs from the id
/// as written.
pub open spec fn tgf_node_line(id: Seq<char>, n: NodeView) -> Seq<char> {
    if n.label != tgf_id(id) {
        tgf_id(id) + seq!['\t'] + n.label + seq!['\n']
    } else {
        tgf_id(id) + seq!['\n']
    }
}

pub open spec fn tgf_edge_line(e: EdgeView) -> Seq<char> {
    tgf_id(e.from) + seq!['\t'] + tgf_id(e.to) + (match e.label {
        Some(l) => seq!['\t'] + l,
        None => seq![],
    }) + seq!['\n']
}

/// The TGF text of a graph: every node of every level, `#`, every edge.
pub open spec fn tgf_spec(g: GraphView) -> Seq<char> {
    concat(all_nodes_spec(g).map_values(|e: (Seq<char>, NodeView)| tgf_node_line(e.0, e.1))) + seq!['#', '\n']
        + concat(collect_edges(g).map_values(|e: EdgeView| tgf_edge_line(e)))
}

/// `id` as written in TGF.
pub fn sanitize_id(id: &str) -> (r: String)
    ensures
        r@ == tgf_id(id@),
{
    let v = chars_of(id);
    let mut r = String::new();
    let mut i: usize = 0;
    while i < v.len()
        invariant
            i <= v@.len(),
            v@ == id@,
            r@ == tgf_id(v@.take(i as int)),
        decreases v@.len() - i,
    {
        let c = v[i];
        let ws = c == ' ' || c == '\t' || c == '\n' || c == '\u{c}' || c == '\r';
        push_char(&mut r, if ws { '_' } else { c });
        i = i + 1;
        assert(r@ =~= tgf_id(v@.take(i as int)));
    }
    assert(v@.take(v@.len() as int) =~= v@);
    r
}

/// The TGF text of a graph.
///
/// Node ids, node labels, edge endpoints and edge labels are kept; graph,
/// node and edge attributes and the subgraph structure are dropped.
/// Whitespace in ids becomes `_` so the output reads back.
pub fn emit(graph: &DepGraph) -> (r: String)
    ensures
        r@ == tgf_spec(graph@),
{
    let nodes = graph.all_nodes();
    let edges = graph.all_edges();
    let ghost ns = node_views(crate::maps::node_entries(nodes));
    let ghost nl = ns.map_values(|e: (Seq<char>, NodeView)| tgf_node_line(e.0, e.1));
    let mut out = String::new();
    let n = crate::maps::node_map_len(&nodes);
    let mut i: usize = 0;
    assert(nl.take(0) =~= Seq::<Seq<char>>::empty());
    while i < n
        invariant
            i <= n == ns.len() == nl.len(),
            ns == node_views(crate::maps::node_entries(nodes)),
            nl == ns.map_values(|e: (Seq<char>, NodeView)| tgf_node_line(e.0, e.1)),
            out@ == concat(nl.take(i as int)),
        decreases n - i,
    {
        let (id, info) = crate::maps::node_map_get_index(&nodes, i).unwrap();
        proof {
            lemma_concat_step(nl, i as int);
        }
        let ghost before = out@;
        let sid = sanitize_id(id.as_str());
        push_str(&mut out, sid.as_str());
        if !crate::text::str_eq(info.label.as_str(), sid.as_str()) {
            push_char(&mut out, '\t');
            push_str(&mut out, info.label.as_str());
        }
        push_char(&mut out, '\n');
        i = i + 1;
        assert(out@ =~= before + tgf_node_line(id@, info@));
    }
    assert(nl.take(n as int) =~= nl);
    push_char(&mut out, '#');
    push_char(&mut out, '\n');
    let ghost mid = out@;
    let ghost es = edge_views(edges@);
    let ghost el = es.map_values(|e: EdgeView| tgf_edge_line(e));
    let mut j: usize = 0;
    assert(el.take(0) =~= Seq::<Seq<char>>::empty());
    while j < edges.len()
        invariant
            j <= edges@.len() == es.len() == el.len(),
            es == edge_views(edges@),
            el == es.map_values(|e: EdgeView| tgf_edge_line(e)),
            out@ == mid + concat(el.take(j as int)),
        decreases edges@.len() - j,
    {
        let e = &edges[j];
        proof {
            lemma_concat_step(el, j as int);
        }
        let ghost before = out@;
        push_str(&mut out, sanitize_id(e.from.as_str()).as_str());
        push_char(&mut out, '\t');
        push_str(&mut out, sanitize_id(e.to.as_str()).as_str());
        match &e.label {
            Some(l) => {
                push_char(&mut out, '\t');
                push_str(&mut out, l.as_str());
            },
            None => {},
        }
        push_char(&mut out, '\n');
        j = j + 1;
        assert(out@ =~= before + tgf_edge_line(e@));
    }
    assert(el.take(edges@.len() as int) =~= el);
    out
}

} // verus!
