//! Default visual styles derived from node types and edge kinds; an
//! attribute already present is never overridden.
use vstd::prelude::*;

use indexmap::IndexMap;

use crate::graph::{
    edge_views, lemma_graph_view_subgraph, lemma_node_views_insert, node_views, Attrs, DepGraph, Edge, EdgeView, GraphView,
    NodeInfo, NodeView,
};
use crate::maps::{
    find_key, has_key, insert_entry, lemma_find_key, node_entries, node_map_get_index, node_map_insert, node_map_len,
    node_map_new, str_entries, str_map_contains_key, str_map_get, str_map_insert, value_of,
};
use crate::text::{chars_equal, chars_of, push_str, split_char, split_on, str_eq, trim, trim_chars, views_eq};

verus! {

broadcast use vstd::string::group_string_axioms;

/// `attrs` with `k = v` added when it has no attribute `k`.
pub open spec fn set_default(attrs: Attrs, k: Seq<char>, v: Seq<char>) -> Attrs {
    if has_key(attrs, k) {
        attrs
    } else {
        attrs.push((k, v))
    }
}

/// The attribute a node type calls for: a shape, or a dashed style for optional nodes.
pub open spec fn type_style(t: Seq<char>) -> Option<(Seq<char>, Seq<char>)> {
    if t == "proc-macro"@ {
        Some(("shape"@, "diamond"@))
    } else if t == "bin"@ {
        Some(("shape"@, "box"@))
    } else if t == "build-script"@ {
        Some(("shape"@, "note"@))
    } else if t == "optional"@ {
        Some(("style"@, "dashed"@))
    } else if t == "lib"@ {
        Some(("shape"@, "ellipse"@))
    } else if t == "test"@ {
        Some(("shape"@, "hexagon"@))
    } else {
        None
    }
}

/// A node with the default attribute of its type.
pub open spec fn styled_node(n: NodeView) -> NodeView {
    match n.node_type {
        Some(t) => match type_style(t) {
            Some(kv) => NodeView { label: n.label, node_type: n.node_type, attrs: set_default(n.attrs, kv.0, kv.1) },
            None => n,
        },
        None => n,
    }
}

/// The kinds listed in a `kind` attribute: its comma-separated parts, trimmed.
pub open spec fn kinds(s: Seq<char>) -> Seq<Seq<char>> {
    split_char(s, ',').map_values(|p: Seq<char>| trim(p))
}

/// An edge with the defaults of its kinds: dev edges dashed and grey, build
/// edges dashed.
pub open spec fn styled_edge(e: EdgeView) -> EdgeView {
    let attrs = match value_of(e.attrs, "kind"@) {
        Some(kind) => if kinds(kind).contains("dev"@) {
            set_default(set_default(e.attrs, "style"@, "dashed"@), "color"@, "gray60"@)
        } else if kinds(kind).contains("build"@) {
            set_default(e.attrs, "style"@, "dashed"@)
        } else {
            e.attrs
        },
        None => e.attrs,
    };
    EdgeView { from: e.from, to: e.to, label: e.label, attrs }
}

/// `g` with default styles at every level.
pub open spec fn styled(g: GraphView) -> GraphView
    decreases g,
{
    GraphView {
        id: g.id,
        attrs: g.attrs,
        nodes: Seq::new(g.nodes.len(), |i: int| (g.nodes[i].0, styled_node(g.nodes[i].1))),
        edges: Seq::new(g.edges.len(), |i: int| styled_edge(g.edges[i])),
        subgraphs: Seq::new(
            g.subgraphs.len(),
            |i: int| if 0 <= i < g.subgraphs.len() { styled(g.subgraphs[i]) } else { arbitrary() },
        ),
    }
}

/// A string with the characters of `t`.
fn text_of(t: &str) -> (r: String)
    ensures
        r@ == t@,
{
    let mut r = String::new();
    push_str(&mut r, t);
    r
}

/// Adds `k = v` when `attrs` has no attribute `k`.
fn set_default_in(attrs: &mut IndexMap<String, String>, k: &str, v: &str)
    ensures
        str_entries(*final(attrs)) == set_default(str_entries(*old(attrs)), k@, v@),
{
    if !str_map_contains_key(attrs, k) {
        proof {
            lemma_find_key(str_entries(*attrs), k@);
        }
        str_map_insert(attrs, text_of(k), text_of(v));
    }
}

/// The default attribute of a node type, as a key and a value.
fn type_style_of(t: &str) -> (r: Option<(&'static str, &'static str)>)
    ensures
        match r {
            Some(kv) => type_style(t@) == Some((kv.0@, kv.1@)),
            None => type_style(t@) is None,
        },
{
    if str_eq(t, "proc-macro") {
        Some(("shape", "diamond"))
    } else if str_eq(t, "bin") {
        Some(("shape", "box"))
    } else if str_eq(t, "build-script") {
        Some(("shape", "note"))
    } else if str_eq(t, "optional") {
        Some(("style", "dashed"))
    } else if str_eq(t, "lib") {
        Some(("shape", "ellipse"))
    } else if str_eq(t, "test") {
        Some(("shape", "hexagon"))
    } else {
        None
    }
}

/// Whether the trimmed comma-separated parts of `kind` include `want`.
fn has_kind(kind: &str, want: &str) -> (b: bool)
    ensures
        b == kinds(kind@).contains(want@),
{
    let parts = split_on(chars_of(kind).as_slice(), ',');
    let w = chars_of(want);
    let ghost ks = kinds(kind@);
    let mut i: usize = 0;
    while i < parts.len()
        invariant
            i <= parts.len(),
            views_eq(parts@, split_char(kind@, ',')),
            ks == kinds(kind@),
            w@ == want@,
            forall|j: int| 0 <= j < i ==> ks[j] != want@,
        decreases parts.len() - i,
    {
        let t = trim_chars(parts[i].as_slice());
        assert(ks[i as int] == trim(parts@[i as int]@));
        if chars_equal(t.as_slice(), w.as_slice()) {
            return true;
        }
        i = i + 1;
    }
    false
}

/// A node with the default attribute of its type.
fn style_node(info: &NodeInfo) -> (r: NodeInfo)
    ensures
        r@ == styled_node(info@),
{
    let mut n = info.duplicate();
    match &info.node_type {
        Some(t) => match type_style_of(t.as_str()) {
            Some(kv) => {
                set_default_in(&mut n.attrs, kv.0, kv.1);
            },
            None => {},
        },
        None => {},
    }
    n
}

/// An edge with the defaults of its kinds.
fn style_edge(e: &Edge) -> (r: Edge)
    ensures
        r@ == styled_edge(e@),
{
    let mut n = e.duplicate();
    let kind = match str_map_get(&e.attrs, "kind") {
        Some(k) => Some(k.clone()),
        None => None,
    };
    match kind {
        Some(k) => {
            if has_kind(k.as_str(), "dev") {
                set_default_in(&mut n.attrs, "style", "dashed");
                set_default_in(&mut n.attrs, "color", "gray60");
            } else if has_kind(k.as_str(), "build") {
                set_default_in(&mut n.attrs, "style", "dashed");
            }
        },
        None => {},
    }
    n
}

/// Gives nodes and edges, at every level, the default attributes of their
/// types and kinds, without overriding attributes they already have.
pub fn apply_default_styles(graph: &mut DepGraph)
    ensures
        final(graph)@ == styled(old(graph)@),
{
    let r = style_graph(graph);
    *graph = r;
}

/// `graph` with default styles at every level.
fn style_graph(graph: &DepGraph) -> (r: DepGraph)
    ensures
        r@ == styled(graph@),
    decreases graph,
{
    let ghost g = graph@;
    let n = node_map_len(&graph.nodes);
    let ghost want = Seq::new(g.nodes.len(), |i: int| (g.nodes[i].0, styled_node(g.nodes[i].1)));
    let mut nodes = node_map_new();
    let mut i: usize = 0;
    assert(node_views(node_entries(nodes)) =~= want.take(0));
    while i < n
        invariant
            i <= n == g.nodes.len() == node_entries(graph.nodes).len(),
            g == graph@,
            want == Seq::new(g.nodes.len(), |i: int| (g.nodes[i].0, styled_node(g.nodes[i].1))),
            node_views(node_entries(nodes)) == want.take(i as int),
        decreases n - i,
    {
        let (k, info) = node_map_get_index(&graph.nodes, i).unwrap();
        let ni = style_node(info);
        proof {
            assert(g.nodes[i as int] == (k@, info@));
            lemma_node_views_insert(node_entries(nodes), k@, ni);
            let nv = node_views(node_entries(nodes));
            lemma_find_key(nv, k@);
            if find_key(nv, k@) >= 0 {
                let j = find_key(nv, k@);
                assert(nv[j].0 == g.nodes[j].0);
                assert(node_entries(graph.nodes)[j].0 == g.nodes[j].0);
            }
        }
        node_map_insert(&mut nodes, k.clone(), ni);
        i = i + 1;
        assert(node_views(node_entries(nodes)) =~= want.take(i as int));
    }
    assert(want.take(n as int) =~= want);
    let mut edges: Vec<Edge> = Vec::new();
    let mut j: usize = 0;
    while j < graph.edges.len()
        invariant
            j <= graph.edges.len(),
            g == graph@,
            edges.len() == j,
            forall|m: int| 0 <= m < j ==> #[trigger] edges@[m]@ == styled_edge(g.edges[m]),
        decreases graph.edges.len() - j,
    {
        edges.push(style_edge(&graph.edges[j]));
        j = j + 1;
    }
    let mut subgraphs: Vec<DepGraph> = Vec::new();
    let mut s: usize = 0;
    while s < graph.subgraphs.len()
        invariant
            s <= graph.subgraphs.len(),
            g == graph@,
            subgraphs.len() == s,
            forall|m: int| 0 <= m < s ==> #[trigger] subgraphs@[m]@ == styled(g.subgraphs[m]),
        decreases graph.subgraphs.len() - s,
    {
        proof {
            lemma_graph_view_subgraph(*graph, s as int);
        }
        subgraphs.push(style_graph(&graph.subgraphs[s]));
        s = s + 1;
    }
    let id = match &graph.id {
        Some(t) => Some(t.clone()),
        None => None,
    };
    let r = DepGraph { id, attrs: crate::maps::str_map_clone(&graph.attrs), nodes, edges, subgraphs };
    proof {
        if r.subgraphs@.len() > 0 {
            lemma_graph_view_subgraph(r, 0);
        }
        assert forall|m: int| 0 <= m < r.subgraphs@.len() implies r@.subgraphs[m] == styled(g).subgraphs[m] by {
            lemma_graph_view_subgraph(r, m);
        }
        assert(r@.subgraphs =~= styled(g).subgraphs);
        assert(r@.edges =~= styled(g).edges);
    }
    assert(r@ =~= styled(g));
    r
}

} // verus!
