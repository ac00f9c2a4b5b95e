//! The dependency graph model shared by every parser, emitter and algorithm.
use indexmap::IndexMap;
use vstd::prelude::*;

use crate::maps::{
    adj_entries, adj_map_get_index_of, adj_map_insert, adj_map_new, adj_map_push_at, str_views,
    node_map_get_index, node_map_insert, node_map_len,
    find_key, has_key, insert_entry, lemma_find_key, lemma_find_key_same_keys, node_entries, node_map_new, str_entries, str_map_clone,
    str_map_new, insert_sorted, sorted_by_key,
};
use crate::text::seq_less;

verus! {

/// Node metadata.
#[derive(Clone, Debug)]
pub struct NodeInfo {
    pub label: String,
    /// Node type/kind (e.g. "lib", "bin", "proc-macro", "build-script").
    pub node_type: Option<String>,
    /// Arbitrary extra attributes, in insertion order.
    pub attrs: IndexMap<String, String>,
}

/// A directed edge between two node ids.
#[derive(Clone, Debug)]
pub struct Edge {
    pub from: String,
    pub to: String,
    pub label: Option<String>,
    /// Arbitrary extra attributes (e.g. DOT `style`, `color`).
    pub attrs: IndexMap<String, String>,
}

/// A dependency graph: nodes, edges, attributes and nested subgraphs.
#[derive(Debug)]
pub struct DepGraph {
    /// Graph or subgraph identifier (e.g. DOT `digraph <id>`).
    pub id: Option<String>,
    /// Graph-level attributes (e.g. DOT `rankdir`).
    pub attrs: IndexMap<String, String>,
    pub nodes: IndexMap<String, NodeInfo>,
    pub edges: Vec<Edge>,
    /// Nested subgraphs, each owning its own nodes and edges.
    pub subgraphs: Vec<DepGraph>,
}

pub type Attrs = Seq<(Seq<char>, Seq<char>)>;

/// The mathematical content of a [`NodeInfo`].
pub struct NodeView {
    pub label: Seq<char>,
    pub node_type: Option<Seq<char>>,
    pub attrs: Attrs,
}

/// The mathematical content of an [`Edge`].
pub struct EdgeView {
    pub from: Seq<char>,
    pub to: Seq<char>,
    pub label: Option<Seq<char>>,
    pub attrs: Attrs,
}

/// The mathematical content of a [`DepGraph`].
pub struct GraphView {
    pub id: Option<Seq<char>>,
    pub attrs: Attrs,
    pub nodes: Seq<(Seq<char>, NodeView)>,
    pub edges: Seq<EdgeView>,
    pub subgraphs: Seq<GraphView>,
}

pub open spec fn opt_str(o: Option<String>) -> Option<Seq<char>> {
    match o {
        Some(s) => Some(s@),
        None => None,
    }
}

impl View for NodeInfo {
    type V = NodeView;

    open spec fn view(&self) -> NodeView {
        NodeView { label: self.label@, node_type: opt_str(self.node_type), attrs: str_entries(self.attrs) }
    }
}

impl View for Edge {
    type V = EdgeView;

    open spec fn view(&self) -> EdgeView {
        EdgeView {
            from: self.from@,
            to: self.to@,
            label: opt_str(self.label),
            attrs: str_entries(self.attrs),
        }
    }
}

/// Node entries with each node taken by its view.
pub open spec fn node_views(s: Seq<(Seq<char>, NodeInfo)>) -> Seq<(Seq<char>, NodeView)> {
    s.map_values(|e: (Seq<char>, NodeInfo)| (e.0, e.1@))
}

pub open spec fn edge_views(s: Seq<Edge>) -> Seq<EdgeView> {
    s.map_values(|e: Edge| e@)
}

impl DepGraph {
    pub open spec fn graph_view(self) -> GraphView
        decreases self,
    {
        GraphView {
            id: opt_str(self.id),
            attrs: str_entries(self.attrs),
            nodes: node_views(node_entries(self.nodes)),
            edges: edge_views(self.edges@),
            subgraphs: Seq::new(
                self.subgraphs@.len(),
                |i: int|
                    if 0 <= i < self.subgraphs@.len() {
                        self.subgraphs@[i].graph_view()
                    } else {
                        arbitrary()
                    },
            ),
        }
    }
}

impl View for DepGraph {
    type V = GraphView;

    open spec fn view(&self) -> GraphView {
        self.graph_view()
    }
}

} // verus!

verus! {

pub proof fn lemma_node_views_insert(s: Seq<(Seq<char>, NodeInfo)>, k: Seq<char>, v: NodeInfo)
    ensures
        node_views(insert_entry(s, k, v)) == insert_entry(node_views(s), k, v@),
{
    let t = node_views(s);
    assert forall|i: int| 0 <= i < s.len() implies s[i].0 == t[i].0 by {}
    lemma_find_key_same_keys(s, t, k);
    lemma_find_key(s, k);
    let a = node_views(insert_entry(s, k, v));
    let b = insert_entry(node_views(s), k, v@);
    if find_key(s, k) >= 0 {
        assert(a.len() == b.len());
        assert forall|i: int| 0 <= i < a.len() implies a[i] == b[i] by {}
    } else {
        assert(a.len() == b.len());
        assert forall|i: int| 0 <= i < a.len() implies a[i] == b[i] by {
            if i < s.len() {
            } else {
            }
        }
    }
    assert(a =~= b);
}

impl Default for NodeInfo {
    fn default() -> (r: NodeInfo)
        ensures
            r@ == (NodeView { label: Seq::empty(), node_type: None, attrs: Seq::empty() }),
    {
        NodeInfo { label: String::new(), node_type: None, attrs: str_map_new() }
    }
}

impl Default for Edge {
    fn default() -> (r: Edge)
        ensures
            r@ == (EdgeView { from: Seq::empty(), to: Seq::empty(), label: None, attrs: Seq::empty() }),
    {
        Edge { from: String::new(), to: String::new(), label: None, attrs: str_map_new() }
    }
}

pub open spec fn empty_graph_view() -> GraphView {
    GraphView {
        id: None,
        attrs: Seq::empty(),
        nodes: Seq::empty(),
        edges: Seq::empty(),
        subgraphs: Seq::empty(),
    }
}

impl Default for DepGraph {
    fn default() -> (r: DepGraph)
        ensures
            r@ == empty_graph_view(),
    {
        let r = DepGraph {
            id: None,
            attrs: str_map_new(),
            nodes: node_map_new(),
            edges: Vec::new(),
            subgraphs: Vec::new(),
        };
        assert(r@.nodes =~= Seq::<(Seq<char>, NodeView)>::empty());
        assert(r@.edges =~= Seq::<EdgeView>::empty());
        assert(r@.subgraphs =~= Seq::<GraphView>::empty());
        r
    }
}

impl NodeInfo {
    /// A node with the given label, no type and no attributes.
    pub fn new(label: &str) -> (r: NodeInfo)
        ensures
            r@ == (NodeView { label: label@, node_type: None, attrs: Seq::empty() }),
    {
        NodeInfo { label: label.to_owned(), node_type: None, attrs: str_map_new() }
    }

    /// A copy of this node.
    pub fn duplicate(&self) -> (r: NodeInfo)
        ensures
            r@ == self@,
    {
        let node_type = match &self.node_type {
            Some(t) => Some(t.clone()),
            None => None,
        };
        NodeInfo { label: self.label.clone(), node_type, attrs: str_map_clone(&self.attrs) }
    }
}

impl Edge {
    /// A copy of this edge.
    pub fn duplicate(&self) -> (r: Edge)
        ensures
            r@ == self@,
    {
        let label = match &self.label {
            Some(t) => Some(t.clone()),
            None => None,
        };
        Edge {
            from: self.from.clone(),
            to: self.to.clone(),
            label,
            attrs: str_map_clone(&self.attrs),
        }
    }
}

} // verus!

verus! {

/// `node_views` keeps the keys, so key lookups agree.
pub proof fn lemma_node_views_keys(s: Seq<(Seq<char>, NodeInfo)>)
    ensures
        forall|k: Seq<char>| has_key(node_views(s), k) == has_key(s, k),
{
    let t = node_views(s);
    assert forall|i: int| 0 <= i < s.len() implies s[i].0 == t[i].0 by {}
    assert forall|k: Seq<char>| has_key(t, k) == has_key(s, k) by {
        lemma_find_key_same_keys(s, t, k);
    }
}

/// Taking node views commutes with inserting into key order.
proof fn lemma_node_views_insert_sorted(t: Seq<(Seq<char>, NodeInfo)>, e: (Seq<char>, NodeInfo))
    ensures
        node_views(insert_sorted(t, e)) == insert_sorted(node_views(t), (e.0, e.1@)),
    decreases t.len(),
{
    if t.len() > 0 {
        assert(node_views(t.drop_last()) =~= node_views(t).drop_last());
        if seq_less(e.0, t.last().0) {
            lemma_node_views_insert_sorted(t.drop_last(), e);
            assert(node_views(insert_sorted(t.drop_last(), e).push(t.last())) =~= node_views(
                insert_sorted(t.drop_last(), e),
            ).push((t.last().0, t.last().1@)));
        } else {
            assert(node_views(t.push(e)) =~= node_views(t).push((e.0, e.1@)));
        }
    } else {
        assert(node_views(seq![e]) =~= seq![(e.0, e.1@)]);
    }
}

/// Taking node views commutes with sorting by key.
pub proof fn lemma_node_views_sorted(s: Seq<(Seq<char>, NodeInfo)>)
    ensures
        node_views(sorted_by_key(s)) == sorted_by_key(node_views(s)),
    decreases s.len(),
{
    if s.len() > 0 {
        lemma_node_views_sorted(s.drop_last());
        assert(node_views(s.drop_last()) =~= node_views(s).drop_last());
        lemma_node_views_insert_sorted(sorted_by_key(s.drop_last()), s.last());
    } else {
        assert(node_views(s) =~= s.map_values(|e: (Seq<char>, NodeInfo)| (e.0, e.1@)));
    }
}

} // verus!

verus! {

/// `acc` after inserting the entries of `s` in order.
pub open spec fn insert_all<V>(acc: Seq<(Seq<char>, V)>, s: Seq<(Seq<char>, V)>) -> Seq<(Seq<char>, V)>
    decreases s.len(),
{
    if s.len() == 0 {
        acc
    } else {
        insert_all(insert_entry(acc, s[0].0, s[0].1), s.drop_first())
    }
}

/// All nodes of `g` and its subgraphs (depth first, a graph's own nodes
/// before its subgraphs'), inserted into `acc` in that order.
pub open spec fn collect_nodes(acc: Seq<(Seq<char>, NodeView)>, g: GraphView) -> Seq<(Seq<char>, NodeView)>
    decreases g, 0nat,
{
    collect_nodes_list(insert_all(acc, g.nodes), g.subgraphs, g.subgraphs.len())
}

pub open spec fn collect_nodes_list(acc: Seq<(Seq<char>, NodeView)>, sgs: Seq<GraphView>, n: nat) -> Seq<(Seq<char>, NodeView)>
    decreases sgs, n,
{
    if n == 0 || n > sgs.len() {
        acc
    } else {
        collect_nodes(collect_nodes_list(acc, sgs, (n - 1) as nat), sgs[n - 1])
    }
}

/// All edges of `g` and its subgraphs, depth first.
pub open spec fn collect_edges(g: GraphView) -> Seq<EdgeView>
    decreases g, 0nat,
{
    g.edges + collect_edges_list(g.subgraphs, g.subgraphs.len())
}

pub open spec fn collect_edges_list(sgs: Seq<GraphView>, n: nat) -> Seq<EdgeView>
    decreases sgs, n,
{
    if n == 0 || n > sgs.len() {
        seq![]
    } else {
        collect_edges_list(sgs, (n - 1) as nat) + collect_edges(sgs[n - 1])
    }
}

/// The nodes of the whole graph, as `all_nodes` returns them.
pub open spec fn all_nodes_spec(g: GraphView) -> Seq<(Seq<char>, NodeView)> {
    collect_nodes(Seq::empty(), g)
}

pub proof fn lemma_graph_view_subgraph(g: DepGraph, i: int)
    requires
        0 <= i < g.subgraphs@.len(),
    ensures
        g@.subgraphs[i] == g.subgraphs@[i]@,
        g@.subgraphs.len() == g.subgraphs@.len(),
{
}

impl DepGraph {
    fn collect_nodes_into(&self, result: &mut IndexMap<String, NodeInfo>)
        ensures
            node_views(node_entries(*final(result))) == collect_nodes(node_views(node_entries(*old(result))), self@),
        decreases self,
    {
        let n = node_map_len(&self.nodes);
        let ghost own = node_views(node_entries(self.nodes));
        let ghost start = node_views(node_entries(*result));
        let mut i: usize = 0;
        assert(own.skip(0) =~= own);
        while i < n
            invariant
                i <= n == own.len(),
                own == node_views(node_entries(self.nodes)),
                insert_all(start, own) == insert_all(node_views(node_entries(*result)), own.skip(i as int)),
            decreases n - i,
        {
            let (k, v) = node_map_get_index(&self.nodes, i).unwrap();
            let v2 = v.duplicate();
            proof {
                lemma_node_views_insert(node_entries(*result), k@, v2);
                assert(own.skip(i as int)[0] == (k@, v2@));
                assert(own.skip(i as int).drop_first() =~= own.skip(i + 1));
            }
            node_map_insert(result, k.clone(), v2);
            i = i + 1;
        }
        assert(own.skip(n as int) =~= Seq::<(Seq<char>, NodeView)>::empty());
        let ghost mid = node_views(node_entries(*result));
        let mut j: usize = 0;
        while j < self.subgraphs.len()
            invariant
                j <= self.subgraphs@.len(),
                self@.subgraphs.len() == self.subgraphs@.len(),
                node_views(node_entries(*result)) == collect_nodes_list(mid, self@.subgraphs, j as nat),
            decreases self.subgraphs@.len() - j,
        {
            proof {
                lemma_graph_view_subgraph(*self, j as int);
            }
            self.subgraphs[j].collect_nodes_into(result);
            j = j + 1;
        }
    }

    /// All nodes of this graph and its nested subgraphs, depth first. A node
    /// id seen again keeps its first position and takes the later data.
    pub fn all_nodes(&self) -> (r: IndexMap<String, NodeInfo>)
        ensures
            node_views(node_entries(r)) == all_nodes_spec(self@),
    {
        let mut r = node_map_new();
        assert(node_views(node_entries(r)) =~= Seq::<(Seq<char>, NodeView)>::empty());
        self.collect_nodes_into(&mut r);
        r
    }

    fn collect_edges_into(&self, result: &mut Vec<Edge>)
        ensures
            edge_views(final(result)@) == edge_views(old(result)@) + collect_edges(self@),
        decreases self,
    {
        let ghost start = edge_views(result@);
        let mut i: usize = 0;
        while i < self.edges.len()
            invariant
                i <= self.edges@.len(),
                edge_views(result@) == start + edge_views(self.edges@.take(i as int)),
            decreases self.edges@.len() - i,
        {
            let e = self.edges[i].duplicate();
            let ghost before = result@;
            result.push(e);
            assert(edge_views(result@) =~= edge_views(before).push(e@));
            assert(edge_views(self.edges@.take(i + 1)) =~= edge_views(self.edges@.take(i as int)).push(e@));
            i = i + 1;
        }
        assert(self.edges@.take(self.edges@.len() as int) =~= self.edges@);
        let ghost mid = edge_views(result@);
        let mut j: usize = 0;
        assert(mid =~= start + self@.edges + collect_edges_list(self@.subgraphs, 0));
        while j < self.subgraphs.len()
            invariant
                j <= self.subgraphs@.len(),
                self@.subgraphs.len() == self.subgraphs@.len(),
                edge_views(result@) == start + self@.edges + collect_edges_list(self@.subgraphs, j as nat),
            decreases self.subgraphs@.len() - j,
        {
            proof {
                lemma_graph_view_subgraph(*self, j as int);
            }
            self.subgraphs[j].collect_edges_into(result);
            j = j + 1;
            assert(edge_views(result@) =~= start + self@.edges + collect_edges_list(self@.subgraphs, j as nat));
        }
    }

    /// All edges of this graph and its nested subgraphs, depth first.
    pub fn all_edges(&self) -> (r: Vec<Edge>)
        ensures
            edge_views(r@) == collect_edges(self@),
    {
        let mut r: Vec<Edge> = Vec::new();
        assert(edge_views(r@) =~= Seq::<EdgeView>::empty());
        self.collect_edges_into(&mut r);
        assert(edge_views(r@) =~= collect_edges(self@));
        r
    }
}

} // verus!

verus! {

/// Adjacency lists of `edges`: each source id, in order of first appearance,
/// with its targets in edge order.
pub open spec fn adjacency(edges: Seq<EdgeView>) -> Seq<(Seq<char>, Seq<Seq<char>>)>
    decreases edges.len(),
{
    if edges.len() == 0 {
        seq![]
    } else {
        let acc = adjacency(edges.drop_last());
        let e = edges.last();
        let i = find_key(acc, e.from);
        if i >= 0 {
            acc.update(i, (e.from, acc[i].1.push(e.to)))
        } else {
            acc.push((e.from, seq![e.to]))
        }
    }
}

impl DepGraph {
    /// Adjacency lists over all edges of all subgraph levels.
    pub fn adjacency_list(&self) -> (r: IndexMap<String, Vec<String>>)
        ensures
            adj_entries(r) == adjacency(collect_edges(self@)),
    {
        let edges = self.all_edges();
        let ghost es = edge_views(edges@);
        let mut adj = adj_map_new();
        let mut i: usize = 0;
        assert(es.take(0) =~= Seq::<EdgeView>::empty());
        while i < edges.len()
            invariant
                i <= edges@.len(),
                es == edge_views(edges@),
                adj_entries(adj) == adjacency(es.take(i as int)),
            decreases edges@.len() - i,
        {
            let e = &edges[i];
            assert(es.take(i + 1).drop_last() =~= es.take(i as int));
            assert(es.take(i + 1).last() == e@);
            proof {
                lemma_find_key(adj_entries(adj), e.from@);
            }
            match adj_map_get_index_of(&adj, e.from.as_str()) {
                Some(j) => {
                    adj_map_push_at(&mut adj, j, e.to.clone());
                },
                None => {
                    let mut v: Vec<String> = Vec::new();
                    v.push(e.to.clone());
                    assert(str_views(v@) =~= seq![e.to@]);
                    proof {
                        assert(!has_key(adj_entries(adj), e.from@));
                    }
                    adj_map_insert(&mut adj, e.from.clone(), v);
                },
            }
            i = i + 1;
        }
        assert(es.take(edges@.len() as int) =~= es);
        adj
    }
}

} // verus!

verus! {

/// A copy of a node map, entry by entry.
pub fn copy_node_map(m: &IndexMap<String, NodeInfo>) -> (r: IndexMap<String, NodeInfo>)
    ensures
        node_views(node_entries(r)) == node_views(node_entries(*m)),
{
    let n = node_map_len(m);
    let ghost src = node_views(node_entries(*m));
    let mut r = node_map_new();
    let mut i: usize = 0;
    assert(node_views(node_entries(r)) =~= src.take(0));
    while i < n
        invariant
            i <= n == src.len() == node_entries(*m).len(),
            src == node_views(node_entries(*m)),
            node_views(node_entries(r)) == src.take(i as int),
        decreases n - i,
    {
        let (k, v) = node_map_get_index(m, i).unwrap();
        let v2 = v.duplicate();
        proof {
            lemma_node_views_insert(node_entries(r), k@, v2);
            lemma_find_key(node_entries(r), k@);
            if find_key(node_entries(r), k@) >= 0 {
                let j = find_key(node_entries(r), k@);
                assert(node_views(node_entries(r))[j].0 == node_entries(r)[j].0);
                assert(src[j].0 == node_entries(*m)[j].0);
                assert(node_entries(*m)[j].0 != k@);
            }
        }
        node_map_insert(&mut r, k.clone(), v2);
        i = i + 1;
        assert(node_views(node_entries(r)) =~= src.take(i as int));
    }
    assert(src.take(n as int) =~= src);
    r
}

impl DepGraph {
    /// A deep copy of this graph.
    pub fn duplicate(&self) -> (r: DepGraph)
        ensures
            r@ == self@,
        decreases self,
    {
        let id = match &self.id {
            Some(s) => Some(s.clone()),
            None => None,
        };
        let mut edges: Vec<Edge> = Vec::new();
        let mut i: usize = 0;
        while i < self.edges.len()
            invariant
                i <= self.edges@.len(),
                edge_views(edges@) == edge_views(self.edges@.take(i as int)),
            decreases self.edges@.len() - i,
        {
            let e = self.edges[i].duplicate();
            let ghost before = edges@;
            edges.push(e);
            assert(edge_views(edges@) =~= edge_views(before).push(e@));
            assert(edge_views(self.edges@.take(i + 1)) =~= edge_views(self.edges@.take(i as int)).push(e@));
            i = i + 1;
        }
        assert(self.edges@.take(self.edges@.len() as int) =~= self.edges@);
        let mut subgraphs: Vec<DepGraph> = Vec::new();
        let mut j: usize = 0;
        while j < self.subgraphs.len()
            invariant
                j <= self.subgraphs@.len(),
                subgraphs@.len() == j,
                forall|k: int| 0 <= k < j ==> #[trigger] subgraphs@[k]@ == self.subgraphs@[k]@,
            decreases self.subgraphs@.len() - j,
        {
            subgraphs.push(self.subgraphs[j].duplicate());
            j = j + 1;
        }
        let r = DepGraph {
            id,
            attrs: str_map_clone(&self.attrs),
            nodes: copy_node_map(&self.nodes),
            edges,
            subgraphs,
        };
        assert forall|k: int| 0 <= k < self.subgraphs@.len() implies r@.subgraphs[k] == self@.subgraphs[k] by {
            lemma_graph_view_subgraph(r, k);
            lemma_graph_view_subgraph(*self, k);
        }
        assert(r@.subgraphs =~= self@.subgraphs);
        r
    }
}

} // verus!
