//! Mermaid flowchart input: the flowchart as the Mermaid grammar of
//! `mermaid-rs-renderer` reads it, and the dependency graph built from it.
use vstd::prelude::*;

use crate::graph::{
    lemma_graph_view_subgraph, lemma_node_views_insert, node_views, opt_str, Attrs, DepGraph, Edge, EdgeView, GraphView, NodeInfo,
    NodeView,
};
use crate::maps::{
    find_key, insert_entry, lemma_find_key, node_entries, node_map_insert, str_entries, str_map_insert,
    str_map_new, str_views,
};
use crate::parse::ParseError;
use crate::text::{push_str, str_eq};

verus! {

broadcast use vstd::string::group_string_axioms;

// ---------------------------------------------------------------------------
// The flowchart
// ---------------------------------------------------------------------------
/// A flowchart node; `shape` and the directions and edge styles below are
/// the names of the grammar's variants (`DoubleCircle`, `LeftRight`, ...).
pub struct MermaidNode {
    pub id: String,
    pub label: String,
    pub shape: String,
    /// The position at which the node was first declared, if recorded.
    pub order: Option<usize>,
}

/// A flowchart subgraph: its id, its title, the ids of its nodes, its direction.
pub struct MermaidSubgraph {
    pub id: Option<String>,
    pub label: String,
    pub nodes: Vec<String>,
    pub direction: Option<String>,
}

/// A flowchart edge.
pub struct MermaidEdge {
    pub from: String,
    pub to: String,
    pub label: Option<String>,
    pub style: String,
}

/// A flowchart: its direction, its nodes (by id), its subgraphs and edges in order.
pub struct MermaidFlow {
    pub direction: String,
    pub nodes: Vec<MermaidNode>,
    pub subgraphs: Vec<MermaidSubgraph>,
    pub edges: Vec<MermaidEdge>,
}

pub struct MNodeV {
    pub id: Seq<char>,
    pub label: Seq<char>,
    pub shape: Seq<char>,
    pub order: Option<usize>,
}

pub struct MSubV {
    pub id: Option<Seq<char>>,
    pub label: Seq<char>,
    pub nodes: Seq<Seq<char>>,
    pub direction: Option<Seq<char>>,
}

pub struct MEdgeV {
    pub from: Seq<char>,
    pub to: Seq<char>,
    pub label: Option<Seq<char>>,
    pub style: Seq<char>,
}

pub struct FlowV {
    pub direction: Seq<char>,
    pub nodes: Seq<MNodeV>,
    pub subgraphs: Seq<MSubV>,
    pub edges: Seq<MEdgeV>,
}

impl View for MermaidNode {
    type V = MNodeV;

    open spec fn view(&self) -> MNodeV {
        MNodeV { id: self.id@, label: self.label@, shape: self.shape@, order: self.order }
    }
}

impl View for MermaidSubgraph {
    type V = MSubV;

    open spec fn view(&self) -> MSubV {
        MSubV { id: opt_str(self.id), label: self.label@, nodes: str_views(self.nodes@), direction: opt_str(self.direction) }
    }
}

impl View for MermaidEdge {
    type V = MEdgeV;

    open spec fn view(&self) -> MEdgeV {
        MEdgeV { from: self.from@, to: self.to@, label: opt_str(self.label), style: self.style@ }
    }
}

impl View for MermaidFlow {
    type V = FlowV;

    open spec fn view(&self) -> FlowV {
        FlowV {
            direction: self.direction@,
            nodes: self.nodes@.map_values(|n: MermaidNode| n@),
            subgraphs: self.subgraphs@.map_values(|s: MermaidSubgraph| s@),
            edges: self.edges@.map_values(|e: MermaidEdge| e@),
        }
    }
}

// ---------------------------------------------------------------------------
// The Mermaid grammar (mermaid-rs-renderer)
// ---------------------------------------------------------------------------
#[verifier::external_type_specification]
#[verifier::external_body]
pub struct ExMermaidGraph(mermaid_rs_renderer::ir::Graph);

/// The flowchart that `parse_mermaid` of `mermaid-rs-renderer` reads from
/// `input`, or `None` where it rejects the input.
pub uninterp spec fn mermaid_syntax(input: Seq<char>) -> Option<FlowV>;

/// `parse_mermaid` on `input`, its graph turned into a [`MermaidFlow`]: `Ok`
/// exactly where the grammar accepts `input`, with what it reads. The text of
/// the error is not stated.
#[verifier::external_body]
fn syntax_flow(input: &str) -> (r: Result<MermaidFlow, String>)
    ensures
        r matches Ok(f) ==> mermaid_syntax(input@) == Some(f@),
        r is Err == mermaid_syntax(input@) is None,
{
    match mermaid_rs_renderer::parse_mermaid(input) {
        Ok(out) => Ok(convert_flow(&out.graph)),
        Err(e) => Err(e.to_string()),
    }
}

/// A `mermaid-rs-renderer` graph as a [`MermaidFlow`]; variants by their names.
#[verifier::external_body]
fn convert_flow(g: &mermaid_rs_renderer::ir::Graph) -> MermaidFlow {
    MermaidFlow {
        direction: format!("{:?}", g.direction),
        nodes: convert_nodes(g),
        subgraphs: convert_subgraphs(g),
        edges: convert_edges(g),
    }
}

/// The nodes of a `mermaid-rs-renderer` graph, in the order of its node map
/// (by id), each with its recorded declaration order.
#[verifier::external_body]
fn convert_nodes(g: &mermaid_rs_renderer::ir::Graph) -> Vec<MermaidNode> {
    g.nodes.values().map(|n| MermaidNode {
        id: n.id.clone(),
        label: n.label.clone(),
        shape: format!("{:?}", n.shape),
        order: g.node_order.get(&n.id).copied(),
    }).collect()
}

/// The subgraphs of a `mermaid-rs-renderer` graph, in order.
#[verifier::external_body]
fn convert_subgraphs(g: &mermaid_rs_renderer::ir::Graph) -> Vec<MermaidSubgraph> {
    g.subgraphs.iter().map(|s| MermaidSubgraph {
        id: s.id.clone(),
        label: s.label.clone(),
        nodes: s.nodes.clone(),
        direction: s.direction.map(|d| format!("{:?}", d)),
    }).collect()
}

/// The edges of a `mermaid-rs-renderer` graph, in order.
#[verifier::external_body]
fn convert_edges(g: &mermaid_rs_renderer::ir::Graph) -> Vec<MermaidEdge> {
    g.edges.iter().map(|e| MermaidEdge {
        from: e.from.clone(),
        to: e.to.clone(),
        label: e.label.clone(),
        style: format!("{:?}", e.style),
    }).collect()
}

// ---------------------------------------------------------------------------
// What a flowchart means
// ---------------------------------------------------------------------------
/// The short name of a direction: `TD`, `LR`, `BT`, `RL` (any other name is kept).
pub open spec fn direction_text(d: Seq<char>) -> Seq<char> {
    if d == "TopDown"@ {
        "TD"@
    } else if d == "LeftRight"@ {
        "LR"@
    } else if d == "BottomTop"@ {
        "BT"@
    } else if d == "RightLeft"@ {
        "RL"@
    } else {
        d
    }
}

/// The `shape` attribute of a node shape; plain rectangles (and the shapes
/// drawn as such) have none.
pub open spec fn shape_text(s: Seq<char>) -> Option<Seq<char>> {
    if s == "RoundRect"@ {
        Some("rounded"@)
    } else if s == "Stadium"@ {
        Some("stadium"@)
    } else if s == "Subroutine"@ {
        Some("subroutine"@)
    } else if s == "Cylinder"@ {
        Some("cylinder"@)
    } else if s == "Circle"@ {
        Some("circle"@)
    } else if s == "DoubleCircle"@ {
        Some("doublecircle"@)
    } else if s == "Diamond"@ {
        Some("diamond"@)
    } else if s == "Hexagon"@ {
        Some("hexagon"@)
    } else if s == "Parallelogram"@ {
        Some("parallelogram"@)
    } else if s == "ParallelogramAlt"@ {
        Some("parallelogram-alt"@)
    } else if s == "Trapezoid"@ {
        Some("trapezoid"@)
    } else if s == "TrapezoidAlt"@ {
        Some("trapezoid-alt"@)
    } else if s == "Asymmetric"@ {
        Some("asymmetric"@)
    } else if s == "Text"@ {
        Some("plaintext"@)
    } else {
        None
    }
}

/// The `style` attribute of an edge style; solid edges have none.
pub open spec fn style_text(s: Seq<char>) -> Option<Seq<char>> {
    if s == "Dotted"@ {
        Some("dotted"@)
    } else if s == "Thick"@ {
        Some("thick"@)
    } else {
        None
    }
}

/// The single attribute `k = v`, when there is a value.
pub open spec fn one_attr(k: Seq<char>, v: Option<Seq<char>>) -> Attrs {
    match v {
        Some(t) => seq![(k, t)],
        None => Seq::empty(),
    }
}

/// The node a flowchart node becomes: its label, and its shape as an attribute.
pub open spec fn node_model(n: MNodeV) -> NodeView {
    NodeView { label: n.label, node_type: None, attrs: one_attr("shape"@, shape_text(n.shape)) }
}

/// The edge a flowchart edge becomes: its label, and its style as an attribute.
pub open spec fn edge_model(e: MEdgeV) -> EdgeView {
    EdgeView { from: e.from, to: e.to, label: e.label, attrs: one_attr("style"@, style_text(e.style)) }
}

/// The sort key of a node: its declaration order, unrecorded ones last.
pub open spec fn order_key(n: MNodeV) -> int {
    match n.order {
        Some(k) => k as int,
        None => usize::MAX as int,
    }
}

/// `t` with `e` inserted after the last node whose key is not greater.
pub open spec fn insert_by_order(t: Seq<MNodeV>, e: MNodeV) -> Seq<MNodeV>
    decreases t.len(),
{
    if t.len() == 0 {
        seq![e]
    } else if order_key(e) < order_key(t.last()) {
        insert_by_order(t.drop_last(), e).push(t.last())
    } else {
        t.push(e)
    }
}

/// The nodes in declaration order (a stable sort by `order_key`).
pub open spec fn sort_by_order(s: Seq<MNodeV>) -> Seq<MNodeV>
    decreases s.len(),
{
    if s.len() == 0 {
        s
    } else {
        insert_by_order(sort_by_order(s.drop_last()), s.last())
    }
}

/// Whether some subgraph lists node `id`.
pub open spec fn in_some_subgraph(subs: Seq<MSubV>, id: Seq<char>) -> bool {
    exists|i: int, j: int| 0 <= i < subs.len() && 0 <= j < subs[i].nodes.len() && #[trigger] subs[i].nodes[j] == id
}

/// The top-level nodes: those of `ordered` that no subgraph lists.
pub open spec fn top_nodes(ordered: Seq<MNodeV>, subs: Seq<MSubV>) -> Seq<(Seq<char>, NodeView)>
    decreases ordered.len(),
{
    if ordered.len() == 0 {
        Seq::empty()
    } else {
        let acc = top_nodes(ordered.drop_last(), subs);
        let n = ordered.last();
        if in_some_subgraph(subs, n.id) {
            acc
        } else {
            insert_entry(acc, n.id, node_model(n))
        }
    }
}

/// The first node with id `id`.
pub open spec fn lookup_node(ns: Seq<MNodeV>, id: Seq<char>) -> Option<MNodeV>
    decreases ns.len(),
{
    if ns.len() == 0 {
        None
    } else if ns[0].id == id {
        Some(ns[0])
    } else {
        lookup_node(ns.drop_first(), id)
    }
}

/// The nodes of a subgraph: those of its listed ids that are nodes, in its order.
pub open spec fn sub_nodes(ids: Seq<Seq<char>>, ns: Seq<MNodeV>) -> Seq<(Seq<char>, NodeView)>
    decreases ids.len(),
{
    if ids.len() == 0 {
        Seq::empty()
    } else {
        let acc = sub_nodes(ids.drop_last(), ns);
        match lookup_node(ns, ids.last()) {
            Some(n) => insert_entry(acc, n.id, node_model(n)),
            None => acc,
        }
    }
}

/// A subgraph's attributes: its title when it differs from its id, and its direction.
pub open spec fn sub_attrs(sg: MSubV) -> Attrs {
    let idt = match sg.id {
        Some(i) => i,
        None => Seq::empty(),
    };
    let a0: Attrs = if sg.label != idt { seq![("label"@, sg.label)] } else { Seq::empty() };
    match sg.direction {
        Some(d) => insert_entry(a0, "direction"@, direction_text(d)),
        None => a0,
    }
}

/// The graph a flowchart subgraph becomes.
pub open spec fn sub_model(sg: MSubV, ns: Seq<MNodeV>) -> GraphView {
    GraphView { id: sg.id, attrs: sub_attrs(sg), nodes: sub_nodes(sg.nodes, ns), edges: Seq::empty(), subgraphs: Seq::empty() }
}

/// The dependency graph a flowchart describes: its direction as an attribute,
/// one subgraph per flowchart subgraph holding the nodes it lists, the other
/// nodes at the top in declaration order, and every edge at the top.
pub open spec fn mermaid_model(f: FlowV) -> GraphView {
    GraphView {
        id: None,
        attrs: seq![("direction"@, direction_text(f.direction))],
        nodes: top_nodes(sort_by_order(f.nodes), f.subgraphs),
        edges: f.edges.map_values(|e: MEdgeV| edge_model(e)),
        subgraphs: f.subgraphs.map_values(|s: MSubV| sub_model(s, f.nodes)),
    }
}

} // verus!

verus! {

// ---------------------------------------------------------------------------
// Building the graph
// ---------------------------------------------------------------------------
/// A string with the characters of `t`.
fn text_of(t: &str) -> (r: String)
    ensures
        r@ == t@,
{
    let mut r = String::new();
    push_str(&mut r, t);
    r
}

/// The short name of a direction.
fn direction_name(d: &String) -> (r: String)
    ensures
        r@ == direction_text(d@),
{
    if str_eq(d.as_str(), "TopDown") {
        text_of("TD")
    } else if str_eq(d.as_str(), "LeftRight") {
        text_of("LR")
    } else if str_eq(d.as_str(), "BottomTop") {
        text_of("BT")
    } else if str_eq(d.as_str(), "RightLeft") {
        text_of("RL")
    } else {
        d.clone()
    }
}

/// The `shape` attribute of a node shape, if any.
fn shape_name(s: &String) -> (r: Option<String>)
    ensures
        opt_str(r) == shape_text(s@),
{
    let t = s.as_str();
    if str_eq(t, "RoundRect") {
        Some(text_of("rounded"))
    } else if str_eq(t, "Stadium") {
        Some(text_of("stadium"))
    } else if str_eq(t, "Subroutine") {
        Some(text_of("subroutine"))
    } else if str_eq(t, "Cylinder") {
        Some(text_of("cylinder"))
    } else if str_eq(t, "Circle") {
        Some(text_of("circle"))
    } else if str_eq(t, "DoubleCircle") {
        Some(text_of("doublecircle"))
    } else if str_eq(t, "Diamond") {
        Some(text_of("diamond"))
    } else if str_eq(t, "Hexagon") {
        Some(text_of("hexagon"))
    } else if str_eq(t, "Parallelogram") {
        Some(text_of("parallelogram"))
    } else if str_eq(t, "ParallelogramAlt") {
        Some(text_of("parallelogram-alt"))
    } else if str_eq(t, "Trapezoid") {
        Some(text_of("trapezoid"))
    } else if str_eq(t, "TrapezoidAlt") {
        Some(text_of("trapezoid-alt"))
    } else if str_eq(t, "Asymmetric") {
        Some(text_of("asymmetric"))
    } else if str_eq(t, "Text") {
        Some(text_of("plaintext"))
    } else {
        None
    }
}

/// The `style` attribute of an edge style, if any.
fn style_name(s: &String) -> (r: Option<String>)
    ensures
        opt_str(r) == style_text(s@),
{
    if str_eq(s.as_str(), "Dotted") {
        Some(text_of("dotted"))
    } else if str_eq(s.as_str(), "Thick") {
        Some(text_of("thick"))
    } else {
        None
    }
}

/// An attribute map with the single attribute `k = v`, when there is a value.
fn one_attr_map(k: &str, v: Option<String>) -> (r: indexmap::IndexMap<String, String>)
    ensures
        str_entries(r) == one_attr(k@, opt_str(v)),
{
    let mut m = str_map_new();
    match v {
        Some(t) => {
            str_map_insert(&mut m, text_of(k), t);
            assert(str_entries(m) =~= seq![(k@, opt_str(v)->0)]);
        },
        None => {},
    }
    m
}

/// The node a flowchart node becomes.
fn node_info(n: &MermaidNode) -> (r: NodeInfo)
    ensures
        r@ == node_model(n@),
{
    NodeInfo { label: n.label.clone(), node_type: None, attrs: one_attr_map("shape", shape_name(&n.shape)) }
}

/// The edge a flowchart edge becomes.
fn edge_of(e: &MermaidEdge) -> (r: Edge)
    ensures
        r@ == edge_model(e@),
{
    let label = match &e.label {
        Some(l) => Some(l.clone()),
        None => None,
    };
    Edge { from: e.from.clone(), to: e.to.clone(), label, attrs: one_attr_map("style", style_name(&e.style)) }
}

/// The sort key of a node.
fn key_of(n: &MermaidNode) -> (k: usize)
    ensures
        k == order_key(n@),
{
    match n.order {
        Some(k) => k,
        None => usize::MAX,
    }
}

/// Inserting into key order after the nodes from position `j` on, all of
/// greater key, and before the ones up to `j`.
proof fn lemma_insert_by_order(t: Seq<MNodeV>, e: MNodeV, j: int)
    requires
        0 <= j <= t.len(),
        forall|m: int| j <= m < t.len() ==> order_key(e) < order_key(#[trigger] t[m]),
        j == 0 || !(order_key(e) < order_key(t[j - 1])),
    ensures
        insert_by_order(t, e) == t.take(j).push(e) + t.skip(j),
    decreases t.len(),
{
    if t.len() == j {
        if j == 0 {
            assert(t.take(0).push(e) + t.skip(0) =~= seq![e]);
        } else {
            assert(t.take(j).push(e) + t.skip(j) =~= t.push(e));
        }
    } else {
        let d = t.drop_last();
        assert(order_key(e) < order_key(t[t.len() - 1]));
        assert forall|m: int| j <= m < d.len() implies order_key(e) < order_key(#[trigger] d[m]) by {
            assert(d[m] == t[m]);
        }
        if j > 0 {
            assert(d[j - 1] == t[j - 1]);
        }
        lemma_insert_by_order(d, e, j);
        assert(d.take(j).push(e) + d.skip(j) + seq![t.last()] =~= t.take(j).push(e) + t.skip(j));
    }
}

/// The positions of the nodes in declaration order (a stable sort).
fn order_positions(ns: &Vec<MermaidNode>) -> (r: Vec<usize>)
    ensures
        forall|i: int| 0 <= i < r.len() ==> r@[i] < ns.len(),
        r@.map_values(|i: usize| ns@[i as int]@) == sort_by_order(ns@.map_values(|n: MermaidNode| n@)),
{
    let ghost nv = ns@.map_values(|n: MermaidNode| n@);
    let mut out: Vec<usize> = Vec::new();
    let mut k: usize = 0;
    assert(out@.map_values(|i: usize| ns@[i as int]@) =~= sort_by_order(nv.take(0)));
    while k < ns.len()
        invariant
            k <= ns.len(),
            nv == ns@.map_values(|n: MermaidNode| n@),
            forall|i: int| 0 <= i < out.len() ==> out@[i] < k,
            out@.map_values(|i: usize| ns@[i as int]@) == sort_by_order(nv.take(k as int)),
        decreases ns.len() - k,
    {
        let ghost t = out@.map_values(|i: usize| ns@[i as int]@);
        let key = key_of(&ns[k]);
        let mut j = out.len();
        while j > 0 && key < key_of(&ns[out[j - 1]])
            invariant
                0 <= j <= out.len(),
                key == order_key(nv[k as int]),
                k < ns.len(),
                nv == ns@.map_values(|n: MermaidNode| n@),
                t == out@.map_values(|i: usize| ns@[i as int]@),
                forall|i: int| 0 <= i < out.len() ==> out@[i] < k,
                forall|m: int| j <= m < t.len() ==> key < order_key(#[trigger] t[m]),
            decreases j,
        {
            j = j - 1;
        }
        proof {
            assert(nv[k as int] == ns@[k as int]@);
            assert(nv.take(k + 1).drop_last() =~= nv.take(k as int));
            assert(nv.take(k + 1).last() == nv[k as int]);
            if j > 0 {
                assert(t[j - 1] == ns@[out@[j - 1] as int]@);
            }
            lemma_insert_by_order(t, nv[k as int], j as int);
        }
        out.insert(j, k);
        proof {
            assert(out@.map_values(|i: usize| ns@[i as int]@) =~= t.take(j as int).push(nv[k as int]) + t.skip(j as int));
        }
        k = k + 1;
    }
    assert(nv.take(ns.len() as int) =~= nv);
    out
}

/// Whether some subgraph lists node `id`.
fn listed_in_subgraph(subs: &Vec<MermaidSubgraph>, id: &String) -> (b: bool)
    ensures
        b == in_some_subgraph(subs@.map_values(|s: MermaidSubgraph| s@), id@),
{
    let ghost sv = subs@.map_values(|s: MermaidSubgraph| s@);
    let mut i: usize = 0;
    while i < subs.len()
        invariant
            i <= subs.len(),
            sv == subs@.map_values(|s: MermaidSubgraph| s@),
            forall|a: int, c: int| 0 <= a < i && 0 <= c < sv[a].nodes.len() ==> #[trigger] sv[a].nodes[c] != id@,
        decreases subs.len() - i,
    {
        let mut j: usize = 0;
        while j < subs[i].nodes.len()
            invariant
                i < subs.len(),
                j <= subs[i as int].nodes.len(),
                sv == subs@.map_values(|s: MermaidSubgraph| s@),
                forall|a: int, c: int| 0 <= a < i && 0 <= c < sv[a].nodes.len() ==> #[trigger] sv[a].nodes[c] != id@,
                forall|c: int| 0 <= c < j ==> #[trigger] sv[i as int].nodes[c] != id@,
            decreases subs[i as int].nodes.len() - j,
        {
            assert(sv[i as int].nodes[j as int] == subs@[i as int].nodes@[j as int]@);
            if str_eq(subs[i].nodes[j].as_str(), id.as_str()) {
                return true;
            }
            j = j + 1;
        }
        i = i + 1;
    }
    false
}

/// The first node with id `id`, by position.
fn find_node(ns: &Vec<MermaidNode>, id: &String) -> (r: Option<usize>)
    ensures
        match r {
            Some(i) => i < ns.len() && lookup_node(ns@.map_values(|n: MermaidNode| n@), id@) == Some(ns@[i as int]@),
            None => lookup_node(ns@.map_values(|n: MermaidNode| n@), id@) is None,
        },
{
    let ghost nv = ns@.map_values(|n: MermaidNode| n@);
    let mut i: usize = 0;
    assert(nv.skip(0) =~= nv);
    while i < ns.len()
        invariant
            i <= ns.len(),
            nv == ns@.map_values(|n: MermaidNode| n@),
            lookup_node(nv, id@) == lookup_node(nv.skip(i as int), id@),
        decreases ns.len() - i,
    {
        assert(nv.skip(i as int)[0] == ns@[i as int]@);
        assert(nv.skip(i as int).drop_first() =~= nv.skip(i + 1));
        if str_eq(ns[i].id.as_str(), id.as_str()) {
            return Some(i);
        }
        i = i + 1;
    }
    None
}

/// Inserting a node into a node map, keeping the node views in step.
fn insert_node(m: &mut indexmap::IndexMap<String, NodeInfo>, k: String, v: NodeInfo)
    ensures
        node_views(node_entries(*final(m))) == insert_entry(node_views(node_entries(*old(m))), k@, v@),
{
    proof {
        lemma_node_views_insert(node_entries(*m), k@, v);
    }
    node_map_insert(m, k, v);
}

/// The graph a flowchart subgraph becomes.
fn subgraph_of(sg: &MermaidSubgraph, ns: &Vec<MermaidNode>) -> (r: DepGraph)
    ensures
        r@ == sub_model(sg@, ns@.map_values(|n: MermaidNode| n@)),
{
    let ghost nv = ns@.map_values(|n: MermaidNode| n@);
    let ghost ids = str_views(sg.nodes@);
    let mut attrs = str_map_new();
    let id_text = match &sg.id {
        Some(i) => i.clone(),
        None => String::new(),
    };
    if !str_eq(sg.label.as_str(), id_text.as_str()) {
        str_map_insert(&mut attrs, text_of("label"), sg.label.clone());
    }
    assert(str_entries(attrs) =~= (if sg@.label != (match sg@.id { Some(i) => i, None => Seq::empty() }) { seq![("label"@, sg@.label)] } else { Seq::<(Seq<char>, Seq<char>)>::empty() }));
    match &sg.direction {
        Some(d) => {
            str_map_insert(&mut attrs, text_of("direction"), direction_name(d));
        },
        None => {},
    }
    let mut nodes = crate::maps::node_map_new();
    let mut j: usize = 0;
    assert(node_views(node_entries(nodes)) =~= sub_nodes(ids.take(0), nv));
    while j < sg.nodes.len()
        invariant
            j <= sg.nodes.len(),
            nv == ns@.map_values(|n: MermaidNode| n@),
            ids == str_views(sg.nodes@),
            node_views(node_entries(nodes)) == sub_nodes(ids.take(j as int), nv),
        decreases sg.nodes.len() - j,
    {
        proof {
            assert(ids.take(j + 1).drop_last() =~= ids.take(j as int));
            assert(ids.take(j + 1).last() == sg.nodes@[j as int]@);
        }
        match find_node(ns, &sg.nodes[j]) {
            Some(i) => {
                insert_node(&mut nodes, ns[i].id.clone(), node_info(&ns[i]));
            },
            None => {},
        }
        j = j + 1;
    }
    assert(ids.take(sg.nodes.len() as int) =~= ids);
    let id = match &sg.id {
        Some(i) => Some(i.clone()),
        None => None,
    };
    let r = DepGraph { id, attrs, nodes, edges: Vec::new(), subgraphs: Vec::new() };
    assert(r@.edges =~= Seq::<EdgeView>::empty());
    assert(r@.subgraphs =~= Seq::<GraphView>::empty());
    assert(r@ =~= sub_model(sg@, nv));
    r
}

/// The dependency graph a flowchart describes.
pub fn graph_from_flow(f: &MermaidFlow) -> (r: DepGraph)
    ensures
        r@ == mermaid_model(f@),
{
    let ghost fv = f@;
    let mut attrs = str_map_new();
    str_map_insert(&mut attrs, text_of("direction"), direction_name(&f.direction));
    assert(str_entries(attrs) =~= seq![("direction"@, direction_text(fv.direction))]);
    let mut subgraphs: Vec<DepGraph> = Vec::new();
    let mut i: usize = 0;
    while i < f.subgraphs.len()
        invariant
            i <= f.subgraphs.len(),
            fv == f@,
            subgraphs.len() == i,
            forall|m: int| 0 <= m < i ==> #[trigger] subgraphs@[m]@ == sub_model(fv.subgraphs[m], fv.nodes),
        decreases f.subgraphs.len() - i,
    {
        subgraphs.push(subgraph_of(&f.subgraphs[i], &f.nodes));
        i = i + 1;
    }
    let order = order_positions(&f.nodes);
    let ghost ov = order@.map_values(|p: usize| f.nodes@[p as int]@);
    let mut nodes = crate::maps::node_map_new();
    let mut k: usize = 0;
    assert(node_views(node_entries(nodes)) =~= top_nodes(ov.take(0), fv.subgraphs));
    while k < order.len()
        invariant
            k <= order.len(),
            fv == f@,
            forall|q: int| 0 <= q < order.len() ==> order@[q] < f.nodes.len(),
            ov == order@.map_values(|p: usize| f.nodes@[p as int]@),
            node_views(node_entries(nodes)) == top_nodes(ov.take(k as int), fv.subgraphs),
        decreases order.len() - k,
    {
        let n = &f.nodes[order[k]];
        proof {
            assert(ov.take(k + 1).drop_last() =~= ov.take(k as int));
            assert(ov.take(k + 1).last() == n@);
        }
        if !listed_in_subgraph(&f.subgraphs, &n.id) {
            insert_node(&mut nodes, n.id.clone(), node_info(n));
        }
        k = k + 1;
    }
    assert(ov.take(order.len() as int) =~= ov);
    let mut edges: Vec<Edge> = Vec::new();
    let mut e: usize = 0;
    while e < f.edges.len()
        invariant
            e <= f.edges.len(),
            fv == f@,
            edges.len() == e,
            forall|m: int| 0 <= m < e ==> #[trigger] edges@[m]@ == edge_model(fv.edges[m]),
        decreases f.edges.len() - e,
    {
        edges.push(edge_of(&f.edges[e]));
        e = e + 1;
    }
    let r = DepGraph { id: None, attrs, nodes, edges, subgraphs };
    proof {
        if r.subgraphs@.len() > 0 {
            lemma_graph_view_subgraph(r, 0);
        }
        assert forall|m: int| 0 <= m < r.subgraphs@.len() implies r@.subgraphs[m] == mermaid_model(fv).subgraphs[m] by {
            lemma_graph_view_subgraph(r, m);
        }
        assert(r@.subgraphs =~= mermaid_model(fv).subgraphs);
        assert(r@.edges =~= mermaid_model(fv).edges);
    }
    assert(r@ =~= mermaid_model(fv));
    r
}

/// Parse a Mermaid flowchart into a dependency graph: an error exactly where
/// the Mermaid grammar rejects the text, else the graph the flowchart describes.
pub fn parse(input: &str) -> (r: Result<DepGraph, ParseError>)
    ensures
        r is Ok == mermaid_syntax(input@) is Some,
        r matches Ok(g) ==> mermaid_syntax(input@) matches Some(f) && g@ == mermaid_model(f),
        r is Err ==> r matches Err(ParseError::InvalidMermaid(_)),
{
    match syntax_flow(input) {
        Ok(f) => Ok(graph_from_flow(&f)),
        Err(e) => Err(ParseError::InvalidMermaid(e)),
    }
}

} // verus!
