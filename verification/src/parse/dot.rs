//! DOT input: its syntax tree, decoding of DOT string values, and the
//! building of a dependency graph from the statements.
use vstd::prelude::*;

use dot_parser::ast;
use either::Either;

use crate::emit::dot::{escape_quotes, quote_spec};
use indexmap::IndexMap;

use crate::graph::{
    all_nodes_spec, edge_views, lemma_graph_view_subgraph, lemma_node_views_insert, lemma_node_views_sorted, lemma_node_views_keys, node_views, opt_str, Attrs, DepGraph, Edge,
    EdgeView, GraphView, NodeInfo, NodeView,
};
use crate::maps::{
    node_map_sort_keys, node_map_get_index, node_map_len, node_map_new, sorted_by_key, find_key, has_key, insert_entry, lemma_find_key, node_entries, node_map_contains_key, node_map_insert, str_entries,
    str_map_clone, str_map_insert, str_map_new, str_views,
};
use crate::text::{chars_of, push_char, str_eq};
use crate::parse::ParseError;

verus! {

/// `s` with each `\"` turned into `"` (scanning left to right); other
/// backslashes are kept.
pub open spec fn unescape_quotes(s: Seq<char>) -> Seq<char>
    decreases s.len(),
{
    if s.len() == 0 {
        seq![]
    } else if s.len() >= 2 && s[0] == '\\' && s[1] == '"' {
        seq!['"'] + unescape_quotes(s.skip(2))
    } else {
        seq![s[0]] + unescape_quotes(s.drop_first())
    }
}

/// A DOT value decoded: surrounding `"..."` removed when present, then `\"` unescaped.
pub open spec fn unquote_spec(s: Seq<char>) -> Seq<char> {
    let inner = if s.len() >= 2 && s[0] == '"' && s.last() == '"' {
        s.subrange(1, s.len() - 1)
    } else {
        s
    };
    unescape_quotes(inner)
}

/// Decode a DOT string value: strip surrounding `"..."` if present, then
/// unescape `\"` to `"`. Backslash sequences such as `\n` are kept verbatim.
pub fn unquote(s: &str) -> (r: String)
    ensures
        r@ == unquote_spec(s@),
{
    let v = chars_of(s);
    let (lo, hi) = if v.len() >= 2 && v[0] == '"' && v[v.len() - 1] == '"' {
        (1, v.len() - 1)
    } else {
        (0, v.len())
    };
    let ghost inner = v@.subrange(lo as int, hi as int);
    assert(lo == 0 ==> inner =~= v@);
    let mut r = String::new();
    let mut i = lo;
    assert(inner.skip(0) =~= inner);
    while i < hi
        invariant
            lo <= i <= hi <= v.len(),
            inner == v@.subrange(lo as int, hi as int),
            unescape_quotes(inner) == r@ + unescape_quotes(inner.skip(i - lo)),
        decreases hi - i,
    {
        let ghost rest = inner.skip(i - lo);
        if hi - i >= 2 && v[i] == '\\' && v[i + 1] == '"' {
            push_char(&mut r, '"');
            assert(rest.skip(2) =~= inner.skip(i + 2 - lo));
            i = i + 2;
        } else {
            push_char(&mut r, v[i]);
            assert(rest.drop_first() =~= inner.skip(i + 1 - lo));
            i = i + 1;
        }
    }
    assert(inner.skip(hi - lo) =~= Seq::<char>::empty());
    r
}

proof fn lemma_unescape_escape(s: Seq<char>)
    ensures
        unescape_quotes(escape_quotes(s)) == s,
    decreases s.len(),
{
    if s.len() > 0 {
        lemma_unescape_escape(s.drop_first());
        let e = escape_quotes(s);
        let rest = escape_quotes(s.drop_first());
        if s[0] == '"' {
            assert(e.skip(2) =~= rest);
        } else {
            assert(e.drop_first() =~= rest);
            if s[0] == '\\' && e.len() >= 2 {
                // The character after a literal backslash is never a bare quote:
                // quotes are always written as `\"`, which starts with a backslash.
                assert(e[1] != '"') by {
                    if s.len() > 1 {
                        assert(rest[0] == (if s[1] == '"' { '\\' } else { s[1] }));
                    }
                }
            }
        }
        assert(seq![s[0]] + s.drop_first() =~= s);
    }
}

/// Law: decoding a quoted DOT string gives back the original string.
pub proof fn lemma_unquote_quote(s: Seq<char>)
    ensures
        unquote_spec(quote_spec(s)) == s,
{
    let q = quote_spec(s);
    assert(q.subrange(1, q.len() - 1) =~= escape_quotes(s));
    lemma_unescape_escape(s);
}

} // verus!

verus! {

// ---------------------------------------------------------------------------
// The syntax tree
// ---------------------------------------------------------------------------
/// A DOT statement, its identifiers and attribute text as the DOT grammar
/// gives them (identifiers keep their quotes, attribute values do not; `\"`
/// escapes are kept in both).
pub enum DotStmt {
    /// `id [k=v, ...]`: a node and its attributes, in order.
    Node(String, Vec<(String, String)>),
    /// `a -> b -> ... [k=v, ...]`: the chain of endpoints and the attributes.
    Edge(Vec<DotEndpoint>, Vec<(String, String)>),
    /// `graph [k=v, ...]`.
    GraphAttrs(Vec<(String, String)>),
    /// `node [...]` or `edge [...]`: default attributes.
    DefaultAttrs,
    /// `k = v`.
    Assign(String, String),
    /// `subgraph id { ... }`.
    Subgraph(DotSubgraph),
}

/// One end of an edge: a node id, or a subgraph standing for its nodes.
pub enum DotEndpoint {
    Node(String),
    Group(DotSubgraph),
}

/// A subgraph: its id, if any, and its statements.
pub struct DotSubgraph {
    pub id: Option<String>,
    pub stmts: Vec<DotStmt>,
}

/// A DOT graph: its name, if any, and its statements.
pub struct DotGraph {
    pub name: Option<String>,
    pub stmts: Vec<DotStmt>,
}

/// The mathematical content of a [`DotStmt`].
pub enum StmtV {
    Node(Seq<char>, Attrs),
    Edge(Seq<EndpointV>, Attrs),
    GraphAttrs(Attrs),
    DefaultAttrs,
    Assign(Seq<char>, Seq<char>),
    Subgraph(SubgraphV),
}

/// The mathematical content of a [`DotEndpoint`].
pub enum EndpointV {
    Node(Seq<char>),
    Group(SubgraphV),
}

/// The mathematical content of a [`DotSubgraph`].
pub struct SubgraphV {
    pub id: Option<Seq<char>>,
    pub stmts: Seq<StmtV>,
}

/// The mathematical content of a [`DotGraph`].
pub struct DotGraphV {
    pub name: Option<Seq<char>>,
    pub stmts: Seq<StmtV>,
}

pub open spec fn pairs_view(v: Seq<(String, String)>) -> Attrs {
    v.map_values(|p: (String, String)| (p.0@, p.1@))
}

pub open spec fn stmt_view(s: DotStmt) -> StmtV
    decreases s,
{
    match s {
        DotStmt::Node(id, a) => StmtV::Node(id@, pairs_view(a@)),
        DotStmt::Edge(eps, a) => StmtV::Edge(
            Seq::new(eps@.len(), |i: int| if 0 <= i < eps@.len() { endpoint_view(eps@[i]) } else { arbitrary() }),
            pairs_view(a@),
        ),
        DotStmt::GraphAttrs(a) => StmtV::GraphAttrs(pairs_view(a@)),
        DotStmt::DefaultAttrs => StmtV::DefaultAttrs,
        DotStmt::Assign(k, v) => StmtV::Assign(k@, v@),
        DotStmt::Subgraph(g) => StmtV::Subgraph(subgraph_view(g)),
    }
}

pub open spec fn endpoint_view(e: DotEndpoint) -> EndpointV
    decreases e,
{
    match e {
        DotEndpoint::Node(id) => EndpointV::Node(id@),
        DotEndpoint::Group(g) => EndpointV::Group(subgraph_view(g)),
    }
}

pub open spec fn subgraph_view(g: DotSubgraph) -> SubgraphV
    decreases g,
{
    SubgraphV {
        id: opt_str(g.id),
        stmts: Seq::new(
            g.stmts@.len(),
            |i: int| if 0 <= i < g.stmts@.len() { stmt_view(g.stmts@[i]) } else { arbitrary() },
        ),
    }
}

pub open spec fn stmts_view(v: Seq<DotStmt>) -> Seq<StmtV> {
    Seq::new(v.len(), |i: int| stmt_view(v[i]))
}

impl View for DotGraph {
    type V = DotGraphV;

    open spec fn view(&self) -> DotGraphV {
        DotGraphV { name: opt_str(self.name), stmts: stmts_view(self.stmts@) }
    }
}

// ---------------------------------------------------------------------------
// The DOT grammar (dot-parser)
// ---------------------------------------------------------------------------
#[verifier::external_type_specification]
#[verifier::external_body]
#[verifier::reject_recursive_types(A)]
pub struct ExAstStmt<A>(ast::Stmt<A>);

#[verifier::external_type_specification]
#[verifier::external_body]
#[verifier::reject_recursive_types(A)]
pub struct ExAstSubgraph<A>(ast::Subgraph<A>);

#[verifier::external_type_specification]
#[verifier::external_body]
#[verifier::reject_recursive_types(A)]
pub struct ExAstAttrList<A>(ast::AttrList<A>);

#[verifier::external_type_specification]
#[verifier::external_body]
#[verifier::reject_recursive_types(A)]
pub struct ExAstEdgeStmt<A>(ast::EdgeStmt<A>);

#[verifier::external_type_specification]
#[verifier::external_body]
pub struct ExAstNodeId(ast::NodeID);

#[verifier::external_type_specification]
#[verifier::external_body]
pub struct ExAstId<'a>(ast::ID<'a>);

#[verifier::external_type_specification]
#[verifier::external_body]
#[verifier::reject_recursive_types(L)]
#[verifier::reject_recursive_types(R)]
pub struct ExEither<L, R>(Either<L, R>);

/// The syntax tree that the DOT grammar of `dot-parser` gives for `input`,
/// or `None` where `input` is not a DOT graph.
pub uninterp spec fn dot_syntax(input: Seq<char>) -> Option<DotGraphV>;

/// `ast::Graph::try_from` on `input`, the tree turned into a [`DotGraph`]:
/// `Ok` exactly where the grammar accepts `input`, with the tree it gives. The
/// text of the error (the grammar's message) is not stated. `dot-parser`
/// documents that its tree building after a successful grammar match does not
/// fail; where it would, it panics.
#[verifier::external_body]
fn syntax_tree(input: &str) -> (r: Result<DotGraph, String>)
    ensures
        r matches Ok(t) ==> dot_syntax(input@) == Some(t@),
        r is Err == dot_syntax(input@) is None,
{
    let parsed: Result<ast::Graph<(ast::ID, ast::ID)>, _> = ast::Graph::try_from(input);
    match parsed {
        Ok(g) => Ok(DotGraph { name: g.name, stmts: convert_stmts(&g.stmts.stmts) }),
        Err(e) => Err(e.to_string()),
    }
}

/// The statements of a `dot-parser` statement list, converted one by one.
#[verifier::external_body]
fn convert_stmts<'a>(stmts: &Vec<ast::Stmt<(ast::ID<'a>, ast::ID<'a>)>>) -> Vec<DotStmt> {
    let mut out = Vec::new();
    for s in stmts {
        out.push(convert_stmt(s));
    }
    out
}

/// A `dot-parser` statement as a [`DotStmt`].
#[verifier::external_body]
fn convert_stmt<'a>(s: &ast::Stmt<(ast::ID<'a>, ast::ID<'a>)>) -> DotStmt {
    match s {
        ast::Stmt::NodeStmt(n) => DotStmt::Node(n.node.id.clone(), convert_attrs(&n.attr)),
        ast::Stmt::EdgeStmt(e) => DotStmt::Edge(convert_chain(e), convert_attrs(&e.attr)),
        ast::Stmt::AttrStmt(ast::AttrStmt::Graph(l)) => DotStmt::GraphAttrs(convert_list(l)),
        ast::Stmt::AttrStmt(_) => DotStmt::DefaultAttrs,
        ast::Stmt::IDEq(k, v) => DotStmt::Assign(k.clone(), v.clone()),
        ast::Stmt::Subgraph(g) => DotStmt::Subgraph(convert_subgraph(g)),
    }
}

/// The attribute pairs of an optional `dot-parser` attribute list, in order.
#[verifier::external_body]
fn convert_attrs<'a>(a: &Option<ast::AttrList<(ast::ID<'a>, ast::ID<'a>)>>) -> Vec<(String, String)> {
    match a {
        Some(l) => convert_list(l),
        None => Vec::new(),
    }
}

/// The attribute pairs of a `dot-parser` attribute list (all its `[...]`
/// groups), in order, each id as its text.
#[verifier::external_body]
fn convert_list<'a>(l: &ast::AttrList<(ast::ID<'a>, ast::ID<'a>)>) -> Vec<(String, String)> {
    let mut out = Vec::new();
    for alist in &l.elems {
        for (k, v) in &alist.elems {
            out.push((k.clone().into(), v.clone().into()));
        }
    }
    out
}

/// The endpoints of a `dot-parser` edge statement, first to last.
#[verifier::external_body]
fn convert_chain<'a>(e: &ast::EdgeStmt<(ast::ID<'a>, ast::ID<'a>)>) -> Vec<DotEndpoint> {
    let mut out = vec![convert_endpoint(&e.from)];
    let mut rhs = &e.next;
    loop {
        out.push(convert_endpoint(&rhs.to));
        match &rhs.next {
            Some(next) => rhs = next,
            None => break,
        }
    }
    out
}

/// A `dot-parser` edge endpoint as a [`DotEndpoint`].
#[verifier::external_body]
fn convert_endpoint<'a>(e: &Either<ast::NodeID, ast::Subgraph<(ast::ID<'a>, ast::ID<'a>)>>) -> DotEndpoint {
    match e {
        Either::Left(n) => DotEndpoint::Node(n.id.clone()),
        Either::Right(g) => DotEndpoint::Group(convert_subgraph(g)),
    }
}

/// A `dot-parser` subgraph as a [`DotSubgraph`].
#[verifier::external_body]
fn convert_subgraph<'a>(g: &ast::Subgraph<(ast::ID<'a>, ast::ID<'a>)>) -> DotSubgraph {
    DotSubgraph { id: g.id.clone(), stmts: convert_stmts(&g.stmts.stmts) }
}

} // verus!

verus! {

// ---------------------------------------------------------------------------
// What a DOT graph means: a dependency graph built statement by statement
// ---------------------------------------------------------------------------
/// The attribute key that names a node's or an edge's label.
pub open spec fn label_key() -> Seq<char> {
    seq!['l', 'a', 'b', 'e', 'l']
}

/// The node that a node statement with id `id` and raw attributes `attrs`
/// declares: its label from a `label` attribute (the id where there is none),
/// the other attributes decoded, in order.
pub open spec fn node_decl(id: Seq<char>, attrs: Attrs) -> NodeView
    decreases attrs.len(),
{
    if attrs.len() == 0 {
        NodeView { label: id, node_type: None, attrs: Seq::empty() }
    } else {
        let prev = node_decl(id, attrs.drop_last());
        let k = unquote_spec(attrs.last().0);
        let v = unquote_spec(attrs.last().1);
        if k == label_key() {
            NodeView { label: v, node_type: prev.node_type, attrs: prev.attrs }
        } else {
            NodeView { label: prev.label, node_type: prev.node_type, attrs: insert_entry(prev.attrs, k, v) }
        }
    }
}

/// The label that an edge statement's raw attributes give its edges.
pub open spec fn edge_label(attrs: Attrs) -> Option<Seq<char>>
    decreases attrs.len(),
{
    if attrs.len() == 0 {
        None
    } else if unquote_spec(attrs.last().0) == label_key() {
        Some(unquote_spec(attrs.last().1))
    } else {
        edge_label(attrs.drop_last())
    }
}

/// The other attributes that an edge statement's raw attributes give its edges.
pub open spec fn edge_attrs(attrs: Attrs) -> Attrs
    decreases attrs.len(),
{
    if attrs.len() == 0 {
        Seq::empty()
    } else {
        let prev = edge_attrs(attrs.drop_last());
        let k = unquote_spec(attrs.last().0);
        if k == label_key() {
            prev
        } else {
            insert_entry(prev, k, unquote_spec(attrs.last().1))
        }
    }
}

/// `acc` after inserting the decoded pairs of `attrs` in order.
pub open spec fn insert_decoded(acc: Attrs, attrs: Attrs) -> Attrs
    decreases attrs.len(),
{
    if attrs.len() == 0 {
        acc
    } else {
        insert_entry(insert_decoded(acc, attrs.drop_last()), unquote_spec(attrs.last().0), unquote_spec(attrs.last().1))
    }
}

/// A node that only an edge mentions: labelled by its id, with nothing else.
pub open spec fn implicit_node(id: Seq<char>) -> NodeView {
    NodeView { label: id, node_type: None, attrs: Seq::empty() }
}

pub open spec fn with_nodes(g: GraphView, nodes: Seq<(Seq<char>, NodeView)>) -> GraphView {
    GraphView { id: g.id, attrs: g.attrs, nodes, edges: g.edges, subgraphs: g.subgraphs }
}

pub open spec fn with_edges(g: GraphView, edges: Seq<EdgeView>) -> GraphView {
    GraphView { id: g.id, attrs: g.attrs, nodes: g.nodes, edges, subgraphs: g.subgraphs }
}

pub open spec fn with_attrs(g: GraphView, attrs: Attrs) -> GraphView {
    GraphView { id: g.id, attrs, nodes: g.nodes, edges: g.edges, subgraphs: g.subgraphs }
}

pub open spec fn with_subgraphs(g: GraphView, subgraphs: Seq<GraphView>) -> GraphView {
    GraphView { id: g.id, attrs: g.attrs, nodes: g.nodes, edges: g.edges, subgraphs }
}

/// `g` after a node statement: the node is (re)declared, keeping its place if it exists.
pub open spec fn declare_node(g: GraphView, raw_id: Seq<char>, attrs: Attrs) -> GraphView {
    let id = unquote_spec(raw_id);
    with_nodes(g, insert_entry(g.nodes, id, node_decl(id, attrs)))
}

/// `g` with node `id` added as an implicit node if it is not there yet.
pub open spec fn ensure_node(g: GraphView, id: Seq<char>) -> GraphView {
    if has_key(g.nodes, id) {
        g
    } else {
        with_nodes(g, g.nodes.push((id, implicit_node(id))))
    }
}

/// `g` with an edge from `f` to `t`, both ends added as nodes if missing.
pub open spec fn link(g: GraphView, f: Seq<char>, t: Seq<char>, label: Option<Seq<char>>, attrs: Attrs) -> GraphView {
    let g2 = ensure_node(ensure_node(g, f), t);
    with_edges(g2, g2.edges.push(EdgeView { from: f, to: t, label, attrs }))
}

/// `g` with edges from `f` to each of `ts`, in order.
pub open spec fn link_to_all(g: GraphView, f: Seq<char>, ts: Seq<Seq<char>>, label: Option<Seq<char>>, attrs: Attrs) -> GraphView
    decreases ts.len(),
{
    if ts.len() == 0 {
        g
    } else {
        link(link_to_all(g, f, ts.drop_last(), label, attrs), f, ts.last(), label, attrs)
    }
}

/// `g` with edges from each of `fs` to each of `ts`, in order.
pub open spec fn link_all(g: GraphView, fs: Seq<Seq<char>>, ts: Seq<Seq<char>>, label: Option<Seq<char>>, attrs: Attrs) -> GraphView
    decreases fs.len(),
{
    if fs.len() == 0 {
        g
    } else {
        link_to_all(link_all(g, fs.drop_last(), ts, label, attrs), fs.last(), ts, label, attrs)
    }
}

/// The node ids an edge endpoint stands for, and `g` after the statements
/// inside it (a subgraph endpoint declares its nodes and edges in `g`).
pub open spec fn endpoint_ids(ep: EndpointV, g: GraphView) -> (Seq<Seq<char>>, GraphView)
    decreases ep, 0nat,
{
    match ep {
        EndpointV::Node(raw) => (seq![unquote_spec(raw)], g),
        EndpointV::Group(sub) => group_ids(sub.stmts, g),
    }
}

/// The node ids that the statements of a subgraph endpoint stand for: its
/// node statements, the first endpoint of each edge statement, and those of
/// nested subgraphs; and `g` after those statements.
pub open spec fn group_ids(stmts: Seq<StmtV>, g: GraphView) -> (Seq<Seq<char>>, GraphView)
    decreases stmts, 0nat,
{
    if stmts.len() == 0 {
        (seq![], g)
    } else {
        let (ids, g1) = group_ids(stmts.drop_last(), g);
        match stmts[stmts.len() - 1] {
            StmtV::Node(raw, a) => (ids.push(unquote_spec(raw)), declare_node(g1, raw, a)),
            StmtV::Edge(eps, a) => {
                if eps.len() == 0 {
                    (ids, g1)
                } else {
                    let g2 = chain_upto(eps, edge_label(a), edge_attrs(a), (eps.len() - 1) as nat, g1);
                    let (inner, g3) = endpoint_ids(eps[0], g2);
                    (ids + inner, g3)
                }
            },
            StmtV::Subgraph(sub) => {
                let (inner, g2) = group_ids(sub.stmts, g1);
                (ids + inner, g2)
            },
            _ => (ids, g1),
        }
    }
}

/// `g` after the first `k` links of an edge chain: link `j` joins every id of
/// endpoint `j` to every id of endpoint `j + 1`, each endpoint being read
/// afresh for each link it takes part in.
pub open spec fn chain_upto(eps: Seq<EndpointV>, label: Option<Seq<char>>, attrs: Attrs, k: nat, g: GraphView) -> GraphView
    decreases eps, k,
{
    if k == 0 || k >= eps.len() {
        g
    } else {
        let g1 = chain_upto(eps, label, attrs, (k - 1) as nat, g);
        let (fs, g2) = endpoint_ids(eps[k - 1], g1);
        let (ts, g3) = endpoint_ids(eps[k as int], g2);
        link_all(g3, fs, ts, label, attrs)
    }
}

/// `g` after an edge statement.
pub open spec fn declare_edges(g: GraphView, eps: Seq<EndpointV>, attrs: Attrs) -> GraphView {
    if eps.len() == 0 {
        g
    } else {
        chain_upto(eps, edge_label(attrs), edge_attrs(attrs), (eps.len() - 1) as nat, g)
    }
}

/// Whether a node carries nothing beyond its id: no label of its own, no
/// type, no attributes.
pub open spec fn is_implicit(id: Seq<char>, n: NodeView) -> bool {
    n.label == id && n.node_type is None && n.attrs.len() == 0
}

/// Whether some graph of `subs` (or a subgraph of it) has node `id`.
pub open spec fn in_subgraphs(subs: Seq<GraphView>, id: Seq<char>) -> bool {
    exists|i: int| 0 <= i < subs.len() && has_key(all_nodes_spec(#[trigger] subs[i]), id)
}

/// The entries of `nodes` other than implicit ones that a subgraph of `subs` has.
pub open spec fn keep_explicit(nodes: Seq<(Seq<char>, NodeView)>, subs: Seq<GraphView>) -> Seq<(Seq<char>, NodeView)>
    decreases nodes.len(),
{
    if nodes.len() == 0 {
        nodes
    } else {
        let prev = keep_explicit(nodes.drop_last(), subs);
        let e = nodes.last();
        if is_implicit(e.0, e.1) && in_subgraphs(subs, e.0) {
            prev
        } else {
            prev.push(e)
        }
    }
}

/// `g` without the implicit nodes that one of its subgraphs declares.
pub open spec fn drop_implicit(g: GraphView) -> GraphView {
    if g.subgraphs.len() == 0 {
        g
    } else {
        with_nodes(g, keep_explicit(g.nodes, g.subgraphs))
    }
}

/// `g` with its nodes sorted by id.
pub open spec fn sort_nodes(g: GraphView) -> GraphView {
    with_nodes(g, sorted_by_key(g.nodes))
}

/// The state after the statements `stmts`, from graph `g` with the
/// subgraphs `subs` collected so far.
pub open spec fn walk_fold(stmts: Seq<StmtV>, g: GraphView, subs: Seq<GraphView>) -> (GraphView, Seq<GraphView>)
    decreases stmts, 0nat,
{
    if stmts.len() == 0 {
        (g, subs)
    } else {
        let (g1, s1) = walk_fold(stmts.drop_last(), g, subs);
        match stmts[stmts.len() - 1] {
            StmtV::Node(raw, a) => (declare_node(g1, raw, a), s1),
            StmtV::Edge(eps, a) => (declare_edges(g1, eps, a), s1),
            StmtV::GraphAttrs(a) => (with_attrs(g1, insert_decoded(g1.attrs, a)), s1),
            StmtV::DefaultAttrs => (g1, s1),
            StmtV::Assign(k, v) => (with_attrs(g1, insert_entry(g1.attrs, unquote_spec(k), unquote_spec(v))), s1),
            StmtV::Subgraph(sub) => (g1, s1.push(subgraph_model(sub))),
        }
    }
}

/// The graph that a list of statements describes, starting from `g`: the
/// statements in order, then the subgraphs in place and the implicit
/// duplicates of subgraph nodes dropped.
pub open spec fn walk_model(stmts: Seq<StmtV>, g: GraphView) -> GraphView
    decreases stmts, 1nat,
{
    let (g1, subs) = walk_fold(stmts, g, seq![]);
    drop_implicit(with_subgraphs(g1, subs))
}

/// An empty graph with the given (raw) id, decoded.
pub open spec fn named_empty(id: Option<Seq<char>>) -> GraphView {
    GraphView {
        id: match id {
            Some(s) => Some(unquote_spec(s)),
            None => None,
        },
        attrs: Seq::empty(),
        nodes: Seq::empty(),
        edges: Seq::empty(),
        subgraphs: Seq::empty(),
    }
}

/// The graph a subgraph describes, its nodes sorted by id.
pub open spec fn subgraph_model(sub: SubgraphV) -> GraphView
    decreases sub, 2nat,
{
    sort_nodes(walk_model(sub.stmts, named_empty(sub.id)))
}

/// The dependency graph that a DOT syntax tree describes.
pub open spec fn dot_model(t: DotGraphV) -> GraphView {
    sort_nodes(walk_model(t.stmts, named_empty(t.name)))
}

} // verus!

verus! {

// ---------------------------------------------------------------------------
// Building the graph
// ---------------------------------------------------------------------------
/// The node that a node statement with (decoded) id `id` declares.
fn node_from_attrs(id: &str, attrs: &Vec<(String, String)>) -> (r: NodeInfo)
    ensures
        r@ == node_decl(id@, pairs_view(attrs@)),
{
    let mut info = NodeInfo::new(id);
    let ghost pv = pairs_view(attrs@);
    let mut i: usize = 0;
    assert(pv.take(0).len() == 0);
    while i < attrs.len()
        invariant
            i <= attrs.len(),
            pv == pairs_view(attrs@),
            info@ == node_decl(id@, pv.take(i as int)),
        decreases attrs.len() - i,
    {
        let key = unquote(attrs[i].0.as_str());
        let value = unquote(attrs[i].1.as_str());
        proof {
            assert(pv.take(i + 1).drop_last() =~= pv.take(i as int));
            assert(pv.take(i + 1).last() == pv[i as int]);
            assert(pv[i as int] == (attrs@[i as int].0@, attrs@[i as int].1@));
            reveal_strlit("label");
            assert("label"@ =~= label_key());
        }
        if str_eq(key.as_str(), "label") {
            info.label = value;
        } else {
            str_map_insert(&mut info.attrs, key, value);
        }
        i = i + 1;
    }
    assert(pv.take(attrs.len() as int) =~= pv);
    info
}

/// Adds the node of a node statement to `dep`; returns its decoded id.
fn add_node(raw_id: &str, attrs: &Vec<(String, String)>, dep: &mut DepGraph) -> (r: String)
    ensures
        r@ == unquote_spec(raw_id@),
        final(dep)@ == declare_node(old(dep)@, raw_id@, pairs_view(attrs@)),
{
    let id = unquote(raw_id);
    let info = node_from_attrs(id.as_str(), attrs);
    proof {
        lemma_node_views_insert(node_entries(dep.nodes), id@, info);
    }
    node_map_insert(&mut dep.nodes, id.clone(), info);
    assert(dep@ =~= declare_node(old(dep)@, raw_id@, pairs_view(attrs@)));
    id
}

/// The label and the other attributes that an edge statement gives its edges.
fn edge_props(attrs: &Vec<(String, String)>) -> (r: (Option<String>, IndexMap<String, String>))
    ensures
        opt_str(r.0) == edge_label(pairs_view(attrs@)),
        str_entries(r.1) == edge_attrs(pairs_view(attrs@)),
{
    let mut label: Option<String> = None;
    let mut map = str_map_new();
    let ghost pv = pairs_view(attrs@);
    let mut i: usize = 0;
    while i < attrs.len()
        invariant
            i <= attrs.len(),
            pv == pairs_view(attrs@),
            opt_str(label) == edge_label(pv.take(i as int)),
            str_entries(map) == edge_attrs(pv.take(i as int)),
        decreases attrs.len() - i,
    {
        let key = unquote(attrs[i].0.as_str());
        let value = unquote(attrs[i].1.as_str());
        proof {
            assert(pv.take(i + 1).drop_last() =~= pv.take(i as int));
            assert(pv.take(i + 1).last() == pv[i as int]);
            assert(pv[i as int] == (attrs@[i as int].0@, attrs@[i as int].1@));
            reveal_strlit("label");
            assert("label"@ =~= label_key());
        }
        if str_eq(key.as_str(), "label") {
            label = Some(value);
        } else {
            str_map_insert(&mut map, key, value);
        }
        i = i + 1;
    }
    assert(pv.take(attrs.len() as int) =~= pv);
    (label, map)
}

/// Inserts the decoded pairs of `attrs` into `m`, in order.
fn insert_decoded_pairs(m: &mut IndexMap<String, String>, attrs: &Vec<(String, String)>)
    ensures
        str_entries(*final(m)) == insert_decoded(str_entries(*old(m)), pairs_view(attrs@)),
{
    let ghost pv = pairs_view(attrs@);
    let mut i: usize = 0;
    assert(pv.take(0).len() == 0);
    while i < attrs.len()
        invariant
            i <= attrs.len(),
            pv == pairs_view(attrs@),
            str_entries(*m) == insert_decoded(str_entries(*old(m)), pv.take(i as int)),
        decreases attrs.len() - i,
    {
        let key = unquote(attrs[i].0.as_str());
        let value = unquote(attrs[i].1.as_str());
        proof {
            assert(pv.take(i + 1).drop_last() =~= pv.take(i as int));
            assert(pv.take(i + 1).last() == pv[i as int]);
            assert(pv[i as int] == (attrs@[i as int].0@, attrs@[i as int].1@));
        }
        str_map_insert(m, key, value);
        i = i + 1;
    }
    assert(pv.take(attrs.len() as int) =~= pv);
}

/// Adds node `id` as an implicit node when `dep` has no node of that id.
fn ensure_node_in(dep: &mut DepGraph, id: &String)
    ensures
        final(dep)@ == ensure_node(old(dep)@, id@),
{
    proof {
        lemma_node_views_keys(node_entries(dep.nodes));
    }
    if !node_map_contains_key(&dep.nodes, id.as_str()) {
        let n = NodeInfo::new(id.as_str());
        proof {
            lemma_node_views_insert(node_entries(dep.nodes), id@, n);
            lemma_find_key(node_views(node_entries(dep.nodes)), id@);
        }
        node_map_insert(&mut dep.nodes, id.clone(), n);
        assert(dep@ =~= ensure_node(old(dep)@, id@));
    }
}

/// A copy of an optional string.
fn copy_opt(o: &Option<String>) -> (r: Option<String>)
    ensures
        opt_str(r) == opt_str(*o),
{
    match o {
        Some(s) => Some(s.clone()),
        None => None,
    }
}

/// Adds an edge from `f` to `t`, with both ends as nodes.
fn link_in(dep: &mut DepGraph, f: &String, t: &String, label: &Option<String>, attrs: &IndexMap<String, String>)
    ensures
        final(dep)@ == link(old(dep)@, f@, t@, opt_str(*label), str_entries(*attrs)),
{
    ensure_node_in(dep, f);
    ensure_node_in(dep, t);
    let ghost mid = dep@;
    let e = Edge { from: f.clone(), to: t.clone(), label: copy_opt(label), attrs: str_map_clone(attrs) };
    dep.edges.push(e);
    assert(edge_views(dep.edges@) =~= mid.edges.push(e@));
    assert(dep@ =~= link(old(dep)@, f@, t@, opt_str(*label), str_entries(*attrs)));
}

/// Adds an edge from each of `fs` to each of `ts`, in order.
fn link_all_in(dep: &mut DepGraph, fs: &Vec<String>, ts: &Vec<String>, label: &Option<String>, attrs: &IndexMap<String, String>)
    ensures
        final(dep)@ == link_all(old(dep)@, str_views(fs@), str_views(ts@), opt_str(*label), str_entries(*attrs)),
{
    let ghost fv = str_views(fs@);
    let ghost tv = str_views(ts@);
    let ghost lab = opt_str(*label);
    let ghost at = str_entries(*attrs);
    let mut i: usize = 0;
    assert(fv.take(0).len() == 0);
    while i < fs.len()
        invariant
            i <= fs.len(),
            fv == str_views(fs@),
            tv == str_views(ts@),
            lab == opt_str(*label),
            at == str_entries(*attrs),
            dep@ == link_all(old(dep)@, fv.take(i as int), tv, lab, at),
        decreases fs.len() - i,
    {
        let ghost before = dep@;
        let mut j: usize = 0;
        assert(tv.take(0).len() == 0);
        while j < ts.len()
            invariant
                i < fs.len(),
                j <= ts.len(),
                fv == str_views(fs@),
                tv == str_views(ts@),
                lab == opt_str(*label),
                at == str_entries(*attrs),
                dep@ == link_to_all(before, fv[i as int], tv.take(j as int), lab, at),
            decreases ts.len() - j,
        {
            link_in(dep, &fs[i], &ts[j], label, attrs);
            assert(tv.take(j + 1).drop_last() =~= tv.take(j as int));
            j = j + 1;
        }
        assert(tv.take(ts.len() as int) =~= tv);
        assert(fv.take(i + 1).drop_last() =~= fv.take(i as int));
        i = i + 1;
    }
    assert(fv.take(fs.len() as int) =~= fv);
}

} // verus!

verus! {

/// The views of a list of endpoints.
pub open spec fn endpoints_view(v: Seq<DotEndpoint>) -> Seq<EndpointV> {
    Seq::new(v.len(), |i: int| endpoint_view(v[i]))
}

proof fn lemma_edge_stmt_view(eps: Vec<DotEndpoint>, a: Vec<(String, String)>)
    ensures
        stmt_view(DotStmt::Edge(eps, a)) == StmtV::Edge(endpoints_view(eps@), pairs_view(a@)),
{
    let v = stmt_view(DotStmt::Edge(eps, a));
    if let StmtV::Edge(x, y) = v {
        assert(x =~= endpoints_view(eps@));
    }
}

/// The views of a list of graphs.
pub open spec fn graphs_view(v: Seq<DepGraph>) -> Seq<GraphView> {
    Seq::new(v.len(), |i: int| v[i]@)
}

/// The node ids that an edge endpoint stands for; the statements of a
/// subgraph endpoint are applied to `dep` on the way.
fn endpoint_node_ids(ep: &DotEndpoint, dep: &mut DepGraph) -> (r: Vec<String>)
    ensures
        (str_views(r@), final(dep)@) == endpoint_ids(endpoint_view(*ep), old(dep)@),
    decreases ep, 0nat,
{
    match ep {
        DotEndpoint::Node(raw) => {
            let id = unquote(raw.as_str());
            let mut r: Vec<String> = Vec::new();
            r.push(id);
            assert(str_views(r@) =~= seq![unquote_spec(raw@)]);
            r
        },
        DotEndpoint::Group(sub) => {
            let mut ids: Vec<String> = Vec::new();
            assert(subgraph_view(*sub).stmts =~= stmts_view(sub.stmts@));
            collect_endpoint_ids(&sub.stmts, &mut ids, dep);
            assert(str_views(ids@) =~= Seq::<Seq<char>>::empty() + group_ids(stmts_view(sub.stmts@), old(dep)@).0);
            ids
        },
    }
}

/// Appends to `ids` the node ids that the statements of a subgraph endpoint
/// stand for, applying the statements to `dep`.
fn collect_endpoint_ids(stmts: &Vec<DotStmt>, ids: &mut Vec<String>, dep: &mut DepGraph)
    ensures
        str_views(final(ids)@) == str_views(old(ids)@) + group_ids(stmts_view(stmts@), old(dep)@).0,
        final(dep)@ == group_ids(stmts_view(stmts@), old(dep)@).1,
    decreases stmts@, 0nat,
{
    let ghost sv = stmts_view(stmts@);
    let ghost g0 = dep@;
    let ghost ids0 = str_views(ids@);
    let mut i: usize = 0;
    assert(sv.take(0).len() == 0);
    assert(ids0 + group_ids(sv.take(0), g0).0 =~= ids0);
    while i < stmts.len()
        invariant
            i <= stmts.len(),
            sv == stmts_view(stmts@),
            str_views(ids@) == ids0 + group_ids(sv.take(i as int), g0).0,
            dep@ == group_ids(sv.take(i as int), g0).1,
        decreases stmts.len() - i,
    {
        proof {
            assert(sv.take(i + 1).drop_last() =~= sv.take(i as int));
            assert(sv.take(i + 1)[i as int] == stmt_view(stmts@[i as int]));
        }
        let ghost prev = group_ids(sv.take(i as int), g0);
        match &stmts[i] {
            DotStmt::Node(raw, a) => {
                let id = add_node(raw.as_str(), a, dep);
                let ghost before = str_views(ids@);
                let ghost idv = id@;
                ids.push(id);
                assert(str_views(ids@) =~= before.push(idv));
                assert(str_views(ids@) =~= ids0 + prev.0.push(unquote_spec(raw@)));
            },
            DotStmt::Edge(eps, a) => {
                proof {
                    lemma_edge_stmt_view(*eps, *a);
                }
                if eps.len() > 0 {
                    add_edges(eps, a, dep);
                    let mut inner = endpoint_node_ids(&eps[0], dep);
                    let ghost before = str_views(ids@);
                    ids.append(&mut inner);
                    proof {
                        let ghost iv = str_views(ids@);
                        assert(iv =~= before + group_ids(sv.take(i + 1), g0).0.subrange(prev.0.len() as int, group_ids(sv.take(i + 1), g0).0.len() as int)) by {
                            assert(group_ids(sv.take(i + 1), g0).0 =~= prev.0 + endpoint_ids(endpoints_view(eps@)[0], declare_edges(prev.1, endpoints_view(eps@), pairs_view(a@))).0);
                        }
                        assert(iv =~= ids0 + group_ids(sv.take(i + 1), g0).0);
                    }
                } else {
                    assert(endpoints_view(eps@).len() == 0);
                }
            },
            DotStmt::Subgraph(sub) => {
                assert(subgraph_view(*sub).stmts =~= stmts_view(sub.stmts@));
                collect_endpoint_ids(&sub.stmts, ids, dep);
                assert(str_views(ids@) =~= ids0 + group_ids(sv.take(i + 1), g0).0);
            },
            _ => {},
        }
        i = i + 1;
    }
    assert(sv.take(stmts.len() as int) =~= sv);
}

/// Adds the edges of an edge statement with endpoints `eps` and raw
/// attributes `attrs`: for each two consecutive endpoints, an edge from every
/// node of the first to every node of the second.
fn add_edges(eps: &Vec<DotEndpoint>, attrs: &Vec<(String, String)>, dep: &mut DepGraph)
    ensures
        final(dep)@ == declare_edges(old(dep)@, endpoints_view(eps@), pairs_view(attrs@)),
    decreases eps@, 1nat,
{
    let ghost ev = endpoints_view(eps@);
    if eps.len() == 0 {
        return;
    }
    let (label, eattrs) = edge_props(attrs);
    let ghost g0 = dep@;
    let ghost lab = opt_str(label);
    let ghost at = str_entries(eattrs);
    let mut k: usize = 1;
    while k < eps.len()
        invariant
            1 <= k <= eps.len(),
            ev == endpoints_view(eps@),
            lab == opt_str(label),
            at == str_entries(eattrs),
            lab == edge_label(pairs_view(attrs@)),
            at == edge_attrs(pairs_view(attrs@)),
            dep@ == chain_upto(ev, lab, at, (k - 1) as nat, g0),
        decreases eps.len() - k,
    {
        let fs = endpoint_node_ids(&eps[k - 1], dep);
        let ts = endpoint_node_ids(&eps[k], dep);
        link_all_in(dep, &fs, &ts, &label, &eattrs);
        k = k + 1;
    }
}

} // verus!

verus! {

/// Drops from `dep` the implicit nodes (no label of their own, no type, no
/// attributes) that one of its subgraphs, at any depth, has: an edge at this
/// level mentioned them, a subgraph declares them.
fn remove_implicit_duplicates(dep: &mut DepGraph)
    ensures
        final(dep)@ == drop_implicit(old(dep)@),
{
    let ghost g0 = dep@;
    proof {
        if dep.subgraphs@.len() > 0 {
            lemma_graph_view_subgraph(*dep, 0);
        }
    }
    if dep.subgraphs.len() == 0 {
        assert(g0.subgraphs.len() == 0);
        return;
    }
    let ghost subs = g0.subgraphs;
    let mut sub_nodes: Vec<IndexMap<String, NodeInfo>> = Vec::new();
    let mut j: usize = 0;
    while j < dep.subgraphs.len()
        invariant
            j <= dep.subgraphs.len(),
            dep@ == g0,
            subs == g0.subgraphs,
            subs.len() == dep.subgraphs@.len(),
            sub_nodes.len() == j,
            forall|m: int| 0 <= m < j ==> node_views(node_entries(#[trigger] sub_nodes@[m])) == all_nodes_spec(subs[m]),
        decreases dep.subgraphs.len() - j,
    {
        proof {
            lemma_graph_view_subgraph(*dep, j as int);
        }
        sub_nodes.push(dep.subgraphs[j].all_nodes());
        j = j + 1;
    }
    let n = node_map_len(&dep.nodes);
    let ghost nv = g0.nodes;
    let mut kept = node_map_new();
    let mut i: usize = 0;
    assert(node_views(node_entries(kept)) =~= keep_explicit(nv.take(0), subs));
    while i < n
        invariant
            i <= n == nv.len() == node_entries(dep.nodes).len(),
            dep@ == g0,
            nv == g0.nodes,
            nv == node_views(node_entries(dep.nodes)),
            subs == g0.subgraphs,
            sub_nodes.len() == subs.len(),
            forall|m: int| 0 <= m < subs.len() ==> node_views(node_entries(#[trigger] sub_nodes@[m])) == all_nodes_spec(subs[m]),
            node_views(node_entries(kept)) == keep_explicit(nv.take(i as int), subs),
            forall|x: int| 0 <= x < node_entries(kept).len() ==> exists|y: int| 0 <= y < i && #[trigger] node_entries(kept)[x].0 == nv[y].0,
        decreases n - i,
    {
        let (k, info) = node_map_get_index(&dep.nodes, i).unwrap();
        let implicit = str_eq(info.label.as_str(), k.as_str()) && info.node_type.is_none() && crate::maps::str_map_len(&info.attrs) == 0;
        let mut in_sub = false;
        let mut m: usize = 0;
        while m < sub_nodes.len()
            invariant
                m <= sub_nodes.len() == subs.len(),
                forall|q: int| 0 <= q < subs.len() ==> node_views(node_entries(#[trigger] sub_nodes@[q])) == all_nodes_spec(subs[q]),
                in_sub == exists|q: int| 0 <= q < m && has_key(all_nodes_spec(#[trigger] subs[q]), k@),
            decreases sub_nodes.len() - m,
        {
            proof {
                lemma_node_views_keys(node_entries(sub_nodes@[m as int]));
            }
            if node_map_contains_key(&sub_nodes[m], k.as_str()) {
                in_sub = true;
            }
            m = m + 1;
        }
        proof {
            assert(nv[i as int] == (k@, info@));
            assert(nv.take(i + 1).drop_last() =~= nv.take(i as int));
            assert(in_sub == in_subgraphs(subs, k@));
        }
        if !(implicit && in_sub) {
            let info2 = info.duplicate();
            proof {
                lemma_node_views_insert(node_entries(kept), k@, info2);
                lemma_find_key(node_entries(kept), k@);
                if find_key(node_entries(kept), k@) >= 0 {
                    let x = find_key(node_entries(kept), k@);
                    let y = choose|y: int| 0 <= y < i && #[trigger] node_entries(kept)[x].0 == nv[y].0;
                    assert(node_entries(dep.nodes)[y].0 == nv[y].0);
                }
            }
            let ghost old_kept = node_entries(kept);
            node_map_insert(&mut kept, k.clone(), info2);
            proof {
                assert forall|x: int| 0 <= x < node_entries(kept).len() implies exists|y: int|
                    0 <= y < i + 1 && #[trigger] node_entries(kept)[x].0 == nv[y].0 by {
                    if x < old_kept.len() {
                        let y = choose|y: int| 0 <= y < i && #[trigger] old_kept[x].0 == nv[y].0;
                        assert(node_entries(kept)[x].0 == nv[y].0);
                    } else {
                        assert(node_entries(kept)[x].0 == nv[i as int].0);
                    }
                }
            }
        }
        i = i + 1;
    }
    assert(nv.take(n as int) =~= nv);
    dep.nodes = kept;
    assert(dep@ =~= drop_implicit(g0));
}

/// Sorts the nodes of `dep` by id.
fn sort_nodes_in(dep: &mut DepGraph)
    ensures
        final(dep)@ == sort_nodes(old(dep)@),
{
    proof {
        lemma_node_views_sorted(node_entries(dep.nodes));
    }
    node_map_sort_keys(&mut dep.nodes);
    assert(dep@ =~= sort_nodes(old(dep)@));
}

/// Applies the statements `stmts` to `dep`: nodes, edges and attributes at
/// this level, each subgraph built on its own and stored in order, then the
/// implicit duplicates of subgraph nodes dropped.
fn walk_stmts(stmts: &Vec<DotStmt>, dep: &mut DepGraph)
    ensures
        final(dep)@ == walk_model(stmts_view(stmts@), old(dep)@),
    decreases stmts@, 1nat,
{
    let ghost sv = stmts_view(stmts@);
    let ghost g0 = dep@;
    let mut subgraphs: Vec<DepGraph> = Vec::new();
    let mut i: usize = 0;
    assert(sv.take(0).len() == 0);
    assert(graphs_view(subgraphs@) =~= Seq::<GraphView>::empty());
    while i < stmts.len()
        invariant
            i <= stmts.len(),
            sv == stmts_view(stmts@),
            (dep@, graphs_view(subgraphs@)) == walk_fold(sv.take(i as int), g0, seq![]),
        decreases stmts.len() - i,
    {
        proof {
            assert(sv.take(i + 1).drop_last() =~= sv.take(i as int));
            assert(sv.take(i + 1)[i as int] == stmt_view(stmts@[i as int]));
        }
        let ghost prev = walk_fold(sv.take(i as int), g0, seq![]);
        match &stmts[i] {
            DotStmt::Node(raw, a) => {
                add_node(raw.as_str(), a, dep);
            },
            DotStmt::Edge(eps, a) => {
                proof {
                    lemma_edge_stmt_view(*eps, *a);
                }
                add_edges(eps, a, dep);
            },
            DotStmt::GraphAttrs(a) => {
                insert_decoded_pairs(&mut dep.attrs, a);
                assert(dep@ =~= with_attrs(prev.0, insert_decoded(prev.0.attrs, pairs_view(a@))));
            },
            DotStmt::DefaultAttrs => {},
            DotStmt::Assign(k, v) => {
                let key = unquote(k.as_str());
                let value = unquote(v.as_str());
                str_map_insert(&mut dep.attrs, key, value);
                assert(dep@ =~= with_attrs(prev.0, insert_entry(prev.0.attrs, unquote_spec(k@), unquote_spec(v@))));
            },
            DotStmt::Subgraph(sub) => {
                let g = collect_subgraph(sub);
                subgraphs.push(g);
                assert(graphs_view(subgraphs@) =~= prev.1.push(subgraph_model(subgraph_view(*sub))));
            },
        }
        i = i + 1;
    }
    assert(sv.take(stmts.len() as int) =~= sv);
    let ghost fin = walk_fold(sv, g0, seq![]);
    let ghost gv = graphs_view(subgraphs@);
    dep.subgraphs = subgraphs;
    proof {
        if dep.subgraphs@.len() > 0 {
            lemma_graph_view_subgraph(*dep, 0);
        }
        assert forall|j: int| 0 <= j < gv.len() implies dep@.subgraphs[j] == gv[j] by {
            lemma_graph_view_subgraph(*dep, j);
        }
        assert(dep@.subgraphs =~= gv);
    }
    assert(dep@ =~= with_subgraphs(fin.0, fin.1));
    remove_implicit_duplicates(dep);
}

/// The graph that a subgraph describes.
fn collect_subgraph(sub: &DotSubgraph) -> (r: DepGraph)
    ensures
        r@ == subgraph_model(subgraph_view(*sub)),
    decreases sub, 2nat,
{
    let mut dep = DepGraph::default();
    dep.id = match &sub.id {
        Some(s) => Some(unquote(s.as_str())),
        None => None,
    };
    assert(dep@ =~= named_empty(opt_str(sub.id)));
    assert(subgraph_view(*sub).stmts =~= stmts_view(sub.stmts@));
    walk_stmts(&sub.stmts, &mut dep);
    sort_nodes_in(&mut dep);
    dep
}

/// The dependency graph that a DOT syntax tree describes: its statements
/// applied in order to a graph named after it, the nodes then sorted by id.
pub fn graph_from_syntax(t: &DotGraph) -> (r: DepGraph)
    ensures
        r@ == dot_model(t@),
{
    let mut dep = DepGraph::default();
    dep.id = match &t.name {
        Some(s) => Some(unquote(s.as_str())),
        None => None,
    };
    assert(dep@ =~= named_empty(opt_str(t.name)));
    walk_stmts(&t.stmts, &mut dep);
    sort_nodes_in(&mut dep);
    dep
}

/// Parse DOT text into a dependency graph: an error exactly where the DOT
/// grammar rejects the text, else the graph its syntax tree describes.
pub fn parse(input: &str) -> (r: Result<DepGraph, ParseError>)
    ensures
        r is Ok == dot_syntax(input@) is Some,
        r matches Ok(g) ==> dot_syntax(input@) matches Some(t) && g@ == dot_model(t),
        r is Err ==> r matches Err(ParseError::InvalidDot(_)),
{
    match syntax_tree(input) {
        Ok(t) => Ok(graph_from_syntax(&t)),
        Err(e) => Err(ParseError::InvalidDot(e)),
    }
}

} // verus!
