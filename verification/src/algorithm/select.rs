//! Selecting a subgraph by glob patterns and reachability.
use vstd::prelude::*;

use std::collections::HashSet;

use super::{
    compiles, all_parse, build_globset, build_outcome, hit_positions, hits, positions, positions_vec, set_to_vec, strs, vec_to_set,
    MatchKey, PatternError,
};
use crate::flat::{bfs_spec, edges_within, flat_edges, filter_view, kept_ids, lemma_reach_within, roots_upto, FlatGraphView};
use crate::graph::{all_nodes_spec, collect_edges, edge_views, node_views, DepGraph, Edge, EdgeView, GraphView, NodeView};
use crate::maps::{has_key, keys_of, node_entries, node_map_contains_key, str_views};
use vstd::pervasive::VecAdditionalExecFns;
use crate::pg::{index_limit, lemma_neighbor_seq, linked, neighbor_seq, pg_edges, pg_neighbors, pg_node_count};
use crate::text::str_eq;
use petgraph::graph::DiGraph;

verus! {

/// Options of `select`.
#[derive(Clone, Debug)]
pub struct SelectArgs {
    /// Glob patterns selecting the nodes to keep.
    pub included: Vec<String>,
    /// Glob patterns to exclude nodes (always OR).
    pub exclude: Vec<String>,
    /// Combine multiple included patterns with AND instead of OR.
    pub and: bool,
    /// Match patterns against the id or the label.
    pub key: MatchKey,
    /// Keep all dependencies of selected nodes.
    pub deps: bool,
    /// Keep all reverse dependencies of selected nodes.
    pub rdeps: bool,
    /// Traverse up to N layers (implies `deps` if no direction is given).
    pub depth: Option<usize>,
    /// Preserve connectivity when excluding nodes.
    pub preserve_connectivity: bool,
}

impl Default for SelectArgs {
    fn default() -> (r: SelectArgs)
        ensures
            r.included@.len() == 0,
            r.exclude@.len() == 0,
            !r.and && !r.deps && !r.rdeps && !r.preserve_connectivity,
            r.key == MatchKey::Label,
            r.depth is None,
    {
        SelectArgs {
            included: Vec::new(),
            exclude: Vec::new(),
            and: false,
            key: MatchKey::Label,
            deps: false,
            rdeps: false,
            depth: None,
            preserve_connectivity: false,
        }
    }
}

impl SelectArgs {
    pub fn included(self, p: &str) -> (r: Self)
        ensures
            strs(r.included@) == strs(self.included@).push(p@),
            r.exclude@ == self.exclude@,
            r.and == self.and && r.key == self.key && r.deps == self.deps && r.rdeps == self.rdeps,
            r.depth == self.depth && r.preserve_connectivity == self.preserve_connectivity,
    {
        let mut s = self;
        let ghost before = s.included@;
        s.included.push(p.to_owned());
        assert(strs(s.included@) =~= strs(before).push(p@));
        s
    }

    pub fn exclude(self, p: &str) -> (r: Self)
        ensures
            strs(r.exclude@) == strs(self.exclude@).push(p@),
            r.included@ == self.included@,
            r.and == self.and && r.key == self.key && r.deps == self.deps && r.rdeps == self.rdeps,
            r.depth == self.depth && r.preserve_connectivity == self.preserve_connectivity,
    {
        let mut s = self;
        let ghost before = s.exclude@;
        s.exclude.push(p.to_owned());
        assert(strs(s.exclude@) =~= strs(before).push(p@));
        s
    }

    pub fn and(self) -> (r: Self)
        ensures
            r.and,
            r.included@ == self.included@ && r.exclude@ == self.exclude@,
            r.key == self.key && r.deps == self.deps && r.rdeps == self.rdeps,
            r.depth == self.depth && r.preserve_connectivity == self.preserve_connectivity,
    {
        let mut s = self;
        s.and = true;
        s
    }

    pub fn key(self, k: MatchKey) -> (r: Self)
        ensures
            r.key == k,
            r.included@ == self.included@ && r.exclude@ == self.exclude@,
            r.and == self.and && r.deps == self.deps && r.rdeps == self.rdeps,
            r.depth == self.depth && r.preserve_connectivity == self.preserve_connectivity,
    {
        let mut s = self;
        s.key = k;
        s
    }

    pub fn deps(self) -> (r: Self)
        ensures
            r.deps,
            r.included@ == self.included@ && r.exclude@ == self.exclude@,
            r.and == self.and && r.key == self.key && r.rdeps == self.rdeps,
            r.depth == self.depth && r.preserve_connectivity == self.preserve_connectivity,
    {
        let mut s = self;
        s.deps = true;
        s
    }

    pub fn rdeps(self) -> (r: Self)
        ensures
            r.rdeps,
            r.included@ == self.included@ && r.exclude@ == self.exclude@,
            r.and == self.and && r.key == self.key && r.deps == self.deps,
            r.depth == self.depth && r.preserve_connectivity == self.preserve_connectivity,
    {
        let mut s = self;
        s.rdeps = true;
        s
    }

    pub fn depth(self, n: usize) -> (r: Self)
        ensures
            r.depth == Some(n),
            r.included@ == self.included@ && r.exclude@ == self.exclude@,
            r.and == self.and && r.key == self.key && r.deps == self.deps && r.rdeps == self.rdeps,
            r.preserve_connectivity == self.preserve_connectivity,
    {
        let mut s = self;
        s.depth = Some(n);
        s
    }

    pub fn preserve_connectivity(self) -> (r: Self)
        ensures
            r.preserve_connectivity,
            r.included@ == self.included@ && r.exclude@ == self.exclude@,
            r.and == self.and && r.key == self.key && r.deps == self.deps && r.rdeps == self.rdeps,
            r.depth == self.depth,
    {
        let mut s = self;
        s.preserve_connectivity = true;
        s
    }
}

/// The nodes `select` starts from: those matching the include patterns;
/// with no include pattern, the roots when traversing, else every node.
pub open spec fn select_start(nodes: Seq<(Seq<char>, NodeView)>, edges: Seq<(usize, usize)>, args: SelectArgs) -> Set<usize> {
    if args.included@.len() == 0 {
        if args.deps || args.rdeps || args.depth is Some {
            roots_upto(edges, nodes.len()).to_set()
        } else {
            positions(nodes.len())
        }
    } else {
        hits(nodes, strs(args.included@), args.and, args.key)
    }
}

/// The start nodes with their dependencies and/or reverse dependencies
/// (`depth` alone means dependencies), up to `depth` edges away.
pub open spec fn select_expanded(nodes: Seq<(Seq<char>, NodeView)>, edges: Seq<(usize, usize)>, args: SelectArgs) -> Set<usize> {
    let n = nodes.len();
    let start = select_start(nodes, edges, args);
    let deps = args.deps || args.depth is Some;
    if deps && args.rdeps {
        bfs_spec(edges, n, start, true, args.depth).union(bfs_spec(edges, n, start, false, args.depth))
    } else if args.rdeps {
        bfs_spec(edges, n, start, false, args.depth)
    } else if deps {
        bfs_spec(edges, n, start, true, args.depth)
    } else {
        start
    }
}

/// The expanded nodes that an exclude pattern matches.
pub open spec fn select_excluded(nodes: Seq<(Seq<char>, NodeView)>, edges: Seq<(usize, usize)>, args: SelectArgs) -> Set<usize> {
    if args.exclude@.len() > 0 {
        select_expanded(nodes, edges, args).intersect(hits(nodes, strs(args.exclude@), false, args.key))
    } else {
        Set::empty()
    }
}

/// The nodes `select` keeps.
pub open spec fn select_keep(nodes: Seq<(Seq<char>, NodeView)>, edges: Seq<(usize, usize)>, args: SelectArgs) -> Set<usize> {
    select_expanded(nodes, edges, args).difference(select_excluded(nodes, edges, args))
}

/// Whether `select` returns the graph unchanged: no pattern and no traversal.
pub open spec fn select_passes(args: SelectArgs) -> bool {
    args.included@.len() == 0 && args.exclude@.len() == 0 && !args.deps && !args.rdeps && args.depth is None
}

pub(crate) fn union_within(a: &HashSet<usize>, b: &HashSet<usize>, n: usize) -> (r: HashSet<usize>)
    ensures
        r@ == a@.union(b@).intersect(positions(n as nat)),
{
    broadcast use vstd::std_specs::hash::group_hash_axioms;
    let mut r: HashSet<usize> = HashSet::new();
    let mut i: usize = 0;
    while i < n
        invariant
            i <= n,
            r@ == a@.union(b@).intersect(positions(i as nat)),
        decreases n - i,
    {
        if a.contains(&i) || b.contains(&i) {
            r.insert(i);
        }
        i = i + 1;
        assert(r@ =~= a@.union(b@).intersect(positions(i as nat)));
    }
    r
}

/// Select a subgraph: start from the nodes matching the include patterns
/// (or the roots, or every node), add dependencies and/or reverse
/// dependencies as asked, then drop the nodes matching an exclude pattern.
/// With no pattern and no traversal the graph is returned unchanged.
pub fn select(graph: &DepGraph, args: &SelectArgs) -> (r: Result<DepGraph, PatternError>)
    requires
        all_nodes_spec(graph@).len() < index_limit(),
        collect_edges(graph@).len() < index_limit(),
    ensures
        select_passes(*args) ==> (r matches Ok(g) && g@ == graph@),
        !select_passes(*args) ==> select_result(graph@, *args, r),
        !select_passes(*args) ==> (all_parse(strs(args.included@)) && all_parse(strs(args.exclude@))
            ==> !(r matches Err(PatternError::Invalid(_)))),
        !select_passes(*args) ==> (!(all_parse(strs(args.included@)) && all_parse(strs(args.exclude@))) ==> r is Err),
        compiles(strs(args.included@)) && compiles(strs(args.exclude@)) ==> r is Ok,
{
    broadcast use vstd::std_specs::hash::group_hash_axioms;
    let view = FlatGraphView::new(graph);
    let no_traversal = !args.deps && !args.rdeps && args.depth.is_none();
    if args.included.len() == 0 && args.exclude.len() == 0 && no_traversal {
        return Ok(graph.duplicate());
    }
    let inc = match build_globset(&args.included) {
        Ok(s) => s,
        Err(e) => return Err(e),
    };
    let exc = match build_globset(&args.exclude) {
        Ok(s) => s,
        Err(e) => return Err(e),
    };
    let all = graph.all_nodes();
    let ghost nodes = view.nodes();
    let ghost edges = view.edges();
    let n = crate::maps::node_map_len(&all);
    assert(node_views(node_entries(all)) == nodes);
    let has_traversal = args.deps || args.rdeps || args.depth.is_some();
    let start: Vec<usize> = if args.included.len() == 0 {
        if has_traversal {
            view.roots()
        } else {
            positions_vec(n)
        }
    } else {
        let hit = hit_positions(&all, &inc, args.included.len(), args.and, args.key);
        set_to_vec(&hit, n)
    };
    proof {
        lemma_roots_within(edges, nodes.len());
        assert(start@.to_set() =~= select_start(nodes, edges, *args));
    }
    let deps = args.deps || args.depth.is_some();
    let expanded: HashSet<usize> = if deps && args.rdeps {
        let down = view.bfs(&start, true, args.depth);
        let up = view.bfs(&start, false, args.depth);
        proof {
            let dn = match args.depth { Some(d) => d as nat, None => nodes.len() };
            lemma_reach_within(edges, nodes.len(), start@.to_set(), true, dn);
            lemma_reach_within(edges, nodes.len(), start@.to_set(), false, dn);
        }
        let u = union_within(&down, &up, n);
        assert(u@ =~= down@.union(up@));
        u
    } else if args.rdeps {
        view.bfs(&start, false, args.depth)
    } else if deps {
        view.bfs(&start, true, args.depth)
    } else {
        vec_to_set(&start)
    };
    assert(expanded@ == select_expanded(nodes, edges, *args));
    let mut keep: HashSet<usize> = HashSet::new();
    let mut excluded: HashSet<usize> = HashSet::new();
    let exc_hits = hit_positions(&all, &exc, args.exclude.len(), false, args.key);
    let ghost ex_spec = select_excluded(nodes, edges, *args);
    let mut i: usize = 0;
    while i < n
        invariant
            i <= n == nodes.len(),
            ex_spec == select_excluded(nodes, edges, *args),
            expanded@ == select_expanded(nodes, edges, *args),
            exc_hits@ == hits(nodes, strs(args.exclude@), false, args.key),
            keep@ == expanded@.difference(ex_spec).intersect(positions(i as nat)),
            excluded@ == ex_spec.intersect(positions(i as nat)),
        decreases n - i,
    {
        if expanded.contains(&i) {
            if args.exclude.len() > 0 && exc_hits.contains(&i) {
                excluded.insert(i);
            } else {
                keep.insert(i);
            }
        }
        i = i + 1;
        assert(keep@ =~= expanded@.difference(ex_spec).intersect(positions(i as nat)));
        assert(excluded@ =~= ex_spec.intersect(positions(i as nat)));
    }
    proof {
        lemma_select_within(nodes, edges, *args);
        assert(keep@ =~= select_keep(nodes, edges, *args));
    }
    let mut result = view.filter(&keep);
    let ghost filtered = result@;
    let ghost kept = kept_ids(nodes, keep@);
    let mut pairs: Vec<(String, String)> = Vec::new();
    proof {
        assert(str_views(view.idx_to_id@).len() == view.idx_to_id@.len());
        assert(keys_of(nodes).len() == nodes.len());
        assert forall|p: int| 0 <= p < n implies #[trigger] view.idx_to_id@[p]@ == nodes[p].0 by {
            assert(str_views(view.idx_to_id@)[p] == view.idx_to_id@[p]@);
            assert(keys_of(nodes)[p] == nodes[p].0);
        }
    }
    proof {
        assert(excluded@ =~= ex_spec);
    }
    if args.preserve_connectivity {
        let all_e = result.all_edges();
        let base = endpoint_pairs(&all_e);
        pairs = bypass_pairs(&view, &keep, &excluded, &base);
    }
    let mut k: usize = 0;
    assert(pair_views(pairs@).take(0) =~= Seq::<(Seq<char>, Seq<char>)>::empty());
    while k < pairs.len()
        invariant
            k <= pairs@.len(),
            result@ == insert_edges_view(filtered, pair_views(pairs@).take(k as int)),
        decreases pairs@.len() - k,
    {
        insert_edge(&mut result, pairs[k].0.as_str(), pairs[k].1.as_str());
        assert(pair_views(pairs@).take(k + 1).drop_last() =~= pair_views(pairs@).take(k as int));
        k = k + 1;
    }
    assert(pair_views(pairs@).take(pairs@.len() as int) =~= pair_views(pairs@));
    assert(result@ == insert_edges_view(filter_view(graph@, kept), pair_views(pairs@)));
    assert(forall|p: (Seq<char>, Seq<char>)| #[trigger] pair_views(pairs@).contains(p) <==> (args.preserve_connectivity
        && is_bypass(nodes, edges, keep@, ex_spec, edge_pairs(filtered), p)));
    Ok(result)
}

/// What `select` returns when it does not pass the graph through: the
/// first pattern error, or the graph restricted to the kept nodes, with, when
/// connectivity is preserved, one bypass edge for each pair of different kept
/// nodes joined through excluded nodes (see [`is_bypass`]) that is not an
/// edge already, each stored at the deepest level holding both ends.
pub open spec fn select_result(g: GraphView, args: SelectArgs, r: Result<DepGraph, PatternError>) -> bool {
    let inc = strs(args.included@);
    let exc = strs(args.exclude@);
    let nodes = all_nodes_spec(g);
    let edges = flat_edges(nodes, collect_edges(g));
    let kept = kept_ids(nodes, select_keep(nodes, edges, args));
    match r {
        Err(e) => build_outcome(inc, Err(e)) || (compiles(inc) && build_outcome(exc, Err(e))),
        Ok(out) => all_parse(inc) && all_parse(exc) && exists|pairs: Seq<(Seq<char>, Seq<char>)>|
            #![trigger insert_edges_view(filter_view(g, kept), pairs)]
            out@ == insert_edges_view(filter_view(g, kept), pairs) && pairs.no_duplicates() && forall|p: (Seq<char>, Seq<char>)|
                #[trigger] pairs.contains(p) <==> (args.preserve_connectivity && is_bypass(
                    nodes,
                    edges,
                    select_keep(nodes, edges, args),
                    select_excluded(nodes, edges, args),
                    edge_pairs(filter_view(g, kept)),
                    p,
                )),
    }
}

/// The string views of a list of id pairs.
pub open spec fn pair_views(s: Seq<(String, String)>) -> Seq<(Seq<char>, Seq<char>)> {
    s.map_values(|p: (String, String)| (p.0@, p.1@))
}

/// A bypass edge joins two different kept nodes.
pub open spec fn pair_ok(p: (Seq<char>, Seq<char>), kept: Set<Seq<char>>) -> bool {
    p.0 != p.1 && kept.contains(p.0) && kept.contains(p.1)
}

proof fn lemma_kept_position(nodes: Seq<(Seq<char>, NodeView)>, keep: Set<usize>, p: usize)
    requires
        crate::flat::distinct_keys(nodes),
        p < nodes.len(),
        keep.contains(p),
    ensures
        kept_ids(nodes, keep).contains(nodes[p as int].0),
{
    crate::maps::lemma_find_key(nodes, nodes[p as int].0);
    let f = crate::maps::find_key(nodes, nodes[p as int].0);
    if f != p {
        assert(nodes[f].0 == nodes[p as int].0);
    }
}

proof fn lemma_roots_within(edges: Seq<(usize, usize)>, n: nat)
    ensures
        forall|k: int| 0 <= k < roots_upto(edges, n).len() ==> roots_upto(edges, n)[k] < n,
    decreases n,
{
    if n > 0 {
        let prev = roots_upto(edges, (n - 1) as nat);
        lemma_roots_within(edges, (n - 1) as nat);
        assert forall|k: int| 0 <= k < roots_upto(edges, n).len() implies roots_upto(edges, n)[k] < n by {
            if k < prev.len() {
                assert(roots_upto(edges, n)[k] == prev[k]);
            }
        }
    }
}

/// Everything `select` keeps or excludes is a node.
proof fn lemma_select_within(nodes: Seq<(Seq<char>, NodeView)>, edges: Seq<(usize, usize)>, args: SelectArgs)
    requires
        crate::flat::edges_within(edges, nodes.len()),
    ensures
        forall|x: usize| #[trigger] select_expanded(nodes, edges, args).contains(x) ==> x < nodes.len(),
{
    let n = nodes.len();
    let start = select_start(nodes, edges, args);
    lemma_roots_within(edges, n);
    assert forall|x: usize| #[trigger] start.contains(x) implies x < n by {
        if args.included@.len() == 0 && (args.deps || args.rdeps || args.depth is Some) {
            let k = choose|k: int| 0 <= k < roots_upto(edges, n).len() && roots_upto(edges, n)[k] == x;
        }
    }
    let dn = match args.depth { Some(d) => d as nat, None => n };
    lemma_reach_within(edges, n, start, true, dn);
    lemma_reach_within(edges, n, start, false, dn);
}

/// Whether graph `g` (any level) holds nodes `a` and `b`.
pub open spec fn holds_both(g: GraphView, a: Seq<char>, b: Seq<char>) -> bool {
    has_key(all_nodes_spec(g), a) && has_key(all_nodes_spec(g), b)
}

/// The first of the first `n` subgraphs holding both `a` and `b`, or -1.
pub open spec fn first_holding(sgs: Seq<GraphView>, n: nat, a: Seq<char>, b: Seq<char>) -> int
    decreases n,
{
    if n == 0 || n > sgs.len() {
        -1
    } else {
        let i = first_holding(sgs, (n - 1) as nat, a, b);
        if i >= 0 {
            i
        } else if holds_both(sgs[n - 1], a, b) {
            n - 1
        } else {
            -1
        }
    }
}

/// `g` with a plain edge `a -> b` added to the deepest subgraph holding both
/// endpoints (the first such at each level), or to `g` itself.
pub open spec fn insert_edge_view(g: GraphView, a: Seq<char>, b: Seq<char>) -> GraphView
    decreases g,
{
    let i = first_holding(g.subgraphs, g.subgraphs.len(), a, b);
    if 0 <= i < g.subgraphs.len() {
        GraphView { subgraphs: g.subgraphs.update(i, insert_edge_view(g.subgraphs[i], a, b)), ..g }
    } else {
        GraphView {
            edges: g.edges.push(EdgeView { from: a, to: b, label: None, attrs: Seq::empty() }),
            ..g
        }
    }
}

/// `g` with the edges `pairs` inserted in order.
pub open spec fn insert_edges_view(g: GraphView, pairs: Seq<(Seq<char>, Seq<char>)>) -> GraphView
    decreases pairs.len(),
{
    if pairs.len() == 0 {
        g
    } else {
        insert_edge_view(insert_edges_view(g, pairs.drop_last()), pairs.last().0, pairs.last().1)
    }
}

proof fn lemma_first_holding(sgs: Seq<GraphView>, n: nat, a: Seq<char>, b: Seq<char>)
    requires
        n <= sgs.len(),
    ensures
        -1 <= first_holding(sgs, n, a, b) < n,
        first_holding(sgs, n, a, b) >= 0 ==> holds_both(sgs[first_holding(sgs, n, a, b)], a, b),
        first_holding(sgs, n, a, b) < 0 ==> forall|j: int| 0 <= j < n ==> !holds_both(#[trigger] sgs[j], a, b),
    decreases n,
{
    if n > 0 {
        lemma_first_holding(sgs, (n - 1) as nat, a, b);
    }
}

proof fn lemma_first_holding_stable(sgs: Seq<GraphView>, i: nat, m: nat, a: Seq<char>, b: Seq<char>)
    requires
        i < m <= sgs.len(),
        first_holding(sgs, i, a, b) == -1,
        holds_both(sgs[i as int], a, b),
    ensures
        first_holding(sgs, m, a, b) == i,
    decreases m,
{
    if m > i + 1 {
        lemma_first_holding_stable(sgs, i, (m - 1) as nat, a, b);
    }
}

/// Insert a plain edge `from -> to` into the deepest subgraph that holds
/// both endpoints, or into `graph` itself.
pub(crate) fn insert_edge(graph: &mut DepGraph, from: &str, to: &str)
    ensures
        final(graph)@ == insert_edge_view(old(graph)@, from@, to@),
    decreases *old(graph),
{
    let ghost g0 = graph@;
    let mut j: usize = 0;
    while j < graph.subgraphs.len()
        invariant
            *graph == *old(graph),
            g0 == old(graph)@,
            j <= graph.subgraphs@.len() == g0.subgraphs.len(),
            first_holding(g0.subgraphs, j as nat, from@, to@) == -1,
        decreases graph.subgraphs@.len() - j,
    {
        proof {
            crate::graph::lemma_graph_view_subgraph(*graph, j as int);
        }
        let all = graph.subgraphs[j].all_nodes();
        proof {
            crate::graph::lemma_node_views_keys(node_entries(all));
        }
        let has_from = node_map_contains_key(&all, from);
        let has_to = node_map_contains_key(&all, to);
        if has_from && has_to {
            let ghost sg0 = graph.subgraphs@[j as int];
            proof {
                assert(holds_both(g0.subgraphs[j as int], from@, to@));
                lemma_first_holding_stable(g0.subgraphs, j as nat, g0.subgraphs.len(), from@, to@);
            }
            let mut sg = DepGraph::default();
            graph.subgraphs.set_and_swap(j, &mut sg);
            assert(sg == sg0);
            insert_edge(&mut sg, from, to);
            let mut back = sg;
            graph.subgraphs.set_and_swap(j, &mut back);
            proof {
                crate::graph::lemma_graph_view_subgraph(*graph, j as int);
                assert forall|q: int| 0 <= q < graph.subgraphs@.len() implies graph@.subgraphs[q] == insert_edge_view(g0, from@, to@).subgraphs[q] by {
                    crate::graph::lemma_graph_view_subgraph(*graph, q);
                    crate::graph::lemma_graph_view_subgraph(*old(graph), q);
                }
                assert(graph@.subgraphs =~= insert_edge_view(g0, from@, to@).subgraphs);
            }
            return;
        }
        j = j + 1;
    }
    let e = Edge { from: from.to_owned(), to: to.to_owned(), label: None, attrs: crate::maps::str_map_new() };
    let ghost before = graph.edges@;
    graph.edges.push(e);
    proof {
        assert(edge_views(graph.edges@) =~= edge_views(before).push(e@));
        assert forall|q: int| 0 <= q < graph.subgraphs@.len() implies graph@.subgraphs[q] == g0.subgraphs[q] by {
            crate::graph::lemma_graph_view_subgraph(*graph, q);
            crate::graph::lemma_graph_view_subgraph(*old(graph), q);
        }
        assert(graph@.subgraphs =~= g0.subgraphs);
    }
}

pub proof fn lemma_positions_len(n: nat)
    requires
        n <= usize::MAX,
    ensures
        positions(n).finite(),
        positions(n).len() == n,
    decreases n,
{
    if n == 0 {
        assert(positions(0) =~= Set::<usize>::empty());
    } else {
        assert(!positions((n - 1) as nat).contains((n - 1) as usize));
        lemma_positions_len((n - 1) as nat);
        assert(positions(n) =~= positions((n - 1) as nat).insert((n - 1) as usize));
    }
}

/// A sequence of distinct positions below `n` has at most `n` elements.
proof fn lemma_distinct_below(s: Seq<usize>, n: nat)
    requires
        n <= usize::MAX,
        s.no_duplicates(),
        forall|k: int| 0 <= k < s.len() ==> s[k] < n,
    ensures
        s.len() <= n,
{
    lemma_positions_len(n);
    s.unique_seq_to_set();
    assert(s.to_set().subset_of(positions(n)));
    vstd::set_lib::lemma_len_subset(s.to_set(), positions(n));
}

/// The nodes reached from `start` in at most `k` steps along the edges
/// (forward when `outgoing`), where only `start` and nodes outside `keep` are
/// passed through.
pub open spec fn reach_through(edges: Seq<(usize, usize)>, keep: Set<usize>, start: usize, outgoing: bool, k: nat) -> Set<usize>
    decreases k,
{
    if k == 0 {
        set![start]
    } else {
        let r = reach_through(edges, keep, start, outgoing, (k - 1) as nat);
        r.union(
            Set::new(
                |w: usize|
                    exists|x: usize| r.contains(x) && (x == start || !keep.contains(x)) && #[trigger] linked(edges, x, w, outgoing),
            ),
        )
    }
}

/// The kept nodes other than `start` that can be reached from `start`
/// passing only through nodes outside `keep`.
pub open spec fn survivors(edges: Seq<(usize, usize)>, keep: Set<usize>, start: usize, outgoing: bool) -> Set<usize> {
    Set::new(
        |v: usize|
            v != start && keep.contains(v) && exists|k: nat| #[trigger] reach_through(edges, keep, start, outgoing, k).contains(v),
    )
}

/// Every node reached through expandable nodes is visited, once the visited
/// set is closed under expanding.
proof fn lemma_reach_visited(edges: Seq<(usize, usize)>, keep: Set<usize>, start: usize, outgoing: bool, visited: Set<usize>, k: nat)
    requires
        visited.contains(start),
        forall|x: usize, w: usize|
            visited.contains(x) && (x == start || !keep.contains(x)) && #[trigger] linked(edges, x, w, outgoing) ==> visited.contains(w),
    ensures
        forall|v: usize| #[trigger] reach_through(edges, keep, start, outgoing, k).contains(v) ==> visited.contains(v),
    decreases k,
{
    if k > 0 {
        lemma_reach_visited(edges, keep, start, outgoing, visited, (k - 1) as nat);
        let r = reach_through(edges, keep, start, outgoing, (k - 1) as nat);
        assert forall|v: usize| #[trigger] reach_through(edges, keep, start, outgoing, k).contains(v) implies visited.contains(v) by {
            if !r.contains(v) {
                let x = choose|x: usize| r.contains(x) && (x == start || !keep.contains(x)) && #[trigger] linked(edges, x, v, outgoing);
                assert(visited.contains(x));
            }
        }
    } else {
        assert forall|v: usize| #[trigger] reach_through(edges, keep, start, outgoing, k).contains(v) implies visited.contains(v) by {
            assert(v == start);
        }
    }
}

/// The kept nodes found by searching from `start` through nodes outside
/// `keep`: the nodes that a removed node's neighbors lead to once the
/// removed nodes in between are skipped. Each is listed once, in the order
/// of a breadth-first search.
fn surviving_neighbors(pg: &DiGraph<(), ()>, start: usize, outgoing: bool, keep: &HashSet<usize>) -> (r: Vec<usize>)
    requires
        start < pg_node_count(*pg),
        pg_node_count(*pg) < index_limit(),
        edges_within(pg_edges(*pg), pg_node_count(*pg)),
    ensures
        forall|k: int| 0 <= k < r@.len() ==> keep@.contains(#[trigger] r@[k]) && r@[k] < pg_node_count(*pg),
        r@.no_duplicates(),
        forall|v: usize| r@.contains(v) <==> #[trigger] survivors(pg_edges(*pg), keep@, start, outgoing).contains(v),
{
    broadcast use vstd::std_specs::hash::group_hash_axioms;
    let ghost n = pg_node_count(*pg);
    let ghost edges = pg_edges(*pg);
    let ghost kp = keep@;
    let mut result: Vec<usize> = Vec::new();
    let mut visited: HashSet<usize> = HashSet::new();
    let mut queue: Vec<usize> = Vec::new();
    visited.insert(start);
    queue.push(start);
    assert(reach_through(edges, kp, start, outgoing, 0).contains(start));
    let mut head: usize = 0;
    while head < queue.len()
        invariant
            n == pg_node_count(*pg),
            n < index_limit(),
            edges == pg_edges(*pg),
            kp == keep@,
            edges_within(edges, n),
            head <= queue@.len() <= n,
            queue@.len() >= 1,
            queue@[0] == start,
            queue@.no_duplicates(),
            forall|k: int| 0 <= k < queue@.len() ==> visited@.contains(#[trigger] queue@[k]),
            forall|k: int| 0 <= k < queue@.len() ==> #[trigger] queue@[k] == start || !kp.contains(queue@[k]),
            forall|x: usize| #[trigger] visited@.contains(x) ==> x < n,
            forall|k: int| 0 <= k < result@.len() ==> keep@.contains(#[trigger] result@[k]) && result@[k] < n,
            forall|k: int| 0 <= k < result@.len() ==> visited@.contains(#[trigger] result@[k]) && result@[k] != start,
            result@.no_duplicates(),
            forall|x: usize|
                #[trigger] visited@.contains(x) ==> x == start || (kp.contains(x) && result@.contains(x)) || (!kp.contains(x)
                    && queue@.contains(x)),
            forall|x: usize| #[trigger] visited@.contains(x) ==> exists|k: nat| #[trigger] reach_through(edges, kp, start, outgoing, k).contains(x),
            forall|j: int, w: usize| 0 <= j < head && #[trigger] linked(edges, queue@[j], w, outgoing) ==> visited@.contains(w),
        decreases n - head,
    {
        let node = queue[head];
        head = head + 1;
        let nbs = pg_neighbors(pg, node, outgoing);
        proof {
            lemma_neighbor_seq(edges, node, outgoing);
        }
        let ghost kn = choose|k: nat| #[trigger] reach_through(edges, kp, start, outgoing, k).contains(node);
        assert(node == start || !kp.contains(node));
        let mut i: usize = 0;
        while i < nbs.len()
            invariant
                n == pg_node_count(*pg),
                n < index_limit(),
                edges == pg_edges(*pg),
                kp == keep@,
                edges_within(edges, n),
                nbs@ == neighbor_seq(edges, node, outgoing),
                forall|v: usize| nbs@.contains(v) <==> linked(edges, node, v, outgoing),
                i <= nbs@.len(),
                0 < head <= queue@.len() <= n,
                queue@[head - 1] == node,
                node == start || !kp.contains(node),
                reach_through(edges, kp, start, outgoing, kn).contains(node),
                queue@.len() >= 1,
                queue@[0] == start,
                queue@.no_duplicates(),
                forall|k: int| 0 <= k < queue@.len() ==> visited@.contains(#[trigger] queue@[k]),
                forall|k: int| 0 <= k < queue@.len() ==> #[trigger] queue@[k] == start || !kp.contains(queue@[k]),
                forall|x: usize| #[trigger] visited@.contains(x) ==> x < n,
                forall|k: int| 0 <= k < result@.len() ==> keep@.contains(#[trigger] result@[k]) && result@[k] < n,
                forall|k: int| 0 <= k < result@.len() ==> visited@.contains(#[trigger] result@[k]) && result@[k] != start,
                result@.no_duplicates(),
                forall|x: usize|
                    #[trigger] visited@.contains(x) ==> x == start || (kp.contains(x) && result@.contains(x)) || (!kp.contains(x)
                        && queue@.contains(x)),
                forall|x: usize| #[trigger] visited@.contains(x) ==> exists|k: nat| #[trigger] reach_through(edges, kp, start, outgoing, k).contains(x),
                forall|j: int, w: usize| 0 <= j < head - 1 && #[trigger] linked(edges, queue@[j], w, outgoing) ==> visited@.contains(w),
                forall|m: int| 0 <= m < i ==> visited@.contains(#[trigger] nbs@[m]),
            decreases nbs@.len() - i,
        {
            let v = nbs[i];
            proof {
                assert(nbs@.contains(v));
                let e = choose|j: int| 0 <= j < edges.len() && #[trigger] edges[j] == (if outgoing { (node, v) } else { (v, node) });
                assert(edges[e].0 < n && edges[e].1 < n);
                assert(reach_through(edges, kp, start, outgoing, kn + 1).contains(v));
            }
            let ghost old_visited = visited@;
            let ghost old_queue = queue@;
            let ghost old_result = result@;
            if visited.insert(v) {
                if keep.contains(&v) {
                    result.push(v);
                    proof {
                        assert forall|x: usize| old_result.contains(x) implies result@.contains(x) by {
                            let k = choose|k: int| 0 <= k < old_result.len() && old_result[k] == x;
                            assert(result@[k] == x);
                        }
                        assert(result@[old_result.len() as int] == v);
                        assert forall|a: int, b: int| 0 <= a < b < result@.len() implies result@[a] != result@[b] by {
                            if b == old_result.len() {
                                assert(old_visited.contains(old_result[a]));
                            }
                        }
                    }
                } else {
                    queue.push(v);
                    proof {
                        assert forall|a: int, b: int| 0 <= a < b < queue@.len() implies queue@[a] != queue@[b] by {
                            if b == old_queue.len() {
                                assert(old_visited.contains(old_queue[a]));
                            }
                        }
                        lemma_distinct_below(queue@, n);
                        assert forall|x: usize| old_queue.contains(x) implies queue@.contains(x) by {
                            let k = choose|k: int| 0 <= k < old_queue.len() && old_queue[k] == x;
                            assert(queue@[k] == x);
                        }
                        assert(queue@[old_queue.len() as int] == v);
                    }
                }
            }
            proof {
                assert forall|m: int| 0 <= m < i + 1 implies visited@.contains(#[trigger] nbs@[m]) by {
                    if m < i {
                        assert(old_visited.contains(nbs@[m]));
                    }
                }
                assert forall|x: usize| #[trigger] visited@.contains(x) implies exists|k: nat| #[trigger] reach_through(edges, kp, start, outgoing, k).contains(x) by {
                    if x == v {
                        assert(reach_through(edges, kp, start, outgoing, kn + 1).contains(v));
                    } else {
                        assert(old_visited.contains(x));
                    }
                }
            }
            i = i + 1;
        }
        proof {
            assert forall|j: int, w: usize| 0 <= j < head && #[trigger] linked(edges, queue@[j], w, outgoing) implies visited@.contains(w) by {
                if j == head - 1 {
                    assert(nbs@.contains(w));
                    let m = choose|m: int| 0 <= m < nbs@.len() && nbs@[m] == w;
                    assert(visited@.contains(nbs@[m]));
                }
            }
        }
    }
    proof {
        assert forall|x: usize, w: usize|
            visited@.contains(x) && (x == start || !kp.contains(x)) && #[trigger] linked(edges, x, w, outgoing) implies visited@.contains(w) by {
            if x == start {
                assert(linked(edges, queue@[0], w, outgoing));
            } else {
                assert(queue@.contains(x));
                let j = choose|j: int| 0 <= j < queue@.len() && queue@[j] == x;
                assert(linked(edges, queue@[j], w, outgoing));
            }
        }
        assert(visited@.contains(queue@[0]));
        assert forall|v: usize| result@.contains(v) <==> #[trigger] survivors(edges, kp, start, outgoing).contains(v) by {
            if result@.contains(v) {
                let k = choose|k: int| 0 <= k < result@.len() && result@[k] == v;
                assert(visited@.contains(result@[k]));
            }
            if survivors(edges, kp, start, outgoing).contains(v) {
                let k = choose|k: nat| #[trigger] reach_through(edges, kp, start, outgoing, k).contains(v);
                lemma_reach_visited(edges, kp, start, outgoing, visited@, k);
                assert(visited@.contains(v));
            }
        }
    }
    result
}

/// The ids of the nodes at positions `u` and `v`.
pub open spec fn id_pair(nodes: Seq<(Seq<char>, NodeView)>, u: usize, v: usize) -> (Seq<char>, Seq<char>) {
    (nodes[u as int].0, nodes[v as int].0)
}

/// Whether the kept nodes `u` and `v` are joined through the removed node
/// `x`: a path leads from `u` to `x` and one from `x` to `v`, each passing
/// only through nodes outside `keep`.
pub open spec fn bypass_via(edges: Seq<(usize, usize)>, keep: Set<usize>, x: usize, u: usize, v: usize) -> bool {
    survivors(edges, keep, x, false).contains(u) && survivors(edges, keep, x, true).contains(v)
}

/// The id pairs of kept nodes joined through the removed nodes below `lim`
/// (a node with itself excepted).
pub open spec fn bypass_upto(
    nodes: Seq<(Seq<char>, NodeView)>,
    edges: Seq<(usize, usize)>,
    keep: Set<usize>,
    removed: Set<usize>,
    lim: nat,
) -> Set<(Seq<char>, Seq<char>)> {
    Set::new(
        |p: (Seq<char>, Seq<char>)|
            p.0 != p.1 && exists|x: usize, u: usize, v: usize|
                #![trigger bypass_via(edges, keep, x, u, v), id_pair(nodes, u, v)]
                x < lim && removed.contains(x) && bypass_via(edges, keep, x, u, v) && id_pair(nodes, u, v) == p,
    )
}

/// Whether `p` is a bypass edge to add: it joins two different kept nodes
/// through removed nodes and is not an edge (by endpoints) in `base`.
pub open spec fn is_bypass(
    nodes: Seq<(Seq<char>, NodeView)>,
    edges: Seq<(usize, usize)>,
    keep: Set<usize>,
    removed: Set<usize>,
    base: Seq<(Seq<char>, Seq<char>)>,
    p: (Seq<char>, Seq<char>),
) -> bool {
    bypass_upto(nodes, edges, keep, removed, nodes.len()).contains(p) && !base.contains(p)
}

/// The endpoint ids of the edges of `g` (all levels), in order.
pub open spec fn edge_pairs(g: GraphView) -> Seq<(Seq<char>, Seq<char>)> {
    collect_edges(g).map_values(|e: EdgeView| (e.from, e.to))
}

/// The bypass pairs for the removed nodes: each pair of kept nodes joined
/// through removed nodes, once, unless `base` holds it already.
pub(crate) fn bypass_pairs(
    view: &FlatGraphView,
    keep: &HashSet<usize>,
    removed: &HashSet<usize>,
    base: &Vec<(String, String)>,
) -> (r: Vec<(String, String)>)
    requires
        view.wf(),
    ensures
        pair_views(r@).no_duplicates(),
        forall|p: (Seq<char>, Seq<char>)| #[trigger] pair_views(r@).contains(p) <==> is_bypass(
            view.nodes(),
            view.edges(),
            keep@,
            removed@,
            pair_views(base@),
            p,
        ),
{
    broadcast use vstd::std_specs::hash::group_hash_axioms;
    let ghost nodes = view.nodes();
    let ghost edges = view.edges();
    let ghost kp = keep@;
    let ghost rm = removed@;
    let ghost bv = pair_views(base@);
    let n = view.idx_to_id.len();
    proof {
        assert(str_views(view.idx_to_id@).len() == view.idx_to_id@.len());
        assert(keys_of(nodes).len() == nodes.len());
        assert forall|p: int| 0 <= p < n implies #[trigger] view.idx_to_id@[p]@ == nodes[p].0 by {
            assert(str_views(view.idx_to_id@)[p] == view.idx_to_id@[p]@);
            assert(keys_of(nodes)[p] == nodes[p].0);
        }
    }
    let mut existing: Vec<(String, String)> = Vec::new();
    let mut q: usize = 0;
    while q < base.len()
        invariant
            q <= base@.len(),
            pair_views(existing@) == pair_views(base@).take(q as int),
        decreases base@.len() - q,
    {
        let ghost before = existing@;
        existing.push((base[q].0.clone(), base[q].1.clone()));
        assert(pair_views(existing@) =~= pair_views(before).push(pair_views(base@)[q as int]));
        assert(pair_views(base@).take(q + 1) =~= pair_views(base@).take(q as int).push(pair_views(base@)[q as int]));
        q = q + 1;
    }
    assert(pair_views(base@).take(base@.len() as int) =~= bv);
    let mut pairs: Vec<(String, String)> = Vec::new();
    let ghost mut want: Set<(Seq<char>, Seq<char>)> = Set::empty();
    assert(bypass_upto(nodes, edges, kp, rm, 0) =~= want);
    assert(pair_views(existing@) =~= bv + pair_views(pairs@));
    let mut idx: usize = 0;
    while idx < n
        invariant
            view.wf(),
            nodes == view.nodes(),
            edges == view.edges(),
            kp == keep@,
            rm == removed@,
            bv == pair_views(base@),
            n == nodes.len(),
            view.idx_to_id@.len() == n,
            idx <= n,
            forall|p: int| 0 <= p < n ==> #[trigger] view.idx_to_id@[p]@ == nodes[p].0,
            want == bypass_upto(nodes, edges, kp, rm, idx as nat),
            pair_views(existing@) == bv + pair_views(pairs@),
            pair_views(pairs@).no_duplicates(),
            forall|p: (Seq<char>, Seq<char>)| #[trigger] pair_views(pairs@).contains(p) <==> (want.contains(p) && !bv.contains(p)),
        decreases n - idx,
    {
        let ghost w0 = want;
        if removed.contains(&idx) {
            let preds = surviving_neighbors(&view.pg, idx, false, keep);
            let succs = surviving_neighbors(&view.pg, idx, true, keep);
            let mut a: usize = 0;
            while a < preds.len()
                invariant
                    view.wf(),
                    nodes == view.nodes(),
                    edges == view.edges(),
                    kp == keep@,
                    rm == removed@,
                    rm.contains(idx),
                    a <= preds@.len(),
                    bv == pair_views(base@),
                    n == nodes.len(),
                    idx < n,
                    view.idx_to_id@.len() == n,
                    forall|p: int| 0 <= p < n ==> #[trigger] view.idx_to_id@[p]@ == nodes[p].0,
                    forall|k: int| 0 <= k < preds@.len() ==> #[trigger] preds@[k] < n,
                    forall|k: int| 0 <= k < succs@.len() ==> #[trigger] succs@[k] < n,
                    forall|v: usize| preds@.contains(v) <==> #[trigger] survivors(edges, kp, idx, false).contains(v),
                    forall|v: usize| succs@.contains(v) <==> #[trigger] survivors(edges, kp, idx, true).contains(v),
                    w0 == bypass_upto(nodes, edges, kp, rm, idx as nat),
                    want == w0.union(Set::new(|p: (Seq<char>, Seq<char>)| p.0 != p.1 && exists|k: int, m: int|
                        0 <= k < a && 0 <= m < succs@.len() && p == #[trigger] id_pair(nodes, preds@[k], #[trigger] succs@[m]))),
                    pair_views(existing@) == bv + pair_views(pairs@),
                    pair_views(pairs@).no_duplicates(),
                    forall|p: (Seq<char>, Seq<char>)| #[trigger] pair_views(pairs@).contains(p) <==> (want.contains(p) && !bv.contains(p)),
                decreases preds@.len() - a,
            {
                let ghost wa = want;
                let from = &view.idx_to_id[preds[a]];
                let mut b: usize = 0;
                while b < succs.len()
                    invariant
                        view.wf(),
                        nodes == view.nodes(),
                        n == nodes.len(),
                        a < preds@.len(),
                        b <= succs@.len(),
                        view.idx_to_id@.len() == n,
                        forall|p: int| 0 <= p < n ==> #[trigger] view.idx_to_id@[p]@ == nodes[p].0,
                        forall|k: int| 0 <= k < preds@.len() ==> #[trigger] preds@[k] < n,
                        forall|k: int| 0 <= k < succs@.len() ==> #[trigger] succs@[k] < n,
                        from@ == nodes[preds@[a as int] as int].0,
                        bv == pair_views(base@),
                        want == wa.union(Set::new(|p: (Seq<char>, Seq<char>)| p.0 != p.1 && exists|m: int|
                            0 <= m < b && p == #[trigger] id_pair(nodes, preds@[a as int], succs@[m]))),
                        pair_views(existing@) == bv + pair_views(pairs@),
                        pair_views(pairs@).no_duplicates(),
                        forall|p: (Seq<char>, Seq<char>)| #[trigger] pair_views(pairs@).contains(p) <==> (want.contains(p) && !bv.contains(p)),
                    decreases succs@.len() - b,
                {
                    let to = &view.idx_to_id[succs[b]];
                    let ghost pk = id_pair(nodes, preds@[a as int], succs@[b as int]);
                    assert(pk == (from@, to@));
                    let ghost wb = want;
                    if !str_eq(from.as_str(), to.as_str()) {
                        proof {
                            want = want.insert(pk);
                        }
                        if !has_pair(&existing, from.as_str(), to.as_str()) {
                            let ghost pv0 = pair_views(pairs@);
                            let ghost ev0 = pair_views(existing@);
                            assert(!(bv + pv0).contains(pk)) by {
                                if (bv + pv0).contains(pk) {
                                    let k = choose|k: int| 0 <= k < (bv + pv0).len() && (bv + pv0)[k] == pk;
                                    assert(existing@[k].0@ == from@ && existing@[k].1@ == to@);
                                }
                            }
                            assert(!bv.contains(pk)) by {
                                if bv.contains(pk) {
                                    let k = choose|k: int| 0 <= k < bv.len() && bv[k] == pk;
                                    assert((bv + pv0)[k] == pk);
                                }
                            }
                            assert(!pv0.contains(pk)) by {
                                if pv0.contains(pk) {
                                    let k = choose|k: int| 0 <= k < pv0.len() && pv0[k] == pk;
                                    assert((bv + pv0)[bv.len() + k] == pk);
                                }
                            }
                            existing.push((from.clone(), to.clone()));
                            pairs.push((from.clone(), to.clone()));
                            assert(pair_views(existing@) =~= ev0.push(pk));
                            assert(pair_views(pairs@) =~= pv0.push(pk));
                            assert(pair_views(existing@) =~= bv + pair_views(pairs@));
                            assert forall|p: (Seq<char>, Seq<char>)| #[trigger] pair_views(pairs@).contains(p) <==> (want.contains(p) && !bv.contains(p)) by {
                                if p != pk {
                                    if pair_views(pairs@).contains(p) {
                                        let k = choose|k: int| 0 <= k < pair_views(pairs@).len() && pair_views(pairs@)[k] == p;
                                        assert(pv0[k] == p);
                                    }
                                    if pv0.contains(p) {
                                        let k = choose|k: int| 0 <= k < pv0.len() && pv0[k] == p;
                                        assert(pair_views(pairs@)[k] == p);
                                    }
                                } else {
                                    assert(pair_views(pairs@)[pv0.len() as int] == p);
                                }
                            }
                        } else {
                            proof {
                                let ev = pair_views(existing@);
                                let k = choose|k: int| 0 <= k < existing@.len() && #[trigger] existing@[k].0@ == from@ && existing@[k].1@ == to@;
                                assert(ev[k] == pk);
                                assert(ev[k] == (bv + pair_views(pairs@))[k]);
                                let pv = pair_views(pairs@);
                                assert(ev.len() == bv.len() + pv.len());
                                if k < bv.len() {
                                    assert(bv[k] == pk);
                                    assert(bv.contains(pk));
                                } else {
                                    assert((bv + pv)[k] == pv[k - bv.len()]);
                                    assert(pv[k - bv.len()] == pk);
                                    assert(pv.contains(pk));
                                }
                            }
                        }
                    }
                    b = b + 1;
                    assert(want =~= wa.union(Set::new(|p: (Seq<char>, Seq<char>)| p.0 != p.1 && exists|m: int|
                        0 <= m < b && p == #[trigger] id_pair(nodes, preds@[a as int], succs@[m])))) by {
                        assert forall|p: (Seq<char>, Seq<char>)| want.contains(p) == wa.union(Set::new(|p: (Seq<char>, Seq<char>)| p.0 != p.1 && exists|m: int|
                            0 <= m < b && p == #[trigger] id_pair(nodes, preds@[a as int], succs@[m]))).contains(p) by {
                            if p == pk && p.0 != p.1 {
                                assert(id_pair(nodes, preds@[a as int], succs@[b - 1]) == p);
                            }
                            if p.0 != p.1 && exists|m: int| 0 <= m < b && p == #[trigger] id_pair(nodes, preds@[a as int], succs@[m]) {
                                let m = choose|m: int| 0 <= m < b && p == #[trigger] id_pair(nodes, preds@[a as int], succs@[m]);
                                if m < b - 1 {
                                    assert(wb.contains(p));
                                }
                            }
                        }
                    }
                }
                a = a + 1;
                assert(want =~= w0.union(Set::new(|p: (Seq<char>, Seq<char>)| p.0 != p.1 && exists|k: int, m: int|
                    0 <= k < a && 0 <= m < succs@.len() && p == #[trigger] id_pair(nodes, preds@[k], #[trigger] succs@[m])))) by {
                    assert forall|p: (Seq<char>, Seq<char>)| want.contains(p) == w0.union(Set::new(|p: (Seq<char>, Seq<char>)| p.0 != p.1 && exists|k: int, m: int|
                        0 <= k < a && 0 <= m < succs@.len() && p == #[trigger] id_pair(nodes, preds@[k], #[trigger] succs@[m]))).contains(p) by {
                        if p.0 != p.1 && exists|k: int, m: int| 0 <= k < a && 0 <= m < succs@.len() && p == #[trigger] id_pair(nodes, preds@[k], #[trigger] succs@[m]) {
                            let (k, m) = choose|k: int, m: int| 0 <= k < a && 0 <= m < succs@.len() && p == #[trigger] id_pair(nodes, preds@[k], #[trigger] succs@[m]);
                            if k == a - 1 {
                                assert(id_pair(nodes, preds@[a - 1], succs@[m]) == p);
                            } else {
                                assert(wa.contains(p));
                            }
                        }
                        if wa.contains(p) && !w0.contains(p) {
                            let (k, m) = choose|k: int, m: int| 0 <= k < a - 1 && 0 <= m < succs@.len() && p == #[trigger] id_pair(nodes, preds@[k], #[trigger] succs@[m]);
                        }
                    }
                }
            }
            proof {
                assert(want =~= bypass_upto(nodes, edges, kp, rm, (idx + 1) as nat)) by {
                    assert forall|p: (Seq<char>, Seq<char>)| want.contains(p) == bypass_upto(nodes, edges, kp, rm, (idx + 1) as nat).contains(p) by {
                        if want.contains(p) && !w0.contains(p) {
                            let (k, m) = choose|k: int, m: int| 0 <= k < preds@.len() && 0 <= m < succs@.len() && p == #[trigger] id_pair(nodes, preds@[k], #[trigger] succs@[m]);
                            assert(preds@.contains(preds@[k]));
                            assert(succs@.contains(succs@[m]));
                            assert(bypass_via(edges, kp, idx, preds@[k], succs@[m]));
                        }
                        if w0.contains(p) {
                            let (x, u, v) = choose|x: usize, u: usize, v: usize| x < idx && rm.contains(x) && bypass_via(edges, kp, x, u, v) && id_pair(nodes, u, v) == p;
                            assert(bypass_via(edges, kp, x, u, v));
                        }
                        if bypass_upto(nodes, edges, kp, rm, (idx + 1) as nat).contains(p) {
                            let (x, u, v) = choose|x: usize, u: usize, v: usize| x < idx + 1 && rm.contains(x) && bypass_via(edges, kp, x, u, v) && id_pair(nodes, u, v) == p;
                            if x == idx {
                                assert(preds@.contains(u));
                                assert(succs@.contains(v));
                                let k = choose|k: int| 0 <= k < preds@.len() && preds@[k] == u;
                                let m = choose|m: int| 0 <= m < succs@.len() && succs@[m] == v;
                                assert(id_pair(nodes, preds@[k], succs@[m]) == p);
                            } else {
                                assert(bypass_via(edges, kp, x, u, v));
                                assert(w0.contains(p));
                            }
                        }
                    }
                }
            }
        } else {
            proof {
                assert(want =~= bypass_upto(nodes, edges, kp, rm, (idx + 1) as nat)) by {
                    assert forall|p: (Seq<char>, Seq<char>)| bypass_upto(nodes, edges, kp, rm, (idx + 1) as nat).contains(p) implies want.contains(p) by {
                        let (x, u, v) = choose|x: usize, u: usize, v: usize| x < idx + 1 && rm.contains(x) && bypass_via(edges, kp, x, u, v) && id_pair(nodes, u, v) == p;
                        assert(x != idx);
                        assert(bypass_via(edges, kp, x, u, v));
                    }
                    assert forall|p: (Seq<char>, Seq<char>)| want.contains(p) implies bypass_upto(nodes, edges, kp, rm, (idx + 1) as nat).contains(p) by {
                        let (x, u, v) = choose|x: usize, u: usize, v: usize| x < idx && rm.contains(x) && bypass_via(edges, kp, x, u, v) && id_pair(nodes, u, v) == p;
                        assert(bypass_via(edges, kp, x, u, v));
                    }
                }
            }
        }
        idx = idx + 1;
    }
    pairs
}

/// The endpoints of each edge.
pub(crate) fn endpoint_pairs(es: &Vec<Edge>) -> (r: Vec<(String, String)>)
    ensures
        pair_views(r@) == edge_views(es@).map_values(|e: EdgeView| (e.from, e.to)),
{
    let mut r: Vec<(String, String)> = Vec::new();
    let mut q: usize = 0;
    while q < es.len()
        invariant
            q <= es@.len(),
            pair_views(r@) == edge_views(es@).map_values(|e: EdgeView| (e.from, e.to)).take(q as int),
        decreases es@.len() - q,
    {
        let ghost before = r@;
        let f = es[q].from.clone();
        let t = es[q].to.clone();
        r.push((f, t));
        let ghost m = edge_views(es@).map_values(|e: EdgeView| (e.from, e.to));
        assert(edge_views(es@)[q as int] == es@[q as int]@);
        assert(m[q as int] == (es@[q as int].from@, es@[q as int].to@));
        assert(pair_views(r@) =~= pair_views(before).push((f@, t@)));
        assert(m.take(q + 1) =~= m.take(q as int).push(m[q as int]));
        q = q + 1;
    }
    assert(edge_views(es@).map_values(|e: EdgeView| (e.from, e.to)).take(es@.len() as int) =~= edge_views(es@).map_values(|e: EdgeView| (e.from, e.to)));
    r
}

/// Whether `pairs` holds the pair `(a, b)`.
pub fn has_pair(pairs: &Vec<(String, String)>, a: &str, b: &str) -> (r: bool)
    ensures
        r == (exists|k: int| 0 <= k < pairs@.len() && #[trigger] pairs@[k].0@ == a@ && pairs@[k].1@ == b@),
{
    let mut i: usize = 0;
    while i < pairs.len()
        invariant
            i <= pairs@.len(),
            forall|k: int| 0 <= k < i ==> !(#[trigger] pairs@[k].0@ == a@ && pairs@[k].1@ == b@),
        decreases pairs@.len() - i,
    {
        if str_eq(pairs[i].0.as_str(), a) && str_eq(pairs[i].1.as_str(), b) {
            return true;
        }
        i = i + 1;
    }
    false
}

} // verus!
