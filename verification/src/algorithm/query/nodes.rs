//! Options of the node listing query.
use vstd::prelude::*;

use globset::GlobSet;
use std::collections::HashSet;

use super::OutputFields;
use crate::algorithm::{
    compiles, all_parse, build_globset, build_outcome, match_text, pattern_hit, positions, set_hits, strs, MatchKey, PatternError,
};
use crate::flat::{bfs_spec, roots_upto, FlatGraphView};
use crate::glob::{any_matches, globset_patterns, set_is_match};
use crate::graph::{all_nodes_spec, collect_edges, node_views, DepGraph, NodeView};
use crate::maps::{node_entries, node_map_get_index, node_map_len};
use crate::pg::{has_cycle, is_topo_order, index_limit, neighbor_seq, pg_edges, pg_neighbors, pg_node_count, pg_toposort, topo_order};
use crate::text::seq_less;

verus! {

/// Which nodes to start from.
#[derive(Debug, Clone, Copy, PartialEq, Eq, Structural)]
pub enum NodeSelection {
    All,
    Roots,
    Leaves,
}

impl Default for NodeSelection {
    fn default() -> (r: NodeSelection)
        ensures
            r == NodeSelection::All,
    {
        NodeSelection::All
    }
}

/// Sort order of the node listing.
#[derive(Debug, Clone, Copy, PartialEq, Eq, Structural)]
pub enum NodeSort {
    Unsorted,
    Topo,
    InDegree,
    OutDegree,
    Ancestors,
    Descendants,
}

impl Default for NodeSort {
    fn default() -> (r: NodeSort)
        ensures
            r == NodeSort::Unsorted,
    {
        NodeSort::Unsorted
    }
}

/// Options of the node listing.
#[derive(Clone, Debug)]
pub struct NodesArgs {
    pub select: NodeSelection,
    pub included: Vec<String>,
    pub exclude: Vec<String>,
    pub and: bool,
    pub key: MatchKey,
    pub sort: NodeSort,
    pub reverse: bool,
    pub limit: Option<usize>,
    pub format: OutputFields,
    pub deps: bool,
    pub rdeps: bool,
    pub depth: Option<usize>,
}

impl Default for NodesArgs {
    fn default() -> (r: NodesArgs)
        ensures
            r.select == NodeSelection::All,
            r.included@.len() == 0 && r.exclude@.len() == 0,
            !r.and && !r.reverse && !r.deps && !r.rdeps,
            r.key == MatchKey::Label,
            r.sort == NodeSort::Unsorted,
            r.limit is None && r.depth is None,
            r.format == OutputFields::Label,
    {
        NodesArgs {
            select: NodeSelection::All,
            included: Vec::new(),
            exclude: Vec::new(),
            and: false,
            key: MatchKey::Label,
            sort: NodeSort::Unsorted,
            reverse: false,
            limit: None,
            format: OutputFields::Label,
            deps: false,
            rdeps: false,
            depth: None,
        }
    }
}

/// The first `n` positions, in order.
pub open spec fn range_seq(n: nat) -> Seq<usize> {
    Seq::new(n, |i: int| i as usize)
}

/// The nodes among the first `n` with no outgoing edge, in order.
pub open spec fn leaves_upto(edges: Seq<(usize, usize)>, n: nat) -> Seq<usize>
    decreases n,
{
    if n == 0 {
        seq![]
    } else {
        leaves_upto(edges, (n - 1) as nat) + (if neighbor_seq(edges, (n - 1) as usize, true).len() == 0 {
            seq![(n - 1) as usize]
        } else {
            seq![]
        })
    }
}

/// The nodes `nodes` starts from.
pub open spec fn initial_nodes(edges: Seq<(usize, usize)>, n: nat, select: NodeSelection) -> Seq<usize> {
    match select {
        NodeSelection::All => range_seq(n),
        NodeSelection::Roots => roots_upto(edges, n),
        NodeSelection::Leaves => leaves_upto(edges, n),
    }
}

/// Whether node `i` passes the include and exclude patterns.
pub open spec fn node_passes(nodes: Seq<(Seq<char>, NodeView)>, i: usize, args: NodesArgs) -> bool {
    let inc = strs(args.included@);
    let exc = strs(args.exclude@);
    let text = match_text(nodes[i as int].0, nodes[i as int].1, args.key);
    (inc.len() == 0 || pattern_hit(inc, text, args.and)) && (exc.len() == 0 || !any_matches(exc, text))
}

/// The nodes of `s` that pass the patterns, in order.
pub open spec fn passing(nodes: Seq<(Seq<char>, NodeView)>, s: Seq<usize>, args: NodesArgs) -> Seq<usize>
    decreases s.len(),
{
    if s.len() == 0 {
        seq![]
    } else {
        let rest = passing(nodes, s.drop_last(), args);
        if node_passes(nodes, s.last(), args) {
            rest.push(s.last())
        } else {
            rest
        }
    }
}

/// The members of `set` below `n`, in increasing order.
pub open spec fn in_order(set: Set<usize>, n: nat) -> Seq<usize>
    decreases n,
{
    if n == 0 {
        seq![]
    } else {
        in_order(set, (n - 1) as nat) + (if set.contains((n - 1) as usize) {
            seq![(n - 1) as usize]
        } else {
            seq![]
        })
    }
}

/// The selected nodes, with their dependencies and/or ancestors when asked
/// (`depth` alone means dependencies), in position order.
pub open spec fn chosen_nodes(nodes: Seq<(Seq<char>, NodeView)>, edges: Seq<(usize, usize)>, args: NodesArgs) -> Seq<usize> {
    let n = nodes.len();
    let seeds = passing(nodes, initial_nodes(edges, n, args.select), args);
    let deps = args.deps || args.depth is Some;
    if deps || args.rdeps {
        let down = if deps { bfs_spec(edges, n, seeds.to_set(), true, args.depth) } else { Set::empty() };
        let up = if args.rdeps { bfs_spec(edges, n, seeds.to_set(), false, args.depth) } else { Set::empty() };
        in_order(down.union(up).union(seeds.to_set()), n)
    } else {
        seeds
    }
}

/// The count shown with a node for a numeric sort.
pub open spec fn node_count(edges: Seq<(usize, usize)>, n: nat, i: usize, sort: NodeSort) -> nat {
    match sort {
        NodeSort::InDegree => neighbor_seq(edges, i, false).len(),
        NodeSort::OutDegree => neighbor_seq(edges, i, true).len(),
        NodeSort::Ancestors => (bfs_spec(edges, n, set![i], false, None).len() - 1) as nat,
        NodeSort::Descendants => (bfs_spec(edges, n, set![i], true, None).len() - 1) as nat,
        _ => 0,
    }
}

/// Numeric order: larger count first, then smaller id.
pub open spec fn count_before(nodes: Seq<(Seq<char>, NodeView)>, a: (usize, Option<usize>), b: (usize, Option<usize>)) -> bool {
    let (ca, cb) = (a.1->0, b.1->0);
    ca > cb || (ca == cb && seq_less(nodes[a.0 as int].0, nodes[b.0 as int].0))
}

pub open spec fn first_not_before(nodes: Seq<(Seq<char>, NodeView)>, s: Seq<(usize, Option<usize>)>, x: (usize, Option<usize>), from: int) -> int
    decreases s.len() - from,
{
    if from >= s.len() {
        s.len() as int
    } else if count_before(nodes, x, s[from]) {
        from
    } else {
        first_not_before(nodes, s, x, from + 1)
    }
}

/// The stable sort of `s` by count, then id (insertion sort).
pub open spec fn sort_counted(nodes: Seq<(Seq<char>, NodeView)>, s: Seq<(usize, Option<usize>)>) -> Seq<(usize, Option<usize>)>
    decreases s.len(),
{
    if s.len() == 0 {
        seq![]
    } else {
        let sorted = sort_counted(nodes, s.drop_last());
        sorted.insert(first_not_before(nodes, sorted, s.last(), 0), s.last())
    }
}

/// The members of `order` that are in `set`, in order.
pub open spec fn order_within(order: Seq<usize>, set: Set<usize>) -> Seq<usize>
    decreases order.len(),
{
    if order.len() == 0 {
        seq![]
    } else {
        let rest = order_within(order.drop_last(), set);
        if set.contains(order.last()) {
            rest.push(order.last())
        } else {
            rest
        }
    }
}

/// The chosen nodes in the asked order, each with its count for a numeric sort.
pub open spec fn sorted_nodes(nodes: Seq<(Seq<char>, NodeView)>, edges: Seq<(usize, usize)>, s: Seq<usize>, args: NodesArgs) -> Seq<(usize, Option<usize>)> {
    let plain = s.map_values(|i: usize| (i, None::<usize>));
    let sorted = match args.sort {
        NodeSort::Unsorted => plain,
        NodeSort::Topo => match topo_order(nodes.len(), edges) {
            Some(order) => order_within(order, s.to_set()).map_values(|i: usize| (i, None::<usize>)),
            None => plain,
        },
        _ => sort_counted(nodes, s.map_values(|i: usize| (i, Some(node_count(edges, nodes.len(), i, args.sort) as usize)))),
    };
    if args.reverse { sorted.reverse() } else { sorted }
}

/// What `nodes` lists: (id, label, count) rows, cut to `limit`.
pub open spec fn node_rows(g: crate::graph::GraphView, args: NodesArgs) -> Seq<(Seq<char>, Seq<char>, Option<usize>)> {
    let nodes = all_nodes_spec(g);
    let edges = crate::flat::flat_edges(nodes, collect_edges(g));
    let sorted = sorted_nodes(nodes, edges, chosen_nodes(nodes, edges, args), args);
    let cut = match args.limit {
        Some(l) => if l < sorted.len() { sorted.take(l as int) } else { sorted },
        None => sorted,
    };
    cut.map_values(|p: (usize, Option<usize>)| (nodes[p.0 as int].0, nodes[p.0 as int].1.label, p.1))
}

} // verus!

verus! {

fn leaves(view: &FlatGraphView) -> (r: Vec<usize>)
    requires
        view.wf(),
    ensures
        r@ == leaves_upto(view.edges(), view.nodes().len()),
{
    let n = crate::pg::pg_count(&view.pg);
    let mut r: Vec<usize> = Vec::new();
    let mut i: usize = 0;
    while i < n
        invariant
            view.wf(),
            i <= n == view.nodes().len(),
            r@ == leaves_upto(view.edges(), i as nat),
        decreases n - i,
    {
        let nb = pg_neighbors(&view.pg, i, true);
        if nb.len() == 0 {
            r.push(i);
        }
        i = i + 1;
    }
    r
}

proof fn lemma_leaves_within(edges: Seq<(usize, usize)>, n: nat)
    ensures
        forall|k: int| 0 <= k < leaves_upto(edges, n).len() ==> leaves_upto(edges, n)[k] < n,
    decreases n,
{
    if n > 0 {
        let prev = leaves_upto(edges, (n - 1) as nat);
        lemma_leaves_within(edges, (n - 1) as nat);
        assert forall|k: int| 0 <= k < leaves_upto(edges, n).len() implies leaves_upto(edges, n)[k] < n by {
            if k < prev.len() {
                assert(leaves_upto(edges, n)[k] == prev[k]);
            }
        }
    }
}

proof fn lemma_roots_below(edges: Seq<(usize, usize)>, n: nat)
    ensures
        forall|k: int| 0 <= k < roots_upto(edges, n).len() ==> roots_upto(edges, n)[k] < n,
    decreases n,
{
    if n > 0 {
        let prev = roots_upto(edges, (n - 1) as nat);
        lemma_roots_below(edges, (n - 1) as nat);
        assert forall|k: int| 0 <= k < roots_upto(edges, n).len() implies roots_upto(edges, n)[k] < n by {
            if k < prev.len() {
                assert(roots_upto(edges, n)[k] == prev[k]);
            }
        }
    }
}

proof fn lemma_passing_within(nodes: Seq<(Seq<char>, NodeView)>, s: Seq<usize>, args: NodesArgs, n: nat)
    requires
        forall|k: int| 0 <= k < s.len() ==> s[k] < n,
    ensures
        forall|k: int| 0 <= k < passing(nodes, s, args).len() ==> passing(nodes, s, args)[k] < n,
    decreases s.len(),
{
    if s.len() > 0 {
        let p = passing(nodes, s.drop_last(), args);
        lemma_passing_within(nodes, s.drop_last(), args, n);
        assert forall|k: int| 0 <= k < passing(nodes, s, args).len() implies passing(nodes, s, args)[k] < n by {
            if k < p.len() {
                assert(passing(nodes, s, args)[k] == p[k]);
            } else {
                assert(s[s.len() - 1] < n);
            }
        }
    }
}

fn count_sort(view: &FlatGraphView, v: Vec<(usize, Option<usize>)>) -> (r: Vec<(usize, Option<usize>)>)
    requires
        view.wf(),
        forall|k: int| 0 <= k < v@.len() ==> (#[trigger] v@[k]).0 < view.nodes().len() && v@[k].1 is Some,
    ensures
        r@ == sort_counted(view.nodes(), v@),
        forall|k: int| 0 <= k < r@.len() ==> (#[trigger] r@[k]).0 < view.nodes().len(),
{
    let ghost nodes = view.nodes();
    proof {
        crate::algorithm::diamonds::lemma_ids_by_position_pub(view);
    }
    let mut out: Vec<(usize, Option<usize>)> = Vec::new();
    let mut i: usize = 0;
    assert(v@.take(0) =~= Seq::<(usize, Option<usize>)>::empty());
    while i < v.len()
        invariant
            view.wf(),
            nodes == view.nodes(),
            view.idx_to_id@.len() == nodes.len(),
            forall|q: int| 0 <= q < nodes.len() ==> #[trigger] view.idx_to_id@[q]@ == nodes[q].0,
            forall|k: int| 0 <= k < v@.len() ==> (#[trigger] v@[k]).0 < nodes.len() && v@[k].1 is Some,
            i <= v@.len(),
            out@ == sort_counted(nodes, v@.take(i as int)),
            forall|k: int| 0 <= k < out@.len() ==> (#[trigger] out@[k]).0 < nodes.len() && out@[k].1 is Some,
        decreases v@.len() - i,
    {
        let x = v[i];
        let ghost sv = out@;
        let mut pos: usize = 0;
        while pos < out.len()
            invariant_except_break
                view.wf(),
                nodes == view.nodes(),
                view.idx_to_id@.len() == nodes.len(),
                forall|q: int| 0 <= q < nodes.len() ==> #[trigger] view.idx_to_id@[q]@ == nodes[q].0,
                x.0 < nodes.len() && x.1 is Some,
                forall|k: int| 0 <= k < out@.len() ==> (#[trigger] out@[k]).0 < nodes.len() && out@[k].1 is Some,
                pos <= out@.len(),
                sv == out@,
                first_not_before(nodes, sv, x, 0) == first_not_before(nodes, sv, x, pos as int),
            ensures
                pos <= out@.len(),
                sv == out@,
                first_not_before(nodes, sv, x, 0) == pos,
            decreases out@.len() - pos,
        {
            let y = out[pos];
            let xc = match x.1 { Some(c) => c, None => 0 };
            let yc = match y.1 { Some(c) => c, None => 0 };
            let before = xc > yc || (xc == yc && crate::text::str_less(view.idx_to_id[x.0].as_str(), view.idx_to_id[y.0].as_str()));
            assert(before == count_before(nodes, x, y));
            if before {
                break;
            }
            pos = pos + 1;
        }
        out.insert(pos, x);
        assert(v@.take(i + 1).drop_last() =~= v@.take(i as int));
        assert(v@.take(i + 1).last() == x);
        assert forall|k: int| 0 <= k < out@.len() implies (#[trigger] out@[k]).0 < nodes.len() && out@[k].1 is Some by {
            if k < pos {
                assert(out@[k] == sv[k]);
            } else if k > pos {
                assert(out@[k] == sv[k - 1]);
            }
        }
        i = i + 1;
    }
    assert(v@.take(v@.len() as int) =~= v@);
    out
}

/// The nodes of the graph (all levels) as (id, label, count) rows.
///
/// Start from every node, the roots or the leaves; keep those an include
/// pattern selects (all patterns with `and`) and no exclude pattern matches;
/// add their dependencies and/or ancestors when asked (then in position
/// order); sort topologically (when the graph has no cycle) or by a count
/// (in-degree, out-degree, ancestors, descendants: larger first, ties by
/// id), which is then shown; reverse and cut to `limit` when asked.
pub fn nodes(graph: &DepGraph, args: &NodesArgs) -> (r: Result<Vec<(String, String, Option<usize>)>, PatternError>)
    requires
        all_nodes_spec(graph@).len() < index_limit(),
        collect_edges(graph@).len() < index_limit(),
    ensures
        match r {
            Err(e) => build_outcome(strs(args.included@), Err(e)) || (compiles(strs(args.included@))
                && build_outcome(strs(args.exclude@), Err(e))),
            Ok(rows) => all_parse(strs(args.included@)) && all_parse(strs(args.exclude@))
                && rows@.map_values(|t: (String, String, Option<usize>)| (t.0@, t.1@, t.2)) == node_rows(graph@, *args),
        },
        !(all_parse(strs(args.included@)) && all_parse(strs(args.exclude@))) ==> r is Err,
        compiles(strs(args.included@)) && compiles(strs(args.exclude@)) ==> r is Ok,
{
    broadcast use vstd::std_specs::hash::group_hash_axioms;
    let include_set: Option<GlobSet> = if args.included.len() > 0 {
        match build_globset(&args.included) {
            Ok(s) => Some(s),
            Err(e) => return Err(e),
        }
    } else {
        None
    };
    let exclude_set: Option<GlobSet> = if args.exclude.len() > 0 {
        match build_globset(&args.exclude) {
            Ok(s) => Some(s),
            Err(e) => return Err(e),
        }
    } else {
        None
    };
    assert(args.included@.len() == 0 ==> strs(args.included@) =~= Seq::<Seq<char>>::empty());
    assert(args.exclude@.len() == 0 ==> strs(args.exclude@) =~= Seq::<Seq<char>>::empty());
    let view = FlatGraphView::new(graph);
    let all_nodes = graph.all_nodes();
    let ghost nodes = view.nodes();
    let ghost edges = view.edges();
    let n = node_map_len(&all_nodes);
    proof {
        lemma_roots_below(edges, n as nat);
        lemma_leaves_within(edges, n as nat);
    }
    let chosen = choose_nodes(&view, &all_nodes, args, &include_set, &exclude_set);
    let mut sorted = sort_chosen(&view, &chosen, args);
    let ghost full = sorted@;
    match args.limit {
        Some(l) => {
            if l < sorted.len() {
                sorted.truncate(l);
            }
        },
        None => {},
    }
    let ghost cut = sorted@;
    assert forall|q: int| 0 <= q < cut.len() implies cut[q].0 < n by {
        assert(cut[q] == full[q]);
    }
    proof {
        crate::algorithm::diamonds::lemma_ids_by_position_pub(&view);
    }
    let mut rows: Vec<(String, String, Option<usize>)> = Vec::new();
    let mut k: usize = 0;
    while k < sorted.len()
        invariant
            view.wf(),
            nodes == view.nodes(),
            n == nodes.len(),
            crate::graph::node_views(node_entries(all_nodes)) == nodes,
            view.idx_to_id@.len() == n,
            forall|q: int| 0 <= q < n ==> #[trigger] view.idx_to_id@[q]@ == nodes[q].0,
            cut == sorted@,
            forall|q: int| 0 <= q < cut.len() ==> cut[q].0 < n,
            k <= sorted@.len(),
            rows@.map_values(|t: (String, String, Option<usize>)| (t.0@, t.1@, t.2)) == cut.take(k as int).map_values(
                |p: (usize, Option<usize>)| (nodes[p.0 as int].0, nodes[p.0 as int].1.label, p.1)),
        decreases sorted@.len() - k,
    {
        let (x, c) = sorted[k];
        let (_, info) = node_map_get_index(&all_nodes, x).unwrap();
        let ghost before = rows@;
        rows.push((view.idx_to_id[x].clone(), info.label.clone(), c));
        assert(cut.take(k + 1) =~= cut.take(k as int).push(cut[k as int]));
        assert(rows@.map_values(|t: (String, String, Option<usize>)| (t.0@, t.1@, t.2)) =~= before.map_values(
            |t: (String, String, Option<usize>)| (t.0@, t.1@, t.2)).push((nodes[x as int].0, nodes[x as int].1.label, c)));
        k = k + 1;
    }
    assert(cut.take(cut.len() as int) =~= cut);
    Ok(rows)
}


fn choose_nodes(
    view: &FlatGraphView,
    all_nodes: &indexmap::IndexMap<String, crate::graph::NodeInfo>,
    args: &NodesArgs,
    include_set: &Option<GlobSet>,
    exclude_set: &Option<GlobSet>,
) -> (chosen: Vec<usize>)
    requires
        view.wf(),
        crate::graph::node_views(node_entries(*all_nodes)) == view.nodes(),
        *include_set is None <==> args.included@.len() == 0,
        *include_set matches Some(s) ==> globset_patterns(s) == strs(args.included@),
        *exclude_set is None <==> args.exclude@.len() == 0,
        *exclude_set matches Some(s) ==> globset_patterns(s) == strs(args.exclude@),
        args.included@.len() == 0 ==> strs(args.included@) == Seq::<Seq<char>>::empty(),
        args.exclude@.len() == 0 ==> strs(args.exclude@) == Seq::<Seq<char>>::empty(),
    ensures
        chosen@ == chosen_nodes(view.nodes(), view.edges(), *args),
        forall|k: int| 0 <= k < chosen@.len() ==> chosen@[k] < view.nodes().len(),
{
    broadcast use vstd::std_specs::hash::group_hash_axioms;
    let ghost nodes = view.nodes();
    let ghost edges = view.edges();
    let n = node_map_len(all_nodes);
    proof {
        lemma_roots_below(edges, n as nat);
        lemma_leaves_within(edges, n as nat);
    }
    let initial = match args.select {
        NodeSelection::All => {
            let mut r: Vec<usize> = Vec::new();
            let mut i: usize = 0;
            while i < n
                invariant
                    i <= n,
                    r@ == range_seq(i as nat),
                decreases n - i,
            {
                r.push(i);
                i = i + 1;
                assert(r@ =~= range_seq(i as nat));
            }
            r
        },
        NodeSelection::Roots => view.roots(),
        NodeSelection::Leaves => leaves(&view),
    };
    assert(initial@ == initial_nodes(edges, n as nat, args.select));
    assert forall|k: int| 0 <= k < initial@.len() implies initial@[k] < n by {}
    let mut seeds: Vec<usize> = Vec::new();
    let mut i: usize = 0;
    assert(initial@.take(0) =~= Seq::<usize>::empty());
    while i < initial.len()
        invariant
            view.wf(),
            nodes == view.nodes(),
            n == nodes.len(),
            crate::graph::node_views(node_entries(*all_nodes)) == nodes,
            i <= initial@.len(),
            forall|k: int| 0 <= k < initial@.len() ==> initial@[k] < n,
            *include_set is None <==> args.included@.len() == 0,
            *include_set matches Some(s) ==> globset_patterns(s) == strs(args.included@),
            *exclude_set is None <==> args.exclude@.len() == 0,
            *exclude_set matches Some(s) ==> globset_patterns(s) == strs(args.exclude@),
            seeds@ == passing(nodes, initial@.take(i as int), *args),
        decreases initial@.len() - i,
    {
        let x = initial[i];
        let (id, info) = node_map_get_index(all_nodes, x).unwrap();
        let text = match args.key {
            MatchKey::Id => id.as_str(),
            MatchKey::Label => info.label.as_str(),
        };
        assert(text@ == match_text(nodes[x as int].0, nodes[x as int].1, args.key));
        let inc_ok = match include_set {
            Some(s) => set_hits(s, args.included.len(), text, args.and),
            None => true,
        };
        let exc_ok = match exclude_set {
            Some(s) => !set_is_match(s, text),
            None => true,
        };
        assert((inc_ok && exc_ok) == node_passes(nodes, x, *args));
        assert(initial@.take(i + 1).drop_last() =~= initial@.take(i as int));
        if inc_ok && exc_ok {
            seeds.push(x);
        }
        i = i + 1;
    }
    assert(initial@.take(initial@.len() as int) =~= initial@);
    proof {
        lemma_passing_within(nodes, initial@, *args, n as nat);
    }
    let deps = args.deps || args.depth.is_some();
    let chosen: Vec<usize> = if deps || args.rdeps {
        let empty1: HashSet<usize> = HashSet::new();
        let empty2: HashSet<usize> = HashSet::new();
        let down = if deps { view.bfs(&seeds, true, args.depth) } else { empty1 };
        let up = if args.rdeps { view.bfs(&seeds, false, args.depth) } else { empty2 };
        let ghost all = down@.union(up@).union(seeds@.to_set());
        let mut r: Vec<usize> = Vec::new();
        let mut v: usize = 0;
        while v < n
            invariant
                v <= n,
                all == down@.union(up@).union(seeds@.to_set()),
                r@ == in_order(all, v as nat),
            decreases n - v,
        {
            if down.contains(&v) || up.contains(&v) || crate::algorithm::diamonds::vec_has(&seeds, v) {
                r.push(v);
            }
            v = v + 1;
        }
        r
    } else {
        seeds
    };
    assert(chosen@ == chosen_nodes(nodes, edges, *args));
    proof {
        assert forall|k: int| 0 <= k < chosen@.len() implies chosen@[k] < n by {
            if deps || args.rdeps {
                lemma_in_order_below(down_up_seeds(nodes, edges, *args), n as nat);
            } else {
                lemma_passing_within(nodes, initial@, *args, n as nat);
            }
        }
    }
    chosen
}

fn sort_chosen(view: &FlatGraphView, chosen: &Vec<usize>, args: &NodesArgs) -> (sorted: Vec<(usize, Option<usize>)>)
    requires
        view.wf(),
        forall|k: int| 0 <= k < chosen@.len() ==> chosen@[k] < view.nodes().len(),
    ensures
        sorted@ == sorted_nodes(view.nodes(), view.edges(), chosen@, *args),
        forall|q: int| 0 <= q < sorted@.len() ==> (#[trigger] sorted@[q]).0 < view.nodes().len(),
        args.sort == NodeSort::Topo && !args.reverse && !has_cycle(view.nodes().len(), view.edges()) ==> exists|order: Seq<usize>|
            is_topo_order(order, view.nodes().len(), view.edges()) && #[trigger] topo_order(view.nodes().len(), view.edges())
                == Some(order) && sorted@ == order_within(order, chosen@.to_set()).map_values(|i: usize| (i, None::<usize>)),
{
    let ghost nodes = view.nodes();
    let ghost edges = view.edges();
    let n = crate::pg::pg_count(&view.pg);
    let ghost plain = chosen@.map_values(|i: usize| (i, None::<usize>));
    let ghost mut topo_w: Seq<usize> = Seq::empty();
    let mut sorted: Vec<(usize, Option<usize>)> = match args.sort {
        NodeSort::Unsorted => plain_rows(chosen),
        NodeSort::Topo => match pg_toposort(&view.pg) {
            Some(order) => {
                proof {
                    topo_w = order@;
                }
                let mut r: Vec<(usize, Option<usize>)> = Vec::new();
                let mut k: usize = 0;
                assert(order@.take(0) =~= Seq::<usize>::empty());
                while k < order.len()
                    invariant
                        k <= order@.len(),
                        r@ == order_within(order@.take(k as int), chosen@.to_set()).map_values(|i: usize| (i, None::<usize>)),
                        forall|k: int| 0 <= k < chosen@.len() ==> chosen@[k] < n,
                        forall|q: int| 0 <= q < r@.len() ==> (#[trigger] r@[q]).0 < n,
                    decreases order@.len() - k,
                {
                    let x = order[k];
                    assert(order@.take(k + 1).drop_last() =~= order@.take(k as int));
                    let ghost before = r@;
                    if crate::algorithm::diamonds::vec_has(chosen, x) {
                        proof {
                            let w = choose|w: int| 0 <= w < chosen@.len() && chosen@[w] == x;
                        }
                        r.push((x, None));
                        assert(r@ =~= before.push((x, None::<usize>)));
                    }
                    k = k + 1;
                }
                assert(order@.take(order@.len() as int) =~= order@);
                r
            },
            None => plain_rows(chosen),
        },
        _ => {
            let mut v: Vec<(usize, Option<usize>)> = Vec::new();
            let mut k: usize = 0;
            while k < chosen.len()
                invariant
                    view.wf(),
                    nodes == view.nodes(),
                    edges == view.edges(),
                    n == nodes.len(),
                    args.sort != NodeSort::Unsorted && args.sort != NodeSort::Topo,
                    k <= chosen@.len(),
                    forall|q: int| 0 <= q < chosen@.len() ==> chosen@[q] < n,
                    v@ == chosen@.take(k as int).map_values(|i: usize| (i, Some(node_count(edges, nodes.len(), i, args.sort) as usize))),
                decreases chosen@.len() - k,
            {
                let x = chosen[k];
                let c = node_count_of(&view, x, args.sort);
                let ghost before = v@;
                v.push((x, Some(c)));
                assert(chosen@.take(k + 1) =~= chosen@.take(k as int).push(x));
                assert(v@ =~= before.push((x, Some(c))));
                k = k + 1;
            }
            assert(chosen@.take(chosen@.len() as int) =~= chosen@);
            count_sort(&view, v)
        },
    };
    assert(args.sort == NodeSort::Topo && !has_cycle(nodes.len(), edges) ==> is_topo_order(topo_w, nodes.len(), edges)
        && topo_order(nodes.len(), edges) == Some(topo_w));
    assert forall|q: int| 0 <= q < sorted@.len() implies (#[trigger] sorted@[q]).0 < n by {
        if args.sort == NodeSort::Unsorted || (args.sort == NodeSort::Topo && topo_order(nodes.len(), edges) is None) {
            assert(sorted@[q] == plain[q]);
        }
    }
    if args.reverse {
        let ghost pre = sorted@;
        sorted = crate::algorithm::reversed(sorted);
        assert forall|q: int| 0 <= q < sorted@.len() implies (#[trigger] sorted@[q]).0 < n by {
            assert(sorted@[q] == pre[pre.len() - 1 - q]);
        }
    }
    assert(sorted@ == sorted_nodes(nodes, edges, chosen@, *args));
    sorted
}

/// The nodes of `s` with no count.
fn plain_rows(s: &Vec<usize>) -> (r: Vec<(usize, Option<usize>)>)
    ensures
        r@ == s@.map_values(|i: usize| (i, None::<usize>)),
{
    let mut r: Vec<(usize, Option<usize>)> = Vec::new();
    let mut k: usize = 0;
    while k < s.len()
        invariant
            k <= s@.len(),
            r@ == s@.take(k as int).map_values(|i: usize| (i, None::<usize>)),
        decreases s@.len() - k,
    {
        r.push((s[k], None));
        assert(s@.take(k + 1) =~= s@.take(k as int).push(s@[k as int]));
        k = k + 1;
        assert(r@ =~= s@.take(k as int).map_values(|i: usize| (i, None::<usize>)));
    }
    assert(s@.take(s@.len() as int) =~= s@);
    r
}

/// The set whose members `chosen_nodes` lists when traversing.
pub open spec fn down_up_seeds(nodes: Seq<(Seq<char>, NodeView)>, edges: Seq<(usize, usize)>, args: NodesArgs) -> Set<usize> {
    let n = nodes.len();
    let seeds = passing(nodes, initial_nodes(edges, n, args.select), args);
    let deps = args.deps || args.depth is Some;
    let down = if deps { bfs_spec(edges, n, seeds.to_set(), true, args.depth) } else { Set::empty() };
    let up = if args.rdeps { bfs_spec(edges, n, seeds.to_set(), false, args.depth) } else { Set::empty() };
    down.union(up).union(seeds.to_set())
}

proof fn lemma_in_order_below(set: Set<usize>, n: nat)
    ensures
        forall|k: int| 0 <= k < in_order(set, n).len() ==> in_order(set, n)[k] < n,
    decreases n,
{
    if n > 0 {
        let prev = in_order(set, (n - 1) as nat);
        lemma_in_order_below(set, (n - 1) as nat);
        assert forall|k: int| 0 <= k < in_order(set, n).len() implies in_order(set, n)[k] < n by {
            if k < prev.len() {
                assert(in_order(set, n)[k] == prev[k]);
            }
        }
    }
}

/// The count of node `x` for a numeric sort.
fn node_count_of(view: &FlatGraphView, x: usize, sort: NodeSort) -> (c: usize)
    requires
        view.wf(),
        x < view.nodes().len(),
        sort != NodeSort::Unsorted && sort != NodeSort::Topo,
    ensures
        c as nat == node_count(view.edges(), view.nodes().len(), x, sort),
{
    broadcast use vstd::std_specs::hash::group_hash_axioms;
    match sort {
        NodeSort::InDegree => pg_neighbors(&view.pg, x, false).len(),
        NodeSort::OutDegree => pg_neighbors(&view.pg, x, true).len(),
        _ => {
            let outgoing = sort == NodeSort::Descendants;
            let seed = vec![x];
            assert(seed@.to_set() =~= set![x]);
            let reached = view.bfs(&seed, outgoing, None);
            proof {
                let n = view.nodes().len();
                let s = reached@;
                crate::algorithm::select::lemma_positions_len(n);
                assert forall|y: usize| #[trigger] set![x].contains(y) implies y < n by {}
                crate::flat::lemma_reach_within(view.edges(), n, set![x], outgoing, n);
                assert(s.subset_of(positions(n)));
                vstd::set_lib::lemma_len_subset(s, positions(n));
                crate::flat::lemma_seeds_reached(view.edges(), set![x], outgoing, n);
                assert(s.contains(x));
                vstd::set::axiom_set_contains_len(s, x);
            }
            reached.len() - 1
        },
    }
}

} // verus!

verus! {

/// Whether following any edge (forward when `outgoing`, backward otherwise)
/// from a node of `s` stays in `s`.
pub open spec fn closed_under(edges: Seq<(usize, usize)>, s: Set<usize>, outgoing: bool) -> bool {
    forall|u: usize, v: usize| s.contains(u) && #[trigger] crate::pg::linked(edges, u, v, outgoing) ==> s.contains(v)
}

/// Any set holding the seeds and closed under the edges holds everything
/// reached from them.
pub(crate) proof fn lemma_reach_in_closed(edges: Seq<(usize, usize)>, seeds: Set<usize>, outgoing: bool, k: nat, s: Set<usize>)
    requires
        seeds.subset_of(s),
        closed_under(edges, s, outgoing),
    ensures
        crate::flat::reach(edges, seeds, outgoing, k).subset_of(s),
    decreases k,
{
    if k > 0 {
        lemma_reach_in_closed(edges, seeds, outgoing, (k - 1) as nat, s);
        let r = crate::flat::reach(edges, seeds, outgoing, (k - 1) as nat);
        assert forall|v: usize| crate::flat::reach(edges, seeds, outgoing, k).contains(v) implies s.contains(v) by {
            if !r.contains(v) {
                let u = choose|u: usize| r.contains(u) && #[trigger] crate::pg::linked(edges, u, v, outgoing);
                assert(s.contains(u));
            }
        }
    }
}

/// While no step of the search is a fixed point, each step adds a node.
proof fn lemma_reach_grows(edges: Seq<(usize, usize)>, n: nat, x: usize, outgoing: bool, k: nat)
    requires
        n <= usize::MAX,
        x < n,
        crate::flat::edges_within(edges, n),
        forall|j: nat| j < k ==> #[trigger] crate::flat::step(edges, crate::flat::reach(edges, set![x], outgoing, j), outgoing)
            != crate::flat::reach(edges, set![x], outgoing, j),
    ensures
        crate::flat::reach(edges, set![x], outgoing, k).finite(),
        crate::flat::reach(edges, set![x], outgoing, k).len() >= k + 1,
    decreases k,
{
    let r = crate::flat::reach(edges, set![x], outgoing, k);
    crate::algorithm::select::lemma_positions_len(n);
    assert forall|y: usize| #[trigger] set![x].contains(y) implies y < n by {}
    crate::flat::lemma_reach_within(edges, n, set![x], outgoing, k);
    assert(r.subset_of(crate::algorithm::positions(n)));
    vstd::set_lib::lemma_len_subset(r, crate::algorithm::positions(n));
    if k == 0 {
        assert(r =~= set![x]);
    } else {
        let j = (k - 1) as nat;
        lemma_reach_grows(edges, n, x, outgoing, j);
        let p = crate::flat::reach(edges, set![x], outgoing, j);
        assert(crate::flat::step(edges, p, outgoing) != p);
        assert(p.subset_of(r));
        let e = choose|e: usize| r.contains(e) && !p.contains(e);
        assert(r.contains(e) && !p.contains(e)) by {
            if !(exists|e: usize| r.contains(e) && !p.contains(e)) {
                assert(r =~= p);
            }
        }
        assert(p.insert(e).subset_of(r));
        vstd::set_lib::lemma_len_subset(p.insert(e), r);
    }
}

/// The search from `x` through `n` steps is closed under the edges.
pub(crate) proof fn lemma_reach_closed(edges: Seq<(usize, usize)>, n: nat, x: usize, outgoing: bool)
    requires
        n <= usize::MAX,
        x < n,
        crate::flat::edges_within(edges, n),
    ensures
        closed_under(edges, crate::flat::reach(edges, set![x], outgoing, n), outgoing),
{
    let rn = crate::flat::reach(edges, set![x], outgoing, n);
    if exists|j: nat| j < n && #[trigger] crate::flat::step(edges, crate::flat::reach(edges, set![x], outgoing, j), outgoing)
        == crate::flat::reach(edges, set![x], outgoing, j) {
        let j = choose|j: nat| j < n && #[trigger] crate::flat::step(edges, crate::flat::reach(edges, set![x], outgoing, j), outgoing)
            == crate::flat::reach(edges, set![x], outgoing, j);
        crate::flat::lemma_reach_fixed(edges, set![x], outgoing, j, n);
    } else {
        lemma_reach_grows(edges, n, x, outgoing, n);
        crate::algorithm::select::lemma_positions_len(n);
        assert forall|y: usize| #[trigger] set![x].contains(y) implies y < n by {}
        crate::flat::lemma_reach_within(edges, n, set![x], outgoing, n);
        vstd::set_lib::lemma_len_subset(rn, crate::algorithm::positions(n));
    }
    let st = crate::flat::step(edges, rn, outgoing);
    assert forall|u: usize, v: usize| rn.contains(u) && #[trigger] crate::pg::linked(edges, u, v, outgoing) implies rn.contains(v) by {
        assert(st.contains(v));
    }
}

/// The count shown with node `x` when sorting by descendants (by ancestors
/// when `outgoing` is false) is the number of nodes other than `x` in the
/// smallest set that holds `x` and is closed under following edges forward
/// (backward): every node reachable from `x` by one or more edges, and no
/// other, with `x` itself counted only as the start.
pub proof fn lemma_reach_count(edges: Seq<(usize, usize)>, n: nat, x: usize, outgoing: bool)
    requires
        n <= usize::MAX,
        x < n,
        crate::flat::edges_within(edges, n),
    ensures
        exists|r: Set<usize>|
            {
                &&& r.finite()
                &&& r.contains(x)
                &&& closed_under(edges, r, outgoing)
                &&& forall|s: Set<usize>| s.contains(x) && closed_under(edges, s, outgoing) ==> #[trigger] r.subset_of(s)
                &&& node_count(edges, n, x, if outgoing { NodeSort::Descendants } else { NodeSort::Ancestors }) + 1 == r.len()
            },
{
    let r = crate::flat::reach(edges, set![x], outgoing, n);
    lemma_reach_closed(edges, n, x, outgoing);
    crate::algorithm::select::lemma_positions_len(n);
    assert forall|y: usize| #[trigger] set![x].contains(y) implies y < n by {}
    crate::flat::lemma_reach_within(edges, n, set![x], outgoing, n);
    vstd::set_lib::lemma_len_subset(r, crate::algorithm::positions(n));
    crate::flat::lemma_seeds_reached(edges, set![x], outgoing, n);
    assert(r.contains(x));
    vstd::set::axiom_set_contains_len(r, x);
    assert forall|s: Set<usize>| s.contains(x) && closed_under(edges, s, outgoing) implies #[trigger] r.subset_of(s) by {
        lemma_reach_in_closed(edges, set![x], outgoing, n, s);
    }
}

} // verus!
