//! Depth-first traversal of a [`DepGraph`] as a tree, shared by the tree and
//! pathlist emitters.
use indexmap::IndexMap;
use vstd::prelude::*;

use crate::algorithm::sub::contains_str;
use crate::graph::{
    adjacency, all_nodes_spec, collect_edges, node_views, DepGraph, EdgeView, NodeInfo, NodeView,
};
use crate::maps::{
    adj_entries, adj_map_get_index, adj_map_get_index_of, find_key, has_key, idx_entries,
    idx_map_get, idx_map_insert, idx_map_new, insert_entry, keys_of, lemma_find_key,
    lemma_find_key_same_keys, lemma_insert_entry, node_entries, node_map_get, node_map_get_index,
    node_map_len, str_views, value_of,
};

verus! {

/// How a node is reached during the walk.
#[derive(Clone, Copy, Debug, PartialEq, Eq, Structural)]
pub enum VisitStatus {
    /// First visit: the walk goes on into the node's children.
    First,
    /// Already fully expanded from another path (the `(*)` marker).
    AlreadyExpanded,
    /// An ancestor on the current path, reached by a back edge (the `(cycle)` marker).
    Cycle,
}

/// One step of the walk.
#[derive(Debug)]
pub struct VisitContext {
    /// Node id.
    pub node_id: String,
    /// Node metadata (a node that is only an edge endpoint gets an empty label).
    pub info: NodeInfo,
    /// Depth in the traversal tree (0 for roots).
    pub depth: usize,
    /// Whether this is the last sibling at its depth.
    pub is_last: bool,
    /// Number of children in the adjacency list, whatever their status.
    pub child_count: usize,
    /// How the node was reached.
    pub status: VisitStatus,
}

/// The mathematical content of a [`VisitContext`].
pub struct VisitV {
    pub node_id: Seq<char>,
    pub info: NodeView,
    pub depth: nat,
    pub is_last: bool,
    pub child_count: nat,
    pub status: VisitStatus,
}

impl View for VisitContext {
    type V = VisitV;

    open spec fn view(&self) -> VisitV {
        VisitV {
            node_id: self.node_id@,
            info: self.info@,
            depth: self.depth as nat,
            is_last: self.is_last,
            child_count: self.child_count as nat,
            status: self.status,
        }
    }
}

pub open spec fn visit_views(s: Seq<VisitContext>) -> Seq<VisitV> {
    s.map_values(|v: VisitContext| v@)
}

/// The node data of `id`, or an empty one for an id that is only an edge endpoint.
pub open spec fn info_of(nodes: Seq<(Seq<char>, NodeView)>, id: Seq<char>) -> NodeView {
    match value_of(nodes, id) {
        Some(v) => v,
        None => NodeView { label: seq![], node_type: None, attrs: seq![] },
    }
}

/// The children of `id` in the adjacency lists.
pub open spec fn kids_of(adj: Seq<(Seq<char>, Seq<Seq<char>>)>, id: Seq<char>) -> Seq<Seq<char>> {
    match value_of(adj, id) {
        Some(c) => c,
        None => seq![],
    }
}

pub open spec fn visit_at(
    nodes: Seq<(Seq<char>, NodeView)>,
    adj: Seq<(Seq<char>, Seq<Seq<char>>)>,
    id: Seq<char>,
    depth: nat,
    is_last: bool,
    status: VisitStatus,
) -> VisitV {
    VisitV {
        node_id: id,
        info: info_of(nodes, id),
        depth,
        is_last,
        child_count: kids_of(adj, id).len(),
        status,
    }
}

/// The visits of the walk from `id`, given the ids already expanded and the
/// ids on the current path, with the expanded ids after it. `budget` bounds
/// how many more ids can join the path.
pub open spec fn dfs_visits(
    nodes: Seq<(Seq<char>, NodeView)>,
    adj: Seq<(Seq<char>, Seq<Seq<char>>)>,
    id: Seq<char>,
    depth: nat,
    is_last: bool,
    visited: Set<Seq<char>>,
    path: Seq<Seq<char>>,
    budget: nat,
) -> (Seq<VisitV>, Set<Seq<char>>)
    decreases budget, 0nat, 0int,
{
    if path.contains(id) {
        (seq![visit_at(nodes, adj, id, depth, is_last, VisitStatus::Cycle)], visited)
    } else if visited.contains(id) {
        (seq![visit_at(nodes, adj, id, depth, is_last, VisitStatus::AlreadyExpanded)], visited)
    } else {
        let below = if budget == 0 {
            (Seq::<VisitV>::empty(), visited)
        } else {
            siblings_visits(
                nodes,
                adj,
                kids_of(adj, id),
                0,
                depth + 1,
                visited,
                path.push(id),
                (budget - 1) as nat,
            )
        };
        (seq![visit_at(nodes, adj, id, depth, is_last, VisitStatus::First)] + below.0, below.1.insert(id))
    }
}

/// The visits of the walks from `ids[i..]`, one after the other, at one depth.
pub open spec fn siblings_visits(
    nodes: Seq<(Seq<char>, NodeView)>,
    adj: Seq<(Seq<char>, Seq<Seq<char>>)>,
    ids: Seq<Seq<char>>,
    i: nat,
    depth: nat,
    visited: Set<Seq<char>>,
    path: Seq<Seq<char>>,
    budget: nat,
) -> (Seq<VisitV>, Set<Seq<char>>)
    decreases budget, 1nat, ids.len() - i,
{
    if i >= ids.len() {
        (Seq::<VisitV>::empty(), visited)
    } else {
        let first = dfs_visits(nodes, adj, ids[i as int], depth, i + 1 == ids.len(), visited, path, budget);
        let rest = siblings_visits(nodes, adj, ids, i + 1, depth, first.1, path, budget);
        (first.0 + rest.0, rest.1)
    }
}

/// The ids of `keys` that are not in `targets`, in order.
pub open spec fn untargeted(keys: Seq<Seq<char>>, targets: Seq<Seq<char>>) -> Seq<Seq<char>>
    decreases keys.len(),
{
    if keys.len() == 0 {
        seq![]
    } else if targets.contains(keys.last()) {
        untargeted(keys.drop_last(), targets)
    } else {
        untargeted(keys.drop_last(), targets).push(keys.last())
    }
}

/// The roots of `g`: its nodes (all levels) that no edge points to, in node order.
pub open spec fn walk_roots(g: crate::graph::GraphView) -> Seq<Seq<char>> {
    untargeted(keys_of(all_nodes_spec(g)), collect_edges(g).map_values(|e: EdgeView| e.to))
}

/// The visits of the tree walk of `g`: a depth-first walk from each root in
/// turn, sharing the set of expanded nodes.
pub open spec fn walk_spec(g: crate::graph::GraphView) -> Seq<VisitV> {
    let adj = adjacency(collect_edges(g));
    siblings_visits(all_nodes_spec(g), adj, walk_roots(g), 0, 0, Set::empty(), seq![], adj.len()).0
}

/// The keys of a map's entries, as a set.
pub open spec fn key_set(s: Seq<(Seq<char>, usize)>) -> Set<Seq<char>> {
    Set::new(|k: Seq<char>| has_key(s, k))
}

/// How many of `keys` are not on `path`.
pub open spec fn free_count(keys: Seq<Seq<char>>, path: Seq<Seq<char>>) -> nat
    decreases keys.len(),
{
    if keys.len() == 0 {
        0
    } else {
        free_count(keys.drop_last(), path) + if path.contains(keys.last()) {
            0nat
        } else {
            1nat
        }
    }
}

proof fn lemma_free_count_bound(keys: Seq<Seq<char>>, path: Seq<Seq<char>>)
    ensures
        free_count(keys, path) <= keys.len(),
    decreases keys.len(),
{
    if keys.len() > 0 {
        lemma_free_count_bound(keys.drop_last(), path);
    }
}

/// Putting a key that is not yet on the path onto it frees one key fewer.
proof fn lemma_free_count_push(keys: Seq<Seq<char>>, path: Seq<Seq<char>>, x: Seq<char>)
    ensures
        free_count(keys, path.push(x)) <= free_count(keys, path),
        keys.contains(x) && !path.contains(x) ==> free_count(keys, path.push(x)) < free_count(keys, path),
    decreases keys.len(),
{
    if keys.len() > 0 {
        let k = keys.last();
        lemma_free_count_push(keys.drop_last(), path, x);
        assert(path.push(x).contains(k) == (path.contains(k) || k == x)) by {
            if path.contains(k) {
                let j = choose|j: int| 0 <= j < path.len() && path[j] == k;
                assert(path.push(x)[j] == k);
            }
            if k == x {
                assert(path.push(x)[path.len() as int] == k);
            }
            let px = path.push(x);
            if px.contains(k) {
                let j = choose|j: int| 0 <= j < px.len() && px[j] == k;
                if j < path.len() {
                    assert(path[j] == k);
                }
            }
        }
        if keys.contains(x) && !path.contains(x) && k != x {
            let j = choose|j: int| 0 <= j < keys.len() && keys[j] == x;
            assert(keys.drop_last()[j] == x);
        }
    }
}

proof fn lemma_key_set_insert(s: Seq<(Seq<char>, usize)>, k: Seq<char>, v: usize)
    ensures
        key_set(insert_entry(s, k, v)) == key_set(s).insert(k),
{
    lemma_insert_entry(s, k, v);
    assert(key_set(insert_entry(s, k, v)) =~= key_set(s).insert(k));
}

/// Looking a node up among the node views gives the view of the node.
proof fn lemma_node_views_value(s: Seq<(Seq<char>, NodeInfo)>, k: Seq<char>)
    ensures
        value_of(node_views(s), k) == match value_of(s, k) {
            Some(v) => Some(v@),
            None => None::<NodeView>,
        },
{
    let t = node_views(s);
    assert forall|i: int| 0 <= i < s.len() implies s[i].0 == t[i].0 by {}
    lemma_find_key_same_keys(s, t, k);
    lemma_find_key(s, k);
}

/// `kids_of` has children only for an id among the keys.
proof fn lemma_kids_key(adj: Seq<(Seq<char>, Seq<Seq<char>>)>, id: Seq<char>)
    ensures
        kids_of(adj, id).len() > 0 ==> keys_of(adj).contains(id),
{
    lemma_find_key(adj, id);
    if kids_of(adj, id).len() > 0 {
        let i = find_key(adj, id);
        assert(keys_of(adj)[i] == id);
    }
}

fn dfs(
    nodes: &IndexMap<String, NodeInfo>,
    adj: &IndexMap<String, Vec<String>>,
    id: &str,
    depth: usize,
    is_last: bool,
    visited: &mut IndexMap<String, usize>,
    path: &mut Vec<String>,
    out: &mut Vec<VisitContext>,
    Ghost(budget): Ghost<nat>,
)
    requires
        depth == old(path)@.len(),
        budget >= free_count(keys_of(adj_entries(*adj)), str_views(old(path)@)),
    ensures
        final(path)@ == old(path)@,
        ({
            let r = dfs_visits(
                node_views(node_entries(*nodes)),
                adj_entries(*adj),
                id@,
                depth as nat,
                is_last,
                key_set(idx_entries(*old(visited))),
                str_views(old(path)@),
                budget,
            );
            &&& visit_views(final(out)@) == visit_views(old(out)@) + r.0
            &&& key_set(idx_entries(*final(visited))) == r.1
        }),
    decreases budget, 0nat, 0int,
{
    let ghost ns = node_views(node_entries(*nodes));
    let ghost ad = adj_entries(*adj);
    let ghost pv = str_views(path@);
    let ghost vis0 = key_set(idx_entries(*visited));
    let ghost out0 = visit_views(out@);
    proof {
        lemma_node_views_value(node_entries(*nodes), id@);
        lemma_find_key(ad, id@);
    }
    let info = match node_map_get(nodes, id) {
        Some(v) => v.duplicate(),
        None => NodeInfo::new(""),
    };
    assert(info@ == info_of(ns, id@)) by {
        if value_of(node_entries(*nodes), id@) is None {
            reveal_strlit("");
            assert(info@.label =~= Seq::<char>::empty());
            assert(info@.attrs =~= Seq::<(Seq<char>, Seq<char>)>::empty());
        }
    }
    let slot = adj_map_get_index_of(adj, id);
    let child_count: usize = match slot {
        Some(j) => adj_map_get_index(adj, j).unwrap().1.len(),
        None => 0,
    };
    assert(child_count == kids_of(ad, id@).len());
    if contains_str(path, id) {
        let ghost before = out@;
        out.push(VisitContext { node_id: id.to_owned(), info, depth, is_last, child_count, status: VisitStatus::Cycle });
        assert(visit_views(out@) =~= visit_views(before).push(visit_at(ns, ad, id@, depth as nat, is_last, VisitStatus::Cycle)));
        return;
    }
    proof {
        lemma_find_key(idx_entries(*visited), id@);
    }
    if idx_map_get(visited, id).is_some() {
        let ghost before = out@;
        out.push(VisitContext {
            node_id: id.to_owned(),
            info,
            depth,
            is_last,
            child_count,
            status: VisitStatus::AlreadyExpanded,
        });
        assert(visit_views(out@) =~= visit_views(before).push(
            visit_at(ns, ad, id@, depth as nat, is_last, VisitStatus::AlreadyExpanded),
        ));
        return;
    }
    let ghost before = out@;
    out.push(VisitContext { node_id: id.to_owned(), info, depth, is_last, child_count, status: VisitStatus::First });
    let ghost first = visit_at(ns, ad, id@, depth as nat, is_last, VisitStatus::First);
    assert(visit_views(out@) =~= out0.push(first));
    let ghost mid = visit_views(out@);
    path.push(id.to_owned());
    assert(str_views(path@) =~= pv.push(id@));
    let below_depth = path.len();
    match slot {
        Some(j) => {
            let kids = adj_map_get_index(adj, j).unwrap().1;
            if kids.len() > 0 {
                proof {
                    lemma_kids_key(ad, id@);
                    lemma_free_count_push(keys_of(ad), pv, id@);
                }
                siblings(nodes, adj, kids, below_depth, visited, path, out, Ghost((budget - 1) as nat));
            } else {
                assert(kids_of(ad, id@).len() == 0);
            }
        },
        None => {},
    }
    let ghost below = if budget == 0 {
        (Seq::<VisitV>::empty(), vis0)
    } else {
        siblings_visits(ns, ad, kids_of(ad, id@), 0, (depth + 1) as nat, vis0, pv.push(id@), (budget - 1) as nat)
    };
    assert(visit_views(out@) == mid + below.0 && key_set(idx_entries(*visited)) == below.1) by {
        if kids_of(ad, id@).len() == 0 && budget > 0 {
            assert(visit_views(out@) =~= mid + Seq::<VisitV>::empty());
        }
        if kids_of(ad, id@).len() == 0 {
            assert(visit_views(out@) =~= mid + Seq::<VisitV>::empty());
        }
    }
    path.pop();
    assert(path@ =~= old(path)@);
    proof {
        lemma_key_set_insert(idx_entries(*visited), id@, 0);
    }
    idx_map_insert(visited, id.to_owned(), 0);
    assert(visit_views(out@) =~= out0 + (seq![first] + below.0));
}

fn siblings(
    nodes: &IndexMap<String, NodeInfo>,
    adj: &IndexMap<String, Vec<String>>,
    ids: &Vec<String>,
    depth: usize,
    visited: &mut IndexMap<String, usize>,
    path: &mut Vec<String>,
    out: &mut Vec<VisitContext>,
    Ghost(budget): Ghost<nat>,
)
    requires
        depth == old(path)@.len(),
        budget >= free_count(keys_of(adj_entries(*adj)), str_views(old(path)@)),
    ensures
        final(path)@ == old(path)@,
        ({
            let r = siblings_visits(
                node_views(node_entries(*nodes)),
                adj_entries(*adj),
                str_views(ids@),
                0,
                depth as nat,
                key_set(idx_entries(*old(visited))),
                str_views(old(path)@),
                budget,
            );
            &&& visit_views(final(out)@) == visit_views(old(out)@) + r.0
            &&& key_set(idx_entries(*final(visited))) == r.1
        }),
    decreases budget, 1nat, 0int,
{
    let ghost ns = node_views(node_entries(*nodes));
    let ghost ad = adj_entries(*adj);
    let ghost pv = str_views(path@);
    let ghost p0 = path@;
    let ghost iv = str_views(ids@);
    let ghost total = siblings_visits(ns, ad, iv, 0, depth as nat, key_set(idx_entries(*visited)), pv, budget);
    let ghost out0 = visit_views(out@);
    let mut i: usize = 0;
    while i < ids.len()
        invariant
            i <= ids@.len() == iv.len(),
            iv == str_views(ids@),
            ns == node_views(node_entries(*nodes)),
            ad == adj_entries(*adj),
            path@ == p0,
            pv == str_views(p0),
            depth == p0.len(),
            budget >= free_count(keys_of(ad), pv),
            visit_views(out@) + siblings_visits(ns, ad, iv, i as nat, depth as nat, key_set(idx_entries(*visited)), pv, budget).0
                == out0 + total.0,
            siblings_visits(ns, ad, iv, i as nat, depth as nat, key_set(idx_entries(*visited)), pv, budget).1 == total.1,
        decreases ids@.len() - i,
    {
        let ghost vis = key_set(idx_entries(*visited));
        let ghost before = visit_views(out@);
        let ghost first = dfs_visits(ns, ad, iv[i as int], depth as nat, i + 1 == iv.len(), vis, pv, budget);
        let ghost rest = siblings_visits(ns, ad, iv, (i + 1) as nat, depth as nat, first.1, pv, budget);
        assert(siblings_visits(ns, ad, iv, i as nat, depth as nat, vis, pv, budget) == (first.0 + rest.0, rest.1));
        dfs(nodes, adj, ids[i].as_str(), depth, i + 1 == ids.len(), visited, path, out, Ghost(budget));
        assert(visit_views(out@) + rest.0 =~= before + (first.0 + rest.0));
        i = i + 1;
    }
    assert(visit_views(out@) =~= visit_views(out@) + Seq::<VisitV>::empty());
}

/// Walks `graph` as a tree, depth first.
///
/// The roots are the nodes that no edge points to, in node order; each
/// is walked in turn. A node's children are its adjacency list. Every node
/// is expanded at most once: reached again, it is reported as
/// [`VisitStatus::AlreadyExpanded`]; reached while it is on the current path,
/// as [`VisitStatus::Cycle`]. When every node has an incoming edge there is no
/// root and nothing is visited.
pub fn walk(graph: &DepGraph) -> (r: Vec<VisitContext>)
    ensures
        visit_views(r@) == walk_spec(graph@),
{
    let nodes = graph.all_nodes();
    let adj = graph.adjacency_list();
    let edges = graph.all_edges();
    let ghost tv = collect_edges(graph@).map_values(|e: EdgeView| e.to);
    let mut targets = idx_map_new();
    let mut i: usize = 0;
    while i < edges.len()
        invariant
            i <= edges@.len(),
            crate::graph::edge_views(edges@) == collect_edges(graph@),
            tv == collect_edges(graph@).map_values(|e: EdgeView| e.to),
            forall|k: Seq<char>| has_key(idx_entries(targets), k) == tv.take(i as int).contains(k),
        decreases edges@.len() - i,
    {
        proof {
            lemma_insert_entry(idx_entries(targets), edges@[i as int].to@, 0);
            assert(tv[i as int] == edges@[i as int].to@);
            let a = tv.take(i + 1);
            let b = tv.take(i as int);
            assert forall|k: Seq<char>| a.contains(k) == (b.contains(k) || k == tv[i as int]) by {
                if a.contains(k) {
                    let j = choose|j: int| 0 <= j < a.len() && a[j] == k;
                    if j < i {
                        assert(b[j] == k);
                    }
                }
                if b.contains(k) {
                    let j = choose|j: int| 0 <= j < b.len() && b[j] == k;
                    assert(a[j] == k);
                }
                if k == tv[i as int] {
                    assert(a[i as int] == k);
                }
            }
        }
        let ghost old_t = idx_entries(targets);
        let to = edges[i].to.clone();
        assert(to@ == tv[i as int]);
        idx_map_insert(&mut targets, to, 0);
        proof {
            lemma_insert_entry(old_t, tv[i as int], 0);
            let a = tv.take(i + 1);
            assert forall|k: Seq<char>| has_key(idx_entries(targets), k) == a.contains(k) by {
                assert(has_key(old_t, k) == tv.take(i as int).contains(k));
            }
        }
        i = i + 1;
    }
    assert(tv.take(edges@.len() as int) =~= tv);
    let ghost ns = node_views(node_entries(nodes));
    let ghost ks = keys_of(ns);
    let n = node_map_len(&nodes);
    let mut roots: Vec<String> = Vec::new();
    let mut j: usize = 0;
    while j < n
        invariant
            j <= n == ns.len() == ks.len(),
            ns == node_views(node_entries(nodes)),
            ks == keys_of(ns),
            forall|k: Seq<char>| has_key(idx_entries(targets), k) == tv.contains(k),
            str_views(roots@) == untargeted(ks.take(j as int), tv),
        decreases n - j,
    {
        let (k, _) = node_map_get_index(&nodes, j).unwrap();
        assert(ks.take(j + 1).drop_last() =~= ks.take(j as int));
        assert(ks.take(j + 1).last() == k@);
        proof {
            lemma_find_key(idx_entries(targets), k@);
        }
        if idx_map_get(&targets, k.as_str()).is_none() {
            let ghost before = roots@;
            roots.push(k.clone());
            assert(str_views(roots@) =~= str_views(before).push(k@));
        }
        j = j + 1;
    }
    assert(ks.take(n as int) =~= ks);
    let mut visited = idx_map_new();
    let mut path: Vec<String> = Vec::new();
    let mut out: Vec<VisitContext> = Vec::new();
    let ghost ad = adj_entries(adj);
    proof {
        lemma_free_count_bound(keys_of(ad), str_views(path@));
        assert(key_set(idx_entries(visited)) =~= Set::<Seq<char>>::empty());
        assert(str_views(path@) =~= Seq::<Seq<char>>::empty());
    }
    siblings(&nodes, &adj, &roots, 0, &mut visited, &mut path, &mut out, Ghost(ad.len()));
    assert(visit_views(out@) =~= Seq::<VisitContext>::empty().map_values(|v: VisitContext| v@) + walk_spec(graph@));
    out
}

} // verus!
