//! Clustering: neighbor lists for clustering algorithms, and the graph of a
//! partition into clusters.
use indexmap::IndexMap;
use vstd::prelude::*;

use crate::flat::FlatGraphView;
use crate::graph::{
    all_nodes_spec, collect_edges, edge_views, node_views, DepGraph, Edge, EdgeView, GraphView,
    NodeView,
};
use crate::maps::{
    str_views, has_key, idx_entries, idx_map_get, idx_map_insert, idx_map_new, lemma_find_key,
    lemma_insert_entry, node_entries, node_map_get_index, node_map_insert, node_map_len,
    node_map_new, str_map_new, value_of,
};
use crate::pg::{neighbor_seq, pg_neighbors};
use crate::text::{decimal, push_chars, push_decimal};

pub mod lpa;

verus! {

/// Neighbor lists of a flattened dependency graph, by node position.
///
/// Undirected, a node's neighbors are its outgoing then its incoming
/// neighbors; directed, only its outgoing neighbors. Each neighbor is listed
/// once, parallel edges notwithstanding.
pub struct Adjacency {
    /// For each node position, the positions of its neighbors (a set, each once).
    pub neighbors: Vec<Vec<usize>>,
}

/// `acc` followed by the elements of `s` not yet in it, in order.
pub open spec fn add_new(acc: Seq<usize>, s: Seq<usize>) -> Seq<usize>
    decreases s.len(),
{
    if s.len() == 0 {
        acc
    } else {
        let a = add_new(acc, s.drop_last());
        if a.contains(s.last()) {
            a
        } else {
            a.push(s.last())
        }
    }
}

/// The neighbors of node `i`, each once: its outgoing neighbors, then (not
/// `directed`) its incoming ones, in the order petgraph lists them.
pub open spec fn neighbors_of(edges: Seq<(usize, usize)>, i: usize, directed: bool) -> Seq<usize> {
    let out = add_new(seq![], neighbor_seq(edges, i, true));
    if directed {
        out
    } else {
        add_new(out, neighbor_seq(edges, i, false))
    }
}

/// The neighbor lists of the `n` nodes.
pub open spec fn adjacency_spec(edges: Seq<(usize, usize)>, n: nat, directed: bool) -> Seq<Seq<usize>> {
    Seq::new(n, |i: int| neighbors_of(edges, i as usize, directed))
}

/// Whether `x` is one of `v`.
fn contains_usize(v: &Vec<usize>, x: usize) -> (b: bool)
    ensures
        b == v@.contains(x),
{
    let mut i: usize = 0;
    while i < v.len()
        invariant
            i <= v@.len(),
            forall|j: int| 0 <= j < i ==> v@[j] != x,
        decreases v@.len() - i,
    {
        if v[i] == x {
            return true;
        }
        i = i + 1;
    }
    false
}

/// Appends the elements of `s` that `seen` does not hold yet, in order.
fn add_unseen(seen: &mut Vec<usize>, s: &Vec<usize>)
    ensures
        final(seen)@ == add_new(old(seen)@, s@),
{
    let ghost start = seen@;
    let mut j: usize = 0;
    assert(s@.take(0) =~= Seq::<usize>::empty());
    while j < s.len()
        invariant
            j <= s@.len(),
            seen@ == add_new(start, s@.take(j as int)),
        decreases s@.len() - j,
    {
        assert(s@.take(j + 1).drop_last() =~= s@.take(j as int));
        assert(s@.take(j + 1).last() == s@[j as int]);
        let x = s[j];
        if !contains_usize(seen, x) {
            seen.push(x);
        }
        j = j + 1;
    }
    assert(s@.take(s@.len() as int) =~= s@);
}

impl Adjacency {
    /// The neighbor lists of the flattened graph.
    pub fn new(view: &FlatGraphView, directed: bool) -> (r: Self)
        requires
            view.wf(),
        ensures
            r.neighbors@.map_values(|v: Vec<usize>| v@) == adjacency_spec(view.edges(), view.nodes().len(), directed),
    {
        let n = view.idx_to_id.len();
        let ghost es = view.edges();
        assert(str_views(view.idx_to_id@).len() == view.idx_to_id@.len());
        assert(crate::maps::keys_of(view.nodes()).len() == view.nodes().len());
        let mut neighbors: Vec<Vec<usize>> = Vec::new();
        let mut i: usize = 0;
        while i < n
            invariant
                view.wf(),
                es == view.edges(),
                n == view.nodes().len(),
                i <= n,
                neighbors@.len() == i,
                forall|k: int| 0 <= k < i ==> (#[trigger] neighbors@[k])@ == neighbors_of(es, k as usize, directed),
            decreases n - i,
        {
            assert(view.idx_to_id@.len() == crate::maps::keys_of(view.nodes()).len());
            let outgoing = pg_neighbors(&view.pg, i, true);
            let mut seen: Vec<usize> = Vec::new();
            add_unseen(&mut seen, &outgoing);
            if !directed {
                let incoming = pg_neighbors(&view.pg, i, false);
                add_unseen(&mut seen, &incoming);
            }
            neighbors.push(seen);
            i = i + 1;
        }
        let r = Adjacency { neighbors };
        assert(r.neighbors@.map_values(|v: Vec<usize>| v@) =~= adjacency_spec(es, n as nat, directed));
        r
    }
}

/// The ids of each cluster.
pub open spec fn partition_views(p: Seq<Vec<&str>>) -> Seq<Seq<Seq<char>>> {
    p.map_values(|c: Vec<&str>| c@.map_values(|s: &str| s@))
}

/// The last cluster that holds `id`, or -1.
pub open spec fn cluster_of(part: Seq<Seq<Seq<char>>>, id: Seq<char>) -> int
    decreases part.len(),
{
    if part.len() == 0 {
        -1
    } else if part.last().contains(id) {
        part.len() - 1
    } else {
        cluster_of(part.drop_last(), id)
    }
}

proof fn lemma_cluster_of_range(part: Seq<Seq<Seq<char>>>, id: Seq<char>)
    ensures
        -1 <= cluster_of(part, id) < part.len(),
    decreases part.len(),
{
    if part.len() > 0 {
        lemma_cluster_of_range(part.drop_last(), id);
    }
}

/// The nodes whose id is in `c`, in order.
pub open spec fn nodes_in(ns: Seq<(Seq<char>, NodeView)>, c: Seq<Seq<char>>) -> Seq<(Seq<char>, NodeView)>
    decreases ns.len(),
{
    if ns.len() == 0 {
        seq![]
    } else if c.contains(ns.last().0) {
        nodes_in(ns.drop_last(), c).push(ns.last())
    } else {
        nodes_in(ns.drop_last(), c)
    }
}

/// The edges with both endpoints in `c`, in order.
pub open spec fn edges_in(es: Seq<EdgeView>, c: Seq<Seq<char>>) -> Seq<EdgeView>
    decreases es.len(),
{
    if es.len() == 0 {
        seq![]
    } else if c.contains(es.last().from) && c.contains(es.last().to) {
        edges_in(es.drop_last(), c).push(es.last())
    } else {
        edges_in(es.drop_last(), c)
    }
}

/// The edges whose endpoints both have a cluster, and not the same one.
pub open spec fn cross_edges(es: Seq<EdgeView>, part: Seq<Seq<Seq<char>>>) -> Seq<EdgeView>
    decreases es.len(),
{
    if es.len() == 0 {
        seq![]
    } else {
        let e = es.last();
        let (a, b) = (cluster_of(part, e.from), cluster_of(part, e.to));
        if a >= 0 && b >= 0 && a != b {
            cross_edges(es.drop_last(), part).push(e)
        } else {
            cross_edges(es.drop_last(), part)
        }
    }
}

/// `cluster_<i>`.
pub open spec fn cluster_name(i: nat) -> Seq<char> {
    seq!['c', 'l', 'u', 's', 't', 'e', 'r', '_'] + decimal(i)
}

/// The subgraph of cluster `i`.
pub open spec fn cluster_graph(g: GraphView, part: Seq<Seq<Seq<char>>>, i: int) -> GraphView {
    GraphView {
        id: Some(cluster_name(i as nat)),
        attrs: seq![],
        nodes: nodes_in(all_nodes_spec(g), part[i]),
        edges: edges_in(collect_edges(g), part[i]),
        subgraphs: seq![],
    }
}

/// The graph of a partition: one subgraph per cluster, holding its nodes and
/// the edges inside it; the edges between clusters at the top level.
pub open spec fn clusters_spec(g: GraphView, part: Seq<Seq<Seq<char>>>) -> GraphView {
    GraphView {
        id: None,
        attrs: seq![],
        nodes: seq![],
        edges: cross_edges(collect_edges(g), part),
        subgraphs: Seq::new(part.len(), |i: int| cluster_graph(g, part, i)),
    }
}

/// The ids of a cluster as a set (a map whose keys are the ids).
fn id_set(c: &Vec<&str>) -> (r: IndexMap<String, usize>)
    ensures
        forall|k: Seq<char>| has_key(idx_entries(r), k) == c@.map_values(|s: &str| s@).contains(k),
{
    let ghost cv = c@.map_values(|s: &str| s@);
    let mut r = idx_map_new();
    let mut j: usize = 0;
    while j < c.len()
        invariant
            j <= c@.len(),
            cv == c@.map_values(|s: &str| s@),
            forall|k: Seq<char>| has_key(idx_entries(r), k) == cv.take(j as int).contains(k),
        decreases c@.len() - j,
    {
        let ghost old_r = idx_entries(r);
        assert(cv[j as int] == c@[j as int]@);
        idx_map_insert(&mut r, c[j].to_owned(), 0);
        proof {
            lemma_insert_entry(old_r, cv[j as int], 0);
            let a = cv.take(j + 1);
            let b = cv.take(j as int);
            assert forall|k: Seq<char>| has_key(idx_entries(r), k) == a.contains(k) by {
                assert(has_key(old_r, k) == b.contains(k));
                if a.contains(k) {
                    let x = choose|x: int| 0 <= x < a.len() && a[x] == k;
                    if x < j {
                        assert(b[x] == k);
                    }
                }
                if b.contains(k) {
                    let x = choose|x: int| 0 <= x < b.len() && b[x] == k;
                    assert(a[x] == k);
                }
                if k == cv[j as int] {
                    assert(a[j as int] == k);
                }
            }
        }
        j = j + 1;
    }
    assert(cv.take(c@.len() as int) =~= cv);
    r
}

/// Whether `k` is a key of the set map `m`.
fn in_set(m: &IndexMap<String, usize>, k: &str) -> (b: bool)
    ensures
        b == has_key(idx_entries(*m), k@),
{
    proof {
        lemma_find_key(idx_entries(*m), k@);
    }
    idx_map_get(m, k).is_some()
}

/// The cluster of each id: the last cluster that holds it.
fn cluster_index(partition: &[Vec<&str>]) -> (r: IndexMap<String, usize>)
    ensures
        forall|k: Seq<char>| #[trigger] value_of(idx_entries(r), k) == (if cluster_of(partition_views(partition@), k) >= 0 {
            Some(cluster_of(partition_views(partition@), k) as usize)
        } else {
            None::<usize>
        }),
{
    let ghost pv = partition_views(partition@);
    let mut r = idx_map_new();
    let mut i: usize = 0;
    assert(pv.take(0) =~= Seq::<Seq<Seq<char>>>::empty());
    while i < partition.len()
        invariant
            i <= partition@.len() == pv.len(),
            pv == partition_views(partition@),
            forall|k: Seq<char>| #[trigger] value_of(idx_entries(r), k) == (if cluster_of(pv.take(i as int), k) >= 0 {
                Some(cluster_of(pv.take(i as int), k) as usize)
            } else {
                None::<usize>
            }),
        decreases partition@.len() - i,
    {
        let c = &partition[i];
        let ghost cv = pv[i as int];
        assert(cv == c@.map_values(|s: &str| s@));
        let ghost before = idx_entries(r);
        let mut j: usize = 0;
        while j < c.len()
            invariant
                j <= c@.len() == cv.len(),
                cv == c@.map_values(|s: &str| s@),
                forall|k: Seq<char>| #[trigger] value_of(idx_entries(r), k) == (if cv.take(j as int).contains(k) {
                    Some(i)
                } else {
                    value_of(before, k)
                }),
            decreases c@.len() - j,
        {
            let ghost old_r = idx_entries(r);
            assert(cv[j as int] == c@[j as int]@);
            idx_map_insert(&mut r, c[j].to_owned(), i);
            proof {
                lemma_insert_entry(old_r, cv[j as int], i);
                let a = cv.take(j + 1);
                let b = cv.take(j as int);
                assert forall|k: Seq<char>| #[trigger] value_of(idx_entries(r), k) == (if a.contains(k) {
                    Some(i)
                } else {
                    value_of(before, k)
                }) by {
                    assert(a.contains(k) == (b.contains(k) || k == cv[j as int])) by {
                        if a.contains(k) {
                            let x = choose|x: int| 0 <= x < a.len() && a[x] == k;
                            if x < j {
                                assert(b[x] == k);
                            }
                        }
                        if b.contains(k) {
                            let x = choose|x: int| 0 <= x < b.len() && b[x] == k;
                            assert(a[x] == k);
                        }
                        if k == cv[j as int] {
                            assert(a[j as int] == k);
                        }
                    }
                    assert(value_of(old_r, k) == (if b.contains(k) { Some(i) } else { value_of(before, k) }));
                }
            }
            j = j + 1;
        }
        assert(cv.take(c@.len() as int) =~= cv);
        assert(pv.take(i + 1).drop_last() =~= pv.take(i as int));
        assert(pv.take(i + 1).last() == cv);
        i = i + 1;
    }
    assert(pv.take(partition@.len() as int) =~= pv);
    r
}

/// The graph of a partition of `graph`'s nodes into clusters.
///
/// Each cluster becomes a subgraph `cluster_<i>` holding the cluster's nodes
/// (in node order) and the edges with both endpoints in it. The edges whose
/// endpoints lie in two different clusters stay at the top level; edges with
/// an endpoint in no cluster are left out. An id listed in several clusters
/// counts as in the last of them when edges are classified.
pub fn clusters_to_depgraph(graph: &DepGraph, partition: &[Vec<&str>]) -> (r: DepGraph)
    ensures
        r@ == clusters_spec(graph@, partition_views(partition@)),
{
    let all_nodes = graph.all_nodes();
    let all_edges = graph.all_edges();
    let ghost pv = partition_views(partition@);
    let ghost ns = node_views(node_entries(all_nodes));
    let ghost es = edge_views(all_edges@);
    let where_is = cluster_index(partition);
    let mut subgraphs: Vec<DepGraph> = Vec::new();
    let mut i: usize = 0;
    while i < partition.len()
        invariant
            i <= partition@.len() == pv.len(),
            pv == partition_views(partition@),
            ns == node_views(node_entries(all_nodes)),
            ns == all_nodes_spec(graph@),
            es == edge_views(all_edges@),
            es == collect_edges(graph@),
            subgraphs@.len() == i,
            forall|k: int| 0 <= k < i ==> (#[trigger] subgraphs@[k])@ == cluster_graph(graph@, pv, k),
        decreases partition@.len() - i,
    {
        let members = id_set(&partition[i]);
        let ghost cv = pv[i as int];
        let mut nodes = node_map_new();
        let n = node_map_len(&all_nodes);
        let mut j: usize = 0;
        assert(ns.take(0) =~= Seq::<(Seq<char>, NodeView)>::empty());
        assert(node_views(node_entries(nodes)) =~= Seq::<(Seq<char>, NodeView)>::empty());
        while j < n
            invariant
                j <= n == ns.len(),
                ns == node_views(node_entries(all_nodes)),
                forall|k: Seq<char>| has_key(idx_entries(members), k) == cv.contains(k),
                node_views(node_entries(nodes)) == nodes_in(ns.take(j as int), cv),
                forall|k: Seq<char>| has_key(node_views(node_entries(nodes)), k) ==> ns.take(j as int).map_values(|e: (Seq<char>, NodeView)| e.0).contains(k),
            decreases n - j,
        {
            let (k, v) = node_map_get_index(&all_nodes, j).unwrap();
            let ghost old_nv = node_views(node_entries(nodes));
            assert(ns.take(j + 1).drop_last() =~= ns.take(j as int));
            assert(ns.take(j + 1).last() == (k@, v@));
            if in_set(&members, k.as_str()) {
                let v2 = v.duplicate();
                proof {
                    crate::graph::lemma_node_views_insert(node_entries(nodes), k@, v2);
                    crate::graph::lemma_node_views_keys(node_entries(nodes));
                    lemma_find_key(node_views(node_entries(nodes)), k@);
                    if has_key(node_views(node_entries(nodes)), k@) {
                        let ks = ns.take(j as int).map_values(|e: (Seq<char>, NodeView)| e.0);
                        let x = choose|x: int| 0 <= x < ks.len() && ks[x] == k@;
                        assert(ns[x].0 == node_entries(all_nodes)[x].0);
                        assert(false);
                    }
                }
                let ghost before = node_views(node_entries(nodes));
                node_map_insert(&mut nodes, k.clone(), v2);
                assert(node_views(node_entries(nodes)) =~= before.push((k@, v2@)));
                proof {
                    crate::graph::lemma_node_views_keys(node_entries(nodes));
                }
            }
            proof {
                let a = ns.take(j + 1).map_values(|e: (Seq<char>, NodeView)| e.0);
                let b = ns.take(j as int).map_values(|e: (Seq<char>, NodeView)| e.0);
                assert(a[j as int] == k@);
                assert forall|x: Seq<char>| has_key(node_views(node_entries(nodes)), x) implies a.contains(x) by {
                    if x != k@ {
                        let nv = node_views(node_entries(nodes));
                        let y = choose|y: int| 0 <= y < nv.len() && #[trigger] nv[y].0 == x;
                        assert(has_key(old_nv, x)) by {
                            assert(old_nv[y].0 == x);
                        }
                        let z = choose|z: int| 0 <= z < b.len() && b[z] == x;
                        assert(a[z] == x);
                    }
                }
            }
            j = j + 1;
        }
        assert(ns.take(n as int) =~= ns);
        let mut edges: Vec<Edge> = Vec::new();
        let mut m: usize = 0;
        assert(es.take(0) =~= Seq::<EdgeView>::empty());
        assert(edge_views(edges@) =~= Seq::<EdgeView>::empty());
        while m < all_edges.len()
            invariant
                m <= all_edges@.len() == es.len(),
                es == edge_views(all_edges@),
                forall|k: Seq<char>| has_key(idx_entries(members), k) == cv.contains(k),
                edge_views(edges@) == edges_in(es.take(m as int), cv),
            decreases all_edges@.len() - m,
        {
            let e = &all_edges[m];
            assert(es.take(m + 1).drop_last() =~= es.take(m as int));
            assert(es.take(m + 1).last() == e@);
            if in_set(&members, e.from.as_str()) && in_set(&members, e.to.as_str()) {
                let ghost before = edge_views(edges@);
                edges.push(e.duplicate());
                assert(edge_views(edges@) =~= before.push(e@));
            }
            m = m + 1;
        }
        assert(es.take(all_edges@.len() as int) =~= es);
        let mut name = String::new();
        push_chars(&mut name, &['c', 'l', 'u', 's', 't', 'e', 'r', '_']);
        push_decimal(&mut name, i);
        let sg = DepGraph { id: Some(name), attrs: str_map_new(), nodes, edges, subgraphs: Vec::new() };
        assert(sg@.subgraphs =~= Seq::<GraphView>::empty());
        assert(sg@.attrs =~= Seq::<(Seq<char>, Seq<char>)>::empty());
        assert(sg@ == cluster_graph(graph@, pv, i as int));
        subgraphs.push(sg);
        i = i + 1;
    }
    let mut cross: Vec<Edge> = Vec::new();
    let plen = partition.len();
    assert(pv.len() == plen);
    let mut m: usize = 0;
    assert(es.take(0) =~= Seq::<EdgeView>::empty());
    assert(edge_views(cross@) =~= Seq::<EdgeView>::empty());
    while m < all_edges.len()
        invariant
            m <= all_edges@.len() == es.len(),
            es == edge_views(all_edges@),
            pv == partition_views(partition@),
            pv.len() == plen,
            forall|k: Seq<char>| #[trigger] value_of(idx_entries(where_is), k) == (if cluster_of(pv, k) >= 0 {
                Some(cluster_of(pv, k) as usize)
            } else {
                None::<usize>
            }),
            edge_views(cross@) == cross_edges(es.take(m as int), pv),
        decreases all_edges@.len() - m,
    {
        let e = &all_edges[m];
        assert(es.take(m + 1).drop_last() =~= es.take(m as int));
        assert(es.take(m + 1).last() == e@);
        let a = idx_map_get(&where_is, e.from.as_str());
        let b = idx_map_get(&where_is, e.to.as_str());
        assert(a == value_of(idx_entries(where_is), e.from@));
        proof {
            lemma_cluster_of_range(pv, e.from@);
            lemma_cluster_of_range(pv, e.to@);
        }
        assert(b == value_of(idx_entries(where_is), e.to@));
        let across = match (a, b) {
            (Some(x), Some(y)) => x != y,
            _ => false,
        };
        assert(across == (cluster_of(pv, e@.from) >= 0 && cluster_of(pv, e@.to) >= 0 && cluster_of(pv, e@.from) != cluster_of(pv, e@.to)));
        if across {
            let ghost before = edge_views(cross@);
            cross.push(e.duplicate());
            assert(edge_views(cross@) =~= before.push(e@));
        }
        m = m + 1;
    }
    assert(es.take(all_edges@.len() as int) =~= es);
    let r = DepGraph { id: None, attrs: str_map_new(), nodes: node_map_new(), edges: cross, subgraphs };
    assert(r@.subgraphs =~= clusters_spec(graph@, pv).subgraphs);
    assert(r@.attrs =~= Seq::<(Seq<char>, Seq<char>)>::empty());
    assert(r@.nodes =~= Seq::<(Seq<char>, NodeView)>::empty());
    r
}

} // verus!
