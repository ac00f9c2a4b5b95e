//! Label propagation clustering.
use rand::prelude::SliceRandom;
use rand::rngs::StdRng;
use rand::SeedableRng;
use vstd::prelude::*;

use super::{adjacency_spec, clusters_spec, clusters_to_depgraph, partition_views, Adjacency};
use crate::flat::{flat_edges, FlatGraphView};
use crate::graph::{all_nodes_spec, collect_edges, empty_graph_view, DepGraph, GraphView};
use crate::maps::{keys_of, str_views};
use crate::pg::{index_limit, lemma_neighbors_below, neighbor_seq};

verus! {

#[verifier::external_type_specification]
#[verifier::external_body]
pub struct ExStdRng(StdRng);

/// `StdRng::seed_from_u64`: a generator seeded from `seed`. Nothing is stated
/// of the numbers it will give.
#[verifier::external_body]
fn seeded_rng(seed: u64) -> StdRng {
    StdRng::seed_from_u64(seed)
}

/// `SliceRandom::shuffle`: a random permutation of `order` in place (a run
/// of element swaps in the source); which permutation is left unsaid.
#[verifier::external_body]
fn shuffle_order(order: &mut Vec<usize>, rng: &mut StdRng)
    ensures
        final(order)@.to_multiset() == old(order)@.to_multiset(),
{
    order.shuffle(rng);
}

/// `0, 1, ..., n - 1`.
pub open spec fn iota(n: nat) -> Seq<usize> {
    Seq::new(n, |i: int| i as usize)
}

/// Whether `o` is an order of the nodes `0 .. n`.
pub open spec fn is_order(o: Seq<usize>, n: nat) -> bool {
    o.to_multiset() == iota(n).to_multiset()
}

/// How many of the neighbors carry label `c`.
pub open spec fn label_count(labels: Seq<usize>, nb: Seq<usize>, c: usize) -> nat
    decreases nb.len(),
{
    if nb.len() == 0 {
        0
    } else {
        label_count(labels, nb.drop_last(), c) + if labels[nb.last() as int] == c {
            1nat
        } else {
            0nat
        }
    }
}

/// Whether `c` is the label to adopt: a neighbor's label that no neighbor's
/// label beats, a label beating another when more neighbors carry it, or as
/// many and it is smaller.
pub open spec fn is_best(labels: Seq<usize>, nb: Seq<usize>, c: usize) -> bool {
    &&& exists|m: int| 0 <= m < nb.len() && labels[nb[m] as int] == c
    &&& forall|m: int|
        0 <= m < nb.len() ==> {
            let d = #[trigger] labels[nb[m] as int];
            label_count(labels, nb, d) < label_count(labels, nb, c) || (label_count(labels, nb, d)
                == label_count(labels, nb, c) && c <= d)
        }
}

/// The most common label among the neighbors, the smallest one on a tie.
pub open spec fn adopted(labels: Seq<usize>, nb: Seq<usize>) -> usize {
    choose|c: usize| is_best(labels, nb, c)
}

/// One pass over the nodes in `order`: each node with neighbors takes the
/// label it adopts, seeing the labels already changed in this pass. With
/// whether any label changed.
pub open spec fn round(adj: Seq<Seq<usize>>, labels: Seq<usize>, order: Seq<usize>) -> (Seq<usize>, bool)
    decreases order.len(),
{
    if order.len() == 0 {
        (labels, false)
    } else {
        let (l, ch) = round(adj, labels, order.drop_last());
        let i = order.last();
        let nb = adj[i as int];
        if nb.len() == 0 {
            (l, ch)
        } else {
            let b = adopted(l, nb);
            if b != l[i as int] {
                (l.update(i as int, b), true)
            } else {
                (l, ch)
            }
        }
    }
}

/// The labels after the passes in `orders`, stopping after the first pass
/// that changes nothing.
pub open spec fn propagate(adj: Seq<Seq<usize>>, labels: Seq<usize>, orders: Seq<Seq<usize>>) -> Seq<usize>
    decreases orders.len(),
{
    if orders.len() == 0 {
        labels
    } else {
        let (l, ch) = round(adj, labels, orders[0]);
        if ch {
            propagate(adj, l, orders.drop_first())
        } else {
            l
        }
    }
}

/// The labels below `v` that occur, ascending.
pub open spec fn present_labels(labels: Seq<usize>, v: nat) -> Seq<usize>
    decreases v,
{
    if v == 0 {
        seq![]
    } else {
        let a = present_labels(labels, (v - 1) as nat);
        if labels.contains((v - 1) as usize) {
            a.push((v - 1) as usize)
        } else {
            a
        }
    }
}

/// The ids of the first `m` nodes that carry label `c`, in node order.
pub open spec fn label_group(labels: Seq<usize>, ids: Seq<Seq<char>>, c: usize, m: nat) -> Seq<Seq<char>>
    decreases m,
{
    if m == 0 || m > labels.len() {
        seq![]
    } else {
        let a = label_group(labels, ids, c, (m - 1) as nat);
        if labels[m - 1] == c {
            a.push(ids[m - 1])
        } else {
            a
        }
    }
}

/// The clusters of a labelling: one per label that occurs, by ascending label,
/// each with its nodes in node order.
pub open spec fn partition_of(labels: Seq<usize>, ids: Seq<Seq<char>>) -> Seq<Seq<Seq<char>>> {
    present_labels(labels, labels.len()).map_values(|c: usize| label_group(labels, ids, c, labels.len()))
}

/// The clustering of `g` when the passes go through the nodes in `orders`.
pub open spec fn lpa_spec(g: GraphView, directed: bool, orders: Seq<Seq<usize>>) -> GraphView {
    let ns = all_nodes_spec(g);
    let n = ns.len();
    if n == 0 {
        empty_graph_view()
    } else {
        let adj = adjacency_spec(flat_edges(ns, collect_edges(g)), n, directed);
        clusters_spec(g, partition_of(propagate(adj, iota(n), orders), keys_of(ns)))
    }
}

/// The adopted label is unique.
pub proof fn lemma_best_unique(labels: Seq<usize>, nb: Seq<usize>, c1: usize, c2: usize)
    requires
        is_best(labels, nb, c1),
        is_best(labels, nb, c2),
    ensures
        c1 == c2,
{
    let m1 = choose|m: int| 0 <= m < nb.len() && labels[nb[m] as int] == c1;
    let m2 = choose|m: int| 0 <= m < nb.len() && labels[nb[m] as int] == c2;
    assert(labels[nb[m1] as int] == c1);
    assert(labels[nb[m2] as int] == c2);
}

proof fn lemma_count_pos(labels: Seq<usize>, nb: Seq<usize>, m: int)
    requires
        0 <= m < nb.len(),
    ensures
        label_count(labels, nb, labels[nb[m] as int]) >= 1,
    decreases nb.len(),
{
    if m < nb.len() - 1 {
        lemma_count_pos(labels, nb.drop_last(), m);
        assert(nb.drop_last()[m] == nb[m]);
    }
}

proof fn lemma_count_bound(labels: Seq<usize>, nb: Seq<usize>, c: usize)
    ensures
        label_count(labels, nb, c) <= nb.len(),
    decreases nb.len(),
{
    if nb.len() > 0 {
        lemma_count_bound(labels, nb.drop_last(), c);
    }
}

/// How many of the neighbors carry label `c`.
fn count_label(labels: &Vec<usize>, nb: &Vec<usize>, c: usize) -> (r: usize)
    requires
        forall|k: int| 0 <= k < nb@.len() ==> nb@[k] < labels@.len(),
    ensures
        r == label_count(labels@, nb@, c),
{
    let mut r: usize = 0;
    let mut k: usize = 0;
    assert(nb@.take(0) =~= Seq::<usize>::empty());
    while k < nb.len()
        invariant
            k <= nb@.len(),
            forall|j: int| 0 <= j < nb@.len() ==> nb@[j] < labels@.len(),
            r == label_count(labels@, nb@.take(k as int), c),
        decreases nb@.len() - k,
    {
        proof {
            lemma_count_bound(labels@, nb@.take(k as int), c);
        }
        assert(nb@.take(k + 1).drop_last() =~= nb@.take(k as int));
        if labels[nb[k]] == c {
            r = r + 1;
        }
        k = k + 1;
    }
    assert(nb@.take(nb@.len() as int) =~= nb@);
    r
}

/// The label a node with these neighbors adopts.
fn best_label(labels: &Vec<usize>, nb: &Vec<usize>, own: usize) -> (r: usize)
    requires
        nb@.len() > 0,
        forall|k: int| 0 <= k < nb@.len() ==> nb@[k] < labels@.len(),
    ensures
        r == adopted(labels@, nb@),
        exists|m: int| 0 <= m < nb@.len() && labels@[nb@[m] as int] == r,
{
    let ghost lv = labels@;
    let ghost nv = nb@;
    let mut bl = own;
    let mut bc: usize = 0;
    let mut k: usize = 0;
    while k < nb.len()
        invariant
            k <= nv.len(),
            lv == labels@,
            nv == nb@,
            forall|j: int| 0 <= j < nv.len() ==> nv[j] < lv.len(),
            k == 0 ==> bc == 0 && bl == own,
            k > 0 ==> bc == label_count(lv, nv, bl) && bc >= 1,
            k > 0 ==> exists|m: int| 0 <= m < k && lv[nv[m] as int] == bl,
            forall|m: int|
                0 <= m < k ==> {
                    let d = #[trigger] lv[nv[m] as int];
                    label_count(lv, nv, d) < bc || (label_count(lv, nv, d) == bc && bl <= d)
                },
        decreases nv.len() - k,
    {
        let c = labels[nb[k]];
        let cnt = count_label(labels, nb, c);
        proof {
            lemma_count_pos(lv, nv, k as int);
        }
        if cnt > bc || (cnt == bc && c < bl) {
            bl = c;
            bc = cnt;
        }
        assert(lv[nv[k as int] as int] == c);
        k = k + 1;
    }
    assert(is_best(lv, nv, bl));
    proof {
        lemma_best_unique(lv, nv, bl, adopted(lv, nv));
    }
    bl
}

/// Neighbor positions are node positions.
proof fn lemma_adjacency_below(edges: Seq<(usize, usize)>, n: nat, directed: bool)
    requires
        forall|i: int| 0 <= i < edges.len() ==> (#[trigger] edges[i]).0 < n && edges[i].1 < n,
    ensures
        forall|i: int, k: int|
            0 <= i < n && 0 <= k < adjacency_spec(edges, n, directed)[i].len() ==> #[trigger] adjacency_spec(
                edges,
                n,
                directed,
            )[i][k] < n,
{
    assert forall|i: int, k: int|
        0 <= i < n && 0 <= k < adjacency_spec(edges, n, directed)[i].len() implies #[trigger] adjacency_spec(
            edges,
            n,
            directed,
        )[i][k] < n by {
        lemma_neighbors_below(edges, n, i as usize, true);
        lemma_neighbors_below(edges, n, i as usize, false);
        lemma_add_new_below(seq![], neighbor_seq(edges, i as usize, true), n);
        lemma_add_new_below(
            super::add_new(seq![], neighbor_seq(edges, i as usize, true)),
            neighbor_seq(edges, i as usize, false),
            n,
        );
    }
}

proof fn lemma_add_new_below(acc: Seq<usize>, s: Seq<usize>, n: nat)
    requires
        forall|k: int| 0 <= k < acc.len() ==> #[trigger] acc[k] < n,
        forall|k: int| 0 <= k < s.len() ==> #[trigger] s[k] < n,
    ensures
        forall|k: int| 0 <= k < super::add_new(acc, s).len() ==> #[trigger] super::add_new(acc, s)[k] < n,
    decreases s.len(),
{
    if s.len() > 0 {
        let init = s.drop_last();
        assert forall|k: int| 0 <= k < init.len() implies #[trigger] init[k] < n by {
            assert(init[k] == s[k]);
        }
        lemma_add_new_below(acc, init, n);
        assert(s.last() == s[s.len() - 1]);
        let a = super::add_new(acc, init);
        let r = super::add_new(acc, s);
        assert forall|k: int| 0 <= k < r.len() implies #[trigger] r[k] < n by {
            if k < a.len() {
                assert(r[k] == a[k]);
            }
        }
    }
}

/// Runs one pass over the nodes in `order`.
fn run_round(adj: &Adjacency, labels: &mut Vec<usize>, order: &Vec<usize>, Ghost(n): Ghost<nat>) -> (changed: bool)
    requires
        old(labels)@.len() == n,
        adj.neighbors@.len() == n,
        forall|i: int, k: int| 0 <= i < n && 0 <= k < adj.neighbors@[i]@.len() ==> #[trigger] adj.neighbors@[i]@[k] < n,
        forall|k: int| 0 <= k < order@.len() ==> #[trigger] order@[k] < n,
        forall|k: int| 0 <= k < old(labels)@.len() ==> #[trigger] old(labels)@[k] < n,
    ensures
        (final(labels)@, changed) == round(adj.neighbors@.map_values(|v: Vec<usize>| v@), old(labels)@, order@),
        final(labels)@.len() == n,
        forall|k: int| 0 <= k < final(labels)@.len() ==> #[trigger] final(labels)@[k] < n,
{
    let ghost av = adj.neighbors@.map_values(|v: Vec<usize>| v@);
    let ghost l0 = labels@;
    let mut changed = false;
    let mut k: usize = 0;
    assert(order@.take(0) =~= Seq::<usize>::empty());
    while k < order.len()
        invariant
            k <= order@.len(),
            av == adj.neighbors@.map_values(|v: Vec<usize>| v@),
            labels@.len() == n,
            adj.neighbors@.len() == n,
            forall|i: int, j: int| 0 <= i < n && 0 <= j < adj.neighbors@[i]@.len() ==> #[trigger] adj.neighbors@[i]@[j] < n,
            forall|j: int| 0 <= j < order@.len() ==> #[trigger] order@[j] < n,
            forall|j: int| 0 <= j < labels@.len() ==> #[trigger] labels@[j] < n,
            (labels@, changed) == round(av, l0, order@.take(k as int)),
        decreases order@.len() - k,
    {
        assert(order@.take(k + 1).drop_last() =~= order@.take(k as int));
        assert(order@.take(k + 1).last() == order@[k as int]);
        let i = order[k];
        assert(order@[k as int] < n);
        let nb = &adj.neighbors[i];
        assert(av[i as int] == nb@);
        if nb.len() > 0 {
            let b = best_label(labels, nb, labels[i]);
            if b != labels[i] {
                labels.set(i, b);
                changed = true;
            }
        }
        k = k + 1;
    }
    assert(order@.take(order@.len() as int) =~= order@);
    changed
}

/// The clusters of a labelling, each a list of node ids.
fn labels_to_partition<'a>(labels: &Vec<usize>, ids: &'a Vec<String>) -> (r: Vec<Vec<&'a str>>)
    requires
        labels@.len() == ids@.len(),
        forall|k: int| 0 <= k < labels@.len() ==> #[trigger] labels@[k] < labels@.len(),
    ensures
        partition_views(r@) == partition_of(labels@, str_views(ids@)),
{
    let n = labels.len();
    let ghost lv = labels@;
    let ghost iv = str_views(ids@);
    let mut present: Vec<bool> = Vec::new();
    let mut v: usize = 0;
    while v < n
        invariant
            v <= n == lv.len(),
            present@.len() == v,
            forall|u: int| 0 <= u < v ==> !present@[u],
        decreases n - v,
    {
        present.push(false);
        v = v + 1;
    }
    let mut i: usize = 0;
    while i < n
        invariant
            i <= n == lv.len(),
            lv == labels@,
            present@.len() == n,
            forall|k: int| 0 <= k < n ==> #[trigger] lv[k] < n,
            forall|u: int| 0 <= u < n ==> present@[u] == lv.take(i as int).contains(u as usize),
        decreases n - i,
    {
        let l = labels[i];
        present.set(l, true);
        proof {
            assert forall|u: int| 0 <= u < n implies present@[u] == lv.take(i + 1).contains(u as usize) by {
                let a = lv.take(i + 1);
                let b = lv.take(i as int);
                if b.contains(u as usize) {
                    let x = choose|x: int| 0 <= x < b.len() && b[x] == u as usize;
                    assert(a[x] == u as usize);
                }
                if a.contains(u as usize) {
                    let x = choose|x: int| 0 <= x < a.len() && a[x] == u as usize;
                    if x < i {
                        assert(b[x] == u as usize);
                    }
                }
                assert(a[i as int] == l);
            }
        }
        i = i + 1;
    }
    assert(lv.take(n as int) =~= lv);
    let mut slot: Vec<usize> = Vec::new();
    let mut groups: Vec<Vec<&'a str>> = Vec::new();
    let mut v: usize = 0;
    while v < n
        invariant
            v <= n == lv.len(),
            present@.len() == n,
            forall|u: int| 0 <= u < n ==> present@[u] == lv.contains(u as usize),
            slot@.len() == v,
            groups@.len() == present_labels(lv, v as nat).len(),
            forall|g: int| 0 <= g < groups@.len() ==> (#[trigger] groups@[g])@.len() == 0,
            forall|u: int| 0 <= u < v && present@[u] ==> (#[trigger] slot@[u]) < groups@.len() && present_labels(lv, v as nat)[slot@[u] as int] == u,
            forall|g: int| 0 <= g < present_labels(lv, v as nat).len() ==> #[trigger] present_labels(lv, v as nat)[g] < v,
        decreases n - v,
    {
        let ghost pl = present_labels(lv, v as nat);
        if present[v] {
            slot.push(groups.len());
            groups.push(Vec::new());
            assert(present_labels(lv, (v + 1) as nat) == pl.push(v));
        } else {
            slot.push(0);
            assert(present_labels(lv, (v + 1) as nat) == pl);
        }
        v = v + 1;
    }
    let ghost pl = present_labels(lv, n as nat);
    proof {
        lemma_present_increasing(lv, n as nat);
    }
    let mut i: usize = 0;
    while i < n
        invariant
            i <= n == lv.len(),
            lv == labels@,
            iv == str_views(ids@),
            ids@.len() == n,
            forall|k: int| 0 <= k < n ==> #[trigger] lv[k] < n,
            forall|u: int| 0 <= u < n ==> present@[u] == lv.contains(u as usize),
            slot@.len() == n,
            groups@.len() == pl.len(),
            pl == present_labels(lv, n as nat),
            forall|a: int, b: int| 0 <= a < b < pl.len() ==> #[trigger] pl[a] < #[trigger] pl[b],
            forall|u: int| 0 <= u < n && present@[u] ==> (#[trigger] slot@[u]) < groups@.len() && pl[slot@[u] as int] == u,
            forall|g: int| 0 <= g < groups@.len() ==> (#[trigger] groups@[g])@.map_values(|s: &str| s@) == label_group(lv, iv, pl[g], i as nat),
        decreases n - i,
    {
        let l = labels[i];
        assert(lv.contains(l)) by {
            assert(lv[i as int] == l);
        }
        let g = slot[l];
        let ghost before = groups@;
        let id: &'a str = ids[i].as_str();
        groups[g].push(id);
        proof {
            assert forall|h: int| 0 <= h < groups@.len() implies (#[trigger] groups@[h])@.map_values(|s: &str| s@) == label_group(lv, iv, pl[h], (i + 1) as nat) by {
                if h == g {
                    assert(groups@[h]@.map_values(|s: &str| s@) =~= before[h]@.map_values(|s: &str| s@).push(iv[i as int]));
                } else {
                    assert(groups@[h] == before[h]);
                    if pl[h] == l {
                        if h < g {
                            assert(pl[h] < pl[g as int]);
                        } else {
                            assert(pl[g as int] < pl[h]);
                        }
                    }
                }
            }
        }
        i = i + 1;
    }
    assert(partition_views(groups@) =~= partition_of(lv, iv));
    groups
}

proof fn lemma_present_increasing(labels: Seq<usize>, v: nat)
    requires
        v <= usize::MAX,
    ensures
        forall|a: int, b: int| 0 <= a < b < present_labels(labels, v).len() ==> #[trigger] present_labels(labels, v)[a] < #[trigger] present_labels(labels, v)[b],
        forall|a: int| 0 <= a < present_labels(labels, v).len() ==> #[trigger] present_labels(labels, v)[a] < v,
    decreases v,
{
    if v > 0 {
        lemma_present_increasing(labels, (v - 1) as nat);
        let a = present_labels(labels, (v - 1) as nat);
        let r = present_labels(labels, v);
        assert forall|x: int| 0 <= x < r.len() implies #[trigger] r[x] < v by {
            if x < a.len() {
                assert(r[x] == a[x]);
            }
        }
        assert forall|x: int, y: int| 0 <= x < y < r.len() implies #[trigger] r[x] < #[trigger] r[y] by {
            if y < a.len() {
                assert(r[x] == a[x]);
                assert(r[y] == a[y]);
            } else {
                assert(r[x] == a[x]);
                assert(a[x] < v - 1);
                assert(r[y] == (v - 1) as usize);
            }
        }
    }
}

/// Label propagation clustering.
///
/// Every node starts with its own label (its position). In each pass the
/// nodes with neighbors, in turn, take the label most common among their
/// neighbors (the smallest on a tie), seeing the labels changed earlier in
/// the pass. Passes stop after one that changes nothing, or after
/// `max_iter`. Neighbors are the outgoing ones, and the incoming ones too
/// unless `directed`. Without a seed the nodes go in graph order; with one
/// they go in an order shuffled before each pass by a generator seeded from
/// it. The clusters (one per remaining label, by ascending label) become
/// subgraphs as [`clusters_to_depgraph`] makes them.
pub fn lpa(graph: &DepGraph, directed: bool, max_iter: usize, seed: Option<u64>) -> (r: DepGraph)
    requires
        all_nodes_spec(graph@).len() < index_limit(),
        collect_edges(graph@).len() < index_limit(),
    ensures
        exists|os: Seq<Seq<usize>>|
            {
                &&& os.len() == max_iter
                &&& forall|t: int| 0 <= t < os.len() ==> is_order(#[trigger] os[t], all_nodes_spec(graph@).len())
                &&& seed is None ==> forall|t: int| 0 <= t < os.len() ==> #[trigger] os[t] == iota(all_nodes_spec(graph@).len())
                &&& r@ == lpa_spec(graph@, directed, os)
            },
{
    let view = FlatGraphView::new(graph);
    let n = view.idx_to_id.len();
    assert(str_views(view.idx_to_id@).len() == view.idx_to_id@.len());
    let ghost nn = all_nodes_spec(graph@).len();
    assert(n == nn);
    if n == 0 {
        let r = DepGraph::default();
        let ghost os = Seq::new(max_iter as nat, |t: int| iota(0));
        assert(lpa_spec(graph@, directed, os) == r@);
        assert(os.len() == max_iter && forall|t: int| 0 <= t < os.len() ==> is_order(#[trigger] os[t], nn));
        return r;
    }
    let adj = Adjacency::new(&view, directed);
    let ghost av = adj.neighbors@.map_values(|v: Vec<usize>| v@);
    assert(view.nodes() == all_nodes_spec(graph@));
    assert(av == adjacency_spec(view.edges(), nn, directed));
    assert(av.len() == nn);
    assert(adj.neighbors@.len() == nn);
    proof {
        lemma_adjacency_below(view.edges(), nn, directed);
        assert forall|i: int, k: int| 0 <= i < nn && 0 <= k < adj.neighbors@[i]@.len() implies #[trigger] adj.neighbors@[i]@[k] < nn by {
            assert(av[i] == adj.neighbors@[i]@);
            assert(adj.neighbors@[i]@[k] == adjacency_spec(view.edges(), nn, directed)[i][k]);
        }
    }
    let mut labels: Vec<usize> = Vec::new();
    let mut order: Vec<usize> = Vec::new();
    let mut i: usize = 0;
    while i < n
        invariant
            i <= n,
            labels@ == iota(i as nat),
            order@ == iota(i as nat),
        decreases n - i,
    {
        labels.push(i);
        order.push(i);
        i = i + 1;
        assert(labels@ =~= iota(i as nat));
        assert(order@ =~= iota(i as nat));
    }
    let ghost l0 = labels@;
    let mut rng = match seed {
        Some(s) => Some(seeded_rng(s)),
        None => None,
    };
    let ghost mut drawn: Seq<Seq<usize>> = Seq::empty();
    let mut t: usize = 0;
    let mut done = false;
    assert forall|tail: Seq<Seq<usize>>| propagate(av, l0, drawn + tail) == propagate(av, labels@, tail) by {
        assert(drawn + tail =~= tail);
    }
    while t < max_iter && !done
        invariant
            t <= max_iter,
            n == nn,
            labels@.len() == n,
            adj.neighbors@.len() == n,
            av == adj.neighbors@.map_values(|v: Vec<usize>| v@),
            av == adjacency_spec(view.edges(), nn, directed),
            forall|i: int, k: int| 0 <= i < n && 0 <= k < adj.neighbors@[i]@.len() ==> #[trigger] adj.neighbors@[i]@[k] < n,
            forall|k: int| 0 <= k < labels@.len() ==> #[trigger] labels@[k] < n,
            is_order(order@, nn),
            seed is None ==> order@ == iota(nn),
            seed is None <==> rng is None,
            drawn.len() == t,
            forall|u: int| 0 <= u < t ==> is_order(#[trigger] drawn[u], nn),
            seed is None ==> forall|u: int| 0 <= u < t ==> #[trigger] drawn[u] == iota(nn),
            !done ==> forall|tail: Seq<Seq<usize>>| #[trigger] propagate(av, l0, drawn + tail) == propagate(av, labels@, tail),
            done ==> forall|tail: Seq<Seq<usize>>| #[trigger] propagate(av, l0, drawn + tail) == labels@,
        decreases max_iter - t, if done { 0int } else { 1int },
    {
        match &mut rng {
            Some(g) => {
                shuffle_order(&mut order, g);
            },
            None => {},
        }
        proof {
            lemma_order_below(order@, nn);
        }
        let ghost before = labels@;
        let changed = run_round(&adj, &mut labels, &order, Ghost(nn));
        proof {
            let o = order@;
            assert forall|tail: Seq<Seq<usize>>| #[trigger] propagate(av, l0, drawn.push(o) + tail) == (if changed {
                propagate(av, labels@, tail)
            } else {
                labels@
            }) by {
                assert(drawn.push(o) + tail =~= drawn + (seq![o] + tail));
                assert(propagate(av, l0, drawn + (seq![o] + tail)) == propagate(av, before, seq![o] + tail));
                assert((seq![o] + tail).drop_first() =~= tail);
            }
            drawn = drawn.push(o);
        }
        if !changed {
            done = true;
        }
        t = t + 1;
    }
    let ghost pad = Seq::new((max_iter - t) as nat, |u: int| iota(nn));
    let ghost os = drawn + pad;
    assert(propagate(av, l0, os) == labels@) by {
        if !done {
            assert(pad =~= Seq::<Seq<usize>>::empty());
            assert(propagate(av, labels@, pad) == labels@);
        }
    }
    let partition = labels_to_partition(&labels, &view.idx_to_id);
    let r = clusters_to_depgraph(graph, partition.as_slice());
    assert(l0 == iota(nn));
    assert(forall|u: int| 0 <= u < os.len() ==> is_order(#[trigger] os[u], nn)) by {
        assert forall|u: int| 0 <= u < os.len() implies is_order(#[trigger] os[u], nn) by {
            if u >= t {
                assert(os[u] == pad[u - t]);
            } else {
                assert(os[u] == drawn[u]);
            }
        }
    }
    assert(seed is None ==> forall|u: int| 0 <= u < os.len() ==> #[trigger] os[u] == iota(nn)) by {
        if seed is None {
            assert forall|u: int| 0 <= u < os.len() implies #[trigger] os[u] == iota(nn) by {
                if u >= t {
                    assert(os[u] == pad[u - t]);
                } else {
                    assert(os[u] == drawn[u]);
                }
            }
        }
    }
    assert(r@ == lpa_spec(graph@, directed, os));
    r
}

/// The elements of an order of `0 .. n` are below `n`.
proof fn lemma_order_below(o: Seq<usize>, n: nat)
    requires
        is_order(o, n),
    ensures
        forall|k: int| 0 <= k < o.len() ==> #[trigger] o[k] < n,
{
    assert forall|k: int| 0 <= k < o.len() implies #[trigger] o[k] < n by {
        o.to_multiset_ensures();
        iota(n).to_multiset_ensures();
        assert(o.contains(o[k]));
        assert(o.to_multiset().count(o[k]) > 0);
        assert(iota(n).to_multiset().count(o[k]) > 0);
        assert(iota(n).contains(o[k]));
        let j = choose|j: int| 0 <= j < iota(n).len() && iota(n)[j] == o[k];
    }
}

} // verus!
