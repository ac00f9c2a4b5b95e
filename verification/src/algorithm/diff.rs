//! Structural diff between two graphs: which nodes and edges were added,
//! removed, changed or moved.
use indexmap::IndexMap;
use vstd::prelude::*;

use crate::graph::{adjacency, node_views, Attrs, DepGraph, Edge, EdgeView, GraphView, NodeInfo, NodeView};
use crate::maps::{
    find_key, has_key, insert_entry, lemma_find_key, node_entries, node_map_get_index, node_map_len, str_entries,
    str_map_get, str_map_get_index, str_map_len, value_of,
};

verus! {

/// Status of a node or edge in a graph diff.
#[derive(Debug, Clone, Copy, PartialEq, Eq, Structural)]
pub enum DiffStatus {
    Added,
    Removed,
    Changed,
    Moved,
    Unchanged,
}

/// A node with its diff status.
#[derive(Debug)]
pub struct DiffNode {
    pub status: DiffStatus,
    pub info: NodeInfo,
}

/// An edge with its diff status.
#[derive(Debug)]
pub struct DiffEdge {
    pub status: DiffStatus,
    pub edge: Edge,
}

/// Result of diffing two dependency graphs.
#[derive(Debug)]
pub struct GraphDiff {
    pub nodes: IndexMap<String, DiffNode>,
    pub edges: Vec<DiffEdge>,
}

/// Attribute maps equal as maps: same size, and each key of `a` holds the
/// same value in `b`.
pub open spec fn attrs_eq(a: Attrs, b: Attrs) -> bool {
    a.len() == b.len() && forall|i: int| 0 <= i < a.len() ==> value_of(b, #[trigger] a[i].0) == Some(a[i].1)
}

/// Node content equality: label, type and attributes.
pub open spec fn node_same(a: NodeView, b: NodeView) -> bool {
    a.label == b.label && a.node_type == b.node_type && attrs_eq(a.attrs, b.attrs)
}

/// Edge content equality: label and attributes.
pub open spec fn edge_same(a: EdgeView, b: EdgeView) -> bool {
    a.label == b.label && attrs_eq(a.attrs, b.attrs)
}

fn attrs_equal(a: &IndexMap<String, String>, b: &IndexMap<String, String>) -> (r: bool)
    ensures
        r == attrs_eq(str_entries(*a), str_entries(*b)),
{
    let n = str_map_len(a);
    if n != str_map_len(b) {
        return false;
    }
    let mut i: usize = 0;
    while i < n
        invariant
            i <= n == str_entries(*a).len(),
            forall|k: int| 0 <= k < i ==> value_of(str_entries(*b), #[trigger] str_entries(*a)[k].0) == Some(str_entries(*a)[k].1),
        decreases n - i,
    {
        let (k, v) = str_map_get_index(a, i).unwrap();
        match str_map_get(b, k.as_str()) {
            Some(w) => {
                if !crate::text::str_eq(v.as_str(), w.as_str()) {
                    return false;
                }
            },
            None => {
                return false;
            },
        }
        i = i + 1;
    }
    true
}

fn opt_eq(a: &Option<String>, b: &Option<String>) -> (r: bool)
    ensures
        r == (crate::graph::opt_str(*a) == crate::graph::opt_str(*b)),
{
    match (a, b) {
        (Some(x), Some(y)) => crate::text::str_eq(x.as_str(), y.as_str()),
        (None, None) => true,
        _ => false,
    }
}

fn node_eq(a: &NodeInfo, b: &NodeInfo) -> (r: bool)
    ensures
        r == node_same(a@, b@),
{
    crate::text::str_eq(a.label.as_str(), b.label.as_str()) && opt_eq(&a.node_type, &b.node_type) && attrs_equal(&a.attrs, &b.attrs)
}

fn edge_eq(a: &Edge, b: &Edge) -> (r: bool)
    ensures
        r == edge_same(a@, b@),
{
    opt_eq(&a.label, &b.label) && attrs_equal(&a.attrs, &b.attrs)
}

} // verus!

verus! {

impl View for DiffNode {
    type V = (DiffStatus, NodeView);

    open spec fn view(&self) -> (DiffStatus, NodeView) {
        (self.status, self.info@)
    }
}

impl View for DiffEdge {
    type V = (DiffStatus, EdgeView);

    open spec fn view(&self) -> (DiffStatus, EdgeView) {
        (self.status, self.edge@)
    }
}

/// A diff as values: node entries with status and node data, and edges
/// with status.
pub struct GraphDiffView {
    pub nodes: Seq<(Seq<char>, (DiffStatus, NodeView))>,
    pub edges: Seq<(DiffStatus, EdgeView)>,
}

impl View for GraphDiff {
    type V = GraphDiffView;

    open spec fn view(&self) -> GraphDiffView {
        GraphDiffView {
            nodes: crate::maps::diff_entries(self.nodes).map_values(|e: (Seq<char>, DiffNode)| (e.0, e.1@)),
            edges: self.edges@.map_values(|d: DiffEdge| d@),
        }
    }
}

/// Each edge target with its sources, in order of first appearance.
pub open spec fn incoming(es: Seq<EdgeView>) -> Seq<(Seq<char>, Seq<Seq<char>>)> {
    adjacency(es.map_values(|e: EdgeView| crate::algorithm::reverse::flip(e)))
}

/// Whether node `id` has exactly one parent before and after, and they differ.
pub open spec fn moved(bi: Seq<(Seq<char>, Seq<Seq<char>>)>, ai: Seq<(Seq<char>, Seq<Seq<char>>)>, id: Seq<char>) -> bool {
    match (value_of(bi, id), value_of(ai, id)) {
        (Some(bp), Some(ap)) => bp.len() == 1 && ap.len() == 1 && bp[0] != ap[0],
        _ => false,
    }
}

/// The status of a node of the after graph.
pub open spec fn after_status(
    bn: Seq<(Seq<char>, NodeView)>,
    id: Seq<char>,
    info: NodeView,
    bi: Seq<(Seq<char>, Seq<Seq<char>>)>,
    ai: Seq<(Seq<char>, Seq<Seq<char>>)>,
) -> DiffStatus {
    match value_of(bn, id) {
        Some(b) => if !node_same(b, info) {
            DiffStatus::Changed
        } else if moved(bi, ai, id) {
            DiffStatus::Moved
        } else {
            DiffStatus::Unchanged
        },
        None => DiffStatus::Added,
    }
}

/// The before-only nodes, marked removed, in order.
pub open spec fn removed_nodes(bn: Seq<(Seq<char>, NodeView)>, an: Seq<(Seq<char>, NodeView)>) -> Seq<(Seq<char>, (DiffStatus, NodeView))>
    decreases bn.len(),
{
    if bn.len() == 0 {
        seq![]
    } else {
        let rest = removed_nodes(bn.drop_last(), an);
        if has_key(an, bn.last().0) {
            rest
        } else {
            rest.push((bn.last().0, (DiffStatus::Removed, bn.last().1)))
        }
    }
}

/// The diffed nodes: every after node with its status, then the removed ones.
pub open spec fn diff_nodes(
    bn: Seq<(Seq<char>, NodeView)>,
    an: Seq<(Seq<char>, NodeView)>,
    be: Seq<EdgeView>,
    ae: Seq<EdgeView>,
) -> Seq<(Seq<char>, (DiffStatus, NodeView))> {
    an.map_values(|e: (Seq<char>, NodeView)| (e.0, (after_status(bn, e.0, e.1, incoming(be), incoming(ae)), e.1)))
        + removed_nodes(bn, an)
}

/// Before edges grouped by (from, to), groups in order of first appearance.
pub type EdgePool = Seq<((Seq<char>, Seq<char>), Seq<EdgeView>)>;

pub open spec fn find_group(pool: EdgePool, key: (Seq<char>, Seq<char>)) -> int
    decreases pool.len(),
{
    if pool.len() == 0 {
        -1
    } else if pool.last().0 == key && find_group(pool.drop_last(), key) < 0 {
        pool.len() - 1
    } else {
        find_group(pool.drop_last(), key)
    }
}

pub open spec fn group_edges(es: Seq<EdgeView>) -> EdgePool
    decreases es.len(),
{
    if es.len() == 0 {
        seq![]
    } else {
        let pool = group_edges(es.drop_last());
        let e = es.last();
        let k = find_group(pool, (e.from, e.to));
        if k >= 0 {
            pool.update(k, (pool[k].0, pool[k].1.push(e)))
        } else {
            pool.push(((e.from, e.to), seq![e]))
        }
    }
}

/// `v` without its `i`-th element, the last one taking its place.
pub open spec fn swap_out(v: Seq<EdgeView>, i: int) -> Seq<EdgeView> {
    v.update(i, v.last()).drop_last()
}

/// The first edge of `v` with the same content as `e`, or -1.
pub open spec fn first_same(v: Seq<EdgeView>, e: EdgeView) -> int
    decreases v.len(),
{
    if v.len() == 0 {
        -1
    } else if first_same(v.drop_last(), e) >= 0 {
        first_same(v.drop_last(), e)
    } else if edge_same(v.last(), e) {
        v.len() - 1
    } else {
        -1
    }
}

/// Match one after edge against the unmatched before edges: an equal one
/// with the same endpoints makes it unchanged, another one with the same
/// endpoints makes it changed; either is used up.  Otherwise it is added.
pub open spec fn match_edge(pool: EdgePool, e: EdgeView) -> (DiffStatus, EdgePool) {
    let k = find_group(pool, (e.from, e.to));
    if k < 0 {
        (DiffStatus::Added, pool)
    } else {
        let v = pool[k].1;
        let p = first_same(v, e);
        if p >= 0 {
            (DiffStatus::Unchanged, pool.update(k, (pool[k].0, swap_out(v, p))))
        } else if v.len() > 0 {
            (DiffStatus::Changed, pool.update(k, (pool[k].0, swap_out(v, 0))))
        } else {
            (DiffStatus::Added, pool)
        }
    }
}

pub open spec fn match_edges(pool: EdgePool, es: Seq<EdgeView>) -> (Seq<(DiffStatus, EdgeView)>, EdgePool)
    decreases es.len(),
{
    if es.len() == 0 {
        (seq![], pool)
    } else {
        let (out, p) = match_edges(pool, es.drop_last());
        let (st, p2) = match_edge(p, es.last());
        (out.push((st, es.last())), p2)
    }
}

/// The before edges left unmatched, marked removed, group by group.
pub open spec fn leftover(pool: EdgePool) -> Seq<(DiffStatus, EdgeView)>
    decreases pool.len(),
{
    if pool.len() == 0 {
        seq![]
    } else {
        leftover(pool.drop_last()) + pool.last().1.map_values(|e: EdgeView| (DiffStatus::Removed, e))
    }
}

/// The diffed edges: every after edge with its status, then the removed ones.
pub open spec fn diff_edges(be: Seq<EdgeView>, ae: Seq<EdgeView>) -> Seq<(DiffStatus, EdgeView)> {
    let (out, pool) = match_edges(group_edges(be), ae);
    out + leftover(pool)
}

} // verus!

verus! {

/// Unmatched before edges sharing one (from, to) pair.
struct EdgeGroup {
    from: String,
    to: String,
    edges: Vec<Edge>,
}

spec fn pool_view(pool: Seq<EdgeGroup>) -> EdgePool {
    pool.map_values(|g: EdgeGroup| ((g.from@, g.to@), crate::graph::edge_views(g.edges@)))
}

proof fn lemma_find_group(pool: EdgePool, key: (Seq<char>, Seq<char>))
    ensures
        -1 <= find_group(pool, key) < pool.len(),
        find_group(pool, key) >= 0 ==> pool[find_group(pool, key)].0 == key,
        forall|j: int| 0 <= j < pool.len() && (find_group(pool, key) < 0 || j < find_group(pool, key)) ==> #[trigger] pool[j].0 != key,
    decreases pool.len(),
{
    if pool.len() > 0 {
        lemma_find_group(pool.drop_last(), key);
        assert forall|j: int| 0 <= j < pool.len() - 1 implies pool[j] == pool.drop_last()[j] by {}
    }
}

proof fn lemma_first_same(v: Seq<EdgeView>, e: EdgeView)
    ensures
        -1 <= first_same(v, e) < v.len(),
        first_same(v, e) >= 0 ==> edge_same(v[first_same(v, e)], e),
        forall|j: int| 0 <= j < v.len() && (first_same(v, e) < 0 || j < first_same(v, e)) ==> !edge_same(#[trigger] v[j], e),
    decreases v.len(),
{
    if v.len() > 0 {
        lemma_first_same(v.drop_last(), e);
        assert forall|j: int| 0 <= j < v.len() - 1 implies v[j] == v.drop_last()[j] by {}
    }
}

fn find_group_index(pool: &Vec<EdgeGroup>, from: &str, to: &str) -> (r: Option<usize>)
    ensures
        match r {
            Some(k) => k as int == find_group(pool_view(pool@), (from@, to@)),
            None => find_group(pool_view(pool@), (from@, to@)) < 0,
        },
{
    proof {
        lemma_find_group(pool_view(pool@), (from@, to@));
    }
    let mut k: usize = 0;
    while k < pool.len()
        invariant
            k <= pool@.len(),
            -1 <= find_group(pool_view(pool@), (from@, to@)) < pool@.len(),
            find_group(pool_view(pool@), (from@, to@)) >= 0 ==> pool_view(pool@)[find_group(pool_view(pool@), (from@, to@))].0 == (from@, to@),
            forall|j: int| 0 <= j < k ==> #[trigger] pool_view(pool@)[j].0 != (from@, to@),
            forall|j: int| 0 <= j < pool@.len() && (find_group(pool_view(pool@), (from@, to@)) < 0 || j < find_group(pool_view(pool@), (from@, to@))) ==> #[trigger] pool_view(pool@)[j].0 != (from@, to@),
        decreases pool@.len() - k,
    {
        assert(pool_view(pool@)[k as int].0 == (pool@[k as int].from@, pool@[k as int].to@));
        if crate::text::str_eq(pool[k].from.as_str(), from) && crate::text::str_eq(pool[k].to.as_str(), to) {
            return Some(k);
        }
        k = k + 1;
    }
    None
}

fn find_same(v: &Vec<Edge>, e: &Edge) -> (r: Option<usize>)
    ensures
        match r {
            Some(p) => p as int == first_same(crate::graph::edge_views(v@), e@),
            None => first_same(crate::graph::edge_views(v@), e@) < 0,
        },
{
    let ghost ev = crate::graph::edge_views(v@);
    proof {
        lemma_first_same(ev, e@);
    }
    let mut k: usize = 0;
    while k < v.len()
        invariant
            k <= v@.len(),
            ev == crate::graph::edge_views(v@),
            -1 <= first_same(ev, e@) < v@.len(),
            first_same(ev, e@) >= 0 ==> edge_same(ev[first_same(ev, e@)], e@),
            forall|j: int| 0 <= j < k ==> !edge_same(#[trigger] ev[j], e@),
            forall|j: int| 0 <= j < v@.len() && (first_same(ev, e@) < 0 || j < first_same(ev, e@)) ==> !edge_same(#[trigger] ev[j], e@),
        decreases v@.len() - k,
    {
        assert(ev[k as int] == v@[k as int]@);
        if edge_eq(&v[k], e) {
            return Some(k);
        }
        k = k + 1;
    }
    None
}

/// Each edge target with its sources, in order of first appearance.
fn build_incoming(es: &Vec<Edge>) -> (r: IndexMap<String, Vec<String>>)
    ensures
        crate::maps::adj_entries(r) == incoming(crate::graph::edge_views(es@)),
{
    let ghost fl = crate::graph::edge_views(es@).map_values(|e: EdgeView| crate::algorithm::reverse::flip(e));
    let mut adj = crate::maps::adj_map_new();
    let mut i: usize = 0;
    assert(fl.take(0) =~= Seq::<EdgeView>::empty());
    while i < es.len()
        invariant
            i <= es@.len(),
            fl == crate::graph::edge_views(es@).map_values(|e: EdgeView| crate::algorithm::reverse::flip(e)),
            crate::maps::adj_entries(adj) == adjacency(fl.take(i as int)),
        decreases es@.len() - i,
    {
        let e = &es[i];
        assert(fl.take(i + 1).drop_last() =~= fl.take(i as int));
        assert(fl.take(i + 1).last() == crate::algorithm::reverse::flip(e@));
        proof {
            lemma_find_key(crate::maps::adj_entries(adj), e.to@);
        }
        match crate::maps::adj_map_get_index_of(&adj, e.to.as_str()) {
            Some(j) => {
                crate::maps::adj_map_push_at(&mut adj, j, e.from.clone());
            },
            None => {
                let mut v: Vec<String> = Vec::new();
                v.push(e.from.clone());
                assert(crate::maps::str_views(v@) =~= seq![e.from@]);
                crate::maps::adj_map_insert(&mut adj, e.to.clone(), v);
            },
        }
        i = i + 1;
    }
    assert(fl.take(es@.len() as int) =~= fl);
    adj
}

/// The single parent of `id` in an incoming map, if it has exactly one.
fn sole_parent<'a>(inc: &'a IndexMap<String, Vec<String>>, id: &str) -> (r: Option<&'a String>)
    ensures
        match value_of(crate::maps::adj_entries(*inc), id@) {
            Some(ps) => if ps.len() == 1 { r matches Some(p) && p@ == ps[0] } else { r is None },
            None => r is None,
        },
{
    proof {
        lemma_find_key(crate::maps::adj_entries(*inc), id@);
    }
    match crate::maps::adj_map_get_index_of(inc, id) {
        Some(j) => {
            let (_, ps) = crate::maps::adj_map_get_index(inc, j).unwrap();
            if ps.len() == 1 {
                assert(crate::maps::str_views(ps@)[0] == ps@[0]@);
                Some(&ps[0])
            } else {
                None
            }
        },
        None => None,
    }
}

} // verus!

verus! {

/// A node lookup through node views is the lookup's view.
pub proof fn lemma_value_of_views_pub(s: Seq<(Seq<char>, NodeInfo)>, k: Seq<char>)
    ensures
        value_of(node_views(s), k) == (match value_of(s, k) {
            Some(v) => Some(v@),
            None => None::<NodeView>,
        }),
{
    lemma_value_of_views(s, k);
}

proof fn lemma_value_of_views(s: Seq<(Seq<char>, NodeInfo)>, k: Seq<char>)
    ensures
        value_of(node_views(s), k) == (match value_of(s, k) {
            Some(v) => Some(v@),
            None => None::<NodeView>,
        }),
{
    let t = node_views(s);
    assert forall|i: int| 0 <= i < s.len() implies s[i].0 == t[i].0 by {}
    crate::maps::lemma_find_key_same_keys(s, t, k);
    lemma_find_key(s, k);
}

proof fn lemma_removed_from(bn: Seq<(Seq<char>, NodeView)>, an: Seq<(Seq<char>, NodeView)>)
    ensures
        forall|q: int| 0 <= q < removed_nodes(bn, an).len() ==> exists|w: int|
            0 <= w < bn.len() && bn[w].0 == #[trigger] removed_nodes(bn, an)[q].0,
        removed_nodes(bn, an).len() <= bn.len(),
    decreases bn.len(),
{
    if bn.len() > 0 {
        let init = bn.drop_last();
        lemma_removed_from(init, an);
        let r = removed_nodes(bn, an);
        let r0 = removed_nodes(init, an);
        assert forall|q: int| 0 <= q < r.len() implies exists|w: int| 0 <= w < bn.len() && bn[w].0 == #[trigger] r[q].0 by {
            if q < r0.len() {
                assert(r[q] == r0[q]);
                let w = choose|w: int| 0 <= w < init.len() && init[w].0 == #[trigger] r0[q].0;
                assert(bn[w].0 == r[q].0);
            } else {
                assert(bn[bn.len() - 1].0 == r[q].0);
            }
        }
    }
}

/// Compute the difference between two dependency graphs.
///
/// Nodes are matched by id and edges by (from, to).  Node content compares
/// label, type and attributes; edge content compares label and attributes.
/// A node with the same content whose single parent changed is moved.
pub fn diff(before: &DepGraph, after: &DepGraph) -> (r: GraphDiff)
    ensures
        r@ == (GraphDiffView {
            nodes: diff_nodes(crate::graph::all_nodes_spec(before@), crate::graph::all_nodes_spec(after@),
                crate::graph::collect_edges(before@), crate::graph::collect_edges(after@)),
            edges: diff_edges(crate::graph::collect_edges(before@), crate::graph::collect_edges(after@)),
        }),
{
    let bn = before.all_nodes();
    let an = after.all_nodes();
    let be = before.all_edges();
    let ae = after.all_edges();
    let bi = build_incoming(&be);
    let ai = build_incoming(&ae);
    let ghost bnv = node_views(node_entries(bn));
    let ghost anv = node_views(node_entries(an));
    let ghost bev = crate::graph::edge_views(be@);
    let ghost aev = crate::graph::edge_views(ae@);
    let ghost bin = incoming(bev);
    let ghost ain = incoming(aev);
    let ghost after_part = anv.map_values(|e: (Seq<char>, NodeView)| (e.0, (after_status(bnv, e.0, e.1, bin, ain), e.1)));
    let mut nodes = crate::maps::diff_map_new();
    let na = node_map_len(&an);
    let mut i: usize = 0;
    assert(after_part.take(0) =~= Seq::<(Seq<char>, (DiffStatus, NodeView))>::empty());
    while i < na
        invariant
            i <= na == anv.len() == node_entries(an).len(),
            anv == node_views(node_entries(an)),
            bnv == node_views(node_entries(bn)),
            bin == incoming(bev),
            ain == incoming(aev),
            crate::maps::adj_entries(bi) == bin,
            crate::maps::adj_entries(ai) == ain,
            after_part == anv.map_values(|e: (Seq<char>, NodeView)| (e.0, (after_status(bnv, e.0, e.1, bin, ain), e.1))),
            crate::maps::diff_entries(nodes).map_values(|e: (Seq<char>, DiffNode)| (e.0, e.1@)) == after_part.take(i as int),
            crate::maps::diff_entries(nodes).len() == i,
            forall|a: int, b: int| 0 <= a < i && 0 <= b < na && a != b ==> #[trigger] anv[a].0 != #[trigger] anv[b].0,
        decreases na - i,
    {
        let (id, info) = node_map_get_index(&an, i).unwrap();
        assert(anv[i as int] == (id@, info@));
        assert forall|b: int| 0 <= b < na && b != i implies #[trigger] anv[b].0 != id@ by {
            assert(anv[b].0 == node_entries(an)[b].0);
        }
        proof {
            lemma_value_of_views(node_entries(bn), id@);
        }
        let status = match crate::maps::node_map_get(&bn, id.as_str()) {
            Some(b) => {
                if !node_eq(b, info) {
                    DiffStatus::Changed
                } else {
                    match (sole_parent(&bi, id.as_str()), sole_parent(&ai, id.as_str())) {
                        (Some(p), Some(q)) => {
                            if !crate::text::str_eq(p.as_str(), q.as_str()) {
                                DiffStatus::Moved
                            } else {
                                DiffStatus::Unchanged
                            }
                        },
                        _ => DiffStatus::Unchanged,
                    }
                }
            },
            None => DiffStatus::Added,
        };
        assert(status == after_status(bnv, id@, info@, bin, ain));
        let ghost ents = crate::maps::diff_entries(nodes);
        proof {
            lemma_find_key(ents, id@);
            if find_key(ents, id@) >= 0 {
                let q = find_key(ents, id@);
                assert(ents.map_values(|e: (Seq<char>, DiffNode)| (e.0, e.1@))[q].0 == ents[q].0);
                assert(after_part.take(i as int)[q].0 == anv[q].0);
            }
        }
        let dn = DiffNode { status, info: info.duplicate() };
        crate::maps::diff_map_insert(&mut nodes, id.clone(), dn);
        i = i + 1;
        assert(crate::maps::diff_entries(nodes) =~= ents.push((id@, dn)));
        assert(crate::maps::diff_entries(nodes).map_values(|e: (Seq<char>, DiffNode)| (e.0, e.1@)) =~= after_part.take(i as int));
    }
    assert(after_part.take(na as int) =~= after_part);
    let nb = node_map_len(&bn);
    let mut j: usize = 0;
    assert(bnv.take(0) =~= Seq::<(Seq<char>, NodeView)>::empty());
    while j < nb
        invariant
            j <= nb == bnv.len() == node_entries(bn).len(),
            na == anv.len(),
            anv == node_views(node_entries(an)),
            bnv == node_views(node_entries(bn)),
            crate::maps::diff_entries(nodes).map_values(|e: (Seq<char>, DiffNode)| (e.0, e.1@)) == after_part + removed_nodes(bnv.take(j as int), anv),
            after_part.len() == na,
            forall|q: int| 0 <= q < na ==> #[trigger] after_part[q].0 == anv[q].0,
            forall|a: int, b: int| 0 <= a < j && 0 <= b < nb && a != b ==> #[trigger] bnv[a].0 != #[trigger] bnv[b].0,
        decreases nb - j,
    {
        let (id, info) = node_map_get_index(&bn, j).unwrap();
        assert(bnv[j as int] == (id@, info@));
        assert forall|b: int| 0 <= b < nb && b != j implies #[trigger] bnv[b].0 != id@ by {
            assert(bnv[b].0 == node_entries(bn)[b].0);
        }
        assert(bnv.take(j + 1).drop_last() =~= bnv.take(j as int));
        assert(bnv.take(j + 1).last() == bnv[j as int]);
        proof {
            crate::graph::lemma_node_views_keys(node_entries(an));
        }
        if !crate::maps::node_map_contains_key(&an, id.as_str()) {
            let ghost ents = crate::maps::diff_entries(nodes);
            let ghost ev = ents.map_values(|e: (Seq<char>, DiffNode)| (e.0, e.1@));
            proof {
                lemma_removed_from(bnv.take(j as int), anv);
                lemma_find_key(ents, id@);
                if find_key(ents, id@) >= 0 {
                    let q = find_key(ents, id@);
                    assert(ev[q].0 == ents[q].0);
                    if q < na {
                        assert(anv[q].0 == id@);
                        assert(crate::maps::has_key(anv, id@));
                    } else {
                        let rr = removed_nodes(bnv.take(j as int), anv);
                        assert(ev == after_part + rr);
                        assert(ev.len() == ents.len());
                        assert(q - na < rr.len());
                        assert(ev[q] == rr[q - na]);
                        let w = choose|w: int| 0 <= w < bnv.take(j as int).len() && bnv.take(j as int)[w].0 == #[trigger] rr[q - na].0;
                        assert(bnv[w].0 == id@);
                    }
                }
            }
            let dn = DiffNode { status: DiffStatus::Removed, info: info.duplicate() };
            crate::maps::diff_map_insert(&mut nodes, id.clone(), dn);
            assert(crate::maps::diff_entries(nodes) =~= ents.push((id@, dn)));
            assert(crate::maps::diff_entries(nodes).map_values(|e: (Seq<char>, DiffNode)| (e.0, e.1@)) =~= ev.push((id@, (DiffStatus::Removed, info@))));
        }
        j = j + 1;
    }
    assert(bnv.take(nb as int) =~= bnv);
    let edges = diff_edge_list(&be, &ae);
    GraphDiff { nodes, edges }
}

fn empty_group() -> (g: EdgeGroup)
    ensures
        g.from@ == Seq::<char>::empty(),
        g.to@ == Seq::<char>::empty(),
        g.edges@ == Seq::<Edge>::empty(),
{
    EdgeGroup { from: String::new(), to: String::new(), edges: Vec::new() }
}

fn diff_edge_list(be: &Vec<Edge>, ae: &Vec<Edge>) -> (r: Vec<DiffEdge>)
    ensures
        r@.map_values(|d: DiffEdge| d@) == diff_edges(crate::graph::edge_views(be@), crate::graph::edge_views(ae@)),
{
    let ghost bev = crate::graph::edge_views(be@);
    let ghost aev = crate::graph::edge_views(ae@);
    let mut pool: Vec<EdgeGroup> = Vec::new();
    let mut i: usize = 0;
    assert(bev.take(0) =~= Seq::<EdgeView>::empty());
    assert(pool_view(pool@) =~= group_edges(bev.take(0)));
    while i < be.len()
        invariant
            i <= be@.len(),
            bev == crate::graph::edge_views(be@),
            pool_view(pool@) == group_edges(bev.take(i as int)),
        decreases be@.len() - i,
    {
        let e = &be[i];
        assert(bev.take(i + 1).drop_last() =~= bev.take(i as int));
        assert(bev.take(i + 1).last() == e@);
        proof {
            lemma_find_group(pool_view(pool@), (e.from@, e.to@));
        }
        let ghost p0 = pool@;
        match find_group_index(&pool, e.from.as_str(), e.to.as_str()) {
            Some(k) => {
                let mut g = empty_group();
                pool.set_and_swap(k, &mut g);
                let ghost gev = crate::graph::edge_views(g.edges@);
                let d = e.duplicate();
                g.edges.push(d);
                assert(crate::graph::edge_views(g.edges@) =~= gev.push(e@));
                pool.set_and_swap(k, &mut g);
                assert(pool_view(pool@) =~= pool_view(p0).update(k as int, (pool_view(p0)[k as int].0, pool_view(p0)[k as int].1.push(e@))));
            },
            None => {
                let mut v: Vec<Edge> = Vec::new();
                v.push(e.duplicate());
                let g = EdgeGroup { from: e.from.clone(), to: e.to.clone(), edges: v };
                assert(crate::graph::edge_views(v@) =~= seq![e@]);
                pool.push(g);
                assert(pool_view(pool@) =~= pool_view(p0).push(((e.from@, e.to@), seq![e@])));
            },
        }
        i = i + 1;
    }
    assert(bev.take(be@.len() as int) =~= bev);
    let mut out: Vec<DiffEdge> = Vec::new();
    let mut j: usize = 0;
    assert(aev.take(0) =~= Seq::<EdgeView>::empty());
    while j < ae.len()
        invariant
            j <= ae@.len(),
            aev == crate::graph::edge_views(ae@),
            (out@.map_values(|d: DiffEdge| d@), pool_view(pool@)) == match_edges(group_edges(bev), aev.take(j as int)),
        decreases ae@.len() - j,
    {
        let e = &ae[j];
        assert(aev.take(j + 1).drop_last() =~= aev.take(j as int));
        assert(aev.take(j + 1).last() == e@);
        let ghost p0 = pool@;
        let ghost o0 = out@;
        proof {
            lemma_find_group(pool_view(p0), (e.from@, e.to@));
        }
        let status = match find_group_index(&pool, e.from.as_str(), e.to.as_str()) {
            Some(k) => {
                let mut g = empty_group();
                pool.set_and_swap(k, &mut g);
                let ghost gev = crate::graph::edge_views(g.edges@);
                assert(gev == pool_view(p0)[k as int].1);
                proof {
                    lemma_first_same(gev, e@);
                }
                let st = match find_same(&g.edges, e) {
                    Some(pos) => {
                        g.edges.swap_remove(pos);
                        assert(crate::graph::edge_views(g.edges@) =~= swap_out(gev, pos as int));
                        DiffStatus::Unchanged
                    },
                    None => {
                        if g.edges.len() > 0 {
                            g.edges.swap_remove(0);
                            assert(crate::graph::edge_views(g.edges@) =~= swap_out(gev, 0));
                            DiffStatus::Changed
                        } else {
                            DiffStatus::Added
                        }
                    },
                };
                pool.set_and_swap(k, &mut g);
                assert(pool_view(pool@) =~= match_edge(pool_view(p0), e@).1);
                st
            },
            None => DiffStatus::Added,
        };
        assert(status == match_edge(pool_view(p0), e@).0);
        let d = DiffEdge { status, edge: e.duplicate() };
        out.push(d);
        assert(out@.map_values(|d: DiffEdge| d@) =~= o0.map_values(|d: DiffEdge| d@).push((status, e@)));
        j = j + 1;
    }
    assert(aev.take(ae@.len() as int) =~= aev);
    let ghost matched = out@.map_values(|d: DiffEdge| d@);
    let ghost pv = pool_view(pool@);
    let mut gi: usize = 0;
    assert(pv.take(0) =~= Seq::<((Seq<char>, Seq<char>), Seq<EdgeView>)>::empty());
    while gi < pool.len()
        invariant
            gi <= pool@.len(),
            pv == pool_view(pool@),
            out@.map_values(|d: DiffEdge| d@) == matched + leftover(pv.take(gi as int)),
        decreases pool@.len() - gi,
    {
        let ghost o0 = out@.map_values(|d: DiffEdge| d@);
        let ghost gev = pv[gi as int].1;
        assert(gev == crate::graph::edge_views(pool@[gi as int].edges@));
        let mut q: usize = 0;
        while q < pool[gi].edges.len()
            invariant
                gi < pool@.len(),
                q <= pool@[gi as int].edges@.len(),
                gev == crate::graph::edge_views(pool@[gi as int].edges@),
                out@.map_values(|d: DiffEdge| d@) == o0 + gev.take(q as int).map_values(|e: EdgeView| (DiffStatus::Removed, e)),
            decreases pool@[gi as int].edges@.len() - q,
        {
            let ghost ob = out@;
            let d = DiffEdge { status: DiffStatus::Removed, edge: pool[gi].edges[q].duplicate() };
            out.push(d);
            assert(gev.take(q + 1) =~= gev.take(q as int).push(gev[q as int]));
            assert(out@.map_values(|d: DiffEdge| d@) =~= ob.map_values(|d: DiffEdge| d@).push((DiffStatus::Removed, gev[q as int])));
            q = q + 1;
            assert(out@.map_values(|d: DiffEdge| d@) =~= o0 + gev.take(q as int).map_values(|e: EdgeView| (DiffStatus::Removed, e)));
        }
        assert(gev.take(gev.len() as int) =~= gev);
        assert(pv.take(gi + 1).drop_last() =~= pv.take(gi as int));
        gi = gi + 1;
        assert(out@.map_values(|d: DiffEdge| d@) =~= matched + leftover(pv.take(gi as int)));
    }
    assert(pv.take(pool@.len() as int) =~= pv);
    out
}

} // verus!

verus! {

impl GraphDiff {
    /// Whether any node or edge has a status other than `Unchanged`.
    pub fn has_changes(&self) -> (r: bool)
        ensures
            r == ((exists|i: int| 0 <= i < self@.nodes.len() && #[trigger] self@.nodes[i].1.0 != DiffStatus::Unchanged)
                || (exists|i: int| 0 <= i < self@.edges.len() && #[trigger] self@.edges[i].0 != DiffStatus::Unchanged)),
    {
        let n = crate::maps::diff_map_len(&self.nodes);
        let mut i: usize = 0;
        while i < n
            invariant
                i <= n == self@.nodes.len(),
                forall|k: int| 0 <= k < i ==> #[trigger] self@.nodes[k].1.0 == DiffStatus::Unchanged,
            decreases n - i,
        {
            let (_, d) = crate::maps::diff_map_get_index(&self.nodes, i).unwrap();
            assert(self@.nodes[i as int].1 == d@);
            if d.status != DiffStatus::Unchanged {
                assert(self@.nodes[i as int].1.0 != DiffStatus::Unchanged);
                return true;
            }
            i = i + 1;
        }
        let mut j: usize = 0;
        while j < self.edges.len()
            invariant
                j <= self.edges@.len(),
                forall|k: int| 0 <= k < self@.nodes.len() ==> #[trigger] self@.nodes[k].1.0 == DiffStatus::Unchanged,
                forall|k: int| 0 <= k < j ==> #[trigger] self@.edges[k].0 == DiffStatus::Unchanged,
            decreases self.edges@.len() - j,
        {
            assert(self@.edges[j as int] == self.edges@[j as int]@);
            if self.edges[j].status != DiffStatus::Unchanged {
                assert(self@.edges[j as int].0 != DiffStatus::Unchanged);
                return true;
            }
            j = j + 1;
        }
        false
    }
}

/// The label prefix, color and `diff` attribute value of a status.
pub open spec fn status_marks(st: DiffStatus) -> (Seq<char>, Seq<char>, Seq<char>) {
    match st {
        DiffStatus::Added => (seq!['+', ' '], seq!['g', 'r', 'e', 'e', 'n'], seq!['a', 'd', 'd', 'e', 'd']),
        DiffStatus::Removed => (seq!['-', ' '], seq!['r', 'e', 'd'], seq!['r', 'e', 'm', 'o', 'v', 'e', 'd']),
        DiffStatus::Changed => (seq!['~', ' '], seq!['o', 'r', 'a', 'n', 'g', 'e'], seq!['c', 'h', 'a', 'n', 'g', 'e', 'd']),
        DiffStatus::Moved => (seq!['>', ' '], seq!['b', 'l', 'u', 'e'], seq!['m', 'o', 'v', 'e', 'd']),
        DiffStatus::Unchanged => (seq![], seq![], seq!['u', 'n', 'c', 'h', 'a', 'n', 'g', 'e', 'd']),
    }
}

pub open spec fn color_key() -> Seq<char> {
    seq!['c', 'o', 'l', 'o', 'r']
}

pub open spec fn fontcolor_key() -> Seq<char> {
    seq!['f', 'o', 'n', 't', 'c', 'o', 'l', 'o', 'r']
}

pub open spec fn diff_key() -> Seq<char> {
    seq!['d', 'i', 'f', 'f']
}

/// A node styled by its status: a label prefix, `color` and `fontcolor`
/// attributes, and a `diff` attribute (only `diff` when unchanged).
pub open spec fn annotate_node_view(st: DiffStatus, n: NodeView) -> NodeView {
    let (prefix, color, word) = status_marks(st);
    if st == DiffStatus::Unchanged {
        NodeView { attrs: insert_entry(n.attrs, diff_key(), word), ..n }
    } else {
        NodeView {
            label: prefix + n.label,
            attrs: insert_entry(insert_entry(insert_entry(n.attrs, color_key(), color), fontcolor_key(), color), diff_key(), word),
            ..n
        }
    }
}

/// An edge styled by its status: a `color` and a `diff` attribute (only
/// `diff` when unchanged).
pub open spec fn annotate_edge_view(st: DiffStatus, e: EdgeView) -> EdgeView {
    let (_, color, word) = status_marks(st);
    if st == DiffStatus::Unchanged {
        EdgeView { attrs: insert_entry(e.attrs, diff_key(), word), ..e }
    } else {
        EdgeView { attrs: insert_entry(insert_entry(e.attrs, color_key(), color), diff_key(), word), ..e }
    }
}

fn status_strings(st: DiffStatus) -> (r: (String, String, String))
    ensures
        r.0@ == status_marks(st).0 && r.1@ == status_marks(st).1 && r.2@ == status_marks(st).2,
{
    let (p, c, w): (&[char], &[char], &[char]) = match st {
        DiffStatus::Added => (&['+', ' '], &['g', 'r', 'e', 'e', 'n'], &['a', 'd', 'd', 'e', 'd']),
        DiffStatus::Removed => (&['-', ' '], &['r', 'e', 'd'], &['r', 'e', 'm', 'o', 'v', 'e', 'd']),
        DiffStatus::Changed => (&['~', ' '], &['o', 'r', 'a', 'n', 'g', 'e'], &['c', 'h', 'a', 'n', 'g', 'e', 'd']),
        DiffStatus::Moved => (&['>', ' '], &['b', 'l', 'u', 'e'], &['m', 'o', 'v', 'e', 'd']),
        DiffStatus::Unchanged => (&[], &[], &['u', 'n', 'c', 'h', 'a', 'n', 'g', 'e', 'd']),
    };
    let r = (crate::text::string_from(p), crate::text::string_from(c), crate::text::string_from(w));
    assert(r.0@ =~= status_marks(st).0 && r.1@ =~= status_marks(st).1 && r.2@ =~= status_marks(st).2);
    r
}

fn annotate_node(st: DiffStatus, info: &NodeInfo) -> (r: NodeInfo)
    ensures
        r@ == annotate_node_view(st, info@),
{
    let (prefix, color, word) = status_strings(st);
    let mut r = info.duplicate();
    let ck = crate::text::string_from(&['c', 'o', 'l', 'o', 'r']);
    let fk = crate::text::string_from(&['f', 'o', 'n', 't', 'c', 'o', 'l', 'o', 'r']);
    let dk = crate::text::string_from(&['d', 'i', 'f', 'f']);
    assert(ck@ =~= color_key() && fk@ =~= fontcolor_key() && dk@ =~= diff_key());
    if st != DiffStatus::Unchanged {
        let mut label = prefix;
        crate::text::push_str(&mut label, r.label.as_str());
        r.label = label;
        crate::maps::str_map_insert(&mut r.attrs, ck, color.clone());
        crate::maps::str_map_insert(&mut r.attrs, fk, color);
    }
    crate::maps::str_map_insert(&mut r.attrs, dk, word);
    r
}

fn annotate_edge(st: DiffStatus, e: &Edge) -> (r: Edge)
    ensures
        r@ == annotate_edge_view(st, e@),
{
    let (_, color, word) = status_strings(st);
    let mut r = e.duplicate();
    let ck = crate::text::string_from(&['c', 'o', 'l', 'o', 'r']);
    let dk = crate::text::string_from(&['d', 'i', 'f', 'f']);
    assert(ck@ =~= color_key() && dk@ =~= diff_key());
    if st != DiffStatus::Unchanged {
        crate::maps::str_map_insert(&mut r.attrs, ck, color);
    }
    crate::maps::str_map_insert(&mut r.attrs, dk, word);
    r
}

} // verus!

verus! {

/// The annotated nodes for the ids `ids` that the diff knows, in order.
pub open spec fn annotated_entries(dn: Seq<(Seq<char>, (DiffStatus, NodeView))>, ids: Seq<Seq<char>>) -> Seq<(Seq<char>, NodeView)>
    decreases ids.len(),
{
    if ids.len() == 0 {
        seq![]
    } else {
        let rest = annotated_entries(dn, ids.drop_last());
        match value_of(dn, ids.last()) {
            Some(d) => rest.push((ids.last(), annotate_node_view(d.0, d.1))),
            None => rest,
        }
    }
}

/// The after graph (any level) with its nodes annotated and no edges; a
/// subgraph left with no nodes and no subgraphs is dropped.
pub open spec fn annotate_tree(dn: Seq<(Seq<char>, (DiffStatus, NodeView))>, g: GraphView) -> GraphView
    decreases g, 0nat,
{
    GraphView {
        id: g.id,
        attrs: g.attrs,
        nodes: crate::graph::insert_all(Seq::empty(), annotated_entries(dn, crate::maps::keys_of(g.nodes))),
        edges: Seq::empty(),
        subgraphs: annotate_trees(dn, g.subgraphs, g.subgraphs.len()),
    }
}

pub open spec fn annotate_trees(dn: Seq<(Seq<char>, (DiffStatus, NodeView))>, sgs: Seq<GraphView>, n: nat) -> Seq<GraphView>
    decreases sgs, n,
{
    if n == 0 || n > sgs.len() {
        seq![]
    } else {
        let rest = annotate_trees(dn, sgs, (n - 1) as nat);
        let t = annotate_tree(dn, sgs[n - 1]);
        if t.nodes.len() > 0 || t.subgraphs.len() > 0 {
            rest.push(t)
        } else {
            rest
        }
    }
}

/// The removed nodes of the diff, annotated, in order.
pub open spec fn removed_annotated(dn: Seq<(Seq<char>, (DiffStatus, NodeView))>) -> Seq<(Seq<char>, NodeView)>
    decreases dn.len(),
{
    if dn.len() == 0 {
        seq![]
    } else {
        let rest = removed_annotated(dn.drop_last());
        if dn.last().1.0 == DiffStatus::Removed {
            rest.push((dn.last().0, annotate_node_view(DiffStatus::Removed, dn.last().1.1)))
        } else {
            rest
        }
    }
}

pub open spec fn cluster_removed_name() -> Seq<char> {
    seq!['c', 'l', 'u', 's', 't', 'e', 'r', '_', 'r', 'e', 'm', 'o', 'v', 'e', 'd']
}

/// The annotated graph: the after graph's structure with annotated nodes,
/// the removed nodes at the top level (or in a `cluster_removed` subgraph),
/// and every diff edge, annotated, at the top level.
pub open spec fn annotate_view(d: GraphDiffView, after: GraphView, cluster: bool) -> GraphView {
    let root = annotate_tree(d.nodes, after);
    let rem = removed_annotated(d.nodes);
    let placed = if rem.len() == 0 {
        root
    } else if cluster {
        GraphView {
            subgraphs: root.subgraphs.push(GraphView {
                id: Some(cluster_removed_name()),
                attrs: Seq::empty(),
                nodes: crate::graph::insert_all(Seq::empty(), rem),
                edges: Seq::empty(),
                subgraphs: Seq::empty(),
            }),
            ..root
        }
    } else {
        GraphView { nodes: crate::graph::insert_all(root.nodes, rem), ..root }
    };
    GraphView { edges: d.edges.map_values(|e: (DiffStatus, EdgeView)| annotate_edge_view(e.0, e.1)), ..placed }
}

proof fn lemma_diff_value_of(s: Seq<(Seq<char>, DiffNode)>, k: Seq<char>)
    ensures
        value_of(s.map_values(|e: (Seq<char>, DiffNode)| (e.0, e.1@)), k) == (match value_of(s, k) {
            Some(v) => Some(v@),
            None => None::<(DiffStatus, NodeView)>,
        }),
{
    let t = s.map_values(|e: (Seq<char>, DiffNode)| (e.0, e.1@));
    assert forall|i: int| 0 <= i < s.len() implies s[i].0 == t[i].0 by {}
    crate::maps::lemma_find_key_same_keys(s, t, k);
    lemma_find_key(s, k);
}

/// Insert the entries of `add`, in order, as `IndexMap::insert` does.
fn insert_nodes(m: &mut IndexMap<String, NodeInfo>, add: Vec<(String, NodeInfo)>)
    ensures
        node_views(node_entries(*final(m))) == crate::graph::insert_all(node_views(node_entries(*old(m))),
            add@.map_values(|p: (String, NodeInfo)| (p.0@, p.1@))),
{
    let ghost av = add@.map_values(|p: (String, NodeInfo)| (p.0@, p.1@));
    let ghost start = node_views(node_entries(*m));
    let mut i: usize = 0;
    let mut add = add;
    assert(av.skip(0) =~= av);
    while i < add.len()
        invariant
            i <= add@.len(),
            av == add@.map_values(|p: (String, NodeInfo)| (p.0@, p.1@)),
            crate::graph::insert_all(start, av) == crate::graph::insert_all(node_views(node_entries(*m)), av.skip(i as int)),
        decreases add@.len() - i,
    {
        let k = add[i].0.clone();
        let v = add[i].1.duplicate();
        proof {
            crate::graph::lemma_node_views_insert(node_entries(*m), k@, v);
            assert(av.skip(i as int)[0] == (k@, v@));
            assert(av.skip(i as int).drop_first() =~= av.skip(i + 1));
        }
        crate::maps::node_map_insert(m, k, v);
        i = i + 1;
    }
    assert(av.skip(add@.len() as int) =~= Seq::<(Seq<char>, NodeView)>::empty());
}

fn annotate_subgraph(diff: &GraphDiff, sg: &DepGraph) -> (r: DepGraph)
    ensures
        r@ == annotate_tree(diff@.nodes, sg@),
    decreases sg,
{
    let ghost dn = diff@.nodes;
    let n = node_map_len(&sg.nodes);
    let ghost ids = crate::maps::keys_of(node_views(node_entries(sg.nodes)));
    let mut picked: Vec<(String, NodeInfo)> = Vec::new();
    let mut i: usize = 0;
    assert(ids.take(0) =~= Seq::<Seq<char>>::empty());
    while i < n
        invariant
            i <= n == ids.len(),
            dn == diff@.nodes,
            ids == crate::maps::keys_of(node_views(node_entries(sg.nodes))),
            picked@.map_values(|p: (String, NodeInfo)| (p.0@, p.1@)) == annotated_entries(dn, ids.take(i as int)),
        decreases n - i,
    {
        let (id, _) = node_map_get_index(&sg.nodes, i).unwrap();
        assert(ids[i as int] == id@);
        assert(ids.take(i + 1).drop_last() =~= ids.take(i as int));
        proof {
            lemma_diff_value_of(crate::maps::diff_entries(diff.nodes), id@);
        }
        let ghost before = picked@;
        match crate::maps::diff_map_get(&diff.nodes, id.as_str()) {
            Some(d) => {
                let a = annotate_node(d.status, &d.info);
                picked.push((id.clone(), a));
                assert(picked@.map_values(|p: (String, NodeInfo)| (p.0@, p.1@)) =~= before.map_values(|p: (String, NodeInfo)| (p.0@, p.1@)).push((id@, a@)));
            },
            None => {},
        }
        i = i + 1;
    }
    assert(ids.take(n as int) =~= ids);
    let mut nodes = crate::maps::node_map_new();
    assert(node_views(node_entries(nodes)) =~= Seq::<(Seq<char>, NodeView)>::empty());
    insert_nodes(&mut nodes, picked);
    let mut subgraphs: Vec<DepGraph> = Vec::new();
    let mut s: usize = 0;
    while s < sg.subgraphs.len()
        invariant
            s <= sg.subgraphs@.len(),
            sg@.subgraphs.len() == sg.subgraphs@.len(),
            dn == diff@.nodes,
            Seq::new(subgraphs@.len(), |q: int| subgraphs@[q]@) == annotate_trees(dn, sg@.subgraphs, s as nat),
        decreases sg.subgraphs@.len() - s,
    {
        proof {
            crate::graph::lemma_graph_view_subgraph(*sg, s as int);
        }
        let t = annotate_subgraph(diff, &sg.subgraphs[s]);
        let ghost before = subgraphs@;
        proof {
            assert(t@.nodes.len() == node_entries(t.nodes).len());
            assert(t@.subgraphs.len() == t.subgraphs@.len());
        }
        if node_map_len(&t.nodes) > 0 || t.subgraphs.len() > 0 {
            subgraphs.push(t);
            assert(Seq::new(subgraphs@.len(), |q: int| subgraphs@[q]@) =~= Seq::new(before.len(), |q: int| before[q]@).push(t@));
        }
        s = s + 1;
    }
    let id = match &sg.id {
        Some(x) => Some(x.clone()),
        None => None,
    };
    let r = DepGraph { id, attrs: crate::maps::str_map_clone(&sg.attrs), nodes, edges: Vec::new(), subgraphs };
    assert forall|q: int| 0 <= q < r.subgraphs@.len() implies r@.subgraphs[q] == r.subgraphs@[q]@ by {
        crate::graph::lemma_graph_view_subgraph(r, q);
    }
    assert(r@.subgraphs =~= annotate_trees(dn, sg@.subgraphs, sg@.subgraphs.len()));
    assert(r@.edges =~= Seq::<EdgeView>::empty());
    r
}

/// Build an annotated graph combining both inputs with visual diff styling.
///
/// Added nodes and edges are green, removed red, changed orange, moved blue;
/// each gets a `diff` attribute.  The after graph's subgraph structure is
/// kept; removed nodes go to the top level, or into a `cluster_removed`
/// subgraph when `cluster` is set.  All edges are at the top level.
pub fn annotate_graph(diff: &GraphDiff, after: &DepGraph, cluster: bool) -> (r: DepGraph)
    ensures
        r@ == annotate_view(diff@, after@, cluster),
{
    let ghost dn = diff@.nodes;
    let mut root = annotate_subgraph(diff, after);
    let nd = crate::maps::diff_map_len(&diff.nodes);
    let mut rem: Vec<(String, NodeInfo)> = Vec::new();
    let mut i: usize = 0;
    assert(dn.take(0) =~= Seq::<(Seq<char>, (DiffStatus, NodeView))>::empty());
    while i < nd
        invariant
            i <= nd == dn.len(),
            dn == diff@.nodes,
            rem@.map_values(|p: (String, NodeInfo)| (p.0@, p.1@)) == removed_annotated(dn.take(i as int)),
        decreases nd - i,
    {
        let (id, d) = crate::maps::diff_map_get_index(&diff.nodes, i).unwrap();
        assert(dn[i as int] == (id@, d@));
        assert(dn.take(i + 1).drop_last() =~= dn.take(i as int));
        let ghost before = rem@;
        if d.status == DiffStatus::Removed {
            let a = annotate_node(d.status, &d.info);
            rem.push((id.clone(), a));
            assert(rem@.map_values(|p: (String, NodeInfo)| (p.0@, p.1@)) =~= before.map_values(|p: (String, NodeInfo)| (p.0@, p.1@)).push((id@, a@)));
        }
        i = i + 1;
    }
    assert(dn.take(nd as int) =~= dn);
    let ghost root0 = root@;
    if rem.len() > 0 {
        if cluster {
            let mut nodes = crate::maps::node_map_new();
            assert(node_views(node_entries(nodes)) =~= Seq::<(Seq<char>, NodeView)>::empty());
            insert_nodes(&mut nodes, rem);
            let name = crate::text::string_from(&['c', 'l', 'u', 's', 't', 'e', 'r', '_', 'r', 'e', 'm', 'o', 'v', 'e', 'd']);
            let sg = DepGraph { id: Some(name), attrs: crate::maps::str_map_new(), nodes, edges: Vec::new(), subgraphs: Vec::new() };
            assert(name@ =~= cluster_removed_name());
            assert(sg@.subgraphs =~= Seq::<crate::graph::GraphView>::empty());
            assert(sg@.edges =~= Seq::<EdgeView>::empty());
            let ghost sgs0 = root.subgraphs@;
            assert forall|q: int| 0 <= q < sgs0.len() implies root0.subgraphs[q] == sgs0[q]@ by {
                crate::graph::lemma_graph_view_subgraph(root, q);
            }
            root.subgraphs.push(sg);
            assert forall|q: int| 0 <= q < root.subgraphs@.len() implies root@.subgraphs[q] == root0.subgraphs.push(sg@)[q] by {
                crate::graph::lemma_graph_view_subgraph(root, q);
            }
            assert(root@.subgraphs =~= root0.subgraphs.push(sg@));
        } else {
            insert_nodes(&mut root.nodes, rem);
        }
    }
    let ghost expected = annotate_view(diff@, after@, cluster);
    assert(root@.edges =~= Seq::<EdgeView>::empty());
    assert(root@.id == expected.id && root@.attrs == expected.attrs && root@.nodes == expected.nodes
        && root@.subgraphs == expected.subgraphs);
    let mut k: usize = 0;
    while k < diff.edges.len()
        invariant
            k <= diff.edges@.len(),
            expected == annotate_view(diff@, after@, cluster),
            root@.id == expected.id && root@.attrs == expected.attrs && root@.nodes == expected.nodes
                && root@.subgraphs == expected.subgraphs,
            root.edges@.map_values(|e: Edge| e@) == diff@.edges.take(k as int).map_values(|e: (DiffStatus, EdgeView)| annotate_edge_view(e.0, e.1)),
        decreases diff.edges@.len() - k,
    {
        let d = &diff.edges[k];
        assert(diff@.edges[k as int] == d@);
        let a = annotate_edge(d.status, &d.edge);
        let ghost before = root.edges@;
        root.edges.push(a);
        assert(diff@.edges.take(k + 1) =~= diff@.edges.take(k as int).push(d@));
        assert(root.edges@.map_values(|e: Edge| e@) =~= before.map_values(|e: Edge| e@).push(a@));
        k = k + 1;
    }
    assert(diff@.edges.take(diff.edges@.len() as int) =~= diff@.edges);
    root
}

} // verus!

verus! {

/// The ids of the removed nodes of a diff.
pub open spec fn removed_ids(dn: Seq<(Seq<char>, (DiffStatus, NodeView))>) -> Set<Seq<char>> {
    Set::new(|k: Seq<char>| exists|i: int| 0 <= i < dn.len() && #[trigger] dn[i].0 == k && dn[i].1.0 == DiffStatus::Removed)
}

fn holds_id(ids: &Vec<String>, k: &str) -> (r: bool)
    ensures
        r == crate::maps::str_views(ids@).contains(k@),
{
    let mut i: usize = 0;
    while i < ids.len()
        invariant
            i <= ids@.len(),
            forall|q: int| 0 <= q < i ==> ids@[q]@ != k@,
        decreases ids@.len() - i,
    {
        if crate::text::str_eq(ids[i].as_str(), k) {
            assert(crate::maps::str_views(ids@)[i as int] == k@);
            return true;
        }
        i = i + 1;
    }
    proof {
        if crate::maps::str_views(ids@).contains(k@) {
            let q = choose|q: int| 0 <= q < ids@.len() && crate::maps::str_views(ids@)[q] == k@;
            assert(ids@[q]@ == k@);
        }
    }
    false
}

fn subtract_filter(graph: &DepGraph, ids: &Vec<String>) -> (r: DepGraph)
    ensures
        r@ == crate::flat::filter_view(graph@, crate::maps::str_views(ids@).to_set()),
    decreases graph,
{
    let ghost ks = crate::maps::str_views(ids@).to_set();
    let n = node_map_len(&graph.nodes);
    let ghost src = node_views(node_entries(graph.nodes));
    let mut nodes = crate::maps::node_map_new();
    let mut i: usize = 0;
    assert(node_views(node_entries(nodes)) =~= crate::flat::filter_nodes(src.take(0), ks));
    while i < n
        invariant
            ks == crate::maps::str_views(ids@).to_set(),
            i <= n == src.len() == node_entries(graph.nodes).len(),
            src == node_views(node_entries(graph.nodes)),
            node_views(node_entries(nodes)) == crate::flat::filter_nodes(src.take(i as int), ks),
        decreases n - i,
    {
        let (k, v) = node_map_get_index(&graph.nodes, i).unwrap();
        assert(src.take(i + 1).drop_last() =~= src.take(i as int));
        assert(src.take(i + 1).last() == src[i as int]);
        if holds_id(ids, k.as_str()) {
            let v2 = v.duplicate();
            proof {
                crate::graph::lemma_node_views_insert(node_entries(nodes), k@, v2);
                lemma_find_key(node_entries(nodes), k@);
                crate::flat::lemma_filter_nodes_from(src.take(i as int), ks);
                if find_key(node_entries(nodes), k@) >= 0 {
                    let q = find_key(node_entries(nodes), k@);
                    let f = crate::flat::filter_nodes(src.take(i as int), ks);
                    assert(f[q].0 == k@);
                    let j = choose|j: int| 0 <= j < src.take(i as int).len() && src.take(i as int)[j] == #[trigger] f[q];
                    assert(src[j].0 == node_entries(graph.nodes)[j].0);
                    assert(node_entries(graph.nodes)[j].0 != k@);
                }
            }
            crate::maps::node_map_insert(&mut nodes, k.clone(), v2);
        }
        i = i + 1;
    }
    assert(src.take(n as int) =~= src);
    let mut edges: Vec<Edge> = Vec::new();
    let mut j: usize = 0;
    assert(crate::graph::edge_views(edges@) =~= crate::flat::filter_edges(crate::graph::edge_views(graph.edges@.take(0)), ks));
    while j < graph.edges.len()
        invariant
            ks == crate::maps::str_views(ids@).to_set(),
            j <= graph.edges@.len(),
            crate::graph::edge_views(edges@) == crate::flat::filter_edges(crate::graph::edge_views(graph.edges@.take(j as int)), ks),
        decreases graph.edges@.len() - j,
    {
        let e = &graph.edges[j];
        assert(crate::graph::edge_views(graph.edges@.take(j + 1)).drop_last() =~= crate::graph::edge_views(graph.edges@.take(j as int)));
        assert(crate::graph::edge_views(graph.edges@.take(j + 1)).last() == e@);
        if holds_id(ids, e.from.as_str()) && holds_id(ids, e.to.as_str()) {
            let e2 = e.duplicate();
            let ghost before = edges@;
            edges.push(e2);
            assert(crate::graph::edge_views(edges@) =~= crate::graph::edge_views(before).push(e2@));
        }
        j = j + 1;
    }
    assert(graph.edges@.take(graph.edges@.len() as int) =~= graph.edges@);
    let mut subgraphs: Vec<DepGraph> = Vec::new();
    let mut s: usize = 0;
    while s < graph.subgraphs.len()
        invariant
            ks == crate::maps::str_views(ids@).to_set(),
            s <= graph.subgraphs@.len(),
            graph@.subgraphs.len() == graph.subgraphs@.len(),
            Seq::new(subgraphs@.len(), |q: int| subgraphs@[q]@) == crate::flat::filter_subgraphs(graph@.subgraphs, s as nat, ks),
        decreases graph.subgraphs@.len() - s,
    {
        proof {
            crate::graph::lemma_graph_view_subgraph(*graph, s as int);
        }
        let f = subtract_filter(&graph.subgraphs[s], ids);
        let ghost before = subgraphs@;
        proof {
            assert(f@.nodes.len() == node_entries(f.nodes).len());
            assert(f@.subgraphs.len() == f.subgraphs@.len());
        }
        if node_map_len(&f.nodes) > 0 || f.subgraphs.len() > 0 {
            subgraphs.push(f);
            assert(Seq::new(subgraphs@.len(), |q: int| subgraphs@[q]@) =~= Seq::new(before.len(), |q: int| before[q]@).push(f@));
        }
        s = s + 1;
    }
    let id = match &graph.id {
        Some(x) => Some(x.clone()),
        None => None,
    };
    let r = DepGraph { id, attrs: crate::maps::str_map_clone(&graph.attrs), nodes, edges, subgraphs };
    assert forall|q: int| 0 <= q < r.subgraphs@.len() implies r@.subgraphs[q] == r.subgraphs@[q]@ by {
        crate::graph::lemma_graph_view_subgraph(r, q);
    }
    assert(r@.subgraphs =~= crate::flat::filter_subgraphs(graph@.subgraphs, graph@.subgraphs.len(), ks));
    r
}

/// Build a graph containing only the nodes exclusive to the before graph:
/// its subgraph structure is kept, edges only between two removed nodes,
/// and subgraphs left empty are dropped.
pub fn subtract_graph(diff: &GraphDiff, before: &DepGraph) -> (r: DepGraph)
    ensures
        r@ == crate::flat::filter_view(before@, removed_ids(diff@.nodes)),
{
    let ghost dn = diff@.nodes;
    let nd = crate::maps::diff_map_len(&diff.nodes);
    let mut ids: Vec<String> = Vec::new();
    let mut i: usize = 0;
    while i < nd
        invariant
            i <= nd == dn.len(),
            dn == diff@.nodes,
            forall|k: Seq<char>| crate::maps::str_views(ids@).contains(k) <==> exists|q: int|
                0 <= q < i && #[trigger] dn[q].0 == k && dn[q].1.0 == DiffStatus::Removed,
        decreases nd - i,
    {
        let (id, d) = crate::maps::diff_map_get_index(&diff.nodes, i).unwrap();
        assert(dn[i as int] == (id@, d@));
        let ghost before = ids@;
        if d.status == DiffStatus::Removed {
            ids.push(id.clone());
            assert(crate::maps::str_views(ids@) =~= crate::maps::str_views(before).push(id@));
        }
        proof {
            assert forall|k: Seq<char>| crate::maps::str_views(ids@).contains(k) <==> exists|q: int|
                0 <= q < i + 1 && #[trigger] dn[q].0 == k && dn[q].1.0 == DiffStatus::Removed by {
                let sv = crate::maps::str_views(ids@);
                let sb = crate::maps::str_views(before);
                if d.status == DiffStatus::Removed {
                    assert(sv == sb.push(id@));
                } else {
                    assert(sv == sb);
                }
                if sv.contains(k) && !sb.contains(k) {
                    let w = choose|w: int| 0 <= w < sv.len() && sv[w] == k;
                    if w < sb.len() {
                        assert(sb[w] == k);
                    }
                    assert(k == id@);
                    assert(dn[i as int].0 == k);
                }
                if sv.contains(k) && sb.contains(k) {
                    let q = choose|q: int| 0 <= q < i && #[trigger] dn[q].0 == k && dn[q].1.0 == DiffStatus::Removed;
                }
                if exists|q: int| 0 <= q < i + 1 && #[trigger] dn[q].0 == k && dn[q].1.0 == DiffStatus::Removed {
                    let q = choose|q: int| 0 <= q < i + 1 && #[trigger] dn[q].0 == k && dn[q].1.0 == DiffStatus::Removed;
                    if q == i {
                        assert(sv[sv.len() - 1] == k);
                    } else {
                        assert(sb.contains(k));
                        let w = choose|w: int| 0 <= w < sb.len() && sb[w] == k;
                        assert(sv[w] == k);
                    }
                }
            }
        }
        i = i + 1;
    }
    assert(crate::maps::str_views(ids@).to_set() =~= removed_ids(dn));
    subtract_filter(before, &ids)
}

} // verus!

verus! {

/// The one-character marker of a status; unchanged items are not listed.
pub open spec fn status_marker(st: DiffStatus) -> Option<char> {
    match st {
        DiffStatus::Added => Some('+'),
        DiffStatus::Removed => Some('-'),
        DiffStatus::Changed => Some('~'),
        DiffStatus::Moved => Some('>'),
        DiffStatus::Unchanged => None,
    }
}

/// The listing line of a node: marker, id, and the label when it differs.
pub open spec fn node_list_line(e: (Seq<char>, (DiffStatus, NodeView))) -> Seq<char> {
    match status_marker(e.1.0) {
        None => seq![],
        Some(m) => if e.1.1.label == e.0 {
            seq![m, '\t'] + e.0 + seq!['\n']
        } else {
            seq![m, '\t'] + e.0 + seq!['\t'] + e.1.1.label + seq!['\n']
        },
    }
}

/// The listing line of an edge: marker, source, target.
pub open spec fn edge_list_line(e: (DiffStatus, EdgeView)) -> Seq<char> {
    match status_marker(e.0) {
        None => seq![],
        Some(m) => seq![m, '\t'] + e.1.from + seq!['\t'] + e.1.to + seq!['\n'],
    }
}

/// The tab-separated listing of the changed nodes, then the changed edges.
pub open spec fn list_spec(d: GraphDiffView) -> Seq<char> {
    crate::text::concat(d.nodes.map_values(|e: (Seq<char>, (DiffStatus, NodeView))| node_list_line(e)))
        + crate::text::concat(d.edges.map_values(|e: (DiffStatus, EdgeView)| edge_list_line(e)))
}

fn marker(st: DiffStatus) -> (r: Option<char>)
    ensures
        r == status_marker(st),
{
    match st {
        DiffStatus::Added => Some('+'),
        DiffStatus::Removed => Some('-'),
        DiffStatus::Changed => Some('~'),
        DiffStatus::Moved => Some('>'),
        DiffStatus::Unchanged => None,
    }
}

/// Append a tab-delimited listing of the changed nodes and edges to `out`:
/// a node line is `<marker>\t<id>` (with `\t<label>` when the label differs
/// from the id), an edge line `<marker>\t<from>\t<to>`; unchanged items are
/// left out.
pub fn write_list(diff: &GraphDiff, out: &mut String)
    ensures
        final(out)@ == old(out)@ + list_spec(diff@),
{
    let ghost start = out@;
    let ghost nl = diff@.nodes.map_values(|e: (Seq<char>, (DiffStatus, NodeView))| node_list_line(e));
    let ghost el = diff@.edges.map_values(|e: (DiffStatus, EdgeView)| edge_list_line(e));
    let nd = crate::maps::diff_map_len(&diff.nodes);
    let mut i: usize = 0;
    assert(nl.take(0) =~= Seq::<Seq<char>>::empty());
    while i < nd
        invariant
            i <= nd == nl.len(),
            nl == diff@.nodes.map_values(|e: (Seq<char>, (DiffStatus, NodeView))| node_list_line(e)),
            out@ == start + crate::text::concat(nl.take(i as int)),
        decreases nd - i,
    {
        let (id, d) = crate::maps::diff_map_get_index(&diff.nodes, i).unwrap();
        assert(diff@.nodes[i as int] == (id@, d@));
        proof {
            crate::text::lemma_concat_step(nl, i as int);
        }
        match marker(d.status) {
            Some(m) => {
                crate::text::push_char(out, m);
                crate::text::push_char(out, '\t');
                crate::text::push_str(out, id.as_str());
                if !crate::text::str_eq(d.info.label.as_str(), id.as_str()) {
                    crate::text::push_char(out, '\t');
                    crate::text::push_str(out, d.info.label.as_str());
                }
                crate::text::push_char(out, '\n');
            },
            None => {},
        }
        i = i + 1;
        assert(out@ =~= start + crate::text::concat(nl.take(i as int)));
    }
    assert(nl.take(nd as int) =~= nl);
    let ghost mid = out@;
    let mut j: usize = 0;
    assert(el.take(0) =~= Seq::<Seq<char>>::empty());
    while j < diff.edges.len()
        invariant
            j <= diff.edges@.len() == el.len(),
            el == diff@.edges.map_values(|e: (DiffStatus, EdgeView)| edge_list_line(e)),
            out@ == mid + crate::text::concat(el.take(j as int)),
        decreases diff.edges@.len() - j,
    {
        let d = &diff.edges[j];
        assert(diff@.edges[j as int] == d@);
        proof {
            crate::text::lemma_concat_step(el, j as int);
        }
        match marker(d.status) {
            Some(m) => {
                crate::text::push_char(out, m);
                crate::text::push_char(out, '\t');
                crate::text::push_str(out, d.edge.from.as_str());
                crate::text::push_char(out, '\t');
                crate::text::push_str(out, d.edge.to.as_str());
                crate::text::push_char(out, '\n');
            },
            None => {},
        }
        j = j + 1;
        assert(out@ =~= mid + crate::text::concat(el.take(j as int)));
    }
    assert(el.take(diff.edges@.len() as int) =~= el);
}

/// How many node entries have status `st`.
pub open spec fn count_nodes(dn: Seq<(Seq<char>, (DiffStatus, NodeView))>, st: DiffStatus) -> nat
    decreases dn.len(),
{
    if dn.len() == 0 {
        0
    } else {
        count_nodes(dn.drop_last(), st) + if dn.last().1.0 == st { 1nat } else { 0nat }
    }
}

/// How many edges have one of the statuses `a`, `b`.
pub open spec fn count_edges(de: Seq<(DiffStatus, EdgeView)>, a: DiffStatus, b: DiffStatus) -> nat
    decreases de.len(),
{
    if de.len() == 0 {
        0
    } else {
        count_edges(de.drop_last(), a, b) + if de.last().0 == a || de.last().0 == b { 1nat } else { 0nat }
    }
}

/// One `name\tcount` line.
pub open spec fn summary_line(name: Seq<char>, n: nat) -> Seq<char> {
    name + seq!['\t'] + crate::text::decimal(n) + seq!['\n']
}

/// The summary: node counts per status, then edge counts (moved edges count
/// as unchanged).
pub open spec fn summary_spec(d: GraphDiffView) -> Seq<char> {
    summary_line(seq!['a', 'd', 'd', 'e', 'd', '_', 'n', 'o', 'd', 'e', 's'], count_nodes(d.nodes, DiffStatus::Added))
        + summary_line(seq!['r', 'e', 'm', 'o', 'v', 'e', 'd', '_', 'n', 'o', 'd', 'e', 's'], count_nodes(d.nodes, DiffStatus::Removed))
        + summary_line(seq!['c', 'h', 'a', 'n', 'g', 'e', 'd', '_', 'n', 'o', 'd', 'e', 's'], count_nodes(d.nodes, DiffStatus::Changed))
        + summary_line(seq!['m', 'o', 'v', 'e', 'd', '_', 'n', 'o', 'd', 'e', 's'], count_nodes(d.nodes, DiffStatus::Moved))
        + summary_line(seq!['u', 'n', 'c', 'h', 'a', 'n', 'g', 'e', 'd', '_', 'n', 'o', 'd', 'e', 's'], count_nodes(d.nodes, DiffStatus::Unchanged))
        + summary_line(seq!['a', 'd', 'd', 'e', 'd', '_', 'e', 'd', 'g', 'e', 's'], count_edges(d.edges, DiffStatus::Added, DiffStatus::Added))
        + summary_line(seq!['r', 'e', 'm', 'o', 'v', 'e', 'd', '_', 'e', 'd', 'g', 'e', 's'], count_edges(d.edges, DiffStatus::Removed, DiffStatus::Removed))
        + summary_line(seq!['c', 'h', 'a', 'n', 'g', 'e', 'd', '_', 'e', 'd', 'g', 'e', 's'], count_edges(d.edges, DiffStatus::Changed, DiffStatus::Changed))
        + summary_line(seq!['u', 'n', 'c', 'h', 'a', 'n', 'g', 'e', 'd', '_', 'e', 'd', 'g', 'e', 's'], count_edges(d.edges, DiffStatus::Moved, DiffStatus::Unchanged))
}

fn push_summary_line(out: &mut String, name: &[char], n: usize)
    ensures
        final(out)@ == old(out)@ + summary_line(name@, n as nat),
{
    let ghost start = out@;
    crate::text::push_chars(out, name);
    crate::text::push_char(out, '\t');
    crate::text::push_decimal(out, n);
    crate::text::push_char(out, '\n');
    assert(out@ =~= start + summary_line(name@, n as nat));
}

proof fn lemma_count_nodes_le(dn: Seq<(Seq<char>, (DiffStatus, NodeView))>, st: DiffStatus)
    ensures
        count_nodes(dn, st) <= dn.len(),
    decreases dn.len(),
{
    if dn.len() > 0 {
        lemma_count_nodes_le(dn.drop_last(), st);
    }
}

proof fn lemma_count_edges_le(de: Seq<(DiffStatus, EdgeView)>, a: DiffStatus, b: DiffStatus)
    ensures
        count_edges(de, a, b) <= de.len(),
    decreases de.len(),
{
    if de.len() > 0 {
        lemma_count_edges_le(de.drop_last(), a, b);
    }
}

fn count_node_status(diff: &GraphDiff, st: DiffStatus) -> (r: usize)
    ensures
        r == count_nodes(diff@.nodes, st),
{
    let ghost dn = diff@.nodes;
    let nd = crate::maps::diff_map_len(&diff.nodes);
    let mut c: usize = 0;
    let mut i: usize = 0;
    assert(dn.take(0) =~= Seq::<(Seq<char>, (DiffStatus, NodeView))>::empty());
    while i < nd
        invariant
            i <= nd == dn.len(),
            dn == diff@.nodes,
            c == count_nodes(dn.take(i as int), st),
        decreases nd - i,
    {
        let (_, d) = crate::maps::diff_map_get_index(&diff.nodes, i).unwrap();
        assert(dn[i as int].1 == d@);
        assert(dn.take(i + 1).drop_last() =~= dn.take(i as int));
        proof {
            lemma_count_nodes_le(dn.take(i as int), st);
        }
        if d.status == st {
            c = c + 1;
        }
        i = i + 1;
    }
    assert(dn.take(nd as int) =~= dn);
    c
}

fn count_edge_status(diff: &GraphDiff, a: DiffStatus, b: DiffStatus) -> (r: usize)
    ensures
        r == count_edges(diff@.edges, a, b),
{
    let ghost de = diff@.edges;
    let mut c: usize = 0;
    let mut i: usize = 0;
    assert(de.take(0) =~= Seq::<(DiffStatus, EdgeView)>::empty());
    while i < diff.edges.len()
        invariant
            i <= diff.edges@.len() == de.len(),
            de == diff@.edges,
            c == count_edges(de.take(i as int), a, b),
        decreases diff.edges@.len() - i,
    {
        assert(de[i as int] == diff.edges@[i as int]@);
        assert(de.take(i + 1).drop_last() =~= de.take(i as int));
        proof {
            lemma_count_edges_le(de.take(i as int), a, b);
        }
        let s = diff.edges[i].status;
        if s == a || s == b {
            c = c + 1;
        }
        i = i + 1;
    }
    assert(de.take(diff.edges@.len() as int) =~= de);
    c
}

/// Append a tab-delimited summary of the diff counts to `out`.
pub fn write_summary(diff: &GraphDiff, out: &mut String)
    ensures
        final(out)@ == old(out)@ + summary_spec(diff@),
{
    let ghost start = out@;
    push_summary_line(out, &['a', 'd', 'd', 'e', 'd', '_', 'n', 'o', 'd', 'e', 's'], count_node_status(diff, DiffStatus::Added));
    push_summary_line(out, &['r', 'e', 'm', 'o', 'v', 'e', 'd', '_', 'n', 'o', 'd', 'e', 's'], count_node_status(diff, DiffStatus::Removed));
    push_summary_line(out, &['c', 'h', 'a', 'n', 'g', 'e', 'd', '_', 'n', 'o', 'd', 'e', 's'], count_node_status(diff, DiffStatus::Changed));
    push_summary_line(out, &['m', 'o', 'v', 'e', 'd', '_', 'n', 'o', 'd', 'e', 's'], count_node_status(diff, DiffStatus::Moved));
    push_summary_line(out, &['u', 'n', 'c', 'h', 'a', 'n', 'g', 'e', 'd', '_', 'n', 'o', 'd', 'e', 's'], count_node_status(diff, DiffStatus::Unchanged));
    push_summary_line(out, &['a', 'd', 'd', 'e', 'd', '_', 'e', 'd', 'g', 'e', 's'], count_edge_status(diff, DiffStatus::Added, DiffStatus::Added));
    push_summary_line(out, &['r', 'e', 'm', 'o', 'v', 'e', 'd', '_', 'e', 'd', 'g', 'e', 's'], count_edge_status(diff, DiffStatus::Removed, DiffStatus::Removed));
    push_summary_line(out, &['c', 'h', 'a', 'n', 'g', 'e', 'd', '_', 'e', 'd', 'g', 'e', 's'], count_edge_status(diff, DiffStatus::Changed, DiffStatus::Changed));
    push_summary_line(out, &['u', 'n', 'c', 'h', 'a', 'n', 'g', 'e', 'd', '_', 'e', 'd', 'g', 'e', 's'], count_edge_status(diff, DiffStatus::Moved, DiffStatus::Unchanged));
    assert(out@ =~= start + summary_spec(diff@));
}

} // verus!

verus! {

/// Whether the keys of `s` are pairwise distinct (as those of a map are).
pub open spec fn distinct_keys<V>(s: Seq<(Seq<char>, V)>) -> bool {
    forall|i: int, j: int| 0 <= i < j < s.len() ==> #[trigger] s[i].0 != #[trigger] s[j].0
}

pub(crate) proof fn lemma_value_of_distinct<V>(s: Seq<(Seq<char>, V)>, i: int)
    requires
        distinct_keys(s),
        0 <= i < s.len(),
    ensures
        value_of(s, s[i].0) == Some(s[i].1),
{
    lemma_find_key(s, s[i].0);
    let f = find_key(s, s[i].0);
    if f != i {
        if f < i {
            assert(s[f].0 != s[i].0);
        }
    }
}

pub(crate) proof fn lemma_insert_entry_distinct<V>(s: Seq<(Seq<char>, V)>, k: Seq<char>, v: V)
    requires
        distinct_keys(s),
    ensures
        distinct_keys(insert_entry(s, k, v)),
{
    lemma_find_key(s, k);
    let t = insert_entry(s, k, v);
    assert forall|i: int, j: int| 0 <= i < j < t.len() implies #[trigger] t[i].0 != #[trigger] t[j].0 by {
        if find_key(s, k) < 0 && j == s.len() {
            assert(s[i].0 != k);
        } else {
            assert(t[i].0 == s[i].0 && t[j].0 == s[j].0);
        }
    }
}

proof fn lemma_insert_all_distinct<V>(acc: Seq<(Seq<char>, V)>, s: Seq<(Seq<char>, V)>)
    requires
        distinct_keys(acc),
    ensures
        distinct_keys(crate::graph::insert_all(acc, s)),
    decreases s.len(),
{
    if s.len() > 0 {
        lemma_insert_entry_distinct(acc, s[0].0, s[0].1);
        lemma_insert_all_distinct(insert_entry(acc, s[0].0, s[0].1), s.drop_first());
    }
}

proof fn lemma_collect_nodes_distinct(acc: Seq<(Seq<char>, NodeView)>, g: GraphView)
    requires
        distinct_keys(acc),
    ensures
        distinct_keys(crate::graph::collect_nodes(acc, g)),
    decreases g, 0nat,
{
    lemma_insert_all_distinct(acc, g.nodes);
    lemma_collect_nodes_list_distinct(crate::graph::insert_all(acc, g.nodes), g.subgraphs, g.subgraphs.len());
}

proof fn lemma_collect_nodes_list_distinct(acc: Seq<(Seq<char>, NodeView)>, sgs: Seq<GraphView>, n: nat)
    requires
        distinct_keys(acc),
    ensures
        distinct_keys(crate::graph::collect_nodes_list(acc, sgs, n)),
    decreases sgs, n,
{
    if n > 0 && n <= sgs.len() {
        lemma_collect_nodes_list_distinct(acc, sgs, (n - 1) as nat);
        lemma_collect_nodes_distinct(crate::graph::collect_nodes_list(acc, sgs, (n - 1) as nat), sgs[n - 1]);
    }
}

proof fn lemma_none_removed(s: Seq<(Seq<char>, NodeView)>, an: Seq<(Seq<char>, NodeView)>)
    requires
        forall|i: int| 0 <= i < s.len() ==> has_key(an, #[trigger] s[i].0),
    ensures
        removed_nodes(s, an) == Seq::<(Seq<char>, (DiffStatus, NodeView))>::empty(),
    decreases s.len(),
{
    if s.len() > 0 {
        let init = s.drop_last();
        assert forall|i: int| 0 <= i < init.len() implies has_key(an, #[trigger] init[i].0) by {
            assert(init[i] == s[i]);
        }
        lemma_none_removed(init, an);
        assert(has_key(an, s[s.len() - 1].0));
    }
}

/// Diffing a graph against itself marks every node unchanged, in the graph's
/// node order, and reports no node removed (for graphs whose node attributes
/// have distinct keys, as a map's do).
pub proof fn lemma_diff_self_nodes(g: GraphView)
    requires
        forall|i: int|
            0 <= i < crate::graph::all_nodes_spec(g).len() ==> distinct_keys(
                #[trigger] crate::graph::all_nodes_spec(g)[i].1.attrs,
            ),
    ensures
        diff_nodes(
            crate::graph::all_nodes_spec(g),
            crate::graph::all_nodes_spec(g),
            crate::graph::collect_edges(g),
            crate::graph::collect_edges(g),
        ).len() == crate::graph::all_nodes_spec(g).len(),
        forall|i: int|
            0 <= i < crate::graph::all_nodes_spec(g).len() ==> #[trigger] diff_nodes(
                crate::graph::all_nodes_spec(g),
                crate::graph::all_nodes_spec(g),
                crate::graph::collect_edges(g),
                crate::graph::collect_edges(g),
            )[i] == (crate::graph::all_nodes_spec(g)[i].0, (DiffStatus::Unchanged, crate::graph::all_nodes_spec(g)[i].1)),
{
    let n = crate::graph::all_nodes_spec(g);
    let e = crate::graph::collect_edges(g);
    let bi = incoming(e);
    lemma_collect_nodes_distinct(Seq::empty(), g);
    assert forall|i: int| 0 <= i < n.len() implies has_key(n, #[trigger] n[i].0) by {}
    lemma_none_removed(n, n);
    let d = diff_nodes(n, n, e, e);
    assert forall|i: int| 0 <= i < n.len() implies #[trigger] d[i] == (n[i].0, (DiffStatus::Unchanged, n[i].1)) by {
        lemma_value_of_distinct(n, i);
        let a = n[i].1.attrs;
        assert forall|k: int| 0 <= k < a.len() implies value_of(a, #[trigger] a[k].0) == Some(a[k].1) by {
            lemma_value_of_distinct(a, k);
        }
        assert(node_same(n[i].1, n[i].1));
        assert(!moved(bi, bi, n[i].0));
        assert(after_status(n, n[i].0, n[i].1, bi, bi) == DiffStatus::Unchanged);
    }
}

} // verus!

verus! {

/// The endpoints of an edge.
pub open spec fn ends(e: EdgeView) -> (Seq<char>, Seq<char>) {
    (e.from, e.to)
}

/// How many edges of `es` have endpoints `key`.
pub open spec fn ends_count(es: Seq<EdgeView>, key: (Seq<char>, Seq<char>)) -> nat
    decreases es.len(),
{
    if es.len() == 0 {
        0
    } else {
        ends_count(es.drop_last(), key) + if ends(es.last()) == key {
            1nat
        } else {
            0nat
        }
    }
}

proof fn lemma_ends_count_mono(s: Seq<EdgeView>, key: (Seq<char>, Seq<char>), i: int, j: int)
    requires
        0 <= i <= j <= s.len(),
    ensures
        ends_count(s.take(i), key) <= ends_count(s.take(j), key),
    decreases j - i,
{
    if i < j {
        assert(s.take(j).drop_last() =~= s.take(j - 1));
        lemma_ends_count_mono(s, key, i, j - 1);
    }
}

proof fn lemma_find_group_same_keys(p: EdgePool, r: EdgePool, key: (Seq<char>, Seq<char>))
    requires
        p.len() == r.len(),
        forall|q: int| 0 <= q < p.len() ==> p[q].0 == r[q].0,
    ensures
        find_group(p, key) == find_group(r, key),
    decreases p.len(),
{
    if p.len() > 0 {
        assert forall|q: int| 0 <= q < p.len() - 1 implies p.drop_last()[q].0 == r.drop_last()[q].0 by {
            assert(p.drop_last()[q] == p[q]);
            assert(r.drop_last()[q] == r[q]);
        }
        lemma_find_group_same_keys(p.drop_last(), r.drop_last(), key);
    }
}

/// Whether the groups of `pool` have distinct endpoints.
pub open spec fn distinct_groups(pool: EdgePool) -> bool {
    forall|a: int, b: int| 0 <= a < b < pool.len() ==> #[trigger] pool[a].0 != #[trigger] pool[b].0
}

/// Grouping gives one group per endpoint pair of `es`, holding as many
/// edges as `es` has with those endpoints.
proof fn lemma_group_edges(es: Seq<EdgeView>)
    ensures
        distinct_groups(group_edges(es)),
        forall|q: int| 0 <= q < group_edges(es).len() ==> #[trigger] group_edges(es)[q].1.len() == ends_count(es, group_edges(es)[q].0),
        forall|j: int| 0 <= j < es.len() ==> find_group(group_edges(es), ends(#[trigger] es[j])) >= 0,
    decreases es.len(),
{
    if es.len() > 0 {
        let init = es.drop_last();
        lemma_group_edges(init);
        let pool = group_edges(init);
        let e = es.last();
        let k = find_group(pool, ends(e));
        lemma_find_group(pool, ends(e));
        let np = group_edges(es);
        if k >= 0 {
            assert(np == pool.update(k, (pool[k].0, pool[k].1.push(e))));
        } else {
            assert(np == pool.push((ends(e), seq![e])));
        }
        assert forall|q: int| 0 <= q < np.len() implies #[trigger] np[q].1.len() == ends_count(es, np[q].0) by {
            if q < pool.len() {
                assert(np[q].0 == pool[q].0);
            } else {
                assert(ends_count(init, ends(e)) == 0) by {
                    lemma_ends_count_zero(init, ends(e));
                }
            }
        }
        assert forall|j: int| 0 <= j < es.len() implies find_group(np, ends(#[trigger] es[j])) >= 0 by {
            lemma_find_group(np, ends(es[j]));
            if j < init.len() {
                assert(es[j] == init[j]);
                lemma_find_group(pool, ends(init[j]));
                let q = find_group(pool, ends(init[j]));
                assert(np[q].0 == pool[q].0);
            } else {
                if k >= 0 {
                    assert(np[k].0 == ends(e));
                } else {
                    assert(np[pool.len() as int].0 == ends(e));
                }
            }
        }
    }
}

/// No edge with endpoints `key` when no group has that key.
proof fn lemma_ends_count_zero(es: Seq<EdgeView>, key: (Seq<char>, Seq<char>))
    requires
        forall|q: int| 0 <= q < group_edges(es).len() ==> group_edges(es)[q].0 != key,
    ensures
        ends_count(es, key) == 0,
    decreases es.len(),
{
    if es.len() > 0 {
        let init = es.drop_last();
        lemma_group_edges(init);
        let pool = group_edges(init);
        let e = es.last();
        lemma_find_group(pool, ends(e));
        let k = find_group(pool, ends(e));
        let np = group_edges(es);
        if k >= 0 {
            assert(np == pool.update(k, (pool[k].0, pool[k].1.push(e))));
            assert forall|q: int| 0 <= q < pool.len() implies pool[q].0 != key by {
                assert(np[q].0 == pool[q].0);
            }
            assert(np[k].0 == ends(e));
        } else {
            assert(np == pool.push((ends(e), seq![e])));
            assert forall|q: int| 0 <= q < pool.len() implies pool[q].0 != key by {
                assert(np[q] == pool[q]);
            }
            assert(np[pool.len() as int].0 == ends(e));
        }
        lemma_ends_count_zero(init, key);
    }
}

/// Matching the first `k` edges of `be` against the groups of `be` itself:
/// each is found in its group and uses up one of its edges.
proof fn lemma_match_self(be: Seq<EdgeView>, k: int)
    requires
        0 <= k <= be.len(),
    ensures
        ({
            let (out, p) = match_edges(group_edges(be), be.take(k));
            &&& out.len() == k
            &&& forall|i: int| 0 <= i < k ==> (#[trigger] out[i]).1 == be[i] && out[i].0 != DiffStatus::Added
                && out[i].0 != DiffStatus::Removed
            &&& p.len() == group_edges(be).len()
            &&& forall|q: int| 0 <= q < p.len() ==> (#[trigger] p[q]).0 == group_edges(be)[q].0
            &&& forall|q: int| 0 <= q < p.len() ==> (#[trigger] p[q]).1.len() + ends_count(be.take(k), p[q].0) == ends_count(be, p[q].0)
        }),
    decreases k,
{
    let pool0 = group_edges(be);
    lemma_group_edges(be);
    if k == 0 {
        assert(be.take(0) =~= Seq::<EdgeView>::empty());
    } else {
        lemma_match_self(be, k - 1);
        let es = be.take(k);
        assert(es.drop_last() =~= be.take(k - 1));
        assert(es.last() == be[k - 1]);
        let (out, p) = match_edges(pool0, be.take(k - 1));
        let e = be[k - 1];
        lemma_find_group_same_keys(p, pool0, ends(e));
        lemma_find_group(pool0, ends(e));
        let kk = find_group(p, ends(e));
        assert(kk >= 0);
        assert(p[kk].0 == ends(e));
        assert(ends_count(be.take(k), ends(e)) == ends_count(be.take(k - 1), ends(e)) + 1);
        lemma_ends_count_mono(be, ends(e), k, be.len() as int);
        assert(be.take(be.len() as int) =~= be);
        let v = p[kk].1;
        assert(v.len() >= 1);
        let (st, p2) = match_edge(p, e);
        lemma_first_same(v, e);
        let fp = first_same(v, e);
        let cut = if fp >= 0 { fp } else { 0 };
        assert(p2 == p.update(kk, (p[kk].0, swap_out(v, cut))));
        assert(swap_out(v, cut).len() == v.len() - 1);
        assert(st != DiffStatus::Added && st != DiffStatus::Removed);
        let (out2, pk) = match_edges(pool0, es);
        assert(out2 == out.push((st, e)));
        assert(pk == p2);
        assert forall|q: int| 0 <= q < p2.len() implies (#[trigger] p2[q]).1.len() + ends_count(be.take(k), p2[q].0) == ends_count(be, p2[q].0) by {
            if q == kk {
            } else {
                assert(p2[q] == p[q]);
                assert(pool0[q].0 != pool0[kk].0);
                assert(ends_count(be.take(k), p[q].0) == ends_count(be.take(k - 1), p[q].0));
            }
        }
        assert forall|i: int| 0 <= i < k implies (#[trigger] out2[i]).1 == be[i] && out2[i].0 != DiffStatus::Added
            && out2[i].0 != DiffStatus::Removed by {
            if i < k - 1 {
                assert(out2[i] == out[i]);
            }
        }
    }
}

proof fn lemma_leftover_empty(pool: EdgePool)
    requires
        forall|q: int| 0 <= q < pool.len() ==> (#[trigger] pool[q]).1.len() == 0,
    ensures
        leftover(pool) == Seq::<(DiffStatus, EdgeView)>::empty(),
    decreases pool.len(),
{
    if pool.len() > 0 {
        assert forall|q: int| 0 <= q < pool.len() - 1 implies (#[trigger] pool.drop_last()[q]).1.len() == 0 by {
            assert(pool.drop_last()[q] == pool[q]);
        }
        lemma_leftover_empty(pool.drop_last());
        assert(pool[pool.len() - 1].1.len() == 0);
        assert(pool.last().1.map_values(|e: EdgeView| (DiffStatus::Removed, e)) =~= Seq::<(DiffStatus, EdgeView)>::empty());
    }
}

/// Diffing a graph against itself lists each of its edges once, in order,
/// none of them added and none removed.
pub proof fn lemma_diff_self_edges(g: GraphView)
    ensures
        diff_edges(crate::graph::collect_edges(g), crate::graph::collect_edges(g)).len() == crate::graph::collect_edges(g).len(),
        forall|i: int|
            0 <= i < crate::graph::collect_edges(g).len() ==> {
                let d = #[trigger] diff_edges(crate::graph::collect_edges(g), crate::graph::collect_edges(g))[i];
                &&& d.1 == crate::graph::collect_edges(g)[i]
                &&& d.0 != DiffStatus::Added
                &&& d.0 != DiffStatus::Removed
            },
{
    let es = crate::graph::collect_edges(g);
    lemma_match_self(es, es.len() as int);
    assert(es.take(es.len() as int) =~= es);
    let (out, p) = match_edges(group_edges(es), es);
    assert forall|q: int| 0 <= q < p.len() implies (#[trigger] p[q]).1.len() == 0 by {}
    lemma_leftover_empty(p);
    assert(diff_edges(es, es) =~= out);
}

} // verus!
