//! Merging several dependency graphs into one.
use indexmap::IndexMap;
use vstd::prelude::*;

use crate::algorithm::sub::contains_str;
use crate::graph::{
    edge_views, lemma_graph_view_subgraph, lemma_node_views_insert, node_views, Attrs, DepGraph,
    Edge, EdgeView, GraphView, NodeView,
};
use crate::maps::{
    has_key, insert_entry, lemma_find_key, node_entries, node_map_get_index, node_map_insert,
    node_map_len, node_map_new, pair_map_get, pair_map_insert, pair_map_new, pair_positions,
    str_entries, str_map_clone, str_map_contains_key, str_map_get_index, str_map_insert,
    str_map_len, str_map_new, str_views,
};

verus! {

pub open spec fn graph_views(gs: Seq<DepGraph>) -> Seq<GraphView> {
    gs.map_values(|g: DepGraph| g@)
}

/// The node entries of the graphs, one graph after the other.
pub open spec fn nodes_of(gs: Seq<GraphView>) -> Seq<(Seq<char>, NodeView)>
    decreases gs.len(),
{
    if gs.len() == 0 {
        seq![]
    } else {
        nodes_of(gs.drop_last()) + gs.last().nodes
    }
}

/// The edges of the graphs, one graph after the other.
pub open spec fn edges_of(gs: Seq<GraphView>) -> Seq<EdgeView>
    decreases gs.len(),
{
    if gs.len() == 0 {
        seq![]
    } else {
        edges_of(gs.drop_last()) + gs.last().edges
    }
}

/// The direct subgraphs of the graphs, one graph after the other.
pub open spec fn subgraphs_of(gs: Seq<GraphView>) -> Seq<GraphView>
    decreases gs.len(),
{
    if gs.len() == 0 {
        seq![]
    } else {
        subgraphs_of(gs.drop_last()) + gs.last().subgraphs
    }
}

/// The node map `acc` after inserting the entries in order: an id seen again
/// keeps its place and takes the later node.
pub open spec fn insert_from(acc: Seq<(Seq<char>, NodeView)>, s: Seq<(Seq<char>, NodeView)>) -> Seq<(Seq<char>, NodeView)>
    decreases s.len(),
{
    if s.len() == 0 {
        acc
    } else {
        insert_entry(insert_from(acc, s.drop_last()), s.last().0, s.last().1)
    }
}

/// Index of the first element of `s` equal to `k`, or -1.
pub open spec fn find_first<K>(s: Seq<K>, k: K) -> int
    decreases s.len(),
{
    if s.len() == 0 {
        -1
    } else {
        let r = find_first(s.drop_last(), k);
        if r >= 0 {
            r
        } else if s.last() == k {
            s.len() - 1
        } else {
            -1
        }
    }
}

proof fn lemma_find_first<K>(s: Seq<K>, k: K)
    ensures
        -1 <= find_first(s, k) < s.len(),
        find_first(s, k) >= 0 ==> s[find_first(s, k)] == k,
        find_first(s, k) < 0 ==> forall|j: int| 0 <= j < s.len() ==> s[j] != k,
    decreases s.len(),
{
    if s.len() > 0 {
        lemma_find_first(s.drop_last(), k);
        assert forall|j: int| 0 <= j < s.len() - 1 implies s[j] == s.drop_last()[j] by {}
    }
}

/// The endpoints of each edge.
pub open spec fn edge_keys(es: Seq<EdgeView>) -> Seq<(Seq<char>, Seq<char>)> {
    es.map_values(|e: EdgeView| (e.from, e.to))
}

/// The entries of `acc` followed by those of `add` whose key `acc` lacks.
pub open spec fn or_insert_all(acc: Attrs, add: Attrs) -> Attrs
    decreases add.len(),
{
    if add.len() == 0 {
        acc
    } else {
        let a = or_insert_all(acc, add.drop_last());
        if has_key(a, add.last().0) {
            a
        } else {
            a.push(add.last())
        }
    }
}

/// An edge met again: its first label stays (the new one fills a missing
/// label), and the new attributes join those it lacks.
pub open spec fn joined(a: EdgeView, b: EdgeView) -> EdgeView {
    EdgeView {
        from: a.from,
        to: a.to,
        label: if a.label is Some {
            a.label
        } else {
            b.label
        },
        attrs: or_insert_all(a.attrs, b.attrs),
    }
}

/// The edges after adding `e`: joined into the edge with the same endpoints,
/// or appended.
pub open spec fn merge_edge(es: Seq<EdgeView>, e: EdgeView) -> Seq<EdgeView> {
    let i = find_first(edge_keys(es), (e.from, e.to));
    if i >= 0 {
        es.update(i, joined(es[i], e))
    } else {
        es.push(e)
    }
}

/// The edges `acc` after adding each of `es` in order.
pub open spec fn merge_from(acc: Seq<EdgeView>, es: Seq<EdgeView>) -> Seq<EdgeView>
    decreases es.len(),
{
    if es.len() == 0 {
        acc
    } else {
        merge_edge(merge_from(acc, es.drop_last()), es.last())
    }
}

/// The ids of the named subgraphs, each once, in order of first appearance.
pub open spec fn named_ids(ss: Seq<GraphView>) -> Seq<Seq<char>>
    decreases ss.len(),
{
    if ss.len() == 0 {
        seq![]
    } else {
        let a = named_ids(ss.drop_last());
        match ss.last().id {
            Some(id) => if a.contains(id) {
                a
            } else {
                a.push(id)
            },
            None => a,
        }
    }
}

/// The subgraphs named `id`, in order.
pub open spec fn members(ss: Seq<GraphView>, id: Seq<char>) -> Seq<GraphView>
    decreases ss.len(),
{
    if ss.len() == 0 {
        seq![]
    } else {
        let a = members(ss.drop_last(), id);
        if ss.last().id == Some(id) {
            a.push(ss.last())
        } else {
            a
        }
    }
}

/// The subgraphs without an id, in order.
pub open spec fn unnamed(ss: Seq<GraphView>) -> Seq<GraphView>
    decreases ss.len(),
{
    if ss.len() == 0 {
        seq![]
    } else {
        let a = unnamed(ss.drop_last());
        if ss.last().id is None {
            a.push(ss.last())
        } else {
            a
        }
    }
}

/// The nesting height of a graph: 1 plus the greatest height of its subgraphs.
pub open spec fn height(g: GraphView) -> nat
    decreases g, 0nat,
{
    1 + heights(g.subgraphs, g.subgraphs.len())
}

/// The greatest height of `sgs[..n]`.
pub open spec fn heights(sgs: Seq<GraphView>, n: nat) -> nat
    decreases sgs, n,
{
    if n == 0 || n > sgs.len() {
        0
    } else {
        let a = heights(sgs, (n - 1) as nat);
        let b = height(sgs[n - 1]);
        if a < b {
            b
        } else {
            a
        }
    }
}

/// The greatest height of the graphs (0 for none).
pub open spec fn max_height(gs: Seq<GraphView>) -> nat
    decreases gs.len(),
{
    if gs.len() == 0 {
        0
    } else {
        let a = max_height(gs.drop_last());
        let b = height(gs.last());
        if a < b {
            b
        } else {
            a
        }
    }
}

/// `g` with its id set.
pub open spec fn with_id(g: GraphView, id: Seq<char>) -> GraphView {
    GraphView { id: Some(id), ..g }
}

/// The merge of several graphs: nodes unioned by id (a later node replaces an
/// earlier one in its place), edges unioned by endpoints (see [`joined`]),
/// the subgraphs named alike merged in turn under their id (in order of first
/// appearance), then the unnamed subgraphs as they are. No id, no attributes.
pub open spec fn merge_spec(gs: Seq<GraphView>) -> GraphView
    decreases max_height(gs), 1nat, 0nat,
{
    let ss = subgraphs_of(gs);
    let ids = named_ids(ss);
    GraphView {
        id: None,
        attrs: seq![],
        nodes: insert_from(seq![], nodes_of(gs)),
        edges: merge_from(seq![], edges_of(gs)),
        subgraphs: merged_groups(ss, ids, ids.len(), max_height(gs)) + unnamed(ss),
    }
}

/// The merged groups for `ids[..n]`; `bound` exceeds the height of every group.
pub open spec fn merged_groups(ss: Seq<GraphView>, ids: Seq<Seq<char>>, n: nat, bound: nat) -> Seq<GraphView>
    decreases bound, 0nat, n,
{
    if n == 0 || n > ids.len() {
        seq![]
    } else {
        let rest = merged_groups(ss, ids, (n - 1) as nat, bound);
        let ms = members(ss, ids[n - 1]);
        if max_height(ms) < bound {
            rest.push(with_id(merge_spec(ms), ids[n - 1]))
        } else {
            rest
        }
    }
}

proof fn lemma_heights_ge(sgs: Seq<GraphView>, n: nat, k: int)
    requires
        0 <= k < n <= sgs.len(),
    ensures
        height(sgs[k]) <= heights(sgs, n),
    decreases n,
{
    if k < n - 1 {
        lemma_heights_ge(sgs, (n - 1) as nat, k);
    }
}

proof fn lemma_max_height_ge(gs: Seq<GraphView>, k: int)
    requires
        0 <= k < gs.len(),
    ensures
        height(gs[k]) <= max_height(gs),
    decreases gs.len(),
{
    if k < gs.len() - 1 {
        lemma_max_height_ge(gs.drop_last(), k);
        assert(gs.drop_last()[k] == gs[k]);
    }
}

/// Every direct subgraph is lower than the highest of the graphs.
proof fn lemma_subgraphs_lower(gs: Seq<GraphView>)
    ensures
        forall|j: int| 0 <= j < subgraphs_of(gs).len() ==> height(#[trigger] subgraphs_of(gs)[j]) < max_height(gs),
    decreases gs.len(),
{
    if gs.len() > 0 {
        let init = gs.drop_last();
        let g = gs.last();
        lemma_subgraphs_lower(init);
        lemma_max_height_ge(gs, gs.len() - 1);
        let a = subgraphs_of(init);
        assert forall|j: int| 0 <= j < subgraphs_of(gs).len() implies height(#[trigger] subgraphs_of(gs)[j]) < max_height(gs) by {
            if j < a.len() {
                assert(subgraphs_of(gs)[j] == a[j]);
            } else {
                assert(subgraphs_of(gs)[j] == g.subgraphs[j - a.len()]);
                lemma_heights_ge(g.subgraphs, g.subgraphs.len(), j - a.len());
            }
        }
    }
}

proof fn lemma_members_lower(ss: Seq<GraphView>, id: Seq<char>, b: nat)
    requires
        forall|j: int| 0 <= j < ss.len() ==> height(#[trigger] ss[j]) < b,
    ensures
        forall|j: int| 0 <= j < members(ss, id).len() ==> height(#[trigger] members(ss, id)[j]) < b,
    decreases ss.len(),
{
    if ss.len() > 0 {
        let init = ss.drop_last();
        assert forall|j: int| 0 <= j < init.len() implies height(#[trigger] init[j]) < b by {
            assert(init[j] == ss[j]);
        }
        lemma_members_lower(init, id, b);
        assert(height(ss[ss.len() - 1]) < b);
        let a = members(init, id);
        let m = members(ss, id);
        assert forall|j: int| 0 <= j < m.len() implies height(#[trigger] m[j]) < b by {
            if j < a.len() {
                assert(m[j] == a[j]);
            } else {
                assert(m[j] == ss.last());
            }
        }
    }
}

proof fn lemma_members_nonempty(ss: Seq<GraphView>, id: Seq<char>)
    requires
        named_ids(ss).contains(id),
    ensures
        members(ss, id).len() > 0,
    decreases ss.len(),
{
    if ss.len() > 0 {
        let a = named_ids(ss.drop_last());
        if a.contains(id) {
            lemma_members_nonempty(ss.drop_last(), id);
        } else {
            assert(ss.last().id == Some(id)) by {
                let k = choose|k: int| 0 <= k < named_ids(ss).len() && named_ids(ss)[k] == id;
                if k < a.len() {
                    assert(a[k] == id);
                }
            }
        }
    }
}

proof fn lemma_max_height_lower(xs: Seq<GraphView>, b: nat)
    requires
        xs.len() > 0,
        forall|j: int| 0 <= j < xs.len() ==> height(#[trigger] xs[j]) < b,
    ensures
        max_height(xs) < b,
    decreases xs.len(),
{
    let init = xs.drop_last();
    assert(height(xs[xs.len() - 1]) < b);
    if init.len() > 0 {
        assert forall|j: int| 0 <= j < init.len() implies height(#[trigger] init[j]) < b by {
            assert(init[j] == xs[j]);
        }
        lemma_max_height_lower(init, b);
    }
}

/// A named group of subgraphs is lower than the graphs it comes from.
proof fn lemma_group_lower(gs: Seq<GraphView>, id: Seq<char>)
    requires
        named_ids(subgraphs_of(gs)).contains(id),
    ensures
        max_height(members(subgraphs_of(gs), id)) < max_height(gs),
{
    let ss = subgraphs_of(gs);
    lemma_subgraphs_lower(gs);
    lemma_members_lower(ss, id, max_height(gs));
    lemma_members_nonempty(ss, id);
    lemma_max_height_lower(members(ss, id), max_height(gs));
}

proof fn lemma_insert_from_append(acc: Seq<(Seq<char>, NodeView)>, a: Seq<(Seq<char>, NodeView)>, b: Seq<(Seq<char>, NodeView)>)
    ensures
        insert_from(acc, a + b) == insert_from(insert_from(acc, a), b),
    decreases b.len(),
{
    if b.len() == 0 {
        assert(a + b =~= a);
    } else {
        assert((a + b).drop_last() =~= a + b.drop_last());
        lemma_insert_from_append(acc, a, b.drop_last());
    }
}

proof fn lemma_merge_from_append(acc: Seq<EdgeView>, a: Seq<EdgeView>, b: Seq<EdgeView>)
    ensures
        merge_from(acc, a + b) == merge_from(merge_from(acc, a), b),
    decreases b.len(),
{
    if b.len() == 0 {
        assert(a + b =~= a);
    } else {
        assert((a + b).drop_last() =~= a + b.drop_last());
        lemma_merge_from_append(acc, a, b.drop_last());
    }
}

/// Inserts the nodes of `g` (its own level), in order.
fn insert_nodes(nodes: &mut IndexMap<String, crate::graph::NodeInfo>, g: &DepGraph)
    ensures
        node_views(node_entries(*final(nodes))) == insert_from(node_views(node_entries(*old(nodes))), g@.nodes),
{
    let ghost own = g@.nodes;
    let ghost start = node_views(node_entries(*nodes));
    let n = node_map_len(&g.nodes);
    let mut j: usize = 0;
    assert(own.take(0) =~= Seq::<(Seq<char>, NodeView)>::empty());
    while j < n
        invariant
            j <= n == own.len(),
            own == node_views(node_entries(g.nodes)),
            node_views(node_entries(*nodes)) == insert_from(start, own.take(j as int)),
        decreases n - j,
    {
        let (k, v) = node_map_get_index(&g.nodes, j).unwrap();
        let v2 = v.duplicate();
        proof {
            lemma_node_views_insert(node_entries(*nodes), k@, v2);
            assert(own.take(j + 1).drop_last() =~= own.take(j as int));
            assert(own.take(j + 1).last() == (k@, v2@));
        }
        node_map_insert(nodes, k.clone(), v2);
        j = j + 1;
    }
    assert(own.take(n as int) =~= own);
}

/// The positions map records, for each pair of endpoints, the first edge with them.
pub open spec fn positions_ok(m: Map<(Seq<char>, Seq<char>), usize>, es: Seq<EdgeView>) -> bool {
    &&& forall|k: (Seq<char>, Seq<char>)| #[trigger] m.dom().contains(k) == (find_first(edge_keys(es), k) >= 0)
    &&& forall|k: (Seq<char>, Seq<char>)| #[trigger] m.dom().contains(k) ==> m[k] == find_first(edge_keys(es), k)
}

/// `acc` followed by the entries of `add` whose key it lacks.
fn or_insert_attrs(acc: &IndexMap<String, String>, add: &IndexMap<String, String>) -> (r: IndexMap<String, String>)
    ensures
        str_entries(r) == or_insert_all(str_entries(*acc), str_entries(*add)),
{
    let mut r = str_map_clone(acc);
    let ghost ad = str_entries(*add);
    let n = str_map_len(add);
    let mut i: usize = 0;
    assert(ad.take(0) =~= Seq::<(Seq<char>, Seq<char>)>::empty());
    while i < n
        invariant
            i <= n == ad.len(),
            ad == str_entries(*add),
            str_entries(r) == or_insert_all(str_entries(*acc), ad.take(i as int)),
        decreases n - i,
    {
        let (k, v) = str_map_get_index(add, i).unwrap();
        assert(ad.take(i + 1).drop_last() =~= ad.take(i as int));
        assert(ad.take(i + 1).last() == (k@, v@));
        proof {
            lemma_find_key(str_entries(r), k@);
        }
        if !str_map_contains_key(&r, k.as_str()) {
            str_map_insert(&mut r, k.clone(), v.clone());
        }
        i = i + 1;
    }
    assert(ad.take(n as int) =~= ad);
    r
}

/// Adds one edge: joined into the edge with the same endpoints, or appended.
fn merge_one_edge(edges: &mut Vec<Edge>, pos: &mut IndexMap<(String, String), usize>, e: &Edge)
    requires
        positions_ok(pair_positions(*old(pos)), edge_views(old(edges)@)),
    ensures
        positions_ok(pair_positions(*final(pos)), edge_views(final(edges)@)),
        edge_views(final(edges)@) == merge_edge(edge_views(old(edges)@), e@),
{
    let ghost es = edge_views(edges@);
    let ghost key = (e.from@, e.to@);
    proof {
        lemma_find_first(edge_keys(es), key);
    }
    match pair_map_get(pos, e.from.as_str(), e.to.as_str()) {
        Some(i) => {
            assert(edge_keys(es)[i as int] == key);
            let cur = &edges[i];
            let label = match &cur.label {
                Some(l) => Some(l.clone()),
                None => match &e.label {
                    Some(l) => Some(l.clone()),
                    None => None,
                },
            };
            let attrs = or_insert_attrs(&cur.attrs, &e.attrs);
            let ne = Edge { from: cur.from.clone(), to: cur.to.clone(), label, attrs };
            assert(ne@ == joined(es[i as int], e@));
            edges.set(i, ne);
            assert(edge_views(edges@) =~= es.update(i as int, joined(es[i as int], e@)));
            assert(edge_keys(edge_views(edges@)) =~= edge_keys(es));
        },
        None => {
            let n = edges.len();
            pair_map_insert(pos, e.from.clone(), e.to.clone(), n);
            edges.push(e.duplicate());
            assert(edge_views(edges@) =~= es.push(e@));
            let ghost ks = edge_keys(edge_views(edges@));
            assert(ks.drop_last() =~= edge_keys(es));
            assert(ks.last() == key);
            assert forall|k: (Seq<char>, Seq<char>)| #[trigger] pair_positions(*pos).dom().contains(k) == (find_first(ks, k) >= 0)
                && (pair_positions(*pos).dom().contains(k) ==> pair_positions(*pos)[k] == find_first(ks, k)) by {
                assert(pair_positions(*old(pos)).dom().contains(k) == (find_first(edge_keys(es), k) >= 0));
            }
        },
    }
}

/// Adds the edges of `g` (its own level), in order.
fn merge_edges_into(edges: &mut Vec<Edge>, pos: &mut IndexMap<(String, String), usize>, g: &DepGraph)
    requires
        positions_ok(pair_positions(*old(pos)), edge_views(old(edges)@)),
    ensures
        positions_ok(pair_positions(*final(pos)), edge_views(final(edges)@)),
        edge_views(final(edges)@) == merge_from(edge_views(old(edges)@), g@.edges),
{
    let ghost own = g@.edges;
    let ghost start = edge_views(edges@);
    let mut j: usize = 0;
    assert(own.take(0) =~= Seq::<EdgeView>::empty());
    while j < g.edges.len()
        invariant
            j <= g.edges@.len() == own.len(),
            own == edge_views(g.edges@),
            positions_ok(pair_positions(*pos), edge_views(edges@)),
            edge_views(edges@) == merge_from(start, own.take(j as int)),
        decreases g.edges@.len() - j,
    {
        assert(own.take(j + 1).drop_last() =~= own.take(j as int));
        assert(own.take(j + 1).last() == g.edges@[j as int]@);
        merge_one_edge(edges, pos, &g.edges[j]);
        j = j + 1;
    }
    assert(own.take(g.edges@.len() as int) =~= own);
}

/// Copies of the direct subgraphs of all the graphs, one graph after the other.
fn all_subgraphs(graphs: &[DepGraph]) -> (r: Vec<DepGraph>)
    ensures
        graph_views(r@) == subgraphs_of(graph_views(graphs@)),
{
    let ghost gs = graph_views(graphs@);
    let mut r: Vec<DepGraph> = Vec::new();
    let mut i: usize = 0;
    assert(gs.take(0) =~= Seq::<GraphView>::empty());
    assert(graph_views(r@) =~= subgraphs_of(gs.take(0)));
    while i < graphs.len()
        invariant
            i <= graphs@.len() == gs.len(),
            gs == graph_views(graphs@),
            graph_views(r@) == subgraphs_of(gs.take(i as int)),
        decreases graphs@.len() - i,
    {
        let g = &graphs[i];
        let ghost mid = graph_views(r@);
        assert(gs.take(i + 1).drop_last() =~= gs.take(i as int));
        assert(gs.take(i + 1).last() == g@);
        let mut j: usize = 0;
        while j < g.subgraphs.len()
            invariant
                j <= g.subgraphs@.len() == g@.subgraphs.len(),
                graph_views(r@) == mid + g@.subgraphs.take(j as int),
            decreases g.subgraphs@.len() - j,
        {
            proof {
                lemma_graph_view_subgraph(*g, j as int);
            }
            let ghost before = graph_views(r@);
            r.push(g.subgraphs[j].duplicate());
            assert(graph_views(r@) =~= before.push(g@.subgraphs[j as int]));
            assert(g@.subgraphs.take(j + 1) =~= g@.subgraphs.take(j as int).push(g@.subgraphs[j as int]));
            j = j + 1;
        }
        assert(g@.subgraphs.take(g.subgraphs@.len() as int) =~= g@.subgraphs);
        i = i + 1;
    }
    assert(gs.take(graphs@.len() as int) =~= gs);
    r
}

/// The ids of the named subgraphs, each once, in order of first appearance.
fn group_ids(ss: &Vec<DepGraph>) -> (r: Vec<String>)
    ensures
        str_views(r@) == named_ids(graph_views(ss@)),
{
    let ghost sv = graph_views(ss@);
    let mut r: Vec<String> = Vec::new();
    let mut i: usize = 0;
    assert(sv.take(0) =~= Seq::<GraphView>::empty());
    while i < ss.len()
        invariant
            i <= ss@.len() == sv.len(),
            sv == graph_views(ss@),
            str_views(r@) == named_ids(sv.take(i as int)),
        decreases ss@.len() - i,
    {
        assert(sv.take(i + 1).drop_last() =~= sv.take(i as int));
        assert(sv.take(i + 1).last() == ss@[i as int]@);
        match &ss[i].id {
            Some(id) => {
                if !contains_str(&r, id.as_str()) {
                    let ghost before = r@;
                    r.push(id.clone());
                    assert(str_views(r@) =~= str_views(before).push(id@));
                }
            },
            None => {},
        }
        i = i + 1;
    }
    assert(sv.take(ss@.len() as int) =~= sv);
    r
}

/// Copies of the subgraphs named `id`, in order.
fn members_of(ss: &Vec<DepGraph>, id: &str) -> (r: Vec<DepGraph>)
    ensures
        graph_views(r@) == members(graph_views(ss@), id@),
{
    let ghost sv = graph_views(ss@);
    let mut r: Vec<DepGraph> = Vec::new();
    let mut i: usize = 0;
    assert(sv.take(0) =~= Seq::<GraphView>::empty());
    while i < ss.len()
        invariant
            i <= ss@.len() == sv.len(),
            sv == graph_views(ss@),
            graph_views(r@) == members(sv.take(i as int), id@),
        decreases ss@.len() - i,
    {
        assert(sv.take(i + 1).drop_last() =~= sv.take(i as int));
        assert(sv.take(i + 1).last() == ss@[i as int]@);
        let same = match &ss[i].id {
            Some(x) => crate::text::str_eq(x.as_str(), id),
            None => false,
        };
        if same {
            let ghost before = graph_views(r@);
            r.push(ss[i].duplicate());
            assert(graph_views(r@) =~= before.push(ss@[i as int]@));
        }
        i = i + 1;
    }
    assert(sv.take(ss@.len() as int) =~= sv);
    r
}

/// Copies of the subgraphs without an id, in order.
fn unnamed_of(ss: &Vec<DepGraph>) -> (r: Vec<DepGraph>)
    ensures
        graph_views(r@) == unnamed(graph_views(ss@)),
{
    let ghost sv = graph_views(ss@);
    let mut r: Vec<DepGraph> = Vec::new();
    let mut i: usize = 0;
    assert(sv.take(0) =~= Seq::<GraphView>::empty());
    while i < ss.len()
        invariant
            i <= ss@.len() == sv.len(),
            sv == graph_views(ss@),
            graph_views(r@) == unnamed(sv.take(i as int)),
        decreases ss@.len() - i,
    {
        assert(sv.take(i + 1).drop_last() =~= sv.take(i as int));
        assert(sv.take(i + 1).last() == ss@[i as int]@);
        if ss[i].id.is_none() {
            let ghost before = graph_views(r@);
            r.push(ss[i].duplicate());
            assert(graph_views(r@) =~= before.push(ss@[i as int]@));
        }
        i = i + 1;
    }
    assert(sv.take(ss@.len() as int) =~= sv);
    r
}

/// Merges several dependency graphs into one.
///
/// Nodes are unioned by id: a later graph's node replaces an earlier one with
/// the same id, in the earlier one's place. Edges are unioned by endpoints:
/// the first label wins (a later one fills a missing label) and attributes
/// are merged, earlier values first. Subgraphs with the same id are merged
/// recursively under that id; subgraphs without an id are kept as they are,
/// after the named ones. The result has no id and no graph attributes.
pub fn merge(graphs: &[DepGraph]) -> (r: DepGraph)
    ensures
        r@ == merge_spec(graph_views(graphs@)),
    decreases max_height(graph_views(graphs@)),
{
    let ghost gs = graph_views(graphs@);
    let mut nodes = node_map_new();
    let mut edges: Vec<Edge> = Vec::new();
    let mut pos = pair_map_new();
    let mut i: usize = 0;
    assert(gs.take(0) =~= Seq::<GraphView>::empty());
    assert(node_views(node_entries(nodes)) =~= Seq::<(Seq<char>, NodeView)>::empty());
    assert(edge_views(edges@) =~= Seq::<EdgeView>::empty());
    while i < graphs.len()
        invariant
            i <= graphs@.len() == gs.len(),
            gs == graph_views(graphs@),
            node_views(node_entries(nodes)) == insert_from(seq![], nodes_of(gs.take(i as int))),
            edge_views(edges@) == merge_from(seq![], edges_of(gs.take(i as int))),
            positions_ok(pair_positions(pos), edge_views(edges@)),
        decreases graphs@.len() - i,
    {
        let g = &graphs[i];
        assert(gs.take(i + 1).drop_last() =~= gs.take(i as int));
        assert(gs.take(i + 1).last() == g@);
        proof {
            lemma_insert_from_append(seq![], nodes_of(gs.take(i as int)), g@.nodes);
            lemma_merge_from_append(seq![], edges_of(gs.take(i as int)), g@.edges);
        }
        insert_nodes(&mut nodes, g);
        merge_edges_into(&mut edges, &mut pos, g);
        i = i + 1;
    }
    assert(gs.take(graphs@.len() as int) =~= gs);
    let ss = all_subgraphs(graphs);
    let ids = group_ids(&ss);
    let ghost sv = graph_views(ss@);
    let ghost iv = str_views(ids@);
    let mut subgraphs: Vec<DepGraph> = Vec::new();
    let mut k: usize = 0;
    while k < ids.len()
        invariant
            k <= ids@.len() == iv.len(),
            sv == graph_views(ss@),
            sv == subgraphs_of(gs),
            iv == str_views(ids@),
            iv == named_ids(sv),
            gs == graph_views(graphs@),
            graph_views(subgraphs@) == merged_groups(sv, iv, k as nat, max_height(gs)),
        decreases ids@.len() - k,
    {
        let ms = members_of(&ss, ids[k].as_str());
        proof {
            assert(iv.contains(iv[k as int]));
            lemma_group_lower(gs, iv[k as int]);
        }
        let mut m = merge(ms.as_slice());
        m.id = Some(ids[k].clone());
        let ghost before = graph_views(subgraphs@);
        subgraphs.push(m);
        assert(graph_views(subgraphs@) =~= before.push(with_id(merge_spec(members(sv, iv[k as int])), iv[k as int])));
        k = k + 1;
    }
    let un = unnamed_of(&ss);
    let ghost named = graph_views(subgraphs@);
    let mut u: usize = 0;
    while u < un.len()
        invariant
            u <= un@.len(),
            graph_views(subgraphs@) == named + graph_views(un@).take(u as int),
        decreases un@.len() - u,
    {
        let ghost before = graph_views(subgraphs@);
        subgraphs.push(un[u].duplicate());
        assert(graph_views(subgraphs@) =~= before.push(un@[u as int]@));
        assert(graph_views(un@).take(u + 1) =~= graph_views(un@).take(u as int).push(un@[u as int]@));
        u = u + 1;
    }
    assert(graph_views(un@).take(un@.len() as int) =~= graph_views(un@));
    let r = DepGraph { id: None, attrs: str_map_new(), nodes, edges, subgraphs };
    assert(r@.subgraphs =~= graph_views(subgraphs@));
    assert(r@.attrs =~= Seq::<(Seq<char>, Seq<char>)>::empty());
    r
}

} // verus!
