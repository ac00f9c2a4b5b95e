//! Diamond dependencies: two internally disjoint paths from a top node to a bottom node.
use vstd::prelude::*;

use indexmap::IndexMap;
use std::collections::HashSet;

use super::{compiles, all_parse, build_globset, build_outcome, match_text, strs, MatchKey, PatternError};
use crate::flat::{bfs_spec, filter_nodes, flat_edges, kept_ids, reach, FlatGraphView};
use crate::glob::any_matches;
use crate::glob::globset_patterns;
use crate::graph::{all_nodes_spec, collect_edges, edge_views, empty_graph_view, node_views, DepGraph, Edge, EdgeView, GraphView, NodeInfo, NodeView};
use crate::maps::{node_entries, node_map_get_index, node_map_len, node_map_new, str_map_new};
use crate::pg::index_limit;
use crate::pg::{linked, neighbor_seq};
use crate::text::seq_less;

verus! {

/// Options of `diamonds`.
#[derive(Clone, Debug)]
pub struct DiamondsArgs {
    /// Glob patterns filtering diamonds by top or bottom node (OR).
    pub pattern: Vec<String>,
    /// Match patterns against the id or the label.
    pub key: MatchKey,
    /// Only report diamonds with shortest path >= N edges.
    pub min_depth: Option<usize>,
    /// Suppress edges between different diamond subgraphs.
    pub no_cross_edges: bool,
}

impl Default for DiamondsArgs {
    fn default() -> (r: DiamondsArgs)
        ensures
            r.pattern@.len() == 0,
            r.key == MatchKey::Label,
            r.min_depth is None,
            !r.no_cross_edges,
    {
        DiamondsArgs { pattern: Vec::new(), key: MatchKey::Label, min_depth: None, no_cross_edges: false }
    }
}

impl DiamondsArgs {
    pub fn pattern(self, p: &str) -> (r: Self)
        ensures
            strs(r.pattern@) == strs(self.pattern@).push(p@),
            r.key == self.key && r.min_depth == self.min_depth && r.no_cross_edges == self.no_cross_edges,
    {
        let mut s = self;
        let ghost before = s.pattern@;
        s.pattern.push(p.to_owned());
        assert(strs(s.pattern@) =~= strs(before).push(p@));
        s
    }

    pub fn key(self, k: MatchKey) -> (r: Self)
        ensures
            r.key == k,
            r.pattern@ == self.pattern@ && r.min_depth == self.min_depth,
            r.no_cross_edges == self.no_cross_edges,
    {
        let mut s = self;
        s.key = k;
        s
    }

    pub fn min_depth(self, n: usize) -> (r: Self)
        ensures
            r.min_depth == Some(n),
            r.pattern@ == self.pattern@ && r.key == self.key,
            r.no_cross_edges == self.no_cross_edges,
    {
        let mut s = self;
        s.min_depth = Some(n);
        s
    }

    pub fn no_cross_edges(self) -> (r: Self)
        ensures
            r.no_cross_edges,
            r.pattern@ == self.pattern@ && r.key == self.key && r.min_depth == self.min_depth,
    {
        let mut s = self;
        s.no_cross_edges = true;
        s
    }
}

} // verus!

verus! {

/// The parents of `b`: sources of its incoming edges, newest edge first.
pub open spec fn parents_of(edges: Seq<(usize, usize)>, b: usize) -> Seq<usize> {
    neighbor_seq(edges, b, false)
}

/// Every node that reaches `p` (including `p`).
pub open spec fn ancestors(edges: Seq<(usize, usize)>, n: nat, p: usize) -> Set<usize> {
    bfs_spec(edges, n, set![p], false, None)
}

/// Whether no child of `t` lies in `c`: `t` is a lowest node of `c`.
pub open spec fn lowest_in(edges: Seq<(usize, usize)>, c: Set<usize>, t: usize) -> bool {
    forall|v: usize| #[trigger] linked(edges, t, v, true) ==> !c.contains(v)
}

/// The common ancestors of parents `i` and `j` of `b`.
pub open spec fn common_of(edges: Seq<(usize, usize)>, n: nat, b: usize, i: int, j: int) -> Set<usize> {
    ancestors(edges, n, parents_of(edges, b)[i]).intersect(ancestors(edges, n, parents_of(edges, b)[j]))
}

/// The diamonds (top, bottom): for two different parent slots of `bottom`,
/// `top` is a lowest common ancestor of the two parents.
pub open spec fn diamond_found(edges: Seq<(usize, usize)>, n: nat) -> Set<(usize, usize)> {
    Set::new(|p: (usize, usize)| p.1 < n && exists|i: int, j: int|
        0 <= i < j < parents_of(edges, p.1).len() && #[trigger] common_of(edges, n, p.1, i, j).contains(p.0)
            && lowest_in(edges, common_of(edges, n, p.1, i, j), p.0))
}

/// The smallest `k` in `1 ..= m` with `to` within `k` edges of `from`.
pub open spec fn first_hit(edges: Seq<(usize, usize)>, from: usize, to: usize, m: nat) -> Option<nat>
    decreases m,
{
    if m == 0 {
        None
    } else {
        match first_hit(edges, from, to, (m - 1) as nat) {
            Some(k) => Some(k),
            None => if reach(edges, set![from], true, m).contains(to) {
                Some(m)
            } else {
                None
            },
        }
    }
}

/// The length of a shortest path from `from` to `to`, `usize::MAX` when
/// there is none.
pub open spec fn shortest(edges: Seq<(usize, usize)>, n: nat, from: usize, to: usize) -> nat {
    if from == to {
        0
    } else {
        match first_hit(edges, from, to, n) {
            Some(k) => k,
            None => usize::MAX as nat,
        }
    }
}

/// Whether diamond `p` passes the pattern and depth options: a pattern
/// matches its top or its bottom, and its shortest path is long enough.
pub open spec fn diamond_wanted(nodes: Seq<(Seq<char>, NodeView)>, edges: Seq<(usize, usize)>, args: DiamondsArgs, p: (usize, usize)) -> bool {
    let pats = strs(args.pattern@);
    &&& (pats.len() == 0 || any_matches(pats, match_text(nodes[p.0 as int].0, nodes[p.0 as int].1, args.key))
        || any_matches(pats, match_text(nodes[p.1 as int].0, nodes[p.1 as int].1, args.key)))
    &&& match args.min_depth {
        Some(d) => shortest(edges, nodes.len(), p.0, p.1) >= d,
        None => true,
    }
}

/// The diamonds kept by the pattern and depth options.
pub open spec fn diamond_selected(nodes: Seq<(Seq<char>, NodeView)>, edges: Seq<(usize, usize)>, args: DiamondsArgs) -> Set<(usize, usize)> {
    diamond_found(edges, nodes.len()).filter(|p: (usize, usize)| diamond_wanted(nodes, edges, args, p))
}

/// Diamonds ordered by top id, then bottom id.
pub open spec fn pair_before(nodes: Seq<(Seq<char>, NodeView)>, p: (usize, usize), q: (usize, usize)) -> bool {
    let (a, b) = (nodes[p.0 as int].0, nodes[q.0 as int].0);
    seq_less(a, b) || (a == b && seq_less(nodes[p.1 as int].0, nodes[q.1 as int].0))
}

pub open spec fn sorted_pairs(nodes: Seq<(Seq<char>, NodeView)>, s: Seq<(usize, usize)>) -> bool {
    forall|k: int| 0 <= k < s.len() - 1 ==> #[trigger] pair_before(nodes, s[k], s[k + 1])
}

/// The nodes of diamond `p`: on some path from its top to its bottom.
pub open spec fn diamond_ids(nodes: Seq<(Seq<char>, NodeView)>, edges: Seq<(usize, usize)>, p: (usize, usize)) -> Set<Seq<char>> {
    let n = nodes.len();
    kept_ids(nodes, bfs_spec(edges, n, set![p.1], false, None).intersect(bfs_spec(edges, n, set![p.0], true, None)))
}

pub open spec fn diamond_name(nodes: Seq<(Seq<char>, NodeView)>, p: (usize, usize)) -> Seq<char> {
    nodes[p.0 as int].0 + seq!['.', '.'] + nodes[p.1 as int].0
}

/// The subgraph of one diamond: its nodes, no edges.
pub open spec fn diamond_subgraph(nodes: Seq<(Seq<char>, NodeView)>, edges: Seq<(usize, usize)>, p: (usize, usize)) -> GraphView {
    GraphView {
        id: Some(diamond_name(nodes, p)),
        attrs: Seq::empty(),
        nodes: filter_nodes(nodes, diamond_ids(nodes, edges, p)),
        edges: Seq::empty(),
        subgraphs: Seq::empty(),
    }
}

/// Whether edge `e` lies inside one of the diamonds `s`.
pub open spec fn internal_edge(nodes: Seq<(Seq<char>, NodeView)>, edges: Seq<(usize, usize)>, s: Seq<(usize, usize)>, e: EdgeView) -> bool {
    exists|k: int| 0 <= k < s.len() && #[trigger] diamond_ids(nodes, edges, s[k]).contains(e.from)
        && diamond_ids(nodes, edges, s[k]).contains(e.to)
}

/// Whether node `x` lies in some diamond of `s`.
pub open spec fn in_some_diamond(nodes: Seq<(Seq<char>, NodeView)>, edges: Seq<(usize, usize)>, s: Seq<(usize, usize)>, x: Seq<char>) -> bool {
    exists|k: int| 0 <= k < s.len() && #[trigger] diamond_ids(nodes, edges, s[k]).contains(x)
}

/// Whether edge `e` goes to the top level: inside a diamond, or between
/// diamond nodes unless cross edges are suppressed.
pub open spec fn root_edge_wanted(
    nodes: Seq<(Seq<char>, NodeView)>,
    edges: Seq<(usize, usize)>,
    s: Seq<(usize, usize)>,
    no_cross: bool,
    e: EdgeView,
) -> bool {
    internal_edge(nodes, edges, s, e) || (!no_cross && in_some_diamond(nodes, edges, s, e.from)
        && in_some_diamond(nodes, edges, s, e.to))
}

/// The wanted edges of `es`, each (from, to) pair once, first occurrence kept.
pub open spec fn root_edges(
    nodes: Seq<(Seq<char>, NodeView)>,
    edges: Seq<(usize, usize)>,
    s: Seq<(usize, usize)>,
    no_cross: bool,
    es: Seq<EdgeView>,
) -> Seq<EdgeView>
    decreases es.len(),
{
    if es.len() == 0 {
        seq![]
    } else {
        let rest = root_edges(nodes, edges, s, no_cross, es.drop_last());
        let e = es.last();
        if root_edge_wanted(nodes, edges, s, no_cross, e) && !(exists|q: int|
            0 <= q < rest.len() && #[trigger] rest[q].from == e.from && rest[q].to == e.to) {
            rest.push(e)
        } else {
            rest
        }
    }
}

/// The diamonds output for the ordered diamonds `s`.
pub open spec fn diamonds_view(g: GraphView, args: DiamondsArgs, s: Seq<(usize, usize)>) -> GraphView {
    let nodes = all_nodes_spec(g);
    let edges = flat_edges(nodes, collect_edges(g));
    GraphView {
        id: None,
        attrs: Seq::empty(),
        nodes: Seq::empty(),
        edges: root_edges(nodes, edges, s, args.no_cross_edges, collect_edges(g)),
        subgraphs: Seq::new(s.len(), |k: int| diamond_subgraph(nodes, edges, s[k])),
    }
}

/// What `diamonds` returns.
pub open spec fn diamonds_result(g: GraphView, args: DiamondsArgs, r: Result<DepGraph, PatternError>) -> bool {
    let nodes = all_nodes_spec(g);
    let edges = flat_edges(nodes, collect_edges(g));
    let pats = strs(args.pattern@);
    let sel = diamond_selected(nodes, edges, args);
    match r {
        Err(e) => pats.len() > 0 && build_outcome(pats, Err(e)),
        Ok(out) => (pats.len() > 0 ==> all_parse(pats)) && if sel.is_empty() {
            out@ == empty_graph_view()
        } else {
            exists|s: Seq<(usize, usize)>|
                s.to_set() == sel && s.no_duplicates() && sorted_pairs(nodes, s) && out@ == #[trigger] diamonds_view(g, args, s)
        },
    }
}

} // verus!

verus! {

/// The lowest nodes of `c`, as `lowest_commons` finds them.
pub open spec fn lowest_set(edges: Seq<(usize, usize)>, n: nat, c: Set<usize>) -> Set<usize> {
    Set::new(|t: usize| t < n && c.contains(t) && lowest_in(edges, c, t))
}

/// The diamonds with bottom `b` found from the parent slot pairs `(i, j)`
/// that come before `(pi, pj)`.
pub open spec fn diamonds_at(edges: Seq<(usize, usize)>, n: nat, b: usize, pi: int, pj: int) -> Set<(usize, usize)> {
    Set::new(|p: (usize, usize)| p.1 == b && exists|i: int, j: int|
        0 <= i < j < parents_of(edges, b).len() && (i < pi || (i == pi && j < pj))
            && #[trigger] common_of(edges, n, b, i, j).contains(p.0) && lowest_in(edges, common_of(edges, n, b, i, j), p.0))
}

/// The pairs `(t, b)` for `t` in `s`.
pub open spec fn tagged(s: Seq<usize>, b: usize) -> Set<(usize, usize)> {
    Set::new(|p: (usize, usize)| p.1 == b && s.contains(p.0))
}

proof fn lemma_tagged_push(s: Seq<usize>, b: usize, t: usize, x: (usize, usize))
    ensures
        tagged(s.push(t), b).contains(x) <==> tagged(s, b).contains(x) || x == (t, b),
{
    if s.push(t).contains(x.0) && x.0 != t {
        let w = choose|w: int| 0 <= w < s.len() + 1 && #[trigger] s.push(t)[w] == x.0;
        assert(s[w] == x.0);
    }
    if s.contains(x.0) {
        let w = choose|w: int| 0 <= w < s.len() && #[trigger] s[w] == x.0;
        assert(s.push(t)[w] == x.0);
    }
    assert(s.push(t)[s.len() as int] == t);
}

/// The tops for one pair of ancestor sets: common ancestors none of whose
/// children is a common ancestor, in position order.
fn lowest_commons(view: &FlatGraphView, ai: &HashSet<usize>, aj: &HashSet<usize>) -> (r: Vec<usize>)
    requires
        view.wf(),
    ensures
        r@.to_set() == lowest_set(view.edges(), view.nodes().len(), ai@.intersect(aj@)),
        r@.no_duplicates(),
{
    broadcast use vstd::std_specs::hash::group_hash_axioms;
    let ghost edges = view.edges();
    let ghost c = ai@.intersect(aj@);
    let n = crate::pg::pg_count(&view.pg);
    let mut r: Vec<usize> = Vec::new();
    let mut t: usize = 0;
    while t < n
        invariant
            view.wf(),
            edges == view.edges(),
            n == view.nodes().len(),
            t <= n,
            c == ai@.intersect(aj@),
            r@.to_set() == lowest_set(edges, n as nat, c).intersect(super::positions(t as nat)),
            forall|k: int| 0 <= k < r@.len() ==> r@[k] < t,
            r@.no_duplicates(),
        decreases n - t,
    {
        if ai.contains(&t) && aj.contains(&t) {
            let ch = crate::pg::pg_neighbors(&view.pg, t, true);
            proof {
                crate::pg::lemma_neighbor_seq(edges, t, true);
            }
            let mut lowest = true;
            let mut k: usize = 0;
            while k < ch.len()
                invariant
                    k <= ch@.len(),
                    c == ai@.intersect(aj@),
                    forall|v: usize| ch@.contains(v) <==> linked(edges, t, v, true),
                    lowest ==> forall|q: int| 0 <= q < k ==> !c.contains(#[trigger] ch@[q]),
                    !lowest ==> exists|q: int| 0 <= q < k && c.contains(#[trigger] ch@[q]),
                decreases ch@.len() - k,
            {
                let x = ch[k];
                let both = ai.contains(&x) && aj.contains(&x);
                assert(both == c.contains(ch@[k as int]));
                if both {
                    lowest = false;
                }
                k = k + 1;
            }
            proof {
                if lowest {
                    assert forall|v: usize| #[trigger] linked(edges, t, v, true) implies !c.contains(v) by {
                        assert(ch@.contains(v));
                        let q = choose|q: int| 0 <= q < ch@.len() && ch@[q] == v;
                    }
                    assert(lowest_in(edges, c, t));
                } else {
                    let q = choose|q: int| 0 <= q < ch@.len() && c.contains(#[trigger] ch@[q]);
                    assert(ch@.contains(ch@[q]));
                    assert(linked(edges, t, ch@[q], true));
                    assert(!lowest_in(edges, c, t));
                }
            }
            let ghost before = r@;
            if lowest {
                r.push(t);
                proof {
                    before.lemma_push_to_set_commute(t);
                }
            }
            proof {
                assert forall|x: usize| r@.to_set().contains(x) <==> lowest_set(edges, n as nat, c).intersect(super::positions((t + 1) as nat)).contains(x) by {
                    if x == t {
                        if lowest {
                            assert(r@.to_set().contains(t));
                        } else {
                            assert(!before.to_set().contains(t));
                        }
                    }
                }
            }
        } else {
            proof {
                assert(!c.contains(t));
                assert forall|x: usize| r@.to_set().contains(x) <==> lowest_set(edges, n as nat, c).intersect(super::positions((t + 1) as nat)).contains(x) by {
                    if x == t {
                        assert(!r@.to_set().contains(t));
                    }
                }
            }
        }
        t = t + 1;
        assert(r@.to_set() =~= lowest_set(edges, n as nat, c).intersect(super::positions(t as nat)));
    }
    assert(lowest_set(edges, n as nat, c).intersect(super::positions(n as nat)) =~= lowest_set(edges, n as nat, c));
    r
}

/// Whether `v` holds the pair `p`.
fn has_pos_pair(v: &Vec<(usize, usize)>, p: (usize, usize)) -> (r: bool)
    ensures
        r == v@.contains(p),
{
    let mut i: usize = 0;
    while i < v.len()
        invariant
            i <= v@.len(),
            forall|k: int| 0 <= k < i ==> v@[k] != p,
        decreases v@.len() - i,
    {
        if v[i].0 == p.0 && v[i].1 == p.1 {
            assert(v@[i as int] == p);
            return true;
        }
        i = i + 1;
    }
    false
}

/// Every diamond of the graph, each once.
#[verifier::spinoff_prover]
fn find_diamonds(view: &FlatGraphView) -> (r: Vec<(usize, usize)>)
    requires
        view.wf(),
    ensures
        r@.to_set() == diamond_found(view.edges(), view.nodes().len()),
        r@.no_duplicates(),
{
    let ghost edges = view.edges();
    let n = crate::pg::pg_count(&view.pg);
    let ghost nn = n as nat;
    let mut found: Vec<(usize, usize)> = Vec::new();
    let mut b: usize = 0;
    while b < n
        invariant
            view.wf(),
            edges == view.edges(),
            n == view.nodes().len(),
            nn == n,
            b <= n,
            found@.to_set() == diamond_found(edges, nn).filter(|p: (usize, usize)| p.1 < b),
            found@.no_duplicates(),
        decreases n - b,
    {
        let parents = crate::pg::pg_neighbors(&view.pg, b, false);
        let ghost base = found@.to_set();
        proof {
            crate::flat::lemma_flat_edges_within(view.nodes(), collect_edges(view.graph@));
        }
        proof {
            crate::pg::lemma_neighbors_below(edges, nn, b, false);
        }
        let mut anc: Vec<HashSet<usize>> = Vec::new();
        let mut q: usize = 0;
        while q < parents.len()
            invariant
                view.wf(),
                edges == view.edges(),
                n == view.nodes().len(),
                q <= parents@.len(),
                nn == n,
                parents@ == parents_of(edges, b),
                forall|k: int| 0 <= k < parents@.len() ==> parents@[k] < n,
                anc@.len() == q,
                forall|k: int| 0 <= k < q ==> #[trigger] anc@[k]@ == ancestors(edges, nn, parents@[k]),
            decreases parents@.len() - q,
        {
            let seed = vec![parents[q]];
            assert(seed@.to_set() =~= set![parents@[q as int]]);
            anc.push(view.bfs(&seed, false, None));
            q = q + 1;
        }
        let mut i: usize = 0;
        assert(base.union(diamonds_at(edges, nn, b, 0, 0)) =~= base);
        while i < parents.len()
            invariant
                view.wf(),
                edges == view.edges(),
                n == view.nodes().len(),
                nn == n,
                b < n,
                i <= parents@.len(),
                parents@ == parents_of(edges, b),
                forall|k: int| 0 <= k < parents@.len() ==> parents@[k] < n,
                anc@.len() == parents@.len(),
                forall|k: int| 0 <= k < parents@.len() ==> #[trigger] anc@[k]@ == ancestors(edges, nn, parents@[k]),
                base == diamond_found(edges, nn).filter(|p: (usize, usize)| p.1 < b),
                found@.to_set() == base.union(diamonds_at(edges, nn, b, i as int, 0)),
                found@.no_duplicates(),
            decreases parents@.len() - i,
        {
            let mut j: usize = i + 1;
            assert(diamonds_at(edges, nn, b, i as int, 0) =~= diamonds_at(edges, nn, b, i as int, j as int));
            while j < parents.len()
                invariant
                    view.wf(),
                    edges == view.edges(),
                    n == view.nodes().len(),
                    nn == n,
                    b < n,
                    i < j <= parents@.len(),
                    parents@ == parents_of(edges, b),
                    forall|k: int| 0 <= k < parents@.len() ==> parents@[k] < n,
                    anc@.len() == parents@.len(),
                    forall|k: int| 0 <= k < parents@.len() ==> #[trigger] anc@[k]@ == ancestors(edges, nn, parents@[k]),
                    found@.to_set() == base.union(diamonds_at(edges, nn, b, i as int, j as int)),
                    found@.no_duplicates(),
                decreases parents@.len() - j,
            {
                let tops = lowest_commons(view, &anc[i], &anc[j]);
                let ghost c = common_of(edges, nn, b, i as int, j as int);
                assert(anc@[i as int]@.intersect(anc@[j as int]@) == c);
                let ghost f0 = found@.to_set();
                let mut k: usize = 0;
                while k < tops.len()
                    invariant
                        k <= tops@.len(),
                        found@.to_set() == f0.union(tagged(tops@.take(k as int), b)),
                        found@.no_duplicates(),
                    decreases tops@.len() - k,
                {
                    let p = (tops[k], b);
                    let ghost before = found@;
                    if !has_pos_pair(&found, p) {
                        found.push(p);
                        assert(found@[before.len() as int] == p);
                        assert forall|x: (usize, usize)| x != p implies found@.contains(x) == before.contains(x) by {
                            if found@.contains(x) {
                                let w = choose|w: int| 0 <= w < found@.len() && found@[w] == x;
                                assert(before[w] == x);
                            }
                            if before.contains(x) {
                                let w = choose|w: int| 0 <= w < before.len() && before[w] == x;
                                assert(found@[w] == x);
                            }
                        }
                        proof {
                            before.lemma_push_to_set_commute(p);
                            assert forall|x: int, y: int| 0 <= x < y < found@.len() implies found@[x] != found@[y] by {
                                if y == before.len() {
                                    assert(before.contains(before[x]));
                                }
                            }
                        }
                    }
                    proof {
                        assert(tops@.take(k + 1) =~= tops@.take(k as int).push(tops@[k as int]));
                        assert forall|x: (usize, usize)| tagged(tops@.take(k + 1), b).contains(x) <==> tagged(tops@.take(k as int), b).contains(x) || x == p by {
                            if tops@.take(k + 1).contains(x.0) {
                                let w = choose|w: int| 0 <= w < k + 1 && #[trigger] tops@.take(k + 1)[w] == x.0;
                                if w < k {
                                    assert(tops@.take(k as int)[w] == x.0);
                                }
                            }
                            if tops@.take(k as int).contains(x.0) {
                                let w = choose|w: int| 0 <= w < k && #[trigger] tops@.take(k as int)[w] == x.0;
                                assert(tops@.take(k + 1)[w] == x.0);
                            }
                            if x == p {
                                assert(tops@.take(k + 1)[k as int] == x.0);
                            }
                        }
                    }
                    proof {
                        let lhs = found@.to_set();
                        let rhs = f0.union(tagged(tops@.take(k + 1), b));
                        assert(before.to_set() == f0.union(tagged(tops@.take(k as int), b)));
                        assert forall|x: (usize, usize)| lhs.contains(x) <==> rhs.contains(x) by {
                            lemma_tagged_push(tops@.take(k as int), b, tops@[k as int], x);
                            if x == p {
                                assert(found@.contains(p));
                                assert(rhs.contains(p));
                            } else {
                                assert(found@.contains(x) == before.contains(x));
                                assert(before.to_set().contains(x) == before.contains(x));
                                assert(lhs.contains(x) == found@.contains(x));
                            }
                        }
                        assert(lhs =~= rhs);
                    }
                    k = k + 1;
                }
                assert(tops@.take(tops@.len() as int) =~= tops@);
                proof {
                    let add = tagged(tops@, b);
                    let lhs = diamonds_at(edges, nn, b, i as int, (j + 1) as int);
                    let rhs = diamonds_at(edges, nn, b, i as int, j as int).union(add);
                    assert forall|p: (usize, usize)| lhs.contains(p) <==> rhs.contains(p) by {
                        if add.contains(p) {
                            assert(tops@.to_set().contains(p.0));
                            assert(lowest_set(edges, nn, c).contains(p.0));
                        }
                        if lhs.contains(p) && !diamonds_at(edges, nn, b, i as int, j as int).contains(p) {
                            let (i2, j2) = choose|i2: int, j2: int|
                                0 <= i2 < j2 < parents_of(edges, b).len() && (i2 < i || (i2 == i && j2 < j + 1))
                                    && #[trigger] common_of(edges, nn, b, i2, j2).contains(p.0)
                                    && lowest_in(edges, common_of(edges, nn, b, i2, j2), p.0);
                            assert(i2 == i && j2 == j);
                            assert(parents@[i as int] < n);
                            assert forall|x: usize| #[trigger] set![parents@[i as int]].contains(x) implies x < nn by {}
                            crate::flat::lemma_reach_within(edges, nn, set![parents@[i as int]], false, nn);
                            assert(p.0 < n);
                            assert(lowest_set(edges, nn, c).contains(p.0));
                            assert(tops@.to_set().contains(p.0));
                            assert(tops@.contains(p.0));
                        }
                    }
                    assert(lhs =~= rhs);
                }
                j = j + 1;
            }
            assert(diamonds_at(edges, nn, b, i as int, parents@.len() as int) =~= diamonds_at(edges, nn, b, (i + 1) as int, 0));
            i = i + 1;
        }
        proof {
            let next = diamond_found(edges, nn).filter(|p: (usize, usize)| p.1 < b + 1);
            let at = diamonds_at(edges, nn, b, parents@.len() as int, 0);
            assert forall|p: (usize, usize)| next.contains(p) <==> base.union(at).contains(p) by {
                if at.contains(p) {
                    assert(diamond_found(edges, nn).contains(p));
                }
                if next.contains(p) && p.1 == b {
                    assert(at.contains(p));
                }
            }
            assert(next =~= base.union(at));
        }
        b = b + 1;
    }
    assert(diamond_found(edges, nn).filter(|p: (usize, usize)| p.1 < n) =~= diamond_found(edges, nn));
    found
}

} // verus!

verus! {

/// The length of a shortest path from `from` to `to`, searching ever deeper
/// from `from`; `usize::MAX` when `to` cannot be reached.
fn shortest_path_len(view: &FlatGraphView, from: usize, to: usize) -> (r: usize)
    requires
        view.wf(),
        from < view.nodes().len(),
    ensures
        r == shortest(view.edges(), view.nodes().len(), from, to),
{
    if from == to {
        return 0;
    }
    let n = crate::pg::pg_count(&view.pg);
    let seed = vec![from];
    assert(seed@.to_set() =~= set![from]);
    let mut k: usize = 1;
    while k <= n
        invariant
            view.wf(),
            n == view.nodes().len(),
            seed@.to_set() == set![from],
            seed@ == seq![from],
            from < n,
            from != to,
            1 <= k <= n + 1,
            first_hit(view.edges(), from, to, (k - 1) as nat) is None,
        decreases n + 1 - k,
    {
        let reached = view.bfs(&seed, true, Some(k));
        if reached.contains(&to) {
            proof {
                reveal_first_hit_step(view.edges(), from, to, k as nat);
                lemma_first_hit_stays(view.edges(), from, to, k as nat, n as nat);
            }
            return k;
        }
        k = k + 1;
    }
    usize::MAX
}

proof fn reveal_first_hit_step(edges: Seq<(usize, usize)>, from: usize, to: usize, k: nat)
    requires
        k >= 1,
        first_hit(edges, from, to, (k - 1) as nat) is None,
        reach(edges, set![from], true, k).contains(to),
    ensures
        first_hit(edges, from, to, k) == Some(k),
{
}

proof fn lemma_first_hit_stays(edges: Seq<(usize, usize)>, from: usize, to: usize, k: nat, m: nat)
    requires
        first_hit(edges, from, to, k) == Some(k),
        k <= m,
    ensures
        first_hit(edges, from, to, m) == Some(k),
    decreases m - k,
{
    if m > k {
        lemma_first_hit_stays(edges, from, to, k, (m - 1) as nat);
    }
}

} // verus!

verus! {

proof fn lemma_pair_before_total(nodes: Seq<(Seq<char>, NodeView)>, p: (usize, usize), q: (usize, usize))
    requires
        crate::flat::distinct_keys(nodes),
        p.0 < nodes.len() && p.1 < nodes.len() && q.0 < nodes.len() && q.1 < nodes.len(),
    ensures
        p != q ==> (pair_before(nodes, p, q) || pair_before(nodes, q, p)),
        !(pair_before(nodes, p, q) && pair_before(nodes, q, p)),
{
    crate::text::lemma_seq_less_total(nodes[p.0 as int].0, nodes[q.0 as int].0);
    crate::text::lemma_seq_less_total(nodes[p.1 as int].0, nodes[q.1 as int].0);
    if p.0 != q.0 {
        assert(nodes[p.0 as int].0 != nodes[q.0 as int].0);
    }
    if p.1 != q.1 {
        assert(nodes[p.1 as int].0 != nodes[q.1 as int].0);
    }
}

/// Whether diamond `p` sorts before diamond `q`.
fn pair_less(view: &FlatGraphView, p: (usize, usize), q: (usize, usize)) -> (r: bool)
    requires
        view.wf(),
        p.0 < view.nodes().len() && p.1 < view.nodes().len() && q.0 < view.nodes().len() && q.1 < view.nodes().len(),
    ensures
        r == pair_before(view.nodes(), p, q),
{
    proof {
        lemma_ids_by_position(view);
    }
    let a = view.idx_to_id[p.0].as_str();
    let b = view.idx_to_id[q.0].as_str();
    if crate::text::str_less(a, b) {
        return true;
    }
    if !crate::text::str_eq(a, b) {
        return false;
    }
    crate::text::str_less(view.idx_to_id[p.1].as_str(), view.idx_to_id[q.1].as_str())
}

/// Node ids by position agree with the view's nodes.
pub proof fn lemma_ids_by_position_pub(view: &FlatGraphView)
    requires
        view.wf(),
    ensures
        view.idx_to_id@.len() == view.nodes().len(),
        forall|k: int| 0 <= k < view.nodes().len() ==> #[trigger] view.idx_to_id@[k]@ == view.nodes()[k].0,
{
    lemma_ids_by_position(view);
}

/// Whether `v` holds `x`.
pub fn vec_has(v: &Vec<usize>, x: usize) -> (r: bool)
    ensures
        r == v@.contains(x),
{
    let mut i: usize = 0;
    while i < v.len()
        invariant
            i <= v@.len(),
            forall|k: int| 0 <= k < i ==> v@[k] != x,
        decreases v@.len() - i,
    {
        if v[i] == x {
            return true;
        }
        i = i + 1;
    }
    false
}

proof fn lemma_ids_by_position(view: &FlatGraphView)
    requires
        view.wf(),
    ensures
        view.idx_to_id@.len() == view.nodes().len(),
        forall|k: int| 0 <= k < view.nodes().len() ==> #[trigger] view.idx_to_id@[k]@ == view.nodes()[k].0,
{
    let nodes = view.nodes();
    assert(crate::maps::str_views(view.idx_to_id@).len() == view.idx_to_id@.len());
    assert(crate::maps::keys_of(nodes).len() == nodes.len());
    assert forall|k: int| 0 <= k < nodes.len() implies #[trigger] view.idx_to_id@[k]@ == nodes[k].0 by {
        assert(crate::maps::str_views(view.idx_to_id@)[k] == view.idx_to_id@[k]@);
        assert(crate::maps::keys_of(nodes)[k] == nodes[k].0);
    }
}

/// `pairs` ordered by top id, then bottom id.
fn sort_pairs(view: &FlatGraphView, pairs: &Vec<(usize, usize)>) -> (r: Vec<(usize, usize)>)
    requires
        view.wf(),
        pairs@.no_duplicates(),
        forall|k: int| 0 <= k < pairs@.len() ==> (#[trigger] pairs@[k]).0 < view.nodes().len() && pairs@[k].1 < view.nodes().len(),
    ensures
        r@.to_set() == pairs@.to_set(),
        r@.no_duplicates(),
        sorted_pairs(view.nodes(), r@),
{
    let ghost nodes = view.nodes();
    let mut r: Vec<(usize, usize)> = Vec::new();
    let mut m: usize = 0;
    while m < pairs.len()
        invariant
            view.wf(),
            nodes == view.nodes(),
            m <= pairs@.len(),
            pairs@.no_duplicates(),
            forall|k: int| 0 <= k < pairs@.len() ==> (#[trigger] pairs@[k]).0 < nodes.len() && pairs@[k].1 < nodes.len(),
            r@.to_set() == pairs@.take(m as int).to_set(),
            r@.no_duplicates(),
            sorted_pairs(nodes, r@),
            forall|k: int| 0 <= k < r@.len() ==> (#[trigger] r@[k]).0 < nodes.len() && r@[k].1 < nodes.len(),
        decreases pairs@.len() - m,
    {
        let x = pairs[m];
        let mut pos: usize = 0;
        while pos < r.len()
            invariant_except_break
                view.wf(),
                nodes == view.nodes(),
                pos <= r@.len(),
                x.0 < nodes.len() && x.1 < nodes.len(),
                forall|k: int| 0 <= k < r@.len() ==> (#[trigger] r@[k]).0 < nodes.len() && r@[k].1 < nodes.len(),
                forall|k: int| 0 <= k < pos ==> !pair_before(nodes, x, #[trigger] r@[k]),
            ensures
                pos <= r@.len(),
                forall|k: int| 0 <= k < pos ==> !pair_before(nodes, x, #[trigger] r@[k]),
                pos < r@.len() ==> pair_before(nodes, x, r@[pos as int]),
            decreases r@.len() - pos,
        {
            if pair_less(view, x, r[pos]) {
                break;
            }
            pos = pos + 1;
        }
        proof {
            assert(!pairs@.take(m as int).contains(x)) by {
                if pairs@.take(m as int).contains(x) {
                    let w = choose|w: int| 0 <= w < m && pairs@.take(m as int)[w] == x;
                    assert(pairs@[w] == pairs@[m as int]);
                }
            }
            assert(!r@.to_set().contains(x));
            assert(!r@.contains(x));
        }
        let ghost before = r@;
        assert(sorted_pairs(nodes, before));
        r.insert(pos, x);
        proof {
            assert(pairs@.take(m + 1) =~= pairs@.take(m as int).push(x));
            pairs@.take(m as int).lemma_push_to_set_commute(x);
            assert forall|y: (usize, usize)| r@.contains(y) <==> before.contains(y) || y == x by {
                if r@.contains(y) {
                    let w = choose|w: int| 0 <= w < r@.len() && r@[w] == y;
                    if w < pos {
                        assert(before[w] == y);
                    } else if w > pos {
                        assert(before[w - 1] == y);
                    }
                }
                if before.contains(y) {
                    let w = choose|w: int| 0 <= w < before.len() && before[w] == y;
                    if w < pos {
                        assert(r@[w] == y);
                    } else {
                        assert(r@[w + 1] == y);
                    }
                }
                if y == x {
                    assert(r@[pos as int] == x);
                }
            }
            assert(r@.to_set() =~= pairs@.take(m + 1).to_set());
            assert forall|a: int, b: int| 0 <= a < b < r@.len() implies r@[a] != r@[b] by {
                if a == pos {
                    assert(before.contains(r@[b]));
                } else if b == pos {
                    assert(before.contains(r@[a]));
                } else {
                    let a2 = if a < pos { a } else { a - 1 };
                    let b2 = if b < pos { b } else { b - 1 };
                    assert(r@[a] == before[a2] && r@[b] == before[b2]);
                }
            }
            assert forall|k: int| 0 <= k < r@.len() - 1 implies #[trigger] pair_before(nodes, r@[k], r@[k + 1]) by {
                if k + 1 == pos {
                    assert(r@[k] == before[k]);
                    assert(!pair_before(nodes, x, before[k]));
                    assert(before[k] != x);
                    lemma_pair_before_total(nodes, before[k], x);
                } else if k == pos {
                    assert(r@[k] == x);
                    assert(r@[k + 1] == before[k]);
                    assert(pair_before(nodes, x, before[pos as int]));
                } else if k < pos {
                    assert(r@[k] == before[k] && r@[k + 1] == before[k + 1]);
                    assert(pair_before(nodes, before[k], before[k + 1]));
                } else {
                    assert(r@[k] == before[k - 1] && r@[k + 1] == before[k]);
                    assert(pair_before(nodes, before[k - 1], before[(k - 1) + 1]));
                }
            }
        }
        m = m + 1;
    }
    assert(pairs@.take(pairs@.len() as int) =~= pairs@);
    r
}

proof fn lemma_found_within(edges: Seq<(usize, usize)>, n: nat)
    requires
        crate::flat::edges_within(edges, n),
    ensures
        forall|p: (usize, usize)| #[trigger] diamond_found(edges, n).contains(p) ==> p.0 < n && p.1 < n,
{
    assert forall|p: (usize, usize)| #[trigger] diamond_found(edges, n).contains(p) implies p.0 < n && p.1 < n by {
        let (i, j) = choose|i: int, j: int|
            0 <= i < j < parents_of(edges, p.1).len() && #[trigger] common_of(edges, n, p.1, i, j).contains(p.0)
                && lowest_in(edges, common_of(edges, n, p.1, i, j), p.0);
        crate::pg::lemma_neighbors_below(edges, n, p.1, false);
        let par = parents_of(edges, p.1)[i];
        assert(par < n);
        assert forall|x: usize| #[trigger] set![par].contains(x) implies x < n by {}
        crate::flat::lemma_reach_within(edges, n, set![par], false, n);
    }
}

/// The text of node `t` for matching.
fn node_text(all: &IndexMap<String, NodeInfo>, t: usize, key: MatchKey) -> (r: &str)
    requires
        t < node_entries(*all).len(),
    ensures
        r@ == match_text(node_views(node_entries(*all))[t as int].0, node_views(node_entries(*all))[t as int].1, key),
{
    let (id, info) = node_map_get_index(all, t).unwrap();
    match key {
        MatchKey::Id => id.as_str(),
        MatchKey::Label => info.label.as_str(),
    }
}

/// Whether some set of `keeps` holds node `id`.
fn in_any(view: &FlatGraphView, keeps: &Vec<HashSet<usize>>, id: &str) -> (r: bool)
    requires
        view.wf(),
    ensures
        r == (exists|k: int| 0 <= k < keeps@.len() && #[trigger] kept_ids(view.nodes(), keeps@[k]@).contains(id@)),
{
    let mut k: usize = 0;
    while k < keeps.len()
        invariant
            view.wf(),
            k <= keeps@.len(),
            forall|q: int| 0 <= q < k ==> !#[trigger] kept_ids(view.nodes(), keeps@[q]@).contains(id@),
        decreases keeps@.len() - k,
    {
        if view.keeps(&keeps[k], id) {
            return true;
        }
        k = k + 1;
    }
    false
}

/// Whether some set of `keeps` holds both `a` and `b`.
fn in_one(view: &FlatGraphView, keeps: &Vec<HashSet<usize>>, a: &str, b: &str) -> (r: bool)
    requires
        view.wf(),
    ensures
        r == (exists|k: int| 0 <= k < keeps@.len() && #[trigger] kept_ids(view.nodes(), keeps@[k]@).contains(a@)
            && kept_ids(view.nodes(), keeps@[k]@).contains(b@)),
{
    let mut k: usize = 0;
    while k < keeps.len()
        invariant
            view.wf(),
            k <= keeps@.len(),
            forall|q: int| 0 <= q < k ==> !(#[trigger] kept_ids(view.nodes(), keeps@[q]@).contains(a@)
                && kept_ids(view.nodes(), keeps@[q]@).contains(b@)),
        decreases keeps@.len() - k,
    {
        if view.keeps(&keeps[k], a) && view.keeps(&keeps[k], b) {
            return true;
        }
        k = k + 1;
    }
    false
}

/// Detect diamond dependencies and output them as subgraphs.
///
/// A diamond is a pair (top, bottom) where two different parent slots of
/// `bottom` have `top` as a lowest common ancestor.  Each diamond, ordered by
/// top id then bottom id, becomes a subgraph `<top>..<bottom>` holding the
/// nodes on paths from its top to its bottom; edges stay at the top level:
/// those inside a diamond always, those between diamond nodes unless
/// `no_cross_edges`.  Patterns keep the diamonds whose top or bottom matches;
/// `min_depth` keeps those whose shortest top-to-bottom path is long enough.
pub fn diamonds(graph: &DepGraph, args: &DiamondsArgs) -> (r: Result<DepGraph, PatternError>)
    requires
        all_nodes_spec(graph@).len() < index_limit(),
        collect_edges(graph@).len() < index_limit(),
    ensures
        diamonds_result(graph@, *args, r),
        !all_parse(strs(args.pattern@)) ==> r is Err,
        compiles(strs(args.pattern@)) ==> r is Ok,
{
    broadcast use vstd::std_specs::hash::group_hash_axioms;
    let view = FlatGraphView::new(graph);
    let all_nodes = graph.all_nodes();
    let all_edges = graph.all_edges();
    let ghost nodes = view.nodes();
    let ghost edges = view.edges();
    let ghost pats = strs(args.pattern@);
    let globset = if args.pattern.len() == 0 {
        None
    } else {
        match build_globset(&args.pattern) {
            Ok(s) => Some(s),
            Err(e) => return Err(e),
        }
    };
    let n = node_map_len(&all_nodes);
    let found = find_diamonds(&view);
    proof {
        lemma_found_within(edges, nodes.len());
    }
    let mut sel: Vec<(usize, usize)> = Vec::new();
    let mut i: usize = 0;
    while i < found.len()
        invariant
            view.wf(),
            nodes == view.nodes(),
            edges == view.edges(),
            n == nodes.len(),
            node_views(node_entries(all_nodes)) == nodes,
            pats == strs(args.pattern@),
            globset is None <==> pats.len() == 0,
            globset matches Some(gs) ==> globset_patterns(gs) == pats,
            found@.to_set() == diamond_found(edges, nodes.len()),
            found@.no_duplicates(),
            forall|p: (usize, usize)| #[trigger] diamond_found(edges, nodes.len()).contains(p) ==> p.0 < n && p.1 < n,
            i <= found@.len(),
            sel@.to_set() == found@.take(i as int).to_set().filter(|p: (usize, usize)| diamond_wanted(nodes, edges, *args, p)),
            sel@.no_duplicates(),
            forall|k: int| 0 <= k < sel@.len() ==> (#[trigger] sel@[k]).0 < n && sel@[k].1 < n,
            forall|k: int| 0 <= k < sel@.len() ==> found@.take(i as int).contains(#[trigger] sel@[k]),
        decreases found@.len() - i,
    {
        let p = found[i];
        assert(found@.to_set().contains(p));
        let pat_ok = match &globset {
            None => true,
            Some(gs) => {
                let tt = node_text(&all_nodes, p.0, args.key);
                let bt = node_text(&all_nodes, p.1, args.key);
                crate::glob::set_is_match(gs, tt) || crate::glob::set_is_match(gs, bt)
            },
        };
        let depth_ok = match args.min_depth {
            Some(d) => shortest_path_len(&view, p.0, p.1) >= d,
            None => true,
        };
        assert((pat_ok && depth_ok) == diamond_wanted(nodes, edges, *args, p));
        let ghost before = sel@;
        proof {
            assert(!found@.take(i as int).contains(p)) by {
                if found@.take(i as int).contains(p) {
                    let w = choose|w: int| 0 <= w < i && #[trigger] found@.take(i as int)[w] == p;
                    assert(found@[w] == found@[i as int]);
                }
            }
            assert(found@.take(i + 1) =~= found@.take(i as int).push(p));
            found@.take(i as int).lemma_push_to_set_commute(p);
        }
        if pat_ok && depth_ok {
            sel.push(p);
            proof {
                before.lemma_push_to_set_commute(p);
                assert forall|a: int, b: int| 0 <= a < b < sel@.len() implies sel@[a] != sel@[b] by {
                    if b == before.len() {
                        assert(found@.take(i as int).contains(sel@[a]));
                    }
                }
            }
        }
        proof {
            assert forall|k: int| 0 <= k < sel@.len() implies found@.take(i + 1).contains(#[trigger] sel@[k]) by {
                if k < before.len() {
                    assert(found@.take(i as int).contains(before[k]));
                    let w = choose|w: int| 0 <= w < i && #[trigger] found@.take(i as int)[w] == before[k];
                    assert(found@.take(i + 1)[w] == before[k]);
                } else {
                    assert(found@.take(i + 1)[i as int] == p);
                }
            }
        }
        i = i + 1;
        assert(sel@.to_set() =~= found@.take(i as int).to_set().filter(|p: (usize, usize)| diamond_wanted(nodes, edges, *args, p)));
    }
    assert(found@.take(found@.len() as int) =~= found@);
    let ghost selected = diamond_selected(nodes, edges, *args);
    assert(sel@.to_set() =~= selected);
    if sel.len() == 0 {
        assert(selected =~= Set::<(usize, usize)>::empty());
        return Ok(DepGraph::default());
    }
    assert(sel@.to_set().contains(sel@[0]));
    let sorted = sort_pairs(&view, &sel);
    proof {
        lemma_ids_by_position(&view);
        assert forall|q: int| 0 <= q < sorted@.len() implies (#[trigger] sorted@[q]).0 < n && sorted@[q].1 < n by {
            assert(sorted@.to_set().contains(sorted@[q]));
            assert(sel@.to_set().contains(sorted@[q]));
            let w = choose|w: int| 0 <= w < sel@.len() && sel@[w] == sorted@[q];
            assert(sel@[w].0 < n);
        }
    }
    let mut keeps: Vec<HashSet<usize>> = Vec::new();
    let mut subgraphs: Vec<DepGraph> = Vec::new();
    let mut k: usize = 0;
    while k < sorted.len()
        invariant
            view.wf(),
            view.graph == graph,
            nodes == view.nodes(),
            edges == view.edges(),
            n == nodes.len(),
            node_views(node_entries(all_nodes)) == nodes,
            view.idx_to_id@.len() == n,
            forall|q: int| 0 <= q < n ==> #[trigger] view.idx_to_id@[q]@ == nodes[q].0,
            sorted@.to_set() == selected,
            forall|q: int| 0 <= q < sorted@.len() ==> (#[trigger] sorted@[q]).0 < n && sorted@[q].1 < n,
            k <= sorted@.len(),
            keeps@.len() == k,
            subgraphs@.len() == k,
            forall|q: int| 0 <= q < k ==> #[trigger] kept_ids(nodes, keeps@[q]@) == diamond_ids(nodes, edges, sorted@[q]),
            forall|q: int| 0 <= q < k ==> #[trigger] subgraphs@[q]@ == diamond_subgraph(nodes, edges, sorted@[q]),
        decreases sorted@.len() - k,
    {
        let (top, bottom) = sorted[k];
        assert(sorted@.to_set().contains(sorted@[k as int]) || true);
        let down = vec![bottom];
        let up = vec![top];
        assert(down@.to_set() =~= set![bottom]);
        assert(up@.to_set() =~= set![top]);
        let backward = view.bfs(&down, false, None);
        let forward = view.bfs(&up, true, None);
        let mut keep: HashSet<usize> = HashSet::new();
        let mut v: usize = 0;
        while v < n
            invariant
                v <= n,
                keep@ == backward@.intersect(forward@).intersect(super::positions(v as nat)),
            decreases n - v,
        {
            if backward.contains(&v) && forward.contains(&v) {
                keep.insert(v);
            }
            v = v + 1;
            assert(keep@ =~= backward@.intersect(forward@).intersect(super::positions(v as nat)));
        }
        proof {
            assert forall|x: usize| #[trigger] set![bottom].contains(x) implies x < n by {}
            crate::flat::lemma_reach_within(edges, n as nat, set![bottom], false, n as nat);
            assert(keep@ =~= backward@.intersect(forward@));
        }
        let sub_nodes = view.filter_node_map(&all_nodes, &keep);
        let mut name = view.idx_to_id[top].clone();
        crate::text::push_char(&mut name, '.');
        crate::text::push_char(&mut name, '.');
        crate::text::push_str(&mut name, view.idx_to_id[bottom].as_str());
        assert(name@ =~= diamond_name(nodes, sorted@[k as int]));
        let sg = DepGraph { id: Some(name), attrs: str_map_new(), nodes: sub_nodes, edges: Vec::new(), subgraphs: Vec::new() };
        assert(sg@.subgraphs =~= Seq::<GraphView>::empty());
        assert(sg@.edges =~= Seq::<EdgeView>::empty());
        subgraphs.push(sg);
        keeps.push(keep);
        k = k + 1;
    }
    let ghost s = sorted@;
    let mut out: Vec<Edge> = Vec::new();
    let mut seen: Vec<(String, String)> = Vec::new();
    let ghost es = edge_views(all_edges@);
    let mut e: usize = 0;
    assert(es.take(0) =~= Seq::<EdgeView>::empty());
    while e < all_edges.len()
        invariant
            view.wf(),
            nodes == view.nodes(),
            edges == view.edges(),
            es == edge_views(all_edges@),
            keeps@.len() == s.len(),
            forall|q: int| 0 <= q < s.len() ==> #[trigger] kept_ids(nodes, keeps@[q]@) == diamond_ids(nodes, edges, s[q]),
            e <= all_edges@.len(),
            edge_views(out@) == root_edges(nodes, edges, s, args.no_cross_edges, es.take(e as int)),
            seen@.len() == out@.len(),
            forall|q: int| 0 <= q < seen@.len() ==> (#[trigger] seen@[q]).0@ == out@[q].from@ && seen@[q].1@ == out@[q].to@,
        decreases all_edges@.len() - e,
    {
        let ed = &all_edges[e];
        assert(es.take(e + 1).drop_last() =~= es.take(e as int));
        assert(es.take(e + 1).last() == ed@);
        let internal = in_one(&view, &keeps, ed.from.as_str(), ed.to.as_str());
        let from_in = in_any(&view, &keeps, ed.from.as_str());
        let to_in = in_any(&view, &keeps, ed.to.as_str());
        proof {
            assert(internal == internal_edge(nodes, edges, s, ed@)) by {
                if internal {
                    let q = choose|q: int| 0 <= q < keeps@.len() && #[trigger] kept_ids(nodes, keeps@[q]@).contains(ed.from@)
                        && kept_ids(nodes, keeps@[q]@).contains(ed.to@);
                    assert(diamond_ids(nodes, edges, s[q]).contains(ed@.from));
                }
                if internal_edge(nodes, edges, s, ed@) {
                    let q = choose|q: int| 0 <= q < s.len() && #[trigger] diamond_ids(nodes, edges, s[q]).contains(ed@.from)
                        && diamond_ids(nodes, edges, s[q]).contains(ed@.to);
                    assert(kept_ids(nodes, keeps@[q]@).contains(ed.from@));
                }
            }
            assert(from_in == in_some_diamond(nodes, edges, s, ed@.from)) by {
                if from_in {
                    let q = choose|q: int| 0 <= q < keeps@.len() && #[trigger] kept_ids(nodes, keeps@[q]@).contains(ed.from@);
                    assert(diamond_ids(nodes, edges, s[q]).contains(ed@.from));
                }
                if in_some_diamond(nodes, edges, s, ed@.from) {
                    let q = choose|q: int| 0 <= q < s.len() && #[trigger] diamond_ids(nodes, edges, s[q]).contains(ed@.from);
                    assert(kept_ids(nodes, keeps@[q]@).contains(ed.from@));
                }
            }
            assert(to_in == in_some_diamond(nodes, edges, s, ed@.to)) by {
                if to_in {
                    let q = choose|q: int| 0 <= q < keeps@.len() && #[trigger] kept_ids(nodes, keeps@[q]@).contains(ed.to@);
                    assert(diamond_ids(nodes, edges, s[q]).contains(ed@.to));
                }
                if in_some_diamond(nodes, edges, s, ed@.to) {
                    let q = choose|q: int| 0 <= q < s.len() && #[trigger] diamond_ids(nodes, edges, s[q]).contains(ed@.to);
                    assert(kept_ids(nodes, keeps@[q]@).contains(ed.to@));
                }
            }
        }
        let wanted = internal || (!args.no_cross_edges && from_in && to_in);
        let dup = super::select::has_pair(&seen, ed.from.as_str(), ed.to.as_str());
        proof {
            let rest = edge_views(out@);
            assert(dup == (exists|q: int| 0 <= q < rest.len() && #[trigger] rest[q].from == ed@.from && rest[q].to == ed@.to)) by {
                if dup {
                    let q = choose|q: int| 0 <= q < seen@.len() && #[trigger] seen@[q].0@ == ed.from@ && seen@[q].1@ == ed.to@;
                    assert(rest[q].from == ed@.from && rest[q].to == ed@.to);
                }
                if exists|q: int| 0 <= q < rest.len() && #[trigger] rest[q].from == ed@.from && rest[q].to == ed@.to {
                    let q = choose|q: int| 0 <= q < rest.len() && #[trigger] rest[q].from == ed@.from && rest[q].to == ed@.to;
                    assert(seen@[q].0@ == ed.from@ && seen@[q].1@ == ed.to@);
                }
            }
        }
        if wanted && !dup {
            let d = ed.duplicate();
            let ghost before = out@;
            out.push(d);
            seen.push((ed.from.clone(), ed.to.clone()));
            assert(edge_views(out@) =~= edge_views(before).push(d@));
        }
        e = e + 1;
    }
    assert(es.take(all_edges@.len() as int) =~= es);
    let r = DepGraph { id: None, attrs: str_map_new(), nodes: node_map_new(), edges: out, subgraphs };
    proof {
        assert forall|q: int| 0 <= q < s.len() implies r@.subgraphs[q] == diamond_subgraph(nodes, edges, s[q]) by {
            crate::graph::lemma_graph_view_subgraph(r, q);
        }
        assert(r@.subgraphs =~= Seq::new(s.len(), |q: int| diamond_subgraph(nodes, edges, s[q])));
        assert(r@.nodes =~= Seq::<(Seq<char>, NodeView)>::empty());
        assert(r@ == diamonds_view(graph@, *args, s));
        assert(!selected.is_empty());
    }
    Ok(r)
}

} // verus!

verus! {

/// Whether the output graph has a subgraph named for diamond `p`
/// (`top..bottom`) holding exactly the nodes on paths from top to bottom.
pub open spec fn shows_diamond(out: GraphView, nodes: Seq<(Seq<char>, NodeView)>, edges: Seq<(usize, usize)>, p: (usize, usize)) -> bool {
    exists|k: int|
        0 <= k < out.subgraphs.len() && #[trigger] out.subgraphs[k] == diamond_subgraph(nodes, edges, p)
}

/// Law: with patterns given, a diamond is shown when a pattern matches its
/// top node or its bottom node (and it is deep enough); without patterns,
/// every diamond deep enough is shown.
pub proof fn lemma_diamond_shown(g: GraphView, args: DiamondsArgs, out: DepGraph, p: (usize, usize))
    requires
        diamonds_result(g, args, Ok(out)),
        diamond_found(flat_edges(all_nodes_spec(g), collect_edges(g)), all_nodes_spec(g).len()).contains(p),
        strs(args.pattern@).len() == 0
            || any_matches(strs(args.pattern@), match_text(all_nodes_spec(g)[p.0 as int].0, all_nodes_spec(g)[p.0 as int].1, args.key))
            || any_matches(strs(args.pattern@), match_text(all_nodes_spec(g)[p.1 as int].0, all_nodes_spec(g)[p.1 as int].1, args.key)),
        match args.min_depth {
            Some(d) => shortest(flat_edges(all_nodes_spec(g), collect_edges(g)), all_nodes_spec(g).len(), p.0, p.1) >= d,
            None => true,
        },
    ensures
        shows_diamond(out@, all_nodes_spec(g), flat_edges(all_nodes_spec(g), collect_edges(g)), p),
{
    let nodes = all_nodes_spec(g);
    let edges = flat_edges(nodes, collect_edges(g));
    let sel = diamond_selected(nodes, edges, args);
    assert(sel.contains(p));
    let s = choose|s: Seq<(usize, usize)>|
        s.to_set() == sel && s.no_duplicates() && sorted_pairs(nodes, s) && out@ == #[trigger] diamonds_view(g, args, s);
    assert(s.to_set().contains(p));
    let k = choose|k: int| 0 <= k < s.len() && s[k] == p;
    assert(out@.subgraphs[k] == diamond_subgraph(nodes, edges, p));
}

/// Law: each subgraph of the output is a diamond found in the graph whose
/// top or bottom node a pattern matches (any, when no pattern is given).
pub proof fn lemma_diamond_shown_matches(g: GraphView, args: DiamondsArgs, out: DepGraph, k: int)
    requires
        diamonds_result(g, args, Ok(out)),
        0 <= k < out@.subgraphs.len(),
    ensures
        exists|p: (usize, usize)|
            {
                &&& #[trigger] diamond_found(flat_edges(all_nodes_spec(g), collect_edges(g)), all_nodes_spec(g).len()).contains(p)
                &&& out@.subgraphs[k] == diamond_subgraph(all_nodes_spec(g), flat_edges(all_nodes_spec(g), collect_edges(g)), p)
                &&& (strs(args.pattern@).len() == 0
                    || any_matches(strs(args.pattern@), match_text(all_nodes_spec(g)[p.0 as int].0, all_nodes_spec(g)[p.0 as int].1, args.key))
                    || any_matches(strs(args.pattern@), match_text(all_nodes_spec(g)[p.1 as int].0, all_nodes_spec(g)[p.1 as int].1, args.key)))
            },
{
    let nodes = all_nodes_spec(g);
    let edges = flat_edges(nodes, collect_edges(g));
    let sel = diamond_selected(nodes, edges, args);
    if sel.is_empty() {
        assert(out@.subgraphs.len() == 0);
    } else {
        let s = choose|s: Seq<(usize, usize)>|
            s.to_set() == sel && s.no_duplicates() && sorted_pairs(nodes, s) && out@ == #[trigger] diamonds_view(g, args, s);
        let p = s[k];
        assert(s.to_set().contains(p));
        assert(sel.contains(p));
        assert(diamond_found(edges, nodes.len()).contains(p));
    }
}

} // verus!

verus! {

/// Whether `top` is a lowest common ancestor of two entries of the parent
/// list of `bottom`: an ancestor (or the node itself) of both, none of whose
/// children is an ancestor of both.
pub open spec fn closes_at(edges: Seq<(usize, usize)>, top: usize, bottom: usize) -> bool {
    let ps = neighbor_seq(edges, bottom, false);
    exists|i: int, j: int|
        0 <= i < j < ps.len() && #[trigger] crate::algorithm::query::metrics::is_ancestor(edges, top, ps[i])
            && #[trigger] crate::algorithm::query::metrics::is_ancestor(edges, top, ps[j])
            && forall|c: usize|
            #[trigger] linked(edges, top, c, true) ==> !(crate::algorithm::query::metrics::is_ancestor(edges, c, ps[i])
                && crate::algorithm::query::metrics::is_ancestor(edges, c, ps[j]))
}

/// Law: each subgraph of the output is named `top..bottom` for nodes
/// `top` and `bottom` of the graph where `top` is a lowest common ancestor
/// of two of `bottom`'s parents.
pub proof fn lemma_diamond_shown_closes(g: GraphView, args: DiamondsArgs, out: DepGraph, k: int)
    requires
        diamonds_result(g, args, Ok(out)),
        0 <= k < out@.subgraphs.len(),
        all_nodes_spec(g).len() < crate::pg::index_limit(),
    ensures
        exists|top: usize, bottom: usize|
            {
                &&& top < all_nodes_spec(g).len()
                &&& bottom < all_nodes_spec(g).len()
                &&& #[trigger] closes_at(flat_edges(all_nodes_spec(g), collect_edges(g)), top, bottom)
                &&& out@.subgraphs[k].id == Some(all_nodes_spec(g)[top as int].0 + seq!['.', '.'] + all_nodes_spec(g)[bottom as int].0)
            },
{
    let nodes = all_nodes_spec(g);
    let edges = flat_edges(nodes, collect_edges(g));
    let n = nodes.len();
    crate::flat::lemma_flat_edges_within(nodes, collect_edges(g));
    lemma_diamond_shown_matches(g, args, out, k);
    let p = choose|p: (usize, usize)|
        {
            &&& #[trigger] diamond_found(edges, n).contains(p)
            &&& out@.subgraphs[k] == diamond_subgraph(nodes, edges, p)
            &&& (strs(args.pattern@).len() == 0
                || any_matches(strs(args.pattern@), match_text(nodes[p.0 as int].0, nodes[p.0 as int].1, args.key))
                || any_matches(strs(args.pattern@), match_text(nodes[p.1 as int].0, nodes[p.1 as int].1, args.key)))
        };
    let ps = parents_of(edges, p.1);
    let (i, j) = choose|i: int, j: int|
        0 <= i < j < ps.len() && #[trigger] common_of(edges, n, p.1, i, j).contains(p.0)
            && lowest_in(edges, common_of(edges, n, p.1, i, j), p.0);
    crate::pg::lemma_neighbors_below(edges, n, p.1, false);
    crate::algorithm::query::metrics::lemma_ancestors_are(edges, n, ps[i], p.0);
    crate::algorithm::query::metrics::lemma_ancestors_are(edges, n, ps[j], p.0);
    assert forall|c: usize| #[trigger] linked(edges, p.0, c, true) implies !(crate::algorithm::query::metrics::is_ancestor(edges, c, ps[i])
        && crate::algorithm::query::metrics::is_ancestor(edges, c, ps[j])) by {
        crate::algorithm::query::metrics::lemma_ancestors_are(edges, n, ps[i], c);
        crate::algorithm::query::metrics::lemma_ancestors_are(edges, n, ps[j], c);
        assert(!common_of(edges, n, p.1, i, j).contains(c));
    }
    assert(closes_at(edges, p.0, p.1));
    // the top is an ancestor of a parent, so a node of the graph
    crate::algorithm::select::lemma_positions_len(n);
    assert forall|y: usize| #[trigger] set![ps[i]].contains(y) implies y < n by {}
    crate::flat::lemma_reach_within(edges, n, set![ps[i]], false, n);
    assert(p.0 < n);
}

/// Law: a node `top` that is a lowest common ancestor of two of the parents
/// of node `bottom` gives a diamond that is shown when a pattern matches its
/// top or its bottom (any, without patterns) and it is deep enough.
pub proof fn lemma_closing_diamond_shown(g: GraphView, args: DiamondsArgs, out: DepGraph, top: usize, bottom: usize)
    requires
        diamonds_result(g, args, Ok(out)),
        all_nodes_spec(g).len() < crate::pg::index_limit(),
        bottom < all_nodes_spec(g).len(),
        closes_at(flat_edges(all_nodes_spec(g), collect_edges(g)), top, bottom),
        strs(args.pattern@).len() == 0
            || any_matches(strs(args.pattern@), match_text(all_nodes_spec(g)[top as int].0, all_nodes_spec(g)[top as int].1, args.key))
            || any_matches(strs(args.pattern@), match_text(all_nodes_spec(g)[bottom as int].0, all_nodes_spec(g)[bottom as int].1, args.key)),
        match args.min_depth {
            Some(d) => shortest(flat_edges(all_nodes_spec(g), collect_edges(g)), all_nodes_spec(g).len(), top, bottom) >= d,
            None => true,
        },
    ensures
        shows_diamond(out@, all_nodes_spec(g), flat_edges(all_nodes_spec(g), collect_edges(g)), (top, bottom)),
{
    let nodes = all_nodes_spec(g);
    let edges = flat_edges(nodes, collect_edges(g));
    let n = nodes.len();
    crate::flat::lemma_flat_edges_within(nodes, collect_edges(g));
    let ps = parents_of(edges, bottom);
    crate::pg::lemma_neighbors_below(edges, n, bottom, false);
    let (i, j) = choose|i: int, j: int|
        0 <= i < j < ps.len() && #[trigger] crate::algorithm::query::metrics::is_ancestor(edges, top, ps[i])
            && #[trigger] crate::algorithm::query::metrics::is_ancestor(edges, top, ps[j])
            && forall|c: usize|
            #[trigger] linked(edges, top, c, true) ==> !(crate::algorithm::query::metrics::is_ancestor(edges, c, ps[i])
                && crate::algorithm::query::metrics::is_ancestor(edges, c, ps[j]));
    crate::algorithm::query::metrics::lemma_ancestors_are(edges, n, ps[i], top);
    crate::algorithm::query::metrics::lemma_ancestors_are(edges, n, ps[j], top);
    assert(common_of(edges, n, bottom, i, j).contains(top));
    assert forall|c: usize| #[trigger] linked(edges, top, c, true) implies !common_of(edges, n, bottom, i, j).contains(c) by {
        crate::algorithm::query::metrics::lemma_ancestors_are(edges, n, ps[i], c);
        crate::algorithm::query::metrics::lemma_ancestors_are(edges, n, ps[j], c);
    }
    assert(lowest_in(edges, common_of(edges, n, bottom, i, j), top));
    let p = (top, bottom);
    assert(p.1 < n && 0 <= i < j < parents_of(edges, p.1).len() && common_of(edges, n, p.1, i, j).contains(p.0)
        && lowest_in(edges, common_of(edges, n, p.1, i, j), p.0));
    assert(diamond_found(edges, n).contains(p));
    lemma_diamond_shown(g, args, out, (top, bottom));
}

} // verus!
