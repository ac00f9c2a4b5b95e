//! The subgraph of all directed paths between matched nodes.
use vstd::prelude::*;

use std::collections::HashSet;

use super::{
    compiles, all_parse, build_globset, build_outcome, hit_positions, hits, positions, set_to_vec, strs, MatchKey,
    PatternError,
};
use crate::flat::{bfs_spec, filter_view, flat_edges, kept_ids, FlatGraphView};
use crate::graph::{all_nodes_spec, collect_edges, DepGraph, GraphView, NodeView};
use crate::maps::node_map_len;
use crate::pg::index_limit;

verus! {

/// Options of `between`.
#[derive(Clone, Debug)]
pub struct BetweenArgs {
    /// Glob patterns selecting query endpoints (OR).
    pub included: Vec<String>,
    /// Glob patterns excluding nodes from the result (OR).
    pub exclude: Vec<String>,
    /// Match patterns against the id or the label.
    pub key: MatchKey,
}

impl Default for BetweenArgs {
    fn default() -> (r: BetweenArgs)
        ensures
            r.included@.len() == 0,
            r.exclude@.len() == 0,
            r.key == MatchKey::Label,
    {
        BetweenArgs { included: Vec::new(), exclude: Vec::new(), key: MatchKey::Label }
    }
}

impl BetweenArgs {
    pub fn included(self, p: &str) -> (r: Self)
        ensures
            strs(r.included@) == strs(self.included@).push(p@),
            r.exclude@ == self.exclude@,
            r.key == self.key,
    {
        let mut s = self;
        let ghost before = s.included@;
        s.included.push(p.to_owned());
        assert(strs(s.included@) =~= strs(before).push(p@));
        s
    }

    pub fn exclude(self, p: &str) -> (r: Self)
        ensures
            strs(r.exclude@) == strs(self.exclude@).push(p@),
            r.included@ == self.included@,
            r.key == self.key,
    {
        let mut s = self;
        let ghost before = s.exclude@;
        s.exclude.push(p.to_owned());
        assert(strs(s.exclude@) =~= strs(before).push(p@));
        s
    }

    pub fn key(self, k: MatchKey) -> (r: Self)
        ensures
            r.key == k,
            r.included@ == self.included@,
            r.exclude@ == self.exclude@,
    {
        let mut s = self;
        s.key = k;
        s
    }
}

/// Whether `s` has two different members.
pub open spec fn two_or_more(s: Set<usize>) -> bool {
    exists|a: usize, b: usize| s.contains(a) && s.contains(b) && a != b
}

/// The nodes on some directed path from one query node to another: reachable
/// from a query node and reaching a different one.
pub open spec fn between_paths(edges: Seq<(usize, usize)>, n: nat, queries: Set<usize>) -> Set<usize> {
    Set::new(|v: usize| exists|a: usize, b: usize|
        queries.contains(a) && queries.contains(b) && a != b
            && #[trigger] bfs_spec(edges, n, set![a], true, None).contains(v)
            && #[trigger] bfs_spec(edges, n, set![b], false, None).contains(v))
}

/// What `between` returns: a pattern error, or the graph restricted to the
/// nodes on paths between matched nodes (none when fewer than two match),
/// less the excluded ones.
pub open spec fn between_result(g: GraphView, args: BetweenArgs, r: Result<DepGraph, PatternError>) -> bool {
    let nodes = all_nodes_spec(g);
    let n = nodes.len();
    let edges = flat_edges(nodes, collect_edges(g));
    let inc = strs(args.included@);
    let exc = strs(args.exclude@);
    let queries = hits(nodes, inc, false, args.key);
    let excluding = two_or_more(queries) && exc.len() > 0;
    let keep = if !two_or_more(queries) {
        Set::empty()
    } else if excluding {
        between_paths(edges, n, queries).difference(hits(nodes, exc, false, args.key))
    } else {
        between_paths(edges, n, queries)
    };
    match r {
        Err(e) => build_outcome(inc, Err(e)) || (compiles(inc) && excluding && build_outcome(exc, Err(e))),
        Ok(out) => all_parse(inc) && (excluding ==> all_parse(exc)) && out@ == filter_view(g, kept_ids(nodes, keep)),
    }
}

/// Extract the subgraph formed by all directed paths between any two nodes
/// matched by the include patterns: for each ordered pair of different
/// matched nodes, the nodes reachable from the first that reach the second.
/// Nodes matching an exclude pattern are then dropped.
pub fn between(graph: &DepGraph, args: &BetweenArgs) -> (r: Result<DepGraph, PatternError>)
    requires
        all_nodes_spec(graph@).len() < index_limit(),
        collect_edges(graph@).len() < index_limit(),
    ensures
        between_result(graph@, *args, r),
        !all_parse(strs(args.included@)) ==> r is Err,
        compiles(strs(args.included@)) && compiles(strs(args.exclude@)) ==> r is Ok,
{
    broadcast use vstd::std_specs::hash::group_hash_axioms;
    let set = match build_globset(&args.included) {
        Ok(s) => s,
        Err(e) => return Err(e),
    };
    let view = FlatGraphView::new(graph);
    let all = graph.all_nodes();
    let ghost nodes = view.nodes();
    let ghost edges = view.edges();
    let n = node_map_len(&all);
    let hit = hit_positions(&all, &set, args.included.len(), false, args.key);
    let matched = set_to_vec(&hit, n);
    assert(matched@.to_set() =~= hit@);
    let ghost queries = hit@;
    if matched.len() < 2 {
        proof {
            if two_or_more(queries) {
                let (a, b) = choose|a: usize, b: usize| queries.contains(a) && queries.contains(b) && a != b;
                assert(matched@.to_set().contains(a));
                assert(matched@.to_set().contains(b));
            }
        }
        let empty: HashSet<usize> = HashSet::new();
        assert(empty@ =~= Set::<usize>::empty());
        return Ok(view.filter(&empty));
    }
    assert(queries.contains(matched@[0]) && queries.contains(matched@[1]));
    assert(two_or_more(queries));
    let mut forwards: Vec<HashSet<usize>> = Vec::new();
    let mut backwards: Vec<HashSet<usize>> = Vec::new();
    let mut q: usize = 0;
    while q < matched.len()
        invariant
            view.wf(),
            nodes == view.nodes(),
            edges == view.edges(),
            q <= matched@.len(),
            forall|k: int| 0 <= k < matched@.len() ==> matched@[k] < n,
            n == nodes.len(),
            forwards@.len() == q,
            backwards@.len() == q,
            forall|k: int| 0 <= k < q ==> #[trigger] forwards@[k]@ == bfs_spec(edges, n as nat, set![matched@[k]], true, None),
            forall|k: int| 0 <= k < q ==> #[trigger] backwards@[k]@ == bfs_spec(edges, n as nat, set![matched@[k]], false, None),
        decreases matched@.len() - q,
    {
        let seed = vec![matched[q]];
        assert(seed@.to_set() =~= set![matched@[q as int]]);
        forwards.push(view.bfs(&seed, true, None));
        backwards.push(view.bfs(&seed, false, None));
        q = q + 1;
    }
    let ghost paths = between_paths(edges, n as nat, queries);
    let mut keep: HashSet<usize> = HashSet::new();
    let mut v: usize = 0;
    while v < n
        invariant
            v <= n,
            n == nodes.len(),
            forwards@.len() == matched@.len(),
            backwards@.len() == matched@.len(),
            matched@.to_set() == queries,
            forall|a: int, b: int| 0 <= a < b < matched@.len() ==> matched@[a] < matched@[b],
            forall|k: int| 0 <= k < matched@.len() ==> #[trigger] forwards@[k]@ == bfs_spec(edges, n as nat, set![matched@[k]], true, None),
            forall|k: int| 0 <= k < matched@.len() ==> #[trigger] backwards@[k]@ == bfs_spec(edges, n as nat, set![matched@[k]], false, None),
            paths == between_paths(edges, n as nat, queries),
            keep@ == paths.intersect(positions(v as nat)),
        decreases n - v,
    {
        let mut found = false;
        let mut i: usize = 0;
        while i < forwards.len() && !found
            invariant
                i <= forwards@.len() == backwards@.len() == matched@.len(),
                forall|a: int, b: int| 0 <= a < b < matched@.len() ==> matched@[a] < matched@[b],
                forall|k: int| 0 <= k < matched@.len() ==> #[trigger] forwards@[k]@ == bfs_spec(edges, n as nat, set![matched@[k]], true, None),
                forall|k: int| 0 <= k < matched@.len() ==> #[trigger] backwards@[k]@ == bfs_spec(edges, n as nat, set![matched@[k]], false, None),
                matched@.to_set() == queries,
                found ==> paths.contains(v),
                paths == between_paths(edges, n as nat, queries),
                !found ==> forall|a: int, b: int| 0 <= a < i && 0 <= b < matched@.len() && a != b
                    ==> !(forwards@[a]@.contains(v) && backwards@[b]@.contains(v)),
            decreases forwards@.len() - i + (if found { 0int } else { 1int }),
        {
            if forwards[i].contains(&v) {
                let mut j: usize = 0;
                while j < backwards.len() && !found
                    invariant
                        i < forwards@.len() == backwards@.len() == matched@.len(),
                        j <= backwards@.len(),
                        forall|a: int, b: int| 0 <= a < b < matched@.len() ==> matched@[a] < matched@[b],
                        forall|k: int| 0 <= k < matched@.len() ==> #[trigger] forwards@[k]@ == bfs_spec(edges, n as nat, set![matched@[k]], true, None),
                        forall|k: int| 0 <= k < matched@.len() ==> #[trigger] backwards@[k]@ == bfs_spec(edges, n as nat, set![matched@[k]], false, None),
                        matched@.to_set() == queries,
                        forwards@[i as int]@.contains(v),
                        paths == between_paths(edges, n as nat, queries),
                        found ==> paths.contains(v),
                        !found ==> forall|b: int| 0 <= b < j && b != i ==> !backwards@[b]@.contains(v),
                    decreases backwards@.len() - j + (if found { 0int } else { 1int }),
                {
                    if j != i && backwards[j].contains(&v) {
                        proof {
                            let a = matched@[i as int];
                            let b = matched@[j as int];
                            assert(matched@.to_set().contains(a));
                            assert(matched@.to_set().contains(b));
                            assert(a != b);
                            assert(bfs_spec(edges, n as nat, set![a], true, None).contains(v));
                            assert(bfs_spec(edges, n as nat, set![b], false, None).contains(v));
                        }
                        found = true;
                    } else {
                        j = j + 1;
                    }
                }
            }
            if !found {
                i = i + 1;
            }
        }
        proof {
            if paths.contains(v) && !found {
                let (a, b) = choose|a: usize, b: usize| queries.contains(a) && queries.contains(b) && a != b
                    && #[trigger] bfs_spec(edges, n as nat, set![a], true, None).contains(v)
                    && #[trigger] bfs_spec(edges, n as nat, set![b], false, None).contains(v);
                assert(matched@.to_set().contains(a));
                assert(matched@.to_set().contains(b));
                let ia = choose|k: int| 0 <= k < matched@.len() && matched@[k] == a;
                let ib = choose|k: int| 0 <= k < matched@.len() && matched@[k] == b;
                assert(forwards@[ia]@.contains(v));
                assert(backwards@[ib]@.contains(v));
            }
        }
        if found {
            keep.insert(v);
        }
        v = v + 1;
        assert(keep@ =~= paths.intersect(positions(v as nat)));
    }
    proof {
        crate::flat::lemma_flat_edges_within(nodes, collect_edges(graph@));
        assert forall|x: usize| paths.contains(x) implies x < n by {
            let (a, b) = choose|a: usize, b: usize| queries.contains(a) && queries.contains(b) && a != b
                && #[trigger] bfs_spec(edges, n as nat, set![a], true, None).contains(x)
                && #[trigger] bfs_spec(edges, n as nat, set![b], false, None).contains(x);
            assert(matched@.to_set().contains(a));
            crate::flat::lemma_reach_within(edges, n as nat, set![a], true, n as nat);
        }
        assert(keep@ =~= paths);
    }
    if args.exclude.len() > 0 {
        let exc = match build_globset(&args.exclude) {
            Ok(s) => s,
            Err(e) => return Err(e),
        };
        let ex_hits = hit_positions(&all, &exc, args.exclude.len(), false, args.key);
        let mut kept: HashSet<usize> = HashSet::new();
        let mut w: usize = 0;
        while w < n
            invariant
                w <= n,
                kept@ == keep@.difference(ex_hits@).intersect(positions(w as nat)),
            decreases n - w,
        {
            if keep.contains(&w) && !ex_hits.contains(&w) {
                kept.insert(w);
            }
            w = w + 1;
            assert(kept@ =~= keep@.difference(ex_hits@).intersect(positions(w as nat)));
        }
        proof {
            assert forall|x: usize| keep@.contains(x) implies x < n by {}
            assert(kept@ =~= keep@.difference(ex_hits@));
        }
        return Ok(view.filter(&kept));
    }
    Ok(view.filter(&keep))
}

} // verus!
