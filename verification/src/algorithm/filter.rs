//! Removing nodes by glob patterns, optionally cascading.
use vstd::prelude::*;

use std::collections::HashSet;

use super::{
    compiles, all_parse, build_globset, build_outcome, hit_positions, hits, positions, set_to_vec, strs, MatchKey,
    PatternError,
};
use crate::algorithm::select::{bypass_pairs, edge_pairs, endpoint_pairs, insert_edge, insert_edges_view, is_bypass, pair_views};
use crate::flat::{lemma_reach_within, bfs_spec, filter_view, flat_edges, kept_ids, FlatGraphView};
use crate::graph::{all_nodes_spec, collect_edges, node_views, DepGraph, GraphView, NodeView};
use crate::maps::{node_entries, node_map_len};
use crate::pg::index_limit;

verus! {

/// Options of `filter`.
#[derive(Clone, Debug)]
pub struct FilterArgs {
    /// Glob patterns of nodes to remove.
    pub pattern: Vec<String>,
    /// Combine multiple patterns with AND instead of OR.
    pub and: bool,
    /// Match patterns against the id or the label.
    pub key: MatchKey,
    /// Also remove all dependencies of matched nodes.
    pub deps: bool,
    /// Also remove all ancestors of matched nodes.
    pub ancestors: bool,
    /// Preserve connectivity when removing nodes.
    pub preserve_connectivity: bool,
}

impl Default for FilterArgs {
    fn default() -> (r: FilterArgs)
        ensures
            r.pattern@.len() == 0,
            !r.and && !r.deps && !r.ancestors && !r.preserve_connectivity,
            r.key == MatchKey::Label,
    {
        FilterArgs {
            pattern: Vec::new(),
            and: false,
            key: MatchKey::Label,
            deps: false,
            ancestors: false,
            preserve_connectivity: false,
        }
    }
}

impl FilterArgs {
    pub fn pattern(self, p: &str) -> (r: Self)
        ensures
            strs(r.pattern@) == strs(self.pattern@).push(p@),
            r.and == self.and && r.key == self.key && r.deps == self.deps,
            r.ancestors == self.ancestors && r.preserve_connectivity == self.preserve_connectivity,
    {
        let mut s = self;
        let ghost before = s.pattern@;
        s.pattern.push(p.to_owned());
        assert(strs(s.pattern@) =~= strs(before).push(p@));
        s
    }

    pub fn and(self) -> (r: Self)
        ensures
            r.and,
            r.pattern@ == self.pattern@ && r.key == self.key && r.deps == self.deps,
            r.ancestors == self.ancestors && r.preserve_connectivity == self.preserve_connectivity,
    {
        let mut s = self;
        s.and = true;
        s
    }

    pub fn key(self, k: MatchKey) -> (r: Self)
        ensures
            r.key == k,
            r.pattern@ == self.pattern@ && r.and == self.and && r.deps == self.deps,
            r.ancestors == self.ancestors && r.preserve_connectivity == self.preserve_connectivity,
    {
        let mut s = self;
        s.key = k;
        s
    }

    pub fn deps(self) -> (r: Self)
        ensures
            r.deps,
            r.pattern@ == self.pattern@ && r.and == self.and && r.key == self.key,
            r.ancestors == self.ancestors && r.preserve_connectivity == self.preserve_connectivity,
    {
        let mut s = self;
        s.deps = true;
        s
    }

    pub fn ancestors(self) -> (r: Self)
        ensures
            r.ancestors,
            r.pattern@ == self.pattern@ && r.and == self.and && r.key == self.key,
            r.deps == self.deps && r.preserve_connectivity == self.preserve_connectivity,
    {
        let mut s = self;
        s.ancestors = true;
        s
    }

    pub fn preserve_connectivity(self) -> (r: Self)
        ensures
            r.preserve_connectivity,
            r.pattern@ == self.pattern@ && r.and == self.and && r.key == self.key,
            r.deps == self.deps && r.ancestors == self.ancestors,
    {
        let mut s = self;
        s.preserve_connectivity = true;
        s
    }
}

/// The nodes `filter` removes: those the patterns match, also with all their
/// dependencies (`deps`) and all their ancestors (`ancestors`), both when
/// both are asked.
pub open spec fn filter_removed(nodes: Seq<(Seq<char>, NodeView)>, edges: Seq<(usize, usize)>, args: FilterArgs) -> Set<usize> {
    let matched = hits(nodes, strs(args.pattern@), args.and, args.key);
    if args.ancestors && args.deps {
        bfs_spec(edges, nodes.len(), matched, true, None).union(bfs_spec(edges, nodes.len(), matched, false, None))
    } else if args.ancestors {
        bfs_spec(edges, nodes.len(), matched, false, None)
    } else if args.deps {
        bfs_spec(edges, nodes.len(), matched, true, None)
    } else {
        matched
    }
}

/// What `filter` returns: the pattern error, or the graph without the
/// removed nodes and their edges; when connectivity is preserved, with one
/// direct edge for each pair of different kept nodes joined through removed
/// nodes that is not an edge already (no self loops, no parallel edges),
/// each stored at the deepest level holding both ends.
pub open spec fn filter_result(g: GraphView, args: FilterArgs, r: Result<DepGraph, PatternError>) -> bool {
    let nodes = all_nodes_spec(g);
    let edges = flat_edges(nodes, collect_edges(g));
    let keep = positions(nodes.len()).difference(filter_removed(nodes, edges, args));
    match r {
        Err(e) => build_outcome(strs(args.pattern@), Err(e)),
        Ok(out) => all_parse(strs(args.pattern@)) && exists|pairs: Seq<(Seq<char>, Seq<char>)>|
            #![trigger insert_edges_view(filter_view(g, kept_ids(nodes, keep)), pairs)]
            out@ == insert_edges_view(filter_view(g, kept_ids(nodes, keep)), pairs) && pairs.no_duplicates()
                && forall|p: (Seq<char>, Seq<char>)|
                #[trigger] pairs.contains(p) <==> (args.preserve_connectivity && is_bypass(
                    nodes,
                    edges,
                    keep,
                    filter_removed(nodes, edges, args),
                    edge_pairs(filter_view(g, kept_ids(nodes, keep))),
                    p,
                )),
    }
}

/// Remove the nodes matching the patterns (all of them with `and`, else
/// any), cascading to their dependencies and/or ancestors when asked,
/// together with every edge touching a removed node. With
/// `preserve_connectivity`, kept nodes that were joined through removed nodes
/// get a direct edge instead.
pub fn filter(graph: &DepGraph, args: &FilterArgs) -> (r: Result<DepGraph, PatternError>)
    requires
        all_nodes_spec(graph@).len() < index_limit(),
        collect_edges(graph@).len() < index_limit(),
    ensures
        filter_result(graph@, *args, r),
        all_parse(strs(args.pattern@)) ==> !(r matches Err(PatternError::Invalid(_))),
        !all_parse(strs(args.pattern@)) ==> r is Err,
        compiles(strs(args.pattern@)) ==> r is Ok,
{
    broadcast use vstd::std_specs::hash::group_hash_axioms;
    let set = match build_globset(&args.pattern) {
        Ok(s) => s,
        Err(e) => return Err(e),
    };
    let view = FlatGraphView::new(graph);
    let all = graph.all_nodes();
    let ghost nodes = view.nodes();
    let ghost edges = view.edges();
    let n = node_map_len(&all);
    let matched = hit_positions(&all, &set, args.pattern.len(), args.and, args.key);
    let removed: HashSet<usize> = if args.ancestors && args.deps {
        let seeds = set_to_vec(&matched, n);
        assert(seeds@.to_set() =~= matched@);
        let down = view.bfs(&seeds, true, None);
        let up = view.bfs(&seeds, false, None);
        proof {
            lemma_reach_within(edges, nodes.len(), matched@, true, nodes.len());
            lemma_reach_within(edges, nodes.len(), matched@, false, nodes.len());
        }
        let u = crate::algorithm::select::union_within(&down, &up, n);
        assert(u@ =~= down@.union(up@));
        u
    } else if args.ancestors || args.deps {
        let seeds = set_to_vec(&matched, n);
        assert(seeds@.to_set() =~= matched@);
        view.bfs(&seeds, !args.ancestors, None)
    } else {
        matched
    };
    assert(removed@ == filter_removed(nodes, edges, *args));
    let mut keep: HashSet<usize> = HashSet::new();
    let mut i: usize = 0;
    while i < n
        invariant
            i <= n == nodes.len(),
            keep@ == positions(nodes.len()).difference(removed@).intersect(positions(i as nat)),
        decreases n - i,
    {
        if !removed.contains(&i) {
            keep.insert(i);
        }
        i = i + 1;
        assert(keep@ =~= positions(nodes.len()).difference(removed@).intersect(positions(i as nat)));
    }
    assert(keep@ =~= positions(nodes.len()).difference(removed@));
    let mut result = view.filter(&keep);
    let ghost filtered = result@;
    let mut pairs: Vec<(String, String)> = Vec::new();
    if args.preserve_connectivity {
        let all_e = result.all_edges();
        let base = endpoint_pairs(&all_e);
        pairs = bypass_pairs(&view, &keep, &removed, &base);
    }
    let mut k: usize = 0;
    assert(pair_views(pairs@).take(0) =~= Seq::<(Seq<char>, Seq<char>)>::empty());
    while k < pairs.len()
        invariant
            k <= pairs@.len(),
            result@ == insert_edges_view(filtered, pair_views(pairs@).take(k as int)),
        decreases pairs@.len() - k,
    {
        insert_edge(&mut result, pairs[k].0.as_str(), pairs[k].1.as_str());
        assert(pair_views(pairs@).take(k + 1).drop_last() =~= pair_views(pairs@).take(k as int));
        k = k + 1;
    }
    assert(pair_views(pairs@).take(pairs@.len() as int) =~= pair_views(pairs@));
    Ok(result)
}

} // verus!
