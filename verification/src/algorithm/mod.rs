//! Graph transformations and queries.
use globset::GlobSet;
use indexmap::IndexMap;
use std::collections::HashSet;
use vstd::prelude::*;

use crate::glob::{
    any_matches, builder_add, builder_build, builder_new, builder_patterns, count_matches, glob_parses, globset_builds,
    globset_patterns, set_is_match, set_match_count,
};
use crate::graph::{node_views, NodeInfo, NodeView};
use crate::maps::{node_entries, node_map_get_index, node_map_len};

pub mod between;
pub mod cluster;
pub mod cycles;
pub mod diamonds;
pub mod diff;
pub mod filter;
pub mod flatten;
pub mod merge;
pub mod query;
pub mod reverse;
pub mod select;
pub mod shorten;
pub mod simplify;
pub mod slice;
pub mod sub;

verus! {

/// What a glob pattern is matched against: the node id or the node label.
#[derive(Debug, Clone, Copy, PartialEq, Eq, Structural)]
pub enum MatchKey {
    Id,
    Label,
}

impl Default for MatchKey {
    fn default() -> (r: MatchKey)
        ensures
            r == MatchKey::Label,
    {
        MatchKey::Label
    }
}

/// The views of a sequence of strings.
pub open spec fn strs(v: Seq<String>) -> Seq<Seq<char>> {
    v.map_values(|s: String| s@)
}

/// Why a glob pattern list could not be compiled.
#[derive(Debug, Clone)]
pub enum PatternError {
    /// The pattern is not a valid glob.
    Invalid(String),
    /// The patterns are valid but could not be combined into one matcher.
    Build,
}

/// Whether every pattern is a valid glob.
pub open spec fn all_parse(pats: Seq<Seq<char>>) -> bool {
    forall|i: int| 0 <= i < pats.len() ==> glob_parses(#[trigger] pats[i])
}

/// Whether the patterns compile into one glob set: all are valid globs and,
/// unless there are none, the set builds.
pub open spec fn compiles(pats: Seq<Seq<char>>) -> bool {
    all_parse(pats) && (pats.len() == 0 || globset_builds(pats))
}

/// What `build_globset` gives: the set of all the patterns, the first
/// invalid pattern, or a failure to combine valid patterns.
pub open spec fn build_outcome(pats: Seq<Seq<char>>, r: Result<GlobSet, PatternError>) -> bool {
    match r {
        Ok(s) => compiles(pats) && globset_patterns(s) == pats,
        Err(PatternError::Invalid(p)) => exists|i: int|
            0 <= i < pats.len() && !glob_parses(#[trigger] pats[i]) && p@ == pats[i] && all_parse(pats.take(i)),
        Err(PatternError::Build) => all_parse(pats) && pats.len() > 0 && !globset_builds(pats),
    }
}

/// Compile `patterns` into one glob set.
pub fn build_globset(patterns: &Vec<String>) -> (r: Result<GlobSet, PatternError>)
    ensures
        build_outcome(strs(patterns@), r),
{
    let ghost pats = strs(patterns@);
    let mut builder = builder_new();
    let mut i: usize = 0;
    while i < patterns.len()
        invariant
            i <= patterns@.len(),
            pats == strs(patterns@),
            builder_patterns(builder) == pats.take(i as int),
            all_parse(pats.take(i as int)),
        decreases patterns@.len() - i,
    {
        let p = &patterns[i];
        match builder_add(&mut builder, p.as_str()) {
            Ok(()) => {},
            Err(_) => {
                assert(pats[i as int] == p@);
                return Err(PatternError::Invalid(p.clone()));
            },
        }
        assert(pats.take(i + 1) =~= pats.take(i as int).push(p@));
        i = i + 1;
    }
    assert(pats.take(patterns@.len() as int) =~= pats);
    match builder_build(&builder) {
        Ok(s) => Ok(s),
        Err(_) => Err(PatternError::Build),
    }
}

/// The text a node is matched by.
pub open spec fn match_text(id: Seq<char>, node: NodeView, key: MatchKey) -> Seq<char> {
    match key {
        MatchKey::Id => id,
        MatchKey::Label => node.label,
    }
}

/// Whether `text` is selected by `pats`: by all of them with `and`, else by any.
pub open spec fn pattern_hit(pats: Seq<Seq<char>>, text: Seq<char>, and: bool) -> bool {
    if and {
        count_matches(pats, text) == pats.len()
    } else {
        any_matches(pats, text)
    }
}

/// The positions of the nodes selected by `pats`.
pub open spec fn hits(nodes: Seq<(Seq<char>, NodeView)>, pats: Seq<Seq<char>>, and: bool, key: MatchKey) -> Set<usize> {
    Set::new(|i: usize| i < nodes.len() && pattern_hit(pats, match_text(nodes[i as int].0, nodes[i as int].1, key), and))
}

/// Whether the compiled set selects `text`.
pub fn set_hits(set: &GlobSet, n_patterns: usize, text: &str, and: bool) -> (b: bool)
    requires
        n_patterns == globset_patterns(*set).len(),
    ensures
        b == pattern_hit(globset_patterns(*set), text@, and),
{
    if and {
        set_match_count(set, text) == n_patterns
    } else {
        set_is_match(set, text)
    }
}

/// The positions `0 .. n`.
pub open spec fn positions(n: nat) -> Set<usize> {
    Set::new(|i: usize| i < n)
}

/// The positions `0 .. n`, in order.
pub fn positions_vec(n: usize) -> (r: Vec<usize>)
    ensures
        r@.to_set() == positions(n as nat),
        forall|k: int| 0 <= k < r@.len() ==> r@[k] < n,
{
    let mut r: Vec<usize> = Vec::new();
    let mut i: usize = 0;
    while i < n
        invariant
            i <= n,
            r@.len() == i,
            forall|k: int| 0 <= k < i ==> r@[k] == k,
        decreases n - i,
    {
        r.push(i);
        i = i + 1;
    }
    assert forall|x: usize| r@.to_set().contains(x) <==> positions(n as nat).contains(x) by {
        if x < n {
            assert(r@[x as int] == x);
        }
    }
    assert(r@.to_set() =~= positions(n as nat));
    r
}

/// The elements of `v` as a hash set.
pub fn vec_to_set(v: &Vec<usize>) -> (r: HashSet<usize>)
    ensures
        r@ == v@.to_set(),
{
    broadcast use vstd::std_specs::hash::group_hash_axioms;
    let mut r: HashSet<usize> = HashSet::new();
    let mut i: usize = 0;
    while i < v.len()
        invariant
            i <= v@.len(),
            r@ == v@.take(i as int).to_set(),
        decreases v@.len() - i,
    {
        r.insert(v[i]);
        proof {
            v@.take(i as int).lemma_push_to_set_commute(v@[i as int]);
            assert(v@.take(i + 1) =~= v@.take(i as int).push(v@[i as int]));
        }
        i = i + 1;
    }
    assert(v@.take(v@.len() as int) =~= v@);
    r
}

/// The members of `s` below `n`, in increasing order.
pub fn set_to_vec(s: &HashSet<usize>, n: usize) -> (r: Vec<usize>)
    ensures
        r@.to_set() == s@.intersect(positions(n as nat)),
        forall|k: int| 0 <= k < r@.len() ==> r@[k] < n,
        forall|a: int, b: int| 0 <= a < b < r@.len() ==> r@[a] < r@[b],
{
    broadcast use vstd::std_specs::hash::group_hash_axioms;
    let mut r: Vec<usize> = Vec::new();
    let mut i: usize = 0;
    while i < n
        invariant
            i <= n,
            r@.to_set() == s@.intersect(positions(i as nat)),
            forall|k: int| 0 <= k < r@.len() ==> r@[k] < i,
            forall|a: int, b: int| 0 <= a < b < r@.len() ==> r@[a] < r@[b],
        decreases n - i,
    {
        let ghost before = r@;
        if s.contains(&i) {
            r.push(i);
            proof {
                before.lemma_push_to_set_commute(i);
            }
        }
        i = i + 1;
        assert(r@.to_set() =~= s@.intersect(positions(i as nat)));
    }
    r
}

/// The positions of the nodes of `all` that the compiled set selects.
pub fn hit_positions(
    all: &IndexMap<String, NodeInfo>,
    set: &GlobSet,
    n_patterns: usize,
    and: bool,
    key: MatchKey,
) -> (r: HashSet<usize>)
    requires
        n_patterns == globset_patterns(*set).len(),
    ensures
        r@ == hits(node_views(node_entries(*all)), globset_patterns(*set), and, key),
{
    broadcast use vstd::std_specs::hash::group_hash_axioms;
    let ghost nodes = node_views(node_entries(*all));
    let ghost pats = globset_patterns(*set);
    let n = node_map_len(all);
    let mut r: HashSet<usize> = HashSet::new();
    let mut i: usize = 0;
    while i < n
        invariant
            i <= n == nodes.len(),
            nodes == node_views(node_entries(*all)),
            pats == globset_patterns(*set),
            n_patterns == pats.len(),
            r@ == hits(nodes, pats, and, key).intersect(positions(i as nat)),
        decreases n - i,
    {
        let (id, info) = node_map_get_index(all, i).unwrap();
        let text = match key {
            MatchKey::Id => id.as_str(),
            MatchKey::Label => info.label.as_str(),
        };
        assert(text@ == match_text(nodes[i as int].0, nodes[i as int].1, key));
        if set_hits(set, n_patterns, text, and) {
            r.insert(i);
        }
        i = i + 1;
        assert(r@ =~= hits(nodes, pats, and, key).intersect(positions(i as nat)));
    }
    assert(hits(nodes, pats, and, key).intersect(positions(n as nat)) =~= hits(nodes, pats, and, key));
    r
}

/// The elements of `v` in reverse order.
pub fn reversed<T>(v: Vec<T>) -> (r: Vec<T>)
    ensures
        r@ == v@.reverse(),
{
    let mut v = v;
    let ghost orig = v@;
    let mut r: Vec<T> = Vec::new();
    while v.len() > 0
        invariant
            v@.len() <= orig.len(),
            v@ == orig.take(v@.len() as int),
            r@ == orig.skip(v@.len() as int).reverse(),
        decreases v@.len(),
    {
        let ghost n = v@.len();
        let x = v.pop().unwrap();
        r.push(x);
        assert(orig.skip(n - 1).reverse() =~= orig.skip(n as int).reverse().push(x));
        assert(v@ =~= orig.take(n - 1));
    }
    assert(orig.skip(0) =~= orig);
    r
}

} // verus!
