//! Renaming node ids and labels through given mappings, as shortening does.
use indexmap::IndexMap;
use vstd::prelude::*;

use crate::graph::{
    all_nodes_spec, edge_views, lemma_graph_view_subgraph, node_views, DepGraph, Edge, EdgeView, GraphView,
    NodeInfo, NodeView,
};
use crate::maps::{
    has_key, idx_entries, idx_map_get, idx_map_insert, idx_map_new, insert_entry, lemma_find_key,
    lemma_insert_entry, node_entries, node_map_get_index, node_map_insert, node_map_len,
    node_map_new, str_entries, str_map_clone, str_map_get, value_of,
};
use crate::maps::{keys_of, str_map_insert, str_map_new, str_views};
use crate::minpath::{no_transforms, PathTransforms, TransformsView};
use crate::text::{chars_of, push_char, push_str, str_eq};

verus! {

/// `s` renamed through `m`: the mapped value, or `s` itself when unmapped.
pub open spec fn renamed(m: Seq<(Seq<char>, Seq<char>)>, s: Seq<char>) -> Seq<char> {
    match value_of(m, s) {
        Some(t) => t,
        None => s,
    }
}

/// The nodes `ns` under new ids and labels; a node whose new id is already
/// placed (here or earlier) is dropped. With the placed ids after them.
pub open spec fn remap_nodes(
    ns: Seq<(Seq<char>, NodeView)>,
    ids: Seq<(Seq<char>, Seq<char>)>,
    labels: Seq<(Seq<char>, Seq<char>)>,
    placed: Set<Seq<char>>,
) -> (Seq<(Seq<char>, NodeView)>, Set<Seq<char>>)
    decreases ns.len(),
{
    if ns.len() == 0 {
        (seq![], placed)
    } else {
        let (acc, p) = remap_nodes(ns.drop_last(), ids, labels, placed);
        let (id, info) = ns.last();
        let nid = renamed(ids, id);
        if p.contains(nid) {
            (acc, p)
        } else {
            (acc.push((nid, NodeView { label: renamed(labels, info.label), ..info })), p.insert(nid))
        }
    }
}

/// Whether some edge of `es` has these endpoints and this label.
pub open spec fn has_edge(es: Seq<EdgeView>, from: Seq<char>, to: Seq<char>, label: Option<Seq<char>>) -> bool {
    exists|k: int| 0 <= k < es.len() && #[trigger] es[k].from == from && es[k].to == to && es[k].label == label
}

/// The edges with renamed endpoints; edges that become self loops, and
/// repeats of an earlier edge's endpoints and label, are dropped.
pub open spec fn remap_edges(es: Seq<EdgeView>, ids: Seq<(Seq<char>, Seq<char>)>) -> Seq<EdgeView>
    decreases es.len(),
{
    if es.len() == 0 {
        seq![]
    } else {
        let acc = remap_edges(es.drop_last(), ids);
        let e = es.last();
        let from = renamed(ids, e.from);
        let to = renamed(ids, e.to);
        if from == to || has_edge(acc, from, to, e.label) {
            acc
        } else {
            acc.push(EdgeView { from, to, ..e })
        }
    }
}

/// `g` renamed: its nodes, then its subgraphs (sharing the placed ids),
/// then its edges; subgraphs left without nodes and subgraphs are dropped.
pub open spec fn remap(
    g: GraphView,
    ids: Seq<(Seq<char>, Seq<char>)>,
    labels: Seq<(Seq<char>, Seq<char>)>,
    placed: Set<Seq<char>>,
) -> (GraphView, Set<Seq<char>>)
    decreases g, 0nat,
{
    let (ns, p1) = remap_nodes(g.nodes, ids, labels, placed);
    let (ss, p2) = remap_subs(g.subgraphs, g.subgraphs.len(), ids, labels, p1);
    (GraphView { id: g.id, attrs: g.attrs, nodes: ns, edges: remap_edges(g.edges, ids), subgraphs: ss }, p2)
}

pub open spec fn remap_subs(
    sgs: Seq<GraphView>,
    n: nat,
    ids: Seq<(Seq<char>, Seq<char>)>,
    labels: Seq<(Seq<char>, Seq<char>)>,
    placed: Set<Seq<char>>,
) -> (Seq<GraphView>, Set<Seq<char>>)
    decreases sgs, n,
{
    if n == 0 || n > sgs.len() {
        (seq![], placed)
    } else {
        let (acc, p) = remap_subs(sgs, (n - 1) as nat, ids, labels, placed);
        let (g, p2) = remap(sgs[n - 1], ids, labels, p);
        (if g.nodes.len() > 0 || g.subgraphs.len() > 0 {
            acc.push(g)
        } else {
            acc
        }, p2)
    }
}

/// The keys of a map's entries, as a set.
pub open spec fn placed_set(s: Seq<(Seq<char>, usize)>) -> Set<Seq<char>> {
    Set::new(|k: Seq<char>| has_key(s, k))
}

/// `s` renamed through `m`.
fn rename(m: &IndexMap<String, String>, s: &str) -> (r: String)
    ensures
        r@ == renamed(str_entries(*m), s@),
{
    match str_map_get(m, s) {
        Some(t) => t.clone(),
        None => s.to_owned(),
    }
}

/// Whether some edge of `es` has these endpoints and this label.
fn contains_edge(es: &Vec<Edge>, from: &str, to: &str, label: &Option<String>) -> (b: bool)
    ensures
        b == has_edge(edge_views(es@), from@, to@, crate::graph::opt_str(*label)),
{
    let ghost ev = edge_views(es@);
    let mut k: usize = 0;
    while k < es.len()
        invariant
            k <= es@.len() == ev.len(),
            ev == edge_views(es@),
            forall|j: int| 0 <= j < k ==> !(ev[j].from == from@ && ev[j].to == to@ && ev[j].label == crate::graph::opt_str(*label)),
        decreases es@.len() - k,
    {
        let e = &es[k];
        let same_label = match (&e.label, label) {
            (Some(a), Some(b)) => str_eq(a.as_str(), b.as_str()),
            (None, None) => true,
            _ => false,
        };
        if str_eq(e.from.as_str(), from) && str_eq(e.to.as_str(), to) && same_label {
            assert(ev[k as int].from == from@ && ev[k as int].to == to@ && ev[k as int].label == crate::graph::opt_str(*label));
            return true;
        }
        k = k + 1;
    }
    false
}

fn remap_edge_vec(es: &Vec<Edge>, ids: &IndexMap<String, String>) -> (r: Vec<Edge>)
    ensures
        edge_views(r@) == remap_edges(edge_views(es@), str_entries(*ids)),
{
    let ghost ev = edge_views(es@);
    let ghost im = str_entries(*ids);
    let mut r: Vec<Edge> = Vec::new();
    let mut i: usize = 0;
    assert(ev.take(0) =~= Seq::<EdgeView>::empty());
    assert(edge_views(r@) =~= Seq::<EdgeView>::empty());
    while i < es.len()
        invariant
            i <= es@.len() == ev.len(),
            ev == edge_views(es@),
            im == str_entries(*ids),
            edge_views(r@) == remap_edges(ev.take(i as int), im),
        decreases es@.len() - i,
    {
        let e = &es[i];
        assert(ev.take(i + 1).drop_last() =~= ev.take(i as int));
        assert(ev.take(i + 1).last() == e@);
        let from = rename(ids, e.from.as_str());
        let to = rename(ids, e.to.as_str());
        if !str_eq(from.as_str(), to.as_str()) && !contains_edge(&r, from.as_str(), to.as_str(), &e.label) {
            let label = match &e.label {
                Some(l) => Some(l.clone()),
                None => None,
            };
            let ne = Edge { from, to, label, attrs: str_map_clone(&e.attrs) };
            let ghost before = edge_views(r@);
            r.push(ne);
            assert(edge_views(r@) =~= before.push(EdgeView { from: ne@.from, to: ne@.to, ..e@ }));
        }
        i = i + 1;
    }
    assert(ev.take(es@.len() as int) =~= ev);
    r
}

fn remap_inner(
    graph: &DepGraph,
    ids: &IndexMap<String, String>,
    labels: &IndexMap<String, String>,
    placed: &mut IndexMap<String, usize>,
) -> (r: DepGraph)
    ensures
        ({
            let (g, p) = remap(graph@, str_entries(*ids), str_entries(*labels), placed_set(idx_entries(*old(placed))));
            r@ == g && placed_set(idx_entries(*final(placed))) == p
        }),
    decreases graph,
{
    let ghost im = str_entries(*ids);
    let ghost lm = str_entries(*labels);
    let ghost own = node_views(node_entries(graph.nodes));
    let ghost p0 = placed_set(idx_entries(*placed));
    let mut nodes = node_map_new();
    let n = node_map_len(&graph.nodes);
    let mut i: usize = 0;
    assert(own.take(0) =~= Seq::<(Seq<char>, NodeView)>::empty());
    assert(node_views(node_entries(nodes)) =~= Seq::<(Seq<char>, NodeView)>::empty());
    while i < n
        invariant
            i <= n == own.len(),
            own == node_views(node_entries(graph.nodes)),
            im == str_entries(*ids),
            lm == str_entries(*labels),
            (node_views(node_entries(nodes)), placed_set(idx_entries(*placed))) == remap_nodes(own.take(i as int), im, lm, p0),
            forall|k: Seq<char>| has_key(node_entries(nodes), k) ==> placed_set(idx_entries(*placed)).contains(k),
        decreases n - i,
    {
        let (id, info) = node_map_get_index(&graph.nodes, i).unwrap();
        assert(own.take(i + 1).drop_last() =~= own.take(i as int));
        assert(own.take(i + 1).last() == (id@, info@));
        let nid = rename(ids, id.as_str());
        proof {
            lemma_find_key(idx_entries(*placed), nid@);
        }
        if idx_map_get(placed, nid.as_str()).is_none() {
            let new_label = rename(labels, info.label.as_str());
            let mut ni = info.duplicate();
            ni.label = new_label;
            proof {
                crate::graph::lemma_node_views_insert(node_entries(nodes), nid@, ni);
                lemma_find_key(node_entries(nodes), nid@);
                lemma_insert_entry(idx_entries(*placed), nid@, 0);
                lemma_insert_entry(node_entries(nodes), nid@, ni);
            }
            let ghost before = node_views(node_entries(nodes));
            let ghost old_nodes = node_entries(nodes);
            let ghost old_placed = idx_entries(*placed);
            node_map_insert(&mut nodes, nid.clone(), ni);
            idx_map_insert(placed, nid, 0);
            assert(node_views(node_entries(nodes)) =~= before.push((nid@, ni@)));
            assert(placed_set(idx_entries(*placed)) =~= remap_nodes(own.take(i as int), im, lm, p0).1.insert(nid@));
            assert forall|k: Seq<char>| has_key(node_entries(nodes), k) implies placed_set(idx_entries(*placed)).contains(k) by {
                if k != nid@ {
                    assert(has_key(old_nodes, k));
                    assert(placed_set(old_placed).contains(k));
                    assert(has_key(old_placed, k));
                }
            }
        }
        i = i + 1;
    }
    assert(own.take(n as int) =~= own);
    let ghost p1 = placed_set(idx_entries(*placed));
    let mut subgraphs: Vec<DepGraph> = Vec::new();
    let mut j: usize = 0;
    while j < graph.subgraphs.len()
        invariant
            j <= graph.subgraphs@.len() == graph@.subgraphs.len(),
            im == str_entries(*ids),
            lm == str_entries(*labels),
            (crate::algorithm::merge::graph_views(subgraphs@), placed_set(idx_entries(*placed)))
                == remap_subs(graph@.subgraphs, j as nat, im, lm, p1),
        decreases graph.subgraphs@.len() - j,
    {
        proof {
            lemma_graph_view_subgraph(*graph, j as int);
        }
        let sg = remap_inner(&graph.subgraphs[j], ids, labels, placed);
        if node_map_len(&sg.nodes) > 0 || sg.subgraphs.len() > 0 {
            let ghost before = crate::algorithm::merge::graph_views(subgraphs@);
            subgraphs.push(sg);
            assert(crate::algorithm::merge::graph_views(subgraphs@) =~= before.push(sg@));
        }
        j = j + 1;
    }
    let edges = remap_edge_vec(&graph.edges, ids);
    let id = match &graph.id {
        Some(s) => Some(s.clone()),
        None => None,
    };
    let r = DepGraph { id, attrs: str_map_clone(&graph.attrs), nodes, edges, subgraphs };
    assert(r@.subgraphs =~= crate::algorithm::merge::graph_views(subgraphs@));
    r
}

/// The graph with node ids and labels renamed through the given mappings.
///
/// Ids and labels missing from their mapping stay as they are. When several
/// nodes get one id, the first in depth-first order (a graph's own nodes
/// before its subgraphs') keeps it and the others are dropped; subgraphs left
/// with neither nodes nor subgraphs are dropped. Edge endpoints are renamed
/// too; edges that become self loops, and repeats of an earlier edge of the
/// same (sub)graph with the same endpoints and label, are dropped.
pub fn remap_graph(graph: &DepGraph, ids: &IndexMap<String, String>, labels: &IndexMap<String, String>) -> (r: DepGraph)
    ensures
        r@ == remap(graph@, str_entries(*ids), str_entries(*labels), Set::empty()).0,
{
    let mut placed = idx_map_new();
    assert(placed_set(idx_entries(placed)) =~= Set::<Seq<char>>::empty());
    remap_inner(graph, ids, labels, &mut placed)
}

} // verus!

verus! {

/// Which fields to shorten.
#[derive(Clone, Copy, Debug, PartialEq, Eq, Structural)]
pub enum ShortenKey {
    Id,
    Label,
    Both,
}

impl Default for ShortenKey {
    fn default() -> (r: ShortenKey)
        ensures
            r == ShortenKey::Both,
    {
        ShortenKey::Both
    }
}

/// Options of shortening: the separator that splits node ids into path
/// components, the fields to shorten and the transforms to apply (paths
/// are held as text).
#[derive(Clone, Debug)]
pub struct ShortenArgs {
    pub separator: String,
    pub key: ShortenKey,
    pub home_dir: bool,
    pub resolve_relative: bool,
    pub relative_to: Option<String>,
    pub strip_prefix: Vec<String>,
    pub smart_abbreviate: bool,
    pub strip_common_prefix: bool,
    pub minimal_unique_suffix: bool,
    pub single_letter: bool,
}

/// Whether any transform option is set.
pub open spec fn any_transform_set(args: ShortenArgs) -> bool {
    args.home_dir || args.resolve_relative || args.relative_to is Some || args.strip_prefix@.len() > 0
        || args.smart_abbreviate || args.strip_common_prefix || args.minimal_unique_suffix || args.single_letter
}

/// The transforms the options ask for: exactly those set when any is, else
/// stripping the common prefix and shortening to the minimal unique suffix.
pub open spec fn transforms_for(args: ShortenArgs) -> TransformsView {
    if any_transform_set(args) {
        TransformsView {
            strip_prefixes: str_views(args.strip_prefix@),
            home_dir: args.home_dir,
            resolve_relative: args.resolve_relative,
            relative_to: match args.relative_to {
                Some(p) => Some(p@),
                None => None,
            },
            smart_abbreviate: args.smart_abbreviate,
            strip_common_prefix: args.strip_common_prefix,
            minimal_unique_suffix: args.minimal_unique_suffix,
            single_letter: args.single_letter,
        }
    } else {
        TransformsView { strip_common_prefix: true, minimal_unique_suffix: true, ..no_transforms() }
    }
}

/// Build the [`PathTransforms`] that the options ask for; with no transform
/// option set, strip the common prefix and shorten to the minimal unique
/// suffix.
pub fn build_transforms(args: &ShortenArgs) -> (t: PathTransforms)
    ensures
        t@ == transforms_for(*args),
{
    let any_set = args.home_dir || args.resolve_relative || args.relative_to.is_some() || args.strip_prefix.len() > 0
        || args.smart_abbreviate || args.strip_common_prefix || args.minimal_unique_suffix || args.single_letter;
    if any_set {
        let mut prefixes: Vec<String> = Vec::new();
        let mut i: usize = 0;
        while i < args.strip_prefix.len()
            invariant
                i <= args.strip_prefix.len(),
                prefixes@.len() == i,
                forall|k: int| 0 <= k < i ==> #[trigger] prefixes@[k]@ == args.strip_prefix@[k]@,
            decreases args.strip_prefix.len() - i,
        {
            let p = args.strip_prefix[i].clone();
            assert(p@ == args.strip_prefix@[i as int]@);
            prefixes.push(p);
            i = i + 1;
        }
        assert(str_views(prefixes@) =~= str_views(args.strip_prefix@));
        PathTransforms::new()
            .strip_prefix(prefixes)
            .home_dir(args.home_dir)
            .resolve_relative(args.resolve_relative)
            .relative_to(args.relative_to.as_ref())
            .smart_abbreviate(args.smart_abbreviate)
            .strip_common_prefix(args.strip_common_prefix)
            .minimal_unique_suffix(args.minimal_unique_suffix)
            .single_letter(args.single_letter)
    } else {
        PathTransforms::new().strip_common_prefix(true).minimal_unique_suffix(true)
    }
}

/// `s` with each `/` replaced by `sep`: a shortened path turned back into
/// the separator's form.
pub open spec fn slash_to(s: Seq<char>, sep: Seq<char>) -> Seq<char>
    decreases s.len(),
{
    if s.len() == 0 {
        seq![]
    } else {
        slash_to(s.drop_last(), sep) + if s.last() == '/' {
            sep
        } else {
            seq![s.last()]
        }
    }
}

/// The renaming of `originals[i]` to `shortened[i]` (in path form) for each
/// `i` where the two differ once the path form is turned back; a repeated
/// original keeps its first place and takes the last value.
pub open spec fn mapping_spec(originals: Seq<Seq<char>>, shortened: Seq<Seq<char>>, sep: Seq<char>) -> Seq<
    (Seq<char>, Seq<char>),
>
    decreases originals.len(),
{
    if originals.len() == 0 {
        seq![]
    } else {
        let m = mapping_spec(originals.drop_last(), shortened, sep);
        let k = originals.len() - 1;
        let short = slash_to(shortened[k], sep);
        if short != originals[k] {
            insert_entry(m, originals[k], short)
        } else {
            m
        }
    }
}

/// Turns a shortened path back into the separator's form.
fn slash_to_sep(s: &str, sep: &str) -> (r: String)
    ensures
        r@ == slash_to(s@, sep@),
{
    let v = chars_of(s);
    let mut r = String::new();
    let mut i: usize = 0;
    while i < v.len()
        invariant
            i <= v.len(),
            v@ == s@,
            r@ == slash_to(v@.take(i as int), sep@),
        decreases v.len() - i,
    {
        assert(v@.take(i + 1).drop_last() =~= v@.take(i as int));
        assert(v@.take(i + 1).last() == v@[i as int]);
        if v[i] == '/' {
            push_str(&mut r, sep);
        } else {
            push_char(&mut r, v[i]);
        }
        i = i + 1;
    }
    assert(v@.take(i as int) =~= v@);
    r
}

/// The renaming that shortening gives: each original whose shortened path
/// (turned back into the separator's form) differs from it is mapped to it.
pub fn build_mapping(originals: &Vec<String>, shortened: &Vec<String>, separator: &str) -> (r: IndexMap<String, String>)
    requires
        shortened.len() == originals.len(),
    ensures
        str_entries(r) == mapping_spec(str_views(originals@), str_views(shortened@), separator@),
{
    let ghost os = str_views(originals@);
    let ghost ss = str_views(shortened@);
    let mut m = str_map_new();
    let mut i: usize = 0;
    assert(os.take(0) =~= Seq::<Seq<char>>::empty());
    while i < originals.len()
        invariant
            i <= originals.len() == shortened.len(),
            os == str_views(originals@),
            ss == str_views(shortened@),
            str_entries(m) == mapping_spec(os.take(i as int), ss, separator@),
        decreases originals.len() - i,
    {
        assert(os.take(i + 1).drop_last() =~= os.take(i as int));
        assert(os.take(i + 1).last() == originals@[i as int]@);
        assert(ss[i as int] == shortened@[i as int]@);
        let short = slash_to_sep(shortened[i].as_str(), separator);
        if !str_eq(short.as_str(), originals[i].as_str()) {
            str_map_insert(&mut m, originals[i].clone(), short);
        }
        i = i + 1;
    }
    assert(os.take(i as int) =~= os);
    m
}

/// Shorten node ids and/or labels, given what the path transforms made of
/// them: `short_ids[i]` and `short_labels[i]` are the shortened path forms
/// (with `/` between components) of the id and of the label of the `i`-th
/// node of [`DepGraph::all_nodes`]. The fields that `key` names are renamed
/// through [`build_mapping`], then the graph through [`remap_graph`].
pub fn shorten(
    graph: &DepGraph,
    separator: &str,
    key: ShortenKey,
    short_ids: &Vec<String>,
    short_labels: &Vec<String>,
) -> (r: DepGraph)
    requires
        short_ids.len() == all_nodes_spec(graph@).len(),
        short_labels.len() == all_nodes_spec(graph@).len(),
    ensures
        r@ == remap(
            graph@,
            if key != ShortenKey::Label {
                mapping_spec(keys_of(all_nodes_spec(graph@)), str_views(short_ids@), separator@)
            } else {
                seq![]
            },
            if key != ShortenKey::Id {
                mapping_spec(node_labels(all_nodes_spec(graph@)), str_views(short_labels@), separator@)
            } else {
                seq![]
            },
            Set::empty(),
        ).0,
{
    let all = graph.all_nodes();
    let n = node_map_len(&all);
    let mut ids: Vec<String> = Vec::new();
    let mut labels: Vec<String> = Vec::new();
    let ghost nodes = all_nodes_spec(graph@);
    let mut i: usize = 0;
    while i < n
        invariant
            i <= n == nodes.len(),
            node_views(node_entries(all)) == nodes,
            ids@.len() == i,
            labels@.len() == i,
            forall|k: int| 0 <= k < i ==> #[trigger] ids@[k]@ == nodes[k].0,
            forall|k: int| 0 <= k < i ==> #[trigger] labels@[k]@ == nodes[k].1.label,
        decreases n - i,
    {
        let (id, info) = node_map_get_index(&all, i).unwrap();
        assert(nodes[i as int] == (node_entries(all)[i as int].0, node_entries(all)[i as int].1@));
        ids.push(id.clone());
        labels.push(info.label.clone());
        i = i + 1;
    }
    assert(str_views(ids@) =~= keys_of(nodes));
    assert(str_views(labels@) =~= node_labels(nodes));
    let id_map = if key != ShortenKey::Label {
        build_mapping(&ids, short_ids, separator)
    } else {
        str_map_new()
    };
    let label_map = if key != ShortenKey::Id {
        build_mapping(&labels, short_labels, separator)
    } else {
        str_map_new()
    };
    remap_graph(graph, &id_map, &label_map)
}

/// The labels of node entries, in order.
pub open spec fn node_labels(s: Seq<(Seq<char>, NodeView)>) -> Seq<Seq<char>> {
    s.map_values(|e: (Seq<char>, NodeView)| e.1.label)
}

} // verus!
