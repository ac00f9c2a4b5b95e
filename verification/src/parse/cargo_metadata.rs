//! The `cargo metadata` JSON format: package ids in both of Cargo's formats
//! (old `name version (source)` and new `source#name@version` /
//! `source#version`), and the dependency graph of the `resolve` section.
use cargo_metadata::DependencyKind;
use indexmap::IndexMap;
use vstd::prelude::*;

use crate::graph::{edge_views, lemma_node_views_insert, opt_str, DepGraph, Edge, EdgeView, GraphView, NodeInfo, NodeView};
use crate::maps::{has_key, insert_entry, lemma_find_key, node_entries, node_map_insert, node_map_new, str_entries, str_map_insert, str_map_new};
use crate::parse::ParseError;
use crate::text::{join, push_joined, push_str, str_eq};

use crate::text::{
    chars_of, find_char, find_char_from, lemma_find_char, lemma_rfind_char, push_char, push_chars, rfind,
    rfind_char, split_char, split_on, split_whitespace, split_ws, string_from, sub_vec, trim, trim_chars,
    views_eq,
};

verus! {

/// The last `/`-separated piece of `s`.
pub open spec fn last_path_piece(s: Seq<char>) -> Seq<char> {
    s.skip(rfind_char(s, '/') + 1)
}

/// `"name version"` of a package id, without its source.
pub open spec fn name_version_spec(id: Seq<char>) -> Seq<char> {
    let pieces = split_char(id, '#');
    if pieces.len() >= 2 {
        let after = pieces[1];
        let at = find_char(after, '@');
        if at < after.len() {
            after.take(at as int) + seq![' '] + after.skip(at as int + 1)
        } else {
            last_path_piece(pieces[0]) + seq![' '] + after
        }
    } else {
        trim(split_char(id, '(')[0])
    }
}

/// The package name of a package id.
pub open spec fn package_name_spec(id: Seq<char>) -> Seq<char> {
    let pieces = split_char(id, '#');
    if pieces.len() >= 2 {
        let after = pieces[1];
        let at = find_char(after, '@');
        if at < after.len() {
            after.take(at as int)
        } else {
            last_path_piece(pieces[0])
        }
    } else {
        let words = split_ws(id);
        if words.len() > 0 {
            words[0]
        } else {
            id
        }
    }
}

fn last_piece(v: &Vec<char>) -> (r: Vec<char>)
    ensures
        r@ == last_path_piece(v@),
{
    proof {
        lemma_rfind_char(v@, '/');
    }
    match rfind(v.as_slice(), '/') {
        Some(i) => sub_vec(v.as_slice(), i + 1, v.len()),
        None => {
            assert(v@.skip(0) =~= v@);
            sub_vec(v.as_slice(), 0, v.len())
        },
    }
}

proof fn lemma_split_char_nonempty(s: Seq<char>, c: char)
    ensures
        split_char(s, c).len() >= 1,
{
}

/// Extract `"name version"` from a cargo package id, dropping the source.
pub fn extract_name_version(id: &str) -> (r: String)
    ensures
        r@ == name_version_spec(id@),
{
    let v = chars_of(id);
    let pieces = split_on(v.as_slice(), '#');
    proof {
        lemma_split_char_nonempty(id@, '#');
    }
    if pieces.len() >= 2 {
        assert(pieces@[1]@ == split_char(id@, '#')[1]);
        assert(pieces@[0]@ == split_char(id@, '#')[0]);
        let after = &pieces[1];
        let at = find_char_from(after.as_slice(), 0, '@');
        assert(after@.skip(0) =~= after@);
        proof {
            lemma_find_char(after@, '@');
        }
        let mut r = String::new();
        if at < after.len() {
            let name = sub_vec(after.as_slice(), 0, at);
            let version = sub_vec(after.as_slice(), at + 1, after.len());
            assert(name@ =~= after@.take(at as int));
            assert(version@ =~= after@.skip(at + 1));
            push_chars(&mut r, name.as_slice());
            push_char(&mut r, ' ');
            push_chars(&mut r, version.as_slice());
        } else {
            let name = last_piece(&pieces[0]);
            push_chars(&mut r, name.as_slice());
            push_char(&mut r, ' ');
            push_chars(&mut r, after.as_slice());
        }
        r
    } else {
        let parts = split_on(v.as_slice(), '(');
        proof {
            lemma_split_char_nonempty(id@, '(');
        }
        assert(parts@[0]@ == split_char(id@, '(')[0]);
        let t = trim_chars(parts[0].as_slice());
        string_from(t.as_slice())
    }
}

/// Extract the package name from a cargo package id.
pub fn extract_package_name(id: &str) -> (r: String)
    ensures
        r@ == package_name_spec(id@),
{
    let v = chars_of(id);
    let pieces = split_on(v.as_slice(), '#');
    proof {
        lemma_split_char_nonempty(id@, '#');
    }
    if pieces.len() >= 2 {
        assert(pieces@[1]@ == split_char(id@, '#')[1]);
        assert(pieces@[0]@ == split_char(id@, '#')[0]);
        let after = &pieces[1];
        let at = find_char_from(after.as_slice(), 0, '@');
        assert(after@.skip(0) =~= after@);
        proof {
            lemma_find_char(after@, '@');
        }
        if at < after.len() {
            let name = sub_vec(after.as_slice(), 0, at);
            assert(name@ =~= after@.take(at as int));
            string_from(name.as_slice())
        } else {
            let name = last_piece(&pieces[0]);
            string_from(name.as_slice())
        }
    } else {
        let words = split_whitespace(v.as_slice());
        if words.len() > 0 {
            assert(words@[0]@ == split_ws(id@)[0]);
            string_from(words[0].as_slice())
        } else {
            id.to_owned()
        }
    }
}

} // verus!

verus! {

/// A dependency as its package declares it.
pub struct MetaDependency {
    pub name: String,
    pub optional: bool,
}

/// A package of the metadata.
pub struct MetaPackage {
    /// The package id, as Cargo writes it.
    pub id: String,
    pub name: String,
    pub version: String,
    pub dependencies: Vec<MetaDependency>,
    /// Each feature with what it enables, in feature-name order.
    pub features: Vec<(String, Vec<String>)>,
}

/// The kind of a resolved dependency.
#[derive(Clone, Copy, Debug, PartialEq, Eq, Structural)]
pub enum DepKind {
    Normal,
    Development,
    Build,
    Unknown,
}

/// A resolved dependency of a node: the package id it resolves to and its kinds.
pub struct MetaNodeDep {
    pub pkg: String,
    pub kinds: Vec<DepKind>,
}

/// A node of the resolved dependency graph.
pub struct MetaNode {
    pub id: String,
    pub features: Vec<String>,
    pub deps: Vec<MetaNodeDep>,
}

/// The parts of `cargo metadata` output that the graph is built from; the
/// nodes of the `resolve` section, when there is one.
pub struct MetadataModel {
    pub packages: Vec<MetaPackage>,
    pub resolve: Option<Vec<MetaNode>>,
}

pub struct DependencyV {
    pub name: Seq<char>,
    pub optional: bool,
}

pub struct PackageV {
    pub id: Seq<char>,
    pub name: Seq<char>,
    pub version: Seq<char>,
    pub dependencies: Seq<DependencyV>,
    pub features: Seq<(Seq<char>, Seq<Seq<char>>)>,
}

pub struct NodeDepV {
    pub pkg: Seq<char>,
    pub kinds: Seq<DepKind>,
}

pub struct MetaNodeV {
    pub id: Seq<char>,
    pub features: Seq<Seq<char>>,
    pub deps: Seq<NodeDepV>,
}

pub struct MetadataV {
    pub packages: Seq<PackageV>,
    pub resolve: Option<Seq<MetaNodeV>>,
}

pub open spec fn strs_of(v: Seq<String>) -> Seq<Seq<char>> {
    v.map_values(|s: String| s@)
}

impl View for MetaDependency {
    type V = DependencyV;

    open spec fn view(&self) -> DependencyV {
        DependencyV { name: self.name@, optional: self.optional }
    }
}

impl View for MetaPackage {
    type V = PackageV;

    open spec fn view(&self) -> PackageV {
        PackageV {
            id: self.id@,
            name: self.name@,
            version: self.version@,
            dependencies: self.dependencies@.map_values(|d: MetaDependency| d@),
            features: self.features@.map_values(|f: (String, Vec<String>)| (f.0@, strs_of(f.1@))),
        }
    }
}

impl View for MetaNodeDep {
    type V = NodeDepV;

    open spec fn view(&self) -> NodeDepV {
        NodeDepV { pkg: self.pkg@, kinds: self.kinds@ }
    }
}

impl View for MetaNode {
    type V = MetaNodeV;

    open spec fn view(&self) -> MetaNodeV {
        MetaNodeV { id: self.id@, features: strs_of(self.features@), deps: self.deps@.map_values(|d: MetaNodeDep| d@) }
    }
}

impl View for MetadataModel {
    type V = MetadataV;

    open spec fn view(&self) -> MetadataV {
        MetadataV {
            packages: self.packages@.map_values(|p: MetaPackage| p@),
            resolve: match self.resolve {
                Some(ns) => Some(ns@.map_values(|n: MetaNode| n@)),
                None => None,
            },
        }
    }
}

#[verifier::external_type_specification]
#[verifier::external_body]
pub struct ExCmMetadata(cargo_metadata::Metadata);

#[verifier::external_type_specification]
#[verifier::external_body]
pub struct ExCmPackage(cargo_metadata::Package);

#[verifier::external_type_specification]
#[verifier::external_body]
pub struct ExCmNode(cargo_metadata::Node);

#[verifier::external_type_specification]
#[verifier::external_body]
pub struct ExCmNodeDep(cargo_metadata::NodeDep);

/// What `serde_json::from_str::<cargo_metadata::Metadata>` reads from the
/// text, taken as plain values; `None` when the text is not such JSON.
pub uninterp spec fn metadata_of(input: Seq<char>) -> Option<MetadataV>;

/// `serde_json::from_str` into `cargo_metadata::Metadata`, converted to the
/// library's model: the result is what the text holds, a function of the
/// text alone; an error when the text is not metadata JSON, with serde's
/// message.
#[verifier::external_body]
fn metadata_model(input: &str) -> (r: Result<MetadataModel, String>)
    ensures
        r matches Ok(m) ==> metadata_of(input@) == Some(m@),
        r is Err == metadata_of(input@) is None,
{
    match serde_json::from_str::<cargo_metadata::Metadata>(input) {
        Ok(m) => Ok(convert_metadata(&m)),
        Err(e) => Err(e.to_string()),
    }
}

/// Converts `cargo_metadata::Metadata` field by field.
#[verifier::external_body]
fn convert_metadata(m: &cargo_metadata::Metadata) -> MetadataModel {
    MetadataModel {
        packages: m.packages.iter().map(convert_package).collect(),
        resolve: m.resolve.as_ref().map(|r| r.nodes.iter().map(convert_node).collect()),
    }
}

/// Converts `cargo_metadata::Package` field by field (the features in the
/// map's key order).
#[verifier::external_body]
fn convert_package(p: &cargo_metadata::Package) -> MetaPackage {
    MetaPackage {
        id: p.id.repr.clone(),
        name: p.name.to_string(),
        version: p.version.to_string(),
        dependencies: p.dependencies.iter().map(|d| MetaDependency { name: d.name.clone(), optional: d.optional }).collect(),
        features: p.features.iter().map(|(k, v)| (k.clone(), v.clone())).collect(),
    }
}

/// Converts `cargo_metadata::Node` field by field.
#[verifier::external_body]
fn convert_node(n: &cargo_metadata::Node) -> MetaNode {
    MetaNode {
        id: n.id.repr.clone(),
        features: n.features.iter().map(|f| f.to_string()).collect(),
        deps: n.deps.iter().map(convert_node_dep).collect(),
    }
}

/// Converts `cargo_metadata::NodeDep`: its package id and its kinds.
#[verifier::external_body]
fn convert_node_dep(d: &cargo_metadata::NodeDep) -> MetaNodeDep {
    let kind = |k: &cargo_metadata::DepKindInfo| match k.kind {
        DependencyKind::Normal => DepKind::Normal,
        DependencyKind::Development => DepKind::Development,
        DependencyKind::Build => DepKind::Build,
        _ => DepKind::Unknown,
    };
    MetaNodeDep { pkg: d.pkg.repr.clone(), kinds: d.dep_kinds.iter().map(kind).collect() }
}

/// The package with id `id` (the last such, as a map built from the list keeps it).
pub open spec fn package_of(pkgs: Seq<PackageV>, id: Seq<char>) -> Option<PackageV>
    decreases pkgs.len(),
{
    if pkgs.len() == 0 {
        None
    } else if pkgs.last().id == id {
        Some(pkgs.last())
    } else {
        package_of(pkgs.drop_last(), id)
    }
}

/// Whether a feature's list enables the dependency `dep` (`dep:<dep>` or `<dep>`).
pub open spec fn enables(items: Seq<Seq<char>>, dep: Seq<char>) -> bool {
    items.contains(seq!['d', 'e', 'p', ':'] + dep) || items.contains(dep)
}

/// The first feature (in order) that enables `dep`.
pub open spec fn first_enabling(fs: Seq<(Seq<char>, Seq<Seq<char>>)>, dep: Seq<char>) -> Option<Seq<char>>
    decreases fs.len(),
{
    if fs.len() == 0 {
        None
    } else {
        let a = first_enabling(fs.drop_last(), dep);
        if a is Some {
            a
        } else if enables(fs.last().1, dep) {
            Some(fs.last().0)
        } else {
            None
        }
    }
}

/// The feature that enables the optional dependency `dep` of `pkg`: none
/// unless `pkg` declares `dep` optional; else the first feature enabling it,
/// else `dep` itself when it is a feature name.
pub open spec fn optional_feature(pkg: PackageV, dep: Seq<char>) -> Option<Seq<char>> {
    if !(exists|i: int| 0 <= i < pkg.dependencies.len() && #[trigger] pkg.dependencies[i].name == dep && pkg.dependencies[i].optional) {
        None
    } else if first_enabling(pkg.features, dep) is Some {
        first_enabling(pkg.features, dep)
    } else if has_key(pkg.features, dep) {
        Some(dep)
    } else {
        None
    }
}

/// The name of a dependency kind.
pub open spec fn kind_name(k: DepKind) -> Seq<char> {
    match k {
        DepKind::Normal => seq!['n', 'o', 'r', 'm', 'a', 'l'],
        DepKind::Development => seq!['d', 'e', 'v'],
        DepKind::Build => seq!['b', 'u', 'i', 'l', 'd'],
        DepKind::Unknown => seq!['u', 'n', 'k', 'n', 'o', 'w', 'n'],
    }
}

pub open spec fn kind_key() -> Seq<char> {
    seq!['k', 'i', 'n', 'd']
}

pub open spec fn optional_key() -> Seq<char> {
    seq!['o', 'p', 't', 'i', 'o', 'n', 'a', 'l']
}

pub open spec fn version_key() -> Seq<char> {
    seq!['v', 'e', 'r', 's', 'i', 'o', 'n']
}

pub open spec fn features_key() -> Seq<char> {
    seq!['f', 'e', 'a', 't', 'u', 'r', 'e', 's']
}

/// The attributes of the edge for `dep` of a node whose package is `src`:
/// `kind` (the kinds joined by commas) when there are kinds, then `optional`
/// (the enabling feature) when `dep` is an optional dependency of `src`.
pub open spec fn dep_attrs(pkgs: Seq<PackageV>, src: Option<PackageV>, dep: NodeDepV) -> Seq<(Seq<char>, Seq<char>)> {
    let a = if dep.kinds.len() > 0 {
        seq![(kind_key(), join(dep.kinds.map_values(|k: DepKind| kind_name(k)), seq![',']))]
    } else {
        seq![]
    };
    match (src, package_of(pkgs, dep.pkg)) {
        (Some(p), Some(t)) => match optional_feature(p, t.name) {
            Some(f) => a.push((optional_key(), f)),
            None => a,
        },
        _ => a,
    }
}

/// The node a resolved node becomes: id `name version`, labelled by its
/// package name, with the package version and the node's features.
pub open spec fn meta_node(pkgs: Seq<PackageV>, n: MetaNodeV) -> (Seq<char>, NodeView) {
    let pkg = package_of(pkgs, n.id);
    let a = match pkg {
        Some(p) => seq![(version_key(), p.version)],
        None => seq![],
    };
    let attrs = if n.features.len() > 0 {
        a.push((features_key(), join(n.features, seq![','])))
    } else {
        a
    };
    (
        name_version_spec(n.id),
        NodeView {
            label: match pkg {
                Some(p) => p.name,
                None => package_name_spec(n.id),
            },
            node_type: None,
            attrs,
        },
    )
}

/// The nodes of the resolved nodes, inserted in order.
pub open spec fn meta_nodes(pkgs: Seq<PackageV>, ns: Seq<MetaNodeV>) -> Seq<(Seq<char>, NodeView)>
    decreases ns.len(),
{
    if ns.len() == 0 {
        seq![]
    } else {
        let e = meta_node(pkgs, ns.last());
        insert_entry(meta_nodes(pkgs, ns.drop_last()), e.0, e.1)
    }
}

/// The edges of one node, one per resolved dependency, in order.
pub open spec fn node_edges(pkgs: Seq<PackageV>, n: MetaNodeV, k: nat) -> Seq<EdgeView>
    decreases k,
{
    if k == 0 || k > n.deps.len() {
        seq![]
    } else {
        let d = n.deps[k - 1];
        node_edges(pkgs, n, (k - 1) as nat).push(EdgeView {
            from: name_version_spec(n.id),
            to: name_version_spec(d.pkg),
            label: None,
            attrs: dep_attrs(pkgs, package_of(pkgs, n.id), d),
        })
    }
}

/// The edges of all the resolved nodes, node by node.
pub open spec fn meta_edges(pkgs: Seq<PackageV>, ns: Seq<MetaNodeV>) -> Seq<EdgeView>
    decreases ns.len(),
{
    if ns.len() == 0 {
        seq![]
    } else {
        meta_edges(pkgs, ns.drop_last()) + node_edges(pkgs, ns.last(), ns.last().deps.len())
    }
}

/// The graph of the metadata, or `None` without a `resolve` section.
pub open spec fn metadata_graph(m: MetadataV) -> Option<GraphView> {
    match m.resolve {
        None => None,
        Some(ns) => Some(
            GraphView {
                id: None,
                attrs: seq![],
                nodes: meta_nodes(m.packages, ns),
                edges: meta_edges(m.packages, ns),
                subgraphs: seq![],
            },
        ),
    }
}

/// The packages taken by their views.
pub open spec fn packages_view(pkgs: Seq<MetaPackage>) -> Seq<PackageV> {
    pkgs.map_values(|p: MetaPackage| p@)
}

/// Position of the package with id `id`, the last one when there are several.
fn find_package(pkgs: &Vec<MetaPackage>, id: &str) -> (r: Option<usize>)
    ensures
        match r {
            Some(i) => i < pkgs.len() && package_of(packages_view(pkgs@), id@) == Some(pkgs@[i as int]@),
            None => package_of(packages_view(pkgs@), id@) is None,
        },
{
    let ghost pv = packages_view(pkgs@);
    let mut i = pkgs.len();
    assert(pv.take(i as int) =~= pv);
    while i > 0
        invariant
            i <= pkgs.len(),
            pv == packages_view(pkgs@),
            package_of(pv, id@) == package_of(pv.take(i as int), id@),
        decreases i,
    {
        assert(pv.take(i as int).drop_last() =~= pv.take(i - 1));
        assert(pv.take(i as int).last() == pkgs@[i - 1]@);
        if str_eq(pkgs[i - 1].id.as_str(), id) {
            return Some(i - 1);
        }
        i = i - 1;
    }
    None
}

/// Once a prefix of the features has an enabling one, that is the first of all.
proof fn lemma_first_enabling_prefix(fs: Seq<(Seq<char>, Seq<Seq<char>>)>, dep: Seq<char>, k: int)
    requires
        0 <= k <= fs.len(),
        first_enabling(fs.take(k), dep) is Some,
    ensures
        first_enabling(fs, dep) == first_enabling(fs.take(k), dep),
    decreases fs.len(),
{
    if k == fs.len() {
        assert(fs.take(k) =~= fs);
    } else {
        assert(fs.drop_last().take(k) =~= fs.take(k));
        lemma_first_enabling_prefix(fs.drop_last(), dep, k);
    }
}

/// Whether one of `items` is `dep:<dep>` (given as `tagged`) or `dep`.
fn enables_dep(items: &Vec<String>, tagged: &str, dep: &str) -> (b: bool)
    requires
        tagged@ == seq!['d', 'e', 'p', ':'] + dep@,
    ensures
        b == enables(strs_of(items@), dep@),
{
    let ghost its = strs_of(items@);
    let mut j: usize = 0;
    while j < items.len()
        invariant
            j <= items.len(),
            its == strs_of(items@),
            tagged@ == seq!['d', 'e', 'p', ':'] + dep@,
            forall|k: int| 0 <= k < j ==> its[k] != tagged@ && its[k] != dep@,
        decreases items.len() - j,
    {
        if str_eq(items[j].as_str(), tagged) || str_eq(items[j].as_str(), dep) {
            assert(its[j as int] == items@[j as int]@);
            return true;
        }
        j = j + 1;
    }
    false
}

/// Whether the package declares `dep` as an optional dependency.
fn declares_optional(pkg: &MetaPackage, dep: &str) -> (b: bool)
    ensures
        b == exists|k: int|
            0 <= k < pkg@.dependencies.len() && #[trigger] pkg@.dependencies[k].name == dep@ && pkg@.dependencies[k].optional,
{
    let ghost pv = pkg@;
    let mut i: usize = 0;
    while i < pkg.dependencies.len()
        invariant
            i <= pkg.dependencies.len(),
            pv == pkg@,
            forall|k: int| 0 <= k < i ==> !(#[trigger] pv.dependencies[k].name == dep@ && pv.dependencies[k].optional),
        decreases pkg.dependencies.len() - i,
    {
        let d = &pkg.dependencies[i];
        assert(pv.dependencies[i as int] == d@);
        if str_eq(d.name.as_str(), dep) && d.optional {
            assert(pv.dependencies[i as int].name == dep@ && pv.dependencies[i as int].optional);
            return true;
        }
        i = i + 1;
    }
    false
}

/// Find which feature enables an optional dependency: `None` unless the
/// package declares `dep` as an optional dependency; else the first feature
/// whose list holds `dep:<dep>` or `<dep>`, else `dep` itself when it is a
/// feature name.
pub fn find_feature_for_optional_dep(pkg: &MetaPackage, dep: &str) -> (r: Option<String>)
    ensures
        opt_str(r) == optional_feature(pkg@, dep@),
{
    let ghost pv = pkg@;
    let optional = declares_optional(pkg, dep);
    if !optional {
        return None;
    }
    let mut tagged = string_from(&['d', 'e', 'p', ':']);
    push_str(&mut tagged, dep);
    let ghost fs = pv.features;
    let mut f: usize = 0;
    assert(fs.take(0) =~= Seq::<(Seq<char>, Seq<Seq<char>>)>::empty());
    while f < pkg.features.len()
        invariant
            f <= pkg.features.len(),
            pv == pkg@,
            fs == pv.features,
            tagged@ == seq!['d', 'e', 'p', ':'] + dep@,
            first_enabling(fs.take(f as int), dep@) is None,
            exists|j: int| 0 <= j < pv.dependencies.len() && #[trigger] pv.dependencies[j].name == dep@ && pv.dependencies[j].optional,
        decreases pkg.features.len() - f,
    {
        let ghost pre = fs.take(f as int);
        assert(fs.take(f + 1).drop_last() =~= pre);
        assert(fs.take(f + 1).last() == fs[f as int]);
        assert(fs[f as int] == (pkg.features@[f as int].0@, strs_of(pkg.features@[f as int].1@)));
        if enables_dep(&pkg.features[f].1, tagged.as_str(), dep) {
            proof {
                assert(first_enabling(fs.take(f + 1), dep@) == Some(fs[f as int].0));
                lemma_first_enabling_prefix(fs, dep@, f + 1);
                assert(optional_feature(pv, dep@) == Some(fs[f as int].0));
            }
            let name = pkg.features[f].0.clone();
            assert(name@ == fs[f as int].0);
            return Some(name);
        }
        f = f + 1;
    }
    assert(fs.take(f as int) =~= fs);
    let mut k: usize = 0;
    while k < pkg.features.len()
        invariant
            k <= pkg.features.len(),
            pv == pkg@,
            fs == pv.features,
            forall|j: int| 0 <= j < k ==> fs[j].0 != dep@,
            first_enabling(fs, dep@) is None,
            exists|j: int| 0 <= j < pv.dependencies.len() && #[trigger] pv.dependencies[j].name == dep@ && pv.dependencies[j].optional,
        decreases pkg.features.len() - k,
    {
        assert(fs[k as int].0 == pkg.features@[k as int].0@);
        if str_eq(pkg.features[k].0.as_str(), dep) {
            assert(has_key(fs, dep@));
            let mut name = String::new();
            push_str(&mut name, dep);
            assert(name@ == dep@);
            return Some(name);
        }
        k = k + 1;
    }
    None
}

/// The name of a dependency kind, as an edge attribute spells it.
fn kind_text(k: DepKind) -> (r: String)
    ensures
        r@ == kind_name(k),
{
    let r = match k {
        DepKind::Normal => string_from(&['n', 'o', 'r', 'm', 'a', 'l']),
        DepKind::Development => string_from(&['d', 'e', 'v']),
        DepKind::Build => string_from(&['b', 'u', 'i', 'l', 'd']),
        DepKind::Unknown => string_from(&['u', 'n', 'k', 'n', 'o', 'w', 'n']),
    };
    assert(r@ =~= kind_name(k));
    r
}

/// The node that a resolved node becomes, with its id.
fn build_node(pkgs: &Vec<MetaPackage>, n: &MetaNode) -> (r: (String, NodeInfo))
    ensures
        (r.0@, r.1@) == meta_node(packages_view(pkgs@), n@),
{
    let ghost pv = packages_view(pkgs@);
    let pkg = find_package(pkgs, n.id.as_str());
    let mut attrs = str_map_new();
    let ghost e0 = str_entries(attrs);
    if let Some(i) = pkg {
        let key = string_from(&['v', 'e', 'r', 's', 'i', 'o', 'n']);
        assert(key@ =~= version_key());
        str_map_insert(&mut attrs, key, pkgs[i].version.clone());
        assert(str_entries(attrs) =~= seq![(version_key(), pv[i as int].version)]);
    } else {
        assert(str_entries(attrs) =~= Seq::<(Seq<char>, Seq<char>)>::empty());
    }
    if n.features.len() > 0 {
        let key = string_from(&['f', 'e', 'a', 't', 'u', 'r', 'e', 's']);
        assert(key@ =~= features_key());
        let mut text = String::new();
        let sep: &[char] = &[','];
        assert(sep@ =~= seq![',']);
        push_joined(&mut text, &n.features, sep);
        assert(n@.features =~= n.features@.map_values(|s: String| s@));
        assert(text@ =~= join(n@.features, seq![',']));
        let ghost before = str_entries(attrs);
        proof {
            lemma_find_key(before, features_key());
            if before.len() == 1 {
                assert(before[0].0.len() != features_key().len());
            }
        }
        str_map_insert(&mut attrs, key, text);
        assert(n@.features =~= n.features@.map_values(|s: String| s@));
        assert(str_entries(attrs) =~= before.push((features_key(), join(n@.features, seq![',']))));
    }
    let label = match pkg {
        Some(i) => pkgs[i].name.clone(),
        None => extract_package_name(n.id.as_str()),
    };
    let id = extract_name_version(n.id.as_str());
    (id, NodeInfo { label, node_type: None, attrs })
}

/// The attributes of the edge for the resolved dependency `d` of a node whose
/// package is `src` (a position in `pkgs`).
fn build_dep_attrs(pkgs: &Vec<MetaPackage>, src: Option<usize>, d: &MetaNodeDep) -> (r: IndexMap<String, String>)
    requires
        src matches Some(i) ==> i < pkgs.len(),
    ensures
        str_entries(r) == dep_attrs(
            packages_view(pkgs@),
            match src {
                Some(i) => Some(pkgs@[i as int]@),
                None => None,
            },
            d@,
        ),
{
    let ghost pv = packages_view(pkgs@);
    let mut attrs = str_map_new();
    if d.kinds.len() > 0 {
        let mut names: Vec<String> = Vec::new();
        let mut k: usize = 0;
        while k < d.kinds.len()
            invariant
                k <= d.kinds.len(),
                names@.len() == k,
                forall|j: int| 0 <= j < k ==> #[trigger] names@[j]@ == kind_name(d.kinds@[j]),
            decreases d.kinds.len() - k,
        {
            names.push(kind_text(d.kinds[k]));
            k = k + 1;
        }
        let mut text = String::new();
        let sep: &[char] = &[','];
        assert(sep@ =~= seq![',']);
        push_joined(&mut text, &names, sep);
        assert(names@.map_values(|s: String| s@) =~= d@.kinds.map_values(|x: DepKind| kind_name(x)));
        assert(text@ =~= join(d@.kinds.map_values(|x: DepKind| kind_name(x)), seq![',']));
        let key = string_from(&['k', 'i', 'n', 'd']);
        assert(key@ =~= kind_key());
        str_map_insert(&mut attrs, key, text);
    }
    let ghost a = str_entries(attrs);
    assert(a =~= (if d@.kinds.len() > 0 {
        seq![(kind_key(), join(d@.kinds.map_values(|x: DepKind| kind_name(x)), seq![',']))]
    } else {
        seq![]
    }));
    if let Some(i) = src {
        if let Some(t) = find_package(pkgs, d.pkg.as_str()) {
            if let Some(f) = find_feature_for_optional_dep(&pkgs[i], pkgs[t].name.as_str()) {
                let key = string_from(&['o', 'p', 't', 'i', 'o', 'n', 'a', 'l']);
                assert(key@ =~= optional_key());
                proof {
                    lemma_find_key(a, optional_key());
                    if a.len() == 1 {
                        assert(a[0].0.len() != optional_key().len());
                    }
                }
                str_map_insert(&mut attrs, key, f);
                assert(str_entries(attrs) =~= a.push((optional_key(), f@)));
            }
        }
    }
    attrs
}

/// The dependency graph of `cargo metadata` output: one node per resolved
/// node (id `name version`, labelled by the package name, with the package
/// version and the enabled features), one edge per resolved dependency (with
/// its kinds and, for an optional dependency, the feature enabling it).
/// Without a `resolve` section the result is [`ParseError::MissingResolve`].
pub fn graph_from_metadata(m: &MetadataModel) -> (r: Result<DepGraph, ParseError>)
    ensures
        match metadata_graph(m@) {
            Some(g) => r matches Ok(d) && d@ == g,
            None => r matches Err(ParseError::MissingResolve),
        },
{
    let nodes = match &m.resolve {
        Some(ns) => ns,
        None => return Err(ParseError::MissingResolve),
    };
    let ghost pv = packages_view(m.packages@);
    let ghost nv = nodes@.map_values(|n: MetaNode| n@);
    assert(m@.packages == pv);
    assert(m@.resolve == Some(nv));
    let mut graph = DepGraph::default();
    let mut i: usize = 0;
    assert(nv.take(0) =~= Seq::<MetaNodeV>::empty());
    while i < nodes.len()
        invariant
            i <= nodes.len(),
            pv == packages_view(m.packages@),
            nv == nodes@.map_values(|n: MetaNode| n@),
            graph@.id is None,
            graph@.attrs == Seq::<(Seq<char>, Seq<char>)>::empty(),
            graph@.subgraphs =~= Seq::<GraphView>::empty(),
            graph@.edges =~= Seq::<EdgeView>::empty(),
            graph@.nodes == meta_nodes(pv, nv.take(i as int)),
        decreases nodes.len() - i,
    {
        let (k, v) = build_node(&m.packages, &nodes[i]);
        proof {
            assert(nv.take(i + 1).drop_last() =~= nv.take(i as int));
            assert(nv.take(i + 1).last() == nodes@[i as int]@);
            lemma_node_views_insert(node_entries(graph.nodes), k@, v);
        }
        node_map_insert(&mut graph.nodes, k, v);
        i = i + 1;
    }
    assert(nv.take(i as int) =~= nv);
    let mut i: usize = 0;
    while i < nodes.len()
        invariant
            i <= nodes.len(),
            pv == packages_view(m.packages@),
            nv == nodes@.map_values(|n: MetaNode| n@),
            graph@.id is None,
            graph@.attrs == Seq::<(Seq<char>, Seq<char>)>::empty(),
            graph@.subgraphs =~= Seq::<GraphView>::empty(),
            graph@.nodes == meta_nodes(pv, nv),
            graph@.edges == meta_edges(pv, nv.take(i as int)),
        decreases nodes.len() - i,
    {
        let n = &nodes[i];
        let ghost nw = n@;
        assert(nv[i as int] == nw);
        let from = extract_name_version(n.id.as_str());
        let src = find_package(&m.packages, n.id.as_str());
        let ghost base = graph@.edges;
        let mut j: usize = 0;
        while j < n.deps.len()
            invariant
                j <= n.deps.len(),
                pv == packages_view(m.packages@),
                nw == n@,
                from@ == name_version_spec(nw.id),
                match src {
                    Some(x) => x < m.packages.len() && package_of(pv, nw.id) == Some(m.packages@[x as int]@),
                    None => package_of(pv, nw.id) is None,
                },
                graph@.id is None,
                graph@.attrs == Seq::<(Seq<char>, Seq<char>)>::empty(),
                graph@.subgraphs =~= Seq::<GraphView>::empty(),
                graph@.nodes == meta_nodes(pv, nv),
                graph@.edges == base + node_edges(pv, nw, j as nat),
            decreases n.deps.len() - j,
        {
            let d = &n.deps[j];
            assert(nw.deps[j as int] == d@);
            let attrs = build_dep_attrs(&m.packages, src, d);
            let e = Edge { from: from.clone(), to: extract_name_version(d.pkg.as_str()), label: None, attrs };
            let ghost old_edges = graph.edges@;
            graph.edges.push(e);
            proof {
                assert(edge_views(graph.edges@) =~= edge_views(old_edges).push(e@));
                assert(base + node_edges(pv, nw, (j + 1) as nat) =~= (base + node_edges(pv, nw, j as nat)).push(e@));
            }
            j = j + 1;
        }
        proof {
            assert(nv.take(i + 1).drop_last() =~= nv.take(i as int));
            assert(nv.take(i + 1).last() == nw);
        }
        i = i + 1;
    }
    assert(nv.take(i as int) =~= nv);
    Ok(graph)
}

/// Parses `cargo metadata` JSON output: an [`ParseError::InvalidJson`] error
/// when the text is not such JSON, else [`graph_from_metadata`] of what it holds.
pub fn parse(input: &str) -> (r: Result<DepGraph, ParseError>)
    ensures
        match metadata_of(input@) {
            None => r matches Err(ParseError::InvalidJson(_)),
            Some(m) => match metadata_graph(m) {
                Some(g) => r matches Ok(d) && d@ == g,
                None => r matches Err(ParseError::MissingResolve),
            },
        },
{
    match metadata_model(input) {
        Ok(m) => graph_from_metadata(&m),
        Err(e) => Err(ParseError::InvalidJson(e)),
    }
}

} // verus!
