//! Sed-style substitutions on node ids, node fields and edge fields.
use vstd::prelude::*;

use indexmap::IndexMap;

use crate::graph::{
    all_nodes_spec, edge_views, lemma_graph_view_subgraph, lemma_node_views_insert, lemma_node_views_keys, node_views, opt_str, Attrs, DepGraph, Edge, EdgeView,
    GraphView, NodeInfo, NodeView,
};
use crate::maps::{
    find_key, has_key, insert_entry, lemma_find_key, lemma_find_key_same_keys, node_entries, node_map_contains_key, node_map_get,
    str_map_contains_key, str_map_get_index, str_map_len, str_views, node_map_get_index, node_map_insert, node_map_len,
    node_map_new, str_entries, str_map_clone, str_map_get, str_map_insert, str_map_swap_remove, swap_removed, value_of,
};
use crate::text::{chars_of, starts_with, str_eq, string_from, sub_vec};

verus! {

/// Which field a substitution applies to.
#[derive(Debug, Clone)]
pub enum SubKey {
    /// Node ids (nodes merge when ids collide).
    Id,
    /// A named node field (label, or an attribute name).
    Node(String),
    /// A named edge field (label, or an attribute name).
    Edge(String),
}

/// The key text that `parse` rejected.
#[derive(Debug, Clone)]
pub struct InvalidSubKey(pub String);

fn has_prefix(v: &Vec<char>, p: &[char]) -> (b: bool)
    ensures
        b == starts_with(v@, p@),
{
    if p.len() > v.len() {
        return false;
    }
    let mut i: usize = 0;
    while i < p.len()
        invariant
            i <= p.len() <= v.len(),
            forall|k: int| 0 <= k < i ==> v@[k] == p@[k],
        decreases p.len() - i,
    {
        if v[i] != p[i] {
            assert(v@.take(p.len() as int)[i as int] != p@[i as int]);
            return false;
        }
        i = i + 1;
    }
    assert(v@.take(p.len() as int) =~= p@);
    true
}

pub open spec fn node_prefix() -> Seq<char> {
    seq!['n', 'o', 'd', 'e', ':']
}

pub open spec fn edge_prefix() -> Seq<char> {
    seq!['e', 'd', 'g', 'e', ':']
}

impl SubKey {
    /// Parse a key: `id`, `node:NAME`, or `edge:NAME`.
    pub fn parse(s: &str) -> (r: Result<SubKey, InvalidSubKey>)
        ensures
            match r {
                Ok(SubKey::Id) => s@ == seq!['i', 'd'],
                Ok(SubKey::Node(n)) => s@ != seq!['i', 'd'] && starts_with(s@, node_prefix())
                    && n@ == s@.skip(5),
                Ok(SubKey::Edge(n)) => s@ != seq!['i', 'd'] && !starts_with(s@, node_prefix())
                    && starts_with(s@, edge_prefix()) && n@ == s@.skip(5),
                Err(InvalidSubKey(t)) => s@ != seq!['i', 'd'] && !starts_with(s@, node_prefix())
                    && !starts_with(s@, edge_prefix()) && t@ == s@,
            },
    {
        let v = chars_of(s);
        let node_p = ['n', 'o', 'd', 'e', ':'];
        let edge_p = ['e', 'd', 'g', 'e', ':'];
        assert(node_p@ =~= seq!['n', 'o', 'd', 'e', ':']);
        assert(edge_p@ =~= seq!['e', 'd', 'g', 'e', ':']);
        if v.len() == 2 && v[0] == 'i' && v[1] == 'd' {
            assert(v@ =~= seq!['i', 'd']);
            Ok(SubKey::Id)
        } else if has_prefix(&v, &node_p) {
            let name = sub_vec(v.as_slice(), 5, v.len());
            assert(name@ =~= s@.skip(5));
            Ok(SubKey::Node(string_from(name.as_slice())))
        } else if has_prefix(&v, &edge_p) {
            let name = sub_vec(v.as_slice(), 5, v.len());
            assert(name@ =~= s@.skip(5));
            Ok(SubKey::Edge(string_from(name.as_slice())))
        } else {
            Err(InvalidSubKey(string_from(v.as_slice())))
        }
    }
}

} // verus!

verus! {

// ---------------------------------------------------------------------------
// Regular expressions (the `regex` crate)
// ---------------------------------------------------------------------------
/// Whether `pattern` compiles as a regular expression of the `regex` crate
/// (with its default size limit).
pub uninterp spec fn regex_valid(pattern: Seq<char>) -> bool;

/// `input` with every non-overlapping match of `pattern` replaced by
/// `replacement` (where `$1`, `${name}` name capture groups), as the `regex`
/// crate's `replace_all` computes it.
pub uninterp spec fn regex_replace_all(pattern: Seq<char>, input: Seq<char>, replacement: Seq<char>) -> Seq<char>;

/// `Regex::new(pattern)` and, when it compiles, `replace_all` on `input`:
/// `Err` with the crate's message exactly when the pattern does not compile.
#[verifier::external_body]
fn regex_substitute(pattern: &str, input: &str, replacement: &str) -> (r: Result<String, String>)
    ensures
        r is Err == !regex_valid(pattern@),
        r matches Ok(x) ==> x@ == regex_replace_all(pattern@, input@, replacement@),
{
    match regex::Regex::new(pattern) {
        Ok(re) => Ok(re.replace_all(input, replacement).into_owned()),
        Err(e) => Err(e.to_string()),
    }
}

// ---------------------------------------------------------------------------
// Parsing `s/pattern/replacement/`
// ---------------------------------------------------------------------------
/// The position of the first `d` at or after `i` in `s` that no backslash
/// escapes (a backslash escapes the character after it).
pub open spec fn find_unescaped_spec(s: Seq<char>, d: char, i: int) -> Option<int>
    decreases s.len() + 2 - i,
{
    if i < 0 || i >= s.len() {
        None
    } else if s[i] == '\\' {
        find_unescaped_spec(s, d, i + 2)
    } else if s[i] == d {
        Some(i)
    } else {
        find_unescaped_spec(s, d, i + 1)
    }
}

/// `s` with each `\` that stands before `d` removed (scanning left to right).
pub open spec fn unescape_delim_spec(s: Seq<char>, d: char) -> Seq<char>
    decreases s.len(),
{
    if s.len() == 0 {
        s
    } else if s.len() >= 2 && s[0] == '\\' && s[1] == d {
        seq![d] + unescape_delim_spec(s.skip(2), d)
    } else {
        seq![s[0]] + unescape_delim_spec(s.drop_first(), d)
    }
}

/// How a substitution text splits, before its pattern is compiled.
pub enum SubSplit {
    MissingS,
    TooShort,
    NonAsciiDelimiter,
    MissingDelimiter,
    /// The pattern, and the replacement with its escaped delimiters unescaped.
    Parts(Seq<char>, Seq<char>),
}

/// The split of the substitution text `s`, whose UTF-8 encoding is `nbytes`
/// long: `s`, a delimiter (an ASCII character), the pattern up to the next
/// unescaped delimiter, the replacement up to the next one or to the end.
pub open spec fn split_substitution(s: Seq<char>, nbytes: int) -> SubSplit {
    if s.len() == 0 || s[0] != 's' {
        SubSplit::MissingS
    } else if nbytes < 4 || s.len() < 2 {
        SubSplit::TooShort
    } else if s[1] as u32 >= 0x80 {
        SubSplit::NonAsciiDelimiter
    } else {
        match find_unescaped_spec(s, s[1], 2) {
            None => SubSplit::MissingDelimiter,
            Some(pe) => {
                let re = match find_unescaped_spec(s, s[1], pe + 1) {
                    Some(x) => x,
                    None => s.len() as int,
                };
                SubSplit::Parts(s.subrange(2, pe), unescape_delim_spec(s.subrange(pe + 1, re), s[1]))
            },
        }
    }
}

/// Why a substitution text was rejected.
#[derive(Debug)]
pub enum SubstitutionError {
    /// It does not start with `s`.
    MissingS,
    /// It is shorter than four bytes.
    TooShort,
    /// The delimiter after `s` is not an ASCII character.
    NonAsciiDelimiter,
    /// No unescaped delimiter ends the pattern.
    MissingDelimiter,
    /// The pattern is not a valid regular expression; holds the regex error.
    InvalidRegex(String),
}

/// A parsed sed-style substitution `s/pattern/replacement/`.
pub struct Substitution {
    pattern: String,
    replacement: String,
}

impl Substitution {
    #[verifier::type_invariant]
    spec fn pattern_compiles(self) -> bool {
        regex_valid(self.pattern@)
    }

    /// The regular expression.
    pub closed spec fn pattern(self) -> Seq<char> {
        self.pattern@
    }

    /// The replacement text.
    pub closed spec fn replacement(self) -> Seq<char> {
        self.replacement@
    }

    /// Parse a sed-style `s/pattern/replacement/` text. The character after
    /// `s` is the delimiter (an ASCII character); a backslash escapes the
    /// character after it; the trailing delimiter is optional; `\<delim>` in
    /// the replacement stands for the delimiter itself.
    pub fn parse(s: &str) -> (r: Result<Substitution, SubstitutionError>)
        ensures
            match (r, split_substitution(s@, s.len() as int)) {
                (Ok(sub), SubSplit::Parts(p, rep)) => sub.pattern() == p && sub.replacement() == rep
                    && regex_valid(p),
                (Err(SubstitutionError::InvalidRegex(_)), SubSplit::Parts(p, _)) => !regex_valid(p),
                (Err(SubstitutionError::MissingS), SubSplit::MissingS) => true,
                (Err(SubstitutionError::TooShort), SubSplit::TooShort) => true,
                (Err(SubstitutionError::NonAsciiDelimiter), SubSplit::NonAsciiDelimiter) => true,
                (Err(SubstitutionError::MissingDelimiter), SubSplit::MissingDelimiter) => true,
                _ => false,
            },
    {
        let v = chars_of(s);
        let nbytes = s.len();
        if v.len() == 0 || v[0] != 's' {
            return Err(SubstitutionError::MissingS);
        }
        if nbytes < 4 || v.len() < 2 {
            return Err(SubstitutionError::TooShort);
        }
        let delim = v[1];
        if delim as u32 >= 0x80 {
            return Err(SubstitutionError::NonAsciiDelimiter);
        }
        let pattern_end = match find_unescaped(&v, delim, 2) {
            Some(e) => e,
            None => {
                return Err(SubstitutionError::MissingDelimiter);
            },
        };
        let replacement_start = pattern_end + 1;
        let replacement_end = match find_unescaped(&v, delim, replacement_start) {
            Some(e) => e,
            None => v.len(),
        };
        let pattern = string_from(sub_vec(v.as_slice(), 2, pattern_end).as_slice());
        let raw = sub_vec(v.as_slice(), replacement_start, replacement_end);
        let replacement = unescape_delimiter(&raw, delim);
        match regex_substitute(pattern.as_str(), "", "") {
            Ok(_) => Ok(Substitution { pattern, replacement }),
            Err(e) => Err(SubstitutionError::InvalidRegex(e)),
        }
    }

    /// `input` with every match of the pattern replaced.
    pub fn apply(&self, input: &str) -> (r: String)
        ensures
            r@ == regex_replace_all(self.pattern(), input@, self.replacement()),
    {
        proof {
            use_type_invariant(self);
        }
        match regex_substitute(self.pattern.as_str(), input, self.replacement.as_str()) {
            Ok(x) => x,
            Err(_) => {
                assert(false);
                String::new()
            },
        }
    }
}

/// The position of the next unescaped `d` at or after `start`.
fn find_unescaped(v: &Vec<char>, d: char, start: usize) -> (r: Option<usize>)
    ensures
        match r {
            Some(i) => find_unescaped_spec(v@, d, start as int) == Some(i as int) && start <= i < v.len(),
            None => find_unescaped_spec(v@, d, start as int) is None,
        },
{
    let mut i = start;
    while i < v.len()
        invariant
            start <= i,
            find_unescaped_spec(v@, d, i as int) == find_unescaped_spec(v@, d, start as int),
        decreases v.len() - i,
    {
        if v[i] == '\\' {
            if i + 1 >= v.len() {
                assert(find_unescaped_spec(v@, d, i + 2) is None);
                return None;
            }
            i = i + 2;
        } else if v[i] == d {
            return Some(i);
        } else {
            i = i + 1;
        }
    }
    None
}

/// `s` with each `\` before the delimiter `d` removed.
fn unescape_delimiter(s: &Vec<char>, d: char) -> (r: String)
    ensures
        r@ == unescape_delim_spec(s@, d),
{
    let mut r = String::new();
    let mut i: usize = 0;
    assert(s@.skip(0) =~= s@);
    while i < s.len()
        invariant
            i <= s.len(),
            unescape_delim_spec(s@, d) == r@ + unescape_delim_spec(s@.skip(i as int), d),
        decreases s.len() - i,
    {
        let ghost rest = s@.skip(i as int);
        if i + 1 < s.len() && s[i] == '\\' && s[i + 1] == d {
            crate::text::push_char(&mut r, d);
            assert(rest.skip(2) =~= s@.skip(i + 2));
            i = i + 2;
        } else {
            crate::text::push_char(&mut r, s[i]);
            assert(rest.drop_first() =~= s@.skip(i + 1));
            i = i + 1;
        }
    }
    assert(s@.skip(s.len() as int) =~= Seq::<char>::empty());
    assert(r@ + Seq::<char>::empty() =~= r@);
    r
}

} // verus!

verus! {

// ---------------------------------------------------------------------------
// Substituting in node and edge fields
// ---------------------------------------------------------------------------
/// The field name `label`.
pub open spec fn label_field() -> Seq<char> {
    seq!['l', 'a', 'b', 'e', 'l']
}

/// The field name `node_type`.
pub open spec fn node_type_field() -> Seq<char> {
    seq!['n', 'o', 'd', 'e', '_', 't', 'y', 'p', 'e']
}

/// Attributes after substituting in the value of `field`: an empty result
/// removes the attribute (the last attribute taking its place).
pub open spec fn sub_attr(attrs: Attrs, field: Seq<char>, p: Seq<char>, r: Seq<char>) -> Attrs {
    match value_of(attrs, field) {
        Some(v) => {
            let nv = regex_replace_all(p, v, r);
            if nv.len() == 0 {
                swap_removed(attrs, field)
            } else {
                insert_entry(attrs, field, nv)
            }
        },
        None => attrs,
    }
}

/// Node `id` after substituting in `field`: an empty label falls back to the
/// id, an empty type to none, an empty attribute is removed.
pub open spec fn sub_node(id: Seq<char>, n: NodeView, field: Seq<char>, p: Seq<char>, r: Seq<char>) -> NodeView {
    if field == label_field() {
        let nl = regex_replace_all(p, n.label, r);
        NodeView { label: if nl.len() == 0 { id } else { nl }, node_type: n.node_type, attrs: n.attrs }
    } else if field == node_type_field() {
        match n.node_type {
            Some(t) => {
                let nt = regex_replace_all(p, t, r);
                NodeView { label: n.label, node_type: if nt.len() == 0 { None } else { Some(nt) }, attrs: n.attrs }
            },
            None => n,
        }
    } else {
        NodeView { label: n.label, node_type: n.node_type, attrs: sub_attr(n.attrs, field, p, r) }
    }
}

/// An edge after substituting in `field`: an empty label falls back to none,
/// an empty attribute is removed.
pub open spec fn sub_edge(e: EdgeView, field: Seq<char>, p: Seq<char>, r: Seq<char>) -> EdgeView {
    if field == label_field() {
        match e.label {
            Some(l) => {
                let nl = regex_replace_all(p, l, r);
                EdgeView { from: e.from, to: e.to, label: if nl.len() == 0 { None } else { Some(nl) }, attrs: e.attrs }
            },
            None => e,
        }
    } else {
        EdgeView { from: e.from, to: e.to, label: e.label, attrs: sub_attr(e.attrs, field, p, r) }
    }
}

/// `g` with the substitution applied to `field` of every node, at every depth.
pub open spec fn sub_nodes_graph(g: GraphView, field: Seq<char>, p: Seq<char>, r: Seq<char>) -> GraphView
    decreases g,
{
    GraphView {
        id: g.id,
        attrs: g.attrs,
        nodes: Seq::new(g.nodes.len(), |i: int| (g.nodes[i].0, sub_node(g.nodes[i].0, g.nodes[i].1, field, p, r))),
        edges: g.edges,
        subgraphs: Seq::new(
            g.subgraphs.len(),
            |i: int| if 0 <= i < g.subgraphs.len() { sub_nodes_graph(g.subgraphs[i], field, p, r) } else { arbitrary() },
        ),
    }
}

/// `g` with the substitution applied to `field` of every edge, at every depth.
pub open spec fn sub_edges_graph(g: GraphView, field: Seq<char>, p: Seq<char>, r: Seq<char>) -> GraphView
    decreases g,
{
    GraphView {
        id: g.id,
        attrs: g.attrs,
        nodes: g.nodes,
        edges: Seq::new(g.edges.len(), |i: int| sub_edge(g.edges[i], field, p, r)),
        subgraphs: Seq::new(
            g.subgraphs.len(),
            |i: int| if 0 <= i < g.subgraphs.len() { sub_edges_graph(g.subgraphs[i], field, p, r) } else { arbitrary() },
        ),
    }
}

/// Substitutes in the value of attribute `field`, removing it when empty.
fn sub_attr_in(attrs: &mut IndexMap<String, String>, field: &str, s: &Substitution)
    ensures
        str_entries(*final(attrs)) == sub_attr(str_entries(*old(attrs)), field@, s.pattern(), s.replacement()),
{
    let nv = match str_map_get(attrs, field) {
        Some(v) => Some(s.apply(v.as_str())),
        None => None,
    };
    match nv {
        Some(x) => {
            if x.as_str().is_empty() {
                str_map_swap_remove(attrs, field);
            } else {
                str_map_insert(attrs, field.to_string(), x);
            }
        },
        None => {},
    }
}

/// Node `id` after substituting in `field`.
fn sub_node_info(id: &String, info: &NodeInfo, field: &str, s: &Substitution) -> (r: NodeInfo)
    ensures
        r@ == sub_node(id@, info@, field@, s.pattern(), s.replacement()),
{
    let mut n = info.duplicate();
    proof {
        reveal_strlit("label");
        reveal_strlit("node_type");
        assert("label"@ =~= label_field());
        assert("node_type"@ =~= node_type_field());
    }
    if str_eq(field, "label") {
        let nl = s.apply(n.label.as_str());
        n.label = if nl.as_str().is_empty() {
            id.clone()
        } else {
            nl
        };
    } else if str_eq(field, "node_type") {
        let nt = match &n.node_type {
            Some(t) => Some(s.apply(t.as_str())),
            None => None,
        };
        match nt {
            Some(x) => {
                n.node_type = if x.as_str().is_empty() {
                    None
                } else {
                    Some(x)
                };
            },
            None => {},
        }
    } else {
        sub_attr_in(&mut n.attrs, field, s);
    }
    n
}

/// An edge after substituting in `field`.
fn sub_edge_info(e: &Edge, field: &str, s: &Substitution) -> (r: Edge)
    ensures
        r@ == sub_edge(e@, field@, s.pattern(), s.replacement()),
{
    let mut n = e.duplicate();
    proof {
        reveal_strlit("label");
        assert("label"@ =~= label_field());
    }
    if str_eq(field, "label") {
        let nl = match &n.label {
            Some(t) => Some(s.apply(t.as_str())),
            None => None,
        };
        match nl {
            Some(x) => {
                n.label = if x.as_str().is_empty() {
                    None
                } else {
                    Some(x)
                };
            },
            None => {},
        }
    } else {
        sub_attr_in(&mut n.attrs, field, s);
    }
    n
}

/// A copy of an optional string.
fn copy_opt(o: &Option<String>) -> (r: Option<String>)
    ensures
        opt_str(r) == opt_str(*o),
{
    match o {
        Some(s) => Some(s.clone()),
        None => None,
    }
}

/// A copy of a list of edges.
fn copy_edges(edges: &Vec<Edge>) -> (r: Vec<Edge>)
    ensures
        edge_views(r@) == edge_views(edges@),
{
    let mut r: Vec<Edge> = Vec::new();
    let mut i: usize = 0;
    while i < edges.len()
        invariant
            i <= edges.len(),
            r.len() == i,
            edge_views(r@) == edge_views(edges@).take(i as int),
        decreases edges.len() - i,
    {
        r.push(edges[i].duplicate());
        i = i + 1;
        assert(edge_views(r@) =~= edge_views(edges@).take(i as int));
    }
    assert(edge_views(edges@).take(edges.len() as int) =~= edge_views(edges@));
    r
}

/// `graph` with the substitution applied to `field` of every node, in every subgraph.
fn sub_node_field(graph: &DepGraph, substitution: &Substitution, field: &str) -> (r: DepGraph)
    ensures
        r@ == sub_nodes_graph(graph@, field@, substitution.pattern(), substitution.replacement()),
    decreases graph,
{
    let ghost g = graph@;
    let ghost p = substitution.pattern();
    let ghost rp = substitution.replacement();
    let n = node_map_len(&graph.nodes);
    let ghost want = Seq::new(g.nodes.len(), |i: int| (g.nodes[i].0, sub_node(g.nodes[i].0, g.nodes[i].1, field@, p, rp)));
    let mut nodes = node_map_new();
    let mut i: usize = 0;
    assert(node_views(node_entries(nodes)) =~= want.take(0));
    while i < n
        invariant
            i <= n == g.nodes.len() == node_entries(graph.nodes).len(),
            g == graph@,
            p == substitution.pattern(),
            rp == substitution.replacement(),
            want == Seq::new(g.nodes.len(), |i: int| (g.nodes[i].0, sub_node(g.nodes[i].0, g.nodes[i].1, field@, p, rp))),
            node_views(node_entries(nodes)) == want.take(i as int),
        decreases n - i,
    {
        let (k, info) = node_map_get_index(&graph.nodes, i).unwrap();
        let ni = sub_node_info(k, info, field, substitution);
        proof {
            assert(g.nodes[i as int] == (k@, info@));
            lemma_node_views_insert(node_entries(nodes), k@, ni);
            let nv = node_views(node_entries(nodes));
            lemma_find_key(nv, k@);
            if find_key(nv, k@) >= 0 {
                let j = find_key(nv, k@);
                assert(nv[j].0 == g.nodes[j].0);
                assert(node_entries(graph.nodes)[j].0 == g.nodes[j].0);
            }
        }
        node_map_insert(&mut nodes, k.clone(), ni);
        i = i + 1;
        assert(node_views(node_entries(nodes)) =~= want.take(i as int));
    }
    assert(want.take(n as int) =~= want);
    let mut subgraphs: Vec<DepGraph> = Vec::new();
    let mut j: usize = 0;
    while j < graph.subgraphs.len()
        invariant
            j <= graph.subgraphs.len(),
            g == graph@,
            p == substitution.pattern(),
            rp == substitution.replacement(),
            subgraphs.len() == j,
            forall|m: int| 0 <= m < j ==> #[trigger] subgraphs@[m]@ == sub_nodes_graph(g.subgraphs[m], field@, p, rp),
        decreases graph.subgraphs.len() - j,
    {
        proof {
            lemma_graph_view_subgraph(*graph, j as int);
        }
        subgraphs.push(sub_node_field(&graph.subgraphs[j], substitution, field));
        j = j + 1;
    }
    let r = DepGraph {
        id: copy_opt(&graph.id),
        attrs: str_map_clone(&graph.attrs),
        nodes,
        edges: copy_edges(&graph.edges),
        subgraphs,
    };
    proof {
        if graph.subgraphs@.len() > 0 {
            lemma_graph_view_subgraph(*graph, 0);
        }
        if r.subgraphs@.len() > 0 {
            lemma_graph_view_subgraph(r, 0);
        }
        assert forall|m: int| 0 <= m < r.subgraphs@.len() implies r@.subgraphs[m] == sub_nodes_graph(g, field@, p, rp).subgraphs[m] by {
            lemma_graph_view_subgraph(r, m);
        }
        assert(r@.subgraphs =~= sub_nodes_graph(g, field@, p, rp).subgraphs);
    }
    assert(r@ =~= sub_nodes_graph(g, field@, p, rp));
    r
}

/// `graph` with the substitution applied to `field` of every edge, in every subgraph.
fn sub_edge_field(graph: &DepGraph, substitution: &Substitution, field: &str) -> (r: DepGraph)
    ensures
        r@ == sub_edges_graph(graph@, field@, substitution.pattern(), substitution.replacement()),
    decreases graph,
{
    let ghost g = graph@;
    let ghost p = substitution.pattern();
    let ghost rp = substitution.replacement();
    let mut edges: Vec<Edge> = Vec::new();
    let mut i: usize = 0;
    while i < graph.edges.len()
        invariant
            i <= graph.edges.len(),
            g == graph@,
            p == substitution.pattern(),
            rp == substitution.replacement(),
            edges.len() == i,
            forall|m: int| 0 <= m < i ==> #[trigger] edges@[m]@ == sub_edge(g.edges[m], field@, p, rp),
        decreases graph.edges.len() - i,
    {
        edges.push(sub_edge_info(&graph.edges[i], field, substitution));
        i = i + 1;
    }
    let mut subgraphs: Vec<DepGraph> = Vec::new();
    let mut j: usize = 0;
    while j < graph.subgraphs.len()
        invariant
            j <= graph.subgraphs.len(),
            g == graph@,
            p == substitution.pattern(),
            rp == substitution.replacement(),
            subgraphs.len() == j,
            forall|m: int| 0 <= m < j ==> #[trigger] subgraphs@[m]@ == sub_edges_graph(g.subgraphs[m], field@, p, rp),
        decreases graph.subgraphs.len() - j,
    {
        proof {
            lemma_graph_view_subgraph(*graph, j as int);
        }
        subgraphs.push(sub_edge_field(&graph.subgraphs[j], substitution, field));
        j = j + 1;
    }
    let r = DepGraph {
        id: copy_opt(&graph.id),
        attrs: str_map_clone(&graph.attrs),
        nodes: crate::graph::copy_node_map(&graph.nodes),
        edges,
        subgraphs,
    };
    proof {
        if graph.subgraphs@.len() > 0 {
            lemma_graph_view_subgraph(*graph, 0);
        }
        if r.subgraphs@.len() > 0 {
            lemma_graph_view_subgraph(r, 0);
        }
        assert forall|m: int| 0 <= m < r.subgraphs@.len() implies r@.subgraphs[m] == sub_edges_graph(g, field@, p, rp).subgraphs[m] by {
            lemma_graph_view_subgraph(r, m);
        }
        assert(r@.subgraphs =~= sub_edges_graph(g, field@, p, rp).subgraphs);
        assert(r@.edges =~= sub_edges_graph(g, field@, p, rp).edges);
    }
    assert(r@ =~= sub_edges_graph(g, field@, p, rp));
    r
}

} // verus!

verus! {

// ---------------------------------------------------------------------------
// Substituting in node ids
// ---------------------------------------------------------------------------
/// `acc` with the attributes of `attrs` that it lacks appended, in order
/// (attributes already in `acc` keep their values).
pub open spec fn attrs_or_insert(acc: Attrs, attrs: Attrs) -> Attrs
    decreases attrs.len(),
{
    if attrs.len() == 0 {
        acc
    } else {
        let prev = attrs_or_insert(acc, attrs.drop_last());
        if has_key(prev, attrs.last().0) {
            prev
        } else {
            prev.push(attrs.last())
        }
    }
}

/// A node that another node with the same new id is merged into: it keeps
/// its label, takes the other's type when it has none, and gains the other's
/// attributes that it lacks.
pub open spec fn merge_node(existing: NodeView, other: NodeView) -> NodeView {
    NodeView {
        label: existing.label,
        node_type: if existing.node_type is None { other.node_type } else { existing.node_type },
        attrs: attrs_or_insert(existing.attrs, other.attrs),
    }
}

/// The nodes of one level under their new ids: a node whose new id is empty
/// or was placed at an earlier level is dropped; nodes that collide merge
/// into the first.
pub open spec fn remap_nodes(nodes: Seq<(Seq<char>, NodeView)>, placed: Set<Seq<char>>, p: Seq<char>, r: Seq<char>) -> Seq<(Seq<char>, NodeView)>
    decreases nodes.len(),
{
    if nodes.len() == 0 {
        seq![]
    } else {
        let acc = remap_nodes(nodes.drop_last(), placed, p, r);
        let nid = regex_replace_all(p, nodes.last().0, r);
        if nid.len() == 0 || placed.contains(nid) {
            acc
        } else {
            match value_of(acc, nid) {
                Some(existing) => insert_entry(acc, nid, merge_node(existing, nodes.last().1)),
                None => acc.push((nid, nodes.last().1)),
            }
        }
    }
}

/// The new id of an edge endpoint: substituted when it is a node of the
/// graph (`all`), kept as it is otherwise.
pub open spec fn mapped_id(all: Seq<(Seq<char>, NodeView)>, k: Seq<char>, p: Seq<char>, r: Seq<char>) -> Seq<char> {
    if has_key(all, k) {
        regex_replace_all(p, k, r)
    } else {
        k
    }
}

/// Whether `out` has an edge with these ends and this label.
pub open spec fn has_edge(out: Seq<EdgeView>, from: Seq<char>, to: Seq<char>, label: Option<Seq<char>>) -> bool {
    exists|j: int| 0 <= j < out.len() && #[trigger] out[j].from == from && out[j].to == to && out[j].label == label
}

/// The edges of one level under the new ids: an edge with an empty end, a
/// self-loop, or one that repeats an earlier edge's ends and label is dropped.
pub open spec fn remap_edges(edges: Seq<EdgeView>, all: Seq<(Seq<char>, NodeView)>, p: Seq<char>, r: Seq<char>) -> Seq<EdgeView>
    decreases edges.len(),
{
    if edges.len() == 0 {
        seq![]
    } else {
        let out = remap_edges(edges.drop_last(), all, p, r);
        let e = edges.last();
        let from = mapped_id(all, e.from, p, r);
        let to = mapped_id(all, e.to, p, r);
        if from.len() == 0 || to.len() == 0 || from == to || has_edge(out, from, to, e.label) {
            out
        } else {
            out.push(EdgeView { from, to, label: e.label, attrs: e.attrs })
        }
    }
}

/// `g` under the new ids, and the ids placed so far: this level's nodes are
/// placed before its subgraphs are visited in order; a subgraph left with
/// no nodes and no subgraphs is dropped.
pub open spec fn remap(g: GraphView, all: Seq<(Seq<char>, NodeView)>, placed: Set<Seq<char>>, p: Seq<char>, r: Seq<char>) -> (GraphView, Set<Seq<char>>)
    decreases g, 0nat,
{
    let nodes = remap_nodes(g.nodes, placed, p, r);
    let placed1 = placed.union(nodes.map_values(|e: (Seq<char>, NodeView)| e.0).to_set());
    let (subs, placed2) = remap_list(g.subgraphs, all, placed1, p, r, g.subgraphs.len());
    (GraphView { id: g.id, attrs: g.attrs, nodes, edges: remap_edges(g.edges, all, p, r), subgraphs: subs }, placed2)
}

pub open spec fn remap_list(sgs: Seq<GraphView>, all: Seq<(Seq<char>, NodeView)>, placed: Set<Seq<char>>, p: Seq<char>, r: Seq<char>, n: nat) -> (Seq<GraphView>, Set<Seq<char>>)
    decreases sgs, n,
{
    if n == 0 || n > sgs.len() {
        (seq![], placed)
    } else {
        let (prev, pl) = remap_list(sgs, all, placed, p, r, (n - 1) as nat);
        let (sg, pl2) = remap(sgs[n - 1], all, pl, p, r);
        (if sg.nodes.len() > 0 || sg.subgraphs.len() > 0 { prev.push(sg) } else { prev }, pl2)
    }
}

/// `g` with the substitution applied to every node id (across all
/// subgraphs), colliding nodes merged and edges remapped.
pub open spec fn sub_ids_graph(g: GraphView, p: Seq<char>, r: Seq<char>) -> GraphView {
    remap(g, all_nodes_spec(g), Set::empty(), p, r).0
}

/// Whether `x` is one of `v`.
pub(crate) fn contains_str(v: &Vec<String>, x: &str) -> (b: bool)
    ensures
        b == str_views(v@).contains(x@),
{
    let mut i: usize = 0;
    while i < v.len()
        invariant
            i <= v.len(),
            forall|j: int| 0 <= j < i ==> v@[j]@ != x@,
        decreases v.len() - i,
    {
        if str_eq(v[i].as_str(), x) {
            assert(str_views(v@)[i as int] == x@);
            return true;
        }
        i = i + 1;
    }
    assert forall|j: int| 0 <= j < str_views(v@).len() implies str_views(v@)[j] != x@ by {
        assert(str_views(v@)[j] == v@[j]@);
    }
    false
}

/// `existing` with `other` merged into it.
fn merge_nodes(existing: &NodeInfo, other: &NodeInfo) -> (r: NodeInfo)
    ensures
        r@ == merge_node(existing@, other@),
{
    let mut n = existing.duplicate();
    if n.node_type.is_none() {
        n.node_type = copy_opt(&other.node_type);
    }
    let len = str_map_len(&other.attrs);
    let ghost oa = str_entries(other.attrs);
    let mut i: usize = 0;
    assert(oa.take(0).len() == 0);
    while i < len
        invariant
            i <= len == oa.len(),
            oa == str_entries(other.attrs),
            n.label@ == existing@.label,
            opt_str(n.node_type) == merge_node(existing@, other@).node_type,
            str_entries(n.attrs) == attrs_or_insert(existing@.attrs, oa.take(i as int)),
        decreases len - i,
    {
        let (k, v) = str_map_get_index(&other.attrs, i).unwrap();
        proof {
            assert(oa.take(i + 1).drop_last() =~= oa.take(i as int));
            assert(oa.take(i + 1).last() == oa[i as int]);
        }
        if !str_map_contains_key(&n.attrs, k.as_str()) {
            proof {
                lemma_find_key(str_entries(n.attrs), k@);
            }
            str_map_insert(&mut n.attrs, k.clone(), v.clone());
        }
        i = i + 1;
    }
    assert(oa.take(len as int) =~= oa);
    n
}

/// Whether two optional strings are equal.
fn opt_eq(a: &Option<String>, b: &Option<String>) -> (r: bool)
    ensures
        r == (opt_str(*a) == opt_str(*b)),
{
    match (a, b) {
        (Some(x), Some(y)) => str_eq(x.as_str(), y.as_str()),
        (None, None) => true,
        _ => false,
    }
}

/// The new id of an edge endpoint.
fn mapped_endpoint(all: &IndexMap<String, NodeInfo>, k: &String, s: &Substitution) -> (r: String)
    ensures
        r@ == mapped_id(node_views(node_entries(*all)), k@, s.pattern(), s.replacement()),
{
    proof {
        lemma_node_views_keys(node_entries(*all));
    }
    if node_map_contains_key(all, k.as_str()) {
        s.apply(k.as_str())
    } else {
        k.clone()
    }
}

/// The edges of `edges` under the new ids.
fn remap_edge_list(edges: &Vec<Edge>, all: &IndexMap<String, NodeInfo>, s: &Substitution) -> (r: Vec<Edge>)
    ensures
        edge_views(r@) == remap_edges(edge_views(edges@), node_views(node_entries(*all)), s.pattern(), s.replacement()),
{
    let ghost ev = edge_views(edges@);
    let ghost av = node_views(node_entries(*all));
    let mut out: Vec<Edge> = Vec::new();
    let mut i: usize = 0;
    assert(ev.take(0).len() == 0);
    while i < edges.len()
        invariant
            i <= edges.len(),
            ev == edge_views(edges@),
            av == node_views(node_entries(*all)),
            edge_views(out@) == remap_edges(ev.take(i as int), av, s.pattern(), s.replacement()),
        decreases edges.len() - i,
    {
        let e = &edges[i];
        proof {
            assert(ev.take(i + 1).drop_last() =~= ev.take(i as int));
            assert(ev.take(i + 1).last() == e@);
        }
        let from = mapped_endpoint(all, &e.from, s);
        let to = mapped_endpoint(all, &e.to, s);
        let ghost ov = edge_views(out@);
        let mut dup = false;
        let mut j: usize = 0;
        while j < out.len()
            invariant
                j <= out.len(),
                ov == edge_views(out@),
                dup == exists|q: int| 0 <= q < j && #[trigger] ov[q].from == from@ && ov[q].to == to@ && ov[q].label == opt_str(e.label),
            decreases out.len() - j,
        {
            let same = str_eq(out[j].from.as_str(), from.as_str()) && str_eq(out[j].to.as_str(), to.as_str()) && opt_eq(&out[j].label, &e.label);
            proof {
                assert(ov[j as int] == out@[j as int]@);
                assert(ov[j as int].from == out@[j as int].from@);
                assert(ov[j as int].to == out@[j as int].to@);
                assert(ov[j as int].label == opt_str(out@[j as int].label));
            }
            if same {
                dup = true;
            }
            j = j + 1;
        }
        assert(dup == has_edge(ov, from@, to@, opt_str(e.label)));
        if !(from.as_str().is_empty() || to.as_str().is_empty() || str_eq(from.as_str(), to.as_str()) || dup) {
            let ne = Edge { from, to, label: copy_opt(&e.label), attrs: str_map_clone(&e.attrs) };
            let ghost nev = ne@;
            out.push(ne);
            assert(edge_views(out@) =~= ov.push(nev));
        }
        i = i + 1;
    }
    assert(ev.take(edges.len() as int) =~= ev);
    out
}

/// The nodes of one level under their new ids.
fn remap_node_map(m: &IndexMap<String, NodeInfo>, s: &Substitution, placed: &Vec<String>) -> (r: IndexMap<String, NodeInfo>)
    ensures
        node_views(node_entries(r)) == remap_nodes(node_views(node_entries(*m)), str_views(placed@).to_set(), s.pattern(), s.replacement()),
{
    let ghost nv = node_views(node_entries(*m));
    let ghost pl = str_views(placed@).to_set();
    let n = node_map_len(m);
    let mut nodes = node_map_new();
    let mut i: usize = 0;
    assert(nv.take(0).len() == 0);
    while i < n
        invariant
            i <= n == nv.len(),
            nv == node_views(node_entries(*m)),
            pl == str_views(placed@).to_set(),
            node_views(node_entries(nodes)) == remap_nodes(nv.take(i as int), pl, s.pattern(), s.replacement()),
        decreases n - i,
    {
        let (k, info) = node_map_get_index(m, i).unwrap();
        proof {
            assert(nv.take(i + 1).drop_last() =~= nv.take(i as int));
            assert(nv.take(i + 1).last() == (k@, info@));
        }
        let nid = s.apply(k.as_str());
        let skip = nid.as_str().is_empty() || contains_str(placed, nid.as_str());
        proof {
            assert(str_views(placed@).contains(nid@) == pl.contains(nid@));
        }
        if !skip {
            let ghost acc = node_views(node_entries(nodes));
            proof {
                lemma_node_views_keys(node_entries(nodes));
                lemma_find_key_same_keys(node_entries(nodes), acc, nid@);
                lemma_find_key(node_entries(nodes), nid@);
                lemma_find_key(acc, nid@);
            }
            let merged = match node_map_get(&nodes, nid.as_str()) {
                Some(existing) => merge_nodes(existing, info),
                None => info.duplicate(),
            };
            proof {
                lemma_node_views_insert(node_entries(nodes), nid@, merged);
            }
            node_map_insert(&mut nodes, nid, merged);
        }
        i = i + 1;
    }
    assert(nv.take(n as int) =~= nv);
    nodes
}

/// `graph` under the new ids, placing its nodes and then those of its
/// subgraphs in order.
fn remap_subgraph(graph: &DepGraph, all: &IndexMap<String, NodeInfo>, s: &Substitution, placed: &mut Vec<String>) -> (r: DepGraph)
    ensures
        (r@, str_views(final(placed)@).to_set()) == remap(graph@, node_views(node_entries(*all)), str_views(old(placed)@).to_set(), s.pattern(), s.replacement()),
    decreases graph,
{
    let ghost g = graph@;
    let ghost av = node_views(node_entries(*all));
    let ghost p = s.pattern();
    let ghost rp = s.replacement();
    let nodes = remap_node_map(&graph.nodes, s, placed);
    let ghost nv = node_views(node_entries(nodes));
    let ghost pl0 = str_views(placed@).to_set();
    let n = node_map_len(&nodes);
    let mut i: usize = 0;
    while i < n
        invariant
            i <= n == nv.len() == node_entries(nodes).len(),
            nv == node_views(node_entries(nodes)),
            str_views(placed@).to_set() == pl0.union(nv.take(i as int).map_values(|e: (Seq<char>, NodeView)| e.0).to_set()),
        decreases n - i,
    {
        let (k, _) = node_map_get_index(&nodes, i).unwrap();
        let ghost before = str_views(placed@);
        placed.push(k.clone());
        proof {
            assert(str_views(placed@) =~= before.push(k@));
            assert(nv[i as int].0 == k@);
            let a = nv.take(i as int).map_values(|e: (Seq<char>, NodeView)| e.0);
            let b = nv.take(i + 1).map_values(|e: (Seq<char>, NodeView)| e.0);
            assert(b =~= a.push(k@));
            a.lemma_push_to_set_commute(k@);
            before.lemma_push_to_set_commute(k@);
            assert(str_views(placed@).to_set() =~= pl0.union(b.to_set()));
        }
        i = i + 1;
    }
    assert(nv.take(n as int) =~= nv);
    let ghost pl1 = str_views(placed@).to_set();
    let mut subgraphs: Vec<DepGraph> = Vec::new();
    let mut j: usize = 0;
    proof {
        assert(graphs_of(subgraphs@) =~= Seq::<GraphView>::empty());
    }
    while j < graph.subgraphs.len()
        invariant
            j <= graph.subgraphs.len(),
            g == graph@,
            av == node_views(node_entries(*all)),
            p == s.pattern(),
            rp == s.replacement(),
            g.subgraphs.len() == graph.subgraphs@.len(),
            (graphs_of(subgraphs@), str_views(placed@).to_set()) == remap_list(g.subgraphs, av, pl1, p, rp, j as nat),
        decreases graph.subgraphs.len() - j,
    {
        proof {
            lemma_graph_view_subgraph(*graph, j as int);
        }
        let sg = remap_subgraph(&graph.subgraphs[j], all, s, placed);
        let keep = node_map_len(&sg.nodes) > 0 || sg.subgraphs.len() > 0;
        proof {
            if sg.subgraphs@.len() > 0 {
                lemma_graph_view_subgraph(sg, 0);
            }
            assert(sg@.nodes.len() == node_entries(sg.nodes).len());
        }
        if keep {
            let ghost before = graphs_of(subgraphs@);
            let ghost sv = sg@;
            subgraphs.push(sg);
            assert(graphs_of(subgraphs@) =~= before.push(sv));
        }
        j = j + 1;
    }
    let edges = remap_edge_list(&graph.edges, all, s);
    let r = DepGraph { id: copy_opt(&graph.id), attrs: str_map_clone(&graph.attrs), nodes, edges, subgraphs };
    proof {
        if r.subgraphs@.len() > 0 {
            lemma_graph_view_subgraph(r, 0);
        }
        assert forall|m: int| 0 <= m < r.subgraphs@.len() implies r@.subgraphs[m] == graphs_of(r.subgraphs@)[m] by {
            lemma_graph_view_subgraph(r, m);
        }
        assert(r@.subgraphs =~= graphs_of(r.subgraphs@));
    }
    assert(r@ =~= remap(g, av, pl0, p, rp).0);
    r
}

/// The views of a list of graphs.
pub open spec fn graphs_of(v: Seq<DepGraph>) -> Seq<GraphView> {
    Seq::new(v.len(), |i: int| v[i]@)
}

/// `graph` with the substitution applied to every node id.
fn sub_id(graph: &DepGraph, substitution: &Substitution) -> (r: DepGraph)
    ensures
        r@ == sub_ids_graph(graph@, substitution.pattern(), substitution.replacement()),
{
    let all = graph.all_nodes();
    let mut placed: Vec<String> = Vec::new();
    assert(str_views(placed@).to_set() =~= Set::<Seq<char>>::empty());
    remap_subgraph(graph, &all, substitution, &mut placed)
}

/// Apply a sed-style substitution to the graph: to node ids (merging the
/// nodes whose new ids collide), to a node field, or to an edge field.
pub fn sub(graph: &DepGraph, substitution: &Substitution, key: &SubKey) -> (r: DepGraph)
    ensures
        match key {
            SubKey::Id => r@ == sub_ids_graph(graph@, substitution.pattern(), substitution.replacement()),
            SubKey::Node(f) => r@ == sub_nodes_graph(graph@, f@, substitution.pattern(), substitution.replacement()),
            SubKey::Edge(f) => r@ == sub_edges_graph(graph@, f@, substitution.pattern(), substitution.replacement()),
        },
{
    match key {
        SubKey::Id => sub_id(graph, substitution),
        SubKey::Node(field) => sub_node_field(graph, substitution, field.as_str()),
        SubKey::Edge(field) => sub_edge_field(graph, substitution, field.as_str()),
    }
}

} // verus!
