//! `cargo tree` output: node ids are `name vX.Y.Z` (plus any annotation the
//! tree prints), versions, kinds and local paths go into attributes.
use indexmap::IndexMap;
use vstd::prelude::*;

use super::tree::{normalize_nbsp, replace_nbsp, strip_tree_prefix, tree_prefix};
use super::ParseError;
use crate::graph::{edge_views, lemma_node_views_insert, lemma_node_views_keys, DepGraph, Edge, EdgeView, GraphView, NodeInfo, NodeView};
use crate::maps::{
    has_key, insert_entry, node_entries, node_map_contains_key, node_map_insert, str_entries, str_map_insert,
    str_map_new,
};
use crate::text::{
    chars_of, ends_with, has_char, has_suffix, is_digit, lemma_rfind_char, lemma_trim_end_len, lines,
    lines_of, rfind, rfind_char, starts_with, string_from, sub_vec, trim_end, trim_end_chars, views_eq,
};

verus! {

/// Depth and text of a `cargo tree` line; `None` for a blank line or a
/// section header such as `[dev-dependencies]`.
pub open spec fn cargo_line_parts(line: Seq<char>) -> Option<(nat, Seq<char>)> {
    let (depth, rest) = strip_tree_prefix(line);
    let text = trim_end(rest);
    if text.len() == 0 || text[0] == '[' {
        None
    } else {
        Some((depth, text))
    }
}

fn parse_line_chars(v: &Vec<char>) -> (r: Option<(usize, Vec<char>)>)
    ensures
        match cargo_line_parts(v@) {
            Some((d, t)) => r matches Some(p) && p.0 as nat == d && p.1@ == t,
            None => r is None,
        },
{
    let (depth, pos) = tree_prefix(v.as_slice());
    let rest = sub_vec(v.as_slice(), pos, v.len());
    assert(rest@ =~= v@.skip(pos as int));
    let text = trim_end_chars(rest.as_slice());
    if text.len() == 0 || text[0] == '[' {
        None
    } else {
        Some((depth, text))
    }
}

/// Parse one `cargo tree` line into (depth, text).
pub fn parse_line(line: &str) -> (r: Option<(usize, String)>)
    ensures
        match cargo_line_parts(line@) {
            Some((d, t)) => r matches Some(p) && p.0 as nat == d && p.1@ == t,
            None => r is None,
        },
{
    let v = chars_of(line);
    match parse_line_chars(&v) {
        Some((d, t)) => Some((d, string_from(t.as_slice()))),
        None => None,
    }
}

/// A version token starts at `i`: a space, `v`, then an ASCII digit.
pub open spec fn version_at(t: Seq<char>, i: int) -> bool {
    0 <= i && i + 2 < t.len() && t[i] == ' ' && t[i + 1] == 'v' && is_digit(t[i + 2])
}

/// The first position at or after `i` where a version token starts, or -1.
pub open spec fn find_version(t: Seq<char>, i: int) -> int
    decreases t.len() - i,
{
    if i < 0 || i >= t.len() {
        -1
    } else if version_at(t, i) {
        i
    } else {
        find_version(t, i + 1)
    }
}

/// `"name v1.2.3"` split into name and version at the first version token.
pub open spec fn name_version(t: Seq<char>) -> Option<(Seq<char>, Seq<char>)> {
    let i = find_version(t, 0);
    if i >= 0 {
        Some((t.take(i), t.skip(i + 1)))
    } else {
        None
    }
}

pub proof fn lemma_find_version(t: Seq<char>, i: int)
    requires
        0 <= i,
    ensures
        find_version(t, i) == -1 || (i <= find_version(t, i) < t.len() && version_at(t, find_version(t, i))),
    decreases t.len() - i,
{
    if i < t.len() && !version_at(t, i) {
        lemma_find_version(t, i + 1);
    }
}

fn split_chars(t: &Vec<char>) -> (r: Option<(Vec<char>, Vec<char>)>)
    ensures
        match name_version(t@) {
            Some((n, v)) => r matches Some(p) && p.0@ == n && p.1@ == v,
            None => r is None,
        },
{
    let mut i: usize = 0;
    while i < t.len()
        invariant
            i <= t.len(),
            find_version(t@, 0) == find_version(t@, i as int),
        decreases t.len() - i,
    {
        if t.len() - i > 2 && t[i] == ' ' && t[i + 1] == 'v' && '0' <= t[i + 2] && t[i + 2] <= '9' {
            let name = sub_vec(t.as_slice(), 0, i);
            let version = sub_vec(t.as_slice(), i + 1, t.len());
            assert(name@ =~= t@.take(i as int));
            assert(version@ =~= t@.skip(i + 1));
            return Some((name, version));
        }
        i = i + 1;
    }
    None
}

/// Split `"name v1.2.3"` into `("name", "v1.2.3")`, or `None` if there is no version token.
pub fn split_name_version(text: &str) -> (r: Option<(String, String)>)
    ensures
        match name_version(text@) {
            Some((n, v)) => r matches Some(p) && p.0@ == n && p.1@ == v,
            None => r is None,
        },
{
    let t = chars_of(text);
    match split_chars(&t) {
        Some((n, v)) => Some((string_from(n.as_slice()), string_from(v.as_slice()))),
        None => None,
    }
}

/// Whether a parenthesized annotation names a dependency kind.
pub open spec fn is_kind(a: Seq<char>) -> bool {
    a == seq!['p', 'r', 'o', 'c', '-', 'm', 'a', 'c', 'r', 'o'] || a == seq!['b', 'u', 'i', 'l', 'd']
        || a == seq!['d', 'e', 'v']
}

/// Whether a parenthesized annotation is a local path.
pub open spec fn is_path(a: Seq<char>) -> bool {
    has_char(a, '/') || starts_with(a, seq!['.'])
}

/// Strips trailing `(kind)` and `(path)` annotations, recording them in `attrs`
/// (under `kind` and `path`); stops at the first other annotation.
pub open spec fn strip_annotations(rest: Seq<char>, attrs: Seq<(Seq<char>, Seq<char>)>) -> (Seq<char>, Seq<(Seq<char>, Seq<char>)>)
    decreases rest.len(),
{
    if !ends_with(rest, seq![')']) {
        (rest, attrs)
    } else {
        let open = rfind_char(rest, '(');
        if open < 0 {
            (rest, attrs)
        } else {
            proof {
                lemma_rfind_char(rest, '(');
                lemma_trim_end_len(rest.take(open));
            }
            let annotation = rest.subrange(open + 1, rest.len() - 1);
            let before = trim_end(rest.take(open));
            if is_kind(annotation) {
                strip_annotations(before, insert_entry(attrs, seq!['k', 'i', 'n', 'd'], annotation))
            } else if is_path(annotation) {
                strip_annotations(before, insert_entry(attrs, seq!['p', 'a', 't', 'h'], annotation))
            } else {
                (rest, attrs)
            }
        }
    }
}

/// The node text of a `cargo tree` line split into (id, duplicate marker, attributes).
pub open spec fn node_text(text: Seq<char>) -> (Seq<char>, bool, Seq<(Seq<char>, Seq<char>)>) {
    let dup = ends_with(text, seq!['(', '*', ')']);
    let rest = if dup {
        trim_end(text.take(text.len() - 3))
    } else {
        text
    };
    let (rest, attrs) = strip_annotations(rest, Seq::empty());
    let attrs = match name_version(rest) {
        Some((_, v)) => insert_entry(attrs, seq!['v', 'e', 'r', 's', 'i', 'o', 'n'], v),
        None => attrs,
    };
    (rest, dup, attrs)
}

fn chars_eq(v: &[char], w: &[char]) -> (b: bool)
    ensures
        b == (v@ == w@),
{
    if v.len() != w.len() {
        return false;
    }
    let mut i: usize = 0;
    while i < w.len()
        invariant
            i <= w.len() == v.len(),
            forall|k: int| 0 <= k < i ==> v@[k] == w@[k],
        decreases w.len() - i,
    {
        if v[i] != w[i] {
            return false;
        }
        i = i + 1;
    }
    assert(v@ =~= w@);
    true
}

fn str_of(v: &[char]) -> (s: String)
    ensures
        s@ == v@,
{
    string_from(v)
}

fn node_text_chars(text: &Vec<char>) -> (r: (Vec<char>, bool, IndexMap<String, String>))
    ensures
        r.0@ == node_text(text@).0,
        r.1 == node_text(text@).1,
        str_entries(r.2) == node_text(text@).2,
{
    let star = ['(', '*', ')'];
    assert(star@ =~= seq!['(', '*', ')']);
    let dup = has_suffix(text.as_slice(), &star);
    let mut rest = if dup {
        let t = sub_vec(text.as_slice(), 0, text.len() - 3);
        assert(t@ =~= text@.take(text.len() - 3));
        trim_end_chars(t.as_slice())
    } else {
        sub_vec(text.as_slice(), 0, text.len())
    };
    assert(text@.subrange(0, text.len() as int) =~= text@);
    let mut attrs = str_map_new();
    let ghost goal = strip_annotations(rest@, str_entries(attrs));
    let close = [')'];
    assert(close@ =~= seq![')']);
    let kind = ['k', 'i', 'n', 'd'];
    let path = ['p', 'a', 't', 'h'];
    let pm = ['p', 'r', 'o', 'c', '-', 'm', 'a', 'c', 'r', 'o'];
    let build = ['b', 'u', 'i', 'l', 'd'];
    let dev = ['d', 'e', 'v'];
    assert(kind@ =~= seq!['k', 'i', 'n', 'd']);
    assert(path@ =~= seq!['p', 'a', 't', 'h']);
    assert(pm@ =~= seq!['p', 'r', 'o', 'c', '-', 'm', 'a', 'c', 'r', 'o']);
    assert(build@ =~= seq!['b', 'u', 'i', 'l', 'd']);
    assert(dev@ =~= seq!['d', 'e', 'v']);
    loop
        invariant
            goal == strip_annotations(rest@, str_entries(attrs)),
            kind@ =~= seq!['k', 'i', 'n', 'd'],
            path@ =~= seq!['p', 'a', 't', 'h'],
            pm@ =~= seq!['p', 'r', 'o', 'c', '-', 'm', 'a', 'c', 'r', 'o'],
            build@ =~= seq!['b', 'u', 'i', 'l', 'd'],
            dev@ =~= seq!['d', 'e', 'v'],
            close@ =~= seq![')'],
        ensures
            goal == (rest@, str_entries(attrs)),
        decreases rest@.len(),
    {
        if !has_suffix(rest.as_slice(), &close) {
            break;
        }
        assert(rest@[rest.len() - 1] == ')') by {
            assert(rest@.skip(rest.len() - 1)[0] == rest@[rest.len() - 1]);
        }
        let open = match rfind(rest.as_slice(), '(') {
            Some(o) => o,
            None => break,
        };
        proof {
            lemma_rfind_char(rest@, '(');
        }
        let annotation = sub_vec(rest.as_slice(), open + 1, rest.len() - 1);
        let head = sub_vec(rest.as_slice(), 0, open);
        assert(head@ =~= rest@.take(open as int));
        let before = trim_end_chars(head.as_slice());
        proof {
            lemma_trim_end_len(head@);
        }
        let is_k = chars_eq(annotation.as_slice(), &pm) || chars_eq(annotation.as_slice(), &build)
            || chars_eq(annotation.as_slice(), &dev);
        if is_k {
            str_map_insert(&mut attrs, str_of(&kind), str_of(annotation.as_slice()));
        } else {
            let slash = rfind(annotation.as_slice(), '/');
            proof {
                lemma_rfind_char(annotation@, '/');
                if has_char(annotation@, '/') {
                    let j = choose|j: int| 0 <= j < annotation@.len() && annotation@[j] == '/';
                    assert(rfind_char(annotation@, '/') >= j);
                }
                if rfind_char(annotation@, '/') >= 0 {
                    assert(annotation@[rfind_char(annotation@, '/')] == '/');
                }
            }
            let has_slash = slash.is_some();
            assert(has_slash == has_char(annotation@, '/'));
            let dot_start = annotation.len() > 0 && annotation[0] == '.';
            assert(dot_start == starts_with(annotation@, seq!['.'])) by {
                if annotation@.len() > 0 {
                    assert(annotation@.take(1)[0] == annotation@[0]);
                    if annotation@[0] == '.' {
                        assert(annotation@.take(1) =~= seq!['.']);
                    }
                }
            }
            let is_p = has_slash || dot_start;
            if is_p {
                str_map_insert(&mut attrs, str_of(&path), str_of(annotation.as_slice()));
            } else {
                break;
            }
        }
        rest = before;
    }
    let version_key = ['v', 'e', 'r', 's', 'i', 'o', 'n'];
    assert(version_key@ =~= seq!['v', 'e', 'r', 's', 'i', 'o', 'n']);
    match split_chars(&rest) {
        Some((_, v)) => {
            str_map_insert(&mut attrs, str_of(&version_key), str_of(v.as_slice()));
        },
        None => {},
    }
    (rest, dup, attrs)
}

/// Parse the text of a `cargo tree` line into (id, is-duplicate, attributes).
///
/// The id is the text without a trailing `(*)` duplicate marker and without
/// trailing `(proc-macro)`/`(build)`/`(dev)` (recorded under `kind`) and
/// local-path (recorded under `path`) annotations; the version token, if
/// any, is recorded under `version`.
pub fn parse_node_text(text: &str) -> (r: (String, bool, IndexMap<String, String>))
    ensures
        r.0@ == node_text(text@).0,
        r.1 == node_text(text@).1,
        str_entries(r.2) == node_text(text@).2,
{
    let t = chars_of(text);
    let (rest, dup, attrs) = node_text_chars(&t);
    (string_from(rest.as_slice()), dup, attrs)
}

/// What a `cargo tree` parse has built so far; `stack[i]` is the id of the
/// current node at depth `i`.
pub struct CargoTreeState {
    pub nodes: Seq<(Seq<char>, NodeView)>,
    pub edges: Seq<EdgeView>,
    pub stack: Seq<Seq<char>>,
}

/// The label of a node id: the crate name without its version.
pub open spec fn crate_label(id: Seq<char>) -> Seq<char> {
    match name_version(id) {
        Some((n, _)) => n,
        None => id,
    }
}

/// The effect of one line; `Err` holds the text of a line nested more than
/// one level below the current path.
pub open spec fn cargo_tree_line(st: CargoTreeState, raw: Seq<char>) -> Result<CargoTreeState, Seq<char>> {
    match cargo_line_parts(normalize_nbsp(raw)) {
        None => Ok(st),
        Some((depth, text)) => if depth > st.stack.len() {
            Err(text)
        } else {
            let (id, _, attrs) = node_text(text);
            let parents = st.stack.take(depth as int);
            let n = NodeView { label: crate_label(id), node_type: None, attrs };
            Ok(
                CargoTreeState {
                    nodes: if has_key(st.nodes, id) {
                        st.nodes
                    } else {
                        insert_entry(st.nodes, id, n)
                    },
                    edges: if depth > 0 {
                        st.edges.push(EdgeView { from: parents.last(), to: id, label: None, attrs: Seq::empty() })
                    } else {
                        st.edges
                    },
                    stack: parents.push(id),
                },
            )
        },
    }
}

pub open spec fn cargo_tree_run(st: CargoTreeState, ls: Seq<Seq<char>>) -> Result<CargoTreeState, Seq<char>>
    decreases ls.len(),
{
    if ls.len() == 0 {
        Ok(st)
    } else {
        match cargo_tree_line(st, ls[0]) {
            Ok(next) => cargo_tree_run(next, ls.drop_first()),
            Err(e) => Err(e),
        }
    }
}

pub open spec fn cargo_tree_spec(input: Seq<char>) -> Result<CargoTreeState, Seq<char>> {
    cargo_tree_run(CargoTreeState { nodes: Seq::empty(), edges: Seq::empty(), stack: Seq::empty() }, lines(input))
}

/// Parse `cargo tree` output. Each distinct id becomes one node (the first
/// occurrence gives its attributes); every line below the root adds an edge
/// from its parent line's node.
pub fn parse(input: &str) -> (r: Result<DepGraph, ParseError>)
    ensures
        match cargo_tree_spec(input@) {
            Ok(st) => r matches Ok(g) && g@ == (GraphView {
                id: None,
                attrs: Seq::empty(),
                nodes: st.nodes,
                edges: st.edges,
                subgraphs: Seq::empty(),
            }),
            Err(text) => r matches Err(ParseError::UnexpectedDepthJump(l)) && l@ == text,
        },
{
    let chars = chars_of(input);
    let ls = lines_of(chars.as_slice());
    let mut graph = DepGraph::default();
    let mut stack: Vec<String> = Vec::new();
    let ghost all = lines(input@);
    let ghost init = CargoTreeState { nodes: Seq::empty(), edges: Seq::empty(), stack: Seq::empty() };
    let mut i: usize = 0;
    assert(all.skip(0) =~= all);
    assert(stack@.map_values(|s: String| s@) =~= Seq::<Seq<char>>::empty());
    while i < ls.len()
        invariant
            i <= ls.len(),
            views_eq(ls@, all),
            all == lines(input@),
            init == (CargoTreeState { nodes: Seq::empty(), edges: Seq::empty(), stack: Seq::empty() }),
            graph@.id is None,
            graph@.attrs == Seq::<(Seq<char>, Seq<char>)>::empty(),
            graph@.subgraphs =~= Seq::<GraphView>::empty(),
            cargo_tree_run(init, all) == cargo_tree_run(
                CargoTreeState {
                    nodes: graph@.nodes,
                    edges: graph@.edges,
                    stack: stack@.map_values(|s: String| s@),
                },
                all.skip(i as int),
            ),
        decreases ls.len() - i,
    {
        let ghost st = CargoTreeState {
            nodes: graph@.nodes,
            edges: graph@.edges,
            stack: stack@.map_values(|s: String| s@),
        };
        let ghost rest = all.skip(i as int);
        assert(rest[0] == all[i as int]);
        assert(rest.drop_first() =~= all.skip(i + 1));
        assert(ls@[i as int]@ == all[i as int]);
        let line = replace_nbsp(&ls[i]);
        match parse_line_chars(&line) {
            None => {},
            Some((depth, text)) => {
                if depth > stack.len() {
                    assert(cargo_tree_run(st, rest) == Err::<CargoTreeState, Seq<char>>(text@));
                    return Err(ParseError::UnexpectedDepthJump(string_from(text.as_slice())));
                }
                let (name, _dup, attrs) = node_text_chars(&text);
                let id = string_from(name.as_slice());
                let label = match split_chars(&name) {
                    Some((crate_name, _)) => string_from(crate_name.as_slice()),
                    None => string_from(name.as_slice()),
                };
                stack.truncate(depth);
                assert(stack@.map_values(|s: String| s@) =~= st.stack.take(depth as int));
                proof {
                    lemma_node_views_keys(node_entries(graph.nodes));
                }
                if !node_map_contains_key(&graph.nodes, id.as_str()) {
                    let n = NodeInfo { label, node_type: None, attrs };
                    proof {
                        lemma_node_views_insert(node_entries(graph.nodes), id@, n);
                    }
                    node_map_insert(&mut graph.nodes, id.clone(), n);
                }
                if stack.len() > 0 {
                    let e = Edge {
                        from: stack[stack.len() - 1].clone(),
                        to: id.clone(),
                        label: None,
                        attrs: str_map_new(),
                    };
                    let ghost old_edges = graph.edges@;
                    graph.edges.push(e);
                    assert(edge_views(graph.edges@) =~= edge_views(old_edges).push(e@));
                }
                let ghost before_push = stack@;
                stack.push(id);
                assert(stack@.map_values(|s: String| s@) =~= st.stack.take(depth as int).push(name@));
            },
        }
        i = i + 1;
    }
    Ok(graph)
}

} // verus!
