//! DOT (`digraph`) output.
use vstd::prelude::*;

use indexmap::IndexMap;

use crate::graph::{lemma_graph_view_subgraph, opt_str, Attrs, DepGraph, Edge, EdgeView, GraphView, NodeInfo, NodeView};
use crate::maps::{
    has_key, node_map_get_index, node_map_len, str_entries, str_map_contains_key, str_map_get_index,
    str_map_len, str_views,
};
use crate::text::{
    chars_of, concat, is_alnum, is_digit, join, lemma_concat_step, push_char, push_chars, push_joined,
    push_str, starts_with, str_eq, string_from,
};

verus! {

/// `s` with each `"` escaped as `\"`; backslashes are kept as they are, so
/// DOT formatting directives such as `\n` survive.
pub open spec fn escape_quotes(s: Seq<char>) -> Seq<char>
    decreases s.len(),
{
    if s.len() == 0 {
        seq![]
    } else {
        (if s[0] == '"' {
            seq!['\\', '"']
        } else {
            seq![s[0]]
        }) + escape_quotes(s.drop_first())
    }
}

/// A DOT double-quoted string.
pub open spec fn quote_spec(s: Seq<char>) -> Seq<char> {
    seq!['"'] + escape_quotes(s) + seq!['"']
}

pub proof fn lemma_escape_quotes_step(s: Seq<char>, i: int)
    requires
        0 <= i < s.len(),
    ensures
        escape_quotes(s.take(i + 1)) == escape_quotes(s.take(i)) + (if s[i] == '"' {
            seq!['\\', '"']
        } else {
            seq![s[i]]
        }),
    decreases i,
{
    if i == 0 {
        assert(s.take(1).drop_first() =~= Seq::<char>::empty());
        assert(escape_quotes(Seq::<char>::empty()) =~= Seq::<char>::empty());
        assert(s.take(0) =~= Seq::<char>::empty());
    } else {
        let t = s.drop_first();
        lemma_escape_quotes_step(t, i - 1);
        assert(s.take(i + 1).drop_first() =~= t.take(i));
        assert(s.take(i).drop_first() =~= t.take(i - 1));
        assert(s.take(i + 1)[0] == s[0]);
        assert(s.take(i)[0] == s[0]);
    }
}

/// Quote a string for DOT: wrap in `"` and escape `"` as `\"`.
pub fn quote(s: &str) -> (r: String)
    ensures
        r@ == quote_spec(s@),
{
    let v = chars_of(s);
    let mut r = String::new();
    push_char(&mut r, '"');
    let mut i: usize = 0;
    assert(v@.take(0) =~= Seq::<char>::empty());
    while i < v.len()
        invariant
            i <= v.len(),
            r@ == seq!['"'] + escape_quotes(v@.take(i as int)),
        decreases v.len() - i,
    {
        proof {
            lemma_escape_quotes_step(v@, i as int);
        }
        if v[i] == '"' {
            push_char(&mut r, '\\');
            push_char(&mut r, '"');
        } else {
            push_char(&mut r, v[i]);
        }
        i = i + 1;
        assert(r@ =~= seq!['"'] + escape_quotes(v@.take(i as int)));
    }
    assert(v@.take(v.len() as int) =~= v@);
    push_char(&mut r, '"');
    r
}

/// ASCII lower case of one character.
pub open spec fn ascii_lower(c: char) -> char {
    if 'A' <= c <= 'Z' {
        ((c as u8) + 32) as char
    } else {
        c
    }
}

/// Equality ignoring ASCII case.
pub open spec fn eq_ignore_case(s: Seq<char>, t: Seq<char>) -> bool {
    s.len() == t.len() && forall|i: int| 0 <= i < s.len() ==> ascii_lower(#[trigger] s[i]) == ascii_lower(t[i])
}

/// Whether `s` is a DOT keyword (any ASCII case).
pub open spec fn dot_keyword(s: Seq<char>) -> bool {
    ||| eq_ignore_case(s, seq!['n', 'o', 'd', 'e'])
    ||| eq_ignore_case(s, seq!['e', 'd', 'g', 'e'])
    ||| eq_ignore_case(s, seq!['g', 'r', 'a', 'p', 'h'])
    ||| eq_ignore_case(s, seq!['d', 'i', 'g', 'r', 'a', 'p', 'h'])
    ||| eq_ignore_case(s, seq!['s', 'u', 'b', 'g', 'r', 'a', 'p', 'h'])
    ||| eq_ignore_case(s, seq!['s', 't', 'r', 'i', 'c', 't'])
}

/// A bare DOT identifier: non-empty, ASCII alphanumeric or `_`, not
/// starting with a digit, and not a keyword.
pub open spec fn bare_id(s: Seq<char>) -> bool {
    s.len() > 0 && (forall|i: int| 0 <= i < s.len() ==> is_alnum(#[trigger] s[i]) || s[i] == '_')
        && !is_digit(s[0]) && !dot_keyword(s)
}

/// A DOT id as written: bare when safe, else quoted.
pub open spec fn quote_id_spec(s: Seq<char>) -> Seq<char> {
    if bare_id(s) {
        s
    } else {
        quote_spec(s)
    }
}

fn lower(c: char) -> (r: char)
    ensures
        r == ascii_lower(c),
{
    if 'A' <= c && c <= 'Z' {
        ((c as u8) + 32) as char
    } else {
        c
    }
}

fn eq_ignore_ascii_case(v: &Vec<char>, w: &[char]) -> (b: bool)
    ensures
        b == eq_ignore_case(v@, w@),
{
    if v.len() != w.len() {
        return false;
    }
    let mut i: usize = 0;
    while i < w.len()
        invariant
            i <= w.len() == v.len(),
            forall|k: int| 0 <= k < i ==> ascii_lower(#[trigger] v@[k]) == ascii_lower(w@[k]),
        decreases w.len() - i,
    {
        if lower(v[i]) != lower(w[i]) {
            return false;
        }
        i = i + 1;
    }
    true
}

fn is_dot_keyword(v: &Vec<char>) -> (b: bool)
    ensures
        b == dot_keyword(v@),
{
    let node = ['n', 'o', 'd', 'e'];
    let edge = ['e', 'd', 'g', 'e'];
    let graph = ['g', 'r', 'a', 'p', 'h'];
    let digraph = ['d', 'i', 'g', 'r', 'a', 'p', 'h'];
    let subgraph = ['s', 'u', 'b', 'g', 'r', 'a', 'p', 'h'];
    let strict = ['s', 't', 'r', 'i', 'c', 't'];
    assert(node@ =~= seq!['n', 'o', 'd', 'e']);
    assert(edge@ =~= seq!['e', 'd', 'g', 'e']);
    assert(graph@ =~= seq!['g', 'r', 'a', 'p', 'h']);
    assert(digraph@ =~= seq!['d', 'i', 'g', 'r', 'a', 'p', 'h']);
    assert(subgraph@ =~= seq!['s', 'u', 'b', 'g', 'r', 'a', 'p', 'h']);
    assert(strict@ =~= seq!['s', 't', 'r', 'i', 'c', 't']);
    eq_ignore_ascii_case(v, &node) || eq_ignore_ascii_case(v, &edge) || eq_ignore_ascii_case(v, &graph)
        || eq_ignore_ascii_case(v, &digraph) || eq_ignore_ascii_case(v, &subgraph)
        || eq_ignore_ascii_case(v, &strict)
}

fn is_bare(v: &Vec<char>) -> (b: bool)
    ensures
        b == bare_id(v@),
{
    if v.len() == 0 {
        return false;
    }
    let mut i: usize = 0;
    while i < v.len()
        invariant
            i <= v.len(),
            forall|k: int| 0 <= k < i ==> is_alnum(#[trigger] v@[k]) || v@[k] == '_',
        decreases v.len() - i,
    {
        let c = v[i];
        let ok = ('0' <= c && c <= '9') || ('a' <= c && c <= 'z') || ('A' <= c && c <= 'Z') || c == '_';
        if !ok {
            return false;
        }
        i = i + 1;
    }
    let d = v[0];
    !('0' <= d && d <= '9') && !is_dot_keyword(v)
}

/// Whether `s` is a bare DOT identifier.
pub fn is_bare_id(s: &str) -> (b: bool)
    ensures
        b == bare_id(s@),
{
    let v = chars_of(s);
    is_bare(&v)
}

/// A DOT id: bare identifiers pass through, everything else is quoted.
pub fn quote_id(s: &str) -> (r: String)
    ensures
        r@ == quote_id_spec(s@),
{
    if is_bare_id(s) {
        s.to_owned()
    } else {
        quote(s)
    }
}

} // verus!

verus! {

/// `key="value"` for a DOT attribute.
pub open spec fn attr_item(k: Seq<char>, v: Seq<char>) -> Seq<char> {
    quote_id_spec(k) + seq!['='] + quote_spec(v)
}

pub open spec fn attr_items(attrs: Attrs) -> Seq<Seq<char>> {
    attrs.map_values(|e: (Seq<char>, Seq<char>)| attr_item(e.0, e.1))
}

pub open spec fn label_key() -> Seq<char> {
    seq!['l', 'a', 'b', 'e', 'l']
}

/// A statement line: `head;` or `head [items];`.
pub open spec fn stmt_line(indent: Seq<char>, head: Seq<char>, items: Seq<Seq<char>>) -> Seq<char> {
    if items.len() == 0 {
        indent + head + seq![';', '\n']
    } else {
        indent + head + seq![' ', '['] + join(items, seq![',', ' ']) + seq![']', ';', '\n']
    }
}

/// The attribute list of a node: its label when it differs from the id,
/// its type, then its attributes.
pub open spec fn node_items(id: Seq<char>, n: NodeView) -> Seq<Seq<char>> {
    (if n.label != id {
        seq![label_key() + seq!['='] + quote_spec(n.label)]
    } else {
        seq![]
    }) + (match n.node_type {
        Some(t) => seq![seq!['t', 'y', 'p', 'e', '='] + quote_spec(t)],
        None => seq![],
    }) + attr_items(n.attrs)
}

pub open spec fn node_line(indent: Seq<char>, id: Seq<char>, n: NodeView) -> Seq<char> {
    stmt_line(indent, quote_id_spec(id), node_items(id, n))
}

pub open spec fn edge_items(e: EdgeView) -> Seq<Seq<char>> {
    (match e.label {
        Some(l) => seq![label_key() + seq!['='] + quote_spec(l)],
        None => seq![],
    }) + attr_items(e.attrs)
}

pub open spec fn edge_line(indent: Seq<char>, e: EdgeView) -> Seq<char> {
    stmt_line(indent, quote_id_spec(e.from) + seq![' ', '-', '>', ' '] + quote_id_spec(e.to), edge_items(e))
}

pub open spec fn graph_attr_line(indent: Seq<char>, k: Seq<char>, v: Seq<char>) -> Seq<char> {
    indent + attr_item(k, v) + seq![';', '\n']
}

pub open spec fn one_level() -> Seq<char> {
    seq![' ', ' ', ' ', ' ']
}

/// The body of a graph or subgraph: attributes, subgraphs, nodes, edges.
pub open spec fn dot_body(g: GraphView, indent: Seq<char>) -> Seq<char>
    decreases g, 0nat,
{
    concat(g.attrs.map_values(|e: (Seq<char>, Seq<char>)| graph_attr_line(indent, e.0, e.1)))
        + dot_subgraphs(g.subgraphs, g.subgraphs.len(), indent)
        + concat(g.nodes.map_values(|e: (Seq<char>, NodeView)| node_line(indent, e.0, e.1)))
        + concat(g.edges.map_values(|e: EdgeView| edge_line(indent, e)))
}

pub open spec fn dot_subgraphs(sgs: Seq<GraphView>, n: nat, indent: Seq<char>) -> Seq<char>
    decreases sgs, n,
{
    if n == 0 || n > sgs.len() {
        seq![]
    } else {
        dot_subgraphs(sgs, (n - 1) as nat, indent) + dot_subgraph(sgs[n - 1], indent)
    }
}

pub open spec fn cluster_prefix() -> Seq<char> {
    seq!['c', 'l', 'u', 's', 't', 'e', 'r']
}

/// A subgraph block. A named subgraph whose id does not start with
/// `cluster` is written as `cluster_<id>` (so GraphViz draws it as a
/// cluster) with a `label` of its original id unless it has a label.
pub open spec fn dot_subgraph(sg: GraphView, indent: Seq<char>) -> Seq<char>
    decreases sg, 1nat,
{
    subgraph_header(sg.id, indent) + cluster_label_line(sg, indent) + dot_body(sg, indent + one_level()) + indent
        + seq!['}', '\n']
}

/// The DOT text of a graph.
pub open spec fn dot_spec(g: GraphView) -> Seq<char> {
    let header = match g.id {
        Some(name) => seq!['d', 'i', 'g', 'r', 'a', 'p', 'h', ' '] + quote_id_spec(name) + seq![' ', '{', '\n'],
        None => seq!['d', 'i', 'g', 'r', 'a', 'p', 'h', ' ', '{', '\n'],
    };
    header + dot_body(g, one_level()) + seq!['}', '\n']
}

fn push_attr_items(items: &mut Vec<String>, attrs: &IndexMap<String, String>)
    ensures
        str_views(final(items)@) == str_views(old(items)@) + attr_items(str_entries(*attrs)),
{
    let n = str_map_len(attrs);
    let ghost a = str_entries(*attrs);
    let ghost start = str_views(items@);
    let mut i: usize = 0;
    while i < n
        invariant
            i <= n == a.len(),
            a == str_entries(*attrs),
            str_views(items@) == start + attr_items(a.take(i as int)),
        decreases n - i,
    {
        let (k, v) = str_map_get_index(attrs, i).unwrap();
        let mut s = quote_id(k.as_str());
        push_char(&mut s, '=');
        push_str(&mut s, quote(v.as_str()).as_str());
        assert(s@ =~= attr_item(a[i as int].0, a[i as int].1));
        let ghost before = items@;
        items.push(s);
        assert(str_views(items@) =~= str_views(before).push(s@));
        assert(attr_items(a.take(i + 1)) =~= attr_items(a.take(i as int)).push(attr_item(a[i as int].0, a[i as int].1)));
        i = i + 1;
    }
    assert(a.take(n as int) =~= a);
}

fn push_stmt(out: &mut String, indent: &str, head: &str, items: &Vec<String>)
    ensures
        final(out)@ == old(out)@ + stmt_line(indent@, head@, str_views(items@)),
{
    push_str(out, indent);
    push_str(out, head);
    if items.len() == 0 {
        push_char(out, ';');
        push_char(out, '\n');
    } else {
        push_char(out, ' ');
        push_char(out, '[');
        let sep = [',', ' '];
        push_joined(out, items, &sep);
        assert(sep@ =~= seq![',', ' ']);
        assert(items@.map_values(|s: String| s@) == str_views(items@));
        push_char(out, ']');
        push_char(out, ';');
        push_char(out, '\n');
    }
    assert(out@ =~= old(out)@ + stmt_line(indent@, head@, str_views(items@)));
}

fn label_eq() -> (r: String)
    ensures
        r@ == label_key() + seq!['='],
{
    let v = ['l', 'a', 'b', 'e', 'l', '='];
    let r = string_from(&v);
    assert(r@ =~= label_key() + seq!['=']);
    r
}

/// Write one node statement.
pub fn emit_node(out: &mut String, indent: &str, id: &str, info: &NodeInfo)
    ensures
        final(out)@ == old(out)@ + node_line(indent@, id@, info@),
{
    let mut items: Vec<String> = Vec::new();
    if !str_eq(info.label.as_str(), id) {
        let mut s = label_eq();
        push_str(&mut s, quote(info.label.as_str()).as_str());
        items.push(s);
    }
    if let Some(t) = &info.node_type {
        let tv = ['t', 'y', 'p', 'e', '='];
        let mut s = string_from(&tv);
        push_str(&mut s, quote(t.as_str()).as_str());
        items.push(s);
    }
    let ghost head_items = str_views(items@);
    assert(head_items =~= (if info@.label != id@ {
        seq![label_key() + seq!['='] + quote_spec(info@.label)]
    } else {
        seq![]
    }) + (match info@.node_type {
        Some(t) => seq![seq!['t', 'y', 'p', 'e', '='] + quote_spec(t)],
        None => seq![],
    }));
    push_attr_items(&mut items, &info.attrs);
    let head = quote_id(id);
    push_stmt(out, indent, head.as_str(), &items);
}

/// Write one edge statement.
pub fn emit_edge(out: &mut String, indent: &str, edge: &Edge)
    ensures
        final(out)@ == old(out)@ + edge_line(indent@, edge@),
{
    let mut items: Vec<String> = Vec::new();
    if let Some(l) = &edge.label {
        let mut s = label_eq();
        push_str(&mut s, quote(l.as_str()).as_str());
        items.push(s);
    }
    assert(str_views(items@) =~= (match edge@.label {
        Some(l) => seq![label_key() + seq!['='] + quote_spec(l)],
        None => seq![],
    }));
    push_attr_items(&mut items, &edge.attrs);
    let mut head = quote_id(edge.from.as_str());
    let arrow = [' ', '-', '>', ' '];
    push_chars(&mut head, &arrow);
    push_str(&mut head, quote_id(edge.to.as_str()).as_str());
    assert(arrow@ =~= seq![' ', '-', '>', ' ']);
    push_stmt(out, indent, head.as_str(), &items);
}

fn emit_body(out: &mut String, g: &DepGraph, indent: &str)
    ensures
        final(out)@ == old(out)@ + dot_body(g@, indent@),
    decreases g, 0nat,
{
    let ghost start = out@;
    let n = str_map_len(&g.attrs);
    let ghost a = str_entries(g.attrs);
    let ghost alines = a.map_values(|e: (Seq<char>, Seq<char>)| graph_attr_line(indent@, e.0, e.1));
    let mut i: usize = 0;
    assert(alines.take(0) =~= Seq::<Seq<char>>::empty());
    while i < n
        invariant
            i <= n == a.len() == alines.len(),
            a == str_entries(g.attrs),
            alines == a.map_values(|e: (Seq<char>, Seq<char>)| graph_attr_line(indent@, e.0, e.1)),
            out@ == start + concat(alines.take(i as int)),
        decreases n - i,
    {
        let (k, v) = str_map_get_index(&g.attrs, i).unwrap();
        proof {
            lemma_concat_step(alines, i as int);
        }
        push_str(out, indent);
        push_str(out, quote_id(k.as_str()).as_str());
        push_char(out, '=');
        push_str(out, quote(v.as_str()).as_str());
        push_char(out, ';');
        push_char(out, '\n');
        i = i + 1;
        assert(out@ =~= start + concat(alines.take(i as int)));
    }
    assert(alines.take(n as int) =~= alines);
    let ghost s1 = out@;
    let mut j: usize = 0;
    assert(out@ =~= s1 + dot_subgraphs(g@.subgraphs, 0, indent@));
    while j < g.subgraphs.len()
        invariant
            j <= g.subgraphs@.len() == g@.subgraphs.len(),
            out@ == s1 + dot_subgraphs(g@.subgraphs, j as nat, indent@),
        decreases g.subgraphs@.len() - j,
    {
        proof {
            lemma_graph_view_subgraph(*g, j as int);
        }
        emit_subgraph(out, &g.subgraphs[j], indent);
        j = j + 1;
        assert(out@ =~= s1 + dot_subgraphs(g@.subgraphs, j as nat, indent@));
    }
    let ghost s2 = out@;
    let nn = node_map_len(&g.nodes);
    let ghost ns = g@.nodes;
    let ghost nlines = ns.map_values(|e: (Seq<char>, NodeView)| node_line(indent@, e.0, e.1));
    let mut i: usize = 0;
    assert(nlines.take(0) =~= Seq::<Seq<char>>::empty());
    while i < nn
        invariant
            i <= nn == ns.len() == nlines.len(),
            ns == g@.nodes,
            nlines == ns.map_values(|e: (Seq<char>, NodeView)| node_line(indent@, e.0, e.1)),
            out@ == s2 + concat(nlines.take(i as int)),
        decreases nn - i,
    {
        let (k, v) = node_map_get_index(&g.nodes, i).unwrap();
        proof {
            lemma_concat_step(nlines, i as int);
        }
        emit_node(out, indent, k.as_str(), v);
        i = i + 1;
    }
    assert(nlines.take(nn as int) =~= nlines);
    let ghost s3 = out@;
    let ghost es = g@.edges;
    let ghost elines = es.map_values(|e: EdgeView| edge_line(indent@, e));
    let mut i: usize = 0;
    assert(elines.take(0) =~= Seq::<Seq<char>>::empty());
    while i < g.edges.len()
        invariant
            i <= g.edges@.len() == es.len() == elines.len(),
            es == g@.edges,
            elines == es.map_values(|e: EdgeView| edge_line(indent@, e)),
            out@ == s3 + concat(elines.take(i as int)),
        decreases g.edges@.len() - i,
    {
        proof {
            lemma_concat_step(elines, i as int);
        }
        emit_edge(out, indent, &g.edges[i]);
        i = i + 1;
    }
    assert(elines.take(g.edges@.len() as int) =~= elines);
}

pub open spec fn subgraph_header(id: Option<Seq<char>>, indent: Seq<char>) -> Seq<char> {
    let sub = seq!['s', 'u', 'b', 'g', 'r', 'a', 'p', 'h', ' '];
    match id {
        Some(id) => if starts_with(id, cluster_prefix()) {
            indent + sub + quote_id_spec(id) + seq![' ', '{', '\n']
        } else {
            indent + sub + quote_id_spec(cluster_prefix() + seq!['_'] + id) + seq![' ', '{', '\n']
        },
        None => indent + sub + seq!['{', '\n'],
    }
}

fn push_subgraph_header(out: &mut String, id: &Option<String>, indent: &str) -> (added: bool)
    ensures
        final(out)@ == old(out)@ + subgraph_header(opt_str(*id), indent@),
        added == (id is Some && !starts_with(id->0@, cluster_prefix())),
{
    let sub = ['s', 'u', 'b', 'g', 'r', 'a', 'p', 'h', ' '];
    let open = [' ', '{', '\n'];
    let cluster = ['c', 'l', 'u', 's', 't', 'e', 'r'];
    assert(sub@ =~= seq!['s', 'u', 'b', 'g', 'r', 'a', 'p', 'h', ' ']);
    assert(open@ =~= seq![' ', '{', '\n']);
    assert(cluster@ =~= cluster_prefix());
    let ghost start = out@;
    push_str(out, indent);
    push_chars(out, &sub);
    match id {
        Some(id) => {
            let idv = chars_of(id.as_str());
            if crate::text::has_prefix(idv.as_slice(), &cluster) {
                push_str(out, quote_id(id.as_str()).as_str());
                push_chars(out, &open);
                assert(out@ =~= start + subgraph_header(opt_str(Some(*id)), indent@));
                false
            } else {
                let mut name = string_from(&cluster);
                push_char(&mut name, '_');
                push_str(&mut name, id.as_str());
                push_str(out, quote_id(name.as_str()).as_str());
                push_chars(out, &open);
                assert(name@ =~= cluster_prefix() + seq!['_'] + id@);
                assert(out@ =~= start + subgraph_header(opt_str(Some(*id)), indent@));
                true
            }
        },
        None => {
            push_char(out, '{');
            push_char(out, '\n');
            assert(out@ =~= start + subgraph_header(opt_str(None), indent@));
            false
        },
    }
}

/// The `label` line a renamed cluster gets: its original id, unless it has
/// a label attribute of its own.
pub open spec fn cluster_label_line(sg: GraphView, indent: Seq<char>) -> Seq<char> {
    match sg.id {
        Some(id) => if !starts_with(id, cluster_prefix()) && !has_key(sg.attrs, label_key()) {
            indent + one_level() + label_key() + seq!['='] + quote_spec(id) + seq![';', '\n']
        } else {
            seq![]
        },
        None => seq![],
    }
}

fn push_cluster_label(out: &mut String, sg: &DepGraph, inner: &str, added_prefix: bool, indent: &str)
    requires
        inner@ == indent@ + one_level(),
        added_prefix == (sg.id is Some && !starts_with(sg.id->0@, cluster_prefix())),
    ensures
        final(out)@ == old(out)@ + cluster_label_line(sg@, indent@),
{
    let ghost start = out@;
    let lk = ['l', 'a', 'b', 'e', 'l'];
    assert(lk@ =~= label_key());
    if added_prefix {
        let lkey = string_from(&lk);
        if !str_map_contains_key(&sg.attrs, lkey.as_str()) {
            push_str(out, inner);
            push_str(out, label_eq().as_str());
            match &sg.id {
                Some(id) => push_str(out, quote(id.as_str()).as_str()),
                None => {},
            }
            push_char(out, ';');
            push_char(out, '\n');
        }
    }
    assert(out@ =~= start + cluster_label_line(sg@, indent@));
}

fn emit_subgraph(out: &mut String, sg: &DepGraph, indent: &str)
    ensures
        final(out)@ == old(out)@ + dot_subgraph(sg@, indent@),
    decreases sg, 1nat,
{
    let ghost start = out@;
    let added_prefix = push_subgraph_header(out, &sg.id, indent);
    let mut inner = indent.to_owned();
    push_chars(&mut inner, &[' ', ' ', ' ', ' ']);
    assert(inner@ =~= indent@ + one_level());
    push_cluster_label(out, sg, inner.as_str(), added_prefix, indent);
    emit_body(out, sg, inner.as_str());
    push_str(out, indent);
    push_char(out, '}');
    push_char(out, '\n');
    assert(out@ =~= start + dot_subgraph(sg@, indent@));
}

/// The DOT `digraph` text of a graph.
///
/// Graph attributes, node labels, types and attributes, edge labels and
/// attributes, and nested subgraphs are all written; identifiers are bare
/// when safe and quoted otherwise.
pub fn emit(graph: &DepGraph) -> (r: String)
    ensures
        r@ == dot_spec(graph@),
{
    let mut out = String::new();
    let dg = ['d', 'i', 'g', 'r', 'a', 'p', 'h', ' '];
    assert(dg@ =~= seq!['d', 'i', 'g', 'r', 'a', 'p', 'h', ' ']);
    push_chars(&mut out, &dg);
    match &graph.id {
        Some(name) => {
            push_str(&mut out, quote_id(name.as_str()).as_str());
            push_char(&mut out, ' ');
        },
        None => {},
    }
    push_char(&mut out, '{');
    push_char(&mut out, '\n');
    let indent = string_from(&[' ', ' ', ' ', ' ']);
    assert(indent@ =~= one_level());
    emit_body(&mut out, graph, indent.as_str());
    push_char(&mut out, '}');
    push_char(&mut out, '\n');
    assert(out@ =~= dot_spec(graph@));
    out
}

} // verus!
