//! Mermaid flowchart output.
use vstd::prelude::*;
use vstd::utf8::encode_utf8;

use crate::text::{chars_of, is_alnum, is_digit, push_char, push_chars};

verus! {

/// A Mermaid identifier character: ASCII alphanumeric, `_`, `-` or `.`.
pub open spec fn id_char(c: char) -> bool {
    is_alnum(c) || c == '_' || c == '-' || c == '.'
}

/// A bare Mermaid id: non-empty, only id characters, not starting with a digit.
pub open spec fn mermaid_bare(s: Seq<char>) -> bool {
    s.len() > 0 && (forall|i: int| 0 <= i < s.len() ==> id_char(#[trigger] s[i])) && !is_digit(s[0])
}

/// Lower-case hexadecimal digit of a value below 16.
pub open spec fn hex_digit(n: u8) -> char {
    if n < 10 {
        ((n + 48) as u8) as char
    } else {
        ((n + 87) as u8) as char
    }
}

/// `_` followed by two lower-case hex digits, for each byte.
pub open spec fn hex_bytes(b: Seq<u8>) -> Seq<char>
    decreases b.len(),
{
    if b.len() == 0 {
        seq![]
    } else {
        seq!['_', hex_digit(b[0] / 16), hex_digit(b[0] % 16)] + hex_bytes(b.drop_first())
    }
}

/// How one character of a non-bare id is written.
pub open spec fn sanitize_char(c: char) -> Seq<char> {
    if id_char(c) {
        seq![c]
    } else if c == ' ' {
        seq!['_']
    } else {
        hex_bytes(encode_utf8(seq![c]))
    }
}

pub open spec fn sanitize_chars(s: Seq<char>) -> Seq<char>
    decreases s.len(),
{
    if s.len() == 0 {
        seq![]
    } else {
        sanitize_chars(s.drop_last()) + sanitize_char(s.last())
    }
}

/// A node id made into a Mermaid identifier: bare ids pass through;
/// otherwise spaces become `_`, other non-id characters become `_xx` per
/// UTF-8 byte, and a leading digit gets a `_` prefix.
pub open spec fn sanitize_spec(s: Seq<char>) -> Seq<char> {
    if mermaid_bare(s) {
        s
    } else {
        let r = sanitize_chars(s);
        if r.len() > 0 && is_digit(r[0]) {
            seq!['_'] + r
        } else {
            r
        }
    }
}

fn is_bare(v: &Vec<char>) -> (b: bool)
    ensures
        b == mermaid_bare(v@),
{
    if v.len() == 0 {
        return false;
    }
    let mut i: usize = 0;
    while i < v.len()
        invariant
            i <= v.len(),
            forall|k: int| 0 <= k < i ==> id_char(#[trigger] v@[k]),
        decreases v.len() - i,
    {
        let c = v[i];
        if !(('0' <= c && c <= '9') || ('a' <= c && c <= 'z') || ('A' <= c && c <= 'Z') || c == '_' || c == '-'
            || c == '.') {
            return false;
        }
        i = i + 1;
    }
    !('0' <= v[0] && v[0] <= '9')
}

/// Whether `s` is a bare Mermaid id.
pub fn is_bare_id(s: &str) -> (b: bool)
    ensures
        b == mermaid_bare(s@),
{
    let v = chars_of(s);
    is_bare(&v)
}

fn hex(n: u8) -> (c: char)
    requires
        n < 16,
    ensures
        c == hex_digit(n),
{
    if n < 10 {
        (n + 48) as char
    } else {
        (n + 87) as char
    }
}

fn push_hex_bytes(r: &mut String, b: &[u8])
    ensures
        final(r)@ == old(r)@ + hex_bytes(b@),
{
    let mut i: usize = 0;
    assert(b@.skip(0) =~= b@);
    while i < b.len()
        invariant
            i <= b.len(),
            old(r)@ + hex_bytes(b@) == r@ + hex_bytes(b@.skip(i as int)),
        decreases b.len() - i,
    {
        let x = b[i];
        push_char(r, '_');
        push_char(r, hex(x / 16));
        push_char(r, hex(x % 16));
        assert(b@.skip(i as int).drop_first() =~= b@.skip(i + 1));
        i = i + 1;
    }
    assert(b@.skip(i as int) =~= Seq::<u8>::empty());
}

/// Make a node id a valid Mermaid identifier.
pub fn sanitize_id(id: &str) -> (r: String)
    ensures
        r@ == sanitize_spec(id@),
{
    let v = chars_of(id);
    if is_bare(&v) {
        return id.to_owned();
    }
    let mut r = String::new();
    let mut i: usize = 0;
    assert(v@.take(0) =~= Seq::<char>::empty());
    while i < v.len()
        invariant
            i <= v.len(),
            r@ == sanitize_chars(v@.take(i as int)),
        decreases v.len() - i,
    {
        let c = v[i];
        let ghost before = r@;
        if ('0' <= c && c <= '9') || ('a' <= c && c <= 'z') || ('A' <= c && c <= 'Z') || c == '_' || c == '-'
            || c == '.' {
            push_char(&mut r, c);
        } else if c == ' ' {
            push_char(&mut r, '_');
        } else {
            let mut one = String::new();
            push_char(&mut one, c);
            let bytes = one.as_str().as_bytes();
            push_hex_bytes(&mut r, bytes);
        }
        assert(v@.take(i + 1).drop_last() =~= v@.take(i as int));
        i = i + 1;
    }
    assert(v@.take(v.len() as int) =~= v@);
    let rv = chars_of(r.as_str());
    if rv.len() > 0 && '0' <= rv[0] && rv[0] <= '9' {
        let mut out = String::new();
        push_char(&mut out, '_');
        push_chars(&mut out, rv.as_slice());
        out
    } else {
        r
    }
}

/// How one character of a label is written inside `"..."`.
pub open spec fn escape_label_char(c: char) -> Seq<char> {
    if c == '&' {
        seq!['&', 'a', 'm', 'p', ';']
    } else if c == '"' {
        seq!['&', 'q', 'u', 'o', 't', ';']
    } else {
        seq![c]
    }
}

/// A label escaped with the HTML entities `&amp;` and `&quot;`.
pub open spec fn escape_label_spec(s: Seq<char>) -> Seq<char>
    decreases s.len(),
{
    if s.len() == 0 {
        seq![]
    } else {
        escape_label_spec(s.drop_last()) + escape_label_char(s.last())
    }
}

/// Escape a label for a quoted Mermaid label: `&` becomes `&amp;` and `"`
/// becomes `&quot;`; Mermaid syntax characters such as `[]{}()|` stay.
pub fn escape_label(s: &str) -> (r: String)
    ensures
        r@ == escape_label_spec(s@),
{
    let v = chars_of(s);
    let mut r = String::new();
    let mut i: usize = 0;
    assert(v@.take(0) =~= Seq::<char>::empty());
    while i < v.len()
        invariant
            i <= v.len(),
            r@ == escape_label_spec(v@.take(i as int)),
        decreases v.len() - i,
    {
        let c = v[i];
        if c == '&' {
            push_char(&mut r, '&');
            push_char(&mut r, 'a');
            push_char(&mut r, 'm');
            push_char(&mut r, 'p');
            push_char(&mut r, ';');
        } else if c == '"' {
            push_char(&mut r, '&');
            push_char(&mut r, 'q');
            push_char(&mut r, 'u');
            push_char(&mut r, 'o');
            push_char(&mut r, 't');
            push_char(&mut r, ';');
        } else {
            push_char(&mut r, c);
        }
        assert(v@.take(i + 1).drop_last() =~= v@.take(i as int));
        i = i + 1;
        assert(r@ =~= escape_label_spec(v@.take(i as int)));
    }
    assert(v@.take(v.len() as int) =~= v@);
    r
}

} // verus!

verus! {

/// A Mermaid shape around the quoted `label`, from a DOT `shape` attribute;
/// a rectangle when there is none or it has no Mermaid counterpart.
pub open spec fn shape_text(shape: Option<Seq<char>>, label: Seq<char>) -> Seq<char> {
    let q = seq!['"'] + label + seq!['"'];
    match shape {
        Some(s) => if s == seq!['c', 'i', 'r', 'c', 'l', 'e'] {
            seq!['(', '('] + q + seq![')', ')']
        } else if s == seq!['e', 'l', 'l', 'i', 'p', 's', 'e'] {
            seq!['(', '['] + q + seq![']', ')']
        } else if s == seq!['d', 'i', 'a', 'm', 'o', 'n', 'd'] {
            seq!['{'] + q + seq!['}']
        } else if s == seq!['h', 'e', 'x', 'a', 'g', 'o', 'n'] {
            seq!['{', '{'] + q + seq!['}', '}']
        } else if s == seq!['n', 'o', 't', 'e'] {
            seq!['[', '/'] + q + seq!['/', ']']
        } else if s == seq!['c', 'y', 'l', 'i', 'n', 'd', 'e', 'r'] {
            seq!['[', '('] + q + seq![')', ']']
        } else {
            seq!['['] + q + seq![']']
        },
        None => seq!['['] + q + seq![']'],
    }
}

pub open spec fn shape_key() -> Seq<char> {
    seq!['s', 'h', 'a', 'p', 'e']
}

pub open spec fn indent_of(depth: nat) -> Seq<char> {
    crate::text::spaces(4 * depth)
}

pub open spec fn node_line(depth: nat, id: Seq<char>, n: crate::graph::NodeView) -> Seq<char> {
    indent_of(depth) + sanitize_spec(id) + shape_text(crate::maps::value_of(n.attrs, shape_key()), escape_label_spec(n.label))
        + seq!['\n']
}

pub open spec fn edge_line(depth: nat, e: crate::graph::EdgeView) -> Seq<char> {
    indent_of(depth) + sanitize_spec(e.from) + (match e.label {
        Some(l) => seq![' ', '-', '-', '>', '|', '"'] + escape_label_spec(l) + seq!['"', '|', ' '],
        None => seq![' ', '-', '-', '>', ' '],
    }) + sanitize_spec(e.to) + seq!['\n']
}

/// One more level of nesting (it stops growing at the largest `usize`).
pub open spec fn deeper(depth: usize) -> usize {
    if depth == usize::MAX { depth } else { (depth + 1) as usize }
}

/// The body of a graph or subgraph at nesting `depth`: subgraphs, nodes, edges.
pub open spec fn mermaid_body(g: crate::graph::GraphView, depth: usize) -> Seq<char>
    decreases g, 0nat,
{
    mermaid_subgraphs(g.subgraphs, g.subgraphs.len(), depth)
        + crate::text::concat(g.nodes.map_values(|e: (Seq<char>, crate::graph::NodeView)| node_line(depth as nat, e.0, e.1)))
        + crate::text::concat(g.edges.map_values(|e: crate::graph::EdgeView| edge_line(depth as nat, e)))
}

pub open spec fn mermaid_subgraphs(sgs: Seq<crate::graph::GraphView>, n: nat, depth: usize) -> Seq<char>
    decreases sgs, n,
{
    if n == 0 || n > sgs.len() {
        seq![]
    } else {
        mermaid_subgraphs(sgs, (n - 1) as nat, depth) + mermaid_subgraph(sgs[n - 1], depth)
    }
}

/// A `subgraph ... end` block; an anonymous subgraph is named `sg<depth>`.
pub open spec fn mermaid_subgraph(sg: crate::graph::GraphView, depth: usize) -> Seq<char>
    decreases sg, 1nat,
{
    let name = match sg.id {
        Some(id) => sanitize_spec(id),
        None => seq!['s', 'g'] + crate::text::decimal(depth as nat),
    };
    indent_of(depth as nat) + seq!['s', 'u', 'b', 'g', 'r', 'a', 'p', 'h', ' '] + name + seq!['\n']
        + mermaid_body(sg, deeper(depth)) + indent_of(depth as nat) + seq!['e', 'n', 'd', '\n']
}

/// The flowchart direction: `rankdir`, else `direction`, else `LR`.
pub open spec fn direction_of(attrs: crate::graph::Attrs) -> Seq<char> {
    match crate::maps::value_of(attrs, seq!['r', 'a', 'n', 'k', 'd', 'i', 'r']) {
        Some(d) => d,
        None => match crate::maps::value_of(attrs, seq!['d', 'i', 'r', 'e', 'c', 't', 'i', 'o', 'n']) {
            Some(d) => d,
            None => seq!['L', 'R'],
        },
    }
}

/// The Mermaid text of a graph.
pub open spec fn mermaid_spec(g: crate::graph::GraphView) -> Seq<char> {
    seq!['f', 'l', 'o', 'w', 'c', 'h', 'a', 'r', 't', ' '] + direction_of(g.attrs) + seq!['\n'] + mermaid_body(g, 1)
}

fn indent(depth: usize) -> (r: String)
    ensures
        r@ == indent_of(depth as nat),
{
    let mut r = String::new();
    let mut k: usize = 0;
    assert(r@ =~= crate::text::spaces(0));
    while k < depth
        invariant
            k <= depth,
            r@ == crate::text::spaces(4 * k as nat),
        decreases depth - k,
    {
        push_chars(&mut r, &[' ', ' ', ' ', ' ']);
        k = k + 1;
        assert(r@ =~= crate::text::spaces(4 * k as nat));
    }
    r
}

fn push_shape(out: &mut String, shape: Option<&String>, label: &str)
    ensures
        final(out)@ == old(out)@ + shape_text(match shape {
            Some(s) => Some(s@),
            None => None,
        }, label@),
{
    let ghost start = out@;
    let (open, close): (&[char], &[char]) = match shape {
        Some(s) => {
            let v = chars_of(s.as_str());
            if crate::text::chars_equal(&v, &['c', 'i', 'r', 'c', 'l', 'e']) {
                (&['(', '('], &[')', ')'])
            } else if crate::text::chars_equal(&v, &['e', 'l', 'l', 'i', 'p', 's', 'e']) {
                (&['(', '['], &[']', ')'])
            } else if crate::text::chars_equal(&v, &['d', 'i', 'a', 'm', 'o', 'n', 'd']) {
                (&['{'], &['}'])
            } else if crate::text::chars_equal(&v, &['h', 'e', 'x', 'a', 'g', 'o', 'n']) {
                (&['{', '{'], &['}', '}'])
            } else if crate::text::chars_equal(&v, &['n', 'o', 't', 'e']) {
                (&['[', '/'], &['/', ']'])
            } else if crate::text::chars_equal(&v, &['c', 'y', 'l', 'i', 'n', 'd', 'e', 'r']) {
                (&['[', '('], &[')', ']'])
            } else {
                (&['['], &[']'])
            }
        },
        None => (&['['], &[']']),
    };
    push_chars(out, open);
    push_char(out, '"');
    crate::text::push_str(out, label);
    push_char(out, '"');
    push_chars(out, close);
    proof {
        let sh = match shape {
            Some(s) => Some(s@),
            None => None,
        };
        assert(out@ =~= start + open@ + seq!['"'] + label@ + seq!['"'] + close@);
    }
}

} // verus!

verus! {

fn emit_node_line(out: &mut String, depth: usize, id: &str, info: &crate::graph::NodeInfo)
    ensures
        final(out)@ == old(out)@ + node_line(depth as nat, id@, info@),
{
    let ghost start = out@;
    crate::text::push_str(out, indent(depth).as_str());
    crate::text::push_str(out, sanitize_id(id).as_str());
    let key = crate::text::string_from(&['s', 'h', 'a', 'p', 'e']);
    assert(key@ =~= shape_key());
    let shape = crate::maps::str_map_get(&info.attrs, key.as_str());
    let label = escape_label(info.label.as_str());
    push_shape(out, shape, label.as_str());
    push_char(out, '\n');
    assert(out@ =~= start + node_line(depth as nat, id@, info@));
}

fn emit_edge_line(out: &mut String, depth: usize, e: &crate::graph::Edge)
    ensures
        final(out)@ == old(out)@ + edge_line(depth as nat, e@),
{
    let ghost start = out@;
    crate::text::push_str(out, indent(depth).as_str());
    crate::text::push_str(out, sanitize_id(e.from.as_str()).as_str());
    match &e.label {
        Some(l) => {
            push_chars(out, &[' ', '-', '-', '>', '|', '"']);
            crate::text::push_str(out, escape_label(l.as_str()).as_str());
            push_chars(out, &['"', '|', ' ']);
        },
        None => {
            push_chars(out, &[' ', '-', '-', '>', ' ']);
        },
    }
    crate::text::push_str(out, sanitize_id(e.to.as_str()).as_str());
    push_char(out, '\n');
    assert(out@ =~= start + edge_line(depth as nat, e@));
}

fn emit_body(out: &mut String, g: &crate::graph::DepGraph, depth: usize)
    ensures
        final(out)@ == old(out)@ + mermaid_body(g@, depth),
    decreases g, 0nat,
{
    let ghost start = out@;
    let mut j: usize = 0;
    assert(out@ =~= start + mermaid_subgraphs(g@.subgraphs, 0, depth));
    while j < g.subgraphs.len()
        invariant
            j <= g.subgraphs@.len() == g@.subgraphs.len(),
            out@ == start + mermaid_subgraphs(g@.subgraphs, j as nat, depth),
        decreases g.subgraphs@.len() - j,
    {
        proof {
            crate::graph::lemma_graph_view_subgraph(*g, j as int);
        }
        emit_subgraph(out, &g.subgraphs[j], depth);
        j = j + 1;
        assert(out@ =~= start + mermaid_subgraphs(g@.subgraphs, j as nat, depth));
    }
    let ghost s2 = out@;
    let nn = crate::maps::node_map_len(&g.nodes);
    let ghost ns = g@.nodes;
    let ghost nlines = ns.map_values(|e: (Seq<char>, crate::graph::NodeView)| node_line(depth as nat, e.0, e.1));
    let mut i: usize = 0;
    assert(nlines.take(0) =~= Seq::<Seq<char>>::empty());
    while i < nn
        invariant
            i <= nn == ns.len() == nlines.len(),
            ns == g@.nodes,
            nlines == ns.map_values(|e: (Seq<char>, crate::graph::NodeView)| node_line(depth as nat, e.0, e.1)),
            out@ == s2 + crate::text::concat(nlines.take(i as int)),
        decreases nn - i,
    {
        let (k, v) = crate::maps::node_map_get_index(&g.nodes, i).unwrap();
        proof {
            crate::text::lemma_concat_step(nlines, i as int);
        }
        emit_node_line(out, depth, k.as_str(), v);
        i = i + 1;
    }
    assert(nlines.take(nn as int) =~= nlines);
    let ghost s3 = out@;
    let ghost es = g@.edges;
    let ghost elines = es.map_values(|e: crate::graph::EdgeView| edge_line(depth as nat, e));
    let mut i: usize = 0;
    assert(elines.take(0) =~= Seq::<Seq<char>>::empty());
    while i < g.edges.len()
        invariant
            i <= g.edges@.len() == es.len() == elines.len(),
            es == g@.edges,
            elines == es.map_values(|e: crate::graph::EdgeView| edge_line(depth as nat, e)),
            out@ == s3 + crate::text::concat(elines.take(i as int)),
        decreases g.edges@.len() - i,
    {
        proof {
            crate::text::lemma_concat_step(elines, i as int);
        }
        emit_edge_line(out, depth, &g.edges[i]);
        i = i + 1;
    }
    assert(elines.take(g.edges@.len() as int) =~= elines);
}

fn emit_subgraph(out: &mut String, sg: &crate::graph::DepGraph, depth: usize)
    ensures
        final(out)@ == old(out)@ + mermaid_subgraph(sg@, depth),
    decreases sg, 1nat,
{
    let ghost start = out@;
    let ind = indent(depth);
    crate::text::push_str(out, ind.as_str());
    push_chars(out, &['s', 'u', 'b', 'g', 'r', 'a', 'p', 'h', ' ']);
    match &sg.id {
        Some(id) => crate::text::push_str(out, sanitize_id(id.as_str()).as_str()),
        None => {
            push_chars(out, &['s', 'g']);
            crate::text::push_decimal(out, depth);
        },
    }
    push_char(out, '\n');
    let ghost mid = out@;
    let next = depth.saturating_add(1);
    assert(next == deeper(depth));
    emit_body(out, sg, next);
    crate::text::push_str(out, ind.as_str());
    push_chars(out, &['e', 'n', 'd', '\n']);
    assert(out@ =~= start + mermaid_subgraph(sg@, depth));
}

/// The Mermaid flowchart text of a graph.
///
/// The direction comes from the `rankdir` (or `direction`) attribute, `LR`
/// by default.  Subgraphs become nested `subgraph ... end` blocks; every
/// node is declared with its escaped label in a shape from its `shape`
/// attribute; edges keep their labels.  Other attributes are dropped.
pub fn emit(graph: &crate::graph::DepGraph) -> (r: String)
    ensures
        r@ == mermaid_spec(graph@),
{
    let mut out = String::new();
    push_chars(&mut out, &['f', 'l', 'o', 'w', 'c', 'h', 'a', 'r', 't', ' ']);
    let rk = crate::text::string_from(&['r', 'a', 'n', 'k', 'd', 'i', 'r']);
    let dk = crate::text::string_from(&['d', 'i', 'r', 'e', 'c', 't', 'i', 'o', 'n']);
    match crate::maps::str_map_get(&graph.attrs, rk.as_str()) {
        Some(d) => crate::text::push_str(&mut out, d.as_str()),
        None => match crate::maps::str_map_get(&graph.attrs, dk.as_str()) {
            Some(d) => crate::text::push_str(&mut out, d.as_str()),
            None => push_chars(&mut out, &['L', 'R']),
        },
    }
    push_char(&mut out, '\n');
    emit_body(&mut out, graph, 1);
    assert(rk@ =~= seq!['r', 'a', 'n', 'k', 'd', 'i', 'r']);
    assert(dk@ =~= seq!['d', 'i', 'r', 'e', 'c', 't', 'i', 'o', 'n']);
    assert(out@ =~= mermaid_spec(graph@));
    out
}

} // verus!
