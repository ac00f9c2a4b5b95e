//! Box-drawing trees as the `tree` command prints them; each node's id is
//! its path from the root (components joined with `/`).
use vstd::prelude::*;

use super::ParseError;
use crate::graph::{edge_views, lemma_node_views_insert, DepGraph, Edge, EdgeView, GraphView, NodeInfo, NodeView};
use crate::maps::{insert_entry, node_entries, node_map_insert, str_map_new};
use crate::text::{
    chars_of, contains_seq, contains_chars, ends_with, has_suffix, is_digit, lines, lines_of, push_char,
    push_chars, string_from, sub_vec, trim, trim_chars, trim_end, trim_end_chars, views_eq,
};

verus! {

/// Whether `s` starts with the four characters `a b c d`.
pub open spec fn marker4(s: Seq<char>, a: char, b: char, c: char, d: char) -> bool {
    s.len() >= 4 && s[0] == a && s[1] == b && s[2] == c && s[3] == d
}

/// A branch marker (`├── `, `└── `, `|-- `, `` `-- ``, `\-- `): the last decoration before a name.
pub open spec fn is_branch(s: Seq<char>) -> bool {
    ||| marker4(s, '├', '─', '─', ' ')
    ||| marker4(s, '└', '─', '─', ' ')
    ||| marker4(s, '|', '-', '-', ' ')
    ||| marker4(s, '`', '-', '-', ' ')
    ||| marker4(s, '\\', '-', '-', ' ')
}

/// A continuation column (`│   `, `|   `, or four spaces under a last child).
pub open spec fn is_cont(s: Seq<char>) -> bool {
    ||| marker4(s, '│', ' ', ' ', ' ')
    ||| marker4(s, '|', ' ', ' ', ' ')
    ||| marker4(s, ' ', ' ', ' ', ' ')
}

/// The depth a line's decorations give and the text after them: each
/// continuation column counts one level, and a branch marker one more and ends them.
pub open spec fn strip_tree_prefix(s: Seq<char>) -> (nat, Seq<char>)
    decreases s.len(),
{
    if is_branch(s) {
        (1, s.skip(4))
    } else if is_cont(s) {
        let r = strip_tree_prefix(s.skip(4));
        (r.0 + 1, r.1)
    } else {
        (0, s)
    }
}

fn is_marker4(v: &[char], at: usize, a: char, b: char, c: char, d: char) -> (r: bool)
    requires
        at <= v.len(),
    ensures
        r == marker4(v@.skip(at as int), a, b, c, d),
{
    v.len() - at >= 4 && v[at] == a && v[at + 1] == b && v[at + 2] == c && v[at + 3] == d
}

/// The depth and the position where the text after the decorations begins.
pub fn tree_prefix(v: &[char]) -> (r: (usize, usize))
    ensures
        r.1 <= v.len(),
        r.0 as nat == strip_tree_prefix(v@).0,
        v@.skip(r.1 as int) == strip_tree_prefix(v@).1,
{
    let mut pos: usize = 0;
    let mut depth: usize = 0;
    assert(v@.skip(0) =~= v@);
    loop
        invariant
            pos <= v.len(),
            depth * 4 == pos,
            strip_tree_prefix(v@).0 == depth + strip_tree_prefix(v@.skip(pos as int)).0,
            strip_tree_prefix(v@).1 == strip_tree_prefix(v@.skip(pos as int)).1,
        decreases v.len() - pos,
    {
        let ghost rest = v@.skip(pos as int);
        let branch = is_marker4(v, pos, '├', '─', '─', ' ') || is_marker4(v, pos, '└', '─', '─', ' ')
            || is_marker4(v, pos, '|', '-', '-', ' ') || is_marker4(v, pos, '`', '-', '-', ' ')
            || is_marker4(v, pos, '\\', '-', '-', ' ');
        if branch {
            assert(rest.skip(4) =~= v@.skip(pos + 4));
            return (depth + 1, pos + 4);
        }
        let cont = is_marker4(v, pos, '│', ' ', ' ', ' ') || is_marker4(v, pos, '|', ' ', ' ', ' ')
            || is_marker4(v, pos, ' ', ' ', ' ', ' ');
        if !cont {
            return (depth, pos);
        }
        assert(rest.skip(4) =~= v@.skip(pos + 4));
        pos = pos + 4;
        depth = depth + 1;
    }
}

/// The name on a `tree` line, with a trailing `(*)` or `(cycle)` marker removed.
pub open spec fn tree_name(rest: Seq<char>) -> Seq<char> {
    let name = trim_end(rest);
    if ends_with(name, seq!['(', '*', ')']) {
        trim_end(name.take(name.len() - 3))
    } else if ends_with(name, seq!['(', 'c', 'y', 'c', 'l', 'e', ')']) {
        trim_end(name.take(name.len() - 7))
    } else {
        name
    }
}

/// Depth and name of a `tree` line; `None` when the name is empty.
pub open spec fn tree_line_parts(line: Seq<char>) -> Option<(nat, Seq<char>)> {
    let (depth, rest) = strip_tree_prefix(line);
    let name = tree_name(rest);
    if name.len() == 0 {
        None
    } else {
        Some((depth, name))
    }
}

/// Parse one `tree` line into (depth, name), or `None` for a line with no name.
pub fn parse_line(line: &str) -> (r: Option<(usize, String)>)
    ensures
        match tree_line_parts(line@) {
            Some((d, n)) => r matches Some(p) && p.0 as nat == d && p.1@ == n,
            None => r is None,
        },
{
    let v = chars_of(line);
    match parse_line_chars(&v) {
        Some((d, n)) => Some((d, string_from(n.as_slice()))),
        None => None,
    }
}

fn parse_line_chars(v: &Vec<char>) -> (r: Option<(usize, Vec<char>)>)
    ensures
        match tree_line_parts(v@) {
            Some((d, n)) => r matches Some(p) && p.0 as nat == d && p.1@ == n,
            None => r is None,
        },
{
    let (depth, pos) = tree_prefix(v.as_slice());
    let rest = sub_vec(v.as_slice(), pos, v.len());
    assert(rest@ =~= v@.skip(pos as int));
    let name = trim_end_chars(rest.as_slice());
    let star = ['(', '*', ')'];
    let cycle = ['(', 'c', 'y', 'c', 'l', 'e', ')'];
    assert(star@ =~= seq!['(', '*', ')']);
    assert(cycle@ =~= seq!['(', 'c', 'y', 'c', 'l', 'e', ')']);
    let name = if has_suffix(name.as_slice(), &star) {
        let t = sub_vec(name.as_slice(), 0, name.len() - 3);
        assert(t@ =~= name@.take(name.len() - 3));
        trim_end_chars(t.as_slice())
    } else if has_suffix(name.as_slice(), &cycle) {
        let t = sub_vec(name.as_slice(), 0, name.len() - 7);
        assert(t@ =~= name@.take(name.len() - 7));
        trim_end_chars(t.as_slice())
    } else {
        name
    };
    if name.len() == 0 {
        None
    } else {
        Some((depth, name))
    }
}

/// `tree`'s summary line (e.g. "26 directories, 40 files"): starts with a
/// digit and mentions "director" and "file".
pub open spec fn summary_line(line: Seq<char>) -> bool {
    let t = trim(line);
    t.len() > 0 && is_digit(t[0]) && contains_seq(t, seq!['d', 'i', 'r', 'e', 'c', 't', 'o', 'r'])
        && contains_seq(t, seq!['f', 'i', 'l', 'e'])
}

/// Whether `line` is `tree`'s summary line.
pub fn is_summary(line: &Vec<char>) -> (b: bool)
    ensures
        b == summary_line(line@),
{
    let t = trim_chars(line.as_slice());
    let dir = ['d', 'i', 'r', 'e', 'c', 't', 'o', 'r'];
    let file = ['f', 'i', 'l', 'e'];
    assert(dir@ =~= seq!['d', 'i', 'r', 'e', 'c', 't', 'o', 'r']);
    assert(file@ =~= seq!['f', 'i', 'l', 'e']);
    t.len() > 0 && '0' <= t[0] && t[0] <= '9' && contains_chars(t.as_slice(), &dir) && contains_chars(
        t.as_slice(),
        &file,
    )
}

/// `line` with each NO-BREAK SPACE (U+00A0) replaced by an ASCII space.
pub open spec fn normalize_nbsp(line: Seq<char>) -> Seq<char> {
    line.map_values(|c: char|
        if c == '\u{a0}' {
            ' '
        } else {
            c
        })
}

pub fn replace_nbsp(v: &Vec<char>) -> (r: Vec<char>)
    ensures
        r@ == normalize_nbsp(v@),
{
    let mut r: Vec<char> = Vec::new();
    let mut i: usize = 0;
    while i < v.len()
        invariant
            i <= v.len(),
            r@ == normalize_nbsp(v@.take(i as int)),
        decreases v.len() - i,
    {
        let c = if v[i] == '\u{a0}' {
            ' '
        } else {
            v[i]
        };
        r.push(c);
        i = i + 1;
        assert(r@ =~= normalize_nbsp(v@.take(i as int)));
    }
    assert(v@.take(v.len() as int) =~= v@);
    r
}

/// What a tree parse has built so far; `stack[i]` is the id of the most
/// recent node at depth `i`.
pub struct TreeState {
    pub nodes: Seq<(Seq<char>, NodeView)>,
    pub edges: Seq<EdgeView>,
    pub stack: Seq<Seq<char>>,
}

/// The effect of one input line; `Err` holds a line nested more than one
/// level below the current path.
pub open spec fn tree_line(st: TreeState, raw: Seq<char>) -> Result<TreeState, Seq<char>> {
    let line = normalize_nbsp(raw);
    if trim(line).len() == 0 || summary_line(line) {
        Ok(st)
    } else {
        match tree_line_parts(line) {
            None => Ok(st),
            Some((depth, name)) => if depth > st.stack.len() {
                Err(line)
            } else {
                let id = if depth == 0 {
                    name
                } else {
                    st.stack[depth - 1] + seq!['/'] + name
                };
                let n = NodeView { label: name, node_type: None, attrs: Seq::empty() };
                Ok(
                    TreeState {
                        nodes: insert_entry(st.nodes, id, n),
                        edges: if depth == 0 {
                            st.edges
                        } else {
                            st.edges.push(
                                EdgeView { from: st.stack[depth - 1], to: id, label: None, attrs: Seq::empty() },
                            )
                        },
                        stack: st.stack.take(depth as int).push(id),
                    },
                )
            },
        }
    }
}

pub open spec fn tree_run(st: TreeState, ls: Seq<Seq<char>>) -> Result<TreeState, Seq<char>>
    decreases ls.len(),
{
    if ls.len() == 0 {
        Ok(st)
    } else {
        match tree_line(st, ls[0]) {
            Ok(next) => tree_run(next, ls.drop_first()),
            Err(e) => Err(e),
        }
    }
}

/// The result of parsing `input` as `tree` output.
pub open spec fn tree_spec(input: Seq<char>) -> Result<TreeState, Seq<char>> {
    tree_run(TreeState { nodes: Seq::empty(), edges: Seq::empty(), stack: Seq::empty() }, lines(input))
}

/// Parse `tree` output (Unicode or ASCII drawing). A line nested more than
/// one level below its predecessor is an error.
pub fn parse(input: &str) -> (r: Result<DepGraph, ParseError>)
    ensures
        match tree_spec(input@) {
            Ok(st) => r matches Ok(g) && g@ == (GraphView {
                id: None,
                attrs: Seq::empty(),
                nodes: st.nodes,
                edges: st.edges,
                subgraphs: Seq::empty(),
            }),
            Err(line) => r matches Err(ParseError::UnexpectedDepthJump(l)) && l@ == line,
        },
{
    let chars = chars_of(input);
    let ls = lines_of(chars.as_slice());
    let mut graph = DepGraph::default();
    let mut stack: Vec<String> = Vec::new();
    let ghost all = lines(input@);
    let ghost init = TreeState { nodes: Seq::empty(), edges: Seq::empty(), stack: Seq::empty() };
    let mut i: usize = 0;
    assert(all.skip(0) =~= all);
    assert(stack@.map_values(|s: String| s@) =~= Seq::<Seq<char>>::empty());
    while i < ls.len()
        invariant
            i <= ls.len(),
            views_eq(ls@, all),
            all == lines(input@),
            init == (TreeState { nodes: Seq::empty(), edges: Seq::empty(), stack: Seq::empty() }),
            graph@.id is None,
            graph@.attrs == Seq::<(Seq<char>, Seq<char>)>::empty(),
            graph@.subgraphs =~= Seq::<GraphView>::empty(),
            tree_run(init, all) == tree_run(
                TreeState {
                    nodes: graph@.nodes,
                    edges: graph@.edges,
                    stack: stack@.map_values(|s: String| s@),
                },
                all.skip(i as int),
            ),
        decreases ls.len() - i,
    {
        let ghost st = TreeState {
            nodes: graph@.nodes,
            edges: graph@.edges,
            stack: stack@.map_values(|s: String| s@),
        };
        let ghost rest = all.skip(i as int);
        assert(rest[0] == all[i as int]);
        assert(rest.drop_first() =~= all.skip(i + 1));
        assert(ls@[i as int]@ == all[i as int]);
        let line = replace_nbsp(&ls[i]);
        let t = trim_chars(line.as_slice());
        if t.len() == 0 || is_summary(&line) {
            i = i + 1;
            continue;
        }
        match parse_line_chars(&line) {
            None => {},
            Some((depth, name)) => {
                if depth > stack.len() {
                    assert(tree_run(st, rest) == Err::<TreeState, Seq<char>>(line@));
                    return Err(ParseError::UnexpectedDepthJump(string_from(line.as_slice())));
                }
                let mut id = String::new();
                if depth > 0 {
                    id = stack[depth - 1].clone();
                    push_char(&mut id, '/');
                }
                push_chars(&mut id, name.as_slice());
                assert(id@ =~= (if depth == 0 {
                    name@
                } else {
                    st.stack[depth - 1] + seq!['/'] + name@
                }));
                let n = NodeInfo { label: string_from(name.as_slice()), node_type: None, attrs: str_map_new() };
                proof {
                    lemma_node_views_insert(node_entries(graph.nodes), id@, n);
                }
                node_map_insert(&mut graph.nodes, id.clone(), n);
                if depth > 0 {
                    let e = Edge { from: stack[depth - 1].clone(), to: id.clone(), label: None, attrs: str_map_new() };
                    let ghost old_edges = graph.edges@;
                    graph.edges.push(e);
                    assert(edge_views(graph.edges@) =~= edge_views(old_edges).push(e@));
                }
                let ghost old_stack = stack@;
                stack.truncate(depth);
                stack.push(id);
                assert(stack@.map_values(|s: String| s@) =~= st.stack.take(depth as int).push(
                    (if depth == 0 {
                        name@
                    } else {
                        st.stack[depth - 1] + seq!['/'] + name@
                    }),
                ));
            },
        }
        i = i + 1;
    }
    Ok(graph)
}

} // verus!
