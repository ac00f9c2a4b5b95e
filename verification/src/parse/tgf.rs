//! TGF (Trivial Graph Format): node lines `id [label...]`, then a `#` line,
//! then edge lines `from to [label...]`.
use vstd::prelude::*;

use super::ParseError;
use crate::graph::{
    edge_views, lemma_node_views_insert, opt_str, DepGraph, Edge, EdgeView, GraphView, NodeInfo, NodeView,
};
use crate::maps::{insert_entry, node_map_insert, str_map_new};
use crate::text::{
    chars_of, join, join_from, lines, lines_of, split_whitespace, split_ws, string_from, trim, trim_chars,
    views_eq,
};

verus! {

/// What a TGF parse has built so far.
pub struct TgfState {
    pub nodes: Seq<(Seq<char>, NodeView)>,
    pub edges: Seq<EdgeView>,
    pub in_edges: bool,
}

/// `None` for no words, else the words joined by single spaces.
pub open spec fn rest_label(parts: Seq<Seq<char>>) -> Option<Seq<char>> {
    if parts.len() == 0 {
        None
    } else {
        Some(join(parts, seq![' ']))
    }
}

/// The effect of one input line; `Err` holds the trimmed line of a malformed edge.
pub open spec fn tgf_line(st: TgfState, raw: Seq<char>) -> Result<TgfState, Seq<char>> {
    let line = trim(raw);
    let parts = split_ws(line);
    if line.len() == 0 {
        Ok(st)
    } else if line == seq!['#'] {
        Ok(TgfState { in_edges: true, ..st })
    } else if parts.len() == 0 {
        Ok(st)
    } else if st.in_edges {
        if parts.len() < 2 {
            Err(line)
        } else {
            let e = EdgeView {
                from: parts[0],
                to: parts[1],
                label: rest_label(parts.skip(2)),
                attrs: Seq::empty(),
            };
            Ok(TgfState { edges: st.edges.push(e), ..st })
        }
    } else {
        let id = parts[0];
        let label = match rest_label(parts.skip(1)) {
            Some(l) => l,
            None => id,
        };
        let n = NodeView { label, node_type: None, attrs: Seq::empty() };
        Ok(TgfState { nodes: insert_entry(st.nodes, id, n), ..st })
    }
}

pub open spec fn tgf_run(st: TgfState, ls: Seq<Seq<char>>) -> Result<TgfState, Seq<char>>
    decreases ls.len(),
{
    if ls.len() == 0 {
        Ok(st)
    } else {
        match tgf_line(st, ls[0]) {
            Ok(next) => tgf_run(next, ls.drop_first()),
            Err(e) => Err(e),
        }
    }
}

/// The result of parsing `input` as TGF.
pub open spec fn tgf_spec(input: Seq<char>) -> Result<TgfState, Seq<char>> {
    tgf_run(TgfState { nodes: Seq::empty(), edges: Seq::empty(), in_edges: false }, lines(input))
}

pub open spec fn graph_of_state(st: TgfState) -> GraphView {
    GraphView { id: None, attrs: Seq::empty(), nodes: st.nodes, edges: st.edges, subgraphs: Seq::empty() }
}

fn is_hash_line(v: &Vec<char>) -> (b: bool)
    ensures
        b == (v@ == seq!['#']),
{
    let b = v.len() == 1 && v[0] == '#';
    if v.len() == 1 {
        assert(v@ =~= seq![v@[0]]);
    }
    b
}

/// Joins `parts[from..]` with spaces; `None` when there are none.
fn join_rest(parts: &Vec<Vec<char>>, from: usize) -> (r: Option<String>)
    requires
        from <= parts.len(),
    ensures
        opt_str(r) == rest_label(parts@.skip(from as int).map_values(|p: Vec<char>| p@)),
{
    if from == parts.len() {
        None
    } else {
        let sep = [' '];
        let s = join_from(parts, from, &sep);
        assert(sep@ =~= seq![' ']);
        Some(s)
    }
}

/// Parse TGF text.
///
/// Blank lines are skipped; a `#` line switches from node lines to edge lines.
/// A node without label text is labelled with its id. An edge line with
/// fewer than two tokens is an error.
pub fn parse(input: &str) -> (r: Result<DepGraph, ParseError>)
    ensures
        match tgf_spec(input@) {
            Ok(st) => r matches Ok(g) && g@ == graph_of_state(st),
            Err(line) => r matches Err(ParseError::InvalidEdgeLine(l)) && l@ == line,
        },
{
    let chars = chars_of(input);
    let ls = lines_of(chars.as_slice());
    let mut graph = DepGraph::default();
    let mut in_edges = false;
    let ghost all = lines(input@);
    let ghost init = TgfState { nodes: Seq::empty(), edges: Seq::empty(), in_edges: false };
    let mut i: usize = 0;
    assert(all.skip(0) =~= all);
    while i < ls.len()
        invariant
            i <= ls.len(),
            views_eq(ls@, all),
            all == lines(input@),
            init == (TgfState { nodes: Seq::empty(), edges: Seq::empty(), in_edges: false }),
            graph@.id is None,
            graph@.attrs == Seq::<(Seq<char>, Seq<char>)>::empty(),
            graph@.subgraphs =~= Seq::<GraphView>::empty(),
            tgf_run(init, all) == tgf_run(
                TgfState { nodes: graph@.nodes, edges: graph@.edges, in_edges },
                all.skip(i as int),
            ),
        decreases ls.len() - i,
    {
        let ghost st = TgfState { nodes: graph@.nodes, edges: graph@.edges, in_edges };
        let ghost rest = all.skip(i as int);
        assert(rest[0] == all[i as int]);
        assert(rest.drop_first() =~= all.skip(i + 1));
        assert(ls@[i as int]@ == all[i as int]);
        let line = trim_chars(ls[i].as_slice());
        let parts = split_whitespace(line.as_slice());
        if line.len() == 0 {
        } else if is_hash_line(&line) {
            in_edges = true;
        } else if parts.len() == 0 {
        } else if in_edges {
            if parts.len() < 2 {
                assert(tgf_line(st, rest[0]) == Err::<TgfState, Seq<char>>(line@));
                assert(tgf_run(st, rest) == Err::<TgfState, Seq<char>>(line@));
                let msg = string_from(line.as_slice());
                return Err(ParseError::InvalidEdgeLine(msg));
            }
            let label = join_rest(&parts, 2);
            let e = Edge {
                from: string_from(parts[0].as_slice()),
                to: string_from(parts[1].as_slice()),
                label,
                attrs: str_map_new(),
            };
            let ghost old_edges = graph.edges@;
            graph.edges.push(e);
            proof {
                assert(parts@.skip(2).map_values(|p: Vec<char>| p@) =~= split_ws(line@).skip(2));
                assert(edge_views(graph.edges@) =~= edge_views(old_edges).push(e@));
            }
        } else {
            let id = string_from(parts[0].as_slice());
            let label = match join_rest(&parts, 1) {
                Some(l) => l,
                None => string_from(parts[0].as_slice()),
            };
            let n = NodeInfo { label, node_type: None, attrs: str_map_new() };
            proof {
                assert(parts@.skip(1).map_values(|p: Vec<char>| p@) =~= split_ws(line@).skip(1));
                lemma_node_views_insert(crate::maps::node_entries(graph.nodes), id@, n);
            }
            node_map_insert(&mut graph.nodes, id, n);
        }
        i = i + 1;
    }
    Ok(graph)
}

} // verus!

verus! {

/// Whether line `m` of `ls` is a node line, for a parse that starts in
/// edge mode when `in_edges`: no `#` line at or before it, and at least one
/// word on it.
pub open spec fn node_line(in_edges: bool, ls: Seq<Seq<char>>, m: int) -> bool {
    &&& 0 <= m < ls.len()
    &&& !in_edges
    &&& forall|j: int| 0 <= j <= m ==> #[trigger] trim(ls[j]) != seq!['#']
    &&& split_ws(trim(ls[m])).len() >= 1
}

/// The id a node line names: its first word.
pub open spec fn line_id(raw: Seq<char>) -> Seq<char> {
    split_ws(trim(raw))[0]
}

/// The label a node line gives: all its words after the id, joined by
/// single spaces; the id itself when there are none.
pub open spec fn line_label(raw: Seq<char>) -> Seq<char> {
    let words = split_ws(trim(raw));
    if words.len() >= 2 {
        join(words.skip(1), seq![' '])
    } else {
        words[0]
    }
}

/// Whether line `m` is the last node line of `ls` naming `id`.
pub open spec fn last_definition(in_edges: bool, ls: Seq<Seq<char>>, m: int, id: Seq<char>) -> bool {
    &&& node_line(in_edges, ls, m)
    &&& line_id(ls[m]) == id
    &&& forall|m2: int| m < m2 < ls.len() && #[trigger] node_line(in_edges, ls, m2) ==> line_id(ls[m2]) != id
}

proof fn lemma_run_nodes(st: TgfState, ls: Seq<Seq<char>>)
    requires
        crate::algorithm::diff::distinct_keys(st.nodes),
        tgf_run(st, ls) is Ok,
    ensures
        ({
            let fin = tgf_run(st, ls)->Ok_0;
            &&& crate::algorithm::diff::distinct_keys(fin.nodes)
            &&& forall|q: int|
                0 <= q < fin.nodes.len() ==> (exists|m: int|
                    #[trigger] last_definition(st.in_edges, ls, m, fin.nodes[q].0) && fin.nodes[q].1.label == line_label(ls[m]))
                    || (crate::maps::value_of(st.nodes, fin.nodes[q].0) == Some(fin.nodes[q].1)
                    && forall|m2: int| #[trigger] node_line(st.in_edges, ls, m2) ==> line_id(ls[m2]) != fin.nodes[q].0)
        }),
    decreases ls.len(),
{
    let fin = tgf_run(st, ls)->Ok_0;
    if ls.len() == 0 {
        assert forall|q: int| 0 <= q < fin.nodes.len() implies crate::maps::value_of(st.nodes, fin.nodes[q].0) == Some(fin.nodes[q].1) by {
            crate::algorithm::diff::lemma_value_of_distinct(st.nodes, q);
        }
    } else {
        let l = ls[0];
        let rest = ls.drop_first();
        let next = tgf_line(st, l)->Ok_0;
        assert(tgf_line(st, l) is Ok);
        let line = trim(l);
        let parts = split_ws(line);
        let is_node = node_line(st.in_edges, ls, 0);
        if is_node {
            assert(line != seq!['#']);
            assert(line.len() > 0) by {
                if line.len() == 0 {
                    assert(line =~= Seq::<char>::empty());
                }
            }
            crate::algorithm::diff::lemma_insert_entry_distinct(
                st.nodes, parts[0], NodeView { label: line_label(l), node_type: None, attrs: Seq::empty() });
        }
        assert(crate::algorithm::diff::distinct_keys(next.nodes));
        lemma_run_nodes(next, rest);
        let hash = line == seq!['#'];
        assert forall|m2: int| 0 <= m2 < rest.len() implies node_line(st.in_edges, ls, m2 + 1) == node_line(next.in_edges, rest, m2) by {
            assert(ls[m2 + 1] == rest[m2]);
            if !hash && !st.in_edges {
                assert(next.in_edges == st.in_edges);
                if node_line(next.in_edges, rest, m2) {
                    assert forall|j: int| 0 <= j <= m2 + 1 implies #[trigger] trim(ls[j]) != seq!['#'] by {
                        if j > 0 {
                            assert(ls[j] == rest[j - 1]);
                        }
                    }
                }
                if node_line(st.in_edges, ls, m2 + 1) {
                    assert forall|j: int| 0 <= j <= m2 implies #[trigger] trim(rest[j]) != seq!['#'] by {
                        assert(ls[j + 1] == rest[j]);
                    }
                }
            } else if hash {
                assert(trim(ls[0]) == seq!['#']);
            }
        }
        assert forall|q: int| 0 <= q < fin.nodes.len() implies (exists|m: int|
            #[trigger] last_definition(st.in_edges, ls, m, fin.nodes[q].0) && fin.nodes[q].1.label == line_label(ls[m]))
            || (crate::maps::value_of(st.nodes, fin.nodes[q].0) == Some(fin.nodes[q].1)
            && forall|m2: int| #[trigger] node_line(st.in_edges, ls, m2) ==> line_id(ls[m2]) != fin.nodes[q].0) by {
            let key = fin.nodes[q].0;
            if exists|m: int| #[trigger] last_definition(next.in_edges, rest, m, key) && fin.nodes[q].1.label == line_label(rest[m]) {
                let m = choose|m: int| #[trigger] last_definition(next.in_edges, rest, m, key) && fin.nodes[q].1.label == line_label(rest[m]);
                assert(ls[m + 1] == rest[m]);
                assert forall|m2: int| m + 1 < m2 < ls.len() && #[trigger] node_line(st.in_edges, ls, m2) implies line_id(ls[m2]) != key by {
                    assert(ls[m2] == rest[m2 - 1]);
                    assert(node_line(next.in_edges, rest, m2 - 1));
                }
                assert(last_definition(st.in_edges, ls, m + 1, key));
            } else {
                assert(crate::maps::value_of(next.nodes, key) == Some(fin.nodes[q].1));
                assert forall|m2: int| 0 < m2 && #[trigger] node_line(st.in_edges, ls, m2) implies line_id(ls[m2]) != key by {
                    assert(ls[m2] == rest[m2 - 1]);
                    assert(node_line(next.in_edges, rest, m2 - 1));
                }
                if is_node && parts[0] == key {
                    crate::maps::lemma_insert_entry(st.nodes, parts[0], NodeView { label: line_label(l), node_type: None, attrs: Seq::empty() });
                    assert forall|m2: int| 0 < m2 < ls.len() && #[trigger] node_line(st.in_edges, ls, m2) implies line_id(ls[m2]) != key by {
                        assert(ls[m2] == rest[m2 - 1]);
                        assert(node_line(next.in_edges, rest, m2 - 1));
                    }
                    assert(last_definition(st.in_edges, ls, 0, key));
                } else if is_node {
                    crate::maps::lemma_insert_entry(st.nodes, parts[0], NodeView { label: line_label(l), node_type: None, attrs: Seq::empty() });
                } else {
                    assert(next.nodes == st.nodes);
                }
            }
        }
    }
}

/// Whether node entry `e` is named by a node line of `ls`, the last one
/// naming it giving its label.
pub open spec fn named_by_last_line(ls: Seq<Seq<char>>, e: (Seq<char>, NodeView)) -> bool {
    exists|m: int| #[trigger] last_definition(false, ls, m, e.0) && e.1.label == line_label(ls[m])
}

/// Law: every node of a parsed TGF text is named by a node line (a line
/// with at least one word before the first `#` line), the last such line
/// naming it gives its label: all the words after the id joined by single
/// spaces, or the id itself when the line has no other word.
pub proof fn lemma_tgf_node_labels(input: Seq<char>)
    requires
        tgf_spec(input) is Ok,
    ensures
        forall|q: int|
            0 <= q < tgf_spec(input)->Ok_0.nodes.len() ==> #[trigger] named_by_last_line(lines(input), tgf_spec(input)->Ok_0.nodes[q]),
{
    let st = TgfState { nodes: Seq::empty(), edges: Seq::empty(), in_edges: false };
    lemma_run_nodes(st, lines(input));
    let fin = tgf_spec(input)->Ok_0;
    assert forall|q: int| 0 <= q < fin.nodes.len() implies #[trigger] named_by_last_line(lines(input), fin.nodes[q]) by {
        crate::maps::lemma_find_key(st.nodes, fin.nodes[q].0);
    }
}

proof fn lemma_run_keys(st: TgfState, ls: Seq<Seq<char>>)
    requires
        tgf_run(st, ls) is Ok,
    ensures
        forall|k: Seq<char>| crate::maps::has_key(st.nodes, k) ==> crate::maps::has_key(tgf_run(st, ls)->Ok_0.nodes, k),
        forall|m: int| #[trigger] node_line(st.in_edges, ls, m) ==> crate::maps::has_key(tgf_run(st, ls)->Ok_0.nodes, line_id(ls[m])),
    decreases ls.len(),
{
    if ls.len() > 0 {
        let l = ls[0];
        let rest = ls.drop_first();
        let next = tgf_line(st, l)->Ok_0;
        assert(tgf_line(st, l) is Ok);
        let line = trim(l);
        let parts = split_ws(line);
        lemma_run_keys(next, rest);
        let is_node = node_line(st.in_edges, ls, 0);
        if is_node {
            assert(line != seq!['#']);
            assert(line.len() > 0) by {
                if line.len() == 0 {
                    assert(line =~= Seq::<char>::empty());
                }
            }
            crate::maps::lemma_insert_entry(st.nodes, parts[0], NodeView { label: line_label(l), node_type: None, attrs: Seq::empty() });
        }
        assert forall|k: Seq<char>| crate::maps::has_key(st.nodes, k) implies crate::maps::has_key(next.nodes, k) by {
            if is_node {
                crate::maps::lemma_insert_entry(st.nodes, parts[0], NodeView { label: line_label(l), node_type: None, attrs: Seq::empty() });
            }
        }
        let hash = line == seq!['#'];
        assert forall|m: int| #[trigger] node_line(st.in_edges, ls, m) implies crate::maps::has_key(tgf_run(st, ls)->Ok_0.nodes, line_id(ls[m])) by {
            if m == 0 {
                assert(crate::maps::has_key(next.nodes, parts[0]));
            } else {
                assert(ls[m] == rest[m - 1]);
                assert(!hash) by {
                    assert(trim(ls[0]) != seq!['#']);
                }
                assert forall|j: int| 0 <= j <= m - 1 implies #[trigger] trim(rest[j]) != seq!['#'] by {
                    assert(ls[j + 1] == rest[j]);
                }
                assert(node_line(next.in_edges, rest, m - 1));
            }
        }
    }
}

/// Law: every node line of a parsed TGF text (a line with at least one
/// word before the first `#` line) gives a node named by its first word.
pub proof fn lemma_tgf_node_lines_kept(input: Seq<char>)
    requires
        tgf_spec(input) is Ok,
    ensures
        forall|m: int|
            #[trigger] node_line(false, lines(input), m) ==> crate::maps::has_key(tgf_spec(input)->Ok_0.nodes, line_id(lines(input)[m])),
{
    let st = TgfState { nodes: Seq::empty(), edges: Seq::empty(), in_edges: false };
    lemma_run_keys(st, lines(input));
}

/// The edge an edge line gives: from its first word to its second, labelled
/// by the remaining words joined by single spaces, if any.
pub open spec fn line_edge(raw: Seq<char>) -> EdgeView {
    let words = split_ws(trim(raw));
    EdgeView {
        from: words[0],
        to: words[1],
        label: if words.len() >= 3 { Some(join(words.skip(2), seq![' '])) } else { None },
        attrs: Seq::empty(),
    }
}

/// The edges of the lines `ls`, in order, when reading starts in edge mode
/// if `in_edges`: each line with a word on it after a `#` line (the `#`
/// line itself excepted) gives one edge.
pub open spec fn edge_lines(in_edges: bool, ls: Seq<Seq<char>>) -> Seq<EdgeView>
    decreases ls.len(),
{
    if ls.len() == 0 {
        seq![]
    } else {
        let line = trim(ls[0]);
        let first = if in_edges && line != seq!['#'] && split_ws(line).len() >= 1 {
            seq![line_edge(ls[0])]
        } else {
            seq![]
        };
        first + edge_lines(in_edges || line == seq!['#'], ls.drop_first())
    }
}

proof fn lemma_run_edges(st: TgfState, ls: Seq<Seq<char>>)
    requires
        tgf_run(st, ls) is Ok,
    ensures
        tgf_run(st, ls)->Ok_0.edges == st.edges + edge_lines(st.in_edges, ls),
    decreases ls.len(),
{
    if ls.len() == 0 {
        assert(st.edges + edge_lines(st.in_edges, ls) =~= st.edges);
    } else {
        let l = ls[0];
        let next = tgf_line(st, l)->Ok_0;
        assert(tgf_line(st, l) is Ok);
        lemma_run_edges(next, ls.drop_first());
        let line = trim(l);
        if line.len() == 0 {
            assert(split_ws(line).len() == 0) by {
                assert(line =~= Seq::<char>::empty());
            }
        }
        assert(next.in_edges == (st.in_edges || line == seq!['#']));
        assert(tgf_run(st, ls)->Ok_0.edges =~= st.edges + edge_lines(st.in_edges, ls));
    }
}

/// Law: the edges of a parsed TGF text are those of its edge lines, in
/// order: every line with a word on it after the first `#` line gives the
/// edge from its first word to its second, labelled by the rest.
pub proof fn lemma_tgf_edges(input: Seq<char>)
    requires
        tgf_spec(input) is Ok,
    ensures
        tgf_spec(input)->Ok_0.edges == edge_lines(false, lines(input)),
{
    let st = TgfState { nodes: Seq::empty(), edges: Seq::empty(), in_edges: false };
    lemma_run_edges(st, lines(input));
    assert(st.edges + edge_lines(false, lines(input)) =~= edge_lines(false, lines(input)));
}

} // verus!
