//! Path lists: one `/`-separated path per line; every path prefix becomes a
//! node, with an edge from each prefix to its one-component extension.
use vstd::prelude::*;

use super::ParseError;
use crate::graph::{
    edge_views, lemma_node_views_insert, DepGraph, Edge, EdgeView, GraphView, NodeInfo, NodeView,
};
use crate::maps::{has_key, insert_entry, node_entries, node_map_contains_key, node_map_insert, str_map_new};
use crate::text::{
    chars_of, ends_with, find_char, find_char_from, lines, lines_of, push_chars, split_char, split_on,
    starts_with, string_from, sub_vec, trim, trim_chars, views_eq,
};

verus! {

/// What a path-list parse has built so far.
pub struct PathState {
    pub nodes: Seq<(Seq<char>, NodeView)>,
    pub edges: Seq<EdgeView>,
}

/// The path a line names: the text before any tab (a `\t(*)` or
/// `\t(cycle)` marker), trimmed, without a leading `./` or one trailing `/`.
pub open spec fn path_of_line(raw: Seq<char>) -> Seq<char> {
    let line = trim(raw.take(find_char(raw, '\t') as int));
    let p = if starts_with(line, seq!['.', '/']) {
        line.skip(2)
    } else {
        line
    };
    if ends_with(p, seq!['/']) {
        p.drop_last()
    } else {
        p
    }
}

/// Adds the path prefixes `prev/comps[0]`, `prev/comps[0]/comps[1]`, ...:
/// a prefix not yet present becomes a node labelled with its last component,
/// with an edge from the prefix before it.
pub open spec fn add_components(st: PathState, prev: Option<Seq<char>>, comps: Seq<Seq<char>>) -> PathState
    decreases comps.len(),
{
    if comps.len() == 0 {
        st
    } else {
        let cur = match prev {
            Some(p) => p + seq!['/'] + comps[0],
            None => comps[0],
        };
        let next = if has_key(st.nodes, cur) {
            st
        } else {
            PathState {
                nodes: insert_entry(st.nodes, cur, NodeView { label: comps[0], node_type: None, attrs: Seq::empty() }),
                edges: match prev {
                    Some(p) => st.edges.push(EdgeView { from: p, to: cur, label: None, attrs: Seq::empty() }),
                    None => st.edges,
                },
            }
        };
        add_components(next, Some(cur), comps.drop_first())
    }
}

pub open spec fn pathlist_line(st: PathState, raw: Seq<char>) -> PathState {
    let p = path_of_line(raw);
    if p.len() == 0 {
        st
    } else {
        add_components(st, None, split_char(p, '/'))
    }
}

pub open spec fn pathlist_run(st: PathState, ls: Seq<Seq<char>>) -> PathState
    decreases ls.len(),
{
    if ls.len() == 0 {
        st
    } else {
        pathlist_run(pathlist_line(st, ls[0]), ls.drop_first())
    }
}

/// The result of parsing `input` as a path list.
pub open spec fn pathlist_spec(input: Seq<char>) -> GraphView {
    let st = pathlist_run(PathState { nodes: Seq::empty(), edges: Seq::empty() }, lines(input));
    GraphView { id: None, attrs: Seq::empty(), nodes: st.nodes, edges: st.edges, subgraphs: Seq::empty() }
}

fn line_path(raw: &Vec<char>) -> (p: Vec<char>)
    ensures
        p@ == path_of_line(raw@),
{
    let tab = find_char_from(raw.as_slice(), 0, '\t');
    assert(raw@.skip(0) =~= raw@);
    let before = sub_vec(raw.as_slice(), 0, tab);
    assert(before@ =~= raw@.take(find_char(raw@, '\t') as int));
    let line = trim_chars(before.as_slice());
    let p = if line.len() >= 2 && line[0] == '.' && line[1] == '/' {
        assert(line@.take(2) =~= seq!['.', '/']);
        sub_vec(line.as_slice(), 2, line.len())
    } else {
        assert(!starts_with(line@, seq!['.', '/'])) by {
            if line@.len() >= 2 {
                assert(line@.take(2)[0] == line@[0]);
                assert(line@.take(2)[1] == line@[1]);
            }
        }
        sub_vec(line.as_slice(), 0, line.len())
    };
    assert(line@.subrange(0, line@.len() as int) =~= line@);
    if p.len() >= 1 && p[p.len() - 1] == '/' {
        assert(p@.skip(p.len() - 1) =~= seq!['/']);
        sub_vec(p.as_slice(), 0, p.len() - 1)
    } else {
        assert(!ends_with(p@, seq!['/'])) by {
            if p@.len() >= 1 {
                assert(p@.skip(p.len() - 1)[0] == p@[p.len() - 1]);
            }
        }
        p
    }
}

fn add_path(graph: &mut DepGraph, comps: &Vec<Vec<char>>)
    requires
        comps@.len() >= 1,
    ensures
        final(graph)@.id == old(graph)@.id,
        final(graph)@.attrs == old(graph)@.attrs,
        final(graph)@.subgraphs == old(graph)@.subgraphs,
        ({
            let st = add_components(
                PathState { nodes: old(graph)@.nodes, edges: old(graph)@.edges },
                None,
                comps@.map_values(|c: Vec<char>| c@),
            );
            final(graph)@.nodes == st.nodes && final(graph)@.edges == st.edges
        }),
{
    let ghost cs = comps@.map_values(|c: Vec<char>| c@);
    let ghost goal = add_components(
        PathState { nodes: graph@.nodes, edges: graph@.edges },
        None,
        cs,
    );
    let ghost g0 = graph@;
    let mut current = String::new();
    let mut j: usize = 0;
    assert(cs.skip(0) =~= cs);
    while j < comps.len()
        invariant
            j <= comps@.len(),
            cs == comps@.map_values(|c: Vec<char>| c@),
            graph@.id == g0.id,
            graph@.attrs == g0.attrs,
            graph@.subgraphs == g0.subgraphs,
            j == 0 ==> current@ == Seq::<char>::empty(),
            goal == add_components(
                PathState { nodes: graph@.nodes, edges: graph@.edges },
                if j == 0 {
                    None
                } else {
                    Some(current@)
                },
                cs.skip(j as int),
            ),
        decreases comps@.len() - j,
    {
        let ghost st = PathState { nodes: graph@.nodes, edges: graph@.edges };
        let ghost prev = if j == 0 {
            None
        } else {
            Some(current@)
        };
        assert(cs.skip(j as int)[0] == comps@[j as int]@);
        assert(cs.skip(j as int).drop_first() =~= cs.skip(j + 1));
        let parent = current.clone();
        if j > 0 {
            crate::text::push_char(&mut current, '/');
        }
        push_chars(&mut current, comps[j].as_slice());
        let ghost cur = current@;
        assert(cur =~= match prev {
            Some(p) => p + seq!['/'] + cs.skip(j as int)[0],
            None => cs.skip(j as int)[0],
        });
        if !node_map_contains_key(&graph.nodes, current.as_str()) {
            proof {
                crate::graph::lemma_node_views_keys(node_entries(graph.nodes));
            }
            let n = NodeInfo { label: string_from(comps[j].as_slice()), node_type: None, attrs: str_map_new() };
            proof {
                lemma_node_views_insert(node_entries(graph.nodes), current@, n);
            }
            node_map_insert(&mut graph.nodes, current.clone(), n);
            if j > 0 {
                let e = Edge { from: parent, to: current.clone(), label: None, attrs: str_map_new() };
                let ghost old_edges = graph.edges@;
                graph.edges.push(e);
                assert(edge_views(graph.edges@) =~= edge_views(old_edges).push(e@));
            }
        } else {
            proof {
                crate::graph::lemma_node_views_keys(node_entries(graph.nodes));
            }
        }
        j = j + 1;
    }
}

/// Parse a path list (one path per line). Never fails.
pub fn parse(input: &str) -> (r: Result<DepGraph, ParseError>)
    ensures
        r matches Ok(g) && g@ == pathlist_spec(input@),
{
    let chars = chars_of(input);
    let ls = lines_of(chars.as_slice());
    let mut graph = DepGraph::default();
    let ghost all = lines(input@);
    let ghost init = PathState { nodes: Seq::empty(), edges: Seq::empty() };
    let mut i: usize = 0;
    assert(all.skip(0) =~= all);
    while i < ls.len()
        invariant
            i <= ls.len(),
            views_eq(ls@, all),
            all == lines(input@),
            init == (PathState { nodes: Seq::empty(), edges: Seq::empty() }),
            graph@.id is None,
            graph@.attrs == Seq::<(Seq<char>, Seq<char>)>::empty(),
            graph@.subgraphs =~= Seq::<GraphView>::empty(),
            pathlist_run(init, all) == pathlist_run(
                PathState { nodes: graph@.nodes, edges: graph@.edges },
                all.skip(i as int),
            ),
        decreases ls.len() - i,
    {
        let ghost rest = all.skip(i as int);
        assert(rest[0] == all[i as int]);
        assert(rest.drop_first() =~= all.skip(i + 1));
        assert(ls@[i as int]@ == all[i as int]);
        let p = line_path(&ls[i]);
        if p.len() > 0 {
            let comps = split_on(p.as_slice(), '/');
            assert(comps@.map_values(|c: Vec<char>| c@) =~= split_char(p@, '/'));
            add_path(&mut graph, &comps);
        }
        i = i + 1;
    }
    Ok(graph)
}

} // verus!
