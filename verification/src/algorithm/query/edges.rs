//! Options of the edge listing query.
use vstd::prelude::*;

use globset::GlobSet;

use super::OutputFields;
use crate::algorithm::{compiles, all_parse, build_globset, build_outcome, match_text, pattern_hit, set_hits, strs, MatchKey, PatternError};
use crate::glob::{any_matches, globset_patterns, set_is_match};
use crate::graph::{all_nodes_spec, collect_edges, edge_views, DepGraph, EdgeView, NodeView};
use crate::maps::{node_map_get, value_of};
use crate::text::seq_less;

verus! {

/// Sort order of the edge listing.
#[derive(Debug, Clone, Copy, PartialEq, Eq, Structural)]
pub enum EdgeSort {
    Unsorted,
    Source,
    Target,
}

impl Default for EdgeSort {
    fn default() -> (r: EdgeSort)
        ensures
            r == EdgeSort::Unsorted,
    {
        EdgeSort::Unsorted
    }
}

/// Options of the edge listing.
#[derive(Clone, Debug)]
pub struct EdgesArgs {
    pub included: Vec<String>,
    pub exclude: Vec<String>,
    pub and: bool,
    pub key: MatchKey,
    pub sort: EdgeSort,
    pub reverse: bool,
    pub limit: Option<usize>,
    pub format: OutputFields,
}

impl Default for EdgesArgs {
    fn default() -> (r: EdgesArgs)
        ensures
            r.included@.len() == 0 && r.exclude@.len() == 0,
            !r.and && !r.reverse,
            r.key == MatchKey::Label,
            r.sort == EdgeSort::Unsorted,
            r.limit is None,
            r.format == OutputFields::Label,
    {
        EdgesArgs {
            included: Vec::new(),
            exclude: Vec::new(),
            and: false,
            key: MatchKey::Label,
            sort: EdgeSort::Unsorted,
            reverse: false,
            limit: None,
            format: OutputFields::Label,
        }
    }
}

/// One listed edge: source and target shown by id or label, and the edge label.
pub type EdgeRow = (Seq<char>, Seq<char>, Option<Seq<char>>);

pub open spec fn shown(id: Seq<char>, n: NodeView, format: OutputFields) -> Seq<char> {
    match format {
        OutputFields::Id => id,
        OutputFields::Label => n.label,
    }
}

/// Whether edge `e` is listed: both endpoints are nodes, an include pattern
/// selects one of them (when there are include patterns), and no exclude
/// pattern matches either.
pub open spec fn edge_listed(nodes: Seq<(Seq<char>, NodeView)>, e: EdgeView, args: EdgesArgs) -> bool {
    let inc = strs(args.included@);
    let exc = strs(args.exclude@);
    match (value_of(nodes, e.from), value_of(nodes, e.to)) {
        (Some(f), Some(t)) => {
            let ft = match_text(e.from, f, args.key);
            let tt = match_text(e.to, t, args.key);
            &&& (inc.len() == 0 || pattern_hit(inc, ft, args.and) || pattern_hit(inc, tt, args.and))
            &&& !(exc.len() > 0 && (any_matches(exc, ft) || any_matches(exc, tt)))
        },
        _ => false,
    }
}

/// The listed edges of `es`, in order.
pub open spec fn edge_rows(nodes: Seq<(Seq<char>, NodeView)>, es: Seq<EdgeView>, args: EdgesArgs) -> Seq<EdgeRow>
    decreases es.len(),
{
    if es.len() == 0 {
        seq![]
    } else {
        let rest = edge_rows(nodes, es.drop_last(), args);
        let e = es.last();
        if edge_listed(nodes, e, args) {
            rest.push((
                shown(e.from, value_of(nodes, e.from)->0, args.format),
                shown(e.to, value_of(nodes, e.to)->0, args.format),
                e.label,
            ))
        } else {
            rest
        }
    }
}

/// The order of `sort`: by source then target, or by target then source.
pub open spec fn row_before(sort: EdgeSort, a: EdgeRow, b: EdgeRow) -> bool {
    match sort {
        EdgeSort::Source => seq_less(a.0, b.0) || (a.0 == b.0 && seq_less(a.1, b.1)),
        EdgeSort::Target => seq_less(a.1, b.1) || (a.1 == b.1 && seq_less(a.0, b.0)),
        EdgeSort::Unsorted => false,
    }
}

/// `x` inserted after every row not after it.
pub open spec fn insert_row(s: Seq<EdgeRow>, x: EdgeRow, sort: EdgeSort) -> Seq<EdgeRow> {
    let pos = first_after(s, x, sort, 0);
    s.insert(pos, x)
}

/// The first position at or after `from` whose row comes after `x`, or the length.
pub open spec fn first_after(s: Seq<EdgeRow>, x: EdgeRow, sort: EdgeSort, from: int) -> int
    decreases s.len() - from,
{
    if from >= s.len() {
        s.len() as int
    } else if row_before(sort, x, s[from]) {
        from
    } else {
        first_after(s, x, sort, from + 1)
    }
}

/// The stable sort of `s` by `sort` (insertion sort).
pub open spec fn sort_rows(s: Seq<EdgeRow>, sort: EdgeSort) -> Seq<EdgeRow>
    decreases s.len(),
{
    if s.len() == 0 {
        seq![]
    } else {
        insert_row(sort_rows(s.drop_last(), sort), s.last(), sort)
    }
}

/// What `edges` returns for the listed rows: sorted, maybe reversed, maybe cut.
pub open spec fn finish_rows(rows: Seq<EdgeRow>, args: EdgesArgs) -> Seq<EdgeRow> {
    let sorted = if args.sort == EdgeSort::Unsorted { rows } else { sort_rows(rows, args.sort) };
    let ordered = if args.reverse { sorted.reverse() } else { sorted };
    match args.limit {
        Some(l) => if l < ordered.len() { ordered.take(l as int) } else { ordered },
        None => ordered,
    }
}

pub open spec fn row_views(v: Seq<(String, String, Option<String>)>) -> Seq<EdgeRow> {
    v.map_values(|r: (String, String, Option<String>)| (r.0@, r.1@, crate::graph::opt_str(r.2)))
}

fn row_less(sort: EdgeSort, a: &(String, String, Option<String>), b: &(String, String, Option<String>)) -> (r: bool)
    ensures
        r == row_before(sort, (a.0@, a.1@, crate::graph::opt_str(a.2)), (b.0@, b.1@, crate::graph::opt_str(b.2))),
{
    match sort {
        EdgeSort::Source => crate::text::str_less(a.0.as_str(), b.0.as_str())
            || (crate::text::str_eq(a.0.as_str(), b.0.as_str()) && crate::text::str_less(a.1.as_str(), b.1.as_str())),
        EdgeSort::Target => crate::text::str_less(a.1.as_str(), b.1.as_str())
            || (crate::text::str_eq(a.1.as_str(), b.1.as_str()) && crate::text::str_less(a.0.as_str(), b.0.as_str())),
        EdgeSort::Unsorted => false,
    }
}

fn sort_edge_rows(rows: Vec<(String, String, Option<String>)>, sort: EdgeSort) -> (r: Vec<(String, String, Option<String>)>)
    ensures
        row_views(r@) == sort_rows(row_views(rows@), sort),
{
    let ghost rv = row_views(rows@);
    let mut out: Vec<(String, String, Option<String>)> = Vec::new();
    let mut rows = rows;
    let mut i: usize = 0;
    assert(rv.take(0) =~= Seq::<EdgeRow>::empty());
    while i < rows.len()
        invariant
            i <= rows@.len(),
            rv == row_views(rows@),
            row_views(out@) == sort_rows(rv.take(i as int), sort),
        decreases rows@.len() - i,
    {
        let x = (rows[i].0.clone(), rows[i].1.clone(), match &rows[i].2 {
            Some(l) => Some(l.clone()),
            None => None,
        });
        assert((x.0@, x.1@, crate::graph::opt_str(x.2)) == rv[i as int]);
        let ghost sv = row_views(out@);
        let mut pos: usize = 0;
        while pos < out.len()
            invariant_except_break
                pos <= out@.len(),
                sv == row_views(out@),
                first_after(sv, rv[i as int], sort, 0) == first_after(sv, rv[i as int], sort, pos as int),
                (x.0@, x.1@, crate::graph::opt_str(x.2)) == rv[i as int],
            ensures
                pos <= out@.len(),
                sv == row_views(out@),
                first_after(sv, rv[i as int], sort, 0) == pos,
            decreases out@.len() - pos,
        {
            assert(sv[pos as int] == (out@[pos as int].0@, out@[pos as int].1@, crate::graph::opt_str(out@[pos as int].2)));
            if row_less(sort, &x, &out[pos]) {
                break;
            }
            pos = pos + 1;
        }
        out.insert(pos, x);
        assert(rv.take(i + 1).drop_last() =~= rv.take(i as int));
        assert(row_views(out@) =~= sv.insert(pos as int, rv[i as int]));
        i = i + 1;
    }
    assert(rv.take(rows@.len() as int) =~= rv);
    out
}

/// The edges of the graph (all levels) as (source, target, label) rows.
///
/// An edge is listed when both endpoints are nodes, an include pattern
/// selects its source or its target (all of them with `and`; any edge when
/// there is no include pattern), and no exclude pattern matches either
/// endpoint.  Endpoints are shown by id or label.  Rows are then sorted by
/// source or target (stably), reversed, and cut to `limit`.
pub fn edges(graph: &DepGraph, args: &EdgesArgs) -> (r: Result<Vec<(String, String, Option<String>)>, PatternError>)
    ensures
        match r {
            Err(e) => build_outcome(strs(args.included@), Err(e)) || (compiles(strs(args.included@))
                && build_outcome(strs(args.exclude@), Err(e))),
            Ok(rows) => all_parse(strs(args.included@)) && all_parse(strs(args.exclude@)) && row_views(rows@)
                == finish_rows(edge_rows(all_nodes_spec(graph@), collect_edges(graph@), *args), *args),
        },
        !(all_parse(strs(args.included@)) && all_parse(strs(args.exclude@))) ==> r is Err,
        compiles(strs(args.included@)) && compiles(strs(args.exclude@)) ==> r is Ok,
{
    let all_nodes = graph.all_nodes();
    let all_edges = graph.all_edges();
    let ghost nodes = all_nodes_spec(graph@);
    let include_set: Option<GlobSet> = if args.included.len() > 0 {
        match build_globset(&args.included) {
            Ok(s) => Some(s),
            Err(e) => return Err(e),
        }
    } else {
        None
    };
    let exclude_set: Option<GlobSet> = if args.exclude.len() > 0 {
        match build_globset(&args.exclude) {
            Ok(s) => Some(s),
            Err(e) => return Err(e),
        }
    } else {
        None
    };
    assert(args.included@.len() == 0 ==> strs(args.included@) =~= Seq::<Seq<char>>::empty());
    assert(args.exclude@.len() == 0 ==> strs(args.exclude@) =~= Seq::<Seq<char>>::empty());
    let ghost es = edge_views(all_edges@);
    let mut result: Vec<(String, String, Option<String>)> = Vec::new();
    let mut i: usize = 0;
    assert(es.take(0) =~= Seq::<EdgeView>::empty());
    while i < all_edges.len()
        invariant
            i <= all_edges@.len(),
            es == edge_views(all_edges@),
            nodes == all_nodes_spec(graph@),
            crate::graph::node_views(crate::maps::node_entries(all_nodes)) == nodes,
            include_set is None <==> args.included@.len() == 0,
            include_set matches Some(s) ==> globset_patterns(s) == strs(args.included@),
            exclude_set is None <==> args.exclude@.len() == 0,
            exclude_set matches Some(s) ==> globset_patterns(s) == strs(args.exclude@),
            row_views(result@) == edge_rows(nodes, es.take(i as int), *args),
        decreases all_edges@.len() - i,
    {
        let e = &all_edges[i];
        assert(es.take(i + 1).drop_last() =~= es.take(i as int));
        assert(es.take(i + 1).last() == e@);
        proof {
            crate::algorithm::diff::lemma_value_of_views_pub(crate::maps::node_entries(all_nodes), e.from@);
            crate::algorithm::diff::lemma_value_of_views_pub(crate::maps::node_entries(all_nodes), e.to@);
        }
        let fi = node_map_get(&all_nodes, e.from.as_str());
        let ti = node_map_get(&all_nodes, e.to.as_str());
        match (fi, ti) {
            (Some(f), Some(t)) => {
                let ft = match args.key {
                    MatchKey::Id => e.from.as_str(),
                    MatchKey::Label => f.label.as_str(),
                };
                let tt = match args.key {
                    MatchKey::Id => e.to.as_str(),
                    MatchKey::Label => t.label.as_str(),
                };
                let inc_ok = match &include_set {
                    Some(s) => set_hits(s, args.included.len(), ft, args.and) || set_hits(s, args.included.len(), tt, args.and),
                    None => true,
                };
                let exc_hit = match &exclude_set {
                    Some(s) => set_is_match(s, ft) || set_is_match(s, tt),
                    None => false,
                };
                if inc_ok && !exc_hit {
                    let sd = match args.format {
                        OutputFields::Id => e.from.clone(),
                        OutputFields::Label => f.label.clone(),
                    };
                    let td = match args.format {
                        OutputFields::Id => e.to.clone(),
                        OutputFields::Label => t.label.clone(),
                    };
                    let lbl = match &e.label {
                        Some(l) => Some(l.clone()),
                        None => None,
                    };
                    let ghost before = result@;
                    result.push((sd, td, lbl));
                    assert(row_views(result@) =~= row_views(before).push((sd@, td@, crate::graph::opt_str(lbl))));
                }
            },
            _ => {},
        }
        i = i + 1;
    }
    assert(es.take(all_edges@.len() as int) =~= es);
    let ghost rows = row_views(result@);
    let mut sorted = if args.sort == EdgeSort::Unsorted {
        result
    } else {
        sort_edge_rows(result, args.sort)
    };
    if args.reverse {
        let ghost before = row_views(sorted@);
        sorted = crate::algorithm::reversed(sorted);
        assert(row_views(sorted@) =~= before.reverse());
    }
    match args.limit {
        Some(l) => {
            if l < sorted.len() {
                let ghost before = row_views(sorted@);
                sorted.truncate(l);
                assert(row_views(sorted@) =~= before.take(l as int));
            }
        },
        None => {},
    }
    Ok(sorted)
}

} // verus!
