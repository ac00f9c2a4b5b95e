//! The pathlist emitter: one slash-joined path per leaf of the tree walk.
use vstd::prelude::*;

use super::walk::{visit_views, walk, walk_spec, VisitContext, VisitStatus, VisitV};
use crate::graph::DepGraph;
use crate::text::{join, push_char, push_chars, push_joined};

verus! {

/// The label stack after a visit: the labels of its ancestors, then its own.
pub open spec fn path_stack(v: VisitV, stack: Seq<Seq<char>>) -> Seq<Seq<char>> {
    let st = if v.depth < stack.len() {
        stack.take(v.depth as int)
    } else {
        stack
    };
    st.push(v.info.label)
}

/// The line of one visit: the path of a leaf; the path with a trailing `/`,
/// a tab and a marker for a node whose subtree is not shown here; nothing for
/// a node that is expanded here.
pub open spec fn path_line(v: VisitV, stack: Seq<Seq<char>>) -> Seq<char> {
    let p = join(path_stack(v, stack), seq!['/']);
    if v.child_count == 0 {
        p + seq!['\n']
    } else {
        match v.status {
            VisitStatus::AlreadyExpanded => p + seq!['/', '\t', '(', '*', ')', '\n'],
            VisitStatus::Cycle => p + seq!['/', '\t', '(', 'c', 'y', 'c', 'l', 'e', ')', '\n'],
            VisitStatus::First => seq![],
        }
    }
}

/// The text of a sequence of visits, and the label stack after them.
pub open spec fn path_fold(vs: Seq<VisitV>) -> (Seq<char>, Seq<Seq<char>>)
    decreases vs.len(),
{
    if vs.len() == 0 {
        (seq![], seq![])
    } else {
        let (text, stack) = path_fold(vs.drop_last());
        (text + path_line(vs.last(), stack), path_stack(vs.last(), stack))
    }
}

/// The pathlist text of `g`.
pub open spec fn pathlist_spec(g: crate::graph::GraphView) -> Seq<char> {
    path_fold(walk_spec(g)).0
}

/// Appends the line of one visit and moves the label stack past it.
fn push_path_line(out: &mut String, stack: &mut Vec<String>, v: &VisitContext)
    ensures
        final(out)@ == old(out)@ + path_line(v@, old(stack)@.map_values(|s: String| s@)),
        final(stack)@.map_values(|s: String| s@) == path_stack(v@, old(stack)@.map_values(|s: String| s@)),
{
    let ghost sv = old(stack)@.map_values(|s: String| s@);
    stack.truncate(v.depth);
    stack.push(v.info.label.clone());
    assert(stack@.map_values(|s: String| s@) =~= path_stack(v@, sv)) by {
        if (v.depth as int) < sv.len() {
            assert(old(stack)@.subrange(0, v.depth as int).map_values(|s: String| s@) =~= sv.take(v.depth as int));
        }
    }
    let ghost p = join(path_stack(v@, sv), seq!['/']);
    let ghost start = out@;
    let slash = ['/'];
    assert(slash@ =~= seq!['/']);
    if v.child_count == 0 {
        push_joined(out, stack, &slash);
                assert(out@ == start + p);
        push_char(out, '\n');
    } else {
        match v.status {
            VisitStatus::AlreadyExpanded => {
                push_joined(out, stack, &slash);
                assert(out@ == start + p);
                push_chars(out, &['/', '\t', '(', '*', ')', '\n']);
            },
            VisitStatus::Cycle => {
                push_joined(out, stack, &slash);
                assert(out@ == start + p);
                push_chars(out, &['/', '\t', '(', 'c', 'y', 'c', 'l', 'e', ')', '\n']);
            },
            VisitStatus::First => {},
        }
    }
    assert(out@ =~= start + path_line(v@, sv));
}

/// The text of a sequence of visits.
fn pathlist_text(visits: &Vec<VisitContext>) -> (r: String)
    ensures
        r@ == path_fold(visit_views(visits@)).0,
{
    let ghost vs = visit_views(visits@);
    let mut out = String::new();
    let mut stack: Vec<String> = Vec::new();
    let mut i: usize = 0;
    assert(vs.take(0) =~= Seq::<VisitV>::empty());
    assert(stack@.map_values(|s: String| s@) =~= Seq::<Seq<char>>::empty());
    while i < visits.len()
        invariant
            i <= visits@.len() == vs.len(),
            vs == visit_views(visits@),
            (out@, stack@.map_values(|s: String| s@)) == path_fold(vs.take(i as int)),
        decreases visits@.len() - i,
    {
        assert(vs.take(i + 1).drop_last() =~= vs.take(i as int));
        assert(vs.take(i + 1).last() == visits@[i as int]@);
        push_path_line(&mut out, &mut stack, &visits[i]);
        i = i + 1;
    }
    assert(vs.take(visits@.len() as int) =~= vs);
    out
}

/// The graph as a pathlist: one line per leaf of the tree walk.
///
/// A leaf's line joins the labels from its root down to it with `/`. Nodes
/// expanded here only give path prefixes. A node with children that is
/// reached again gets its path, a trailing `/`, a tab and `(*)`; one reached
/// by a back edge the same with `(cycle)`. Node labels are kept; everything
/// else is dropped.
pub fn emit(graph: &DepGraph) -> (r: String)
    ensures
        r@ == pathlist_spec(graph@),
{
    let visits = walk(graph);
    pathlist_text(&visits)
}

} // verus!
