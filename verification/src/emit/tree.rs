//! The box-drawing tree emitter (the output of the `tree` command).
use vstd::prelude::*;

use super::walk::{visit_views, walk, walk_spec, VisitContext, VisitStatus, VisitV};
use crate::graph::DepGraph;
use crate::text::{push_char, push_chars, push_str};

verus! {

/// The continuation column drawn for an ancestor: blank after a last sibling,
/// a vertical bar otherwise.
pub open spec fn column(ancestor_is_last: bool) -> Seq<char> {
    if ancestor_is_last {
        seq![' ', ' ', ' ', ' ']
    } else {
        seq!['\u{2502}', ' ', ' ', ' ']
    }
}

/// The continuation columns for a stack of ancestors.
pub open spec fn columns(stack: Seq<bool>) -> Seq<char>
    decreases stack.len(),
{
    if stack.len() == 0 {
        seq![]
    } else {
        columns(stack.drop_last()) + column(stack.last())
    }
}

/// The branch drawn before a node: a corner for the last sibling, a tee otherwise.
pub open spec fn branch(is_last: bool) -> Seq<char> {
    if is_last {
        seq!['\u{2514}', '\u{2500}', '\u{2500}', ' ']
    } else {
        seq!['\u{251c}', '\u{2500}', '\u{2500}', ' ']
    }
}

/// The marker after a node whose subtree is not shown here.
pub open spec fn tree_marker(v: VisitV) -> Seq<char> {
    match v.status {
        VisitStatus::AlreadyExpanded => if v.child_count > 0 {
            seq![' ', '(', '*', ')']
        } else {
            seq![]
        },
        VisitStatus::Cycle => seq![' ', '(', 'c', 'y', 'c', 'l', 'e', ')'],
        VisitStatus::First => seq![],
    }
}

/// The ancestors kept for a visit at depth `depth`: those of depths 1 to `depth - 1`.
pub open spec fn kept(stack: Seq<bool>, depth: nat) -> Seq<bool> {
    let n = if depth >= 1 { (depth - 1) as nat } else { 0nat };
    if n < stack.len() {
        stack.take(n as int)
    } else {
        stack
    }
}

/// The line of one visit, and the ancestor stack after it.
pub open spec fn tree_line(v: VisitV, stack: Seq<bool>) -> (Seq<char>, Seq<bool>) {
    let st = kept(stack, v.depth);
    let prefix = if v.depth > 0 {
        columns(st) + branch(v.is_last)
    } else {
        seq![]
    };
    (prefix + v.info.label + tree_marker(v) + seq!['\n'], st.push(v.is_last))
}

/// The text of a sequence of visits, and the ancestor stack after them.
pub open spec fn tree_fold(vs: Seq<VisitV>) -> (Seq<char>, Seq<bool>)
    decreases vs.len(),
{
    if vs.len() == 0 {
        (seq![], seq![])
    } else {
        let (text, stack) = tree_fold(vs.drop_last());
        let (line, next) = tree_line(vs.last(), stack);
        (text + line, next)
    }
}

/// The tree text of `g`.
pub open spec fn tree_spec(g: crate::graph::GraphView) -> Seq<char> {
    tree_fold(walk_spec(g)).0
}

/// Appends the continuation columns of `stack`.
fn push_columns(out: &mut String, stack: &Vec<bool>)
    ensures
        final(out)@ == old(out)@ + columns(stack@),
{
    let mut i: usize = 0;
    while i < stack.len()
        invariant
            i <= stack@.len(),
            out@ == old(out)@ + columns(stack@.take(i as int)),
        decreases stack@.len() - i,
    {
        assert(stack@.take(i + 1).drop_last() =~= stack@.take(i as int));
        if stack[i] {
            push_chars(out, &[' ', ' ', ' ', ' ']);
        } else {
            push_chars(out, &['\u{2502}', ' ', ' ', ' ']);
        }
        i = i + 1;
        assert(out@ =~= old(out)@ + columns(stack@.take(i as int)));
    }
    assert(stack@.take(stack@.len() as int) =~= stack@);
}

/// Appends the line of one visit and moves the ancestor stack past it.
fn push_tree_line(out: &mut String, stack: &mut Vec<bool>, v: &VisitContext)
    ensures
        final(out)@ == old(out)@ + tree_line(v@, old(stack)@).0,
        final(stack)@ == tree_line(v@, old(stack)@).1,
{
    let keep: usize = if v.depth >= 1 { v.depth - 1 } else { 0 };
    stack.truncate(keep);
    assert(stack@ == kept(old(stack)@, v@.depth)) by {
        if keep <= old(stack)@.len() {
            assert(old(stack)@.subrange(0, keep as int) =~= old(stack)@.take(keep as int));
        }
    }
    let ghost start = out@;
    if v.depth > 0 {
        push_columns(out, stack);
        if v.is_last {
            push_chars(out, &['\u{2514}', '\u{2500}', '\u{2500}', ' ']);
        } else {
            push_chars(out, &['\u{251c}', '\u{2500}', '\u{2500}', ' ']);
        }
    }
    let ghost with_prefix = out@;
    push_str(out, v.info.label.as_str());
    match v.status {
        VisitStatus::AlreadyExpanded => {
            if v.child_count > 0 {
                push_chars(out, &[' ', '(', '*', ')']);
            }
        },
        VisitStatus::Cycle => {
            push_chars(out, &[' ', '(', 'c', 'y', 'c', 'l', 'e', ')']);
        },
        VisitStatus::First => {},
    }
    push_char(out, '\n');
    assert(out@ =~= start + tree_line(v@, old(stack)@).0);
    stack.push(v.is_last);
}

/// The text of a sequence of visits.
fn tree_text(visits: &Vec<VisitContext>) -> (r: String)
    ensures
        r@ == tree_fold(visit_views(visits@)).0,
{
    let ghost vs = visit_views(visits@);
    let mut out = String::new();
    let mut stack: Vec<bool> = Vec::new();
    let mut i: usize = 0;
    assert(vs.take(0) =~= Seq::<VisitV>::empty());
    while i < visits.len()
        invariant
            i <= visits@.len() == vs.len(),
            vs == visit_views(visits@),
            (out@, stack@) == tree_fold(vs.take(i as int)),
        decreases visits@.len() - i,
    {
        assert(vs.take(i + 1).drop_last() =~= vs.take(i as int));
        assert(vs.take(i + 1).last() == visits@[i as int]@);
        push_tree_line(&mut out, &mut stack, &visits[i]);
        i = i + 1;
    }
    assert(vs.take(visits@.len() as int) =~= vs);
    out
}

/// The graph as a box-drawing tree, as the `tree` command prints one.
///
/// Each visit of [`walk`] is a line: roots at the left margin, children
/// indented with branch characters, one line per visit. A node reached again
/// whose children were expanded elsewhere is marked ` (*)`; a node reached by
/// a back edge is marked ` (cycle)`; an already expanded node without
/// children carries no marker. Node labels are kept; attributes, edge labels
/// and the subgraph structure are dropped.
pub fn emit(graph: &DepGraph) -> (r: String)
    ensures
        r@ == tree_spec(graph@),
{
    let visits = walk(graph);
    tree_text(&visits)
}

} // verus!
