//! Edit operations over two line sequences and what it means for a list of
//! them to be an edit script.
use vstd::prelude::*;

verus! {

/// The kind of a single step through the edit graph.
#[derive(Clone, Copy, Debug, PartialEq, Eq)]
pub enum EditOp {
    Insert,
    Delete,
    Keep,
}

/// One step of an edit script: its kind, and the positions in the old and
/// the new sequence at which it is taken (0-based).
#[derive(Clone, Copy, Debug)]
pub struct Edit {
    pub operation: EditOp,
    pub old_index: usize,
    pub new_index: usize,
}

/// The lines of a sequence of strings, as character sequences.
pub open spec fn lines_view(s: Seq<String>) -> Seq<Seq<char>> {
    s.map_values(|l: String| l@)
}

/// Whether `e` is a legal step from position `(x, y)` of the edit graph of
/// `a` against `b`.
pub open spec fn step_ok(e: Edit, x: int, y: int, a: Seq<Seq<char>>, b: Seq<Seq<char>>) -> bool {
    &&& e.old_index == x
    &&& e.new_index == y
    &&& match e.operation {
        EditOp::Keep => x < a.len() && y < b.len() && a[x] == b[y],
        EditOp::Delete => x < a.len() && y <= b.len(),
        EditOp::Insert => x <= a.len() && y < b.len(),
    }
}

/// Old-sequence position after the step `e`.
pub open spec fn next_x(e: Edit) -> int {
    match e.operation {
        EditOp::Insert => e.old_index as int,
        _ => e.old_index + 1,
    }
}

/// New-sequence position after the step `e`.
pub open spec fn next_y(e: Edit) -> int {
    match e.operation {
        EditOp::Delete => e.new_index as int,
        _ => e.new_index + 1,
    }
}

/// `ops` is a walk through the edit graph from `(x, y)` to the far corner
/// `(a.len(), b.len())`.
pub open spec fn path_from(ops: Seq<Edit>, x: int, y: int, a: Seq<Seq<char>>, b: Seq<Seq<char>>) -> bool
    decreases ops.len(),
{
    if ops.len() == 0 {
        x == a.len() && y == b.len()
    } else {
        step_ok(ops[0], x, y, a, b) && path_from(ops.drop_first(), next_x(ops[0]), next_y(ops[0]), a, b)
    }
}

/// `ops` is an edit script turning `a` into `b`: it covers every position
/// of both sequences once, in order.
pub open spec fn is_edit_script(ops: Seq<Edit>, a: Seq<Seq<char>>, b: Seq<Seq<char>>) -> bool {
    path_from(ops, 0, 0, a, b)
}

/// The lines that result from running `ops` over `a`: kept lines of `a`
/// stay, deleted ones go, inserted lines are taken from `b`.
pub open spec fn apply_script(ops: Seq<Edit>, a: Seq<Seq<char>>, b: Seq<Seq<char>>) -> Seq<Seq<char>>
    decreases ops.len(),
{
    if ops.len() == 0 {
        Seq::empty()
    } else {
        let rest = apply_script(ops.drop_first(), a, b);
        match ops[0].operation {
            EditOp::Keep => seq![a[ops[0].old_index as int]] + rest,
            EditOp::Insert => seq![b[ops[0].new_index as int]] + rest,
            EditOp::Delete => rest,
        }
    }
}

/// Number of `Keep` steps in `ops`.
pub open spec fn count_keep(ops: Seq<Edit>) -> nat
    decreases ops.len(),
{
    if ops.len() == 0 {
        0
    } else {
        count_keep(ops.drop_first()) + if ops[0].operation == EditOp::Keep { 1nat } else { 0nat }
    }
}

/// Number of `Insert` and `Delete` steps in `ops`.
pub open spec fn count_changes(ops: Seq<Edit>) -> nat
    decreases ops.len(),
{
    if ops.len() == 0 {
        0
    } else {
        count_changes(ops.drop_first()) + if ops[0].operation == EditOp::Keep { 0nat } else { 1nat }
    }
}

proof fn lemma_path_applies(ops: Seq<Edit>, x: int, y: int, a: Seq<Seq<char>>, b: Seq<Seq<char>>)
    requires
        path_from(ops, x, y, a, b),
        0 <= y <= b.len(),
    ensures
        apply_script(ops, a, b) == b.subrange(y, b.len() as int),
        count_changes(ops) + 2 * count_keep(ops) == (a.len() - x) + (b.len() - y),
    decreases ops.len(),
{
    if ops.len() == 0 {
        assert(b.subrange(y, b.len() as int) =~= Seq::<Seq<char>>::empty());
    } else {
        let e = ops[0];
        lemma_path_applies(ops.drop_first(), next_x(e), next_y(e), a, b);
        match e.operation {
            EditOp::Keep => {
                assert(seq![b[y]] + b.subrange(y + 1, b.len() as int) =~= b.subrange(y, b.len() as int));
            },
            EditOp::Insert => {
                assert(seq![b[y]] + b.subrange(y + 1, b.len() as int) =~= b.subrange(y, b.len() as int));
            },
            EditOp::Delete => {},
        }
    }
}

/// Running an edit script of `a` against `b` over `a` gives exactly `b`.
pub proof fn lemma_script_reproduces_target(ops: Seq<Edit>, a: Seq<Seq<char>>, b: Seq<Seq<char>>)
    requires
        is_edit_script(ops, a, b),
    ensures
        apply_script(ops, a, b) == b,
{
    lemma_path_applies(ops, 0, 0, a, b);
    assert(b.subrange(0, b.len() as int) =~= b);
}

/// In an edit script the changed lines number `|a| + |b|` less twice the
/// kept ones.
pub proof fn lemma_script_change_count(ops: Seq<Edit>, a: Seq<Seq<char>>, b: Seq<Seq<char>>)
    requires
        is_edit_script(ops, a, b),
    ensures
        count_changes(ops) + 2 * count_keep(ops) == a.len() + b.len(),
{
    lemma_path_applies(ops, 0, 0, a, b);
}

/// `ops` is a walk through the edit graph from `(0, 0)` to `(x, y)`.
pub open spec fn path_to(ops: Seq<Edit>, x: int, y: int, a: Seq<Seq<char>>, b: Seq<Seq<char>>) -> bool
    decreases ops.len(),
{
    if ops.len() == 0 {
        x == 0 && y == 0
    } else {
        let e = ops.last();
        &&& next_x(e) == x
        &&& next_y(e) == y
        &&& step_ok(e, e.old_index as int, e.new_index as int, a, b)
        &&& path_to(ops.drop_last(), e.old_index as int, e.new_index as int, a, b)
    }
}

/// A walk to `(x, y)` followed by a walk from there to the far corner is
/// an edit script.
pub proof fn lemma_path_join(pre: Seq<Edit>, rest: Seq<Edit>, x: int, y: int, a: Seq<Seq<char>>, b: Seq<Seq<char>>)
    requires
        path_to(pre, x, y, a, b),
        path_from(rest, x, y, a, b),
    ensures
        path_from(pre + rest, 0, 0, a, b),
    decreases pre.len(),
{
    if pre.len() == 0 {
        assert(pre + rest =~= rest);
    } else {
        let e = pre.last();
        lemma_path_prepend(e, rest, e.old_index as int, e.new_index as int, a, b);
        lemma_path_join(pre.drop_last(), seq![e] + rest, e.old_index as int, e.new_index as int, a, b);
        assert(pre.drop_last() + (seq![e] + rest) =~= pre + rest);
    }
}

/// Appending a step adds one change exactly when the step is not `Keep`.
pub proof fn lemma_count_push(w: Seq<Edit>, e: Edit)
    ensures
        count_changes(w.push(e)) == count_changes(w) + if e.operation == EditOp::Keep { 0nat } else { 1nat },
    decreases w.len(),
{
    if w.len() > 0 {
        assert(w.push(e).drop_first() =~= w.drop_first().push(e));
        assert(w.push(e)[0] == w[0]);
        lemma_count_push(w.drop_first(), e);
    } else {
        assert(w.push(e).drop_first() =~= Seq::<Edit>::empty());
        assert(w.push(e)[0] == e);
        assert(count_changes(Seq::<Edit>::empty()) == 0);
    }
}

/// Prepending a legal step to a walk from the step's end gives a walk from
/// its start.
pub proof fn lemma_path_prepend(e: Edit, rest: Seq<Edit>, x: int, y: int, a: Seq<Seq<char>>, b: Seq<Seq<char>>)
    requires
        step_ok(e, x, y, a, b),
        path_from(rest, next_x(e), next_y(e), a, b),
    ensures
        path_from(seq![e] + rest, x, y, a, b),
        count_changes(seq![e] + rest) == count_changes(rest) + if e.operation == EditOp::Keep { 0nat } else { 1nat },
{
    let s = seq![e] + rest;
    assert(s.drop_first() =~= rest);
    assert(s[0] == e);
}

} // verus!
