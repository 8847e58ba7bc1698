//! Output records of a diff: one per inserted or deleted line, with the
//! line's content or, where a redaction range covers it, only its length.
use vstd::prelude::*;
use vstd::utf8::encode_utf8;
use crate::script::{lines_view, path_from, next_x, next_y, is_edit_script, Edit, EditOp};

verus! {

/// The operation of an output record, or the operations a redaction range
/// applies to (`Replace` standing for both).
#[derive(Clone, Copy, Debug, PartialEq, Eq, Structural)]
pub enum DiffOperation {
    Insert,
    Delete,
    Replace,
}

/// Lines `start_line..end_line` (1-based start, exclusive end) whose
/// content is hidden for the given operation.
#[derive(Clone, Copy, Debug)]
pub struct RedactionRange {
    pub start_line: usize,
    pub end_line: usize,
    pub operation: DiffOperation,
}

/// One output record. A delete fills `line_number_a`, an insert
/// `line_number_b` (both 1-based); exactly one of `content` and
/// `redacted_length` is present.
#[derive(Debug)]
pub struct DiffLine {
    pub line_number_a: Option<usize>,
    pub line_number_b: Option<usize>,
    pub operation: DiffOperation,
    pub content: Option<String>,
    pub redacted_length: Option<usize>,
}

/// The mathematical value of a record.
pub struct DiffLineView {
    pub line_number_a: Option<usize>,
    pub line_number_b: Option<usize>,
    pub operation: DiffOperation,
    pub content: Option<Seq<char>>,
    pub redacted_length: Option<usize>,
}

impl View for DiffLine {
    type V = DiffLineView;

    open spec fn view(&self) -> DiffLineView {
        DiffLineView {
            line_number_a: self.line_number_a,
            line_number_b: self.line_number_b,
            operation: self.operation,
            content: match self.content {
                Some(c) => Some(c@),
                None => None,
            },
            redacted_length: self.redacted_length,
        }
    }
}

/// The values of a sequence of records.
pub open spec fn records_view(s: Seq<DiffLine>) -> Seq<DiffLineView> {
    s.map_values(|r: DiffLine| r@)
}

/// Length of a line in bytes, UTF-8 encoded.
pub open spec fn byte_len(s: Seq<char>) -> nat {
    encode_utf8(s).len()
}

/// `range` covers 0-based line `line` for operation `op`.
pub open spec fn range_applies(range: RedactionRange, op: DiffOperation, line: int) -> bool {
    &&& (range.operation == op || range.operation == DiffOperation::Replace)
    &&& line >= if range.start_line == 0 { 0 } else { range.start_line - 1 }
    &&& line < range.end_line
}

/// Some range of `ranges` covers 0-based line `line` for `op`.
pub open spec fn is_redacted(ranges: Seq<RedactionRange>, op: DiffOperation, line: int) -> bool {
    exists|j: int| 0 <= j < ranges.len() && #[trigger] range_applies(ranges[j], op, line)
}

/// The record for line `line` of operation `op`, shown or redacted.
pub open spec fn record_of_line(op: DiffOperation, index: int, line: Seq<char>, ranges: Seq<RedactionRange>) -> DiffLineView {
    let hidden = is_redacted(ranges, op, index);
    DiffLineView {
        line_number_a: if op == DiffOperation::Delete { Some((index + 1) as usize) } else { None },
        line_number_b: if op == DiffOperation::Delete { None } else { Some((index + 1) as usize) },
        operation: op,
        content: if hidden { None } else { Some(line) },
        redacted_length: if hidden { Some(byte_len(line) as usize) } else { None },
    }
}

/// The records for `edits`: one for each insert or delete, in order.
pub open spec fn records_of(edits: Seq<Edit>, a: Seq<Seq<char>>, b: Seq<Seq<char>>, ranges: Seq<RedactionRange>) -> Seq<DiffLineView>
    decreases edits.len(),
{
    if edits.len() == 0 {
        Seq::empty()
    } else {
        let prev = records_of(edits.drop_last(), a, b, ranges);
        let e = edits.last();
        match e.operation {
            EditOp::Keep => prev,
            EditOp::Delete => prev.push(record_of_line(DiffOperation::Delete, e.old_index as int, a[e.old_index as int], ranges)),
            EditOp::Insert => prev.push(record_of_line(DiffOperation::Insert, e.new_index as int, b[e.new_index as int], ranges)),
        }
    }
}

/// Every delete of `edits` names a line of `a`, every insert a line of `b`.
pub open spec fn edits_in_bounds(edits: Seq<Edit>, n: int, m: int) -> bool {
    forall|i: int| 0 <= i < edits.len() ==> match (#[trigger] edits[i]).operation {
        EditOp::Delete => edits[i].old_index < n,
        EditOp::Insert => edits[i].new_index < m,
        EditOp::Keep => true,
    }
}

/// Whether 0-based line `line_number` is redacted for `operation`.
pub fn should_redact_line(line_number: usize, operation: &DiffOperation, redaction_ranges: &[RedactionRange]) -> (r: bool)
    ensures
        r == is_redacted(redaction_ranges@, *operation, line_number as int),
{
    let mut i: usize = 0;
    while i < redaction_ranges.len()
        invariant
            i <= redaction_ranges@.len(),
            forall|j: int| 0 <= j < i ==> !range_applies(#[trigger] redaction_ranges@[j], *operation, line_number as int),
        decreases redaction_ranges@.len() - i,
    {
        let range = &redaction_ranges[i];
        let low = range.start_line.saturating_sub(1);
        if (range.operation == *operation || range.operation == DiffOperation::Replace) && line_number >= low
            && line_number < range.end_line {
            assert(range_applies(redaction_ranges@[i as int], *operation, line_number as int));
            return true;
        }
        i += 1;
    }
    false
}

/// The record of one line, with the redaction rule applied.
fn make_record(op: DiffOperation, index: usize, line: &String, redaction_ranges: &[RedactionRange]) -> (r: DiffLine)
    requires
        op != DiffOperation::Replace,
        index < usize::MAX,
    ensures
        r@ == record_of_line(op, index as int, line@, redaction_ranges@),
{
    let hidden = should_redact_line(index, &op, redaction_ranges);
    let number = Some(index + 1);
    let is_delete = op == DiffOperation::Delete;
    DiffLine {
        line_number_a: if is_delete { number } else { None },
        line_number_b: if is_delete { None } else { number },
        operation: op,
        content: if hidden { None } else { Some(line.clone()) },
        redacted_length: if hidden { Some(line.as_str().len()) } else { None },
    }
}

/// The output records of `edits` over `lines_a` and `lines_b`: one per
/// insert or delete, in order, none for kept lines.
pub fn create_diff_lines(
    edits: &[Edit],
    lines_a: &[String],
    lines_b: &[String],
    redaction_ranges: &[RedactionRange],
) -> (diff_lines: Vec<DiffLine>)
    requires
        edits_in_bounds(edits@, lines_a@.len() as int, lines_b@.len() as int),
    ensures
        records_view(diff_lines@) == records_of(edits@, lines_view(lines_a@), lines_view(lines_b@), redaction_ranges@),
{
    let ghost la = lines_view(lines_a@);
    let ghost lb = lines_view(lines_b@);
    let mut diff_lines: Vec<DiffLine> = Vec::new();
    let mut i: usize = 0;
    while i < edits.len()
        invariant
            i <= edits@.len(),
            edits_in_bounds(edits@, lines_a@.len() as int, lines_b@.len() as int),
            la == lines_view(lines_a@),
            lb == lines_view(lines_b@),
            records_view(diff_lines@) == records_of(edits@.subrange(0, i as int), la, lb, redaction_ranges@),
        decreases edits@.len() - i,
    {
        let edit = edits[i];
        proof {
            assert(edits@.subrange(0, i + 1).drop_last() =~= edits@.subrange(0, i as int));
            assert(edits@.subrange(0, i + 1).last() == edit);
        }
        match edit.operation {
            EditOp::Keep => {},
            EditOp::Delete => {
                let r = make_record(DiffOperation::Delete, edit.old_index, &lines_a[edit.old_index], redaction_ranges);
                proof {
                    assert(records_view(diff_lines@.push(r)) =~= records_view(diff_lines@).push(r@));
                }
                diff_lines.push(r);
            },
            EditOp::Insert => {
                let r = make_record(DiffOperation::Insert, edit.new_index, &lines_b[edit.new_index], redaction_ranges);
                proof {
                    assert(records_view(diff_lines@.push(r)) =~= records_view(diff_lines@).push(r@));
                }
                diff_lines.push(r);
            },
        }
        i += 1;
    }
    assert(edits@.subrange(0, edits@.len() as int) =~= edits@);
    diff_lines
}

/// The line of `a` or `b` that record `r` stands for.
pub open spec fn source_line(r: DiffLineView, a: Seq<Seq<char>>, b: Seq<Seq<char>>) -> Seq<char> {
    if r.operation == DiffOperation::Delete {
        a[r.line_number_a.unwrap() - 1]
    } else {
        b[r.line_number_b.unwrap() - 1]
    }
}

/// `r` is a well-formed record of a line of `a` or `b`: a delete names a
/// line of `a` only, an insert a line of `b` only, and it either carries
/// that line's exact content or hides it behind its byte length.
pub open spec fn record_sound(r: DiffLineView, a: Seq<Seq<char>>, b: Seq<Seq<char>>) -> bool {
    &&& match r.operation {
        DiffOperation::Delete => r.line_number_b.is_none() && r.line_number_a.is_some()
            && 1 <= r.line_number_a.unwrap() <= a.len(),
        DiffOperation::Insert => r.line_number_a.is_none() && r.line_number_b.is_some()
            && 1 <= r.line_number_b.unwrap() <= b.len(),
        DiffOperation::Replace => false,
    }
    &&& {
        ||| r.content.is_none() && r.redacted_length == Some(byte_len(source_line(r, a, b)) as usize)
        ||| r.content == Some(source_line(r, a, b)) && r.redacted_length.is_none()
    }
}

/// Redaction is sound: every record hides a line only behind its true byte
/// length, and every record that shows a line shows it exactly.
pub proof fn lemma_redaction_sound(edits: Seq<Edit>, a: Seq<Seq<char>>, b: Seq<Seq<char>>, ranges: Seq<RedactionRange>)
    requires
        edits_in_bounds(edits, a.len() as int, b.len() as int),
        a.len() < usize::MAX,
        b.len() < usize::MAX,
    ensures
        forall|i: int| 0 <= i < records_of(edits, a, b, ranges).len() ==>
            record_sound(#[trigger] records_of(edits, a, b, ranges)[i], a, b),
    decreases edits.len(),
{
    if edits.len() > 0 {
        let prev = edits.drop_last();
        assert(edits_in_bounds(prev, a.len() as int, b.len() as int)) by {
            assert forall|i: int| 0 <= i < prev.len() implies match (#[trigger] prev[i]).operation {
                EditOp::Delete => prev[i].old_index < a.len(),
                EditOp::Insert => prev[i].new_index < b.len(),
                EditOp::Keep => true,
            } by {
                assert(prev[i] == edits[i]);
            }
        }
        lemma_redaction_sound(prev, a, b, ranges);
        let e = edits.last();
        assert(e == edits[edits.len() - 1]);
        let rs = records_of(edits, a, b, ranges);
        let ps = records_of(prev, a, b, ranges);
        assert forall|i: int| 0 <= i < rs.len() implies record_sound(#[trigger] rs[i], a, b) by {
            if i < ps.len() {
                assert(rs[i] == ps[i]);
            } else {
                match e.operation {
                    EditOp::Delete => {
                        let line = a[e.old_index as int];
                        assert(rs[i] == record_of_line(DiffOperation::Delete, e.old_index as int, line, ranges));
                        assert(source_line(rs[i], a, b) == line);
                    },
                    EditOp::Insert => {
                        let line = b[e.new_index as int];
                        assert(rs[i] == record_of_line(DiffOperation::Insert, e.new_index as int, line, ranges));
                        assert(source_line(rs[i], a, b) == line);
                    },
                    EditOp::Keep => {},
                }
            }
        }
    }
}

proof fn lemma_path_in_bounds(ops: Seq<Edit>, x: int, y: int, a: Seq<Seq<char>>, b: Seq<Seq<char>>)
    requires
        path_from(ops, x, y, a, b),
    ensures
        edits_in_bounds(ops, a.len() as int, b.len() as int),
    decreases ops.len(),
{
    if ops.len() > 0 {
        lemma_path_in_bounds(ops.drop_first(), next_x(ops[0]), next_y(ops[0]), a, b);
        assert forall|i: int| 0 <= i < ops.len() implies match (#[trigger] ops[i]).operation {
            EditOp::Delete => ops[i].old_index < a.len(),
            EditOp::Insert => ops[i].new_index < b.len(),
            EditOp::Keep => true,
        } by {
            if i > 0 {
                assert(ops[i] == ops.drop_first()[i - 1]);
            }
        }
    }
}

/// Every step of an edit script names a line that exists.
pub proof fn lemma_script_in_bounds(ops: Seq<Edit>, a: Seq<Seq<char>>, b: Seq<Seq<char>>)
    requires
        is_edit_script(ops, a, b),
    ensures
        edits_in_bounds(ops, a.len() as int, b.len() as int),
{
    lemma_path_in_bounds(ops, 0, 0, a, b);
}

} // verus!
