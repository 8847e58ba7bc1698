//! The whole computation: check both documents against their digests,
//! split them into lines, find a shortest edit script, build the records
//! and commit to them.
use vstd::prelude::*;
use vstd::utf8::encode_utf8;
use crate::script::{count_changes, is_edit_script, lines_view, Edit};
use crate::myers::{myers_diff, MAX_TOTAL_LINES};
use crate::records::{create_diff_lines, lemma_script_in_bounds, records_of, records_view, DiffLine, DiffLineView, RedactionRange};
use crate::commitment::{commitment_bytes, create_proof_hash, hash_content, same_digest, sha256_of};

verus! {

/// The lines of a text.
pub uninterp spec fn lines_of(s: Seq<char>) -> Seq<Seq<char>>;

/// Relies on str::lines: the lines of `s`, split at each line feed with a
/// carriage return before it dropped and no empty line after a final line
/// feed, which depend on `s` alone; an empty text has no lines.
#[verifier::external_body]
fn split_lines(s: &str) -> (r: Vec<String>)
    ensures
        lines_view(r@) == lines_of(s@),
        s@.len() == 0 ==> r@.len() == 0,
{
    s.lines().map(|l| l.to_string()).collect()
}

/// The line sequence of a document.
pub fn split_document(content: &str) -> (r: Vec<String>)
    ensures
        lines_view(r@) == lines_of(content@),
        content@.len() == 0 ==> r@.len() == 0,
{
    split_lines(content)
}

/// Why a diff could not be produced.
#[derive(Clone, Copy, Debug, PartialEq, Eq, Structural)]
pub enum DiffError {
    /// A document's content does not match the digest given for it.
    InputIntegrity,
    /// The two documents together hold more lines than allowed.
    ResourceLimit,
}

/// Two documents with their claimed digests, and the redaction ranges.
#[derive(Debug)]
pub struct DiffInput {
    pub file_a_hash: [u8; 32],
    pub file_b_hash: [u8; 32],
    pub file_a_content: String,
    pub file_b_content: String,
    pub redaction_ranges: Vec<RedactionRange>,
}

/// The input digests, the records and the commitment digest over them.
#[derive(Debug)]
pub struct DiffOutput {
    pub file_a_hash: [u8; 32],
    pub file_b_hash: [u8; 32],
    pub diff_lines: Vec<DiffLine>,
    pub proof_hash: [u8; 32],
}

/// `edits` is an edit script turning `a` into `b` with as few inserts and
/// deletes as any other.
pub open spec fn is_shortest_script(edits: Seq<Edit>, a: Seq<Seq<char>>, b: Seq<Seq<char>>) -> bool {
    &&& is_edit_script(edits, a, b)
    &&& forall|other: Seq<Edit>| #[trigger] is_edit_script(other, a, b) ==> count_changes(edits) <= count_changes(other)
}

/// `records` are the records of a shortest edit script turning `a` into
/// `b`.
pub open spec fn is_diff_of(records: Seq<DiffLineView>, a: Seq<Seq<char>>, b: Seq<Seq<char>>, ranges: Seq<RedactionRange>) -> bool {
    exists|edits: Seq<Edit>| #[trigger] is_shortest_script(edits, a, b) && records == records_of(edits, a, b, ranges)
}

/// Both documents of `input` match their digests.
pub open spec fn digests_match(input: DiffInput) -> bool {
    &&& sha256_of(encode_utf8(input.file_a_content@)) == input.file_a_hash@
    &&& sha256_of(encode_utf8(input.file_b_content@)) == input.file_b_hash@
}

/// The two documents of `input` together hold more than `limit` lines, or
/// more than the search accepts at all.
pub open spec fn over_limit(input: DiffInput, limit: usize) -> bool {
    let total = lines_of(input.file_a_content@).len() + lines_of(input.file_b_content@).len();
    total > limit || total > MAX_TOTAL_LINES
}

/// The diff of `input`: fails with `InputIntegrity` exactly when a content
/// does not match its digest, else with `ResourceLimit` exactly when the
/// documents hold too many lines together; otherwise the output carries
/// both digests, the records of a shortest edit script over the lines of
/// both documents, and the commitment digest over them.
pub fn compute_diff(input: &DiffInput, max_total_lines: usize) -> (r: Result<DiffOutput, DiffError>)
    ensures
        r == Err::<DiffOutput, DiffError>(DiffError::InputIntegrity) <==> !digests_match(*input),
        r == Err::<DiffOutput, DiffError>(DiffError::ResourceLimit) <==> digests_match(*input) && over_limit(*input, max_total_lines),
        r.is_ok() <==> digests_match(*input) && !over_limit(*input, max_total_lines),
        r matches Ok(out) ==> {
            &&& out.file_a_hash@ == input.file_a_hash@
            &&& out.file_b_hash@ == input.file_b_hash@
            &&& is_diff_of(records_view(out.diff_lines@), lines_of(input.file_a_content@),
                lines_of(input.file_b_content@), input.redaction_ranges@)
            &&& out.proof_hash@ == sha256_of(commitment_bytes(input.file_a_hash@, input.file_b_hash@, records_view(out.diff_lines@)))
        },
{
    let computed_a = hash_content(input.file_a_content.as_str());
    let computed_b = hash_content(input.file_b_content.as_str());
    if !same_digest(&input.file_a_hash, &computed_a) || !same_digest(&input.file_b_hash, &computed_b) {
        return Err(DiffError::InputIntegrity);
    }
    let lines_a = split_document(input.file_a_content.as_str());
    let lines_b = split_document(input.file_b_content.as_str());
    proof {
        assert(lines_a@.len() == lines_of(input.file_a_content@).len());
        assert(lines_b@.len() == lines_of(input.file_b_content@).len());
    }
    if lines_a.len() > max_total_lines || lines_b.len() > max_total_lines - lines_a.len()
        || lines_a.len() > MAX_TOTAL_LINES || lines_b.len() > MAX_TOTAL_LINES - lines_a.len() {
        return Err(DiffError::ResourceLimit);
    }
    let edits = myers_diff(lines_a.as_slice(), lines_b.as_slice());
    proof {
        lemma_script_in_bounds(edits@, lines_view(lines_a@), lines_view(lines_b@));
    }
    let diff_lines = create_diff_lines(edits.as_slice(), lines_a.as_slice(), lines_b.as_slice(),
        input.redaction_ranges.as_slice());
    let proof_hash = create_proof_hash(input, diff_lines.as_slice());
    proof {
        assert(is_shortest_script(edits@, lines_view(lines_a@), lines_view(lines_b@)));
    }
    Ok(DiffOutput {
        file_a_hash: input.file_a_hash,
        file_b_hash: input.file_b_hash,
        diff_lines,
        proof_hash,
    })
}

} // verus!
