use zkdiff::commitment::{commitment_preimage, create_proof_hash, hash_content, same_digest};
use zkdiff::diff::{compute_diff, split_document, DiffError, DiffInput, DiffOutput};
use zkdiff::myers::{backtrack, myers_diff, MAX_TOTAL_LINES};
use zkdiff::parse::{parse_redaction_ranges, split_fields};
use zkdiff::records::{create_diff_lines, should_redact_line, DiffLine, DiffOperation, RedactionRange};
use zkdiff::script::{Edit, EditOp};

fn input(a: &str, b: &str, redact: &str) -> DiffInput {
    DiffInput {
        file_a_hash: hash_content(a),
        file_b_hash: hash_content(b),
        file_a_content: a.to_string(),
        file_b_content: b.to_string(),
        redaction_ranges: parse_redaction_ranges(redact),
    }
}

fn run(a: &str, b: &str, redact: &str) -> DiffOutput {
    compute_diff(&input(a, b, redact), MAX_TOTAL_LINES).unwrap()
}

fn lines(v: &[&str]) -> Vec<String> {
    v.iter().map(|s| s.to_string()).collect()
}

fn apply(edits: &[Edit], a: &[String], b: &[String]) -> Vec<String> {
    let mut out = Vec::new();
    for e in edits {
        match e.operation {
            EditOp::Keep => out.push(a[e.old_index].clone()),
            EditOp::Insert => out.push(b[e.new_index].clone()),
            EditOp::Delete => {}
        }
    }
    out
}

fn changes(edits: &[Edit]) -> usize {
    edits.iter().filter(|e| e.operation != EditOp::Keep).count()
}

#[test]
fn example_one_records() {
    let out = run("one\ntwo\nthree", "one\nthree\nfour", "");
    assert_eq!(out.diff_lines.len(), 2);
    let d = &out.diff_lines[0];
    assert_eq!(d.operation, DiffOperation::Delete);
    assert_eq!(d.line_number_a, Some(2));
    assert_eq!(d.line_number_b, None);
    assert_eq!(d.content.as_deref(), Some("two"));
    assert_eq!(d.redacted_length, None);
    let i = &out.diff_lines[1];
    assert_eq!(i.operation, DiffOperation::Insert);
    assert_eq!(i.line_number_a, None);
    assert_eq!(i.line_number_b, Some(3));
    assert_eq!(i.content.as_deref(), Some("four"));
    assert_eq!(i.redacted_length, None);
}

#[test]
fn example_two_redaction() {
    let out = run("one\ntwo\nthree", "one\nthree\nfour", "delete:2-3");
    assert_eq!(out.diff_lines.len(), 2);
    let d = &out.diff_lines[0];
    assert_eq!(d.operation, DiffOperation::Delete);
    assert_eq!(d.line_number_a, Some(2));
    assert_eq!(d.content, None);
    assert_eq!(d.redacted_length, Some(3));
    let i = &out.diff_lines[1];
    assert_eq!(i.content.as_deref(), Some("four"));
    assert_eq!(i.redacted_length, None);
}

#[test]
fn example_three_empty_source() {
    let out = run("", "one\ntwo", "");
    assert_eq!(out.diff_lines.len(), 2);
    for (j, r) in out.diff_lines.iter().enumerate() {
        assert_eq!(r.operation, DiffOperation::Insert);
        assert_eq!(r.line_number_a, None);
        assert_eq!(r.line_number_b, Some(j + 1));
    }
    assert_eq!(out.diff_lines[0].content.as_deref(), Some("one"));
    assert_eq!(out.diff_lines[1].content.as_deref(), Some("two"));
}

#[test]
fn empty_target_deletes_everything() {
    let out = run("one\ntwo", "", "");
    assert_eq!(out.diff_lines.len(), 2);
    assert!(out.diff_lines.iter().all(|r| r.operation == DiffOperation::Delete && r.line_number_b.is_none()));
}

#[test]
fn identical_documents_give_no_records() {
    let out = run("a\nb\nc", "a\nb\nc", "");
    assert!(out.diff_lines.is_empty());
}

#[test]
fn both_empty_give_no_records() {
    let out = run("", "", "");
    assert!(out.diff_lines.is_empty());
    assert_eq!(out.file_a_hash, hash_content(""));
}

#[test]
fn integrity_error_on_digest_mismatch() {
    let mut inp = input("one", "two", "");
    inp.file_a_hash[0] ^= 1;
    assert_eq!(compute_diff(&inp, MAX_TOTAL_LINES).err(), Some(DiffError::InputIntegrity));
    let mut inp = input("one", "two", "");
    inp.file_b_hash = hash_content("three");
    assert_eq!(compute_diff(&inp, MAX_TOTAL_LINES).err(), Some(DiffError::InputIntegrity));
}

#[test]
fn resource_limit_error() {
    let inp = input("a\nb\nc", "d\ne", "");
    assert_eq!(compute_diff(&inp, 4).err(), Some(DiffError::ResourceLimit));
    assert!(compute_diff(&inp, 5).is_ok());
}

#[test]
fn output_is_deterministic() {
    let a = "x\ny\nz\nw\nq";
    let b = "y\nx\nz\nq\nr";
    let o1 = run(a, b, "i:1-3,d:4-9");
    let o2 = run(a, b, "i:1-3,d:4-9");
    assert_eq!(o1.proof_hash, o2.proof_hash);
    assert_eq!(format!("{:?}", o1.diff_lines), format!("{:?}", o2.diff_lines));
}

#[test]
fn commitment_changes_with_any_part() {
    let base = run("one\ntwo\nthree", "one\nthree\nfour", "");
    let inp = input("one\ntwo\nthree", "one\nthree\nfour", "");
    assert_eq!(create_proof_hash(&inp, &base.diff_lines), base.proof_hash);

    let mut changed = run("one\ntwo\nthree", "one\nthree\nfour", "");
    changed.diff_lines[1].content = Some("five".to_string());
    assert_ne!(create_proof_hash(&inp, &changed.diff_lines), base.proof_hash);

    let mut swapped = run("one\ntwo\nthree", "one\nthree\nfour", "");
    swapped.diff_lines.swap(0, 1);
    assert_ne!(create_proof_hash(&inp, &swapped.diff_lines), base.proof_hash);

    let mut other = input("one\ntwo\nthree", "one\nthree\nfour", "");
    other.file_a_hash[31] ^= 0x80;
    assert_ne!(create_proof_hash(&other, &base.diff_lines), base.proof_hash);

    let red = run("one\ntwo\nthree", "one\nthree\nfour", "d:2-3");
    let mut longer = run("one\ntwo\nthree", "one\nthree\nfour", "d:2-3");
    longer.diff_lines[0].redacted_length = Some(4);
    assert_ne!(create_proof_hash(&inp, &longer.diff_lines), red.proof_hash);
    assert_ne!(red.proof_hash, base.proof_hash);
}

#[test]
fn commitment_preimage_layout() {
    let a = [1u8; 32];
    let b = [2u8; 32];
    let recs = vec![
        DiffLine {
            line_number_a: Some(2),
            line_number_b: None,
            operation: DiffOperation::Delete,
            content: Some("ab".to_string()),
            redacted_length: None,
        },
        DiffLine {
            line_number_a: None,
            line_number_b: Some(258),
            operation: DiffOperation::Insert,
            content: None,
            redacted_length: Some(7),
        },
    ];
    let bytes = commitment_preimage(&a, &b, &recs);
    let mut expected: Vec<u8> = Vec::new();
    expected.extend_from_slice(&a);
    expected.extend_from_slice(&b);
    expected.push(2);
    expected.extend_from_slice(&2u64.to_le_bytes());
    expected.extend_from_slice(b"content:ab");
    expected.push(1);
    expected.extend_from_slice(&258u64.to_le_bytes());
    expected.extend_from_slice(b"redacted:");
    expected.extend_from_slice(&7u64.to_le_bytes());
    assert_eq!(bytes, expected);
}

#[test]
fn hash_content_is_sha256() {
    let empty = hash_content("");
    assert_eq!(empty[..4], [0xe3, 0xb0, 0xc4, 0x42]);
    assert_eq!(empty[28..], [0x78, 0x52, 0xb8, 0x55]);
    let abc = hash_content("abc");
    assert_eq!(abc[..4], [0xba, 0x78, 0x16, 0xbf]);
    assert_eq!(abc[28..], [0xf2, 0x00, 0x15, 0xad]);
    assert!(same_digest(&abc, &hash_content("abc")));
    assert!(!same_digest(&abc, &empty));
}

#[test]
fn split_document_lines() {
    assert_eq!(split_document("a\r\nb\n\nc\n"), lines(&["a", "b", "", "c"]));
    assert!(split_document("").is_empty());
}

#[test]
fn parse_long_and_short_names() {
    let r = parse_redaction_ranges("insert:1-2,d:3-4,replace:5-6,i:7-8,delete:9-10,r:11-12");
    let ops: Vec<DiffOperation> = r.iter().map(|x| x.operation).collect();
    assert_eq!(
        ops,
        vec![
            DiffOperation::Insert,
            DiffOperation::Delete,
            DiffOperation::Replace,
            DiffOperation::Insert,
            DiffOperation::Delete,
            DiffOperation::Replace
        ]
    );
    assert_eq!((r[0].start_line, r[0].end_line), (1, 2));
    assert_eq!((r[5].start_line, r[5].end_line), (11, 12));
}

#[test]
fn parse_skips_malformed_entries() {
    let r = parse_redaction_ranges("x:1-2,d:1,d:a-3,d:1-2-3,d:2-5:6,i:+4-99999999999999999999999,delete:2-3");
    assert_eq!(r.len(), 1);
    assert_eq!((r[0].start_line, r[0].end_line, r[0].operation), (2, 3, DiffOperation::Delete));
    assert!(parse_redaction_ranges("").is_empty());
    let p = parse_redaction_ranges("i:+4-7");
    assert_eq!((p[0].start_line, p[0].end_line), (4, 7));
}

#[test]
fn split_fields_keeps_empty_pieces() {
    let f = split_fields(b",a,,b", b',');
    assert_eq!(f, vec![vec![], vec![b'a'], vec![], vec![b'b']]);
}

#[test]
fn redaction_rule() {
    let ranges = vec![
        RedactionRange { start_line: 2, end_line: 4, operation: DiffOperation::Replace },
        RedactionRange { start_line: 0, end_line: 1, operation: DiffOperation::Insert },
    ];
    assert!(!should_redact_line(0, &DiffOperation::Delete, &ranges));
    assert!(should_redact_line(0, &DiffOperation::Insert, &ranges));
    assert!(should_redact_line(1, &DiffOperation::Delete, &ranges));
    assert!(should_redact_line(3, &DiffOperation::Insert, &ranges));
    assert!(!should_redact_line(4, &DiffOperation::Delete, &ranges));
}

#[test]
fn records_skip_keeps_and_hide_lengths_in_bytes() {
    let a = lines(&["same", "héllo"]);
    let b = lines(&["same"]);
    let edits = myers_diff(&a, &b);
    let ranges = vec![RedactionRange { start_line: 1, end_line: 5, operation: DiffOperation::Delete }];
    let recs = create_diff_lines(&edits, &a, &b, &ranges);
    assert_eq!(recs.len(), 1);
    assert_eq!(recs[0].line_number_a, Some(2));
    assert_eq!(recs[0].content, None);
    assert_eq!(recs[0].redacted_length, Some(6));
}

#[test]
fn script_reproduces_target_with_edit_distance() {
    let a = lines(&["a", "b", "c", "a", "b", "b", "a"]);
    let b = lines(&["c", "b", "a", "b", "a", "c"]);
    let edits = myers_diff(&a, &b);
    assert_eq!(apply(&edits, &a, &b), b);
    assert_eq!(changes(&edits), 5);
    let keeps = edits.len() - changes(&edits);
    assert_eq!(changes(&edits) + 2 * keeps, a.len() + b.len());
}

#[test]
fn script_of_disjoint_sequences() {
    let a = lines(&["1", "2", "3"]);
    let b = lines(&["4", "5"]);
    let edits = myers_diff(&a, &b);
    assert_eq!(apply(&edits, &a, &b), b);
    assert_eq!(changes(&edits), 5);
}

#[test]
fn backtrack_of_single_level_trace() {
    let a = lines(&["x"]);
    let b = lines(&["x"]);
    let trace = vec![vec![0usize; 6]];
    let edits = backtrack(&trace, &a, &b, 0);
    assert_eq!(edits.len(), 1);
    assert_eq!(edits[0].operation, EditOp::Keep);
}
