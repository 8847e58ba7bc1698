//! Content digests and the commitment digest that binds both input digests
//! to the ordered output records.
use vstd::prelude::*;
use vstd::utf8::encode_utf8;
use sha2::Digest;
use crate::records::{record_sound, records_view, DiffLine, DiffLineView, DiffOperation};
use crate::diff::DiffInput;

verus! {

/// The SHA-256 digest of a byte string.
pub uninterp spec fn sha256_of(data: Seq<u8>) -> Seq<u8>;

/// Relies on sha2::Sha256::digest: the SHA-256 digest of `data`, which
/// depends on those bytes alone.
#[verifier::external_body]
fn sha256(data: &[u8]) -> (r: [u8; 32])
    ensures
        r@ == sha256_of(data@),
{
    sha2::Sha256::digest(data).into()
}

/// The identity digest of a document: SHA-256 of its UTF-8 bytes.
pub fn hash_content(content: &str) -> (r: [u8; 32])
    ensures
        r@ == sha256_of(encode_utf8(content@)),
{
    sha256(content.as_bytes())
}

/// Whether two digests are equal.
pub fn same_digest(x: &[u8; 32], y: &[u8; 32]) -> (r: bool)
    ensures
        r == (x@ == y@),
{
    let mut i: usize = 0;
    while i < 32
        invariant
            i <= 32,
            x@.len() == 32,
            y@.len() == 32,
            forall|j: int| 0 <= j < i ==> x@[j] == y@[j],
        decreases 32 - i,
    {
        if x[i] != y[i] {
            return false;
        }
        i += 1;
    }
    assert(x@ =~= y@);
    true
}

/// The `count` low bytes of `v`, least significant first.
pub open spec fn le_bytes(v: nat, count: nat) -> Seq<u8>
    decreases count,
{
    if count == 0 {
        Seq::empty()
    } else {
        seq![(v % 256) as u8] + le_bytes(v / 256, (count - 1) as nat)
    }
}

/// The bytes of `"content:"`.
pub open spec fn content_marker() -> Seq<u8> {
    seq![99u8, 111u8, 110u8, 116u8, 101u8, 110u8, 116u8, 58u8]
}

/// The bytes of `"redacted:"`.
pub open spec fn redacted_marker() -> Seq<u8> {
    seq![114u8, 101u8, 100u8, 97u8, 99u8, 116u8, 101u8, 100u8, 58u8]
}

/// The one-byte tag of an operation.
pub open spec fn op_tag(op: DiffOperation) -> u8 {
    match op {
        DiffOperation::Insert => 1,
        DiffOperation::Delete => 2,
        DiffOperation::Replace => 3,
    }
}

/// An optional line number as eight little-endian bytes, or nothing.
pub open spec fn encode_number(n: Option<usize>) -> Seq<u8> {
    match n {
        Some(v) => le_bytes(v as nat, 8),
        None => Seq::empty(),
    }
}

/// The payload of a record: its marked content or its marked length.
pub open spec fn encode_payload(r: DiffLineView) -> Seq<u8> {
    match r.content {
        Some(c) => content_marker() + encode_utf8(c),
        None => match r.redacted_length {
            Some(l) => redacted_marker() + le_bytes(l as nat, 8),
            None => Seq::empty(),
        },
    }
}

/// The canonical encoding of one record.
pub open spec fn encode_record(r: DiffLineView) -> Seq<u8> {
    seq![op_tag(r.operation)] + encode_number(r.line_number_a) + encode_number(r.line_number_b) + encode_payload(r)
}

/// The canonical encoding of a record sequence, in order.
pub open spec fn encode_records(rs: Seq<DiffLineView>) -> Seq<u8>
    decreases rs.len(),
{
    if rs.len() == 0 {
        Seq::empty()
    } else {
        encode_records(rs.drop_last()) + encode_record(rs.last())
    }
}

/// The bytes the commitment digest is taken over.
pub open spec fn commitment_bytes(digest_a: Seq<u8>, digest_b: Seq<u8>, rs: Seq<DiffLineView>) -> Seq<u8> {
    digest_a + digest_b + encode_records(rs)
}

/// A record whose shape fits its operation: a delete carries only the old
/// line number, an insert only the new one, and exactly one of content and
/// redacted length is present.
pub open spec fn record_wf(r: DiffLineView) -> bool {
    &&& match r.operation {
        DiffOperation::Delete => r.line_number_a.is_some() && r.line_number_b.is_none(),
        DiffOperation::Insert => r.line_number_a.is_none() && r.line_number_b.is_some(),
        DiffOperation::Replace => false,
    }
    &&& r.content.is_some() != r.redacted_length.is_some()
}

/// A sound record of lines of `a` and `b` is well-formed, so the binding
/// laws below apply to every record the diff emits.
pub proof fn lemma_sound_record_wf(r: DiffLineView, a: Seq<Seq<char>>, b: Seq<Seq<char>>)
    requires
        record_sound(r, a, b),
    ensures
        record_wf(r),
{
}

/// `256` to the power `c`.
pub open spec fn pow256(c: nat) -> nat
    decreases c,
{
    if c == 0 {
        1
    } else {
        256 * pow256((c - 1) as nat)
    }
}

proof fn lemma_le_bytes_len(v: nat, c: nat)
    ensures
        le_bytes(v, c).len() == c,
    decreases c,
{
    if c > 0 {
        lemma_le_bytes_len(v / 256, (c - 1) as nat);
    }
}

proof fn lemma_le_bytes_injective(v: nat, w: nat, c: nat)
    requires
        v < pow256(c),
        w < pow256(c),
        le_bytes(v, c) == le_bytes(w, c),
    ensures
        v == w,
    decreases c,
{
    if c > 0 {
        let p = pow256((c - 1) as nat);
        lemma_le_bytes_len(v / 256, (c - 1) as nat);
        lemma_le_bytes_len(w / 256, (c - 1) as nat);
        assert(le_bytes(v, c)[0] == (v % 256) as u8);
        assert(le_bytes(w, c)[0] == (w % 256) as u8);
        assert(le_bytes(v / 256, (c - 1) as nat) =~= le_bytes(v, c).subrange(1, c as int));
        assert(le_bytes(w / 256, (c - 1) as nat) =~= le_bytes(w, c).subrange(1, c as int));
        assert(v / 256 < p) by (nonlinear_arith)
            requires v < 256 * p;
        assert(w / 256 < p) by (nonlinear_arith)
            requires w < 256 * p;
        lemma_le_bytes_injective(v / 256, w / 256, (c - 1) as nat);
        assert(v == 256 * (v / 256) + v % 256) by (nonlinear_arith);
        assert(w == 256 * (w / 256) + w % 256) by (nonlinear_arith);
    } else {
        assert(v == 0 && w == 0);
    }
}

proof fn lemma_number_injective(x: usize, y: usize)
    requires
        le_bytes(x as nat, 8) == le_bytes(y as nat, 8),
    ensures
        x == y,
{
    reveal_with_fuel(pow256, 9);
    assert(pow256(8) == 0x1_0000_0000_0000_0000nat);
    assert(x as nat <= 0xffff_ffff_ffff_ffffnat);
    assert(y as nat <= 0xffff_ffff_ffff_ffffnat);
    lemma_le_bytes_injective(x as nat, y as nat, 8);
}

proof fn lemma_record_injective(r1: DiffLineView, r2: DiffLineView)
    requires
        record_wf(r1),
        record_wf(r2),
        encode_record(r1) == encode_record(r2),
    ensures
        r1 == r2,
{
    let e = encode_record(r1);
    assert(e[0] == op_tag(r1.operation));
    assert(encode_record(r2)[0] == op_tag(r2.operation));
    assert(r1.operation == r2.operation);
    let n1 = if r1.operation == DiffOperation::Delete { r1.line_number_a.unwrap() } else { r1.line_number_b.unwrap() };
    let n2 = if r2.operation == DiffOperation::Delete { r2.line_number_a.unwrap() } else { r2.line_number_b.unwrap() };
    lemma_le_bytes_len(n1 as nat, 8);
    lemma_le_bytes_len(n2 as nat, 8);
    let pay_a = encode_payload(r1);
    let pay_b = encode_payload(r2);
    assert(e =~= seq![op_tag(r1.operation)] + le_bytes(n1 as nat, 8) + pay_a);
    assert(encode_record(r2) =~= seq![op_tag(r2.operation)] + le_bytes(n2 as nat, 8) + pay_b);
    assert(le_bytes(n1 as nat, 8) =~= e.subrange(1, 9));
    assert(le_bytes(n2 as nat, 8) =~= e.subrange(1, 9));
    lemma_number_injective(n1, n2);
    assert(pay_a =~= e.subrange(9, e.len() as int));
    assert(pay_b =~= e.subrange(9, e.len() as int));
    match (r1.content, r2.content) {
        (Some(c1), Some(c2)) => {
            assert(encode_utf8(c1) =~= pay_a.subrange(8, pay_a.len() as int));
            assert(encode_utf8(c2) =~= pay_b.subrange(8, pay_b.len() as int));
            vstd::utf8::encode_utf8_decode_utf8(c1);
            vstd::utf8::encode_utf8_decode_utf8(c2);
        },
        (None, None) => {
            let l1 = r1.redacted_length.unwrap();
            let l2 = r2.redacted_length.unwrap();
            lemma_le_bytes_len(l1 as nat, 8);
            lemma_le_bytes_len(l2 as nat, 8);
            assert(le_bytes(l1 as nat, 8) =~= pay_a.subrange(9, 17));
            assert(le_bytes(l2 as nat, 8) =~= pay_b.subrange(9, 17));
            lemma_number_injective(l1, l2);
        },
        (Some(c1), None) => {
            assert(pay_a[0] == 99u8);
            assert(pay_b[0] == 114u8);
        },
        (None, Some(c2)) => {
            assert(pay_a[0] == 114u8);
            assert(pay_b[0] == 99u8);
        },
    }
}

proof fn lemma_encode_records_append(s: Seq<DiffLineView>, t: Seq<DiffLineView>)
    ensures
        encode_records(s + t) == encode_records(s) + encode_records(t),
    decreases t.len(),
{
    if t.len() == 0 {
        assert(s + t =~= s);
        assert(encode_records(s) + encode_records(t) =~= encode_records(s));
    } else {
        assert((s + t).drop_last() =~= s + t.drop_last());
        assert((s + t).last() == t.last());
        lemma_encode_records_append(s, t.drop_last());
        assert(encode_records(s + t) =~= encode_records(s) + encode_records(t));
    }
}

proof fn lemma_encode_single(r: DiffLineView)
    ensures
        encode_records(seq![r]) == encode_record(r),
{
    assert(seq![r].drop_last() =~= Seq::<DiffLineView>::empty());
    assert(seq![r].last() == r);
    assert(encode_records(Seq::<DiffLineView>::empty()) + encode_record(r) =~= encode_record(r));
}

proof fn lemma_encode_pair(x: DiffLineView, y: DiffLineView)
    ensures
        encode_records(seq![x, y]) == encode_record(x) + encode_record(y),
{
    lemma_encode_single(x);
    lemma_encode_single(y);
    lemma_encode_records_append(seq![x], seq![y]);
    assert(seq![x] + seq![y] =~= seq![x, y]);
}

proof fn lemma_encode_records_three(p: Seq<DiffLineView>, m: Seq<DiffLineView>, q: Seq<DiffLineView>)
    ensures
        encode_records(p + m + q) == encode_records(p) + encode_records(m) + encode_records(q),
{
    lemma_encode_records_append(p + m, q);
    lemma_encode_records_append(p, m);
}

proof fn lemma_cancel_middle(h: Seq<u8>, x: Seq<u8>, y: Seq<u8>, t: Seq<u8>)
    requires
        h + x + t == h + y + t,
    ensures
        x == y,
{
    let l = h + x + t;
    assert(l.len() == h.len() + x.len() + t.len());
    assert((h + y + t).len() == h.len() + y.len() + t.len());
    assert(x.len() == y.len());
    assert(x =~= l.subrange(h.len() as int, (h.len() + x.len()) as int));
    assert(y =~= (h + y + t).subrange(h.len() as int, (h.len() + y.len()) as int));
}

proof fn lemma_encode_records_split(rs: Seq<DiffLineView>, i: int)
    requires
        0 <= i < rs.len(),
    ensures
        encode_records(rs) == encode_records(rs.subrange(0, i)) + encode_record(rs[i]) + encode_records(rs.subrange(i + 1, rs.len() as int)),
{
    let pre = rs.subrange(0, i);
    let post = rs.subrange(i + 1, rs.len() as int);
    assert(rs =~= pre.push(rs[i]) + post);
    lemma_encode_records_append(pre.push(rs[i]), post);
    assert(pre.push(rs[i]).drop_last() =~= pre);
}

/// The commitment binds both input digests: commitments over different
/// digests are taken over different bytes, whatever the records.
pub proof fn lemma_commitment_binds_digests(
    a1: Seq<u8>,
    b1: Seq<u8>,
    rs1: Seq<DiffLineView>,
    a2: Seq<u8>,
    b2: Seq<u8>,
    rs2: Seq<DiffLineView>,
)
    requires
        a1.len() == 32,
        b1.len() == 32,
        a2.len() == 32,
        b2.len() == 32,
        a1 != a2 || b1 != b2,
    ensures
        commitment_bytes(a1, b1, rs1) != commitment_bytes(a2, b2, rs2),
{
    let x = commitment_bytes(a1, b1, rs1);
    let y = commitment_bytes(a2, b2, rs2);
    if x == y {
        assert(a1 =~= x.subrange(0, 32));
        assert(a2 =~= y.subrange(0, 32));
        assert(b1 =~= x.subrange(32, 64));
        assert(b2 =~= y.subrange(32, 64));
    }
}

/// The commitment binds every record: changing any one well-formed record
/// (its content, its redacted length, its line number or its operation)
/// and keeping the others changes the bytes the commitment is taken over.
pub proof fn lemma_commitment_binds_each_record(
    da: Seq<u8>,
    db: Seq<u8>,
    rs1: Seq<DiffLineView>,
    rs2: Seq<DiffLineView>,
    i: int,
)
    requires
        rs1.len() == rs2.len(),
        0 <= i < rs1.len(),
        forall|j: int| 0 <= j < rs1.len() && j != i ==> rs1[j] == rs2[j],
        rs1[i] != rs2[i],
        record_wf(rs1[i]),
        record_wf(rs2[i]),
    ensures
        commitment_bytes(da, db, rs1) != commitment_bytes(da, db, rs2),
{
    let head1 = rs1.subrange(0, i);
    let q1 = rs1.subrange(i + 1, rs1.len() as int);
    assert(head1 =~= rs2.subrange(0, i));
    assert(q1 =~= rs2.subrange(i + 1, rs2.len() as int));
    lemma_encode_records_split(rs1, i);
    lemma_encode_records_split(rs2, i);
    let h = da + db + encode_records(head1);
    let t = encode_records(q1);
    assert(commitment_bytes(da, db, rs1) =~= h + encode_record(rs1[i]) + t);
    assert(commitment_bytes(da, db, rs2) =~= h + encode_record(rs2[i]) + t);
    if commitment_bytes(da, db, rs1) == commitment_bytes(da, db, rs2) {
        lemma_cancel_middle(h, encode_record(rs1[i]), encode_record(rs2[i]), t);
        lemma_record_injective(rs1[i], rs2[i]);
    }
}

/// The commitment binds the order of records: swapping two adjacent,
/// different, well-formed records whose encodings are of equal length
/// changes the bytes the commitment is taken over.
pub proof fn lemma_commitment_binds_adjacent_order(da: Seq<u8>, db: Seq<u8>, rs: Seq<DiffLineView>, i: int)
    requires
        0 <= i,
        i + 1 < rs.len(),
        rs[i] != rs[i + 1],
        record_wf(rs[i]),
        record_wf(rs[i + 1]),
        encode_record(rs[i]).len() == encode_record(rs[i + 1]).len(),
    ensures
        commitment_bytes(da, db, rs) != commitment_bytes(da, db, rs.update(i, rs[i + 1]).update(i + 1, rs[i])),
{
    let sw = rs.update(i, rs[i + 1]).update(i + 1, rs[i]);
    let pre = rs.subrange(0, i);
    let post = rs.subrange(i + 2, rs.len() as int);
    let e1 = encode_record(rs[i]);
    let e2 = encode_record(rs[i + 1]);
    assert(rs =~= pre + seq![rs[i], rs[i + 1]] + post);
    assert(sw =~= pre + seq![rs[i + 1], rs[i]] + post);
    lemma_encode_records_three(pre, seq![rs[i], rs[i + 1]], post);
    lemma_encode_records_three(pre, seq![rs[i + 1], rs[i]], post);
    lemma_encode_pair(rs[i], rs[i + 1]);
    lemma_encode_pair(rs[i + 1], rs[i]);
    let h = da + db + encode_records(pre);
    let t = encode_records(post);
    assert(commitment_bytes(da, db, rs) =~= h + (e1 + e2) + t);
    assert(commitment_bytes(da, db, sw) =~= h + (e2 + e1) + t);
    if commitment_bytes(da, db, rs) == commitment_bytes(da, db, sw) {
        lemma_cancel_middle(h, e1 + e2, e2 + e1, t);
        assert(e1 =~= (e1 + e2).subrange(0, e1.len() as int));
        assert(e2 =~= (e2 + e1).subrange(0, e2.len() as int));
        lemma_record_injective(rs[i], rs[i + 1]);
    }
}

/// Appends `bytes` to `out`.
fn append_bytes(out: &mut Vec<u8>, bytes: &[u8])
    ensures
        final(out)@ == old(out)@ + bytes@,
{
    let ghost start = out@;
    let mut i: usize = 0;
    while i < bytes.len()
        invariant
            i <= bytes@.len(),
            out@ == start + bytes@.subrange(0, i as int),
        decreases bytes@.len() - i,
    {
        out.push(bytes[i]);
        i += 1;
        assert(out@ =~= start + bytes@.subrange(0, i as int));
    }
    assert(bytes@.subrange(0, bytes@.len() as int) =~= bytes@);
}

/// Appends `v` as eight little-endian bytes.
fn append_le64(out: &mut Vec<u8>, v: u64)
    ensures
        final(out)@ == old(out)@ + le_bytes(v as nat, 8),
{
    let ghost start = out@;
    let mut w: u64 = v;
    let mut i: usize = 0;
    while i < 8
        invariant
            i <= 8,
            out@ + le_bytes(w as nat, (8 - i) as nat) == start + le_bytes(v as nat, 8),
        decreases 8 - i,
    {
        let byte = (w % 256) as u8;
        proof {
            assert(le_bytes(w as nat, (8 - i) as nat) == seq![byte] + le_bytes((w / 256) as nat, (8 - i - 1) as nat));
            assert(out@.push(byte) + le_bytes((w / 256) as nat, (8 - i - 1) as nat)
                =~= out@ + (seq![byte] + le_bytes((w / 256) as nat, (8 - i - 1) as nat)));
        }
        out.push(byte);
        w = w / 256;
        i += 1;
    }
    assert(out@ + le_bytes(w as nat, 0) =~= out@);
}

/// Appends an optional line number.
fn append_number(out: &mut Vec<u8>, n: Option<usize>)
    ensures
        final(out)@ == old(out)@ + encode_number(n),
{
    match n {
        Some(v) => append_le64(out, v as u64),
        None => {
            assert(out@ + Seq::<u8>::empty() =~= out@);
        },
    }
}

/// Appends the canonical encoding of `line`.
fn append_record(out: &mut Vec<u8>, line: &DiffLine)
    ensures
        final(out)@ == old(out)@ + encode_record(line@),
{
    let ghost start = out@;
    let tag: u8 = match line.operation {
        DiffOperation::Insert => 1,
        DiffOperation::Delete => 2,
        DiffOperation::Replace => 3,
    };
    out.push(tag);
    append_number(out, line.line_number_a);
    append_number(out, line.line_number_b);
    let ghost mid = out@;
    match &line.content {
        Some(content) => {
            let marker: [u8; 8] = [99, 111, 110, 116, 101, 110, 116, 58];
            proof {
                assert(marker@ =~= content_marker());
            }
            append_bytes(out, marker.as_slice());
            append_bytes(out, content.as_str().as_bytes());
        },
        None => match line.redacted_length {
            Some(length) => {
                let marker: [u8; 9] = [114, 101, 100, 97, 99, 116, 101, 100, 58];
                proof {
                    assert(marker@ =~= redacted_marker());
                }
                append_bytes(out, marker.as_slice());
                append_le64(out, length as u64);
            },
            None => {},
        },
    }
    assert(out@ =~= mid + encode_payload(line@));
    assert(out@ =~= start + encode_record(line@));
}

/// The bytes the commitment digest is taken over: both input digests, then
/// every record in order.
pub fn commitment_preimage(file_a_hash: &[u8; 32], file_b_hash: &[u8; 32], diff_lines: &[DiffLine]) -> (out: Vec<u8>)
    ensures
        out@ == commitment_bytes(file_a_hash@, file_b_hash@, records_view(diff_lines@)),
{
    let mut out: Vec<u8> = Vec::new();
    append_bytes(&mut out, file_a_hash.as_slice());
    append_bytes(&mut out, file_b_hash.as_slice());
    let ghost head = out@;
    let mut i: usize = 0;
    while i < diff_lines.len()
        invariant
            i <= diff_lines@.len(),
            head == file_a_hash@ + file_b_hash@,
            out@ == head + encode_records(records_view(diff_lines@.subrange(0, i as int))),
        decreases diff_lines@.len() - i,
    {
        append_record(&mut out, &diff_lines[i]);
        proof {
            let rs = records_view(diff_lines@.subrange(0, i + 1));
            assert(rs.drop_last() =~= records_view(diff_lines@.subrange(0, i as int)));
            assert(rs.last() == diff_lines@[i as int]@);
        }
        i += 1;
    }
    assert(diff_lines@.subrange(0, diff_lines@.len() as int) =~= diff_lines@);
    out
}

/// The commitment digest: SHA-256 over both input digests and the
/// canonical encoding of the records, in order.
pub fn create_proof_hash(input: &DiffInput, diff_lines: &[DiffLine]) -> (r: [u8; 32])
    ensures
        r@ == sha256_of(commitment_bytes(input.file_a_hash@, input.file_b_hash@, records_view(diff_lines@))),
{
    let bytes = commitment_preimage(&input.file_a_hash, &input.file_b_hash, diff_lines);
    sha256(bytes.as_slice())
}

} // verus!
