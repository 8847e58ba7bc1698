//! The redaction spec: `op:start-end` entries separated by commas, with
//! `op` one of `insert`/`i`, `delete`/`d`, `replace`/`r`. Entries that do
//! not have that shape are skipped.
use vstd::prelude::*;
use vstd::utf8::encode_utf8;
use crate::records::{DiffOperation, RedactionRange};

verus! {

/// The pieces of `s` between occurrences of `sep` (one more than there are
/// separators).
pub open spec fn fields(s: Seq<u8>, sep: u8) -> Seq<Seq<u8>>
    decreases s.len(),
{
    if s.len() == 0 {
        seq![Seq::empty()]
    } else {
        let f = fields(s.drop_last(), sep);
        if s.last() == sep {
            f.push(Seq::empty())
        } else {
            f.update(f.len() - 1, f.last().push(s.last()))
        }
    }
}

pub proof fn lemma_fields_nonempty(s: Seq<u8>, sep: u8)
    ensures
        fields(s, sep).len() >= 1,
    decreases s.len(),
{
    if s.len() > 0 {
        lemma_fields_nonempty(s.drop_last(), sep);
    }
}

/// The byte sequences of a list of byte vectors.
pub open spec fn byte_rows(v: Seq<Vec<u8>>) -> Seq<Seq<u8>> {
    v.map_values(|r: Vec<u8>| r@)
}

/// Every byte of `s` is an ASCII digit.
pub open spec fn all_digits(s: Seq<u8>) -> bool {
    forall|i: int| 0 <= i < s.len() ==> 48 <= #[trigger] s[i] <= 57
}

/// The decimal value of a string of digits.
pub open spec fn digit_value(s: Seq<u8>) -> nat
    decreases s.len(),
{
    if s.len() == 0 {
        0
    } else {
        digit_value(s.drop_last()) * 10 + (s.last() - 48) as nat
    }
}

/// An unsigned decimal number, with an optional leading `+`, that fits in
/// `usize`.
pub open spec fn parse_number(s: Seq<u8>) -> Option<usize> {
    let d = if s.len() > 0 && s[0] == 43 { s.drop_first() } else { s };
    if d.len() > 0 && all_digits(d) && digit_value(d) <= usize::MAX {
        Some(digit_value(d) as usize)
    } else {
        None
    }
}

/// The operation an entry names.
pub open spec fn op_name(s: Seq<u8>) -> Option<DiffOperation> {
    if s == seq![105u8, 110u8, 115u8, 101u8, 114u8, 116u8] || s == seq![105u8] {
        Some(DiffOperation::Insert)
    } else if s == seq![100u8, 101u8, 108u8, 101u8, 116u8, 101u8] || s == seq![100u8] {
        Some(DiffOperation::Delete)
    } else if s == seq![114u8, 101u8, 112u8, 108u8, 97u8, 99u8, 101u8] || s == seq![114u8] {
        Some(DiffOperation::Replace)
    } else {
        None
    }
}

/// The range an entry `op:start-end` stands for, if it has that shape.
pub open spec fn parse_entry(f: Seq<u8>) -> Option<RedactionRange> {
    let parts = fields(f, 58);
    let nums = fields(parts[1], 45);
    if parts.len() != 2 || op_name(parts[0]).is_none() || nums.len() != 2 || parse_number(nums[0]).is_none()
        || parse_number(nums[1]).is_none() {
        None
    } else {
        Some(RedactionRange {
            start_line: parse_number(nums[0]).unwrap(),
            end_line: parse_number(nums[1]).unwrap(),
            operation: op_name(parts[0]).unwrap(),
        })
    }
}

/// The ranges of the well-formed entries among `fs`, in order.
pub open spec fn parse_entries(fs: Seq<Seq<u8>>) -> Seq<RedactionRange>
    decreases fs.len(),
{
    if fs.len() == 0 {
        Seq::empty()
    } else {
        let prev = parse_entries(fs.drop_last());
        match parse_entry(fs.last()) {
            Some(r) => prev.push(r),
            None => prev,
        }
    }
}

/// The ranges of a redaction spec.
pub open spec fn parse_ranges(s: Seq<u8>) -> Seq<RedactionRange> {
    parse_entries(fields(s, 44))
}

/// Splits `s` at every `sep`.
pub fn split_fields(s: &[u8], sep: u8) -> (r: Vec<Vec<u8>>)
    ensures
        byte_rows(r@) == fields(s@, sep),
{
    let mut out: Vec<Vec<u8>> = Vec::new();
    let mut cur: Vec<u8> = Vec::new();
    let mut i: usize = 0;
    proof {
        assert(s@.subrange(0, 0) =~= Seq::<u8>::empty());
        assert(byte_rows(out@).push(cur@) =~= seq![Seq::<u8>::empty()]);
    }
    while i < s.len()
        invariant
            i <= s@.len(),
            byte_rows(out@).push(cur@) == fields(s@.subrange(0, i as int), sep),
        decreases s@.len() - i,
    {
        let c = s[i];
        let ghost pre = s@.subrange(0, i as int);
        proof {
            assert(s@.subrange(0, i + 1).drop_last() =~= pre);
            assert(s@.subrange(0, i + 1).last() == c);
            lemma_fields_nonempty(pre, sep);
        }
        if c == sep {
            proof {
                assert(byte_rows(out@.push(cur)) =~= byte_rows(out@).push(cur@));
            }
            out.push(cur);
            cur = Vec::new();
            proof {
                assert(byte_rows(out@).push(cur@) =~= fields(pre, sep).push(Seq::empty()));
            }
        } else {
            let ghost old_cur = cur@;
            cur.push(c);
            proof {
                let f = fields(pre, sep);
                assert(f.last() == old_cur);
                assert(byte_rows(out@).push(cur@) =~= f.update(f.len() - 1, f.last().push(c)));
            }
        }
        i += 1;
    }
    proof {
        assert(s@.subrange(0, s@.len() as int) =~= s@);
        assert(byte_rows(out@.push(cur)) =~= byte_rows(out@).push(cur@));
    }
    out.push(cur);
    out
}

proof fn lemma_value_monotone(d: Seq<u8>, j: int)
    requires
        0 <= j <= d.len(),
    ensures
        digit_value(d.subrange(0, j)) <= digit_value(d),
    decreases d.len(),
{
    if j < d.len() {
        assert(d.drop_last().subrange(0, j) =~= d.subrange(0, j));
        lemma_value_monotone(d.drop_last(), j);
    } else {
        assert(d.subrange(0, j) =~= d);
    }
}

/// Reads an unsigned decimal number, as `parse_number` describes.
fn parse_usize(s: &[u8]) -> (r: Option<usize>)
    ensures
        r == parse_number(s@),
{
    let ghost d = if s@.len() > 0 && s@[0] == 43 { s@.drop_first() } else { s@ };
    let mut start: usize = 0;
    if s.len() > 0 && s[0] == 43 {
        start = 1;
    }
    assert(d =~= s@.subrange(start as int, s@.len() as int));
    if start == s.len() {
        return None;
    }
    let mut acc: usize = 0;
    let mut i: usize = start;
    while i < s.len()
        invariant
            start <= i <= s@.len(),
            d == s@.subrange(start as int, s@.len() as int),
            d == (if s@.len() > 0 && s@[0] == 43 { s@.drop_first() } else { s@ }),
            all_digits(d.subrange(0, i - start)),
            acc == digit_value(d.subrange(0, i - start)),
        decreases s@.len() - i,
    {
        let c = s[i];
        let ghost pre = d.subrange(0, i - start);
        let ghost next = d.subrange(0, i - start + 1);
        proof {
            assert(next.drop_last() =~= pre);
            assert(next.last() == c);
        }
        if c < 48 || c > 57 {
            assert(d[i - start] == c);
            assert(!all_digits(d));
            return None;
        }
        assert(all_digits(next));
        match acc.checked_mul(10) {
            None => {
                proof {
                    if all_digits(d) {
                        lemma_value_monotone(d, i - start + 1);
                    }
                }
                return None;
            },
            Some(t) => match t.checked_add((c - 48) as usize) {
                None => {
                    proof {
                        if all_digits(d) {
                            lemma_value_monotone(d, i - start + 1);
                        }
                    }
                    return None;
                },
                Some(v) => {
                    acc = v;
                },
            },
        }
        i += 1;
    }
    assert(d.subrange(0, d.len() as int) =~= d);
    Some(acc)
}

/// Whether two byte strings are equal.
fn bytes_equal(x: &[u8], y: &[u8]) -> (r: bool)
    ensures
        r == (x@ == y@),
{
    if x.len() != y.len() {
        return false;
    }
    let mut i: usize = 0;
    while i < x.len()
        invariant
            i <= x@.len(),
            x@.len() == y@.len(),
            forall|j: int| 0 <= j < i ==> x@[j] == y@[j],
        decreases x@.len() - i,
    {
        if x[i] != y[i] {
            return false;
        }
        i += 1;
    }
    assert(x@ =~= y@);
    true
}

/// The operation an entry's name stands for.
fn parse_op(s: &[u8]) -> (r: Option<DiffOperation>)
    ensures
        r == op_name(s@),
{
    let insert: [u8; 6] = [105, 110, 115, 101, 114, 116];
    let i: [u8; 1] = [105];
    let delete: [u8; 6] = [100, 101, 108, 101, 116, 101];
    let d: [u8; 1] = [100];
    let replace: [u8; 7] = [114, 101, 112, 108, 97, 99, 101];
    let r: [u8; 1] = [114];
    proof {
        assert(insert@ =~= seq![105u8, 110u8, 115u8, 101u8, 114u8, 116u8]);
        assert(i@ =~= seq![105u8]);
        assert(delete@ =~= seq![100u8, 101u8, 108u8, 101u8, 116u8, 101u8]);
        assert(d@ =~= seq![100u8]);
        assert(replace@ =~= seq![114u8, 101u8, 112u8, 108u8, 97u8, 99u8, 101u8]);
        assert(r@ =~= seq![114u8]);
    }
    if bytes_equal(s, insert.as_slice()) || bytes_equal(s, i.as_slice()) {
        Some(DiffOperation::Insert)
    } else if bytes_equal(s, delete.as_slice()) || bytes_equal(s, d.as_slice()) {
        Some(DiffOperation::Delete)
    } else if bytes_equal(s, replace.as_slice()) || bytes_equal(s, r.as_slice()) {
        Some(DiffOperation::Replace)
    } else {
        None
    }
}

/// The range of one entry, or `None` where it is malformed.
fn parse_range_entry(f: &[u8]) -> (r: Option<RedactionRange>)
    ensures
        r == parse_entry(f@),
{
    let parts = split_fields(f, 58);
    proof {
        lemma_fields_nonempty(f@, 58);
    }
    if parts.len() != 2 {
        proof {
            lemma_fields_nonempty(fields(f@, 58)[1], 45);
        }
        return None;
    }
    assert(parts@[0]@ == fields(f@, 58)[0]);
    assert(parts@[1]@ == fields(f@, 58)[1]);
    let operation = match parse_op(parts[0].as_slice()) {
        Some(op) => op,
        None => {
            return None;
        },
    };
    let nums = split_fields(parts[1].as_slice(), 45);
    proof {
        lemma_fields_nonempty(parts@[1]@, 45);
    }
    if nums.len() != 2 {
        return None;
    }
    assert(nums@[0]@ == fields(parts@[1]@, 45)[0]);
    assert(nums@[1]@ == fields(parts@[1]@, 45)[1]);
    let start_line = match parse_usize(nums[0].as_slice()) {
        Some(v) => v,
        None => {
            return None;
        },
    };
    let end_line = match parse_usize(nums[1].as_slice()) {
        Some(v) => v,
        None => {
            return None;
        },
    };
    Some(RedactionRange { start_line, end_line, operation })
}

/// The redaction ranges of a spec such as `delete:2-3,i:1-4`; entries that
/// do not have the shape `op:start-end` are skipped.
pub fn parse_redaction_ranges(redact_str: &str) -> (ranges: Vec<RedactionRange>)
    ensures
        ranges@ == parse_ranges(encode_utf8(redact_str@)),
{
    let bytes = redact_str.as_bytes();
    let entries = split_fields(bytes, 44);
    let ghost fs = fields(bytes@, 44);
    let mut ranges: Vec<RedactionRange> = Vec::new();
    let mut i: usize = 0;
    while i < entries.len()
        invariant
            i <= entries@.len(),
            byte_rows(entries@) == fs,
            ranges@ == parse_entries(fs.subrange(0, i as int)),
        decreases entries@.len() - i,
    {
        let entry = parse_range_entry(entries[i].as_slice());
        proof {
            assert(fs.subrange(0, i + 1).drop_last() =~= fs.subrange(0, i as int));
            assert(fs.subrange(0, i + 1).last() == entries@[i as int]@);
        }
        match entry {
            Some(r) => ranges.push(r),
            None => {},
        }
        i += 1;
    }
    assert(fs.subrange(0, fs.len() as int) =~= fs);
    ranges
}

} // verus!
