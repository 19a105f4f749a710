//! The line record parser: splits one raw input line on tabs and reads the
//! `occurrences` and `books` fields as unsigned 32-bit decimal numbers.

use vstd::prelude::*;

verus! {

/// The tab byte separating fields of a raw line.
pub const TAB: u8 = 9;

/// What is wrong with a malformed line.
#[derive(Clone, Copy, Debug, PartialEq, Eq, Structural)]
pub enum LineFault {
    /// Fewer than three tab-separated fields: no occurrence count present.
    MissingOccurrences,
    /// The occurrence field is not a valid non-negative 32-bit decimal.
    InvalidOccurrences,
    /// Fewer than four tab-separated fields: no book count present.
    MissingBooks,
    /// The book field is not a valid non-negative 32-bit decimal.
    InvalidBooks,
}

/// A parse failure, positioned at a 1-based line number of its file.
#[derive(Clone, Copy, Debug, PartialEq, Eq, Structural)]
pub struct MalformedLine {
    pub line_number: usize,
    pub fault: LineFault,
}

/// Index of the first occurrence of `b` in `s`, if any.
pub open spec fn find_byte(s: Seq<u8>, b: u8) -> Option<int>
    decreases s.len(),
{
    if s.len() == 0 {
        None
    } else if s[0] == b {
        Some(0int)
    } else {
        match find_byte(s.drop_first(), b) {
            None => None,
            Some(i) => Some(i + 1),
        }
    }
}

pub broadcast proof fn lemma_find_byte_props(s: Seq<u8>, b: u8)
    ensures
        match #[trigger] find_byte(s, b) {
            Some(i) => 0 <= i < s.len() && s[i] == b && (forall|j: int| 0 <= j < i ==> s[j] != b),
            None => forall|j: int| 0 <= j < s.len() ==> s[j] != b,
        },
    decreases s.len(),
{
    if s.len() > 0 && s[0] != b {
        lemma_find_byte_props(s.drop_first(), b);
        match find_byte(s.drop_first(), b) {
            None => {
                assert forall|j: int| 0 <= j < s.len() implies s[j] != b by {
                    if j > 0 {
                        assert(s.drop_first()[j - 1] == s[j]);
                    }
                }
            },
            Some(i) => {
                assert(s.drop_first()[i] == s[i + 1]);
                assert forall|j: int| 0 <= j < i + 1 implies s[j] != b by {
                    if j > 0 {
                        assert(s.drop_first()[j - 1] == s[j]);
                    }
                }
            },
        }
    }
}

/// `s` split on every occurrence of `b`; always at least one segment.
pub open spec fn split_on(s: Seq<u8>, b: u8) -> Seq<Seq<u8>>
    decreases s.len(),
    via split_on_decreases
{
    match find_byte(s, b) {
        None => seq![s],
        Some(i) => seq![s.take(i)] + split_on(s.skip(i + 1), b),
    }
}

#[via_fn]
proof fn split_on_decreases(s: Seq<u8>, b: u8) {
    lemma_find_byte_props(s, b);
}

pub open spec fn is_digit(b: u8) -> bool {
    48 <= b <= 57
}

pub open spec fn all_digits(s: Seq<u8>) -> bool {
    forall|i: int| 0 <= i < s.len() ==> is_digit(#[trigger] s[i])
}

/// Value of a string of decimal digits, most significant first.
pub open spec fn digits_val(s: Seq<u8>) -> int
    decreases s.len(),
{
    if s.len() == 0 {
        0
    } else {
        digits_val(s.drop_last()) * 10 + (s.last() - 48)
    }
}

/// The digit part of a decimal text: an optional leading `+` is allowed,
/// as `str::parse::<u32>` accepts it.
pub open spec fn num_digits(s: Seq<u8>) -> Seq<u8> {
    if s.len() > 0 && s[0] == 43 {
        s.drop_first()
    } else {
        s
    }
}

/// Whether `s` is the decimal text of a value that fits in a `u32`.
pub open spec fn is_u32_text(s: Seq<u8>) -> bool {
    let d = num_digits(s);
    d.len() > 0 && all_digits(d) && digits_val(d) <= u32::MAX
}

pub open spec fn u32_text_val(s: Seq<u8>) -> int {
    digits_val(num_digits(s))
}

/// The tab-separated fields of one raw line.
pub open spec fn line_fields(l: Seq<u8>) -> Seq<Seq<u8>> {
    split_on(l, TAB)
}

/// The fault of a raw line, if it is malformed. Fields are, in order:
/// token, year (read and discarded), occurrences, books; extra fields are
/// ignored. The occurrence field is examined before the book field.
pub open spec fn line_fault(l: Seq<u8>) -> Option<LineFault> {
    let fs = line_fields(l);
    if fs.len() < 3 {
        Some(LineFault::MissingOccurrences)
    } else if !is_u32_text(fs[2]) {
        Some(LineFault::InvalidOccurrences)
    } else if fs.len() < 4 {
        Some(LineFault::MissingBooks)
    } else if !is_u32_text(fs[3]) {
        Some(LineFault::InvalidBooks)
    } else {
        None
    }
}

pub open spec fn parsed_token(l: Seq<u8>) -> Seq<u8> {
    line_fields(l)[0]
}

pub open spec fn parsed_occ(l: Seq<u8>) -> int {
    u32_text_val(line_fields(l)[2])
}

pub open spec fn parsed_books(l: Seq<u8>) -> int {
    u32_text_val(line_fields(l)[3])
}

pub proof fn lemma_digits_val_nonneg(s: Seq<u8>)
    requires
        all_digits(s),
    ensures
        digits_val(s) >= 0,
    decreases s.len(),
{
    if s.len() > 0 {
        assert(all_digits(s.drop_last()));
        lemma_digits_val_nonneg(s.drop_last());
        assert(is_digit(s.last()));
    }
}

proof fn lemma_digits_val_take_step(s: Seq<u8>, k: int)
    requires
        0 <= k < s.len(),
    ensures
        digits_val(s.take(k + 1)) == digits_val(s.take(k)) * 10 + (s[k] - 48),
{
    assert(s.take(k + 1).drop_last() =~= s.take(k));
    assert(s.take(k + 1).last() == s[k]);
}

/// A digit prefix never exceeds the value of the whole digit string.
proof fn lemma_digits_val_prefix_le(s: Seq<u8>, k: int)
    requires
        all_digits(s),
        0 <= k <= s.len(),
    ensures
        digits_val(s.take(k)) <= digits_val(s),
    decreases s.len() - k,
{
    if k == s.len() {
        assert(s.take(k) =~= s);
    } else {
        lemma_digits_val_take_step(s, k);
        assert(all_digits(s.take(k))) by {
            assert(forall|i: int| 0 <= i < k ==> s.take(k)[i] == s[i]);
        }
        lemma_digits_val_nonneg(s.take(k));
        assert(is_digit(s[k]));
        lemma_digits_val_prefix_le(s, k + 1);
    }
}

/// Split a byte vector on every occurrence of `b`.
pub fn split_bytes(s: &Vec<u8>, b: u8) -> (r: Vec<Vec<u8>>)
    ensures
        r.deep_view() == split_on(s@, b),
{
    broadcast use lemma_find_byte_props;

    let mut out: Vec<Vec<u8>> = Vec::new();
    let mut cur: Vec<u8> = Vec::new();
    proof {
        assert(out.deep_view() =~= Seq::<Seq<u8>>::empty());
        assert(s@.skip(0) =~= s@);
        assert(out.deep_view() + split_on(s@.skip(0), b) =~= split_on(s@, b));
    }
    for i in 0..s.len()
        invariant
            cur@.len() <= i <= s@.len(),
            cur@ == s@.subrange(i - cur@.len(), i as int),
            forall|j: int| i - cur@.len() <= j < i ==> s@[j] != b,
            split_on(s@, b) == out.deep_view() + split_on(s@.skip(i - cur@.len()), b),
    {
        let ghost start = i - cur@.len();
        if s[i] == b {
            proof {
                let rest = s@.skip(start);
                lemma_find_byte_props(rest, b);
                assert(forall|j: int| 0 <= j <= cur@.len() ==> #[trigger] rest[j] == s@[start + j]);
                assert(rest[cur@.len() as int] == b);
                match find_byte(rest, b) {
                    None => {
                        assert(false);
                    },
                    Some(k) => {
                        if k < cur@.len() {
                            assert(s@[start + k] != b);
                        }
                        if k > cur@.len() {
                            assert(rest[cur@.len() as int] != b);
                        }
                        assert(k == cur@.len());
                    },
                }
                assert(rest.take(cur@.len() as int) =~= cur@);
                assert(rest.skip(cur@.len() as int + 1) =~= s@.skip(i + 1));
                assert(split_on(rest, b) == seq![cur@] + split_on(s@.skip(i + 1), b));
            }
            let ghost old_out = out.deep_view();
            let ghost cur0 = cur@;
            out.push(cur);
            cur = Vec::new();
            proof {
                assert(out.deep_view() =~~= old_out.push(cur0));
                assert(old_out + (seq![cur0] + split_on(s@.skip(i + 1), b)) =~= old_out.push(
                    cur0,
                ) + split_on(s@.skip(i + 1), b));
            }
        } else {
            cur.push(s[i]);
            proof {
                assert(cur@ =~= s@.subrange(i + 1 - cur@.len(), i + 1));
            }
        }
    }
    let ghost old_out = out.deep_view();
    let ghost cur0 = cur@;
    proof {
        let rest = s@.skip(s@.len() - cur@.len());
        lemma_find_byte_props(rest, b);
        match find_byte(rest, b) {
            None => {},
            Some(k) => {
                assert(rest[k] == s@[s@.len() - cur@.len() + k]);
                assert(false);
            },
        }
        assert(rest =~= cur0);
        assert(split_on(rest, b) == seq![cur0]);
        assert(old_out + seq![cur0] =~= old_out.push(cur0));
    }
    out.push(cur);
    proof {
        assert(out.deep_view() =~~= old_out.push(cur0));
    }
    out
}

/// Parse a decimal `u32`, accepting exactly what `str::parse::<u32>` accepts:
/// an optional leading `+`, then one or more digits, value at most `u32::MAX`.
pub fn parse_u32(s: &Vec<u8>) -> (r: Option<u32>)
    ensures
        match r {
            Some(v) => is_u32_text(s@) && v as int == u32_text_val(s@),
            None => !is_u32_text(s@),
        },
{
    let offset: usize = if s.len() > 0 && s[0] == 43 {
        1
    } else {
        0
    };
    let ghost d = num_digits(s@);
    proof {
        assert(d =~= s@.skip(offset as int));
    }
    if offset >= s.len() {
        return None;
    }
    let mut acc: u64 = 0;
    let mut j: usize = offset;
    while j < s.len()
        invariant
            offset <= j <= s@.len(),
            offset < s@.len(),
            acc <= u32::MAX as u64,
            d == num_digits(s@),
            d == s@.skip(offset as int),
            forall|m: int| 0 <= m < j - offset ==> is_digit(#[trigger] d[m]),
            acc as int == digits_val(d.take(j - offset)),
        decreases s@.len() - j,
    {
        let b = s[j];
        assert(d[j - offset] == s@[j as int]);
        if b < 48 || b > 57 {
            assert(!is_digit(d[j - offset]));
            return None;
        }
        assert(is_digit(d[j - offset]));
        acc = acc * 10 + (b - 48) as u64;
        proof {
            lemma_digits_val_take_step(d, j - offset);
        }
        if acc > 0xFFFF_FFFFu64 {
            proof {
                if is_u32_text(s@) {
                    lemma_digits_val_prefix_le(d, j + 1 - offset);
                    assert(false);
                }
            }
            return None;
        }
        j = j + 1;
    }
    proof {
        assert(d.take(j - offset) =~= d);
        assert(d.len() > 0);
        assert(all_digits(d));
    }
    Some(acc as u32)
}

/// Parse one raw line into (token, occurrences, books), or report which
/// field is missing or unparsable.
pub fn parse_line(l: &Vec<u8>) -> (r: Result<(Vec<u8>, u32, u32), LineFault>)
    ensures
        match r {
            Ok(t) => line_fault(l@) is None && t.0@ == parsed_token(l@) && t.1 as int
                == parsed_occ(l@) && t.2 as int == parsed_books(l@),
            Err(f) => line_fault(l@) == Some(f),
        },
{
    let mut fields = split_bytes(l, TAB);
    proof {
        assert(fields.deep_view().len() == fields@.len());
        assert(forall|k: int| 0 <= k < fields@.len() ==> fields.deep_view()[k] == fields@[k]@);
    }
    if fields.len() < 3 {
        return Err(LineFault::MissingOccurrences);
    }
    let occurrences = match parse_u32(&fields[2]) {
        Some(v) => v,
        None => {
            return Err(LineFault::InvalidOccurrences);
        },
    };
    if fields.len() < 4 {
        return Err(LineFault::MissingBooks);
    }
    let books = match parse_u32(&fields[3]) {
        Some(v) => v,
        None => {
            return Err(LineFault::InvalidBooks);
        },
    };
    let token = fields.remove(0);
    Ok((token, occurrences, books))
}

} // verus!
