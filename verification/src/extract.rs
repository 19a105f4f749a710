//! The adjacent-merge extractor: walks the lines of one decoded file in
//! order, merges consecutive lines that share a raw token into one aggregate,
//! and strips the trailing underscore-introduced suffix from each token.

use vstd::prelude::*;
use crate::record::{Freq, Rec, recs, sat32, bytes_eq};
use crate::parse::{
    find_byte, lemma_find_byte_props, line_fault, parse_line, parsed_token, parsed_occ,
    parsed_books, MalformedLine, lemma_digits_val_nonneg, line_fields, num_digits,
};

verus! {

/// The newline byte ending a line.
pub const LF: u8 = 10;

/// The carriage return byte, removed before a newline.
pub const CR: u8 = 13;

/// The underscore byte introducing a token's disambiguation suffix.
pub const UNDERSCORE: u8 = 95;

/// A line with a terminating carriage return removed, as `str::lines`
/// treats `\r\n` endings.
pub open spec fn chomp_cr(l: Seq<u8>) -> Seq<u8> {
    if l.len() > 0 && l.last() == CR {
        l.drop_last()
    } else {
        l
    }
}

/// The lines of a decoded file: split at `\n`, with a `\r` directly before
/// the `\n` removed, and no empty final line when the text ends with `\n`.
pub open spec fn lines_of(s: Seq<u8>) -> Seq<Seq<u8>>
    decreases s.len(),
    via lines_of_decreases
{
    if s.len() == 0 {
        Seq::empty()
    } else {
        match find_byte(s, LF) {
            None => seq![s],
            Some(i) => seq![chomp_cr(s.take(i))] + lines_of(s.skip(i + 1)),
        }
    }
}

#[via_fn]
proof fn lines_of_decreases(s: Seq<u8>) {
    lemma_find_byte_props(s, LF);
}

/// The parsed (token, occurrences, books) triple of one wellformed line.
pub open spec fn line_triple(l: Seq<u8>) -> (Seq<u8>, u32, u32) {
    (parsed_token(l), parsed_occ(l) as u32, parsed_books(l) as u32)
}

/// The parsed triples of a sequence of wellformed lines.
pub open spec fn parsed_triples(ls: Seq<Seq<u8>>) -> Seq<(Seq<u8>, u32, u32)> {
    ls.map_values(|l: Seq<u8>| line_triple(l))
}

pub open spec fn rec_of(t: (Seq<u8>, u32, u32)) -> Rec {
    Rec { token: t.0, occurrences: t.1, books: t.2 }
}

/// Adjacent merge: each run of consecutive triples sharing a token becomes
/// one record whose counts are the (saturating) sums of the run's counts.
pub open spec fn merge_adjacent(ts: Seq<(Seq<u8>, u32, u32)>) -> Seq<Rec>
    decreases ts.len(),
{
    if ts.len() == 0 {
        Seq::empty()
    } else {
        let prev = merge_adjacent(ts.drop_last());
        let t = ts.last();
        if prev.len() > 0 && prev.last().token == t.0 {
            prev.update(
                prev.len() - 1,
                Rec {
                    token: prev.last().token,
                    occurrences: sat32(prev.last().occurrences + t.1),
                    books: sat32(prev.last().books + t.2),
                },
            )
        } else {
            prev.push(rec_of(t))
        }
    }
}

/// Index of the last occurrence of `b` in `t`, if any.
pub open spec fn find_last_byte(t: Seq<u8>, b: u8) -> Option<int>
    decreases t.len(),
{
    if t.len() == 0 {
        None
    } else if t.last() == b {
        Some(t.len() - 1)
    } else {
        find_last_byte(t.drop_last(), b)
    }
}

pub broadcast proof fn lemma_find_last_byte_props(t: Seq<u8>, b: u8)
    ensures
        match #[trigger] find_last_byte(t, b) {
            Some(i) => 0 <= i < t.len() && t[i] == b && (forall|j: int|
                i < j < t.len() ==> t[j] != b),
            None => forall|j: int| 0 <= j < t.len() ==> t[j] != b,
        },
    decreases t.len(),
{
    if t.len() > 0 && t.last() != b {
        lemma_find_last_byte_props(t.drop_last(), b);
        assert(forall|j: int| 0 <= j < t.len() - 1 ==> t.drop_last()[j] == t[j]);
    }
}

/// Token normalization: everything from the last underscore on is removed;
/// a token without an underscore is unchanged.
pub open spec fn strip_suffix(t: Seq<u8>) -> Seq<u8> {
    match find_last_byte(t, UNDERSCORE) {
        None => t,
        Some(i) => t.take(i),
    }
}

pub open spec fn strip_rec(r: Rec) -> Rec {
    Rec { token: strip_suffix(r.token), occurrences: r.occurrences, books: r.books }
}

/// The per-file extraction model: parse all lines, merge adjacent runs,
/// then strip each aggregate's token suffix.
pub open spec fn extract_model(s: Seq<u8>) -> Seq<Rec> {
    merge_adjacent(parsed_triples(lines_of(s))).map_values(|r: Rec| strip_rec(r))
}

/// Every line of the file parses.
pub open spec fn all_lines_ok(s: Seq<u8>) -> bool {
    forall|j: int| 0 <= j < lines_of(s).len() ==> (#[trigger] line_fault(lines_of(s)[j])) is None
}

/// Split a decoded file into its lines.
pub fn split_lines(s: &Vec<u8>) -> (r: Vec<Vec<u8>>)
    ensures
        r.deep_view() == lines_of(s@),
{
    broadcast use lemma_find_byte_props;

    let mut out: Vec<Vec<u8>> = Vec::new();
    let mut cur: Vec<u8> = Vec::new();
    proof {
        assert(out.deep_view() =~= Seq::<Seq<u8>>::empty());
        assert(s@.skip(0) =~= s@);
        assert(out.deep_view() + lines_of(s@.skip(0)) =~= lines_of(s@));
    }
    for i in 0..s.len()
        invariant
            cur@.len() <= i <= s@.len(),
            cur@ == s@.subrange(i - cur@.len(), i as int),
            forall|j: int| i - cur@.len() <= j < i ==> s@[j] != LF,
            lines_of(s@) == out.deep_view() + lines_of(s@.skip(i - cur@.len())),
    {
        let ghost start = i - cur@.len();
        if s[i] == LF {
            proof {
                let rest = s@.skip(start);
                lemma_find_byte_props(rest, LF);
                assert(forall|j: int| 0 <= j <= cur@.len() ==> #[trigger] rest[j] == s@[start + j]);
                assert(rest[cur@.len() as int] == LF);
                match find_byte(rest, LF) {
                    None => {
                        assert(false);
                    },
                    Some(k) => {
                        if k < cur@.len() {
                            assert(s@[start + k] != LF);
                        }
                        if k > cur@.len() {
                            assert(rest[cur@.len() as int] != LF);
                        }
                        assert(k == cur@.len());
                    },
                }
                assert(rest.take(cur@.len() as int) =~= cur@);
                assert(rest.skip(cur@.len() as int + 1) =~= s@.skip(i + 1));
                assert(rest.len() > 0);
                assert(lines_of(rest) == seq![chomp_cr(cur@)] + lines_of(s@.skip(i + 1)));
            }
            let ghost cur0 = cur@;
            if cur.len() > 0 && cur[cur.len() - 1] == CR {
                cur.pop();
                proof {
                    assert(cur@ =~= chomp_cr(cur0));
                }
            } else {
                proof {
                    assert(cur@ =~= chomp_cr(cur0));
                }
            }
            let ghost old_out = out.deep_view();
            let ghost line0 = cur@;
            out.push(cur);
            cur = Vec::new();
            proof {
                assert(out.deep_view() =~~= old_out.push(line0));
                assert(old_out + (seq![line0] + lines_of(s@.skip(i + 1))) =~= old_out.push(line0)
                    + lines_of(s@.skip(i + 1)));
            }
        } else {
            cur.push(s[i]);
            proof {
                assert(cur@ =~= s@.subrange(i + 1 - cur@.len(), i + 1));
            }
        }
    }
    if cur.len() > 0 {
        let ghost old_out = out.deep_view();
        let ghost cur0 = cur@;
        proof {
            let rest = s@.skip(s@.len() - cur@.len());
            lemma_find_byte_props(rest, LF);
            match find_byte(rest, LF) {
                None => {},
                Some(k) => {
                    assert(rest[k] == s@[s@.len() - cur@.len() + k]);
                    assert(false);
                },
            }
            assert(rest =~= cur0);
            assert(rest.len() > 0);
            assert(lines_of(rest) == seq![cur0]);
            assert(old_out + seq![cur0] =~= old_out.push(cur0));
        }
        out.push(cur);
        proof {
            assert(out.deep_view() =~~= old_out.push(cur0));
        }
    } else {
        proof {
            assert(s@.skip(s@.len() - 0) =~= Seq::<u8>::empty());
            assert(lines_of(Seq::<u8>::empty()) == Seq::<Seq<u8>>::empty());
            assert(out.deep_view() + Seq::<Seq<u8>>::empty() =~= out.deep_view());
        }
    }
    out
}

/// Remove the suffix after the last underscore of a token, in place.
pub fn strip_token_suffix(t: &mut Vec<u8>)
    ensures
        final(t)@ == strip_suffix(old(t)@),
{
    let mut j: usize = t.len();
    while j > 0
        invariant
            j <= t@.len(),
            t@ == old(t)@,
            forall|m: int| j <= m < t@.len() ==> t@[m] != UNDERSCORE,
        decreases j,
    {
        j = j - 1;
        if t[j] == UNDERSCORE {
            proof {
                lemma_find_last_at(t@, UNDERSCORE, j as int);
            }
            t.truncate(j);
            proof {
                assert(t@ =~= old(t)@.take(j as int));
            }
            return;
        }
    }
    proof {
        lemma_find_last_byte_props(t@, UNDERSCORE);
        match find_last_byte(t@, UNDERSCORE) {
            None => {},
            Some(k) => {
                assert(t@[k] != UNDERSCORE);
                assert(false);
            },
        }
    }
}

proof fn lemma_find_last_at(t: Seq<u8>, b: u8, k: int)
    requires
        0 <= k < t.len(),
        t[k] == b,
        forall|m: int| k < m < t.len() ==> t[m] != b,
    ensures
        find_last_byte(t, b) == Some(k),
    decreases t.len(),
{
    if k == t.len() - 1 {
    } else {
        assert(t.last() != b);
        assert(forall|m: int| 0 <= m < t.len() - 1 ==> t.drop_last()[m] == t[m]);
        lemma_find_last_at(t.drop_last(), b, k);
    }
}

/// Extract the per-token aggregates of one decoded file: parse each line,
/// merge consecutive same-token lines, strip token suffixes. Fails on the
/// first malformed line with its 1-based position and fault.
pub fn extract_ngram(input: &Vec<u8>) -> (r: Result<Vec<Freq>, MalformedLine>)
    ensures
        match r {
            Ok(v) => all_lines_ok(input@) && recs(v@) == extract_model(input@),
            Err(e) => 1 <= e.line_number <= lines_of(input@).len() && line_fault(
                lines_of(input@)[e.line_number - 1],
            ) == Some(e.fault) && (forall|j: int|
                0 <= j < e.line_number - 1 ==> (#[trigger] line_fault(
                    lines_of(input@)[j],
                )) is None),
        },
{
    let lines = split_lines(input);
    let mut out: Vec<Freq> = Vec::new();
    let mut cur = Freq { token: Vec::new(), occurrences: 0, books: 0 };
    let mut started: bool = false;
    let mut i: usize = 0;
    while i < lines.len()
        invariant
            lines.deep_view() == lines_of(input@),
            lines@.len() == lines_of(input@).len(),
            i <= lines@.len(),
            forall|j: int| 0 <= j < i ==> (#[trigger] line_fault(lines_of(input@)[j])) is None,
            !started ==> i == 0 && out@.len() == 0,
            started ==> i > 0 && merge_adjacent(
                parsed_triples(lines_of(input@)).take(i as int),
            ).len() > 0 && cur@ == merge_adjacent(
                parsed_triples(lines_of(input@)).take(i as int),
            ).last() && recs(out@) == merge_adjacent(
                parsed_triples(lines_of(input@)).take(i as int),
            ).drop_last().map_values(|r: Rec| strip_rec(r)),
        decreases lines@.len() - i,
    {
        let ghost ts = parsed_triples(lines_of(input@));
        let ghost m_prev = merge_adjacent(ts.take(i as int));
        proof {
            assert(lines@[i as int]@ == lines.deep_view()[i as int]);
        }
        let parsed = parse_line(&lines[i]);
        match parsed {
            Err(f) => {
                return Err(MalformedLine { line_number: i + 1, fault: f });
            },
            Ok((tok, occ, books)) => {
                proof {
                    let l = lines_of(input@)[i as int];
                    lemma_digits_val_nonneg(num_digits(line_fields(l)[2]));
                    lemma_digits_val_nonneg(num_digits(line_fields(l)[3]));
                    assert(ts[i as int] == line_triple(l));
                    assert(ts[i as int].0 == tok@);
                    assert(ts[i as int].1 == occ);
                    assert(ts[i as int].2 == books);
                    assert(ts.take(i + 1).drop_last() =~= ts.take(i as int));
                    assert(ts.take(i + 1).last() == ts[i as int]);
                }
                if started && bytes_eq(&cur.token, &tok) {
                    cur.absorb(occ, books);
                    proof {
                        let m_next = merge_adjacent(ts.take(i + 1));
                        assert(m_next == m_prev.update(
                            m_prev.len() - 1,
                            Rec {
                                token: m_prev.last().token,
                                occurrences: sat32(m_prev.last().occurrences + occ),
                                books: sat32(m_prev.last().books + books),
                            },
                        ));
                        assert(cur@ =~= m_next.last());
                        assert(m_next.drop_last() =~= m_prev.drop_last());
                    }
                } else {
                    if started {
                        let ghost cur_before = cur@;
                        strip_token_suffix(&mut cur.token);
                        proof {
                            assert(cur@ =~= strip_rec(cur_before));
                        }
                        let ghost out_before = recs(out@);
                        out.push(cur);
                        proof {
                            assert(recs(out@) =~= out_before.push(strip_rec(cur_before)));
                            assert(m_prev =~= m_prev.drop_last().push(m_prev.last()));
                            assert(m_prev.drop_last().map_values(|r: Rec| strip_rec(r)).push(
                                strip_rec(m_prev.last()),
                            ) =~= m_prev.map_values(|r: Rec| strip_rec(r)));
                        }
                    }
                    cur = Freq { token: tok, occurrences: occ, books: books };
                    started = true;
                    proof {
                        let m_next = merge_adjacent(ts.take(i + 1));
                        if m_prev.len() > 0 {
                            assert(m_prev.last().token != tok@);
                        }
                        assert(m_next == m_prev.push(rec_of(ts[i as int])));
                        assert(cur@ =~= m_next.last());
                        assert(m_next.drop_last() =~= m_prev);
                        if out@.len() == 0 && m_prev.len() == 0 {
                            assert(recs(out@) =~= m_prev.map_values(|r: Rec| strip_rec(r)));
                        }
                    }
                }
            },
        }
        i = i + 1;
    }
    let ghost ts = parsed_triples(lines_of(input@));
    proof {
        assert(ts.take(lines_of(input@).len() as int) =~= ts);
    }
    if started {
        let ghost cur_before = cur@;
        let ghost m_full = merge_adjacent(ts);
        strip_token_suffix(&mut cur.token);
        proof {
            assert(cur@ =~= strip_rec(cur_before));
        }
        let ghost out_before = recs(out@);
        out.push(cur);
        proof {
            assert(recs(out@) =~= out_before.push(strip_rec(cur_before)));
            assert(m_full =~= m_full.drop_last().push(m_full.last()));
            assert(m_full.drop_last().map_values(|r: Rec| strip_rec(r)).push(
                strip_rec(m_full.last()),
            ) =~= m_full.map_values(|r: Rec| strip_rec(r)));
        }
    } else {
        proof {
            assert(ts.len() == 0);
            assert(merge_adjacent(ts) == Seq::<Rec>::empty());
            assert(recs(out@) =~= extract_model(input@));
        }
    }
    Ok(out)
}

} // verus!
