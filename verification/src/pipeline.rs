//! The pipeline entry points: fan the extractor over many decoded files,
//! fold everything through the global dedup/merge stage, and reprocess or
//! re-encode existing snapshots.

use vstd::prelude::*;
use crate::record::{Freq, Rec, recs, sat32};
use crate::model::{
    sum_by, nonneg_weight, total_occ, total_books, lemma_sum_by_push, lemma_sum_by_take_step,
    lemma_sum_by_nonneg, lemma_sum_by_take_le, lemma_sum_by_remove,
};
use crate::parse::MalformedLine;
use crate::extract::{
    extract_ngram, extract_model, all_lines_ok, lines_of, line_triple, parsed_triples,
};
use crate::parse::line_fault;
use crate::dedup::{dedup, canonical_of};
use crate::codec::{
    encode, decode, encode_model, decode_model, SnapshotFault, lemma_snapshot_roundtrip,
};

verus! {

/// Occurrence count of one parsed line triple.
pub open spec fn triple_occ() -> spec_fn((Seq<u8>, u32, u32)) -> int {
    |t: (Seq<u8>, u32, u32)| t.1 as int
}

/// Book count of one parsed line triple.
pub open spec fn triple_books() -> spec_fn((Seq<u8>, u32, u32)) -> int {
    |t: (Seq<u8>, u32, u32)| t.2 as int
}

/// Sum of the occurrence fields over all parsed lines of a wellformed file.
pub open spec fn file_occ_weight() -> spec_fn(Seq<u8>) -> int {
    |f: Seq<u8>|
        if all_lines_ok(f) {
            sum_by(parsed_triples(lines_of(f)), triple_occ())
        } else {
            0
        }
}

/// Sum of the book fields over all parsed lines of a wellformed file.
pub open spec fn file_books_weight() -> spec_fn(Seq<u8>) -> int {
    |f: Seq<u8>|
        if all_lines_ok(f) {
            sum_by(parsed_triples(lines_of(f)), triple_books())
        } else {
            0
        }
}

/// Total occurrences over all successfully parsed lines of all files that
/// parse; files with a malformed line contribute nothing.
pub open spec fn ok_occ_sum(files: Seq<Seq<u8>>) -> int {
    sum_by(files, file_occ_weight())
}

pub open spec fn ok_books_sum(files: Seq<Seq<u8>>) -> int {
    sum_by(files, file_books_weight())
}

/// The run's grand totals fit in 32-bit counters.
pub open spec fn pipeline_fits(files: Seq<Seq<u8>>) -> bool {
    ok_occ_sum(files) <= u32::MAX && ok_books_sum(files) <= u32::MAX
}

/// The concatenated aggregates of every file that parses, in file order.
pub open spec fn pipeline_input(files: Seq<Seq<u8>>) -> Seq<Rec>
    decreases files.len(),
{
    if files.len() == 0 {
        Seq::empty()
    } else {
        pipeline_input(files.drop_last()) + (if all_lines_ok(files.last()) {
            extract_model(files.last())
        } else {
            Seq::empty()
        })
    }
}

/// Counts are carried through adjacent merging unchanged: the totals of
/// the merged aggregates equal the totals of the parsed lines, provided
/// those totals fit in 32 bits (so no merge saturates).
proof fn lemma_merge_totals(ts: Seq<(Seq<u8>, u32, u32)>)
    requires
        sum_by(ts, triple_occ()) <= u32::MAX,
        sum_by(ts, triple_books()) <= u32::MAX,
    ensures
        total_occ(crate::extract::merge_adjacent(ts)) == sum_by(ts, triple_occ()),
        total_books(crate::extract::merge_adjacent(ts)) == sum_by(ts, triple_books()),
    decreases ts.len(),
{
    assert(nonneg_weight(triple_occ())) by {
        assert(forall|t: (Seq<u8>, u32, u32)| #[trigger] triple_occ()(t) >= 0);
    }
    assert(nonneg_weight(triple_books())) by {
        assert(forall|t: (Seq<u8>, u32, u32)| #[trigger] triple_books()(t) >= 0);
    }
    assert(nonneg_weight(crate::model::occ_of())) by {
        assert(forall|r: Rec| #[trigger] crate::model::occ_of()(r) >= 0);
    }
    assert(nonneg_weight(crate::model::books_of())) by {
        assert(forall|r: Rec| #[trigger] crate::model::books_of()(r) >= 0);
    }
    if ts.len() > 0 {
        let ts1 = ts.drop_last();
        let t = ts.last();
        lemma_sum_by_nonneg(ts1, triple_occ());
        lemma_sum_by_nonneg(ts1, triple_books());
        assert(triple_occ()(t) == t.1 as int);
        assert(triple_books()(t) == t.2 as int);
        lemma_merge_totals(ts1);
        let m = crate::extract::merge_adjacent(ts1);
        let m1 = crate::extract::merge_adjacent(ts);
        if m.len() > 0 && m.last().token == t.0 {
            let last = m.last();
            lemma_sum_by_remove(m, m.len() - 1, crate::model::occ_of());
            lemma_sum_by_remove(m, m.len() - 1, crate::model::books_of());
            lemma_sum_by_nonneg(m.remove(m.len() - 1), crate::model::occ_of());
            lemma_sum_by_nonneg(m.remove(m.len() - 1), crate::model::books_of());
            assert(last.occurrences <= total_occ(m));
            assert(last.books <= total_books(m));
            let merged = Rec {
                token: last.token,
                occurrences: sat32(last.occurrences + t.1),
                books: sat32(last.books + t.2),
            };
            assert(merged.occurrences == last.occurrences + t.1);
            assert(merged.books == last.books + t.2);
            assert(m1 == m.update(m.len() - 1, merged));
            assert(m1.remove(m1.len() - 1) =~= m.remove(m.len() - 1));
            lemma_sum_by_remove(m1, m1.len() - 1, crate::model::occ_of());
            lemma_sum_by_remove(m1, m1.len() - 1, crate::model::books_of());
        } else {
            assert(m1 == m.push(
                Rec { token: t.0, occurrences: t.1, books: t.2 },
            ));
            lemma_sum_by_push(m, Rec { token: t.0, occurrences: t.1, books: t.2 },
                crate::model::occ_of());
            lemma_sum_by_push(m, Rec { token: t.0, occurrences: t.1, books: t.2 },
                crate::model::books_of());
        }
    }
}

/// Suffix stripping changes tokens only: totals are untouched.
proof fn lemma_strip_totals(s: Seq<Rec>)
    ensures
        total_occ(s.map_values(|r: Rec| crate::extract::strip_rec(r))) == total_occ(s),
        total_books(s.map_values(|r: Rec| crate::extract::strip_rec(r))) == total_books(s),
    decreases s.len(),
{
    let f = |r: Rec| crate::extract::strip_rec(r);
    if s.len() == 0 {
        assert(s.map_values(f) =~= Seq::<Rec>::empty());
    } else {
        lemma_strip_totals(s.drop_last());
        assert(s.map_values(f).drop_last() =~= s.drop_last().map_values(f));
        assert(s.map_values(f).last() == f(s.last()));
    }
}

/// The totals of one wellformed file's aggregates are the totals of its
/// parsed lines, when they fit.
proof fn lemma_extract_totals(f: Seq<u8>)
    requires
        all_lines_ok(f),
        sum_by(parsed_triples(lines_of(f)), triple_occ()) <= u32::MAX,
        sum_by(parsed_triples(lines_of(f)), triple_books()) <= u32::MAX,
    ensures
        total_occ(extract_model(f)) == file_occ_weight()(f),
        total_books(extract_model(f)) == file_books_weight()(f),
{
    lemma_merge_totals(parsed_triples(lines_of(f)));
    lemma_strip_totals(crate::extract::merge_adjacent(parsed_triples(lines_of(f))));
}

/// The outcome of one full pipeline run: the canonical table, and the
/// files that were skipped, each with the parse fault that caused it.
pub struct PipelineOutcome {
    pub table: Vec<Freq>,
    pub skipped: Vec<(usize, MalformedLine)>,
}

/// Run the aggregation pipeline over the decoded texts of all input files.
/// Files are processed independently; a file with a malformed line is
/// skipped and reported while the rest of the run proceeds. The result is
/// the canonical table of all aggregates of the files that parsed.
pub fn run_pipeline(files: &Vec<Vec<u8>>) -> (r: PipelineOutcome)
    ensures
        canonical_of(pipeline_input(files.deep_view()), recs(r.table@)),
        forall|j: int|
            0 <= j < r.skipped@.len() ==> {
                let fi = (#[trigger] r.skipped@[j]).0 as int;
                let e = r.skipped@[j].1;
                &&& fi < files.deep_view().len()
                &&& !all_lines_ok(files.deep_view()[fi])
                &&& 1 <= e.line_number <= lines_of(files.deep_view()[fi]).len()
                &&& line_fault(lines_of(files.deep_view()[fi])[e.line_number - 1]) == Some(e.fault)
                &&& forall|m: int|
                    0 <= m < e.line_number - 1 ==> (#[trigger] line_fault(
                        lines_of(files.deep_view()[fi])[m],
                    )) is None
            },
        forall|i: int|
            0 <= i < files.deep_view().len() ==> ((#[trigger] all_lines_ok(
                files.deep_view()[i],
            )) <==> !exists|j: int|
                0 <= j < r.skipped@.len() && (#[trigger] r.skipped@[j]).0 == i),
        pipeline_fits(files.deep_view()) ==> total_occ(recs(r.table@)) == ok_occ_sum(
            files.deep_view(),
        ) && total_books(recs(r.table@)) == ok_books_sum(files.deep_view()),
{
    let ghost dv = files.deep_view();
    let mut all: Vec<Freq> = Vec::new();
    let mut skipped: Vec<(usize, MalformedLine)> = Vec::new();
    proof {
        assert(nonneg_weight(file_occ_weight())) by {
            assert forall|f: Seq<u8>| #[trigger] file_occ_weight()(f) >= 0 by {
                if all_lines_ok(f) {
                    assert(nonneg_weight(triple_occ())) by {
                        assert(forall|t: (Seq<u8>, u32, u32)| #[trigger] triple_occ()(t) >= 0);
                    }
                    lemma_sum_by_nonneg(parsed_triples(lines_of(f)), triple_occ());
                }
            }
        }
        assert(nonneg_weight(file_books_weight())) by {
            assert forall|f: Seq<u8>| #[trigger] file_books_weight()(f) >= 0 by {
                if all_lines_ok(f) {
                    assert(nonneg_weight(triple_books())) by {
                        assert(forall|t: (Seq<u8>, u32, u32)| #[trigger] triple_books()(t) >= 0);
                    }
                    lemma_sum_by_nonneg(parsed_triples(lines_of(f)), triple_books());
                }
            }
        }
        assert(pipeline_input(dv.take(0)) =~= Seq::<Rec>::empty());
        assert(recs(all@) =~= Seq::<Rec>::empty());
        assert(ok_occ_sum(dv.take(0)) == 0);
    }
    for i in 0..files.len()
        invariant
            dv == files.deep_view(),
            dv.len() == files@.len(),
            nonneg_weight(file_occ_weight()),
            nonneg_weight(file_books_weight()),
            recs(all@) == pipeline_input(dv.take(i as int)),
            forall|j: int|
                0 <= j < skipped@.len() ==> {
                    let fi = (#[trigger] skipped@[j]).0 as int;
                    let e = skipped@[j].1;
                    &&& fi < i
                    &&& !all_lines_ok(dv[fi])
                    &&& 1 <= e.line_number <= lines_of(dv[fi]).len()
                    &&& line_fault(lines_of(dv[fi])[e.line_number - 1]) == Some(e.fault)
                    &&& forall|m: int|
                        0 <= m < e.line_number - 1 ==> (#[trigger] line_fault(
                            lines_of(dv[fi])[m],
                        )) is None
                },
            forall|fi: int|
                0 <= fi < i ==> ((#[trigger] all_lines_ok(dv[fi])) <==> !exists|j: int|
                    0 <= j < skipped@.len() && (#[trigger] skipped@[j]).0 == fi),
            pipeline_fits(dv) ==> total_occ(recs(all@)) == ok_occ_sum(dv.take(i as int))
                && total_books(recs(all@)) == ok_books_sum(dv.take(i as int)),
    {
        proof {
            assert(files@[i as int]@ == dv[i as int]);
            assert(dv.take(i + 1).drop_last() =~= dv.take(i as int));
            assert(dv.take(i + 1).last() == dv[i as int]);
            lemma_sum_by_take_step(dv, i as int, file_occ_weight());
            lemma_sum_by_take_step(dv, i as int, file_books_weight());
        }
        let extracted = extract_ngram(&files[i]);
        match extracted {
            Ok(mut v) => {
                let ghost all0 = recs(all@);
                let ghost v0 = recs(v@);
                all.append(&mut v);
                proof {
                    assert(recs(all@) =~= all0 + v0);
                    assert(pipeline_input(dv.take(i + 1)) == pipeline_input(dv.take(i as int))
                        + extract_model(dv[i as int]));
                    if pipeline_fits(dv) {
                        lemma_sum_by_take_le(dv, i + 1, file_occ_weight());
                        lemma_sum_by_take_le(dv, i + 1, file_books_weight());
                        lemma_sum_by_nonneg(dv.take(i as int), file_occ_weight());
                        lemma_sum_by_nonneg(dv.take(i as int), file_books_weight());
                        assert(file_occ_weight()(dv[i as int]) <= u32::MAX);
                        assert(file_books_weight()(dv[i as int]) <= u32::MAX);
                        lemma_extract_totals(dv[i as int]);
                        assert(total_occ(all0 + v0) == total_occ(all0) + total_occ(v0)) by {
                            lemma_sum_concat(all0, v0, crate::model::occ_of());
                        }
                        assert(total_books(all0 + v0) == total_books(all0) + total_books(v0)) by {
                            lemma_sum_concat(all0, v0, crate::model::books_of());
                        }
                    }
                }
            },
            Err(e) => {
                let ghost sk0 = skipped@;
                skipped.push((i, e));
                proof {
                    assert(skipped@ == sk0.push((i, e)));
                    assert(pipeline_input(dv.take(i + 1)) =~= pipeline_input(dv.take(i as int))
                        + Seq::<Rec>::empty());
                    assert(file_occ_weight()(dv[i as int]) == 0);
                    assert(file_books_weight()(dv[i as int]) == 0);
                    assert forall|fi: int|
                        0 <= fi < i + 1 implies ((#[trigger] all_lines_ok(dv[fi])) <==> !exists|j:
                        int| 0 <= j < skipped@.len() && (#[trigger] skipped@[j]).0 == fi) by {
                        if fi < i {
                            if all_lines_ok(dv[fi]) {
                                if exists|j: int|
                                    0 <= j < skipped@.len() && (#[trigger] skipped@[j]).0 == fi {
                                    let j = choose|j: int|
                                        0 <= j < skipped@.len() && (#[trigger] skipped@[j]).0
                                            == fi;
                                    assert(j < sk0.len());
                                    assert(sk0[j].0 == fi);
                                }
                            } else {
                                let j = choose|j: int|
                                    0 <= j < sk0.len() && (#[trigger] sk0[j]).0 == fi;
                                assert(skipped@[j].0 == fi);
                            }
                        } else {
                            assert(skipped@[skipped@.len() - 1].0 == i);
                        }
                    }
                }
            },
        }
    }
    proof {
        assert(dv.take(dv.len() as int) =~= dv);
    }
    let table = dedup(all);
    PipelineOutcome { table, skipped }
}

/// Sums split over concatenation.
proof fn lemma_sum_concat<A>(a: Seq<A>, b: Seq<A>, f: spec_fn(A) -> int)
    ensures
        sum_by(a + b, f) == sum_by(a, f) + sum_by(b, f),
    decreases b.len(),
{
    if b.len() == 0 {
        assert(a + b =~= a);
    } else {
        assert((a + b).drop_last() =~= a + b.drop_last());
        assert((a + b).last() == b.last());
        lemma_sum_concat(a, b.drop_last(), f);
    }
}

/// Re-apply the global dedup/merge stage to an existing table, e.g. after
/// an external normalization pass reintroduced duplicate keys.
pub fn reprocess(table: Vec<Freq>) -> (r: Vec<Freq>)
    ensures
        canonical_of(recs(table@), recs(r@)),
{
    dedup(table)
}

/// Decode a snapshot, re-run the dedup/merge stage on its table, and
/// encode the result. Fails exactly when the input bytes are corrupt.
pub fn dedup_file(bytes: &Vec<u8>) -> (r: Result<Vec<u8>, SnapshotFault>)
    ensures
        match r {
            Ok(out) => decode_model(bytes@) is Ok && decode_model(out@) is Ok && canonical_of(
                decode_model(bytes@)->Ok_0,
                decode_model(out@)->Ok_0,
            ),
            Err(e) => decode_model(bytes@) == Err::<Seq<Rec>, SnapshotFault>(e),
        },
{
    let table = match decode(bytes) {
        Ok(t) => t,
        Err(e) => {
            return Err(e);
        },
    };
    let ghost orig = recs(table@);
    let deduped = dedup(table);
    let out = encode(&deduped);
    proof {
        broadcast use vstd::std_specs::vec::axiom_spec_len;

        assert(deduped@.len() <= u64::MAX);
        assert forall|i: int| 0 <= i < recs(deduped@).len() implies (#[trigger] recs(
            deduped@,
        )[i]).token.len() <= u64::MAX by {
            assert(recs(deduped@)[i].token == deduped@[i].token@);
            assert(deduped@[i].token.len() <= usize::MAX);
        }
        lemma_snapshot_roundtrip(recs(deduped@));
    }
    Ok(out)
}

/// The lowercase form of a token's bytes, as `str::to_lowercase` computes
/// it; bytes that are not valid UTF-8 are left unchanged.
pub uninterp spec fn lower_of(s: Seq<u8>) -> Seq<u8>;

/// Relies on str::to_lowercase (and str::from_utf8 to read the bytes):
/// both depend on the bytes alone, so the result is a function of the
/// token's bytes.
#[verifier::external_body]
fn lowercase_bytes(t: &Vec<u8>) -> (r: Vec<u8>)
    ensures
        r@ == lower_of(t@),
{
    match core::str::from_utf8(t.as_slice()) {
        Ok(s) => s.to_lowercase().into_bytes(),
        Err(_) => t.clone(),
    }
}

/// A record with its token case-folded.
pub open spec fn lower_rec(r: Rec) -> Rec {
    Rec { token: lower_of(r.token), occurrences: r.occurrences, books: r.books }
}

/// A table with every token case-folded.
pub open spec fn lowered(s: Seq<Rec>) -> Seq<Rec> {
    s.map_values(|r: Rec| lower_rec(r))
}

/// Case-fold every token, then re-run the global dedup/merge stage, so
/// that tokens differing only in case merge into one entry.
pub fn dedup_cases(freqs: Vec<Freq>) -> (r: Vec<Freq>)
    ensures
        canonical_of(lowered(recs(freqs@)), recs(r@)),
{
    let ghost orig = recs(freqs@);
    let mut rest = freqs;
    let mut low: Vec<Freq> = Vec::new();
    proof {
        assert(recs(rest@) =~= orig.skip(0));
        assert(recs(low@) =~= lowered(orig.take(0)));
    }
    while rest.len() > 0
        invariant
            rest@.len() <= orig.len(),
            recs(rest@) == orig.skip(orig.len() - rest@.len()),
            recs(low@) == lowered(orig.take(orig.len() - rest@.len())),
        decreases rest@.len(),
    {
        let ghost n = orig.len() - rest@.len();
        let ghost rest0 = rest@;
        let f = rest.remove(0);
        proof {
            assert(recs(rest0) == orig.skip(n as int));
            assert(f == rest0[0]);
            assert(recs(rest0)[0] == rest0[0]@);
            assert(f@ == orig[n as int]);
            assert(rest@ =~= rest0.remove(0));
            assert forall|j: int| 0 <= j < rest@.len() implies recs(rest@)[j] == orig.skip(
                n + 1,
            )[j] by {
                assert(rest@[j] == rest0[j + 1]);
                assert(recs(rest0)[j + 1] == rest0[j + 1]@);
            }
            assert(recs(rest@) =~= orig.skip(n + 1));
        }
        let ghost low0 = recs(low@);
        let tok = lowercase_bytes(&f.token);
        low.push(Freq { token: tok, occurrences: f.occurrences, books: f.books });
        proof {
            assert(recs(low@) =~= low0.push(lower_rec(orig[n as int])));
            assert(orig.take(n + 1).drop_last() =~= orig.take(n as int));
            assert(orig.take(n + 1).last() == orig[n as int]);
            assert(lowered(orig.take(n + 1)) =~= lowered(orig.take(n as int)).push(
                lower_rec(orig[n as int]),
            ));
        }
    }
    proof {
        assert(orig.take(orig.len() as int) =~= orig);
    }
    dedup(low)
}

/// Tokens of the `n` least-frequent records of a canonical table, least
/// frequent first.
pub fn tail_tokens(table: &Vec<Freq>, n: usize) -> (r: Vec<Vec<u8>>)
    ensures
        r@.len() == if n <= table@.len() {
            n as int
        } else {
            table@.len() as int
        },
        forall|j: int| 0 <= j < r@.len() ==> (#[trigger] r@[j])@ == table@[table@.len() - 1 - j].token@,
{
    let mut r: Vec<Vec<u8>> = Vec::new();
    let count = if n <= table.len() {
        n
    } else {
        table.len()
    };
    for j in 0..count
        invariant
            count <= table@.len(),
            r@.len() == j,
            forall|m: int| 0 <= m < j ==> (#[trigger] r@[m])@ == table@[table@.len() - 1 - m].token@,
    {
        let mut tok: Vec<u8> = Vec::new();
        let src = &table[table.len() - 1 - j];
        for b in 0..src.token.len()
            invariant
                tok@ == src.token@.take(b as int),
        {
            tok.push(src.token[b]);
            proof {
                assert(tok@ =~= src.token@.take(b + 1));
            }
        }
        proof {
            assert(src.token@.take(src.token@.len() as int) =~= src.token@);
        }
        r.push(tok);
    }
    r
}

} // verus!
