//! The global dedup/merge stage: folds all aggregates into one entry per
//! token, summing counts on every collision, then sorts the table by
//! descending occurrence count.

use vstd::prelude::*;
use crate::record::{Freq, Rec, recs, sat32, bytes_eq};
use crate::model::{
    occ_weight, books_weight, occ_of, books_of, key_occ, key_books,
    total_occ, total_books, has_token, unique_tokens, sorted_desc, fits,
    nonneg_weight, lemma_sum_by_push, lemma_sum_by_take_step, lemma_sum_by_nonneg,
    lemma_sum_by_take_le, lemma_sum_by_remove, lemma_sum_by_permutation,
    lemma_has_token_permutation, lemma_sum_by_le, lemma_key_absent, lemma_key_unique_contrib,
    lemma_unique_tokens_permutation, lemma_sat32_add,
};

verus! {

/// The properties the canonical table owes to its input, shared by the
/// contracts of `dedup` and `reprocess`: one entry per input token, each
/// entry carrying its token's (saturating) total counts, ordered by
/// descending occurrence count, and, when the input's grand totals fit in
/// 32 bits, preserving those totals exactly.
pub open spec fn canonical_of(inp: Seq<Rec>, out: Seq<Rec>) -> bool {
    &&& unique_tokens(out)
    &&& sorted_desc(out)
    &&& (forall|t: Seq<u8>| #[trigger] has_token(out, t) <==> has_token(inp, t))
    &&& (forall|i: int|
        0 <= i < out.len() ==> (#[trigger] out[i]).occurrences == sat32(key_occ(inp, out[i].token))
            && out[i].books == sat32(key_books(inp, out[i].token)))
    &&& (fits(inp) ==> total_occ(out) == total_occ(inp) && total_books(out) == total_books(inp))
}

/// Find the index of the entry carrying `tok`, if one exists.
fn find_token(acc: &Vec<Freq>, tok: &Vec<u8>) -> (r: Option<usize>)
    ensures
        match r {
            Some(k) => (k as int) < acc@.len() && recs(acc@)[k as int].token == tok@,
            None => !has_token(recs(acc@), tok@),
        },
{
    for k in 0..acc.len()
        invariant
            forall|j: int| 0 <= j < k ==> (#[trigger] recs(acc@)[j]).token != tok@,
    {
        if bytes_eq(&acc[k].token, tok) {
            return Some(k);
        }
    }
    None
}

/// Index of a record with the largest occurrence count.
fn find_max_occ(v: &Vec<Freq>) -> (k: usize)
    requires
        v@.len() > 0,
    ensures
        (k as int) < v@.len(),
        forall|j: int|
            0 <= j < v@.len() ==> recs(v@)[k as int].occurrences >= (#[trigger] recs(
                v@,
            )[j]).occurrences,
{
    let mut best: usize = 0;
    for i in 1..v.len()
        invariant
            best < i <= v@.len(),
            forall|j: int|
                0 <= j < i ==> recs(v@)[best as int].occurrences >= (#[trigger] recs(
                    v@,
                )[j]).occurrences,
    {
        if v[i].occurrences > v[best].occurrences {
            best = i;
        }
    }
    best
}

/// Sort a table by descending occurrence count; the result is a
/// permutation of the input.
fn sort_desc(input: Vec<Freq>) -> (r: Vec<Freq>)
    ensures
        recs(r@).to_multiset() == recs(input@).to_multiset(),
        sorted_desc(recs(r@)),
{
    broadcast use vstd::seq_lib::group_to_multiset_ensures;
    broadcast use vstd::multiset::group_multiset_axioms;

    let ghost orig = recs(input@);
    let mut rest = input;
    let mut out: Vec<Freq> = Vec::new();
    proof {
        assert(recs(out@).to_multiset().add(recs(rest@).to_multiset()) =~= orig.to_multiset());
    }
    while rest.len() > 0
        invariant
            recs(out@).to_multiset().add(recs(rest@).to_multiset()) == orig.to_multiset(),
            sorted_desc(recs(out@)),
            forall|a: int, b: int|
                0 <= a < out@.len() && 0 <= b < rest@.len() ==> (#[trigger] recs(
                    out@,
                )[a]).occurrences >= (#[trigger] recs(rest@)[b]).occurrences,
        decreases rest@.len(),
    {
        let ghost r0 = recs(rest@);
        let ghost o0 = recs(out@);
        let k = find_max_occ(&rest);
        let x = rest.remove(k);
        out.push(x);
        proof {
            broadcast use vstd::seq_lib::group_to_multiset_ensures;
            broadcast use vstd::multiset::group_multiset_axioms;

            assert(x@ == r0[k as int]);
            assert(recs(rest@) =~= r0.remove(k as int));
            assert(recs(out@) =~= o0.push(x@));
            assert(r0.contains(x@));
            assert(r0.to_multiset().count(x@) > 0);
            assert(o0.push(x@).to_multiset().add(r0.remove(k as int).to_multiset()) =~= o0
                .to_multiset().add(r0.to_multiset()));
            assert forall|a: int| 0 <= a && a + 1 < recs(out@).len() implies (#[trigger] recs(
                out@,
            )[a]).occurrences >= recs(out@)[a + 1].occurrences by {
                if a + 1 == recs(out@).len() - 1 {
                    assert(recs(out@)[a + 1] == x@);
                }
            }
            assert forall|a: int, b: int|
                0 <= a < out@.len() && 0 <= b < rest@.len() implies (#[trigger] recs(
                out@,
            )[a]).occurrences >= (#[trigger] recs(rest@)[b]).occurrences by {
                let rb = recs(rest@)[b];
                if b < k {
                    assert(rb == r0[b]);
                } else {
                    assert(rb == r0[b + 1]);
                }
                if a < o0.len() {
                    assert(recs(out@)[a] == o0[a]);
                } else {
                    assert(recs(out@)[a] == x@);
                }
            }
        }
    }
    proof {
        broadcast use vstd::seq_lib::group_to_multiset_ensures;
        broadcast use vstd::multiset::group_multiset_axioms;

        assert(recs(rest@).to_multiset().len() == 0);
        assert(recs(out@).to_multiset().add(recs(rest@).to_multiset()) =~= recs(
            out@,
        ).to_multiset());
    }
    out
}

/// The global dedup/merge stage. Folds the input into one record per
/// token, summing occurrence and book counts over every collision
/// (saturating at `u32::MAX`), then sorts by descending occurrence count.
pub fn dedup(freqs: Vec<Freq>) -> (r: Vec<Freq>)
    ensures
        canonical_of(recs(freqs@), recs(r@)),
{
    let ghost orig = recs(freqs@);
    let mut rest = freqs;
    let mut acc: Vec<Freq> = Vec::new();
    proof {
        assert(recs(rest@) =~= orig.skip(0));
        assert(orig.take(0) =~= Seq::<Rec>::empty());
        assert(nonneg_weight(occ_of())) by {
            assert(forall|r: Rec| #[trigger] occ_of()(r) >= 0);
        }
    }
    while rest.len() > 0
        invariant
            rest@.len() <= orig.len(),
            recs(rest@) == orig.skip(orig.len() - rest@.len()),
            unique_tokens(recs(acc@)),
            forall|t: Seq<u8>| #[trigger]
                has_token(recs(acc@), t) <==> has_token(
                    orig.take(orig.len() - rest@.len()),
                    t,
                ),
            forall|j: int|
                0 <= j < acc@.len() ==> (#[trigger] recs(acc@)[j]).occurrences == sat32(
                    key_occ(orig.take(orig.len() - rest@.len()), recs(acc@)[j].token),
                ) && recs(acc@)[j].books == sat32(
                    key_books(orig.take(orig.len() - rest@.len()), recs(acc@)[j].token),
                ),
            fits(orig) ==> total_occ(recs(acc@)) == total_occ(
                orig.take(orig.len() - rest@.len()),
            ) && total_books(recs(acc@)) == total_books(orig.take(orig.len() - rest@.len())),
        decreases rest@.len(),
    {
        let ghost n = orig.len() - rest@.len();
        let ghost p = orig.take(n as int);
        let ghost p1 = orig.take(n + 1);
        let ghost rest0 = rest@;
        let f = rest.remove(0);
        let ghost t = f@.token;
        proof {
            assert(recs(rest0) == orig.skip(n as int));
            assert(orig.skip(n as int).len() == rest0.len());
            assert(f == rest0[0]);
            assert(recs(rest0)[0] == rest0[0]@);
            assert(f@ == orig.skip(n as int)[0]);
            assert(f@ == orig[n as int]);
            assert(rest@ =~= rest0.remove(0));
            assert forall|j: int| 0 <= j < rest@.len() implies recs(rest@)[j] == orig.skip(
                n + 1,
            )[j] by {
                assert(rest@[j] == rest0[j + 1]);
                assert(recs(rest0)[j + 1] == rest0[j + 1]@);
                assert(orig.skip(n as int)[j + 1] == orig[n + 1 + j]);
            }
            assert(recs(rest@) =~= orig.skip(n + 1));
            assert(p1.drop_last() =~= p);
            assert(p1.last() == orig[n as int]);
            lemma_sum_by_take_step(orig, n as int, occ_weight(t));
            lemma_sum_by_take_step(orig, n as int, books_weight(t));
            assert(occ_weight(t)(orig[n as int]) == f@.occurrences);
            assert(books_weight(t)(orig[n as int]) == f@.books);
            assert(nonneg_weight(occ_weight(t))) by {
                assert(forall|r: Rec| #[trigger] occ_weight(t)(r) >= 0);
            }
            assert(nonneg_weight(books_weight(t))) by {
                assert(forall|r: Rec| #[trigger] books_weight(t)(r) >= 0);
            }
            lemma_sum_by_nonneg(p, occ_weight(t));
            lemma_sum_by_nonneg(p, books_weight(t));
            if fits(orig) {
                // under fitting totals, no per-token prefix sum can saturate
                lemma_sum_by_take_le(orig, n + 1, occ_weight(t));
                lemma_sum_by_take_le(orig, n + 1, books_weight(t));
                assert(nonneg_weight(books_of())) by {
                    assert(forall|r: Rec| #[trigger] books_of()(r) >= 0);
                }
                assert forall|r: Rec| #[trigger] occ_weight(t)(r) <= #[trigger] occ_of()(r) by {}
                assert forall|r: Rec| #[trigger] books_weight(t)(r) <= #[trigger] books_of()(
                    r,
                ) by {}
                lemma_sum_by_le(orig, occ_weight(t), occ_of());
                lemma_sum_by_le(orig, books_weight(t), books_of());
                assert(key_occ(p1, t) <= u32::MAX);
                assert(key_books(p1, t) <= u32::MAX);
                lemma_sum_by_take_step(orig, n as int, occ_of());
                lemma_sum_by_take_step(orig, n as int, books_of());
            }
        }
        let found = find_token(&acc, &f.token);
        match found {
            Some(k) => {
                let ghost a = recs(acc@);
                let new_occ: u32 = if acc[k].occurrences <= u32::MAX - f.occurrences {
                    acc[k].occurrences + f.occurrences
                } else {
                    u32::MAX
                };
                let new_books: u32 = if acc[k].books <= u32::MAX - f.books {
                    acc[k].books + f.books
                } else {
                    u32::MAX
                };
                let e = Freq { token: f.token, occurrences: new_occ, books: new_books };
                let ghost ev = e@;
                acc[k] = e;
                proof {
                    let b = recs(acc@);
                    assert(b =~= a.update(k as int, ev));
                    assert(a[k as int].token == t);
                    assert(a[k as int].occurrences == sat32(key_occ(p, t)));
                    assert(a[k as int].books == sat32(key_books(p, t)));
                    lemma_sat32_add(key_occ(p, t), f@.occurrences as int);
                    lemma_sat32_add(key_books(p, t), f@.books as int);
                    assert(ev.occurrences == sat32(key_occ(p1, t)));
                    assert(ev.books == sat32(key_books(p1, t)));
                    // uniqueness: tokens are unchanged pointwise
                    assert(forall|j: int| 0 <= j < b.len() ==> (#[trigger] b[j]).token == a[j].token);
                    assert(unique_tokens(b));
                    // membership: the merged token was already present
                    assert forall|u: Seq<u8>| #[trigger]
                        has_token(b, u) <==> has_token(p1, u) by {
                        if has_token(b, u) {
                            let j = choose|j: int| 0 <= j < b.len() && b[j].token == u;
                            assert(a[j].token == u);
                            assert(has_token(a, u));
                            assert(has_token(p, u));
                            let j2 = choose|j2: int| 0 <= j2 < p.len() && p[j2].token == u;
                            assert(p1[j2].token == u);
                            assert(has_token(p1, u));
                        }
                        if has_token(p1, u) {
                            let j = choose|j: int| 0 <= j < p1.len() && p1[j].token == u;
                            if j < p.len() {
                                assert(p[j].token == u);
                                assert(has_token(p, u));
                                assert(has_token(a, u));
                                let m = choose|m: int| 0 <= m < a.len() && a[m].token == u;
                                assert(b[m].token == u);
                                assert(has_token(b, u));
                            } else {
                                assert(u == t);
                                assert(b[k as int].token == u);
                                assert(has_token(b, u));
                            }
                        }
                    }
                    // per-entry sums
                    assert forall|j: int| 0 <= j < b.len() implies (#[trigger] b[j]).occurrences
                        == sat32(key_occ(p1, b[j].token)) && b[j].books == sat32(
                        key_books(p1, b[j].token),
                    ) by {
                        if j == k as int {
                        } else {
                            let u = a[j].token;
                            assert(b[j] == a[j]);
                            assert(u != t);
                            lemma_sum_by_take_step(orig, n as int, occ_weight(u));
                            lemma_sum_by_take_step(orig, n as int, books_weight(u));
                            assert(occ_weight(u)(orig[n as int]) == 0);
                            assert(books_weight(u)(orig[n as int]) == 0);
                        }
                    }
                    // totals, when nothing saturates
                    if fits(orig) {
                        assert(key_occ(p, t) <= key_occ(p1, t));
                        assert(key_books(p, t) <= key_books(p1, t));
                        lemma_sum_by_remove(b, k as int, occ_of());
                        lemma_sum_by_remove(a, k as int, occ_of());
                        lemma_sum_by_remove(b, k as int, books_of());
                        lemma_sum_by_remove(a, k as int, books_of());
                        assert(b.remove(k as int) =~= a.remove(k as int));
                    }
                }
            },
            None => {
                let ghost a = recs(acc@);
                let ghost fv = f@;
                acc.push(f);
                proof {
                    let b = recs(acc@);
                    assert(b =~= a.push(fv));
                    assert(!has_token(p, t));
                    lemma_key_absent(p, t);
                    assert(key_occ(p1, t) == fv.occurrences);
                    assert(key_books(p1, t) == fv.books);
                    assert(forall|j: int| 0 <= j < a.len() ==> b[j] == (#[trigger] a[j]));
                    assert(unique_tokens(b)) by {
                        assert forall|i1: int, j1: int| 0 <= i1 < j1 < b.len() implies (
                        #[trigger] b[i1]).token != (#[trigger] b[j1]).token by {
                            if j1 == b.len() - 1 {
                                assert(b[i1].token == a[i1].token);
                                if a[i1].token == t {
                                    assert(has_token(a, t));
                                }
                            }
                        }
                    }
                    assert forall|u: Seq<u8>| #[trigger]
                        has_token(b, u) <==> has_token(p1, u) by {
                        if has_token(b, u) {
                            let j = choose|j: int| 0 <= j < b.len() && b[j].token == u;
                            if j < a.len() {
                                assert(a[j].token == u);
                                assert(has_token(a, u));
                                assert(has_token(p, u));
                                let j2 = choose|j2: int| 0 <= j2 < p.len() && p[j2].token == u;
                                assert(p1[j2].token == u);
                                assert(has_token(p1, u));
                            } else {
                                assert(u == t);
                                assert(p1[n as int].token == u);
                                assert(has_token(p1, u));
                            }
                        }
                        if has_token(p1, u) {
                            let j = choose|j: int| 0 <= j < p1.len() && p1[j].token == u;
                            if j < p.len() {
                                assert(p[j].token == u);
                                assert(has_token(p, u));
                                assert(has_token(a, u));
                                let m = choose|m: int| 0 <= m < a.len() && a[m].token == u;
                                assert(b[m].token == u);
                                assert(has_token(b, u));
                            } else {
                                assert(u == t);
                                assert(b[b.len() - 1].token == u);
                                assert(has_token(b, u));
                            }
                        }
                    }
                    assert forall|j: int| 0 <= j < b.len() implies (#[trigger] b[j]).occurrences
                        == sat32(key_occ(p1, b[j].token)) && b[j].books == sat32(
                        key_books(p1, b[j].token),
                    ) by {
                        if j == b.len() - 1 {
                            assert(b[j] == fv);
                        } else {
                            let u = a[j].token;
                            assert(b[j] == a[j]);
                            assert(u != t) by {
                                if u == t {
                                    assert(has_token(a, t));
                                }
                            }
                            lemma_sum_by_take_step(orig, n as int, occ_weight(u));
                            lemma_sum_by_take_step(orig, n as int, books_weight(u));
                            assert(occ_weight(u)(orig[n as int]) == 0);
                            assert(books_weight(u)(orig[n as int]) == 0);
                        }
                    }
                    if fits(orig) {
                        lemma_sum_by_push(a, fv, occ_of());
                        lemma_sum_by_push(a, fv, books_of());
                    }
                }
            },
        }
    }
    proof {
        assert(orig.take(orig.len() as int) =~= orig);
    }
    let ghost folded = recs(acc@);
    let r = sort_desc(acc);
    proof {
        let res = recs(r@);
        lemma_unique_tokens_permutation(folded, res);
        assert forall|t: Seq<u8>| #[trigger] has_token(res, t) <==> has_token(orig, t) by {
            lemma_has_token_permutation(folded, res, t);
        }
        broadcast use vstd::seq_lib::group_to_multiset_ensures;
        assert forall|i: int| 0 <= i < res.len() implies (#[trigger] res[i]).occurrences == sat32(
            key_occ(orig, res[i].token),
        ) && res[i].books == sat32(key_books(orig, res[i].token)) by {
            assert(res.contains(res[i]));
            assert(folded.to_multiset().count(res[i]) > 0);
            assert(folded.contains(res[i]));
            let j = choose|j: int| 0 <= j < folded.len() && folded[j] == res[i];
            assert(folded[j].occurrences == sat32(key_occ(orig, folded[j].token)));
        }
        if fits(orig) {
            lemma_sum_by_permutation(folded, res, occ_of());
            lemma_sum_by_permutation(folded, res, books_of());
        }
    }
    r
}

proof fn lemma_canonical_permutation_rec(a: Seq<Rec>, b: Seq<Rec>)
    requires
        unique_tokens(a),
        unique_tokens(b),
        forall|t: Seq<u8>| #[trigger] has_token(b, t) <==> has_token(a, t),
        forall|i: int|
            0 <= i < b.len() ==> (#[trigger] b[i]).occurrences == sat32(key_occ(a, b[i].token))
                && b[i].books == sat32(key_books(a, b[i].token)),
    ensures
        a.to_multiset() == b.to_multiset(),
    decreases a.len(),
{
    broadcast use vstd::seq_lib::group_to_multiset_ensures;
    broadcast use vstd::multiset::group_multiset_axioms;

    if a.len() == 0 {
        if b.len() > 0 {
            assert(has_token(b, b[0].token));
            assert(has_token(a, b[0].token));
            assert(false);
        }
        assert(a =~= b);
    } else {
        let x = a.last();
        let t = x.token;
        assert(a[a.len() - 1].token == t);
        assert(has_token(a, t));
        assert(has_token(b, t));
        let j = choose|j: int| 0 <= j < b.len() && b[j].token == t;
        lemma_key_unique_contrib(a, a.len() - 1);
        assert(b[j].occurrences == x.occurrences);
        assert(b[j].books == x.books);
        assert(b[j] =~= x);
        let a1 = a.drop_last();
        let b1 = b.remove(j);
        assert(forall|m: int| 0 <= m < a1.len() ==> a1[m] == (#[trigger] a[m]));
        assert(unique_tokens(a1));
        assert(unique_tokens(b1)) by {
            assert forall|i1: int, j1: int| 0 <= i1 < j1 < b1.len() implies (
            #[trigger] b1[i1]).token != (#[trigger] b1[j1]).token by {
                let oi = if i1 < j {
                    i1
                } else {
                    i1 + 1
                };
                let oj = if j1 < j {
                    j1
                } else {
                    j1 + 1
                };
                assert(b1[i1] == b[oi]);
                assert(b1[j1] == b[oj]);
            }
        }
        assert forall|u: Seq<u8>| #[trigger] has_token(b1, u) <==> has_token(a1, u) by {
            if has_token(b1, u) {
                let m = choose|m: int| 0 <= m < b1.len() && b1[m].token == u;
                let om = if m < j {
                    m
                } else {
                    m + 1
                };
                assert(b1[m] == b[om]);
                assert(b[om].token == u);
                assert(has_token(b, u));
                assert(u != t);
                assert(has_token(a, u));
                let w = choose|w: int| 0 <= w < a.len() && a[w].token == u;
                assert(w != a.len() - 1);
                assert(a1[w].token == u);
                assert(has_token(a1, u));
            }
            if has_token(a1, u) {
                let m = choose|m: int| 0 <= m < a1.len() && a1[m].token == u;
                assert(a[m].token == u);
                assert(has_token(a, u));
                assert(u != t);
                assert(has_token(b, u));
                let w = choose|w: int| 0 <= w < b.len() && b[w].token == u;
                assert(w != j);
                if w < j {
                    assert(b1[w].token == u);
                } else {
                    assert(b1[w - 1].token == u);
                }
                assert(has_token(b1, u));
            }
        }
        assert forall|i: int| 0 <= i < b1.len() implies (#[trigger] b1[i]).occurrences == sat32(
            key_occ(a1, b1[i].token),
        ) && b1[i].books == sat32(key_books(a1, b1[i].token)) by {
            let oi = if i < j {
                i
            } else {
                i + 1
            };
            assert(b1[i] == b[oi]);
            let u = b[oi].token;
            assert(u != t);
            assert(occ_weight(u)(x) == 0);
            assert(books_weight(u)(x) == 0);
            assert(key_occ(a, u) == key_occ(a1, u));
            assert(key_books(a, u) == key_books(a1, u));
        }
        lemma_canonical_permutation_rec(a1, b1);
        assert(a =~= a1.push(x));
        assert(a1.push(x).to_multiset() =~= a1.to_multiset().insert(x));
        assert(b.contains(b[j]));
        assert(b.to_multiset().count(x) > 0);
        assert(b1.to_multiset() == b.to_multiset().remove(x));
        assert(b.to_multiset() =~= b1.to_multiset().insert(x));
        assert(a.to_multiset() =~= b.to_multiset());
    }
}

/// Idempotence of the dedup/merge stage: applied to a table whose tokens
/// are already unique (its own prior output), any result meeting the
/// stage's contract holds exactly the same records, merely reordered.
pub proof fn lemma_dedup_idempotent(prior: Seq<Rec>, again: Seq<Rec>)
    requires
        unique_tokens(prior),
        canonical_of(prior, again),
    ensures
        prior.to_multiset() == again.to_multiset(),
{
    lemma_canonical_permutation_rec(prior, again);
}

} // verus!
