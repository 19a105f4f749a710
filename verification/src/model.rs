//! Spec-level sums over record sequences, and the lemmas that move them
//! across pushes, removals and permutations.

use vstd::prelude::*;
use crate::record::Rec;

verus! {

/// Sum of the weight `f` over all elements of `s`.
pub open spec fn sum_by<A>(s: Seq<A>, f: spec_fn(A) -> int) -> int
    decreases s.len(),
{
    if s.len() == 0 {
        0
    } else {
        sum_by(s.drop_last(), f) + f(s.last())
    }
}

/// Weight selecting the occurrence count of records whose token is `t`.
pub open spec fn occ_weight(t: Seq<u8>) -> spec_fn(Rec) -> int {
    |r: Rec| if r.token == t { r.occurrences as int } else { 0 }
}

/// Weight selecting the book count of records whose token is `t`.
pub open spec fn books_weight(t: Seq<u8>) -> spec_fn(Rec) -> int {
    |r: Rec| if r.token == t { r.books as int } else { 0 }
}

/// Total occurrences attributed to token `t` in `s`.
pub open spec fn key_occ(s: Seq<Rec>, t: Seq<u8>) -> int {
    sum_by(s, occ_weight(t))
}

/// Total books attributed to token `t` in `s`.
pub open spec fn key_books(s: Seq<Rec>, t: Seq<u8>) -> int {
    sum_by(s, books_weight(t))
}

/// Weight selecting every record's occurrence count.
pub open spec fn occ_of() -> spec_fn(Rec) -> int {
    |r: Rec| r.occurrences as int
}

/// Weight selecting every record's book count.
pub open spec fn books_of() -> spec_fn(Rec) -> int {
    |r: Rec| r.books as int
}

/// Weight counting records whose token is `t`.
pub open spec fn token_weight(t: Seq<u8>) -> spec_fn(Rec) -> int {
    |r: Rec| if r.token == t { 1int } else { 0 }
}

/// Sum of all occurrence counts in `s`.
pub open spec fn total_occ(s: Seq<Rec>) -> int {
    sum_by(s, occ_of())
}

/// Sum of all book counts in `s`.
pub open spec fn total_books(s: Seq<Rec>) -> int {
    sum_by(s, books_of())
}

/// Number of records in `s` carrying token `t`.
pub open spec fn token_count(s: Seq<Rec>, t: Seq<u8>) -> int {
    sum_by(s, token_weight(t))
}

/// The grand totals of `s` fit in 32-bit counters: no merge of records
/// of `s` ever saturates.
pub open spec fn fits(s: Seq<Rec>) -> bool {
    total_occ(s) <= u32::MAX && total_books(s) <= u32::MAX
}

/// Some record in `s` carries token `t`.
pub open spec fn has_token(s: Seq<Rec>, t: Seq<u8>) -> bool {
    exists|i: int| 0 <= i < s.len() && #[trigger] s[i].token == t
}

/// No two records in `s` share a token.
pub open spec fn unique_tokens(s: Seq<Rec>) -> bool {
    forall|i: int, j: int| 0 <= i < j < s.len() ==> #[trigger] s[i].token != #[trigger] s[j].token
}

/// Occurrence counts are non-increasing along `s`.
pub open spec fn sorted_desc(s: Seq<Rec>) -> bool {
    forall|i: int| 0 <= i && i + 1 < s.len() ==> #[trigger] s[i].occurrences >= s[i + 1].occurrences
}

/// The weight `f` is non-negative everywhere.
pub open spec fn nonneg_weight<A>(f: spec_fn(A) -> int) -> bool {
    forall|r: A| #[trigger] f(r) >= 0
}

pub proof fn lemma_sum_by_push<A>(s: Seq<A>, r: A, f: spec_fn(A) -> int)
    ensures
        sum_by(s.push(r), f) == sum_by(s, f) + f(r),
{
    assert(s.push(r).drop_last() =~= s);
    assert(s.push(r).last() == r);
}

pub proof fn lemma_sum_by_take_step<A>(s: Seq<A>, i: int, f: spec_fn(A) -> int)
    requires
        0 <= i < s.len(),
    ensures
        sum_by(s.take(i + 1), f) == sum_by(s.take(i), f) + f(s[i]),
{
    assert(s.take(i + 1).drop_last() =~= s.take(i));
    assert(s.take(i + 1).last() == s[i]);
}

pub proof fn lemma_sum_by_nonneg<A>(s: Seq<A>, f: spec_fn(A) -> int)
    requires
        nonneg_weight(f),
    ensures
        sum_by(s, f) >= 0,
    decreases s.len(),
{
    if s.len() > 0 {
        lemma_sum_by_nonneg(s.drop_last(), f);
        assert(f(s.last()) >= 0);
    }
}

/// With a non-negative weight, the sum over a prefix is bounded by the
/// sum over the whole sequence.
pub proof fn lemma_sum_by_take_le<A>(s: Seq<A>, i: int, f: spec_fn(A) -> int)
    requires
        0 <= i <= s.len(),
        nonneg_weight(f),
    ensures
        sum_by(s.take(i), f) <= sum_by(s, f),
    decreases s.len() - i,
{
    if i == s.len() {
        assert(s.take(i) =~= s);
    } else {
        lemma_sum_by_take_step(s, i, f);
        assert(f(s[i]) >= 0);
        lemma_sum_by_take_le(s, i + 1, f);
    }
}

pub proof fn lemma_sum_by_remove<A>(s: Seq<A>, j: int, f: spec_fn(A) -> int)
    requires
        0 <= j < s.len(),
    ensures
        sum_by(s.remove(j), f) == sum_by(s, f) - f(s[j]),
    decreases s.len(),
{
    if j == s.len() - 1 {
        assert(s.remove(j) =~= s.drop_last());
    } else {
        lemma_sum_by_remove(s.drop_last(), j, f);
        assert(s.remove(j).drop_last() =~= s.drop_last().remove(j));
        assert(s.remove(j).last() == s.last());
    }
}

/// Sums are invariant under permutation.
pub proof fn lemma_sum_by_permutation<A>(a: Seq<A>, b: Seq<A>, f: spec_fn(A) -> int)
    requires
        a.to_multiset() == b.to_multiset(),
    ensures
        sum_by(a, f) == sum_by(b, f),
    decreases a.len(),
{
    broadcast use vstd::seq_lib::group_to_multiset_ensures;

    if a.len() == 0 {
        assert(b.to_multiset().len() == 0);
    } else {
        let x = a.last();
        assert(a[a.len() - 1] == x);
        assert(a.contains(x));
        assert(a.to_multiset().count(x) > 0);
        assert(b.to_multiset().count(x) > 0);
        assert(b.contains(x));
        let j = choose|j: int| 0 <= j < b.len() && b[j] == x;
        assert(a.remove(a.len() - 1) =~= a.drop_last());
        assert(a.drop_last().to_multiset() == a.to_multiset().remove(x));
        assert(b.remove(j).to_multiset() == b.to_multiset().remove(x));
        lemma_sum_by_permutation(a.drop_last(), b.remove(j), f);
        lemma_sum_by_remove(b, j, f);
    }
}

/// A pointwise smaller weight gives a smaller sum.
pub proof fn lemma_sum_by_le<A>(s: Seq<A>, f: spec_fn(A) -> int, g: spec_fn(A) -> int)
    requires
        forall|r: A| #[trigger] f(r) <= #[trigger] g(r),
    ensures
        sum_by(s, f) <= sum_by(s, g),
    decreases s.len(),
{
    if s.len() > 0 {
        lemma_sum_by_le(s.drop_last(), f, g);
        assert(f(s.last()) <= g(s.last()));
    }
}

/// A token that occurs nowhere in `s` contributes nothing.
pub proof fn lemma_key_absent(s: Seq<Rec>, t: Seq<u8>)
    requires
        !has_token(s, t),
    ensures
        key_occ(s, t) == 0,
        key_books(s, t) == 0,
        token_count(s, t) == 0,
    decreases s.len(),
{
    if s.len() > 0 {
        assert(s[s.len() - 1].token != t);
        assert(!has_token(s.drop_last(), t)) by {
            assert(forall|i: int| 0 <= i < s.len() - 1 ==> s.drop_last()[i] == s[i]);
        }
        lemma_key_absent(s.drop_last(), t);
        assert(occ_weight(t)(s.last()) == 0);
        assert(books_weight(t)(s.last()) == 0);
        assert(token_weight(t)(s.last()) == 0);
    }
}

/// In a table with unique tokens, a record is its token's whole contribution.
pub proof fn lemma_key_unique_contrib(s: Seq<Rec>, i: int)
    requires
        unique_tokens(s),
        0 <= i < s.len(),
    ensures
        key_occ(s, s[i].token) == s[i].occurrences,
        key_books(s, s[i].token) == s[i].books,
        token_count(s, s[i].token) == 1,
{
    let t = s[i].token;
    assert(!has_token(s.remove(i), t)) by {
        if has_token(s.remove(i), t) {
            let j = choose|j: int| 0 <= j < s.remove(i).len() && s.remove(i)[j].token == t;
            if j < i {
                assert(s[j].token == t);
            } else {
                assert(s[j + 1].token == t);
            }
        }
    }
    lemma_key_absent(s.remove(i), t);
    lemma_sum_by_remove(s, i, occ_weight(t));
    lemma_sum_by_remove(s, i, books_weight(t));
    lemma_sum_by_remove(s, i, token_weight(t));
    assert(occ_weight(t)(s[i]) == s[i].occurrences);
    assert(books_weight(t)(s[i]) == s[i].books);
    assert(token_weight(t)(s[i]) == 1);
}

/// Every indexed record makes its token's count positive.
pub proof fn lemma_token_count_pos(s: Seq<Rec>, i: int)
    requires
        0 <= i < s.len(),
    ensures
        token_count(s, s[i].token) >= 1,
{
    let t = s[i].token;
    lemma_sum_by_remove(s, i, token_weight(t));
    assert(nonneg_weight(token_weight(t))) by {
        assert(forall|r: Rec| #[trigger] token_weight(t)(r) >= 0);
    }
    lemma_sum_by_nonneg(s.remove(i), token_weight(t));
    assert(token_weight(t)(s[i]) == 1);
}

/// Token uniqueness is exactly "every token count is at most one".
pub proof fn lemma_unique_token_counts(s: Seq<Rec>)
    requires
        unique_tokens(s),
    ensures
        forall|t: Seq<u8>| #[trigger] token_count(s, t) <= 1,
    decreases s.len(),
{
    if s.len() == 0 {
        assert(forall|t: Seq<u8>| #[trigger] token_count(s, t) == 0);
    } else {
        assert(unique_tokens(s.drop_last())) by {
            assert(forall|i: int| 0 <= i < s.len() - 1 ==> s.drop_last()[i] == s[i]);
        }
        lemma_unique_token_counts(s.drop_last());
        assert forall|t: Seq<u8>| #[trigger] token_count(s, t) <= 1 by {
            assert(token_count(s, t) == token_count(s.drop_last(), t) + token_weight(t)(s.last()));
            if s.last().token == t {
                assert(!has_token(s.drop_last(), t)) by {
                    if has_token(s.drop_last(), t) {
                        let j = choose|j: int|
                            0 <= j < s.drop_last().len() && s.drop_last()[j].token == t;
                        assert(s[j].token == s[s.len() - 1].token);
                    }
                }
                lemma_key_absent(s.drop_last(), t);
            } else {
                assert(token_weight(t)(s.last()) == 0);
            }
        }
    }
}

pub proof fn lemma_counts_to_unique(s: Seq<Rec>)
    requires
        forall|t: Seq<u8>| #[trigger] token_count(s, t) <= 1,
    ensures
        unique_tokens(s),
{
    assert forall|i: int, j: int| 0 <= i < j < s.len() implies #[trigger] s[i].token
        != #[trigger] s[j].token by {
        if s[i].token == s[j].token {
            let t = s[i].token;
            lemma_sum_by_remove(s, j, token_weight(t));
            assert(s.remove(j)[i] == s[i]);
            lemma_token_count_pos(s.remove(j), i);
            assert(token_weight(t)(s[j]) == 1);
            assert(token_count(s, t) >= 2);
        }
    }
}

/// Token uniqueness is invariant under permutation.
pub proof fn lemma_unique_tokens_permutation(a: Seq<Rec>, b: Seq<Rec>)
    requires
        a.to_multiset() == b.to_multiset(),
        unique_tokens(a),
    ensures
        unique_tokens(b),
{
    lemma_unique_token_counts(a);
    assert forall|t: Seq<u8>| #[trigger] token_count(b, t) <= 1 by {
        lemma_sum_by_permutation(a, b, token_weight(t));
        assert(token_count(a, t) == token_count(b, t));
    }
    lemma_counts_to_unique(b);
}

/// Saturating addition composes: saturating an already saturated sum
/// loses nothing.
pub proof fn lemma_sat32_add(x: int, y: int)
    requires
        x >= 0,
        y >= 0,
    ensures
        crate::record::sat32(crate::record::sat32(x) + y) == crate::record::sat32(x + y),
{
}

/// Token membership is invariant under permutation.
pub proof fn lemma_has_token_permutation(a: Seq<Rec>, b: Seq<Rec>, t: Seq<u8>)
    requires
        a.to_multiset() == b.to_multiset(),
    ensures
        has_token(a, t) == has_token(b, t),
{
    broadcast use vstd::seq_lib::group_to_multiset_ensures;

    if has_token(a, t) {
        let i = choose|i: int| 0 <= i < a.len() && a[i].token == t;
        assert(a.contains(a[i]));
        assert(b.to_multiset().count(a[i]) > 0);
        assert(b.contains(a[i]));
        let j = choose|j: int| 0 <= j < b.len() && b[j] == a[i];
        assert(b[j].token == t);
    }
    if has_token(b, t) {
        let i = choose|i: int| 0 <= i < b.len() && b[i].token == t;
        assert(b.contains(b[i]));
        assert(a.to_multiset().count(b[i]) > 0);
        assert(a.contains(b[i]));
        let j = choose|j: int| 0 <= j < a.len() && a[j] == b[i];
        assert(a[j].token == t);
    }
}

} // verus!
