//! Laws that relate the operations of the library to each other.

use crate::cossim::{row_tuples, rows_within};
use crate::csr::CsrMatBase;
use crate::kernel::{lemma_nonzero_scores, nonzero_scores};
use crate::matching::{overlap, shared_trigrams, string_candidates, string_scores};
use crate::select::is_top_selection;
use crate::storage::{DataStorage, IndPtrStorage, IndexStorage};
use crate::vectorize::{
    first_occurrences, hits, is_vectorized, lemma_first_occurrences, lemma_hits,
    lemma_row_columns, row_columns, trigrams_of,
};
use crate::vocab::trigram_code;
use vstd::prelude::*;

verus! {

/// Transposing twice gives the matrix back: the shape is the same, and every
/// row stores under every column what it stored before, as often and in the
/// same order. Only the order of the columns within a row may differ.
pub proof fn lemma_transpose_twice<T: DataStorage, I: IndPtrStorage, J: IndexStorage>(
    m: &CsrMatBase<T, I, J>,
    once: &CsrMatBase<T, I, J>,
    twice: &CsrMatBase<T, I, J>,
)
    requires
        once.is_transpose_of(m),
        twice.is_transpose_of(once),
    ensures
        twice.rows == m.rows,
        twice.cols == m.cols,
        forall|r: int, c: int|
            0 <= r < m.rows && 0 <= c < m.cols ==> #[trigger] twice.cell(r, c) == m.cell(r, c),
{
    assert forall|r: int, c: int| 0 <= r < m.rows && 0 <= c < m.cols implies #[trigger] twice.cell(
        r,
        c,
    ) == m.cell(r, c) by {
        assert(once.cell(c, r) == m.cell(r, c));
        assert(twice.cell(r, c) == once.cell(c, r));
    }
}

/// The same string gives the same row, whatever column of strings it stands
/// in and wherever it stands there.
pub proof fn lemma_vectorizer_deterministic<T: DataStorage, I: IndPtrStorage, J: IndexStorage>(
    m1: &CsrMatBase<T, I, J>,
    strings1: Seq<String>,
    i1: int,
    m2: &CsrMatBase<T, I, J>,
    strings2: Seq<String>,
    i2: int,
)
    requires
        is_vectorized(m1, strings1),
        is_vectorized(m2, strings2),
        0 <= i1 < strings1.len(),
        0 <= i2 < strings2.len(),
        strings1[i1]@ == strings2[i2]@,
    ensures
        m1.row_scored(i1) == m2.row_scored(i2),
{
}

/// The columns that a string sets are exactly the vocabulary places of the
/// trigrams of the padded string, each once.
pub proof fn lemma_row_columns_are_trigrams(s: Seq<char>)
    ensures
        forall|c: nat|
            row_columns(s).contains(c) <==> exists|p: int|
                0 <= p < s.len() + 2 && trigram_code(#[trigger] trigrams_of(s)[p]) == Some(c),
        forall|p: int, q: int|
            0 <= p < q < row_columns(s).len() ==> #[trigger] row_columns(s)[p]
                != #[trigger] row_columns(s)[q],
{
    let all = trigrams_of(s);
    let grams = first_occurrences(all);
    lemma_first_occurrences(all);
    lemma_hits(grams, grams.len() as int);
    lemma_row_columns(s);
    assert forall|c: nat|
        row_columns(s).contains(c) <==> exists|p: int|
            0 <= p < s.len() + 2 && trigram_code(#[trigger] trigrams_of(s)[p]) == Some(c) by {
        if row_columns(s).contains(c) {
            let q = choose|q: int| 0 <= q < row_columns(s).len() && row_columns(s)[q] == c;
            let j = choose|j: int|
                0 <= j < grams.len() && trigram_code(#[trigger] grams[j]) == Some(
                    row_columns(s)[q],
                );
            assert(grams.contains(grams[j]));
            assert(all.contains(grams[j]));
            let p = choose|p: int| 0 <= p < all.len() && all[p] == grams[j];
            assert(trigram_code(trigrams_of(s)[p]) == Some(c));
        }
        if exists|p: int|
            0 <= p < s.len() + 2 && trigram_code(#[trigger] trigrams_of(s)[p]) == Some(c) {
            let p = choose|p: int|
                0 <= p < s.len() + 2 && trigram_code(#[trigger] trigrams_of(s)[p]) == Some(c);
            assert(all.contains(all[p]));
            assert(grams.contains(all[p]));
            let j = choose|j: int| 0 <= j < grams.len() && grams[j] == all[p];
            assert(trigram_code(grams[j]).is_some());
            assert(hits(grams, grams.len() as int).contains(trigram_code(grams[j]).unwrap()));
        }
    }
}

/// A string shares with itself all the trigrams it holds.
pub proof fn lemma_self_score(s: Seq<char>)
    ensures
        shared_trigrams(s, s) == row_columns(s).len(),
{
    let x = row_columns(s);
    lemma_overlap_self(x, x.len() as int);
}

/// Every one of the first `n` of `x` occurs in `x`.
pub proof fn lemma_overlap_self(x: Seq<nat>, n: int)
    requires
        0 <= n <= x.len(),
    ensures
        overlap(x, n, x) == n,
    decreases n,
{
    if n > 0 {
        lemma_overlap_self(x, n - 1);
        assert(x.contains(x[n - 1]));
    }
}

/// When a column of strings is matched against itself, a string that holds a
/// trigram and that no other string shares all its trigrams with is matched
/// with itself, and the score is the number of trigrams it holds.
pub proof fn lemma_self_match(strings: Seq<String>, i: int, kept: Seq<(nat, nat)>, ntop: nat)
    requires
        0 <= i < strings.len(),
        ntop >= 1,
        is_top_selection(
            string_candidates(strings[i]@, strings, 0, strings.len() as int),
            kept,
            ntop,
        ),
        row_columns(strings[i]@).len() > 0,
        forall|j: int|
            0 <= j < strings.len() && j != i ==> #[trigger] shared_trigrams(
                strings[i]@,
                strings[j]@,
            ) < row_columns(strings[i]@).len(),
    ensures
        kept.contains((i as nat, row_columns(strings[i]@).len())),
{
    broadcast use vstd::seq_lib::group_to_multiset_ensures;

    let s = strings[i]@;
    let n = strings.len() as int;
    let scores = string_scores(s, strings, 0, n);
    let cands = string_candidates(s, strings, 0, n);
    let best = (i as nat, row_columns(s).len());
    lemma_self_score(s);
    lemma_nonzero_scores(scores, n);
    assert(cands =~= nonzero_scores(scores, n));
    assert(scores[i] == shared_trigrams(s, strings[i]@));
    assert(cands.contains(best));
    if !kept.contains(best) {
        assert(kept.to_multiset().count(best) == 0);
        assert(cands.to_multiset().count(best) > 0);
        assert(cands.to_multiset().sub(kept.to_multiset()).count(best) > 0);
        assert(kept.len() >= 1);
        let other = kept[0];
        assert(kept.contains(other));
        assert(kept.to_multiset().count(other) > 0);
        assert(cands.to_multiset().count(other) > 0);
        assert(cands.contains(other));
        let p = choose|p: int| 0 <= p < cands.len() && cands[p] == other;
        let j = other.0 as int;
        assert(other.1 == scores[j]);
        assert(best.1 <= other.1);
        if j != i {
            assert(shared_trigrams(s, strings[j]@) < row_columns(s).len());
        }
        assert(false);
    }
}

/// Every listed match has the score of its two strings, which is not zero.
pub proof fn lemma_match_scores(
    s: Seq<char>,
    right: Seq<String>,
    kept: Seq<(nat, nat)>,
    ntop: nat,
    p: int,
)
    requires
        is_top_selection(string_candidates(s, right, 0, right.len() as int), kept, ntop),
        0 <= p < kept.len(),
    ensures
        kept[p].0 < right.len(),
        kept[p].1 == shared_trigrams(s, right[kept[p].0 as int]@),
        kept[p].1 > 0,
{
    broadcast use vstd::seq_lib::group_to_multiset_ensures;

    let n = right.len() as int;
    let scores = string_scores(s, right, 0, n);
    let cands = string_candidates(s, right, 0, n);
    lemma_nonzero_scores(scores, n);
    assert(cands =~= nonzero_scores(scores, n));
    assert(kept.contains(kept[p]));
    assert(kept.to_multiset().count(kept[p]) > 0);
    assert(cands.to_multiset().count(kept[p]) > 0);
    assert(cands.contains(kept[p]));
    let q = choose|q: int| 0 <= q < cands.len() && cands[q] == kept[p];
    assert(cands[q].1 == scores[cands[q].0 as int]);
}

/// No two candidates have the same score.
pub open spec fn distinct_scores(cands: Seq<(nat, nat)>) -> bool {
    forall|p: int, q: int| 0 <= p < q < cands.len() ==> (#[trigger] cands[p]).1 != (#[trigger] cands[q]).1
}

/// Two choices of the best among candidates without equal scores cannot differ
/// in how often they hold `x`.
proof fn lemma_no_excess(
    cands: Seq<(nat, nat)>,
    kept1: Seq<(nat, nat)>,
    kept2: Seq<(nat, nat)>,
    ntop: nat,
    x: (nat, nat),
)
    requires
        is_top_selection(cands, kept1, ntop),
        is_top_selection(cands, kept2, ntop),
        distinct_scores(cands),
    ensures
        kept1.to_multiset().count(x) <= kept2.to_multiset().count(x),
{
    broadcast use vstd::seq_lib::group_to_multiset_ensures;
    broadcast use vstd::multiset::group_multiset_axioms;

    let c = cands.to_multiset();
    let k1 = kept1.to_multiset();
    let k2 = kept2.to_multiset();
    if k1.count(x) > k2.count(x) {
        assert(c.count(x) >= k1.count(x));
        assert(c.sub(k2).count(x) > 0);
        assert(k1.len() == kept1.len());
        assert(k2.len() == kept2.len());
        if forall|y: (nat, nat)| k2.count(y) <= k1.count(y) {
            assert(k2.subset_of(k1));
            assert(k1.sub(k2).len() == k1.len() - k2.len());
            assert(k1.sub(k2).count(x) > 0);
            assert(k1.sub(k2).count(x) <= k1.sub(k2).len());
            assert(false);
        }
        let y = choose|y: (nat, nat)| k2.count(y) > k1.count(y);
        assert(c.count(y) >= k2.count(y));
        assert(c.sub(k1).count(y) > 0);
        assert(k1.count(x) > 0);
        assert(k2.count(y) > 0);
        assert(y.1 <= x.1);
        assert(x.1 <= y.1);
        assert(x != y);
        assert(cands.contains(x));
        assert(cands.contains(y));
        let p = choose|p: int| 0 <= p < cands.len() && cands[p] == x;
        let q = choose|q: int| 0 <= q < cands.len() && cands[q] == y;
        if p < q {
            assert(cands[p].1 != cands[q].1);
        } else {
            assert(cands[q].1 != cands[p].1);
        }
        assert(false);
    }
}

/// Among candidates without equal scores there is only one choice of the best,
/// up to the order in which it is listed.
pub proof fn lemma_selection_unique(
    cands: Seq<(nat, nat)>,
    kept1: Seq<(nat, nat)>,
    kept2: Seq<(nat, nat)>,
    ntop: nat,
)
    requires
        is_top_selection(cands, kept1, ntop),
        is_top_selection(cands, kept2, ntop),
        distinct_scores(cands),
    ensures
        kept1.to_multiset() == kept2.to_multiset(),
{
    assert forall|x: (nat, nat)| kept1.to_multiset().count(x) == kept2.to_multiset().count(x) by {
        lemma_no_excess(cands, kept1, kept2, ntop, x);
        lemma_no_excess(cands, kept2, kept1, ntop, x);
    }
    assert(kept1.to_multiset() =~= kept2.to_multiset());
}

/// A match is listed as often as its row lists it.
pub proof fn lemma_tuples_count(t: Seq<(nat, nat, nat)>, n: int, x: (nat, nat, nat))
    requires
        0 <= n <= t.len(),
    ensures
        t.subrange(0, n).to_multiset().count(x) == row_tuples(t, n, x.0 as int).to_multiset().count(
            (x.1, x.2),
        ),
    decreases n,
{
    broadcast use vstd::seq_lib::group_to_multiset_ensures;

    if n == 0 {
        assert(t.subrange(0, 0) =~= Seq::empty());
        assert(row_tuples(t, 0, x.0 as int) =~= Seq::empty());
    } else {
        lemma_tuples_count(t, n - 1, x);
        assert(t.subrange(0, n) =~= t.subrange(0, n - 1).push(t[n - 1]));
    }
}

/// When the strings of `left` are cut into batches, the matches do not depend
/// on the number of batches, as long as no string has the same score against
/// two strings of `right`: any two results that list for every string of
/// `left` a choice of its best matches list the same matches equally often.
pub proof fn lemma_exact_matches_unique(
    left: Seq<String>,
    right: Seq<String>,
    ntop: nat,
    t1: Seq<(nat, nat, nat)>,
    t2: Seq<(nat, nat, nat)>,
)
    requires
        rows_within(t1, 0, left.len() as int),
        rows_within(t2, 0, left.len() as int),
        forall|i: int|
            0 <= i < left.len() ==> is_top_selection(
                string_candidates(left[i]@, right, 0, right.len() as int),
                #[trigger] row_tuples(t1, t1.len() as int, i),
                ntop,
            ),
        forall|i: int|
            0 <= i < left.len() ==> is_top_selection(
                string_candidates(left[i]@, right, 0, right.len() as int),
                #[trigger] row_tuples(t2, t2.len() as int, i),
                ntop,
            ),
        forall|i: int|
            0 <= i < left.len() ==> distinct_scores(
                #[trigger] string_candidates(left[i]@, right, 0, right.len() as int),
            ),
    ensures
        t1.to_multiset() == t2.to_multiset(),
{
    broadcast use vstd::seq_lib::group_to_multiset_ensures;

    assert(t1.subrange(0, t1.len() as int) =~= t1);
    assert(t2.subrange(0, t2.len() as int) =~= t2);
    assert forall|x: (nat, nat, nat)| t1.to_multiset().count(x) == t2.to_multiset().count(x) by {
        lemma_tuples_count(t1, t1.len() as int, x);
        lemma_tuples_count(t2, t2.len() as int, x);
        let i = x.0 as int;
        if i < left.len() {
            let cands = string_candidates(left[i]@, right, 0, right.len() as int);
            assert(distinct_scores(cands));
            lemma_selection_unique(
                cands,
                row_tuples(t1, t1.len() as int, i),
                row_tuples(t2, t2.len() as int, i),
                ntop,
            );
        } else {
            if t1.to_multiset().count(x) > 0 {
                assert(t1.contains(x));
                let p = choose|p: int| 0 <= p < t1.len() && t1[p] == x;
                assert(t1[p].0 < left.len());
            }
            if t2.to_multiset().count(x) > 0 {
                assert(t2.contains(x));
                let p = choose|p: int| 0 <= p < t2.len() && t2[p] == x;
                assert(t2[p].0 < left.len());
            }
        }
    }
    assert(t1.to_multiset() =~= t2.to_multiset());
}

} // verus!
