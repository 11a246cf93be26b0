//! Turning strings into sparse rows over the trigram vocabulary.
//!
//! A string is padded at both ends, cut into all runs of three characters, and
//! each distinct run that is in the vocabulary sets one column of the row.

use crate::csr::{row_pairs, CsrMatBase};
use crate::rows::push_row;
use crate::select::scored;
use crate::storage::{DataStorage, IndPtrStorage, IndexStorage};
use crate::vocab::{lemma_trigram_code_injective, trigram_code, trigram_index, VOCABULARY_LEN};
use itertools::Itertools;
use ngrams::Ngram;
use vstd::prelude::*;

verus! {

/// The character that pads a string at both ends before it is cut.
pub open spec fn pad_symbol() -> char {
    '\u{2060}'
}

/// `s` with two padding characters in front and two behind.
pub open spec fn padded(s: Seq<char>) -> Seq<char> {
    seq![pad_symbol(), pad_symbol()] + s + seq![pad_symbol(), pad_symbol()]
}

/// All runs of three characters of the padded string, from left to right.
pub open spec fn trigrams_of(s: Seq<char>) -> Seq<Seq<char>> {
    Seq::new(s.len() + 2, |i: int| padded(s).subrange(i, i + 3))
}

/// What is left of `s` when every element that occurred before is dropped.
pub open spec fn first_occurrences(s: Seq<Seq<char>>) -> Seq<Seq<char>>
    decreases s.len(),
{
    if s.len() == 0 {
        Seq::empty()
    } else {
        let rest = first_occurrences(s.drop_last());
        if s.drop_last().contains(s.last()) {
            rest
        } else {
            rest.push(s.last())
        }
    }
}

/// The vocabulary places of the first `n` of `grams`, skipping those that are
/// not in the vocabulary.
pub open spec fn hits(grams: Seq<Seq<char>>, n: int) -> Seq<nat>
    decreases n,
{
    if n <= 0 {
        Seq::empty()
    } else {
        let rest = hits(grams, n - 1);
        match trigram_code(grams[n - 1]) {
            Some(c) => rest.push(c),
            None => rest,
        }
    }
}

/// The columns that the string `s` sets, in the order in which it sets them.
pub open spec fn row_columns(s: Seq<char>) -> Seq<nat> {
    let grams = first_occurrences(trigrams_of(s));
    hits(grams, grams.len() as int)
}

/// How many entries the first `n` strings store together.
pub open spec fn stored_upto(strings: Seq<String>, n: int) -> nat
    decreases n,
{
    if n <= 0 {
        0
    } else {
        stored_upto(strings, n - 1) + row_columns(strings[n - 1]@).len()
    }
}

/// Columns as entries of value one.
pub open spec fn unit_scores(columns: Seq<nat>) -> Seq<(nat, nat)> {
    columns.map_values(|c: nat| (c, 1nat))
}

/// The character sequences that the vectors hold.
pub open spec fn views(grams: Seq<Vec<char>>) -> Seq<Seq<char>> {
    grams.map_values(|g: Vec<char>| g@)
}

/// `m` is the matrix of `strings`: one row per string, with a one in every
/// column whose trigram the string holds.
pub open spec fn is_vectorized<T: DataStorage, I: IndPtrStorage, J: IndexStorage>(
    m: &CsrMatBase<T, I, J>,
    strings: Seq<String>,
) -> bool {
    &&& m.wf()
    &&& m.rows == strings.len()
    &&& m.cols == VOCABULARY_LEN
    &&& forall|i: int|
        0 <= i < strings.len() ==> #[trigger] m.row_scored(i) == unit_scores(
            row_columns(strings[i]@),
        )
}

/// `ngrams(3).pad()` of the `ngrams` crate on the characters of `s`, collected.
/// The contract claims what its source shows: the iterator first yields two
/// padding characters, then the characters of `s`, then two padding characters
/// again, and hands out every window of three of them from left to right.
#[verifier::external_body]
fn padded_trigrams(s: &str) -> (grams: Vec<Vec<char>>)
    ensures
        views(grams@) == trigrams_of(s@),
{
    s.chars().ngrams(3).pad().collect()
}

/// `Itertools::unique` of the `itertools` crate on the elements of `grams`,
/// collected. The contract claims what its documentation states: of elements
/// that are equal only the first is kept, and the order of the kept ones is
/// that of the input.
#[verifier::external_body]
fn unique(grams: Vec<Vec<char>>) -> (kept: Vec<Vec<char>>)
    ensures
        views(kept@) == first_occurrences(views(grams@)),
{
    grams.into_iter().unique().collect()
}

/// What `first_occurrences` keeps: every element of `s` once.
pub proof fn lemma_first_occurrences(s: Seq<Seq<char>>)
    ensures
        forall|p: int, q: int|
            0 <= p < q < first_occurrences(s).len() ==> #[trigger] first_occurrences(s)[p]
                != #[trigger] first_occurrences(s)[q],
        forall|x: Seq<char>| #[trigger] first_occurrences(s).contains(x) <==> s.contains(x),
    decreases s.len(),
{
    if s.len() > 0 {
        let front = s.drop_last();
        let last = s.last();
        lemma_first_occurrences(front);
        let rest = first_occurrences(front);
        let all = first_occurrences(s);
        assert(s =~= front.push(last));
        assert forall|x: Seq<char>| #[trigger] all.contains(x) <==> s.contains(x) by {
            if all.contains(x) {
                let p = choose|p: int| 0 <= p < all.len() && all[p] == x;
                if p < rest.len() {
                    assert(rest[p] == x);
                    assert(rest.contains(x));
                    assert(front.contains(x));
                    let j = choose|j: int| 0 <= j < front.len() && front[j] == x;
                    assert(s[j] == x);
                } else {
                    assert(s[s.len() - 1] == x);
                }
            }
            if s.contains(x) {
                let j = choose|j: int| 0 <= j < s.len() && s[j] == x;
                if j < front.len() {
                    assert(front[j] == x);
                    assert(front.contains(x));
                    assert(rest.contains(x));
                    let p = choose|p: int| 0 <= p < rest.len() && rest[p] == x;
                    assert(all[p] == x);
                } else if front.contains(x) {
                    assert(rest.contains(x));
                    let p = choose|p: int| 0 <= p < rest.len() && rest[p] == x;
                    assert(all[p] == x);
                } else {
                    assert(all[all.len() - 1] == x);
                }
            }
        }
        assert forall|p: int, q: int| 0 <= p < q < all.len() implies #[trigger] all[p]
            != #[trigger] all[q] by {
            if q == rest.len() {
                assert(rest[p] == all[p]);
                assert(rest.contains(all[p]));
            } else {
                assert(rest[p] != rest[q]);
            }
        }
    }
}

/// What `hits` lists for distinct trigrams: the place of every one of the first
/// `n` that is in the vocabulary, each once.
pub proof fn lemma_hits(grams: Seq<Seq<char>>, n: int)
    requires
        0 <= n <= grams.len(),
        forall|p: int, q: int| 0 <= p < q < grams.len() ==> #[trigger] grams[p] != #[trigger] grams[q],
    ensures
        hits(grams, n).len() <= n,
        forall|p: int|
            0 <= p < hits(grams, n).len() ==> exists|j: int|
                0 <= j < n && trigram_code(#[trigger] grams[j]) == Some(
                    (#[trigger] hits(grams, n)[p]),
                ),
        forall|p: int, q: int|
            0 <= p < q < hits(grams, n).len() ==> #[trigger] hits(grams, n)[p] != #[trigger] hits(
                grams,
                n,
            )[q],
        forall|j: int|
            0 <= j < n && trigram_code(#[trigger] grams[j]).is_some() ==> hits(grams, n).contains(
                trigram_code(grams[j]).unwrap(),
            ),
    decreases n,
{
    if n > 0 {
        lemma_hits(grams, n - 1);
        let rest = hits(grams, n - 1);
        let all = hits(grams, n);
        assert forall|p: int| 0 <= p < all.len() implies exists|j: int|
            0 <= j < n && trigram_code(#[trigger] grams[j]) == Some((#[trigger] all[p])) by {
            if p < rest.len() {
                let j = choose|j: int|
                    0 <= j < n - 1 && trigram_code(#[trigger] grams[j]) == Some(rest[p]);
                assert(trigram_code(grams[j]) == Some(all[p]));
            } else {
                assert(trigram_code(grams[n - 1]) == Some(all[p]));
            }
        }
        assert forall|p: int, q: int| 0 <= p < q < all.len() implies #[trigger] all[p]
            != #[trigger] all[q] by {
            if q == rest.len() {
                let j = choose|j: int|
                    0 <= j < n - 1 && trigram_code(#[trigger] grams[j]) == Some(rest[p]);
                if all[p] == all[q] {
                    lemma_trigram_code_injective(grams[j], grams[n - 1]);
                    assert(grams[j] != grams[n - 1]);
                }
            } else {
                assert(rest[p] != rest[q]);
            }
        }
        assert forall|j: int|
            0 <= j < n && trigram_code(#[trigger] grams[j]).is_some() implies all.contains(
            trigram_code(grams[j]).unwrap(),
        ) by {
            let c = trigram_code(grams[j]).unwrap();
            if j < n - 1 {
                assert(rest.contains(c));
                let p = choose|p: int| 0 <= p < rest.len() && rest[p] == c;
                assert(all[p] == c);
            } else {
                assert(all[all.len() - 1] == c);
            }
        }
    }
}

/// A string sets no column twice, and only columns of the vocabulary.
pub proof fn lemma_row_columns(s: Seq<char>)
    ensures
        forall|p: int, q: int|
            0 <= p < q < row_columns(s).len() ==> #[trigger] row_columns(s)[p]
                != #[trigger] row_columns(s)[q],
        forall|p: int| 0 <= p < row_columns(s).len() ==> #[trigger] row_columns(s)[p] < VOCABULARY_LEN,
        row_columns(s).len() <= s.len() + 2,
{
    let grams = first_occurrences(trigrams_of(s));
    lemma_first_occurrences(trigrams_of(s));
    lemma_first_occurrences_len(trigrams_of(s));
    lemma_hits(grams, grams.len() as int);
    assert forall|p: int| 0 <= p < row_columns(s).len() implies #[trigger] row_columns(s)[p]
        < VOCABULARY_LEN by {
        let j = choose|j: int|
            0 <= j < grams.len() && trigram_code(#[trigger] grams[j]) == Some(row_columns(s)[p]);
    }
}

/// Dropping repetitions does not make a sequence longer.
pub proof fn lemma_first_occurrences_len(s: Seq<Seq<char>>)
    ensures
        first_occurrences(s).len() <= s.len(),
    decreases s.len(),
{
    if s.len() > 0 {
        lemma_first_occurrences_len(s.drop_last());
    }
}

/// The total never shrinks as strings are added.
pub proof fn lemma_stored_upto_monotone(strings: Seq<String>, r: int, s: int)
    requires
        r <= s,
    ensures
        stored_upto(strings, r) <= stored_upto(strings, s),
    decreases s - r,
{
    if r < s {
        lemma_stored_upto_monotone(strings, r, s - 1);
    }
}

/// The row of one string: an entry of value one for every distinct trigram of
/// the padded string that is in the vocabulary.
pub fn vectorize_one<T: DataStorage, J: IndexStorage>(s: &str) -> (row: Vec<(J, T)>)
    requires
        VOCABULARY_LEN - 1 <= J::max_nat(),
    ensures
        scored(row@) == unit_scores(row_columns(s@)),
{
    let grams = padded_trigrams(s);
    let kept = unique(grams);
    let ghost distinct = views(kept@);
    let n = kept.len();
    let mut row: Vec<(J, T)> = Vec::new();
    let mut k: usize = 0;
    assert(scored(row@) =~= unit_scores(hits(distinct, 0)));
    while k < n
        invariant
            VOCABULARY_LEN - 1 <= J::max_nat(),
            n == kept@.len(),
            k <= n,
            distinct == views(kept@),
            scored(row@) == unit_scores(hits(distinct, k as int)),
        decreases n - k,
    {
        let index: Option<J> = trigram_index(&kept[k]);
        assert(distinct[k as int] == kept@[k as int]@);
        if let Some(column) = index {
            let ghost before = row@;
            row.push((column, T::one()));
            assert(scored(row@) =~= scored(before).push((column.as_nat(), 1nat)));
            assert(unit_scores(hits(distinct, k + 1)) =~= unit_scores(hits(distinct, k as int)).push(
                (column.as_nat(), 1nat),
            ));
        }
        k += 1;
    }
    assert(distinct.len() == n);
    row
}

/// The matrix of a column of strings: row `i` has a one in every column whose
/// trigram occurs in string `i`, and the vocabulary gives the columns.
pub fn transform<T: DataStorage, I: IndPtrStorage, J: IndexStorage>(sa: &Vec<String>) -> (m:
    CsrMatBase<T, I, J>)
    requires
        VOCABULARY_LEN - 1 <= J::max_nat(),
        stored_upto(sa@, sa@.len() as int) <= I::max_nat(),
    ensures
        is_vectorized(&m, sa@),
        m.distinct_columns(),
        forall|i: int| 0 <= i <= sa@.len() ==> #[trigger] m.ptr(i) == stored_upto(sa@, i),
{
    let rows = sa.len();
    let mut indptr: Vec<I> = Vec::new();
    let mut indices: Vec<J> = Vec::new();
    let mut data: Vec<T> = Vec::new();
    proof {
        I::lemma_from_usize_exact(0);
    }
    indptr.push(I::from_usize(0));

    let mut i: usize = 0;
    while i < rows
        invariant
            VOCABULARY_LEN - 1 <= J::max_nat(),
            stored_upto(sa@, sa@.len() as int) <= I::max_nat(),
            rows == sa@.len(),
            i <= rows,
            indptr@.len() == i + 1,
            indices@.len() == data@.len(),
            indices@.len() == stored_upto(sa@, i as int),
            forall|r: int| 0 <= r <= i ==> (#[trigger] indptr@[r]).as_nat() == stored_upto(sa@, r),
            forall|k: int|
                0 <= k < indices@.len() ==> (#[trigger] indices@[k]).as_nat() < VOCABULARY_LEN,
            forall|r: int|
                0 <= r < i ==> #[trigger] row_pairs(indptr@, indices@, data@, r) == unit_scores(
                    row_columns(sa@[r]@),
                ),
        decreases rows - i,
    {
        let row: Vec<(J, T)> = vectorize_one(sa[i].as_str());
        let ghost columns = row_columns(sa@[i as int]@);
        let ghost old_indices = indices@;
        let ghost base = indices@.len();
        proof {
            assert(scored(row@).len() == columns.len());
            lemma_stored_upto_monotone(sa@, i + 1, rows as int);
            assert forall|r: int, s: int| 0 <= r <= s < indptr@.len() implies indptr@[r].as_nat()
                <= indptr@[s].as_nat() by {
                lemma_stored_upto_monotone(sa@, r, s);
            }
        }
        push_row(&mut indptr, &mut indices, &mut data, &row);
        proof {
            assert forall|r: int| 0 <= r <= i + 1 implies (#[trigger] indptr@[r]).as_nat()
                == stored_upto(sa@, r) by {
                if r <= i {
                    assert(indptr@[r] == indptr@.subrange(0, i + 1)[r]);
                }
            }
            lemma_row_columns(sa@[i as int]@);
            assert forall|k: int| 0 <= k < indices@.len() implies (#[trigger] indices@[k]).as_nat()
                < VOCABULARY_LEN by {
                if k < base {
                    assert(indices@[k] == indices@.subrange(0, base as int)[k]);
                    assert(old_indices[k].as_nat() < VOCABULARY_LEN);
                } else {
                    let q = k - base;
                    assert(indices@[base + q] == row@[q].0);
                    assert(scored(row@)[q].0 == columns[q]);
                }
            }
        }
        i += 1;
    }

    let ghost whole = CsrMatBase { indptr, indices, data, rows, cols: VOCABULARY_LEN };
    assert(whole.wf()) by {
        assert forall|r: int, s: int| 0 <= r <= s <= rows implies whole.indptr@[r].as_nat()
            <= whole.indptr@[s].as_nat() by {
            lemma_stored_upto_monotone(sa@, r, s);
        }
    }
    let m = CsrMatBase::new(indptr, indices, data, rows, VOCABULARY_LEN);
    proof {
        assert(m == whole);
        assert forall|r: int, k1: int, k2: int|
            #![trigger m.in_row(r, k1), m.in_row(r, k2)]
            0 <= r < m.rows && m.in_row(r, k1) && m.in_row(r, k2) && k1 < k2 implies m.col(k1)
            != m.col(k2) by {
            let row = m.row_scored(r);
            let columns = row_columns(sa@[r]@);
            lemma_row_columns(sa@[r]@);
            assert(row[k1 - m.ptr(r)].0 == columns[k1 - m.ptr(r)]);
            assert(row[k2 - m.ptr(r)].0 == columns[k2 - m.ptr(r)]);
        }
    }
    m
}

} // verus!
