//! Matching two columns of strings by the trigrams they share.

use crate::assemble::Matches;
use crate::cossim::{
    compute_cossim, is_staged_from, is_staged_selection, joined, left_fits, row_tuples,
    rows_ascend, rows_within, staged_kept_upto, staged_len,
};
use crate::csr::{entry_in, CsrMatBase};
use crate::driver::{
    cross_candidates, cross_in, cross_kept_upto, cross_row, right_batch_fits, row_cross, shifted,
};
use crate::kernel::{lemma_nonzero_scores, nonzero_scores};
use crate::partition::{chunk_len, chunk_start, lemma_chunk_start_monotone, lemma_chunks_cover};
use crate::select::is_top_selection;
use crate::storage::{DataStorage, IndPtrStorage, IndexStorage};
use crate::vectorize::{
    is_vectorized, lemma_row_columns, row_columns, stored_upto, transform, unit_scores,
};
use crate::vocab::VOCABULARY_LEN;
use vstd::prelude::*;
use vstd::string::StrSliceExecFns;
use vstd::set_lib::{lemma_int_range, lemma_len_subset, set_int_range};

verus! {

/// How many of the first `n` of `x` occur in `y`.
pub open spec fn overlap(x: Seq<nat>, n: int, y: Seq<nat>) -> nat
    decreases n,
{
    if n <= 0 {
        0
    } else {
        overlap(x, n - 1, y) + if y.contains(x[n - 1]) {
            1nat
        } else {
            0nat
        }
    }
}

/// The score of two strings: how many trigrams of the vocabulary they share.
pub open spec fn shared_trigrams(s: Seq<char>, t: Seq<char>) -> nat {
    overlap(row_columns(s), row_columns(s).len() as int, row_columns(t))
}

/// The scores of `s` against the strings `lo..lo + len` of `right`.
pub open spec fn string_scores(s: Seq<char>, right: Seq<String>, lo: int, len: int) -> Seq<nat> {
    Seq::new(len as nat, |j: int| shared_trigrams(s, right[lo + j]@))
}

/// The strings among `lo..lo + len` of `right` that share a trigram with
/// `s`, each with its score, by ascending place.
pub open spec fn string_candidates(s: Seq<char>, right: Seq<String>, lo: int, len: int) -> Seq<
    (nat, nat),
> {
    shifted(nonzero_scores(string_scores(s, right, lo, len), len), lo as nat)
}

/// How many matches the first `r` strings of `left` keep among the strings
/// `lo..lo + len` of `right`.
pub open spec fn matches_kept_upto(
    left: Seq<String>,
    right: Seq<String>,
    ntop: nat,
    lo: int,
    len: int,
    r: int,
) -> nat
    decreases r,
{
    if r <= 0 {
        0
    } else {
        let n = string_candidates(left[r - 1]@, right, lo, len).len();
        matches_kept_upto(left, right, ntop, lo, len, r - 1) + if n <= ntop {
            n
        } else {
            ntop
        }
    }
}

/// How many matches `s` keeps in the first `n` batches of `right` together.
pub open spec fn staged_matches_len(
    s: Seq<char>,
    right: Seq<String>,
    ntop: nat,
    threads: nat,
    n: int,
) -> nat
    decreases n,
{
    if n <= 0 {
        0
    } else {
        let found = string_candidates(
            s,
            right,
            chunk_start(right.len(), threads, n - 1) as int,
            chunk_len(right.len(), threads, n - 1) as int,
        ).len();
        staged_matches_len(s, right, ntop, threads, n - 1) + if found <= ntop {
            found
        } else {
            ntop
        }
    }
}

/// How many matches the first `r` strings of `left` keep once the batches of
/// `right` are merged.
pub open spec fn staged_matches_kept_upto(
    left: Seq<String>,
    right: Seq<String>,
    ntop: nat,
    threads: nat,
    r: int,
) -> nat
    decreases r,
{
    if r <= 0 {
        0
    } else {
        let found = staged_matches_len(left[r - 1]@, right, ntop, threads, threads as int);
        staged_matches_kept_upto(left, right, ntop, threads, r - 1) + if found <= ntop {
            found
        } else {
            ntop
        }
    }
}

/// `parts` holds a choice of the `ntop` best matches of `s` in every batch of
/// `right`, and `kept` is a choice of the `ntop` best of those.
pub open spec fn is_staged_match_from(
    s: Seq<char>,
    right: Seq<String>,
    ntop: nat,
    threads: nat,
    kept: Seq<(nat, nat)>,
    parts: Seq<Seq<(nat, nat)>>,
) -> bool {
    &&& parts.len() == threads
    &&& forall|k: int|
        0 <= k < threads ==> is_top_selection(
            string_candidates(
                s,
                right,
                chunk_start(right.len(), threads, k) as int,
                chunk_len(right.len(), threads, k) as int,
            ),
            #[trigger] parts[k],
            ntop,
        )
    &&& is_top_selection(joined(parts, threads as int), kept, ntop)
}

/// `kept` is what cutting `right` into batches may keep for `s`: the `ntop`
/// best of the `ntop` best of each batch.
pub open spec fn is_staged_match(
    s: Seq<char>,
    right: Seq<String>,
    ntop: nat,
    threads: nat,
    kept: Seq<(nat, nat)>,
) -> bool {
    exists|parts: Seq<Seq<(nat, nat)>>| #[trigger]
        is_staged_match_from(s, right, ntop, threads, kept, parts)
}

/// Distinct numbers below `n` are `n` at most.
pub proof fn lemma_distinct_below(x: Seq<nat>, n: nat)
    requires
        forall|p: int, q: int| 0 <= p < q < x.len() ==> #[trigger] x[p] != #[trigger] x[q],
        forall|p: int| 0 <= p < x.len() ==> #[trigger] x[p] < n,
    ensures
        x.len() <= n,
{
    let y = x.map_values(|c: nat| c as int);
    assert(y.no_duplicates()) by {
        assert forall|p: int, q: int| 0 <= p < y.len() && 0 <= q < y.len() && p != q implies y[p]
            != y[q] by {
            if p < q {
                assert(x[p] != x[q]);
            } else {
                assert(x[q] != x[p]);
            }
        }
    }
    y.unique_seq_to_set();
    lemma_int_range(0, n as int);
    assert(y.to_set().subset_of(set_int_range(0, n as int))) by {
        assert forall|v: int| y.to_set().contains(v) implies set_int_range(0, n as int).contains(
            v,
        ) by {
            let p = choose|p: int| 0 <= p < y.len() && y[p] == v;
            assert(x[p] < n);
        }
    }
    lemma_len_subset(y.to_set(), set_int_range(0, n as int));
}

/// An overlap is no more than what is compared.
pub proof fn lemma_overlap_bound(x: Seq<nat>, n: int, y: Seq<nat>)
    requires
        0 <= n,
    ensures
        overlap(x, n, y) <= n,
    decreases n,
{
    if n > 0 {
        lemma_overlap_bound(x, n - 1, y);
    }
}

/// A row of ones over distinct columns has a one exactly in those columns.
pub proof fn lemma_unit_entry<T: DataStorage, J: IndexStorage>(
    indices: Seq<J>,
    data: Seq<T>,
    lo: int,
    n: int,
    cols: Seq<nat>,
    c: int,
)
    requires
        0 <= n <= cols.len(),
        forall|q: int| 0 <= q < n ==> (#[trigger] indices[lo + q]).as_nat() == cols[q],
        forall|q: int| 0 <= q < n ==> (#[trigger] data[lo + q]).value() == 1,
        forall|p: int, q: int| 0 <= p < q < cols.len() ==> #[trigger] cols[p] != #[trigger] cols[q],
    ensures
        entry_in(indices, data, lo, lo + n, c) == if exists|q: int|
            0 <= q < n && #[trigger] cols[q] == c {
            1nat
        } else {
            0nat
        },
    decreases n,
{
    if n > 0 {
        lemma_unit_entry(indices, data, lo, n - 1, cols, c);
        assert(indices[lo + (n - 1)].as_nat() == cols[n - 1]);
        assert(data[lo + (n - 1)].value() == 1);
        if cols[n - 1] == c {
            assert forall|q: int| 0 <= q < n - 1 implies #[trigger] cols[q] != c by {
                assert(cols[q] != cols[n - 1]);
            }
        } else if exists|q: int| 0 <= q < n && #[trigger] cols[q] == c {
            let q = choose|q: int| 0 <= q < n && #[trigger] cols[q] == c;
            assert(0 <= q < n - 1 && cols[q] == c);
        }
    }
}

/// The score of two rows of matrices of strings is the number of trigrams
/// that the two strings share.
pub proof fn lemma_cross_is_shared<T: DataStorage, I: IndPtrStorage, J: IndexStorage>(
    a: &CsrMatBase<T, I, J>,
    left: Seq<String>,
    b: &CsrMatBase<T, I, J>,
    right: Seq<String>,
    i: int,
    j: int,
)
    requires
        is_vectorized(a, left),
        is_vectorized(b, right),
        0 <= i < left.len(),
        0 <= j < right.len(),
    ensures
        row_cross(a, i, b, j) == shared_trigrams(left[i]@, right[j]@),
        row_cross(a, i, b, j) <= VOCABULARY_LEN,
{
    let x = row_columns(left[i]@);
    let y = row_columns(right[j]@);
    lemma_row_columns(left[i]@);
    lemma_row_columns(right[j]@);
    a.lemma_slice_row(0, a.rows as int, i);
    b.lemma_slice_row(0, b.rows as int, j);
    assert(a.row_scored(i) == unit_scores(x));
    assert(b.row_scored(j) == unit_scores(y));
    assert(a.row_scored(i).len() == x.len());
    assert(b.row_scored(j).len() == y.len());
    assert forall|q: int| 0 <= q < y.len() implies (#[trigger] b.indices@[b.ptr(j) + q]).as_nat()
        == y[q] && b.data@[b.ptr(j) + q].value() == 1 by {
        assert(b.row_scored(j)[q] == unit_scores(y)[q]);
    }
    assert forall|q: int| 0 <= q < y.len() implies (#[trigger] b.data@[b.ptr(j) + q]).value()
        == 1 by {
        assert(b.row_scored(j)[q] == unit_scores(y)[q]);
    }
    assert forall|q: int| 0 <= q < x.len() implies (#[trigger] a.indices@[a.ptr(i) + q]).as_nat()
        == x[q] by {
        assert(a.row_scored(i)[q] == unit_scores(x)[q]);
    }
    assert forall|q: int| 0 <= q < x.len() implies (#[trigger] a.data@[a.ptr(i) + q]).value()
        == 1 by {
        assert(a.row_scored(i)[q] == unit_scores(x)[q]);
    }
    lemma_cross_is_overlap(a, b, a.ptr(i), x.len() as int, j, x, y);
    lemma_overlap_bound(x, x.len() as int, y);
    lemma_distinct_below(x, VOCABULARY_LEN as nat);
}

/// Step by step: the score over the first `n` entries of a row of ones is the
/// overlap of its first `n` columns.
pub proof fn lemma_cross_is_overlap<T: DataStorage, I: IndPtrStorage, J: IndexStorage>(
    a: &CsrMatBase<T, I, J>,
    b: &CsrMatBase<T, I, J>,
    lo: int,
    n: int,
    j: int,
    x: Seq<nat>,
    y: Seq<nat>,
)
    requires
        0 <= n <= x.len(),
        forall|q: int| 0 <= q < x.len() ==> (#[trigger] a.indices@[lo + q]).as_nat() == x[q],
        forall|q: int| 0 <= q < x.len() ==> (#[trigger] a.data@[lo + q]).value() == 1,
        b.ptr(j + 1) - b.ptr(j) == y.len(),
        forall|q: int| 0 <= q < y.len() ==> (#[trigger] b.indices@[b.ptr(j) + q]).as_nat() == y[q],
        forall|q: int| 0 <= q < y.len() ==> (#[trigger] b.data@[b.ptr(j) + q]).value() == 1,
        forall|p: int, q: int| 0 <= p < q < y.len() ==> #[trigger] y[p] != #[trigger] y[q],
    ensures
        cross_in(a, lo, lo + n, b, j) == overlap(x, n, y),
    decreases n,
{
    if n > 0 {
        lemma_cross_is_overlap(a, b, lo, n - 1, j, x, y);
        assert(a.indices@[lo + (n - 1)].as_nat() == x[n - 1]);
        assert(a.data@[lo + (n - 1)].value() == 1);
        let c = x[n - 1] as int;
        lemma_unit_entry(b.indices@, b.data@, b.ptr(j), y.len() as int, y, c);
        if y.contains(x[n - 1]) {
            let q = choose|q: int| 0 <= q < y.len() && y[q] == x[n - 1];
            assert(y[q] == c);
        }
        let e = b.entry(j, c);
        assert(e == if y.contains(x[n - 1]) {
            1nat
        } else {
            0nat
        });
        let v = a.data@[lo + n - 1].value();
        assert(v * e == e) by (nonlinear_arith)
            requires
                v == 1,
        ;
        assert(a.col(lo + n - 1) == c);
    }
}

/// The candidates of a row of a matrix of strings are those of its string.
pub proof fn lemma_candidates_agree<T: DataStorage, I: IndPtrStorage, J: IndexStorage>(
    a: &CsrMatBase<T, I, J>,
    left: Seq<String>,
    b: &CsrMatBase<T, I, J>,
    right: Seq<String>,
    i: int,
    lo: int,
    len: int,
)
    requires
        is_vectorized(a, left),
        is_vectorized(b, right),
        0 <= i < left.len(),
        0 <= lo,
        0 <= len,
        lo + len <= right.len(),
    ensures
        cross_candidates(a, i, b, lo, len) == string_candidates(left[i]@, right, lo, len),
{
    assert forall|j: int| 0 <= j < len implies cross_row(a, i, b, lo, len)[j] == string_scores(
        left[i]@,
        right,
        lo,
        len,
    )[j] by {
        lemma_cross_is_shared(a, left, b, right, i, lo + j);
    }
    assert(cross_row(a, i, b, lo, len) =~= string_scores(left[i]@, right, lo, len));
}

/// Matrices of strings keep as many matches as their strings.
pub proof fn lemma_kept_agree<T: DataStorage, I: IndPtrStorage, J: IndexStorage>(
    a: &CsrMatBase<T, I, J>,
    left: Seq<String>,
    b: &CsrMatBase<T, I, J>,
    right: Seq<String>,
    ntop: nat,
    lo: int,
    len: int,
    r: int,
)
    requires
        is_vectorized(a, left),
        is_vectorized(b, right),
        0 <= r <= left.len(),
        0 <= lo,
        0 <= len,
        lo + len <= right.len(),
    ensures
        cross_kept_upto(a, b, ntop, lo, len, r) == matches_kept_upto(left, right, ntop, lo, len, r),
    decreases r,
{
    if r > 0 {
        lemma_kept_agree(a, left, b, right, ntop, lo, len, r - 1);
        lemma_candidates_agree(a, left, b, right, r - 1, lo, len);
    }
}

/// Batches of matrices of strings keep as many matches as their strings.
pub proof fn lemma_staged_len_agree<T: DataStorage, I: IndPtrStorage, J: IndexStorage>(
    a: &CsrMatBase<T, I, J>,
    left: Seq<String>,
    b: &CsrMatBase<T, I, J>,
    right: Seq<String>,
    ntop: nat,
    threads: nat,
    i: int,
    n: int,
)
    requires
        is_vectorized(a, left),
        is_vectorized(b, right),
        0 <= i < left.len(),
        threads > 0,
        0 <= n <= threads,
    ensures
        staged_len(a, i, b, ntop, threads, n) == staged_matches_len(
            left[i]@,
            right,
            ntop,
            threads,
            n,
        ),
    decreases n,
{
    if n > 0 {
        lemma_staged_len_agree(a, left, b, right, ntop, threads, i, n - 1);
        lemma_chunk_start_monotone(right.len(), threads, n, threads as int);
        lemma_chunks_cover(right.len(), threads);
        lemma_candidates_agree(
            a,
            left,
            b,
            right,
            i,
            chunk_start(right.len(), threads, n - 1) as int,
            chunk_len(right.len(), threads, n - 1) as int,
        );
    }
}

/// Merged batches of matrices of strings keep as many matches as their strings.
pub proof fn lemma_staged_kept_agree<T: DataStorage, I: IndPtrStorage, J: IndexStorage>(
    a: &CsrMatBase<T, I, J>,
    left: Seq<String>,
    b: &CsrMatBase<T, I, J>,
    right: Seq<String>,
    ntop: nat,
    threads: nat,
    r: int,
)
    requires
        is_vectorized(a, left),
        is_vectorized(b, right),
        threads > 0,
        0 <= r <= left.len(),
    ensures
        staged_kept_upto(a, b, ntop, threads, r) == staged_matches_kept_upto(
            left,
            right,
            ntop,
            threads,
            r,
        ),
    decreases r,
{
    if r > 0 {
        lemma_staged_kept_agree(a, left, b, right, ntop, threads, r - 1);
        lemma_staged_len_agree(a, left, b, right, ntop, threads, r - 1, threads as int);
    }
}

/// The matches of batch `k` of the left strings fit row pointers of 32 bits.
pub open spec fn left_matches_fit(
    left: Seq<String>,
    right: Seq<String>,
    ntop: nat,
    threads: nat,
    k: int,
) -> bool {
    matches_kept_upto(
        left,
        right,
        ntop,
        0,
        right.len() as int,
        chunk_start(left.len(), threads, k + 1) as int,
    ) - matches_kept_upto(
        left,
        right,
        ntop,
        0,
        right.len() as int,
        chunk_start(left.len(), threads, k) as int,
    ) <= u32::MAX
}

/// The matches of all left strings in batch `k` of the right strings fit row
/// pointers of 32 bits.
pub open spec fn right_matches_fit(
    left: Seq<String>,
    right: Seq<String>,
    ntop: nat,
    threads: nat,
    k: int,
) -> bool {
    matches_kept_upto(
        left,
        right,
        ntop,
        chunk_start(right.len(), threads, k) as int,
        chunk_len(right.len(), threads, k) as int,
        left.len() as int,
    ) <= u32::MAX
}

/// Whether the left strings are cut into batches: so unless told otherwise.
pub open spec fn cuts_left(parallelize_left: Option<bool>) -> bool {
    match parallelize_left {
        Some(choice) => choice,
        None => true,
    }
}

/// For every string of `left` its best matches among the strings of `right`,
/// listed by ascending place in `left`. The score of two strings is the number
/// of trigrams of the vocabulary that both hold; strings that share none do not
/// match. Every string keeps its `ntop` best matches, where equal scores may be
/// chosen among freely.
///
/// The work is cut into `threads` batches. Unless `parallelize_left` is
/// `Some(false)` the strings of `left` are cut and the result is exact.
/// Otherwise the strings of `right` are cut: a string of `left` keeps its `ntop`
/// best matches in every batch, and of these the `ntop` best.
pub fn awesome_cossim(
    left: &Vec<String>,
    right: &Vec<String>,
    ntop: usize,
    threads: usize,
    parallelize_left: Option<bool>,
) -> (out: Matches<u16>)
    requires
        threads > 0,
        stored_upto(left@, left@.len() as int) <= u32::MAX,
        stored_upto(right@, right@.len() as int) <= u32::MAX,
        forall|j: int|
            0 <= j < right@.len() && (#[trigger] row_columns(right@[j]@)).len() > 0 ==> j
                <= u32::MAX,
        cuts_left(parallelize_left) ==> forall|k: int|
            0 <= k < threads ==> #[trigger] left_matches_fit(
                left@,
                right@,
                ntop as nat,
                threads as nat,
                k,
            ),
        !cuts_left(parallelize_left) ==> forall|k: int|
            0 <= k < threads ==> #[trigger] right_matches_fit(
                left@,
                right@,
                ntop as nat,
                threads as nat,
                k,
            ),
        !cuts_left(parallelize_left) ==> staged_matches_kept_upto(
            left@,
            right@,
            ntop as nat,
            threads as nat,
            left@.len() as int,
        ) <= u32::MAX,
    ensures
        out.wf(),
        rows_ascend(out.tuples()),
        rows_within(out.tuples(), 0, left@.len() as int),
        cuts_left(parallelize_left) ==> forall|i: int|
            0 <= i < left@.len() ==> is_top_selection(
                string_candidates(left@[i]@, right@, 0, right@.len() as int),
                #[trigger] row_tuples(out.tuples(), out.tuples().len() as int, i),
                ntop as nat,
            ),
        !cuts_left(parallelize_left) ==> forall|i: int|
            0 <= i < left@.len() ==> is_staged_match(
                left@[i]@,
                right@,
                ntop as nat,
                threads as nat,
                #[trigger] row_tuples(out.tuples(), out.tuples().len() as int, i),
            ),
{
    let by_left = match parallelize_left {
        Some(choice) => choice,
        None => true,
    };
    let a: CsrMatBase<u16, u32, u32> = transform(left);
    let b: CsrMatBase<u16, u32, u32> = transform(right);
    proof {
        assert forall|r: int| 0 <= r < b.rows && #[trigger] b.row_len(r) > 0 implies r
            <= u32::MAX by {
            b.lemma_slice_row(0, b.rows as int, r);
            assert(b.row_scored(r).len() == row_columns(right@[r]@).len());
        }
        assert forall|i: int, j: int| 0 <= i < a.rows && 0 <= j < b.rows implies #[trigger] row_cross(
            &a,
            i,
            &b,
            j,
        ) <= u16::MAX by {
            lemma_cross_is_shared(&a, left@, &b, right@, i, j);
        }
        lemma_chunks_cover(left@.len(), threads as nat);
        lemma_chunks_cover(right@.len(), threads as nat);
        if by_left {
            assert forall|k: int| 0 <= k < threads implies #[trigger] left_fits(
                &a,
                &b,
                ntop as nat,
                threads as nat,
                k,
            ) by {
                assert(left_matches_fit(left@, right@, ntop as nat, threads as nat, k));
                lemma_chunk_start_monotone(left@.len(), threads as nat, k + 1, threads as int);
                lemma_chunk_start_monotone(left@.len(), threads as nat, k, k + 1);
                lemma_kept_agree(
                    &a,
                    left@,
                    &b,
                    right@,
                    ntop as nat,
                    0,
                    right@.len() as int,
                    chunk_start(left@.len(), threads as nat, k + 1) as int,
                );
                lemma_kept_agree(
                    &a,
                    left@,
                    &b,
                    right@,
                    ntop as nat,
                    0,
                    right@.len() as int,
                    chunk_start(left@.len(), threads as nat, k) as int,
                );
            }
        } else {
            assert forall|k: int| 0 <= k < threads implies #[trigger] right_batch_fits(
                &a,
                &b,
                ntop as nat,
                threads as nat,
                k,
            ) by {
                assert(right_matches_fit(left@, right@, ntop as nat, threads as nat, k));
                lemma_chunk_start_monotone(right@.len(), threads as nat, k + 1, threads as int);
                lemma_kept_agree(
                    &a,
                    left@,
                    &b,
                    right@,
                    ntop as nat,
                    chunk_start(right@.len(), threads as nat, k) as int,
                    chunk_len(right@.len(), threads as nat, k) as int,
                    left@.len() as int,
                );
            }
            lemma_staged_kept_agree(
                &a,
                left@,
                &b,
                right@,
                ntop as nat,
                threads as nat,
                left@.len() as int,
            );
        }
    }
    let out = compute_cossim(a, b, ntop, threads, by_left);
    proof {
        let t = out.tuples();
        if by_left {
            assert forall|i: int| 0 <= i < left@.len() implies is_top_selection(
                string_candidates(left@[i]@, right@, 0, right@.len() as int),
                #[trigger] row_tuples(t, t.len() as int, i),
                ntop as nat,
            ) by {
                lemma_candidates_agree(&a, left@, &b, right@, i, 0, right@.len() as int);
            }
        } else {
            assert forall|i: int| 0 <= i < left@.len() implies is_staged_match(
                left@[i]@,
                right@,
                ntop as nat,
                threads as nat,
                #[trigger] row_tuples(t, t.len() as int, i),
            ) by {
                let kept = row_tuples(t, t.len() as int, i);
                assert(is_staged_selection(&a, i, &b, ntop as nat, threads as nat, kept));
                let parts = choose|parts: Seq<Seq<(nat, nat)>>| #[trigger]
                    is_staged_from(&a, i, &b, ntop as nat, threads as nat, kept, parts);
                assert forall|k: int| 0 <= k < threads implies is_top_selection(
                    string_candidates(
                        left@[i]@,
                        right@,
                        chunk_start(right@.len(), threads as nat, k) as int,
                        chunk_len(right@.len(), threads as nat, k) as int,
                    ),
                    #[trigger] parts[k],
                    ntop as nat,
                ) by {
                    lemma_chunk_start_monotone(right@.len(), threads as nat, k + 1, threads as int);
                    lemma_candidates_agree(
                        &a,
                        left@,
                        &b,
                        right@,
                        i,
                        chunk_start(right@.len(), threads as nat, k) as int,
                        chunk_len(right@.len(), threads as nat, k) as int,
                    );
                }
                assert(is_staged_match_from(
                    left@[i]@,
                    right@,
                    ntop as nat,
                    threads as nat,
                    kept,
                    parts,
                ));
            }
        }
    }
    out
}

/// The characters of the first `n` strings, counting two more for each string.
pub open spec fn char_total(strings: Seq<String>, n: int) -> nat
    decreases n,
{
    if n <= 0 {
        0
    } else {
        char_total(strings, n - 1) + strings[n - 1]@.len() + 2
    }
}

/// The smaller of the two.
pub open spec fn at_most(ntop: nat, len: nat) -> nat {
    if ntop <= len {
        ntop
    } else {
        len
    }
}

/// Strings store no more entries than they have characters and padding.
pub proof fn lemma_stored_bound(strings: Seq<String>, n: int)
    requires
        0 <= n <= strings.len(),
    ensures
        stored_upto(strings, n) <= char_total(strings, n),
        2 * n <= char_total(strings, n),
    decreases n,
{
    if n > 0 {
        lemma_stored_bound(strings, n - 1);
        lemma_row_columns(strings[n - 1]@);
    }
}

/// A string has no more candidates than there are strings to match.
pub proof fn lemma_candidates_bound(s: Seq<char>, right: Seq<String>, lo: int, len: int)
    requires
        0 <= len,
    ensures
        string_candidates(s, right, lo, len).len() <= len,
{
    lemma_nonzero_scores(string_scores(s, right, lo, len), len);
}

/// The first `r` strings keep no more matches than `r` times what one keeps.
pub proof fn lemma_matches_kept_bound(
    left: Seq<String>,
    right: Seq<String>,
    ntop: nat,
    lo: int,
    len: int,
    r: int,
)
    requires
        0 <= r,
        0 <= len,
    ensures
        matches_kept_upto(left, right, ntop, lo, len, r) <= r * at_most(ntop, len as nat),
    decreases r,
{
    let m = at_most(ntop, len as nat);
    if r > 0 {
        lemma_matches_kept_bound(left, right, ntop, lo, len, r - 1);
        lemma_candidates_bound(left[r - 1]@, right, lo, len);
        assert(r * m == (r - 1) * m + m) by (nonlinear_arith);
    } else {
        assert(0 * m == 0) by (nonlinear_arith);
    }
}

/// Strings never keep fewer matches as more of them are counted.
pub proof fn lemma_matches_kept_monotone(
    left: Seq<String>,
    right: Seq<String>,
    ntop: nat,
    lo: int,
    len: int,
    r: int,
    s: int,
)
    requires
        r <= s,
    ensures
        matches_kept_upto(left, right, ntop, lo, len, r) <= matches_kept_upto(
            left,
            right,
            ntop,
            lo,
            len,
            s,
        ),
    decreases s - r,
{
    if r < s {
        lemma_matches_kept_monotone(left, right, ntop, lo, len, r, s - 1);
    }
}

/// A string keeps in the first `n` batches no more matches than they hold
/// strings.
pub proof fn lemma_staged_len_bound(
    s: Seq<char>,
    right: Seq<String>,
    ntop: nat,
    threads: nat,
    n: int,
)
    requires
        0 <= n,
    ensures
        staged_matches_len(s, right, ntop, threads, n) <= chunk_start(right.len(), threads, n),
    decreases n,
{
    if n > 0 {
        lemma_staged_len_bound(s, right, ntop, threads, n - 1);
        lemma_candidates_bound(
            s,
            right,
            chunk_start(right.len(), threads, n - 1) as int,
            chunk_len(right.len(), threads, n - 1) as int,
        );
    }
}

/// Merged batches keep for the first `r` strings no more than `r` times what
/// one string keeps.
pub proof fn lemma_staged_kept_bound(
    left: Seq<String>,
    right: Seq<String>,
    ntop: nat,
    threads: nat,
    r: int,
)
    requires
        0 <= r,
        threads > 0,
    ensures
        staged_matches_kept_upto(left, right, ntop, threads, r) <= r * at_most(ntop, right.len()),
    decreases r,
{
    let m = at_most(ntop, right.len());
    if r > 0 {
        lemma_staged_kept_bound(left, right, ntop, threads, r - 1);
        lemma_staged_len_bound(left[r - 1]@, right, ntop, threads, threads as int);
        lemma_chunks_cover(right.len(), threads);
        assert(r * m == (r - 1) * m + m) by (nonlinear_arith);
    } else {
        assert(0 * m == 0) by (nonlinear_arith);
    }
}

/// Whether the characters of the strings, with two more for each string, can
/// be counted in 32 bits. Then the entries of their matrix can be, too.
pub fn text_fits(strings: &Vec<String>) -> (fits: bool)
    ensures
        fits == (char_total(strings@, strings@.len() as int) <= u32::MAX),
        fits ==> stored_upto(strings@, strings@.len() as int) <= u32::MAX && 2 * strings@.len()
            <= u32::MAX,
{
    let n = strings.len();
    let mut total: u32 = 0;
    let mut k: usize = 0;
    while k < n
        invariant
            n == strings@.len(),
            k <= n,
            total == char_total(strings@, k as int),
        decreases n - k,
    {
        let len = strings[k].as_str().unicode_len();
        if len > (u32::MAX - total) as usize || (u32::MAX - total) as usize - len < 2 {
            proof {
                lemma_char_total_monotone(strings@, k + 1, n as int);
            }
            return false;
        }
        total = total + len as u32 + 2;
        k += 1;
    }
    proof {
        lemma_stored_bound(strings@, n as int);
    }
    true
}

/// More strings have more characters.
pub proof fn lemma_char_total_monotone(strings: Seq<String>, r: int, s: int)
    requires
        r <= s,
    ensures
        char_total(strings, r) <= char_total(strings, s),
    decreases s - r,
{
    if r < s {
        lemma_char_total_monotone(strings, r, s - 1);
    }
}

/// Whether `rows` strings that keep `ntop` of `cols` matches each, at most,
/// keep no more matches than can be counted in 32 bits.
pub fn result_fits(rows: usize, cols: usize, ntop: usize) -> (fits: bool)
    ensures
        fits == (rows * at_most(ntop as nat, cols as nat) <= u32::MAX),
{
    let each = if ntop <= cols {
        ntop
    } else {
        cols
    };
    match rows.checked_mul(each) {
        Some(all) => all <= u32::MAX as usize,
        None => false,
    }
}

/// The sizes for which `awesome_cossim` is sure to have room: the characters
/// of either column, with two more per string, and the matches that all strings
/// of `left` may keep can be counted in 32 bits.
pub open spec fn sizes_fit(left: Seq<String>, right: Seq<String>, ntop: nat) -> bool {
    &&& char_total(left, left.len() as int) <= u32::MAX
    &&& char_total(right, right.len() as int) <= u32::MAX
    &&& left.len() * at_most(ntop, right.len()) <= u32::MAX
}

/// With sizes that fit, every batch and every result has room.
pub proof fn lemma_sizes_fit(left: Seq<String>, right: Seq<String>, ntop: nat, threads: nat)
    requires
        sizes_fit(left, right, ntop),
        threads > 0,
    ensures
        stored_upto(left, left.len() as int) <= u32::MAX,
        stored_upto(right, right.len() as int) <= u32::MAX,
        right.len() <= u32::MAX,
        forall|k: int| 0 <= k < threads ==> #[trigger] left_matches_fit(left, right, ntop, threads, k),
        forall|k: int| 0 <= k < threads ==> #[trigger] right_matches_fit(left, right, ntop, threads, k),
        staged_matches_kept_upto(left, right, ntop, threads, left.len() as int) <= u32::MAX,
{
    let rows = left.len() as int;
    let cols = right.len() as int;
    let m = at_most(ntop, right.len());
    lemma_stored_bound(left, rows);
    lemma_stored_bound(right, cols);
    lemma_chunks_cover(left.len(), threads);
    lemma_chunks_cover(right.len(), threads);
    assert forall|k: int| 0 <= k < threads implies #[trigger] left_matches_fit(
        left,
        right,
        ntop,
        threads,
        k,
    ) by {
        lemma_chunk_start_monotone(left.len(), threads, k + 1, threads as int);
        lemma_matches_kept_monotone(
            left,
            right,
            ntop,
            0,
            cols,
            chunk_start(left.len(), threads, k + 1) as int,
            rows,
        );
        lemma_matches_kept_bound(left, right, ntop, 0, cols, rows);
    }
    assert forall|k: int| 0 <= k < threads implies #[trigger] right_matches_fit(
        left,
        right,
        ntop,
        threads,
        k,
    ) by {
        let len = chunk_len(right.len(), threads, k);
        lemma_chunk_start_monotone(right.len(), threads, k + 1, threads as int);
        lemma_matches_kept_bound(
            left,
            right,
            ntop,
            chunk_start(right.len(), threads, k) as int,
            len as int,
            rows,
        );
        let part = at_most(ntop, len);
        assert(part <= m);
        assert(rows * part <= rows * m) by (nonlinear_arith)
            requires
                0 <= rows,
                part <= m,
        ;
    }
    lemma_staged_kept_bound(left, right, ntop, threads, rows);
}

/// `awesome_cossim` for strings of any size: the matches if the sizes fit, and
/// nothing if they do not.
pub fn try_awesome_cossim(
    left: &Vec<String>,
    right: &Vec<String>,
    ntop: usize,
    threads: usize,
    parallelize_left: Option<bool>,
) -> (out: Option<Matches<u16>>)
    requires
        threads > 0,
    ensures
        out.is_some() == sizes_fit(left@, right@, ntop as nat),
        out matches Some(found) ==> {
            &&& found.wf()
            &&& rows_ascend(found.tuples())
            &&& rows_within(found.tuples(), 0, left@.len() as int)
            &&& cuts_left(parallelize_left) ==> forall|i: int|
                0 <= i < left@.len() ==> is_top_selection(
                    string_candidates(left@[i]@, right@, 0, right@.len() as int),
                    #[trigger] row_tuples(found.tuples(), found.tuples().len() as int, i),
                    ntop as nat,
                )
            &&& !cuts_left(parallelize_left) ==> forall|i: int|
                0 <= i < left@.len() ==> is_staged_match(
                    left@[i]@,
                    right@,
                    ntop as nat,
                    threads as nat,
                    #[trigger] row_tuples(found.tuples(), found.tuples().len() as int, i),
                )
        },
{
    if !text_fits(left) || !text_fits(right) || !result_fits(left.len(), right.len(), ntop) {
        return None;
    }
    proof {
        lemma_sizes_fit(left@, right@, ntop as nat, threads as nat);
    }
    Some(awesome_cossim(left, right, ntop, threads, parallelize_left))
}

} // verus!
