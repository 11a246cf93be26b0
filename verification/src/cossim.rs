//! Matching two matrices of strings, and what the listed matches are.

use crate::assemble::{
    chunked_csr_to_matches, chunked_tuples, csr_to_matches, csr_tuples, tagged, Matches,
};
use crate::csr::CsrMatBase;
use crate::driver::{
    cross_candidates, cross_kept_upto, cross_row, is_right_batch, left_batch_fits,
    left_parallel_sparse_dot_top_n, lemma_batch_scores, right_batch_fits,
    right_parallel_sparse_dot_top_n, row_cross, shifted,
};
use crate::kernel::{kept_upto, product_candidates, product_row, row_dot};
use crate::partition::{
    chunk_len, chunk_start, lemma_chunk_start_monotone, lemma_chunks_cover,
};
use crate::reduce::{merged_row, reduced_upto, topn_from_csr_batches};
use crate::select::is_top_selection;
use crate::storage::{DataStorage, IndPtrStorage, IndexStorage};
use vstd::prelude::*;

verus! {

/// The matches of the left row `i` among the first `n` of `t`, as
/// `(column, score)` in the order in which they are listed.
pub open spec fn row_tuples(t: Seq<(nat, nat, nat)>, n: int, i: int) -> Seq<(nat, nat)>
    decreases n,
{
    if n <= 0 {
        Seq::empty()
    } else {
        let rest = row_tuples(t, n - 1, i);
        if t[n - 1].0 == i {
            rest.push((t[n - 1].1, t[n - 1].2))
        } else {
            rest
        }
    }
}

/// The matches are listed by ascending left row.
pub open spec fn rows_ascend(t: Seq<(nat, nat, nat)>) -> bool {
    forall|p: int, q: int| 0 <= p <= q < t.len() ==> (#[trigger] t[p]).0 <= (#[trigger] t[q]).0
}

/// Every match of `t` has a left row in `lo..hi`.
pub open spec fn rows_within(t: Seq<(nat, nat, nat)>, lo: int, hi: int) -> bool {
    forall|p: int| 0 <= p < t.len() ==> lo <= (#[trigger] t[p]).0 < hi
}

/// The matches of a row in two lists put together are those in the first
/// followed by those in the second.
pub proof fn lemma_row_tuples_concat(s: Seq<(nat, nat, nat)>, t: Seq<(nat, nat, nat)>, n: int, i: int)
    requires
        0 <= n <= t.len(),
    ensures
        row_tuples(s + t, s.len() + n, i) == row_tuples(s, s.len() as int, i) + row_tuples(t, n, i),
    decreases n,
{
    if n == 0 {
        lemma_row_tuples_prefix(s + t, s, s.len() as int, i);
        assert(row_tuples(s, s.len() as int, i) + row_tuples(t, 0, i) =~= row_tuples(
            s,
            s.len() as int,
            i,
        ));
    } else {
        lemma_row_tuples_concat(s, t, n - 1, i);
        assert((s + t)[s.len() + n - 1] == t[n - 1]);
        let front = row_tuples(s, s.len() as int, i);
        let rest = row_tuples(t, n - 1, i);
        if t[n - 1].0 == i {
            assert((front + rest).push((t[n - 1].1, t[n - 1].2)) =~= front + rest.push(
                (t[n - 1].1, t[n - 1].2),
            ));
        }
    }
}

/// Only the matches that are read count.
pub proof fn lemma_row_tuples_prefix(s: Seq<(nat, nat, nat)>, t: Seq<(nat, nat, nat)>, n: int, i: int)
    requires
        0 <= n <= s.len(),
        n <= t.len(),
        forall|k: int| 0 <= k < n ==> #[trigger] s[k] == t[k],
    ensures
        row_tuples(s, n, i) == row_tuples(t, n, i),
    decreases n,
{
    if n > 0 {
        lemma_row_tuples_prefix(s, t, n - 1, i);
        assert(s[n - 1] == t[n - 1]);
    }
}

/// The matches of one row are found under the row they were listed for.
pub proof fn lemma_row_tuples_tagged(pairs: Seq<(nat, nat)>, row: nat, n: int, i: int)
    requires
        0 <= n <= pairs.len(),
    ensures
        row_tuples(tagged(pairs, row), n, i) == if i == row {
            pairs.subrange(0, n)
        } else {
            Seq::empty()
        },
    decreases n,
{
    if n > 0 {
        lemma_row_tuples_tagged(pairs, row, n - 1, i);
        if i == row {
            assert(pairs.subrange(0, n) =~= pairs.subrange(0, n - 1).push(pairs[n - 1]));
        }
    } else {
        assert(pairs.subrange(0, 0) =~= Seq::empty());
    }
}

/// The matches that a matrix lists for a left row are the entries of the row
/// that stands for it.
pub proof fn lemma_csr_tuples<T: DataStorage, I: IndPtrStorage, J: IndexStorage>(
    m: &CsrMatBase<T, I, J>,
    offset: nat,
    r: int,
    i: int,
)
    requires
        0 <= r,
    ensures
        row_tuples(csr_tuples(m, offset, r), csr_tuples(m, offset, r).len() as int, i) == if offset
            <= i < offset + r {
            m.row_scored(i - offset)
        } else {
            Seq::empty()
        },
        rows_within(csr_tuples(m, offset, r), offset as int, offset + r),
        rows_ascend(csr_tuples(m, offset, r)),
    decreases r,
{
    if r > 0 {
        lemma_csr_tuples(m, offset, r - 1, i);
        let front = csr_tuples(m, offset, r - 1);
        let pairs = m.row_scored(r - 1);
        let last = tagged(pairs, (offset + r - 1) as nat);
        lemma_row_tuples_concat(front, last, last.len() as int, i);
        lemma_row_tuples_tagged(pairs, (offset + r - 1) as nat, pairs.len() as int, i);
        assert(pairs.subrange(0, pairs.len() as int) =~= pairs);
        assert(row_tuples(front, front.len() as int, i) + Seq::<(nat, nat)>::empty()
            =~= row_tuples(front, front.len() as int, i));
        assert(Seq::<(nat, nat)>::empty() + pairs =~= pairs);
        let all = csr_tuples(m, offset, r);
        assert forall|p: int| 0 <= p < all.len() implies offset <= (#[trigger] all[p]).0 < offset
            + r by {
            if p < front.len() {
                assert(all[p] == front[p]);
            } else {
                assert(all[p] == last[p - front.len()]);
            }
        }
        assert forall|p: int, q: int| 0 <= p <= q < all.len() implies (#[trigger] all[p]).0 <= (
        #[trigger] all[q]).0 by {
            if q < front.len() {
                assert(all[p] == front[p] && all[q] == front[q]);
            } else if p < front.len() {
                assert(all[p] == front[p]);
                assert(all[q] == last[q - front.len()]);
            } else {
                assert(all[p] == last[p - front.len()]);
                assert(all[q] == last[q - front.len()]);
            }
        }
    }
}

/// The batches follow each other: batch `k` starts where batch `k - 1` ends.
pub open spec fn batches_follow<T: DataStorage, I: IndPtrStorage, J: IndexStorage>(
    offsets: Seq<(usize, usize)>,
    batches: Seq<CsrMatBase<T, I, J>>,
    total: nat,
    threads: nat,
) -> bool {
    &&& offsets.len() == threads
    &&& batches.len() == threads
    &&& forall|k: int|
        0 <= k < threads ==> (#[trigger] offsets[k]).0 == chunk_start(total, threads, k)
    &&& forall|k: int| 0 <= k < threads ==> (#[trigger] batches[k]).rows == chunk_len(total, threads, k)
}

/// The matches that batches list for a left row are the entries of the row
/// that stands for it in its batch.
pub proof fn lemma_chunked_tuples<T: DataStorage, I: IndPtrStorage, J: IndexStorage>(
    offsets: Seq<(usize, usize)>,
    batches: Seq<CsrMatBase<T, I, J>>,
    total: nat,
    threads: nat,
    n: int,
)
    requires
        batches_follow(offsets, batches, total, threads),
        0 <= n <= threads,
    ensures
        forall|k: int, r: int|
            0 <= k < n && 0 <= r < chunk_len(total, threads, k) ==> row_tuples(
                chunked_tuples(offsets, batches, n),
                chunked_tuples(offsets, batches, n).len() as int,
                chunk_start(total, threads, k) + r,
            ) == #[trigger] batches[k].row_scored(r),
        forall|i: int|
            i >= chunk_start(total, threads, n) ==> #[trigger] row_tuples(
                chunked_tuples(offsets, batches, n),
                chunked_tuples(offsets, batches, n).len() as int,
                i,
            ) == Seq::<(nat, nat)>::empty(),
        rows_within(chunked_tuples(offsets, batches, n), 0, chunk_start(total, threads, n) as int),
        rows_ascend(chunked_tuples(offsets, batches, n)),
    decreases n,
{
    let all = chunked_tuples(offsets, batches, n);
    if n > 0 {
        lemma_chunked_tuples(offsets, batches, total, threads, n - 1);
        let front = chunked_tuples(offsets, batches, n - 1);
        let batch = batches[n - 1];
        let start = chunk_start(total, threads, n - 1);
        let len = chunk_len(total, threads, n - 1) as int;
        assert(offsets[n - 1].0 == start);
        assert(batch.rows == len);
        let last = csr_tuples(&batch, start, len);
        assert(all == front + last);
        assert forall|k: int, r: int|
            0 <= k < n && 0 <= r < chunk_len(total, threads, k) implies row_tuples(
            all,
            all.len() as int,
            chunk_start(total, threads, k) + r,
        ) == #[trigger] batches[k].row_scored(r) by {
            let i = chunk_start(total, threads, k) + r;
            lemma_row_tuples_concat(front, last, last.len() as int, i);
            lemma_csr_tuples(&batch, start, len, i);
            if k < n - 1 {
                lemma_chunk_start_monotone(total, threads, k + 1, n - 1);
                assert(row_tuples(front, front.len() as int, i) + Seq::<(nat, nat)>::empty()
                    =~= row_tuples(front, front.len() as int, i));
            } else {
                assert(row_tuples(front, front.len() as int, i) == Seq::<(nat, nat)>::empty());
                assert(Seq::<(nat, nat)>::empty() + batch.row_scored(r) =~= batch.row_scored(r));
            }
        }
        assert forall|i: int| i >= chunk_start(total, threads, n) implies #[trigger] row_tuples(
            all,
            all.len() as int,
            i,
        ) == Seq::<(nat, nat)>::empty() by {
            lemma_row_tuples_concat(front, last, last.len() as int, i);
            lemma_csr_tuples(&batch, start, len, i);
            assert(row_tuples(front, front.len() as int, i) == Seq::<(nat, nat)>::empty());
            assert(Seq::<(nat, nat)>::empty() + Seq::<(nat, nat)>::empty() =~= Seq::<
                (nat, nat),
            >::empty());
        }
        lemma_csr_tuples(&batch, start, len, 0);
        assert forall|p: int| 0 <= p < all.len() implies 0 <= (#[trigger] all[p]).0 < chunk_start(
            total,
            threads,
            n,
        ) by {
            if p < front.len() {
                assert(all[p] == front[p]);
            } else {
                assert(all[p] == last[p - front.len()]);
            }
        }
        assert forall|p: int, q: int| 0 <= p <= q < all.len() implies (#[trigger] all[p]).0 <= (
        #[trigger] all[q]).0 by {
            if q < front.len() {
                assert(all[p] == front[p] && all[q] == front[q]);
            } else if p < front.len() {
                assert(all[p] == front[p]);
                assert(all[q] == last[q - front.len()]);
            } else {
                assert(all[p] == last[p - front.len()]);
                assert(all[q] == last[q - front.len()]);
            }
        }
    }
}

/// The matches of batch `k` of the left rows fit the row pointers of its
/// result.
pub open spec fn left_fits<T: DataStorage, I: IndPtrStorage, J: IndexStorage>(
    a: &CsrMatBase<T, I, J>,
    b: &CsrMatBase<T, I, J>,
    ntop: nat,
    threads: nat,
    k: int,
) -> bool {
    cross_kept_upto(a, b, ntop, 0, b.rows as int, chunk_start(a.rows as nat, threads, k + 1) as int)
        - cross_kept_upto(a, b, ntop, 0, b.rows as int, chunk_start(a.rows as nat, threads, k) as int)
        <= I::max_nat()
}

/// How many matches row `i` of `a` keeps in the first `n` batches of the right
/// rows together.
pub open spec fn staged_len<T: DataStorage, I: IndPtrStorage, J: IndexStorage>(
    a: &CsrMatBase<T, I, J>,
    i: int,
    b: &CsrMatBase<T, I, J>,
    ntop: nat,
    threads: nat,
    n: int,
) -> nat
    decreases n,
{
    if n <= 0 {
        0
    } else {
        let found = cross_candidates(
            a,
            i,
            b,
            chunk_start(b.rows as nat, threads, n - 1) as int,
            chunk_len(b.rows as nat, threads, n - 1) as int,
        ).len();
        staged_len(a, i, b, ntop, threads, n - 1) + if found <= ntop {
            found
        } else {
            ntop
        }
    }
}

/// How many matches the first `r` rows of `a` keep once the batches of the
/// right rows are merged.
pub open spec fn staged_kept_upto<T: DataStorage, I: IndPtrStorage, J: IndexStorage>(
    a: &CsrMatBase<T, I, J>,
    b: &CsrMatBase<T, I, J>,
    ntop: nat,
    threads: nat,
    r: int,
) -> nat
    decreases r,
{
    if r <= 0 {
        0
    } else {
        let found = staged_len(a, r - 1, b, ntop, threads, threads as int);
        staged_kept_upto(a, b, ntop, threads, r - 1) + if found <= ntop {
            found
        } else {
            ntop
        }
    }
}

/// The first `n` of `parts`, one after the other.
pub open spec fn joined(parts: Seq<Seq<(nat, nat)>>, n: int) -> Seq<(nat, nat)>
    decreases n,
{
    if n <= 0 {
        Seq::empty()
    } else {
        joined(parts, n - 1) + parts[n - 1]
    }
}

/// `parts` holds a choice of the `ntop` best matches of row `i` of `a` in every
/// batch of the right rows, and `kept` is a choice of the `ntop` best of those.
pub open spec fn is_staged_from<T: DataStorage, I: IndPtrStorage, J: IndexStorage>(
    a: &CsrMatBase<T, I, J>,
    i: int,
    b: &CsrMatBase<T, I, J>,
    ntop: nat,
    threads: nat,
    kept: Seq<(nat, nat)>,
    parts: Seq<Seq<(nat, nat)>>,
) -> bool {
    &&& parts.len() == threads
    &&& forall|k: int|
        0 <= k < threads ==> is_top_selection(
            cross_candidates(
                a,
                i,
                b,
                chunk_start(b.rows as nat, threads, k) as int,
                chunk_len(b.rows as nat, threads, k) as int,
            ),
            #[trigger] parts[k],
            ntop,
        )
    &&& is_top_selection(joined(parts, threads as int), kept, ntop)
}

/// `kept` is what the right strategy may keep for row `i` of `a`: in every
/// batch of the right rows a choice of the `ntop` best matches is made, and of
/// all those chosen the `ntop` best are chosen again. A match that is not
/// among the best of its batch is lost, even if it is among the best overall.
pub open spec fn is_staged_selection<T: DataStorage, I: IndPtrStorage, J: IndexStorage>(
    a: &CsrMatBase<T, I, J>,
    i: int,
    b: &CsrMatBase<T, I, J>,
    ntop: nat,
    threads: nat,
    kept: Seq<(nat, nat)>,
) -> bool {
    exists|parts: Seq<Seq<(nat, nat)>>| #[trigger]
        is_staged_from(a, i, b, ntop, threads, kept, parts)
}

/// Shifting by nothing changes nothing.
pub proof fn lemma_shifted_zero(s: Seq<(nat, nat)>)
    ensures
        shifted(s, 0) == s,
{
    assert(shifted(s, 0) =~= s);
}

/// What the batches of the right strategy hold for row `i`, batch by batch.
pub open spec fn batch_rows<T: DataStorage, I: IndPtrStorage, J: IndexStorage>(
    batches: Seq<CsrMatBase<T, I, J>>,
    i: int,
) -> Seq<Seq<(nat, nat)>> {
    Seq::new(batches.len(), |k: int| batches[k].row_scored(i))
}

/// The merged row of the batches is their rows joined.
pub proof fn lemma_merged_is_joined<T: DataStorage, I: IndPtrStorage, J: IndexStorage>(
    batches: Seq<CsrMatBase<T, I, J>>,
    i: int,
    n: int,
)
    requires
        0 <= n <= batches.len(),
    ensures
        merged_row(batches, i, n) == joined(batch_rows(batches, i), n),
    decreases n,
{
    if n > 0 {
        lemma_merged_is_joined(batches, i, n - 1);
    }
}

/// The merged row of the batches is as long as the batches are said to keep.
pub proof fn lemma_merged_len<T: DataStorage, I: IndPtrStorage, J: IndexStorage>(
    a: &CsrMatBase<T, I, J>,
    b: &CsrMatBase<T, I, J>,
    ntop: nat,
    threads: nat,
    batches: Seq<CsrMatBase<T, I, J>>,
    i: int,
    n: int,
)
    requires
        batches.len() == threads,
        0 <= n <= threads,
        0 <= i < a.rows,
        forall|k: int| 0 <= k < threads ==> is_right_batch(a, b, ntop, threads, k, #[trigger] batches[k]),
    ensures
        merged_row(batches, i, n).len() == staged_len(a, i, b, ntop, threads, n),
    decreases n,
{
    if n > 0 {
        lemma_merged_len(a, b, ntop, threads, batches, i, n - 1);
        assert(is_right_batch(a, b, ntop, threads, n - 1, batches[n - 1]));
        let row = batches[n - 1].row_scored(i);
        assert(is_top_selection(
            cross_candidates(
                a,
                i,
                b,
                chunk_start(b.rows as nat, threads, n - 1) as int,
                chunk_len(b.rows as nat, threads, n - 1) as int,
            ),
            row,
            ntop,
        ));
    }
}

/// Merging the batches keeps as much as the right strategy is said to keep.
pub proof fn lemma_reduced_is_staged<T: DataStorage, I: IndPtrStorage, J: IndexStorage>(
    a: &CsrMatBase<T, I, J>,
    b: &CsrMatBase<T, I, J>,
    ntop: nat,
    threads: nat,
    batches: Seq<CsrMatBase<T, I, J>>,
    r: int,
)
    requires
        batches.len() == threads,
        0 <= r <= a.rows,
        forall|k: int| 0 <= k < threads ==> is_right_batch(a, b, ntop, threads, k, #[trigger] batches[k]),
    ensures
        reduced_upto(batches, ntop, r) == staged_kept_upto(a, b, ntop, threads, r),
    decreases r,
{
    if r > 0 {
        lemma_reduced_is_staged(a, b, ntop, threads, batches, r - 1);
        lemma_merged_len(a, b, ntop, threads, batches, r - 1, threads as int);
    }
}

/// The left strategy keeps in the first `r` rows what is counted row by row.
pub proof fn lemma_left_kept<T: DataStorage, I: IndPtrStorage, J: IndexStorage>(
    a: &CsrMatBase<T, I, J>,
    b: &CsrMatBase<T, I, J>,
    bt: &CsrMatBase<T, I, J>,
    ntop: nat,
    r: int,
)
    requires
        bt.cols == b.rows,
        0 <= r <= a.rows,
        forall|i: int|
            0 <= i < a.rows ==> #[trigger] product_row(a, i, bt) == cross_row(
                a,
                i,
                b,
                0,
                b.rows as int,
            ),
    ensures
        kept_upto(a, bt, ntop, r) == cross_kept_upto(a, b, ntop, 0, b.rows as int, r),
    decreases r,
{
    if r > 0 {
        lemma_left_kept(a, b, bt, ntop, r - 1);
        assert(product_row(a, r - 1, bt) == cross_row(a, r - 1, b, 0, b.rows as int));
        lemma_shifted_zero(product_candidates(a, r - 1, bt));
    }
}

/// The best matches of every row of `a` among the rows of `b`, listed by
/// ascending row of `a`. Both matrices hold one row per string over the same
/// columns, and the score of two rows is the sum over the columns of the
/// products of their entries.
///
/// With `parallelize_left` the rows of `a` are cut into `threads` batches and
/// the result is exact: every row keeps its `ntop` best matches. Without it the
/// rows of `b` are cut into batches, every row of `a` keeps its `ntop` best
/// matches within each batch, and of these the `ntop` best are kept.
pub fn compute_cossim<T: DataStorage, I: IndPtrStorage, J: IndexStorage>(
    a: CsrMatBase<T, I, J>,
    b: CsrMatBase<T, I, J>,
    ntop: usize,
    threads: usize,
    parallelize_left: bool,
) -> (out: Matches<T>)
    requires
        a.wf(),
        b.wf(),
        a.cols == b.cols,
        threads > 0,
        b.cols < usize::MAX,
        b.rows_fit(),
        forall|i: int, j: int|
            0 <= i < a.rows && 0 <= j < b.rows ==> #[trigger] row_cross(&a, i, &b, j)
                <= T::max_value(),
        parallelize_left ==> forall|k: int|
            0 <= k < threads ==> #[trigger] left_fits(&a, &b, ntop as nat, threads as nat, k),
        !parallelize_left ==> forall|k: int|
            0 <= k < threads ==> #[trigger] right_batch_fits(
                &a,
                &b,
                ntop as nat,
                threads as nat,
                k,
            ),
        !parallelize_left ==> staged_kept_upto(&a, &b, ntop as nat, threads as nat, a.rows as int)
            <= I::max_nat(),
    ensures
        out.wf(),
        rows_ascend(out.tuples()),
        rows_within(out.tuples(), 0, a.rows as int),
        parallelize_left ==> forall|i: int|
            0 <= i < a.rows ==> is_top_selection(
                cross_candidates(&a, i, &b, 0, b.rows as int),
                #[trigger] row_tuples(out.tuples(), out.tuples().len() as int, i),
                ntop as nat,
            ),
        !parallelize_left ==> forall|i: int|
            0 <= i < a.rows ==> is_staged_selection(
                &a,
                i,
                &b,
                ntop as nat,
                threads as nat,
                #[trigger] row_tuples(out.tuples(), out.tuples().len() as int, i),
            ),
{
    assert(a.indptr@.len() == a.indptr.len());
    if parallelize_left {
        let bt = b.transpose();
        proof {
            assert forall|i: int, l: int| 0 <= i < a.rows && 0 <= l < b.rows implies #[trigger] row_dot(
                &a,
                i,
                &bt,
                l,
            ) == row_cross(&a, i, &b, l) by {
                lemma_batch_scores(&a, &b, &b, &bt, 0, i, l);
            }
            assert forall|i: int| 0 <= i < a.rows implies #[trigger] product_row(&a, i, &bt)
                == cross_row(&a, i, &b, 0, b.rows as int) by {
                assert forall|l: int| 0 <= l < b.rows implies product_row(&a, i, &bt)[l]
                    == cross_row(&a, i, &b, 0, b.rows as int)[l] by {
                    assert(row_dot(&a, i, &bt, l) == row_cross(&a, i, &b, l));
                }
                assert(product_row(&a, i, &bt) =~= cross_row(&a, i, &b, 0, b.rows as int));
            }
            assert forall|i: int, l: int|
                0 <= i < a.rows && 0 <= l < bt.cols implies #[trigger] row_dot(&a, i, &bt, l)
                <= T::max_value() by {
                assert(row_dot(&a, i, &bt, l) == row_cross(&a, i, &b, l));
            }
            assert forall|k: int| 0 <= k < threads implies #[trigger] left_batch_fits(
                &a,
                &bt,
                ntop as nat,
                threads as nat,
                k,
            ) by {
                assert(left_fits(&a, &b, ntop as nat, threads as nat, k));
                lemma_chunk_start_monotone(a.rows as nat, threads as nat, k + 1, threads as int);
                lemma_chunk_start_monotone(a.rows as nat, threads as nat, k, k + 1);
                lemma_chunks_cover(a.rows as nat, threads as nat);
                lemma_left_kept(
                    &a,
                    &b,
                    &bt,
                    ntop as nat,
                    chunk_start(a.rows as nat, threads as nat, k + 1) as int,
                );
                lemma_left_kept(
                    &a,
                    &b,
                    &bt,
                    ntop as nat,
                    chunk_start(a.rows as nat, threads as nat, k) as int,
                );
            }
        }
        let (offsets, batches) = left_parallel_sparse_dot_top_n(&a, &bt, ntop, threads);
        proof {
            lemma_chunks_cover(a.rows as nat, threads as nat);
            assert(batches_follow(offsets@, batches@, a.rows as nat, threads as nat));
            lemma_chunked_tuples(offsets@, batches@, a.rows as nat, threads as nat, threads as int);
            assert forall|k: int|
                0 <= k < batches@.len() && k < offsets@.len() implies (#[trigger] batches@[k]).wf()
                && offsets@[k].0 + batches@[k].rows <= usize::MAX by {
                lemma_chunk_start_monotone(a.rows as nat, threads as nat, k + 1, threads as int);
            }
        }
        let out = chunked_csr_to_matches(offsets, batches);
        proof {
            let t = out.tuples();
            assert forall|i: int| 0 <= i < a.rows implies is_top_selection(
                cross_candidates(&a, i, &b, 0, b.rows as int),
                #[trigger] row_tuples(t, t.len() as int, i),
                ntop as nat,
            ) by {
                let k = lemma_chunk_of(a.rows as nat, threads as nat, i, threads as int);
                let r = i - chunk_start(a.rows as nat, threads as nat, k);
                assert(row_tuples(t, t.len() as int, chunk_start(a.rows as nat, threads as nat, k) + r)
                    == batches@[k].row_scored(r));
                assert(product_row(&a, i, &bt) == cross_row(&a, i, &b, 0, b.rows as int));
                lemma_shifted_zero(product_candidates(&a, i, &bt));
            }
        }
        out
    } else {
        let (_, batches) = right_parallel_sparse_dot_top_n(&a, &b, ntop, threads);
        proof {
            assert forall|k: int| 0 <= k < batches@.len() implies (#[trigger] batches@[k]).wf()
                && batches@[k].rows == batches@[0].rows by {
                assert(is_right_batch(&a, &b, ntop as nat, threads as nat, k, batches@[k]));
                assert(is_right_batch(&a, &b, ntop as nat, threads as nat, 0, batches@[0]));
            }
            assert(is_right_batch(&a, &b, ntop as nat, threads as nat, 0, batches@[0]));
            lemma_reduced_is_staged(&a, &b, ntop as nat, threads as nat, batches@, a.rows as int);
        }
        let ghost kept_batches = batches@;
        let reduced_csr = topn_from_csr_batches(batches, ntop);
        let out = csr_to_matches(reduced_csr);
        proof {
            let t = out.tuples();
            lemma_csr_tuples(&reduced_csr, 0, reduced_csr.rows as int, 0);
            assert forall|i: int| 0 <= i < a.rows implies is_staged_selection(
                &a,
                i,
                &b,
                ntop as nat,
                threads as nat,
                #[trigger] row_tuples(t, t.len() as int, i),
            ) by {
                lemma_csr_tuples(&reduced_csr, 0, reduced_csr.rows as int, i);
                assert(row_tuples(t, t.len() as int, i) == reduced_csr.row_scored(i));
                let parts = batch_rows(kept_batches, i);
                lemma_merged_is_joined(kept_batches, i, threads as int);
                assert forall|k: int| 0 <= k < threads implies is_top_selection(
                    cross_candidates(
                        &a,
                        i,
                        &b,
                        chunk_start(b.rows as nat, threads as nat, k) as int,
                        chunk_len(b.rows as nat, threads as nat, k) as int,
                    ),
                    #[trigger] parts[k],
                    ntop as nat,
                ) by {
                    assert(is_right_batch(
                        &a,
                        &b,
                        ntop as nat,
                        threads as nat,
                        k,
                        kept_batches[k],
                    ));
                }
                assert(is_staged_from(
                    &a,
                    i,
                    &b,
                    ntop as nat,
                    threads as nat,
                    row_tuples(t, t.len() as int, i),
                    parts,
                ));
            }
        }
        out
    }
}

/// The batch that row `i` falls into.
pub proof fn lemma_chunk_of(total: nat, threads: nat, i: int, n: int) -> (k: int)
    requires
        0 <= i < chunk_start(total, threads, n),
        0 <= n,
    ensures
        0 <= k < n,
        chunk_start(total, threads, k) <= i < chunk_start(total, threads, k) + chunk_len(
            total,
            threads,
            k,
        ),
    decreases n,
{
    if chunk_start(total, threads, n - 1) <= i {
        n - 1
    } else {
        lemma_chunk_of(total, threads, i, n - 1)
    }
}

} // verus!
