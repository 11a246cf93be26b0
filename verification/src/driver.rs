//! Computing the best matches batch by batch.
//!
//! The left strategy cuts the rows of the left matrix into batches; every row
//! is matched against all right rows, so the result is exact. The right
//! strategy cuts the rows of the right matrix into batches; every left row keeps
//! its best matches within each batch, and the best of those are kept in the
//! end, so a match can be lost when one batch holds more than `ntop` good ones.

use crate::csr::CsrMatBase;
use crate::kernel::{
    dot_in, kept_upto, lemma_nonzero_scores, lemma_selection_from, nonzero_scores,
    product_candidates, product_row, row_dot, sparse_dot_topn,
};
use crate::partition::{chunk_len, chunk_start, lemma_chunk_start_monotone, lemma_chunks_cover, split_offsets};
use crate::select::is_top_selection;
use crate::storage::{DataStorage, IndPtrStorage, IndexStorage};
use vstd::prelude::*;

verus! {

/// Positions that hold the same entries contribute the same to a product.
pub proof fn lemma_dot_in_shift<T: DataStorage, I: IndPtrStorage, J: IndexStorage>(
    s: &CsrMatBase<T, I, J>,
    a: &CsrMatBase<T, I, J>,
    base: int,
    lo: int,
    hi: int,
    b: &CsrMatBase<T, I, J>,
    l: int,
)
    requires
        forall|k: int| lo <= k < hi ==> #[trigger] s.indices@[k] == a.indices@[base + k],
        forall|k: int| lo <= k < hi ==> #[trigger] s.data@[k] == a.data@[base + k],
    ensures
        dot_in(s, lo, hi, b, l) == dot_in(a, base + lo, base + hi, b, l),
    decreases hi - lo,
{
    if lo < hi {
        lemma_dot_in_shift(s, a, base, lo, hi - 1, b, l);
        assert(s.indices@[hi - 1] == a.indices@[base + (hi - 1)]);
        assert(s.data@[hi - 1] == a.data@[base + (hi - 1)]);
    }
}

/// `s` holds the rows `offset..offset + s.rows` of `a`.
pub open spec fn is_slice_of<T: DataStorage, I: IndPtrStorage, J: IndexStorage>(
    s: &CsrMatBase<T, I, J>,
    a: &CsrMatBase<T, I, J>,
    offset: int,
) -> bool {
    &&& a.wf()
    &&& s.wf()
    &&& 0 <= offset
    &&& offset + s.rows <= a.rows
    &&& s.cols == a.cols
    &&& forall|k: int|
        0 <= k <= s.rows ==> #[trigger] s.ptr(k) == a.ptr(offset + k) - a.ptr(offset)
    &&& s.indices@ == a.indices@.subrange(a.ptr(offset), a.ptr(offset + s.rows))
    &&& s.data@ == a.data@.subrange(a.ptr(offset), a.ptr(offset + s.rows))
}

/// A row of a slice has the products of the row it was taken from.
pub proof fn lemma_slice_product<T: DataStorage, I: IndPtrStorage, J: IndexStorage>(
    s: &CsrMatBase<T, I, J>,
    a: &CsrMatBase<T, I, J>,
    offset: int,
    b: &CsrMatBase<T, I, J>,
    i: int,
)
    requires
        is_slice_of(s, a, offset),
        0 <= i < s.rows,
    ensures
        forall|l: int| #[trigger] row_dot(s, i, b, l) == row_dot(a, offset + i, b, l),
        product_row(s, i, b) == product_row(a, offset + i, b),
        product_candidates(s, i, b) == product_candidates(a, offset + i, b),
{
    let base = a.ptr(offset);
    a.lemma_slice_row(offset, s.rows as int, i);
    assert(s.ptr(i) == a.ptr(offset + i) - base);
    assert(s.ptr(i + 1) == a.ptr(offset + (i + 1)) - base);
    assert forall|l: int| #[trigger] row_dot(s, i, b, l) == row_dot(a, offset + i, b, l) by {
        lemma_dot_in_shift(s, a, base, s.ptr(i), s.ptr(i + 1), b, l);
    }
    assert(product_row(s, i, b) =~= product_row(a, offset + i, b));
}

/// A slice keeps as many entries as the rows it was taken from.
pub proof fn lemma_slice_kept<T: DataStorage, I: IndPtrStorage, J: IndexStorage>(
    s: &CsrMatBase<T, I, J>,
    a: &CsrMatBase<T, I, J>,
    offset: int,
    b: &CsrMatBase<T, I, J>,
    ntop: nat,
    r: int,
)
    requires
        is_slice_of(s, a, offset),
        0 <= r <= s.rows,
    ensures
        kept_upto(s, b, ntop, r) == kept_upto(a, b, ntop, offset + r) - kept_upto(
            a,
            b,
            ntop,
            offset,
        ),
    decreases r,
{
    if r > 0 {
        lemma_slice_kept(s, a, offset, b, ntop, r - 1);
        lemma_slice_product(s, a, offset, b, r - 1);
    }
}

/// The best matches of the rows `offset..offset + len` of `a`: row `i` of the
/// result belongs to row `offset + i` of `a`.
pub fn left_batch<T: DataStorage, I: IndPtrStorage, J: IndexStorage>(
    a: &CsrMatBase<T, I, J>,
    b: &CsrMatBase<T, I, J>,
    ntop: usize,
    offset: usize,
    len: usize,
) -> (c: CsrMatBase<T, I, J>)
    requires
        a.wf(),
        b.wf(),
        a.cols == b.rows,
        offset + len <= a.rows,
        forall|i: int, l: int|
            offset <= i < offset + len && 0 <= l < b.cols ==> #[trigger] row_dot(a, i, b, l)
                <= T::max_value(),
        kept_upto(a, b, ntop as nat, offset + len) - kept_upto(a, b, ntop as nat, offset as int)
            <= I::max_nat(),
    ensures
        c.wf(),
        c.rows == len,
        c.cols == b.cols,
        c.distinct_columns(),
        forall|i: int|
            0 <= i < len ==> is_top_selection(
                product_candidates(a, offset + i, b),
                #[trigger] c.row_scored(i),
                ntop as nat,
            ),
        forall|i: int| 0 <= i < len ==> #[trigger] c.row_len(i) <= ntop,
{
    let a_batch = a.slice(offset, len);
    proof {
        assert(is_slice_of(&a_batch, a, offset as int));
        assert forall|i: int, l: int|
            0 <= i < a_batch.rows && 0 <= l < b.cols implies #[trigger] row_dot(&a_batch, i, b, l)
            <= T::max_value() by {
            lemma_slice_product(&a_batch, a, offset as int, b, i);
            assert(row_dot(a, offset + i, b, l) <= T::max_value());
        }
        lemma_slice_kept(&a_batch, a, offset as int, b, ntop as nat, len as int);
    }
    let c = sparse_dot_topn(&a_batch, b, ntop);
    proof {
        assert forall|i: int| 0 <= i < len implies is_top_selection(
            product_candidates(a, offset + i, b),
            #[trigger] c.row_scored(i),
            ntop as nat,
        ) by {
            lemma_slice_product(&a_batch, a, offset as int, b, i);
        }
    }
    c
}

/// The rows of batch `k` fit the row pointers of its result.
pub open spec fn left_batch_fits<T: DataStorage, I: IndPtrStorage, J: IndexStorage>(
    a: &CsrMatBase<T, I, J>,
    b: &CsrMatBase<T, I, J>,
    ntop: nat,
    threads: nat,
    k: int,
) -> bool {
    kept_upto(a, b, ntop, chunk_start(a.rows as nat, threads, k + 1) as int) - kept_upto(
        a,
        b,
        ntop,
        chunk_start(a.rows as nat, threads, k) as int,
    ) <= I::max_nat()
}

/// The left strategy: the rows of `a` are cut into `threads` batches, and each
/// batch is matched against all of `b`. Batch `k` of the result holds the rows
/// from the `k`-th start on. The rows of `b` are indexed by the columns of `a`.
pub fn left_parallel_sparse_dot_top_n<T: DataStorage, I: IndPtrStorage, J: IndexStorage>(
    a: &CsrMatBase<T, I, J>,
    b: &CsrMatBase<T, I, J>,
    ntop: usize,
    threads: usize,
) -> (out: (Vec<(usize, usize)>, Vec<CsrMatBase<T, I, J>>))
    requires
        a.wf(),
        b.wf(),
        a.cols == b.rows,
        threads > 0,
        forall|i: int, l: int|
            0 <= i < a.rows && 0 <= l < b.cols ==> #[trigger] row_dot(a, i, b, l)
                <= T::max_value(),
        forall|k: int|
            0 <= k < threads ==> #[trigger] left_batch_fits(a, b, ntop as nat, threads as nat, k),
    ensures
        out.0@.len() == threads,
        out.1@.len() == threads,
        forall|k: int|
            0 <= k < threads ==> (#[trigger] out.0@[k]).0 == chunk_start(
                a.rows as nat,
                threads as nat,
                k,
            ) && out.0@[k].1 == chunk_len(a.rows as nat, threads as nat, k),
        forall|k: int|
            0 <= k < threads ==> {
                let batch = #[trigger] out.1@[k];
                &&& batch.wf()
                &&& batch.rows == chunk_len(a.rows as nat, threads as nat, k)
                &&& batch.cols == b.cols
                &&& batch.distinct_columns()
            },
        forall|k: int, i: int|
            0 <= k < threads && 0 <= i < chunk_len(a.rows as nat, threads as nat, k)
                ==> is_top_selection(
                product_candidates(a, chunk_start(a.rows as nat, threads as nat, k) + i, b),
                #[trigger] out.1@[k].row_scored(i),
                ntop as nat,
            ),
{
    let offsets = split_offsets(a.rows, threads);
    let mut batches: Vec<CsrMatBase<T, I, J>> = Vec::new();
    let mut k: usize = 0;
    while k < threads
        invariant
            a.wf(),
            b.wf(),
            a.cols == b.rows,
            threads > 0,
            k <= threads,
            offsets@.len() == threads,
            batches@.len() == k,
            forall|i: int, l: int|
                0 <= i < a.rows && 0 <= l < b.cols ==> #[trigger] row_dot(a, i, b, l)
                    <= T::max_value(),
            forall|j: int|
                0 <= j < threads ==> #[trigger] left_batch_fits(
                    a,
                    b,
                    ntop as nat,
                    threads as nat,
                    j,
                ),
            forall|j: int|
                0 <= j < threads ==> (#[trigger] offsets@[j]).0 == chunk_start(
                    a.rows as nat,
                    threads as nat,
                    j,
                ) && offsets@[j].1 == chunk_len(a.rows as nat, threads as nat, j),
            forall|j: int|
                0 <= j < k ==> {
                    let batch = #[trigger] batches@[j];
                    &&& batch.wf()
                    &&& batch.rows == chunk_len(a.rows as nat, threads as nat, j)
                    &&& batch.cols == b.cols
                    &&& batch.distinct_columns()
                },
            forall|j: int, i: int|
                0 <= j < k && 0 <= i < chunk_len(a.rows as nat, threads as nat, j)
                    ==> is_top_selection(
                    product_candidates(a, chunk_start(a.rows as nat, threads as nat, j) + i, b),
                    #[trigger] batches@[j].row_scored(i),
                    ntop as nat,
                ),
        decreases threads - k,
    {
        let (offset, len) = offsets[k];
        proof {
            lemma_chunk_start_monotone(a.rows as nat, threads as nat, k + 1, threads as int);
            lemma_chunks_cover(a.rows as nat, threads as nat);
            assert(left_batch_fits(a, b, ntop as nat, threads as nat, k as int));
        }
        let batch = left_batch(a, b, ntop, offset, len);
        let ghost before = batches@;
        batches.push(batch);
        proof {
            assert forall|j: int, i: int|
                0 <= j < k + 1 && 0 <= i < chunk_len(
                    a.rows as nat,
                    threads as nat,
                    j,
                ) implies is_top_selection(
                product_candidates(a, chunk_start(a.rows as nat, threads as nat, j) + i, b),
                #[trigger] batches@[j].row_scored(i),
                ntop as nat,
            ) by {
                if j < k {
                    assert(batches@[j] == before[j]);
                }
            }
        }
        k += 1;
    }
    (offsets, batches)
}

/// What the positions `lo..hi` of `a` contribute to the score of a left row
/// against row `j` of `b`: each stored value times the entry of `b` in the
/// same column.
pub open spec fn cross_in<T: DataStorage, I: IndPtrStorage, J: IndexStorage>(
    a: &CsrMatBase<T, I, J>,
    lo: int,
    hi: int,
    b: &CsrMatBase<T, I, J>,
    j: int,
) -> nat
    decreases hi - lo,
{
    if hi <= lo {
        0
    } else {
        cross_in(a, lo, hi - 1, b, j) + a.data@[hi - 1].value() * b.entry(j, a.col(hi - 1))
    }
}

/// The score of row `i` of `a` against row `j` of `b`: the sum over the
/// columns of the products of their entries.
pub open spec fn row_cross<T: DataStorage, I: IndPtrStorage, J: IndexStorage>(
    a: &CsrMatBase<T, I, J>,
    i: int,
    b: &CsrMatBase<T, I, J>,
    j: int,
) -> nat {
    cross_in(a, a.ptr(i), a.ptr(i + 1), b, j)
}

/// The scores of row `i` of `a` against the rows `lo..lo + len` of `b`.
pub open spec fn cross_row<T: DataStorage, I: IndPtrStorage, J: IndexStorage>(
    a: &CsrMatBase<T, I, J>,
    i: int,
    b: &CsrMatBase<T, I, J>,
    lo: int,
    len: int,
) -> Seq<nat> {
    Seq::new(len as nat, |j: int| row_cross(a, i, b, lo + j))
}

/// The pairs of `s` with `offset` added to every column.
pub open spec fn shifted(s: Seq<(nat, nat)>, offset: nat) -> Seq<(nat, nat)> {
    s.map_values(|x: (nat, nat)| (x.0 + offset, x.1))
}

/// The rows among `lo..lo + len` of `b` that row `i` of `a` has a nonzero
/// score against, each with that score, by ascending row.
pub open spec fn cross_candidates<T: DataStorage, I: IndPtrStorage, J: IndexStorage>(
    a: &CsrMatBase<T, I, J>,
    i: int,
    b: &CsrMatBase<T, I, J>,
    lo: int,
    len: int,
) -> Seq<(nat, nat)> {
    shifted(nonzero_scores(cross_row(a, i, b, lo, len), len), lo as nat)
}

/// How many matches the first `r` rows of `a` keep among the rows
/// `lo..lo + len` of `b`.
pub open spec fn cross_kept_upto<T: DataStorage, I: IndPtrStorage, J: IndexStorage>(
    a: &CsrMatBase<T, I, J>,
    b: &CsrMatBase<T, I, J>,
    ntop: nat,
    lo: int,
    len: int,
    r: int,
) -> nat
    decreases r,
{
    if r <= 0 {
        0
    } else {
        let n = cross_candidates(a, r - 1, b, lo, len).len();
        cross_kept_upto(a, b, ntop, lo, len, r - 1) + if n <= ntop {
            n
        } else {
            ntop
        }
    }
}

/// A product with a transposed matrix is the score against the rows of the
/// matrix itself.
pub proof fn lemma_dot_is_cross<T: DataStorage, I: IndPtrStorage, J: IndexStorage>(
    a: &CsrMatBase<T, I, J>,
    lo: int,
    hi: int,
    bt: &CsrMatBase<T, I, J>,
    b: &CsrMatBase<T, I, J>,
    l: int,
    j: int,
)
    requires
        0 <= lo,
        hi <= a.indices@.len(),
        forall|k: int| 0 <= k < a.indices@.len() ==> (#[trigger] a.indices@[k]).as_nat() < a.cols,
        forall|c: int| 0 <= c < a.cols ==> #[trigger] bt.entry(c, l) == b.entry(j, c),
    ensures
        dot_in(a, lo, hi, bt, l) == cross_in(a, lo, hi, b, j),
    decreases hi - lo,
{
    if lo < hi {
        lemma_dot_is_cross(a, lo, hi - 1, bt, b, l, j);
        let c = a.col(hi - 1);
        assert(a.indices@[hi - 1].as_nat() < a.cols);
        assert(bt.entry(c, l) == b.entry(j, c));
    }
}

/// A left row scores nothing against a right row that stores nothing.
pub proof fn lemma_cross_empty<T: DataStorage, I: IndPtrStorage, J: IndexStorage>(
    a: &CsrMatBase<T, I, J>,
    lo: int,
    hi: int,
    b: &CsrMatBase<T, I, J>,
    j: int,
)
    requires
        b.ptr(j + 1) <= b.ptr(j),
    ensures
        cross_in(a, lo, hi, b, j) == 0,
    decreases hi - lo,
{
    if lo < hi {
        lemma_cross_empty(a, lo, hi - 1, b, j);
        assert(a.data@[hi - 1].value() * 0 == 0) by (nonlinear_arith);
    }
}

/// How often a pair occurs after shifting is how often it occurred before.
pub proof fn lemma_shifted_count(s: Seq<(nat, nat)>, offset: nat, x: (nat, nat))
    ensures
        shifted(s, offset).to_multiset().count((x.0 + offset, x.1)) == s.to_multiset().count(x),
        x.0 < offset ==> shifted(s, offset).to_multiset().count(x) == 0,
    decreases s.len(),
{
    broadcast use vstd::seq_lib::group_to_multiset_ensures;

    if s.len() == 0 {
        assert(shifted(s, offset) =~= Seq::empty());
        assert(s =~= Seq::empty());
    } else {
        let front = s.drop_last();
        let last = s.last();
        lemma_shifted_count(front, offset, x);
        assert(s =~= front.push(last));
        assert(shifted(s, offset) =~= shifted(front, offset).push((last.0 + offset, last.1)));
    }
}

/// A choice of the best stays one when all columns are shifted alike.
pub proof fn lemma_selection_shifted(
    cands: Seq<(nat, nat)>,
    kept: Seq<(nat, nat)>,
    ntop: nat,
    offset: nat,
)
    requires
        is_top_selection(cands, kept, ntop),
    ensures
        is_top_selection(shifted(cands, offset), shifted(kept, offset), ntop),
{
    let c2 = shifted(cands, offset);
    let k2 = shifted(kept, offset);
    assert forall|y: (nat, nat)| k2.to_multiset().count(y) <= c2.to_multiset().count(y) by {
        if y.0 < offset {
            lemma_shifted_count(kept, offset, y);
        } else {
            let x = ((y.0 - offset) as nat, y.1);
            lemma_shifted_count(kept, offset, x);
            lemma_shifted_count(cands, offset, x);
            assert(kept.to_multiset().count(x) <= cands.to_multiset().count(x));
        }
    }
    assert(k2.to_multiset().subset_of(c2.to_multiset()));
    assert forall|x2: (nat, nat), y2: (nat, nat)|
        c2.to_multiset().sub(k2.to_multiset()).count(x2) > 0 && k2.to_multiset().count(y2)
            > 0 implies x2.1 <= y2.1 by {
        if x2.0 < offset {
            lemma_shifted_count(cands, offset, x2);
        } else if y2.0 < offset {
            lemma_shifted_count(kept, offset, y2);
        } else {
            let x = ((x2.0 - offset) as nat, x2.1);
            let y = ((y2.0 - offset) as nat, y2.1);
            lemma_shifted_count(cands, offset, x);
            lemma_shifted_count(kept, offset, x);
            lemma_shifted_count(kept, offset, y);
            assert(cands.to_multiset().sub(kept.to_multiset()).count(x) > 0);
            assert(kept.to_multiset().count(y) > 0);
        }
    }
}

impl<T, I, J> CsrMatBase<T, I, J> where I: IndPtrStorage, J: IndexStorage, T: DataStorage {
    /// The row that position `k` belongs to.
    pub proof fn lemma_position_row(&self, k: int, n: int) -> (r: int)
        requires
            self.wf(),
            0 <= k < self.ptr(n),
            0 <= n <= self.rows,
        ensures
            0 <= r < self.rows,
            self.ptr(r) <= k < self.ptr(r + 1),
        decreases n,
    {
        if self.ptr(n - 1) <= k {
            n - 1
        } else {
            self.lemma_position_row(k, n - 1)
        }
    }

    /// Adds `offset` to every stored column and sets the number of columns.
    pub fn shift_columns(&mut self, offset: usize, cols: usize)
        requires
            old(self).wf(),
            forall|k: int|
                0 <= k < old(self).indices@.len() ==> (#[trigger] old(self).indices@[k]).as_nat()
                    + offset <= J::max_nat() && old(self).indices@[k].as_nat() + offset < cols,
        ensures
            final(self).wf(),
            final(self).rows == old(self).rows,
            final(self).cols == cols,
            final(self).indptr == old(self).indptr,
            final(self).data == old(self).data,
            final(self).indices@.len() == old(self).indices@.len(),
            forall|k: int|
                0 <= k < old(self).indices@.len() ==> (#[trigger] final(self).indices@[k]).as_nat()
                    == old(self).indices@[k].as_nat() + offset,
            forall|i: int|
                0 <= i < old(self).rows ==> #[trigger] final(self).row_scored(i) == shifted(
                    old(self).row_scored(i),
                    offset as nat,
                ),
            old(self).distinct_columns() ==> final(self).distinct_columns(),
    {
        let n = self.indices.len();
        let mut k: usize = 0;
        while k < n
            invariant
                n == old(self).indices@.len(),
                k <= n,
                self.indices@.len() == n,
                self.indptr == old(self).indptr,
                self.data == old(self).data,
                self.rows == old(self).rows,
                forall|q: int|
                    0 <= q < n ==> (#[trigger] old(self).indices@[q]).as_nat() + offset
                        <= J::max_nat() && old(self).indices@[q].as_nat() + offset < cols,
                forall|q: int|
                    0 <= q < k ==> (#[trigger] self.indices@[q]).as_nat() == old(
                        self,
                    ).indices@[q].as_nat() + offset,
                forall|q: int| k <= q < n ==> #[trigger] self.indices@[q] == old(self).indices@[q],
            decreases n - k,
        {
            let j: J = self.indices[k];
            proof {
                assert(old(self).indices@[k as int].as_nat() + offset <= J::max_nat());
                j.lemma_index_exact();
                j.lemma_bounded();
                J::lemma_from_usize_exact((j.spec_index() + offset) as usize);
            }
            let moved = J::from_usize(j.index() + offset);
            self.indices.set(k, moved);
            k += 1;
        }
        self.cols = cols;
        proof {
            assert forall|i: int| 0 <= i < old(self).rows implies #[trigger] self.row_scored(i)
                == shifted(old(self).row_scored(i), offset as nat) by {
                old(self).lemma_slice_row(0, old(self).rows as int, i);
                assert(self.row_scored(i) =~= shifted(old(self).row_scored(i), offset as nat));
            }
            if old(self).distinct_columns() {
                assert forall|r: int, k1: int, k2: int|
                    #![trigger self.in_row(r, k1), self.in_row(r, k2)]
                    0 <= r < self.rows && self.in_row(r, k1) && self.in_row(r, k2) && k1
                        < k2 implies self.col(k1) != self.col(k2) by {
                    old(self).lemma_slice_row(0, old(self).rows as int, r);
                    assert(old(self).in_row(r, k1));
                    assert(old(self).in_row(r, k2));
                }
            }
        }
    }
}

/// The best matches of all rows of `a` among the rows `offset..offset + len`
/// of `b`. Both matrices hold one row per string; the columns of the result
/// are rows of `b`.
pub fn right_batch<T: DataStorage, I: IndPtrStorage, J: IndexStorage>(
    a: &CsrMatBase<T, I, J>,
    b: &CsrMatBase<T, I, J>,
    ntop: usize,
    offset: usize,
    len: usize,
) -> (c: CsrMatBase<T, I, J>)
    requires
        a.wf(),
        b.wf(),
        a.cols == b.cols,
        offset + len <= b.rows,
        b.cols < usize::MAX,
        b.rows_fit(),
        forall|i: int, j: int|
            0 <= i < a.rows && offset <= j < offset + len ==> #[trigger] row_cross(a, i, b, j)
                <= T::max_value(),
        cross_kept_upto(a, b, ntop as nat, offset as int, len as int, a.rows as int)
            <= I::max_nat(),
    ensures
        c.wf(),
        c.rows == a.rows,
        c.cols == b.rows,
        c.distinct_columns(),
        forall|i: int|
            0 <= i < a.rows ==> is_top_selection(
                cross_candidates(a, i, b, offset as int, len as int),
                #[trigger] c.row_scored(i),
                ntop as nat,
            ),
        forall|i: int| 0 <= i < a.rows ==> #[trigger] c.row_len(i) <= ntop,
{
    let b_slice = b.slice(offset, len);
    proof {
        assert forall|r: int| 0 <= r < b_slice.rows && #[trigger] b_slice.row_len(r)
            > 0 implies r <= J::max_nat() by {
            assert(b_slice.ptr(r) == b.ptr(offset + r) - b.ptr(offset as int));
            assert(b_slice.ptr(r + 1) == b.ptr(offset + (r + 1)) - b.ptr(offset as int));
            assert(b.row_len(offset + r) > 0);
        }
    }
    let b_batch = b_slice.transpose();
    proof {
        assert forall|i: int, l: int| 0 <= i < a.rows && 0 <= l < len implies #[trigger] row_dot(
            a,
            i,
            &b_batch,
            l,
        ) == row_cross(a, i, b, offset + l) by {
            lemma_batch_scores(a, b, &b_slice, &b_batch, offset as int, i, l);
        }
        assert forall|i: int| 0 <= i < a.rows implies #[trigger] product_row(a, i, &b_batch)
            == cross_row(a, i, b, offset as int, len as int) by {
            assert forall|l: int| 0 <= l < len implies product_row(a, i, &b_batch)[l] == cross_row(
                a,
                i,
                b,
                offset as int,
                len as int,
            )[l] by {
                assert(row_dot(a, i, &b_batch, l) == row_cross(a, i, b, offset + l));
            }
            assert(product_row(a, i, &b_batch) =~= cross_row(a, i, b, offset as int, len as int));
        }
        assert forall|i: int, l: int|
            0 <= i < a.rows && 0 <= l < b_batch.cols implies #[trigger] row_dot(a, i, &b_batch, l)
            <= T::max_value() by {
            assert(row_dot(a, i, &b_batch, l) == row_cross(a, i, b, offset + l));
        }
        lemma_batch_kept(a, b, &b_batch, ntop as nat, offset as int, len as int, a.rows as int);
    }
    let mut res = sparse_dot_topn(a, &b_batch, ntop);
    let ghost plain = res;
    proof {
        assert forall|k: int| 0 <= k < res.indices@.len() implies (#[trigger] res.indices@[k]).as_nat()
            + offset <= J::max_nat() && res.indices@[k].as_nat() + offset < b.rows by {
            let i = res.lemma_position_row(k, res.rows as int);
            let cands = product_candidates(a, i, &b_batch);
            let kept = res.row_scored(i);
            lemma_nonzero_scores(product_row(a, i, &b_batch), len as int);
            lemma_selection_from(cands, kept, ntop as nat);
            let q = k - res.ptr(i);
            assert(kept[q].0 == res.indices@[k].as_nat());
            assert(cands.contains(kept[q]));
            let p = choose|p: int| 0 <= p < cands.len() && cands[p] == kept[q];
            let l = cands[p].0 as int;
            assert(cands[p].1 == product_row(a, i, &b_batch)[l]);
            assert(row_dot(a, i, &b_batch, l) == row_cross(a, i, b, offset + l));
            if b.ptr(offset + l + 1) <= b.ptr(offset + l) {
                lemma_cross_empty(a, a.ptr(i), a.ptr(i + 1), b, offset + l);
            }
            assert(b.row_len(offset + l) > 0);
        }
    }
    res.shift_columns(offset, b.rows);
    proof {
        assert forall|i: int| 0 <= i < a.rows implies is_top_selection(
            cross_candidates(a, i, b, offset as int, len as int),
            #[trigger] res.row_scored(i),
            ntop as nat,
        ) by {
            assert(res.row_scored(i) == shifted(plain.row_scored(i), offset as nat));
            assert(product_row(a, i, &b_batch) == cross_row(a, i, b, offset as int, len as int));
            lemma_selection_shifted(
                product_candidates(a, i, &b_batch),
                plain.row_scored(i),
                ntop as nat,
                offset as nat,
            );
        }
        assert forall|i: int| 0 <= i < a.rows implies #[trigger] res.row_len(i) <= ntop by {
            assert(plain.row_len(i) <= ntop);
        }
    }
    res
}

/// A product with the transposed batch is the score against the rows of `b`.
pub proof fn lemma_batch_scores<T: DataStorage, I: IndPtrStorage, J: IndexStorage>(
    a: &CsrMatBase<T, I, J>,
    b: &CsrMatBase<T, I, J>,
    b_slice: &CsrMatBase<T, I, J>,
    b_batch: &CsrMatBase<T, I, J>,
    offset: int,
    i: int,
    l: int,
)
    requires
        a.wf(),
        a.cols == b.cols,
        b_slice.cols == b.cols,
        0 <= i < a.rows,
        0 <= l < b_slice.rows,
        forall|r: int, c: int|
            0 <= r < b_slice.rows ==> #[trigger] b_slice.entry(r, c) == b.entry(offset + r, c),
        forall|r: int, c: int|
            0 <= r < b_slice.rows && 0 <= c < b_slice.cols ==> #[trigger] b_batch.entry(c, r)
                == b_slice.entry(r, c),
    ensures
        row_dot(a, i, b_batch, l) == row_cross(a, i, b, offset + l),
{
    a.lemma_slice_row(0, a.rows as int, i);
    assert forall|c: int| 0 <= c < a.cols implies #[trigger] b_batch.entry(c, l) == b.entry(
        offset + l,
        c,
    ) by {
        assert(b_batch.entry(c, l) == b_slice.entry(l, c));
        assert(b_slice.entry(l, c) == b.entry(offset + l, c));
    }
    lemma_dot_is_cross(a, a.ptr(i), a.ptr(i + 1), b_batch, b, l, offset + l);
}

/// The kernel keeps on a transposed batch what the batch is said to keep.
pub proof fn lemma_batch_kept<T: DataStorage, I: IndPtrStorage, J: IndexStorage>(
    a: &CsrMatBase<T, I, J>,
    b: &CsrMatBase<T, I, J>,
    b_batch: &CsrMatBase<T, I, J>,
    ntop: nat,
    offset: int,
    len: int,
    r: int,
)
    requires
        0 <= offset,
        b_batch.cols == len,
        0 <= r <= a.rows,
        forall|i: int|
            0 <= i < a.rows ==> #[trigger] product_row(a, i, b_batch) == cross_row(
                a,
                i,
                b,
                offset,
                len,
            ),
    ensures
        kept_upto(a, b_batch, ntop, r) == cross_kept_upto(a, b, ntop, offset, len, r),
    decreases r,
{
    if r > 0 {
        lemma_batch_kept(a, b, b_batch, ntop, offset, len, r - 1);
        assert(product_row(a, r - 1, b_batch) == cross_row(a, r - 1, b, offset, len));
    }
}

/// The matches of batch `k` of the right rows fit the row pointers of its
/// result.
pub open spec fn right_batch_fits<T: DataStorage, I: IndPtrStorage, J: IndexStorage>(
    a: &CsrMatBase<T, I, J>,
    b: &CsrMatBase<T, I, J>,
    ntop: nat,
    threads: nat,
    k: int,
) -> bool {
    cross_kept_upto(
        a,
        b,
        ntop,
        chunk_start(b.rows as nat, threads, k) as int,
        chunk_len(b.rows as nat, threads, k) as int,
        a.rows as int,
    ) <= I::max_nat()
}

/// What batch `k` of the right strategy holds: for every row of `a` a choice
/// of its best matches among the right rows of the batch.
pub open spec fn is_right_batch<T: DataStorage, I: IndPtrStorage, J: IndexStorage>(
    a: &CsrMatBase<T, I, J>,
    b: &CsrMatBase<T, I, J>,
    ntop: nat,
    threads: nat,
    k: int,
    batch: CsrMatBase<T, I, J>,
) -> bool {
    &&& batch.wf()
    &&& batch.rows == a.rows
    &&& batch.cols == b.rows
    &&& batch.distinct_columns()
    &&& forall|i: int|
        0 <= i < a.rows ==> is_top_selection(
            cross_candidates(
                a,
                i,
                b,
                chunk_start(b.rows as nat, threads, k) as int,
                chunk_len(b.rows as nat, threads, k) as int,
            ),
            #[trigger] batch.row_scored(i),
            ntop,
        )
}

/// The right strategy: the rows of `b` are cut into `threads` batches, and all
/// rows of `a` are matched against each batch. Both matrices hold one row per
/// string. Every batch of the result has all rows of `a`, and its columns are
/// rows of `b`.
pub fn right_parallel_sparse_dot_top_n<T: DataStorage, I: IndPtrStorage, J: IndexStorage>(
    a: &CsrMatBase<T, I, J>,
    b: &CsrMatBase<T, I, J>,
    ntop: usize,
    threads: usize,
) -> (out: (Vec<(usize, usize)>, Vec<CsrMatBase<T, I, J>>))
    requires
        a.wf(),
        b.wf(),
        a.cols == b.cols,
        threads > 0,
        b.cols < usize::MAX,
        b.rows_fit(),
        forall|i: int, j: int|
            0 <= i < a.rows && 0 <= j < b.rows ==> #[trigger] row_cross(a, i, b, j)
                <= T::max_value(),
        forall|k: int|
            0 <= k < threads ==> #[trigger] right_batch_fits(a, b, ntop as nat, threads as nat, k),
    ensures
        out.0@.len() == threads,
        out.1@.len() == threads,
        forall|k: int|
            0 <= k < threads ==> (#[trigger] out.0@[k]).0 == chunk_start(
                b.rows as nat,
                threads as nat,
                k,
            ) && out.0@[k].1 == chunk_len(b.rows as nat, threads as nat, k),
        forall|k: int|
            0 <= k < threads ==> is_right_batch(
                a,
                b,
                ntop as nat,
                threads as nat,
                k,
                #[trigger] out.1@[k],
            ),
{
    let offsets = split_offsets(b.rows, threads);
    let mut batches: Vec<CsrMatBase<T, I, J>> = Vec::new();
    let mut k: usize = 0;
    while k < threads
        invariant
            a.wf(),
            b.wf(),
            a.cols == b.cols,
            threads > 0,
            b.cols < usize::MAX,
            b.rows_fit(),
            k <= threads,
            offsets@.len() == threads,
            batches@.len() == k,
            forall|i: int, j: int|
                0 <= i < a.rows && 0 <= j < b.rows ==> #[trigger] row_cross(a, i, b, j)
                    <= T::max_value(),
            forall|j: int|
                0 <= j < threads ==> #[trigger] right_batch_fits(
                    a,
                    b,
                    ntop as nat,
                    threads as nat,
                    j,
                ),
            forall|j: int|
                0 <= j < threads ==> (#[trigger] offsets@[j]).0 == chunk_start(
                    b.rows as nat,
                    threads as nat,
                    j,
                ) && offsets@[j].1 == chunk_len(b.rows as nat, threads as nat, j),
            forall|j: int|
                0 <= j < k ==> is_right_batch(
                    a,
                    b,
                    ntop as nat,
                    threads as nat,
                    j,
                    #[trigger] batches@[j],
                ),
        decreases threads - k,
    {
        let (offset, len) = offsets[k];
        proof {
            lemma_chunk_start_monotone(b.rows as nat, threads as nat, k + 1, threads as int);
            lemma_chunks_cover(b.rows as nat, threads as nat);
            assert(right_batch_fits(a, b, ntop as nat, threads as nat, k as int));
        }
        let batch = right_batch(a, b, ntop, offset, len);
        let ghost before = batches@;
        batches.push(batch);
        proof {
            assert forall|j: int| 0 <= j < k + 1 implies is_right_batch(
                a,
                b,
                ntop as nat,
                threads as nat,
                j,
                #[trigger] batches@[j],
            ) by {
                if j < k {
                    assert(batches@[j] == before[j]);
                }
            }
        }
        k += 1;
    }
    (offsets, batches)
}

} // verus!
