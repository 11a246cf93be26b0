//! Compressed-sparse-row matrices.
//!
//! A matrix keeps its nonzeros row after row: `indptr[r]..indptr[r + 1]` are the
//! positions of row `r` in `indices` (the columns) and `data` (the values).
//! Columns inside a row are in no particular order.

use crate::storage::{DataStorage, IndPtrStorage, IndexStorage};
use vstd::prelude::*;

verus! {

/// The values stored under column `c` at the positions `lo..hi`, in storage order.
pub open spec fn cell_in<T, J: IndexStorage>(
    indices: Seq<J>,
    data: Seq<T>,
    lo: int,
    hi: int,
    c: int,
) -> Seq<T>
    decreases hi - lo,
{
    if hi <= lo {
        Seq::empty()
    } else {
        let rest = cell_in(indices, data, lo, hi - 1, c);
        if indices[hi - 1].as_nat() == c {
            rest.push(data[hi - 1])
        } else {
            rest
        }
    }
}

/// The sum of the values stored under column `c` at the positions `lo..hi`.
pub open spec fn entry_in<T: DataStorage, J: IndexStorage>(
    indices: Seq<J>,
    data: Seq<T>,
    lo: int,
    hi: int,
    c: int,
) -> nat
    decreases hi - lo,
{
    if hi <= lo {
        0
    } else {
        entry_in(indices, data, lo, hi - 1, c) + if indices[hi - 1].as_nat() == c {
            data[hi - 1].value()
        } else {
            0
        }
    }
}

/// The sum of the numbers that the values of `s` stand for.
pub open spec fn total<T: DataStorage>(s: Seq<T>) -> nat
    decreases s.len(),
{
    if s.len() == 0 {
        0
    } else {
        total(s.drop_last()) + s.last().value()
    }
}

/// A sparse matrix in compressed-sparse-row form.
#[derive(Debug)]
pub struct CsrMatBase<T, I, J> where I: IndPtrStorage, J: IndexStorage, T: DataStorage {
    pub indptr: Vec<I>,
    pub indices: Vec<J>,
    pub data: Vec<T>,
    pub rows: usize,
    pub cols: usize,
}

impl<T, I, J> CsrMatBase<T, I, J> where I: IndPtrStorage, J: IndexStorage, T: DataStorage {
    /// Row pointer `r` as a number.
    pub open spec fn ptr(&self, r: int) -> int {
        self.indptr@[r].as_nat() as int
    }

    /// The column stored at position `k`.
    pub open spec fn col(&self, k: int) -> int {
        self.indices@[k].as_nat() as int
    }

    /// The structural invariant: the row pointers start at zero, end at the
    /// number of stored entries and never decrease, and every column is in range.
    pub open spec fn wf(&self) -> bool {
        &&& self.indptr@.len() == self.rows + 1
        &&& self.indices@.len() == self.data@.len()
        &&& self.ptr(0) == 0
        &&& self.ptr(self.rows as int) == self.data@.len()
        &&& forall|r: int, s: int|
            #![trigger self.indptr@[r], self.indptr@[s]]
            0 <= r <= s <= self.rows ==> self.indptr@[r].as_nat() <= self.indptr@[s].as_nat()
        &&& forall|k: int|
            #![trigger self.indices@[k]]
            0 <= k < self.indices@.len() ==> self.indices@[k].as_nat() < self.cols
    }

    /// Position `k` belongs to row `r`.
    pub open spec fn in_row(&self, r: int, k: int) -> bool {
        self.ptr(r) <= k < self.ptr(r + 1)
    }

    /// No row stores the same column twice.
    pub open spec fn distinct_columns(&self) -> bool {
        forall|r: int, k1: int, k2: int|
            #![trigger self.in_row(r, k1), self.in_row(r, k2)]
            0 <= r < self.rows && self.in_row(r, k1) && self.in_row(r, k2) && k1 < k2 ==> self.col(
                k1,
            ) != self.col(k2)
    }

    /// Every row lists its entries by ascending column.
    pub open spec fn sorted_rows(&self) -> bool {
        forall|r: int, k1: int, k2: int|
            #![trigger self.in_row(r, k1), self.in_row(r, k2)]
            0 <= r < self.rows && self.in_row(r, k1) && self.in_row(r, k2) && k1 <= k2 ==> self.col(
                k1,
            ) <= self.col(k2)
    }

    /// The number of entries stored in row `r`.
    pub open spec fn row_len(&self, r: int) -> int {
        self.ptr(r + 1) - self.ptr(r)
    }

    /// The values stored at row `r`, column `c`, in storage order. A matrix
    /// with distinct columns stores at most one.
    pub open spec fn cell(&self, r: int, c: int) -> Seq<T> {
        cell_in(self.indices@, self.data@, self.ptr(r), self.ptr(r + 1), c)
    }

    /// The matrix entry at row `r`, column `c`: the sum of what is stored there.
    pub open spec fn entry(&self, r: int, c: int) -> nat {
        entry_in(self.indices@, self.data@, self.ptr(r), self.ptr(r + 1), c)
    }

    /// Puts the three arrays and the shape together. The arrays are taken as
    /// they are, so they must already describe a matrix.
    pub fn new(indptr: Vec<I>, indices: Vec<J>, data: Vec<T>, rows: usize, cols: usize) -> (m:
        Self)
        requires
            (CsrMatBase { indptr, indices, data, rows, cols }).wf(),
        ensures
            m.indptr == indptr,
            m.indices == indices,
            m.data == data,
            m.rows == rows,
            m.cols == cols,
            m.wf(),
    {
        Self { indptr, indices, data, rows, cols }
    }

    /// The number of stored entries.
    pub fn nnz(&self) -> (n: usize)
        ensures
            n == self.data@.len(),
    {
        self.data.len()
    }

    /// Row pointer `r` as a position.
    pub fn row_start(&self, r: usize) -> (p: usize)
        requires
            self.wf(),
            r <= self.rows,
        ensures
            p == self.ptr(r as int),
            p <= self.data@.len(),
    {
        let raw: I = self.indptr[r];
        assert(self.data@.len() == self.data.len());
        proof {
            raw.lemma_index_exact();
            assert(self.indptr@[r as int].as_nat() <= self.indptr@[self.rows as int].as_nat());
        }
        raw.index()
    }

    /// The column stored at position `k`.
    pub fn col_at(&self, k: usize) -> (c: usize)
        requires
            self.wf(),
            k < self.indices@.len(),
        ensures
            c == self.col(k as int),
            c < self.cols,
    {
        let raw: J = self.indices[k];
        proof {
            raw.lemma_index_exact();
            assert(self.indices@[k as int].as_nat() < self.cols);
        }
        raw.index()
    }

    /// The positions of a row lie between those of any rows around it.
    pub proof fn lemma_slice_row(&self, start: int, len: int, r: int)
        requires
            self.wf(),
            0 <= start,
            0 <= r < len,
            start + len <= self.rows,
        ensures
            self.ptr(start) <= self.ptr(start + r) <= self.ptr(start + r + 1) <= self.ptr(
                start + len,
            ) <= self.data@.len(),
    {
        assert(self.indptr@[start].as_nat() <= self.indptr@[start + r].as_nat());
        assert(self.indptr@[start + r].as_nat() <= self.indptr@[start + r + 1].as_nat());
        assert(self.indptr@[start + r + 1].as_nat() <= self.indptr@[start + len].as_nat());
        assert(self.indptr@[start + len].as_nat() <= self.indptr@[self.rows as int].as_nat());
    }

    /// The matrix made of the rows `start..start + len`, with the row pointers
    /// moved so that they start at zero again.
    pub fn slice(&self, start: usize, len: usize) -> (res: CsrMatBase<T, I, J>)
        requires
            self.wf(),
            start + len <= self.rows,
        ensures
            res.wf(),
            res.rows == len,
            res.cols == self.cols,
            forall|k: int|
                0 <= k <= len ==> #[trigger] res.ptr(k) == self.ptr(start + k) - self.ptr(
                    start as int,
                ),
            res.indices@ == self.indices@.subrange(
                self.ptr(start as int),
                self.ptr(start + len),
            ),
            res.data@ == self.data@.subrange(self.ptr(start as int), self.ptr(start + len)),
            forall|r: int, c: int|
                0 <= r < len ==> #[trigger] res.cell(r, c) == self.cell(start + r, c),
            forall|r: int, c: int|
                0 <= r < len ==> #[trigger] res.entry(r, c) == self.entry(start + r, c),
            self.distinct_columns() ==> res.distinct_columns(),
    {
        assert(self.indptr@.len() == self.indptr.len());
        let kk_start = self.row_start(start);
        let kk_end = self.row_start(start + len);
        assert(kk_start <= kk_end) by {
            assert(self.indptr@[start as int].as_nat() <= self.indptr@[start + len].as_nat());
        }

        let mut indptr: Vec<I> = Vec::with_capacity(len + 1);
        let mut k: usize = 0;
        while k <= len
            invariant
                self.wf(),
                start + len <= self.rows,
                self.rows < usize::MAX,
                k <= len + 1,
                kk_start == self.ptr(start as int),
                indptr@.len() == k,
                forall|q: int|
                    0 <= q < k ==> (#[trigger] indptr@[q]).as_nat() == self.ptr(start + q)
                        - kk_start,
            decreases len + 1 - k,
        {
            let p = self.row_start(start + k);
            proof {
                assert(self.indptr@[start as int].as_nat() <= self.indptr@[start + k].as_nat());
                self.indptr@[start + k].lemma_bounded();
                I::lemma_from_usize_exact((p - kk_start) as usize);
            }
            indptr.push(I::from_usize(p - kk_start));
            k += 1;
        }

        let mut indices: Vec<J> = Vec::with_capacity(kk_end - kk_start);
        let mut data: Vec<T> = Vec::with_capacity(kk_end - kk_start);
        let mut kk: usize = kk_start;
        while kk < kk_end
            invariant
                self.wf(),
                kk_start <= kk <= kk_end <= self.data@.len(),
                indices@ == self.indices@.subrange(kk_start as int, kk as int),
                data@ == self.data@.subrange(kk_start as int, kk as int),
            decreases kk_end - kk,
        {
            indices.push(self.indices[kk]);
            data.push(self.data[kk]);
            kk += 1;
        }

        let ghost whole = CsrMatBase { indptr, indices, data, rows: len, cols: self.cols };
        assert(whole.wf()) by {
            assert(whole.ptr(0) == 0);
            assert(whole.ptr(len as int) == kk_end - kk_start);
            assert forall|r: int, s: int| 0 <= r <= s <= len implies whole.indptr@[r].as_nat()
                <= whole.indptr@[s].as_nat() by {
                assert(self.indptr@[start + r].as_nat() <= self.indptr@[start + s].as_nat());
            }
        }
        let res = CsrMatBase::new(indptr, indices, data, len, self.cols);
        proof {
            assert(res == whole);
            assert forall|r: int, c: int| 0 <= r < len implies #[trigger] res.cell(r, c)
                == self.cell(start + r, c) by {
                self.lemma_slice_row(start as int, len as int, r);
                lemma_cell_in_subrange(
                    self.indices@,
                    self.data@,
                    kk_start as int,
                    kk_end as int,
                    res.ptr(r),
                    res.ptr(r + 1),
                    c,
                );
            }
            assert forall|r: int, c: int| 0 <= r < len implies #[trigger] res.entry(r, c)
                == self.entry(start + r, c) by {
                self.lemma_slice_row(start as int, len as int, r);
                lemma_cell_in_subrange(
                    self.indices@,
                    self.data@,
                    kk_start as int,
                    kk_end as int,
                    res.ptr(r),
                    res.ptr(r + 1),
                    c,
                );
            }
            if self.distinct_columns() {
                assert forall|r: int, k1: int, k2: int|
                    #![trigger res.in_row(r, k1), res.in_row(r, k2)]
                    0 <= r < res.rows && res.in_row(r, k1) && res.in_row(r, k2) && k1
                        < k2 implies res.col(k1) != res.col(k2) by {
                    self.lemma_slice_row(start as int, len as int, r);
                    assert(self.in_row(start + r, kk_start + k1));
                    assert(self.in_row(start + r, kk_start + k2));
                }
            }
        }
        res
    }
}

/// Reading a window of the arrays gives the same cells and entries as reading
/// the arrays themselves at the shifted positions.
pub proof fn lemma_cell_in_subrange<T: DataStorage, J: IndexStorage>(
    indices: Seq<J>,
    data: Seq<T>,
    from: int,
    to: int,
    lo: int,
    hi: int,
    c: int,
)
    requires
        0 <= from <= to <= indices.len(),
        indices.len() == data.len(),
        0 <= lo <= hi <= to - from,
    ensures
        cell_in(indices.subrange(from, to), data.subrange(from, to), lo, hi, c) == cell_in(
            indices,
            data,
            from + lo,
            from + hi,
            c,
        ),
        entry_in(indices.subrange(from, to), data.subrange(from, to), lo, hi, c) == entry_in(
            indices,
            data,
            from + lo,
            from + hi,
            c,
        ),
    decreases hi - lo,
{
    if hi > lo {
        lemma_cell_in_subrange(indices, data, from, to, lo, hi - 1, c);
    }
}

/// The stored entries of row `r`, as `(column, score)` in storage order.
pub open spec fn row_pairs<T: DataStorage, I: IndPtrStorage, J: IndexStorage>(
    indptr: Seq<I>,
    indices: Seq<J>,
    data: Seq<T>,
    r: int,
) -> Seq<(nat, nat)> {
    Seq::new(
        (indptr[r + 1].as_nat() - indptr[r].as_nat()) as nat,
        |q: int| (indices[indptr[r].as_nat() + q].as_nat(), data[indptr[r].as_nat() + q].value()),
    )
}

impl<T, I, J> CsrMatBase<T, I, J> where I: IndPtrStorage, J: IndexStorage, T: DataStorage {
    /// The stored entries of row `r`, as `(column, score)` in storage order.
    pub open spec fn row_scored(&self, r: int) -> Seq<(nat, nat)> {
        row_pairs(self.indptr@, self.indices@, self.data@, r)
    }
}

/// No two pairs of `s` have the same column.
pub open spec fn distinct_pairs(s: Seq<(nat, nat)>) -> bool {
    forall|p: int, q: int| 0 <= p < q < s.len() ==> (#[trigger] s[p]).0 != (#[trigger] s[q]).0
}

} // verus!
