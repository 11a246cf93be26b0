//! Transposing a sparse matrix by counting.
//!
//! The entries are counted per column, the counts are summed up to find where
//! each column starts in the result, and then every entry is moved to the next
//! free place of its column. Rows are visited in order, so a row of the result
//! lists its entries by ascending column.

use crate::csr::{cell_in, entry_in, total, CsrMatBase};
use crate::storage::{DataStorage, IndPtrStorage, IndexStorage};
use vstd::prelude::*;

verus! {

/// How many of the first `n` stored columns are `c`.
pub open spec fn col_count<J: IndexStorage>(indices: Seq<J>, n: int, c: int) -> nat
    decreases n,
{
    if n <= 0 {
        0
    } else {
        col_count(indices, n - 1, c) + if indices[n - 1].as_nat() == c {
            1nat
        } else {
            0nat
        }
    }
}

/// How many of the first `n` stored columns are less than `c`.
pub open spec fn below<J: IndexStorage>(indices: Seq<J>, n: int, c: int) -> nat
    decreases n,
{
    if n <= 0 {
        0
    } else {
        below(indices, n - 1, c) + if indices[n - 1].as_nat() < c {
            1nat
        } else {
            0nat
        }
    }
}

/// The next free place of column `c` once the first `done` entries are moved.
pub open spec fn cursor<J: IndexStorage>(indices: Seq<J>, done: int, c: int) -> int {
    (below(indices, indices.len() as int, c) + col_count(indices, done, c)) as int
}

/// The columns below `c + 1` are those below `c` and `c` itself.
pub proof fn lemma_below_step<J: IndexStorage>(indices: Seq<J>, n: int, c: int)
    ensures
        below(indices, n, c + 1) == below(indices, n, c) + col_count(indices, n, c),
    decreases n,
{
    if n > 0 {
        lemma_below_step(indices, n - 1, c);
    }
}

/// A larger column has no fewer columns below it.
pub proof fn lemma_below_monotone<J: IndexStorage>(indices: Seq<J>, n: int, c: int, d: int)
    requires
        c <= d,
    ensures
        below(indices, n, c) <= below(indices, n, d),
    decreases n,
{
    if n > 0 {
        lemma_below_monotone(indices, n - 1, c, d);
    }
}

/// Nothing is below column zero, everything is below the number of columns,
/// and no column beyond is stored.
pub proof fn lemma_below_ends<J: IndexStorage>(indices: Seq<J>, n: int, cols: int)
    requires
        0 <= n <= indices.len(),
        forall|k: int| 0 <= k < indices.len() ==> (#[trigger] indices[k]).as_nat() < cols,
    ensures
        below(indices, n, 0) == 0,
        below(indices, n, cols) == n,
        forall|c: int| c >= cols ==> #[trigger] col_count(indices, n, c) == 0,
    decreases n,
{
    if n > 0 {
        lemma_below_ends(indices, n - 1, cols);
        assert(indices[n - 1].as_nat() < cols);
        assert forall|c: int| c >= cols implies #[trigger] col_count(indices, n, c) == 0 by {
            assert(col_count(indices, n - 1, c) == 0);
        }
    }
}

/// A column is counted no less often among more entries.
pub proof fn lemma_col_count_monotone<J: IndexStorage>(indices: Seq<J>, m: int, n: int, c: int)
    requires
        m <= n,
    ensures
        col_count(indices, m, c) <= col_count(indices, n, c),
    decreases n - m,
{
    if m < n {
        lemma_col_count_monotone(indices, m, n - 1, c);
    }
}

/// A cell depends only on the positions it is read from.
pub proof fn lemma_cell_in_frame<T, J: IndexStorage>(
    i1: Seq<J>,
    d1: Seq<T>,
    i2: Seq<J>,
    d2: Seq<T>,
    lo: int,
    hi: int,
    c: int,
)
    requires
        forall|k: int| lo <= k < hi ==> #[trigger] i1[k] == i2[k],
        forall|k: int| lo <= k < hi ==> #[trigger] d1[k] == d2[k],
    ensures
        cell_in(i1, d1, lo, hi, c) == cell_in(i2, d2, lo, hi, c),
    decreases hi - lo,
{
    if lo < hi {
        lemma_cell_in_frame(i1, d1, i2, d2, lo, hi - 1, c);
        assert(i1[hi - 1] == i2[hi - 1]);
        assert(d1[hi - 1] == d2[hi - 1]);
    }
}

/// An entry is the sum of its cell.
pub proof fn lemma_entry_is_total<T: DataStorage, J: IndexStorage>(
    indices: Seq<J>,
    data: Seq<T>,
    lo: int,
    hi: int,
    c: int,
)
    ensures
        entry_in(indices, data, lo, hi, c) == total(cell_in(indices, data, lo, hi, c)),
    decreases hi - lo,
{
    if lo < hi {
        lemma_entry_is_total(indices, data, lo, hi - 1, c);
        let rest = cell_in(indices, data, lo, hi - 1, c);
        if indices[hi - 1].as_nat() == c {
            assert(rest.push(data[hi - 1]).drop_last() =~= rest);
        }
    }
}

/// A stretch without column `c` has an empty cell for it.
pub proof fn lemma_cell_absent<T, J: IndexStorage>(
    indices: Seq<J>,
    data: Seq<T>,
    lo: int,
    hi: int,
    c: int,
)
    requires
        forall|k: int| lo <= k < hi ==> (#[trigger] indices[k]).as_nat() != c,
    ensures
        cell_in(indices, data, lo, hi, c).len() == 0,
    decreases hi - lo,
{
    if lo < hi {
        lemma_cell_absent(indices, data, lo, hi - 1, c);
        assert(indices[hi - 1].as_nat() != c);
    }
}

/// A position that stores column `c` adds one value to the cell of `c`.
pub proof fn lemma_cell_present<T, J: IndexStorage>(
    indices: Seq<J>,
    data: Seq<T>,
    lo: int,
    hi: int,
    c: int,
    k: int,
)
    requires
        lo <= k < hi,
        indices[k].as_nat() == c,
    ensures
        cell_in(indices, data, lo, hi, c).len() >= cell_in(indices, data, lo, k, c).len() + 1,
    decreases hi - k,
{
    if k < hi - 1 {
        lemma_cell_present(indices, data, lo, hi - 1, c, k);
    }
}

/// A stretch that stores no column twice has cells of at most one value.
pub proof fn lemma_cell_single<T, J: IndexStorage>(
    indices: Seq<J>,
    data: Seq<T>,
    lo: int,
    hi: int,
    c: int,
)
    requires
        forall|k1: int, k2: int|
            lo <= k1 < k2 < hi ==> (#[trigger] indices[k1]).as_nat() != (
            #[trigger] indices[k2]).as_nat(),
    ensures
        cell_in(indices, data, lo, hi, c).len() <= 1,
    decreases hi - lo,
{
    if lo < hi {
        lemma_cell_single(indices, data, lo, hi - 1, c);
        if indices[hi - 1].as_nat() == c {
            assert forall|k: int| lo <= k < hi - 1 implies (#[trigger] indices[k]).as_nat()
                != c by {
                assert(indices[k].as_nat() != indices[hi - 1].as_nat());
            }
            lemma_cell_absent(indices, data, lo, hi - 1, c);
        }
    }
}

impl<T, I, J> CsrMatBase<T, I, J> where I: IndPtrStorage, J: IndexStorage, T: DataStorage {
    /// `self` is `m` with rows and columns exchanged: what `m` stores at row
    /// `r`, column `c` is what `self` stores at row `c`, column `r`.
    pub open spec fn is_transpose_of(&self, m: &CsrMatBase<T, I, J>) -> bool {
        &&& self.rows == m.cols
        &&& self.cols == m.rows
        &&& forall|r: int, c: int|
            0 <= r < m.rows && 0 <= c < m.cols ==> #[trigger] self.cell(c, r) == m.cell(r, c)
    }

    /// Every row that stores something has a number that fits a column index,
    /// as it must to become a column.
    pub open spec fn rows_fit(&self) -> bool {
        forall|r: int| 0 <= r < self.rows && #[trigger] self.row_len(r) > 0 ==> r <= J::max_nat()
    }

    /// How far row `r` has been read once the first `done` entries are moved.
    pub open spec fn read_upto(&self, r: int, done: int) -> int {
        if done <= self.ptr(r) {
            self.ptr(r)
        } else if done >= self.ptr(r + 1) {
            self.ptr(r + 1)
        } else {
            done
        }
    }

    /// What row `r` has given to column `c` once the first `done` entries are
    /// moved.
    pub open spec fn moved_from(&self, done: int, r: int, c: int) -> Seq<T> {
        cell_in(self.indices@, self.data@, self.ptr(r), self.read_upto(r, done), c)
    }

    /// What column `c` of the result has received from row `r` once the first
    /// `done` entries are moved.
    pub open spec fn moved_to(&self, out_indices: Seq<J>, out_data: Seq<T>, done: int, c: int, r: int) -> Seq<T> {
        cell_in(
            out_indices,
            out_data,
            below(self.indices@, self.indices@.len() as int, c) as int,
            cursor(self.indices@, done, c),
            r,
        )
    }

    /// The first `done` entries are in place.
    #[verifier::opaque]
    pub open spec fn scattered(&self, out_indices: Seq<J>, out_data: Seq<T>, done: int) -> bool {
        forall|c: int, r: int|
            0 <= c < self.cols && 0 <= r < self.rows ==> #[trigger] self.moved_to(
                out_indices,
                out_data,
                done,
                c,
                r,
            ) == self.moved_from(done, r, c)
    }

    /// Place `p` of the result holds an entry of column `c` once the first
    /// `done` entries are moved.
    pub open spec fn filled(&self, done: int, c: int, p: int) -> bool {
        0 <= c < self.cols && below(self.indices@, self.indices@.len() as int, c) <= p < cursor(
            self.indices@,
            done,
            c,
        )
    }

    /// The entries moved so far stand in every column by ascending row, and
    /// come from rows that begin before the first `done` entries end.
    #[verifier::opaque]
    pub open spec fn ordered(&self, out_indices: Seq<J>, done: int) -> bool {
        &&& forall|c: int, p: int| #[trigger]
            self.filled(done, c, p) ==> out_indices[p].as_nat() < self.rows && self.ptr(
                out_indices[p].as_nat() as int,
            ) < done
        &&& forall|c: int, p: int, q: int|
            #![trigger self.filled(done, c, p), self.filled(done, c, q)]
            self.filled(done, c, p) && self.filled(done, c, q) && p <= q
                ==> out_indices[p].as_nat() <= out_indices[q].as_nat()
    }

    /// Moving entry `idx` fills one more place, the next free one of its column.
    pub proof fn lemma_filled_step(&self, idx: int, c: int, p: int)
        requires
            self.wf(),
            0 <= idx < self.indices@.len(),
        ensures
            self.filled(idx + 1, c, p) <==> self.filled(idx, c, p) || (c == self.col(idx) && p
                == cursor(self.indices@, idx, c)),
            self.filled(idx, c, p) ==> p != cursor(self.indices@, idx, self.col(idx)) && 0 <= p
                < self.indices@.len(),
            0 <= cursor(self.indices@, idx, self.col(idx)) < self.indices@.len(),
    {
        let nnz = self.indices@.len() as int;
        let col = self.col(idx);
        assert(self.indices@[idx].as_nat() < self.cols);
        lemma_below_step(self.indices@, nnz, col);
        lemma_col_count_monotone(self.indices@, idx + 1, nnz, col);
        lemma_below_monotone(self.indices@, nnz, col + 1, self.cols as int);
        lemma_below_ends(self.indices@, nnz, self.cols as int);
        if 0 <= c < self.cols {
            lemma_below_step(self.indices@, nnz, c);
            lemma_col_count_monotone(self.indices@, idx, nnz, c);
            lemma_below_monotone(self.indices@, nnz, c + 1, self.cols as int);
            if c < col {
                lemma_below_monotone(self.indices@, nnz, c + 1, col);
            }
            if c > col {
                lemma_below_monotone(self.indices@, nnz, col + 1, c);
            }
        }
    }

    /// Moving one more entry keeps the moved entries in order.
    pub proof fn lemma_order_step(&self, oi: Seq<J>, ni: Seq<J>, row: int, idx: int, dest: int, x: J)
        requires
            self.wf(),
            0 <= row < self.rows,
            self.ptr(row) <= idx < self.ptr(row + 1),
            self.ordered(oi, idx),
            oi.len() == self.indices@.len(),
            dest == cursor(self.indices@, idx, self.col(idx)),
            ni == oi.update(dest, x),
            x.as_nat() == row,
        ensures
            self.ordered(ni, idx + 1),
    {
        reveal(CsrMatBase::ordered);
        self.lemma_slice_row(0, self.rows as int, row);
        let col = self.col(idx);
        assert forall|c: int, p: int| #[trigger] self.filled(idx + 1, c, p) implies ni[p].as_nat()
            < self.rows && self.ptr(ni[p].as_nat() as int) < idx + 1 by {
            self.lemma_filled_step(idx, c, p);
            if self.filled(idx, c, p) {
                assert(ni[p] == oi[p]);
            }
        }
        assert forall|c: int, p: int, q: int|
            #![trigger self.filled(idx + 1, c, p), self.filled(idx + 1, c, q)]
            self.filled(idx + 1, c, p) && self.filled(idx + 1, c, q) && p <= q implies ni[p].as_nat()
            <= ni[q].as_nat() by {
            self.lemma_filled_step(idx, c, p);
            self.lemma_filled_step(idx, c, q);
            if self.filled(idx, c, q) {
                assert(self.filled(idx, c, p));
                assert(ni[p] == oi[p] && ni[q] == oi[q]);
            } else if p < q {
                assert(self.filled(idx, c, p));
                assert(ni[p] == oi[p]);
                let from = oi[p].as_nat() as int;
                assert(self.ptr(from) < idx);
                if from > row {
                    assert(self.indptr@[row + 1].as_nat() <= self.indptr@[from].as_nat());
                }
            }
        }
    }

    /// Moving one more entry keeps all moved entries in place.
    pub proof fn lemma_scatter_step(
        &self,
        oi: Seq<J>,
        od: Seq<T>,
        ni: Seq<J>,
        nd: Seq<T>,
        row: int,
        idx: int,
        dest: int,
        x: J,
    )
        requires
            self.wf(),
            0 <= row < self.rows,
            self.ptr(row) <= idx < self.ptr(row + 1),
            self.scattered(oi, od, idx),
            oi.len() == self.indices@.len(),
            od.len() == self.indices@.len(),
            dest == cursor(self.indices@, idx, self.col(idx)),
            0 <= dest < oi.len(),
            ni == oi.update(dest, x),
            x.as_nat() == row,
            nd == od.update(dest, self.data@[idx]),
        ensures
            self.scattered(ni, nd, idx + 1),
    {
        reveal(CsrMatBase::scattered);
        let nnz = self.indices@.len() as int;
        let col = self.col(idx);
        self.lemma_slice_row(0, self.rows as int, row);
        assert(self.indices@[idx].as_nat() < self.cols);
        assert forall|c: int, r: int| 0 <= c < self.cols && 0 <= r < self.rows implies #[trigger] self.moved_to(
            ni,
            nd,
            idx + 1,
            c,
            r,
        ) == self.moved_from(idx + 1, r, c) by {
            let start = below(self.indices@, nnz, c) as int;
            let cur = cursor(self.indices@, idx, c);
            assert(self.moved_to(oi, od, idx, c, r) == self.moved_from(idx, r, c));
            // the part of column `c` that was filled before is untouched
            lemma_below_step(self.indices@, nnz, c);
            lemma_below_step(self.indices@, nnz, col);
            lemma_col_count_monotone(self.indices@, idx, nnz, c);
            lemma_col_count_monotone(self.indices@, idx + 1, nnz, col);
            if c < col {
                lemma_below_monotone(self.indices@, nnz, c + 1, col);
            }
            if c > col {
                lemma_below_monotone(self.indices@, nnz, col + 1, c);
            }
            lemma_below_monotone(self.indices@, nnz, c + 1, self.cols as int);
            lemma_below_ends(self.indices@, nnz, self.cols as int);
            assert(cur <= nnz);
            assert(c != col ==> !(start <= dest < cur));
            assert(c == col ==> dest == cur);
            lemma_cell_in_frame(oi, od, ni, nd, start, cur, r);
            // what the rows have given
            self.lemma_slice_row(0, self.rows as int, r);
            if r < row {
                assert(self.indptr@[r + 1].as_nat() <= self.indptr@[row].as_nat());
            }
            if r > row {
                assert(self.indptr@[row + 1].as_nat() <= self.indptr@[r].as_nat());
            }
        }
    }

    /// The entries of cell `(r, c)` are stored at most once exactly when no row
    /// stores a column twice.
    pub proof fn lemma_cells_single(&self, r: int, c: int)
        requires
            self.wf(),
            self.distinct_columns(),
            0 <= r < self.rows,
        ensures
            self.cell(r, c).len() <= 1,
    {
        self.lemma_slice_row(0, self.rows as int, r);
        assert forall|k1: int, k2: int| self.ptr(r) <= k1 < k2 < self.ptr(r + 1) implies (
        #[trigger] self.indices@[k1]).as_nat() != (#[trigger] self.indices@[k2]).as_nat() by {
            assert(self.in_row(r, k1) && self.in_row(r, k2));
        }
        lemma_cell_single(self.indices@, self.data@, self.ptr(r), self.ptr(r + 1), c);
    }

    /// A matrix whose cells hold at most one value stores no column twice.
    pub proof fn lemma_distinct_from_cells(&self)
        requires
            self.wf(),
            forall|r: int, c: int|
                0 <= r < self.rows && 0 <= c < self.cols ==> (#[trigger] self.cell(r, c)).len()
                    <= 1,
        ensures
            self.distinct_columns(),
    {
        assert forall|r: int, k1: int, k2: int|
            #![trigger self.in_row(r, k1), self.in_row(r, k2)]
            0 <= r < self.rows && self.in_row(r, k1) && self.in_row(r, k2) && k1
                < k2 implies self.col(k1) != self.col(k2) by {
            self.lemma_slice_row(0, self.rows as int, r);
            let c = self.col(k1);
            if self.indices@[k2].as_nat() == c {
                assert(self.indices@[k1].as_nat() < self.cols);
                lemma_cell_present(self.indices@, self.data@, self.ptr(r), k2, c, k1);
                lemma_cell_present(self.indices@, self.data@, self.ptr(r), self.ptr(r + 1), c, k2);
                assert(self.cell(r, c).len() <= 1);
                assert(false);
            }
        }
    }
}

/// A column is counted no more often than there are entries.
pub proof fn lemma_col_count_bound<J: IndexStorage>(indices: Seq<J>, n: int, c: int)
    requires
        0 <= n,
    ensures
        col_count(indices, n, c) <= n,
    decreases n,
{
    if n > 0 {
        lemma_col_count_bound(indices, n - 1, c);
    }
}

/// A vector of `n` copies of `x`.
fn filled<X: Copy>(n: usize, x: X) -> (v: Vec<X>)
    ensures
        v@.len() == n,
        forall|k: int| 0 <= k < n ==> #[trigger] v@[k] == x,
{
    let mut v: Vec<X> = Vec::with_capacity(n);
    let mut k: usize = 0;
    while k < n
        invariant
            k <= n,
            v@.len() == k,
            forall|q: int| 0 <= q < k ==> #[trigger] v@[q] == x,
        decreases n - k,
    {
        v.push(x);
        k += 1;
    }
    v
}

impl<T, I, J> CsrMatBase<T, I, J> where I: IndPtrStorage, J: IndexStorage, T: DataStorage {
    /// The row pointers of the result mark the next free place of every column
    /// once the first `done` entries are moved.
    #[verifier::opaque]
    pub open spec fn cursors_at(&self, indptr: Seq<I>, done: int) -> bool {
        &&& indptr.len() == self.cols + 1
        &&& forall|d: int|
            0 <= d < self.cols ==> (#[trigger] indptr[d]).as_nat() == cursor(self.indices@, done, d)
        &&& indptr[self.cols as int].as_nat() == self.indices@.len()
    }

    /// Moves the entries of one row to the next free places of their columns.
    fn scatter_row(&self, row: usize, indptr: &mut Vec<I>, indices: &mut Vec<J>, data: &mut Vec<T>)
        requires
            self.wf(),
            self.rows_fit(),
            row < self.rows,
            self.cursors_at(old(indptr)@, self.ptr(row as int)),
            old(indices)@.len() == self.indices@.len(),
            old(data)@.len() == self.indices@.len(),
            self.scattered(old(indices)@, old(data)@, self.ptr(row as int)),
            self.ordered(old(indices)@, self.ptr(row as int)),
            forall|q: int|
                0 <= q < old(indices)@.len() ==> (#[trigger] old(indices)@[q]).as_nat() < self.rows,
        ensures
            self.cursors_at(final(indptr)@, self.ptr(row + 1)),
            final(indices)@.len() == self.indices@.len(),
            final(data)@.len() == self.indices@.len(),
            self.scattered(final(indices)@, final(data)@, self.ptr(row + 1)),
            self.ordered(final(indices)@, self.ptr(row + 1)),
            forall|q: int|
                0 <= q < final(indices)@.len() ==> (#[trigger] final(indices)@[q]).as_nat()
                    < self.rows,
    {
        let ghost src = self.indices@;
        let nnz = self.nnz();
        let rows = self.rows;
        let cols = self.cols;
        let start = self.row_start(row);
        let end = self.row_start(row + 1);
        proof {
            self.lemma_slice_row(0, rows as int, row as int);
            self.indptr@[rows as int].lemma_bounded();
        }
        let mut idx: usize = start;
        while idx < end
            invariant
                self.wf(),
                self.rows_fit(),
                src == self.indices@,
                nnz == src.len(),
                nnz <= I::max_nat(),
                rows == self.rows,
                cols == self.cols,
                row < rows,
                start == self.ptr(row as int),
                end == self.ptr(row + 1),
                start <= idx <= end <= nnz,
                self.cursors_at(indptr@, idx as int),
                indices@.len() == nnz,
                data@.len() == nnz,
                self.scattered(indices@, data@, idx as int),
                self.ordered(indices@, idx as int),
                forall|q: int| 0 <= q < nnz ==> (#[trigger] indices@[q]).as_nat() < rows,
            decreases end - idx,
        {
            let col = self.col_at(idx);
            proof {
                reveal(CsrMatBase::cursors_at);
            }
            let place: I = indptr[col];
            proof {
                place.lemma_index_exact();
                lemma_below_step(src, nnz as int, col as int);
                lemma_col_count_monotone(src, idx + 1, nnz as int, col as int);
                lemma_below_monotone(src, nnz as int, col + 1, cols as int);
                lemma_below_ends(src, nnz as int, cols as int);
                assert(cursor(src, idx as int, col as int) < nnz);
                assert(self.row_len(row as int) > 0);
                J::lemma_from_usize_exact(row);
            }
            let dest = place.index();
            let ghost oi = indices@;
            let ghost od = data@;
            let ghost op = indptr@;
            let x = J::from_usize(row);
            indices.set(dest, x);
            data.set(dest, self.data[idx]);
            proof {
                I::lemma_from_usize_exact((dest + 1) as usize);
            }
            indptr.set(col, I::from_usize(dest + 1));
            proof {
                self.lemma_scatter_step(oi, od, indices@, data@, row as int, idx as int, dest as int, x);
                self.lemma_order_step(oi, indices@, row as int, idx as int, dest as int, x);
                assert forall|d: int| 0 <= d < cols implies (#[trigger] indptr@[d]).as_nat()
                    == cursor(src, idx + 1, d) by {
                    if d != col {
                        assert(indptr@[d] == op[d]);
                    }
                }
            }
            idx += 1;
        }
    }

    /// The transposed matrix: what is stored at row `r`, column `c` is stored
    /// at row `c`, column `r` of the result, as often and in the same order, and
    /// every row of the result lists its entries by ascending column.
    pub fn transpose(&self) -> (res: CsrMatBase<T, I, J>)
        requires
            self.wf(),
            self.cols < usize::MAX,
            self.rows_fit(),
        ensures
            res.wf(),
            res.rows == self.cols,
            res.cols == self.rows,
            res.data@.len() == self.data@.len(),
            res.is_transpose_of(self),
            res.sorted_rows(),
            forall|c: int|
                0 <= c <= self.cols ==> #[trigger] res.ptr(c) == below(
                    self.indices@,
                    self.indices@.len() as int,
                    c,
                ),
            forall|r: int, c: int|
                0 <= r < self.rows && 0 <= c < self.cols ==> #[trigger] res.entry(c, r)
                    == self.entry(r, c),
            self.distinct_columns() ==> res.distinct_columns(),
    {
        let nnz = self.nnz();
        let rows = self.rows;
        let cols = self.cols;
        let ghost src = self.indices@;
        proof {
            I::lemma_from_usize_exact(0);
            J::lemma_from_usize_exact(0);
            self.indptr@[rows as int].lemma_bounded();
        }
        let mut indptr: Vec<I> = filled(cols + 1, I::from_usize(0));
        let mut indices: Vec<J> = filled(nnz, J::from_usize(0));
        let mut data: Vec<T> = filled(nnz, T::zero());

        // count the entries of each column
        let mut k: usize = 0;
        while k < nnz
            invariant
                self.wf(),
                src == self.indices@,
                nnz == src.len(),
                nnz <= I::max_nat(),
                cols == self.cols,
                k <= nnz,
                indptr@.len() == cols + 1,
                forall|c: int|
                    0 <= c <= cols ==> (#[trigger] indptr@[c]).as_nat() == col_count(src, k as int, c),
            decreases nnz - k,
        {
            let col = self.col_at(k);
            let seen: I = indptr[col];
            proof {
                seen.lemma_index_exact();
                lemma_col_count_bound(src, k as int, col as int);
                I::lemma_from_usize_exact((seen.spec_index() + 1) as usize);
            }
            indptr.set(col, I::from_usize(seen.index() + 1));
            k += 1;
        }

        // turn the counts into the places where the columns start
        proof {
            lemma_below_ends(src, nnz as int, cols as int);
        }
        let mut cumsum: usize = 0;
        let mut c: usize = 0;
        while c <= cols
            invariant
                self.wf(),
                src == self.indices@,
                nnz == src.len(),
                nnz <= I::max_nat(),
                cols == self.cols,
                cols < usize::MAX,
                c <= cols + 1,
                indptr@.len() == cols + 1,
                cumsum == below(src, nnz as int, c as int),
                forall|d: int|
                    0 <= d < c ==> (#[trigger] indptr@[d]).as_nat() == below(src, nnz as int, d),
                forall|d: int|
                    c <= d <= cols ==> (#[trigger] indptr@[d]).as_nat() == col_count(
                        src,
                        nnz as int,
                        d,
                    ),
            decreases cols + 1 - c,
        {
            let count: I = indptr[c];
            proof {
                count.lemma_index_exact();
                lemma_below_step(src, nnz as int, c as int);
                lemma_below_ends(src, nnz as int, cols as int);
                if c < cols {
                    lemma_below_monotone(src, nnz as int, c + 1, cols as int);
                } else {
                    assert(col_count(src, nnz as int, cols as int) == 0);
                }
                I::lemma_from_usize_exact(cumsum);
            }
            indptr.set(c, I::from_usize(cumsum));
            cumsum += count.index();
            c += 1;
        }
        proof {
            lemma_below_step(src, nnz as int, cols as int);
            lemma_below_ends(src, nnz as int, cols as int);
            assert(col_count(src, nnz as int, cols as int) == 0);
            assert(cumsum == nnz);
            I::lemma_from_usize_exact(cumsum);
        }
        indptr.set(cols, I::from_usize(cumsum));

        // move every entry to the next free place of its column
        proof {
            assert(self.cursors_at(indptr@, self.ptr(0))) by {
                reveal(CsrMatBase::cursors_at);
            }
            assert(self.scattered(indices@, data@, 0)) by {
                reveal(CsrMatBase::scattered);
            }
            assert(self.ordered(indices@, 0)) by {
                reveal(CsrMatBase::ordered);
            }
            assert forall|q: int| 0 <= q < nnz implies (#[trigger] indices@[q]).as_nat() < rows by {
                if rows == 0 {
                    assert(self.indptr@[0].as_nat() == nnz);
                }
            }
        }
        let mut row: usize = 0;
        while row < rows
            invariant
                self.wf(),
                self.rows_fit(),
                rows == self.rows,
                row <= rows,
                self.cursors_at(indptr@, self.ptr(row as int)),
                indices@.len() == self.indices@.len(),
                data@.len() == self.indices@.len(),
                self.scattered(indices@, data@, self.ptr(row as int)),
                self.ordered(indices@, self.ptr(row as int)),
                forall|q: int| 0 <= q < indices@.len() ==> (#[trigger] indices@[q]).as_nat() < rows,
            decreases rows - row,
        {
            self.scatter_row(row, &mut indptr, &mut indices, &mut data);
            row += 1;
        }
        proof {
            reveal(CsrMatBase::cursors_at);
        }

        // every pointer now marks the end of its column: shift them by one
        proof {
            I::lemma_from_usize_exact(0);
            lemma_below_ends(src, nnz as int, cols as int);
        }
        let mut last: I = I::from_usize(0);
        let mut c: usize = 0;
        while c <= cols
            invariant
                self.wf(),
                src == self.indices@,
                nnz == src.len(),
                cols == self.cols,
                cols < usize::MAX,
                c <= cols + 1,
                indptr@.len() == cols + 1,
                last.as_nat() == below(src, nnz as int, c as int),
                forall|d: int|
                    0 <= d < c ==> (#[trigger] indptr@[d]).as_nat() == below(src, nnz as int, d),
                forall|d: int|
                    c <= d < cols ==> (#[trigger] indptr@[d]).as_nat() == cursor(src, nnz as int, d),
                c <= cols ==> indptr@[cols as int].as_nat() == nnz,
            decreases cols + 1 - c,
        {
            let next: I = indptr[c];
            proof {
                lemma_below_step(src, nnz as int, c as int);
                lemma_below_ends(src, nnz as int, cols as int);
                if c == cols {
                    assert(col_count(src, nnz as int, cols as int) == 0);
                }
            }
            indptr.set(c, last);
            last = next;
            c += 1;
        }

        let ghost whole = CsrMatBase { indptr, indices, data, rows: cols, cols: rows };
        assert(whole.wf()) by {
            lemma_below_ends(src, nnz as int, cols as int);
            assert forall|r: int, s: int| 0 <= r <= s <= cols implies whole.indptr@[r].as_nat()
                <= whole.indptr@[s].as_nat() by {
                lemma_below_monotone(src, nnz as int, r, s);
            }
        }
        let res = CsrMatBase::new(indptr, indices, data, cols, rows);
        proof {
            assert(res == whole);
            assert forall|r: int, c: int| 0 <= r < self.rows && 0 <= c < self.cols implies #[trigger] res.cell(
                c,
                r,
            ) == self.cell(r, c) by {
                reveal(CsrMatBase::scattered);
                lemma_below_step(src, nnz as int, c);
                self.lemma_slice_row(0, rows as int, r);
                assert(res.cell(c, r) == self.moved_to(res.indices@, res.data@, nnz as int, c, r));
                assert(self.moved_from(nnz as int, r, c) == self.cell(r, c));
            }
            assert forall|r: int, c: int| 0 <= r < self.rows && 0 <= c < self.cols implies #[trigger] res.entry(
                c,
                r,
            ) == self.entry(r, c) by {
                assert(res.cell(c, r) == self.cell(r, c));
                lemma_entry_is_total(res.indices@, res.data@, res.ptr(c), res.ptr(c + 1), r);
                lemma_entry_is_total(self.indices@, self.data@, self.ptr(r), self.ptr(r + 1), c);
            }
            assert forall|c: int, k1: int, k2: int|
                #![trigger res.in_row(c, k1), res.in_row(c, k2)]
                0 <= c < res.rows && res.in_row(c, k1) && res.in_row(c, k2) && k1
                    <= k2 implies res.col(k1) <= res.col(k2) by {
                reveal(CsrMatBase::ordered);
                lemma_below_step(src, nnz as int, c);
                assert(self.filled(nnz as int, c, k1));
                assert(self.filled(nnz as int, c, k2));
            }
            if self.distinct_columns() {
                assert forall|c: int, r: int| 0 <= c < res.rows && 0 <= r < res.cols implies (
                #[trigger] res.cell(c, r)).len() <= 1 by {
                    assert(res.cell(c, r) == self.cell(r, c));
                    self.lemma_cells_single(r, c);
                }
                res.lemma_distinct_from_cells();
            }
        }
        res
    }
}

} // verus!
