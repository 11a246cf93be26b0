//! Building a matrix row by row.

use crate::csr::row_pairs;
use crate::select::scored;
use crate::storage::{DataStorage, IndPtrStorage, IndexStorage};
use vstd::prelude::*;

verus! {

/// Appends `row` as the next row of the matrix that the three arrays hold so
/// far: its entries go behind the stored ones, and a row pointer is added.
pub fn push_row<T: DataStorage, I: IndPtrStorage, J: IndexStorage>(
    indptr: &mut Vec<I>,
    indices: &mut Vec<J>,
    data: &mut Vec<T>,
    row: &Vec<(J, T)>,
)
    requires
        old(indptr)@.len() >= 1,
        old(indices)@.len() == old(data)@.len(),
        forall|r: int, s: int|
            #![trigger old(indptr)@[r], old(indptr)@[s]]
            0 <= r <= s < old(indptr)@.len() ==> old(indptr)@[r].as_nat() <= old(
                indptr,
            )@[s].as_nat(),
        old(indptr)@.last().as_nat() == old(indices)@.len(),
        old(indices)@.len() + row@.len() <= I::max_nat(),
    ensures
        final(indptr)@.len() == old(indptr)@.len() + 1,
        final(indptr)@.subrange(0, old(indptr)@.len() as int) == old(indptr)@,
        final(indptr)@.last().as_nat() == old(indices)@.len() + row@.len(),
        final(indices)@.len() == old(indices)@.len() + row@.len(),
        final(data)@.len() == final(indices)@.len(),
        final(indices)@.subrange(0, old(indices)@.len() as int) == old(indices)@,
        final(data)@.subrange(0, old(data)@.len() as int) == old(data)@,
        forall|q: int|
            0 <= q < row@.len() ==> #[trigger] final(indices)@[old(indices)@.len() + q]
                == row@[q].0,
        forall|q: int|
            0 <= q < row@.len() ==> #[trigger] final(data)@[old(data)@.len() + q] == row@[q].1,
        forall|r: int|
            0 <= r < old(indptr)@.len() - 1 ==> #[trigger] row_pairs(
                final(indptr)@,
                final(indices)@,
                final(data)@,
                r,
            ) == row_pairs(old(indptr)@, old(indices)@, old(data)@, r),
        row_pairs(final(indptr)@, final(indices)@, final(data)@, old(indptr)@.len() - 1)
            == scored(row@),
{
    let ghost old_indptr = indptr@;
    let ghost old_indices = indices@;
    let ghost old_data = data@;
    let ghost base = indices@.len();
    let m = row.len();
    let mut t: usize = 0;
    while t < m
        invariant
            m == row@.len(),
            t <= m,
            base + m <= I::max_nat(),
            indices@.len() == data@.len(),
            indices@.len() == base + t,
            indices@.subrange(0, base as int) == old_indices,
            data@.subrange(0, base as int) == old_data,
            forall|q: int| 0 <= q < t ==> #[trigger] indices@[base + q] == row@[q].0,
            forall|q: int| 0 <= q < t ==> #[trigger] data@[base + q] == row@[q].1,
        decreases m - t,
    {
        let pair: (J, T) = row[t];
        let ghost i0 = indices@;
        let ghost d0 = data@;
        indices.push(pair.0);
        data.push(pair.1);
        proof {
            assert(indices@.subrange(0, base as int) =~= i0.subrange(0, base as int));
            assert(data@.subrange(0, base as int) =~= d0.subrange(0, base as int));
        }
        t += 1;
    }
    let total = indices.len();
    proof {
        I::lemma_from_usize_exact(total);
    }
    indptr.push(I::from_usize(total));
    proof {
        let n = old_indptr.len() as int;
        assert(indptr@.subrange(0, n) =~= old_indptr);
        assert forall|r: int| 0 <= r < n - 1 implies #[trigger] row_pairs(
            indptr@,
            indices@,
            data@,
            r,
        ) == row_pairs(old_indptr, old_indices, old_data, r) by {
            assert(indptr@[r] == indptr@.subrange(0, n)[r]);
            assert(indptr@[r + 1] == indptr@.subrange(0, n)[r + 1]);
            assert(old_indptr[r + 1].as_nat() <= old_indptr[n - 1].as_nat());
            assert(old_indptr[r].as_nat() <= old_indptr[r + 1].as_nat());
            let lo = indptr@[r].as_nat() as int;
            assert forall|k: int| lo <= k < indptr@[r + 1].as_nat() implies #[trigger] indices@[k]
                == old_indices[k] && data@[k] == old_data[k] by {
                assert(indices@[k] == indices@.subrange(0, base as int)[k]);
                assert(data@[k] == data@.subrange(0, base as int)[k]);
            }
            let a = row_pairs(indptr@, indices@, data@, r);
            let b = row_pairs(old_indptr, old_indices, old_data, r);
            assert(a.len() == b.len());
            assert forall|q: int| 0 <= q < a.len() implies a[q] == b[q] by {
                assert(indices@[lo + q] == old_indices[lo + q]);
                assert(data@[lo + q] == old_data[lo + q]);
            }
            assert(a =~= b);
        }
        assert(row_pairs(indptr@, indices@, data@, n - 1) =~= scored(row@)) by {
            assert(indptr@[n - 1] == indptr@.subrange(0, n)[n - 1]);
            assert forall|q: int| 0 <= q < row@.len() implies row_pairs(
                indptr@,
                indices@,
                data@,
                n - 1,
            )[q] == scored(row@)[q] by {
                assert(indices@[base + q] == row@[q].0);
                assert(data@[base + q] == row@[q].1);
            }
        }
    }
}

} // verus!
