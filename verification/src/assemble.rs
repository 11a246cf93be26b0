//! Listing the matches of a result as three columns of equal length.

use crate::csr::CsrMatBase;
use crate::storage::{DataStorage, IndPtrStorage, IndexStorage};
use vstd::prelude::*;

verus! {

/// Matches as columns: match `k` pairs the left row `row[k]` with the right
/// row `col[k]`, and `sim[k]` is their score.
#[derive(Debug)]
pub struct Matches<T: DataStorage> {
    pub row: Vec<usize>,
    pub col: Vec<usize>,
    pub sim: Vec<T>,
}

/// The pairs `(column, score)` of one row as matches `(row, column, score)`.
pub open spec fn tagged(pairs: Seq<(nat, nat)>, row: nat) -> Seq<(nat, nat, nat)> {
    pairs.map_values(|p: (nat, nat)| (row, p.0, p.1))
}

/// The matches that the first `r` rows of `m` hold, row after row, where row
/// `i` of `m` stands for the left row `offset + i`.
pub open spec fn csr_tuples<T: DataStorage, I: IndPtrStorage, J: IndexStorage>(
    m: &CsrMatBase<T, I, J>,
    offset: nat,
    r: int,
) -> Seq<(nat, nat, nat)>
    decreases r,
{
    if r <= 0 {
        Seq::empty()
    } else {
        csr_tuples(m, offset, r - 1) + tagged(m.row_scored(r - 1), (offset + r - 1) as nat)
    }
}

/// The matches that the first `n` batches hold, batch after batch.
pub open spec fn chunked_tuples<T: DataStorage, I: IndPtrStorage, J: IndexStorage>(
    offsets: Seq<(usize, usize)>,
    batches: Seq<CsrMatBase<T, I, J>>,
    n: int,
) -> Seq<(nat, nat, nat)>
    decreases n,
{
    if n <= 0 {
        Seq::empty()
    } else {
        chunked_tuples(offsets, batches, n - 1) + csr_tuples(
            &batches[n - 1],
            offsets[n - 1].0 as nat,
            batches[n - 1].rows as int,
        )
    }
}

impl<T: DataStorage> Matches<T> {
    /// The three columns have the same length.
    pub open spec fn wf(&self) -> bool {
        self.row@.len() == self.col@.len() && self.col@.len() == self.sim@.len()
    }

    /// The matches as `(row, column, score)`, in the order in which they are
    /// listed.
    pub open spec fn tuples(&self) -> Seq<(nat, nat, nat)> {
        Seq::new(
            self.row@.len(),
            |k: int| (self.row@[k] as nat, self.col@[k] as nat, self.sim@[k].value()),
        )
    }

    /// No matches.
    pub fn new() -> (out: Self)
        ensures
            out.wf(),
            out.tuples() == Seq::<(nat, nat, nat)>::empty(),
    {
        let out = Matches { row: Vec::new(), col: Vec::new(), sim: Vec::new() };
        assert(out.tuples() =~= Seq::<(nat, nat, nat)>::empty());
        out
    }

    /// Adds the matches of `m` behind those listed so far. Row `i` of `m`
    /// stands for the left row `offset + i`.
    pub fn append<I: IndPtrStorage, J: IndexStorage>(
        &mut self,
        m: &CsrMatBase<T, I, J>,
        offset: usize,
    )
        requires
            old(self).wf(),
            m.wf(),
            offset + m.rows <= usize::MAX,
        ensures
            final(self).wf(),
            final(self).tuples() == old(self).tuples() + csr_tuples(
                m,
                offset as nat,
                m.rows as int,
            ),
    {
        let ghost base = self.tuples();
        let rows = m.rows;
        let mut i: usize = 0;
        assert(self.tuples() =~= base + csr_tuples(m, offset as nat, 0));
        while i < rows
            invariant
                m.wf(),
                rows == m.rows,
                offset + rows <= usize::MAX,
                i <= rows,
                self.wf(),
                self.tuples() == base + csr_tuples(m, offset as nat, i as int),
            decreases rows - i,
        {
            let start = m.row_start(i);
            let end = m.row_start(i + 1);
            proof {
                m.lemma_slice_row(0, rows as int, i as int);
            }
            let ghost done = self.tuples();
            let ghost row = tagged(m.row_scored(i as int), (offset + i) as nat);
            let mut jj: usize = start;
            assert(self.tuples() =~= done + row.subrange(0, 0));
            while jj < end
                invariant
                    m.wf(),
                    i < rows,
                    rows == m.rows,
                    offset + rows <= usize::MAX,
                    start == m.ptr(i as int),
                    end == m.ptr(i + 1),
                    start <= jj <= end <= m.data@.len(),
                    self.wf(),
                    row == tagged(m.row_scored(i as int), (offset + i) as nat),
                    self.tuples() == done + row.subrange(0, jj - start),
                decreases end - jj,
            {
                let ghost before = self.tuples();
                let column = m.col_at(jj);
                self.row.push(i + offset);
                self.col.push(column);
                self.sim.push(m.data[jj]);
                proof {
                    assert(self.tuples() =~= before.push(row[jj - start]));
                    assert(row.subrange(0, jj + 1 - start) =~= row.subrange(0, jj - start).push(
                        row[jj - start],
                    ));
                    assert(self.tuples() =~= done + row.subrange(0, jj + 1 - start));
                }
                jj += 1;
            }
            proof {
                assert(row.subrange(0, end - start) =~= row);
                assert(self.tuples() =~= base + csr_tuples(m, offset as nat, i + 1));
            }
            i += 1;
        }
    }
}

/// The matches of a result whose rows are the left rows.
pub fn csr_to_matches<T: DataStorage, I: IndPtrStorage, J: IndexStorage>(
    csr: CsrMatBase<T, I, J>,
) -> (out: Matches<T>)
    requires
        csr.wf(),
    ensures
        out.wf(),
        out.tuples() == csr_tuples(&csr, 0, csr.rows as int),
{
    assert(csr.indptr@.len() == csr.indptr.len());
    let mut out = Matches::new();
    out.append(&csr, 0);
    assert(out.tuples() =~= csr_tuples(&csr, 0, csr.rows as int));
    out
}

/// The matches of a result that came in batches: row `i` of batch `k` is the
/// left row `offsets[k].0 + i`. A batch without an offset, or an offset without
/// a batch, is left out.
pub fn chunked_csr_to_matches<T: DataStorage, I: IndPtrStorage, J: IndexStorage>(
    offsets: Vec<(usize, usize)>,
    csr_batches: Vec<CsrMatBase<T, I, J>>,
) -> (out: Matches<T>)
    requires
        forall|k: int|
            0 <= k < csr_batches@.len() && k < offsets@.len() ==> (#[trigger] csr_batches@[k]).wf()
                && offsets@[k].0 + csr_batches@[k].rows <= usize::MAX,
    ensures
        out.wf(),
        out.tuples() == chunked_tuples(
            offsets@,
            csr_batches@,
            if offsets@.len() <= csr_batches@.len() {
                offsets@.len() as int
            } else {
                csr_batches@.len() as int
            },
        ),
{
    let n = if offsets.len() <= csr_batches.len() {
        offsets.len()
    } else {
        csr_batches.len()
    };
    let mut out = Matches::new();
    let mut k: usize = 0;
    assert(out.tuples() =~= chunked_tuples(offsets@, csr_batches@, 0));
    while k < n
        invariant
            n <= offsets@.len(),
            n <= csr_batches@.len(),
            k <= n,
            forall|j: int|
                0 <= j < csr_batches@.len() && j < offsets@.len() ==> (
                #[trigger] csr_batches@[j]).wf() && offsets@[j].0 + csr_batches@[j].rows
                    <= usize::MAX,
            out.wf(),
            out.tuples() == chunked_tuples(offsets@, csr_batches@, k as int),
        decreases n - k,
    {
        let offset = offsets[k].0;
        assert(csr_batches@[k as int].wf());
        out.append(&csr_batches[k], offset);
        k += 1;
    }
    out
}

} // verus!
