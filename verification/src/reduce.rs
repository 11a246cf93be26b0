//! Merging the results of several batches into one.
//!
//! Each batch holds, for every row, the best candidates it found among its own
//! columns. Merging puts the candidates of a row side by side and keeps the best
//! of them again.

use crate::csr::{distinct_pairs, row_pairs, CsrMatBase};
use crate::kernel::lemma_selection_from;
use crate::rows::push_row;
use crate::select::{is_top_selection, scored, select_topn};
use crate::storage::{DataStorage, IndPtrStorage, IndexStorage};
use vstd::prelude::*;

verus! {

/// Row `i` of the first `n` batches, one batch after the other.
pub open spec fn merged_row<T: DataStorage, I: IndPtrStorage, J: IndexStorage>(
    batches: Seq<CsrMatBase<T, I, J>>,
    i: int,
    n: int,
) -> Seq<(nat, nat)>
    decreases n,
{
    if n <= 0 {
        Seq::empty()
    } else {
        merged_row(batches, i, n - 1) + batches[n - 1].row_scored(i)
    }
}

/// The largest column count among the first `n` batches.
pub open spec fn widest<T: DataStorage, I: IndPtrStorage, J: IndexStorage>(
    batches: Seq<CsrMatBase<T, I, J>>,
    n: int,
) -> nat
    decreases n,
{
    if n <= 0 {
        0
    } else {
        let w = widest(batches, n - 1);
        if batches[n - 1].cols > w {
            batches[n - 1].cols as nat
        } else {
            w
        }
    }
}

/// How many entries the first `r` rows of the merged result hold: for each row
/// the number of its candidates over all batches, capped at `ntop`.
pub open spec fn reduced_upto<T: DataStorage, I: IndPtrStorage, J: IndexStorage>(
    batches: Seq<CsrMatBase<T, I, J>>,
    ntop: nat,
    r: int,
) -> nat
    decreases r,
{
    if r <= 0 {
        0
    } else {
        let n = merged_row(batches, r - 1, batches.len() as int).len();
        reduced_upto(batches, ntop, r - 1) + if n <= ntop {
            n
        } else {
            ntop
        }
    }
}

/// The merged result never shrinks as rows are added.
pub proof fn lemma_reduced_upto_monotone<T: DataStorage, I: IndPtrStorage, J: IndexStorage>(
    batches: Seq<CsrMatBase<T, I, J>>,
    ntop: nat,
    r: int,
    s: int,
)
    requires
        r <= s,
    ensures
        reduced_upto(batches, ntop, r) <= reduced_upto(batches, ntop, s),
    decreases s - r,
{
    if r < s {
        lemma_reduced_upto_monotone(batches, ntop, r, s - 1);
    }
}

/// No batch is wider than the widest.
pub proof fn lemma_widest<T: DataStorage, I: IndPtrStorage, J: IndexStorage>(
    batches: Seq<CsrMatBase<T, I, J>>,
    n: int,
    b: int,
)
    requires
        0 <= b < n,
    ensures
        batches[b].cols <= widest(batches, n),
    decreases n,
{
    if b < n - 1 {
        lemma_widest(batches, n - 1, b);
    }
}

/// Every candidate of a merged row names a column of the widest batch.
pub proof fn lemma_merged_row_columns<T: DataStorage, I: IndPtrStorage, J: IndexStorage>(
    batches: Seq<CsrMatBase<T, I, J>>,
    i: int,
    n: int,
)
    requires
        0 <= n <= batches.len(),
        forall|b: int| 0 <= b < n ==> (#[trigger] batches[b]).wf() && 0 <= i < batches[b].rows,
    ensures
        forall|p: int|
            0 <= p < merged_row(batches, i, n).len() ==> (#[trigger] merged_row(
                batches,
                i,
                n,
            )[p]).0 < widest(batches, n),
    decreases n,
{
    if n > 0 {
        lemma_merged_row_columns(batches, i, n - 1);
        let before = merged_row(batches, i, n - 1);
        let last = batches[n - 1];
        assert(last.wf());
        last.lemma_slice_row(0, last.rows as int, i);
        assert forall|p: int| 0 <= p < merged_row(batches, i, n).len() implies (
        #[trigger] merged_row(batches, i, n)[p]).0 < widest(batches, n) by {
            if p < before.len() {
                assert(merged_row(batches, i, n)[p] == before[p]);
            } else {
                let q = p - before.len();
                assert(merged_row(batches, i, n)[p] == last.row_scored(i)[q]);
                assert(last.indices@[last.ptr(i) + q].as_nat() < last.cols);
            }
        }
    }
}

/// What is kept is taken from the candidates, and is no more than `ntop`.
pub proof fn lemma_selection_members(cands: Seq<(nat, nat)>, kept: Seq<(nat, nat)>, ntop: nat)
    requires
        is_top_selection(cands, kept, ntop),
    ensures
        forall|p: int| 0 <= p < kept.len() ==> cands.contains(#[trigger] kept[p]),
        kept.len() <= ntop,
{
    broadcast use vstd::seq_lib::group_to_multiset_ensures;

    assert forall|p: int| 0 <= p < kept.len() implies cands.contains(#[trigger] kept[p]) by {
        assert(kept.contains(kept[p]));
        assert(kept.to_multiset().count(kept[p]) > 0);
        assert(cands.to_multiset().count(kept[p]) > 0);
    }
}

/// Row `i` of every batch, one batch after the other.
fn gather_row<T: DataStorage, I: IndPtrStorage, J: IndexStorage>(
    batches: &Vec<CsrMatBase<T, I, J>>,
    i: usize,
) -> (candidates: Vec<(J, T)>)
    requires
        forall|b: int|
            0 <= b < batches@.len() ==> (#[trigger] batches@[b]).wf() && i < batches@[b].rows,
    ensures
        scored(candidates@) == merged_row(batches@, i as int, batches@.len() as int),
{
    let mut candidates: Vec<(J, T)> = Vec::new();
    let n = batches.len();
    let mut b: usize = 0;
    assert(scored(candidates@) =~= merged_row(batches@, i as int, 0));
    while b < n
        invariant
            n == batches@.len(),
            b <= n,
            forall|c: int|
                0 <= c < batches@.len() ==> (#[trigger] batches@[c]).wf() && i < batches@[c].rows,
            scored(candidates@) == merged_row(batches@, i as int, b as int),
        decreases n - b,
    {
        let batch = &batches[b];
        assert(batch.wf() && i < batch.rows);
        let start = batch.row_start(i);
        let end = batch.row_start(i + 1);
        proof {
            batch.lemma_slice_row(0, batch.rows as int, i as int);
        }
        let ghost before = scored(candidates@);
        let ghost row = batch.row_scored(i as int);
        let mut idx: usize = start;
        assert(scored(candidates@) =~= before + row.subrange(0, 0));
        while idx < end
            invariant
                batch.wf(),
                start == batch.ptr(i as int),
                end == batch.ptr(i + 1),
                start <= idx <= end <= batch.data@.len(),
                row == batch.row_scored(i as int),
                scored(candidates@) == before + row.subrange(0, idx - start),
            decreases end - idx,
        {
            let ghost prev = candidates@;
            candidates.push((batch.indices[idx], batch.data[idx]));
            proof {
                assert(scored(candidates@) =~= scored(prev).push(row[idx - start]));
                assert(row.subrange(0, idx + 1 - start) =~= row.subrange(0, idx - start).push(
                    row[idx - start],
                ));
                assert(scored(candidates@) =~= before + row.subrange(0, idx + 1 - start));
            }
            idx += 1;
        }
        assert(row.subrange(0, end - start) =~= row);
        b += 1;
    }
    candidates
}

/// The widest column count among `batches`.
fn widest_cols<T: DataStorage, I: IndPtrStorage, J: IndexStorage>(
    batches: &Vec<CsrMatBase<T, I, J>>,
) -> (w: usize)
    ensures
        w == widest(batches@, batches@.len() as int),
{
    let mut w: usize = 0;
    let n = batches.len();
    let mut b: usize = 0;
    while b < n
        invariant
            n == batches@.len(),
            b <= n,
            w == widest(batches@, b as int),
        decreases n - b,
    {
        if batches[b].cols > w {
            w = batches[b].cols;
        }
        b += 1;
    }
    w
}

/// Merges batches that all have the same number of rows: row `i` of the result
/// holds the `ntop` best among the entries that the batches store in their rows
/// `i`. Columns are taken as they are, so the batches must already number their
/// columns in one common way. The result is as wide as the widest batch.
pub fn topn_from_csr_batches<T: DataStorage, I: IndPtrStorage, J: IndexStorage>(
    batches: Vec<CsrMatBase<T, I, J>>,
    ntop: usize,
) -> (res: CsrMatBase<T, I, J>)
    requires
        batches@.len() > 0,
        forall|b: int|
            0 <= b < batches@.len() ==> (#[trigger] batches@[b]).wf() && batches@[b].rows
                == batches@[0].rows,
        reduced_upto(batches@, ntop as nat, batches@[0].rows as int) <= I::max_nat(),
    ensures
        res.wf(),
        res.rows == batches@[0].rows,
        res.cols == widest(batches@, batches@.len() as int),
        forall|i: int|
            0 <= i < res.rows ==> is_top_selection(
                merged_row(batches@, i, batches@.len() as int),
                #[trigger] res.row_scored(i),
                ntop as nat,
            ),
        forall|i: int|
            0 <= i <= res.rows ==> #[trigger] res.ptr(i) == reduced_upto(
                batches@,
                ntop as nat,
                i,
            ),
        forall|i: int| 0 <= i < res.rows ==> #[trigger] res.row_len(i) <= ntop,
        (forall|i: int|
            0 <= i < res.rows ==> distinct_pairs(
                #[trigger] merged_row(batches@, i, batches@.len() as int),
            )) ==> res.distinct_columns(),
{
    let ghost all = batches@;
    let ghost count = batches@.len() as int;
    let rows = batches[0].rows;
    let cols = widest_cols(&batches);
    assert(batches@[0].indptr@.len() == batches@[0].indptr.len());
    let mut indptr: Vec<I> = Vec::with_capacity(rows + 1);
    let mut indices: Vec<J> = Vec::new();
    let mut data: Vec<T> = Vec::new();
    proof {
        I::lemma_from_usize_exact(0);
    }
    indptr.push(I::from_usize(0));

    let mut i: usize = 0;
    while i < rows
        invariant
            all == batches@,
            count == all.len(),
            count > 0,
            forall|b: int| 0 <= b < count ==> (#[trigger] all[b]).wf() && all[b].rows == rows,
            reduced_upto(all, ntop as nat, rows as int) <= I::max_nat(),
            cols == widest(all, count),
            i <= rows,
            indptr@.len() == i + 1,
            indices@.len() == data@.len(),
            indices@.len() == reduced_upto(all, ntop as nat, i as int),
            forall|r: int|
                0 <= r <= i ==> (#[trigger] indptr@[r]).as_nat() == reduced_upto(
                    all,
                    ntop as nat,
                    r,
                ),
            forall|k: int| 0 <= k < indices@.len() ==> (#[trigger] indices@[k]).as_nat() < cols,
            forall|r: int|
                0 <= r < i ==> is_top_selection(
                    merged_row(all, r, count),
                    #[trigger] row_pairs(indptr@, indices@, data@, r),
                    ntop as nat,
                ),
        decreases rows - i,
    {
        let candidates = gather_row(&batches, i);
        let top = select_topn(candidates, ntop);
        let ghost cands = merged_row(all, i as int, count);
        let ghost kept = scored(top@);
        let ghost old_indices = indices@;
        let ghost base = indices@.len();
        proof {
            lemma_selection_members(cands, kept, ntop as nat);
            lemma_reduced_upto_monotone(all, ntop as nat, i + 1, rows as int);
            assert forall|r: int, s: int| 0 <= r <= s < indptr@.len() implies indptr@[r].as_nat()
                <= indptr@[s].as_nat() by {
                lemma_reduced_upto_monotone(all, ntop as nat, r, s);
            }
        }
        push_row(&mut indptr, &mut indices, &mut data, &top);
        proof {
            assert forall|r: int| 0 <= r <= i + 1 implies (#[trigger] indptr@[r]).as_nat()
                == reduced_upto(all, ntop as nat, r) by {
                if r <= i {
                    assert(indptr@[r] == indptr@.subrange(0, i + 1)[r]);
                }
            }
            lemma_merged_row_columns(all, i as int, count);
            assert forall|k: int| 0 <= k < indices@.len() implies (#[trigger] indices@[k]).as_nat()
                < cols by {
                if k < base {
                    assert(indices@[k] == indices@.subrange(0, base as int)[k]);
                    assert(old_indices[k].as_nat() < cols);
                } else {
                    let q = k - base;
                    assert(indices@[base + q] == top@[q].0);
                    assert(kept[q].0 == top@[q].0.as_nat());
                    assert(cands.contains(kept[q]));
                    let p = choose|p: int| 0 <= p < cands.len() && cands[p] == kept[q];
                    assert(cands[p].0 < cols);
                }
            }
        }
        i += 1;
    }

    let ghost whole = CsrMatBase { indptr, indices, data, rows, cols };
    assert(whole.wf()) by {
        assert forall|r: int, s: int| 0 <= r <= s <= rows implies whole.indptr@[r].as_nat()
            <= whole.indptr@[s].as_nat() by {
            lemma_reduced_upto_monotone(all, ntop as nat, r, s);
        }
    }
    let res = CsrMatBase::new(indptr, indices, data, rows, cols);
    proof {
        assert(res == whole);
        assert forall|r: int| 0 <= r < rows implies #[trigger] res.row_len(r) <= ntop by {
            lemma_selection_members(merged_row(all, r, count), res.row_scored(r), ntop as nat);
        }
        if forall|r: int| 0 <= r < res.rows ==> distinct_pairs(#[trigger] merged_row(all, r, count)) {
            assert forall|r: int, k1: int, k2: int|
                #![trigger res.in_row(r, k1), res.in_row(r, k2)]
                0 <= r < res.rows && res.in_row(r, k1) && res.in_row(r, k2) && k1
                    < k2 implies res.col(k1) != res.col(k2) by {
                let row = res.row_scored(r);
                assert(distinct_pairs(merged_row(all, r, count)));
                lemma_selection_from(merged_row(all, r, count), row, ntop as nat);
                assert(row[k1 - res.ptr(r)].0 != row[k2 - res.ptr(r)].0);
            }
        }
    }
    res
}

} // verus!
