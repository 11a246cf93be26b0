use polars_simed::csr::CsrMatBase;
use polars_simed::kernel::{accumulate_row, collect_candidates, sparse_dot_topn};
use polars_simed::reduce::topn_from_csr_batches;
use polars_simed::select::select_topn;

type Mat = CsrMatBase<u16, u32, u32>;

fn row(m: &Mat, r: usize) -> Vec<(u32, u16)> {
    let mut out = vec![];
    for k in m.indptr[r] as usize..m.indptr[r + 1] as usize {
        out.push((m.indices[k], m.data[k]));
    }
    out.sort();
    out
}

// a = [ 1 2 0 ]      b = [ 1 0 0 2 ]
//     [ 0 0 3 ]          [ 0 1 0 1 ]
//                        [ 4 0 0 0 ]
fn left() -> Mat {
    CsrMatBase::new(vec![0, 2, 3], vec![0, 1, 2], vec![1, 2, 3], 2, 3)
}

fn right() -> Mat {
    CsrMatBase::new(vec![0, 2, 4, 5], vec![0, 3, 1, 3, 0], vec![1, 2, 1, 1, 4], 3, 4)
}

#[test]
fn accumulate_row_sums_products() {
    // row 0 of a * b = [ 1, 2, 0, 4 ]
    assert_eq!(accumulate_row(&left(), &right(), 0), vec![1, 2, 0, 4]);
    // row 1 of a * b = [ 12, 0, 0, 0 ]
    assert_eq!(accumulate_row(&left(), &right(), 1), vec![12, 0, 0, 0]);
}

#[test]
fn collect_candidates_skips_zeros() {
    let got: Vec<(u32, u16)> = collect_candidates(&vec![0u16, 5, 0, 7]);
    assert_eq!(got, vec![(1, 5), (3, 7)]);
}

#[test]
fn select_topn_keeps_the_highest_scores() {
    let cands: Vec<(u32, u16)> = vec![(0, 1), (1, 9), (2, 3), (3, 7), (4, 5)];
    let mut kept = select_topn(cands, 2);
    kept.sort();
    assert_eq!(kept, vec![(1, 9), (3, 7)]);
}

#[test]
fn select_topn_keeps_all_when_there_are_few() {
    let cands: Vec<(u32, u16)> = vec![(0, 1), (1, 9)];
    assert_eq!(select_topn(cands.clone(), 2), cands);
    assert_eq!(select_topn(cands.clone(), 5), cands);
}

#[test]
fn select_topn_of_nothing() {
    let cands: Vec<(u32, u16)> = vec![(0, 1), (1, 9)];
    assert!(select_topn(cands, 0).is_empty());
}

#[test]
fn sparse_dot_topn_keeps_the_largest_entries() {
    let c = sparse_dot_topn(&left(), &right(), 2);
    assert_eq!(c.rows, 2);
    assert_eq!(c.cols, 4);
    assert_eq!(c.indptr, vec![0, 2, 3]);
    assert_eq!(row(&c, 0), vec![(1, 2), (3, 4)]);
    assert_eq!(row(&c, 1), vec![(0, 12)]);
}

#[test]
fn sparse_dot_topn_with_room_for_all() {
    let c = sparse_dot_topn(&left(), &right(), 10);
    assert_eq!(row(&c, 0), vec![(0, 1), (1, 2), (3, 4)]);
    assert_eq!(row(&c, 1), vec![(0, 12)]);
}

#[test]
fn sparse_dot_topn_keeps_empty_rows() {
    let a: Mat = CsrMatBase::new(vec![0, 0, 1], vec![1], vec![1], 2, 3);
    let c = sparse_dot_topn(&a, &right(), 1);
    assert_eq!(c.rows, 2);
    assert_eq!(c.indptr, vec![0, 0, 1]);
    assert_eq!(c.data.len(), 1);
}

#[test]
fn sparse_dot_topn_with_ntop_zero_is_empty() {
    let c = sparse_dot_topn(&left(), &right(), 0);
    assert_eq!(c.indptr, vec![0, 0, 0]);
    assert_eq!(c.nnz(), 0);
}

#[test]
fn no_row_of_a_result_is_longer_than_ntop() {
    for ntop in 0..5usize {
        let c = sparse_dot_topn(&left(), &right(), ntop);
        for r in 0..c.rows {
            assert!((c.indptr[r + 1] - c.indptr[r]) as usize <= ntop);
        }
    }
}

#[test]
fn topn_from_csr_batches_merges_rows() {
    // batch 1 knows columns 0..2, batch 2 columns 2..4
    let first: Mat = CsrMatBase::new(vec![0, 2, 2], vec![0, 1], vec![5, 1], 2, 4);
    let second: Mat = CsrMatBase::new(vec![0, 1, 3], vec![3, 2, 3], vec![3, 8, 2], 2, 4);
    let merged = topn_from_csr_batches(vec![first, second], 2);
    assert_eq!(merged.rows, 2);
    assert_eq!(merged.cols, 4);
    assert_eq!(merged.indptr, vec![0, 2, 4]);
    assert_eq!(row(&merged, 0), vec![(0, 5), (3, 3)]);
    assert_eq!(row(&merged, 1), vec![(2, 8), (3, 2)]);
}

#[test]
fn topn_from_csr_batches_is_as_wide_as_the_widest_batch() {
    let narrow: Mat = CsrMatBase::new(vec![0, 1], vec![0], vec![1], 1, 1);
    let wide: Mat = CsrMatBase::new(vec![0, 1], vec![6], vec![2], 1, 7);
    let merged = topn_from_csr_batches(vec![narrow, wide], 5);
    assert_eq!(merged.cols, 7);
    assert_eq!(row(&merged, 0), vec![(0, 1), (6, 2)]);
}

#[test]
fn topn_from_one_batch_is_the_batch() {
    let only: Mat = CsrMatBase::new(vec![0, 2, 2], vec![0, 1], vec![5, 1], 2, 4);
    let merged = topn_from_csr_batches(vec![only], 9);
    assert_eq!(merged.indptr, vec![0, 2, 2]);
    assert_eq!(row(&merged, 0), vec![(0, 5), (1, 1)]);
}
