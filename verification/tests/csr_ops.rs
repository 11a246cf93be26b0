use polars_simed::csr::CsrMatBase;
use polars_simed::storage::{DataStorage, IndPtrStorage, IndexStorage};

type Mat = CsrMatBase<u16, u32, u32>;

// rows: [ (0,0)=1 (0,2)=2 ], [], [ (2,1)=3 (2,0)=4 ]
fn sample() -> Mat {
    CsrMatBase::new(vec![0, 2, 2, 4], vec![0, 2, 1, 0], vec![1, 2, 3, 4], 3, 3)
}

#[test]
fn new_keeps_arrays_and_shape() {
    let m = sample();
    assert_eq!(m.indptr, vec![0, 2, 2, 4]);
    assert_eq!(m.indices, vec![0, 2, 1, 0]);
    assert_eq!(m.data, vec![1, 2, 3, 4]);
    assert_eq!(m.rows, 3);
    assert_eq!(m.cols, 3);
}

#[test]
fn nnz_counts_stored_entries() {
    assert_eq!(sample().nnz(), 4);
    let empty: Mat = CsrMatBase::new(vec![0], vec![], vec![], 0, 5);
    assert_eq!(empty.nnz(), 0);
}

#[test]
fn row_start_and_col_at_read_positions() {
    let m = sample();
    assert_eq!(m.row_start(0), 0);
    assert_eq!(m.row_start(2), 2);
    assert_eq!(m.row_start(3), 4);
    assert_eq!(m.col_at(1), 2);
}

#[test]
fn slice_rebases_row_pointers() {
    let m = sample();
    let s = m.slice(1, 2);
    assert_eq!(s.rows, 2);
    assert_eq!(s.cols, 3);
    assert_eq!(s.indptr, vec![0, 0, 2]);
    assert_eq!(s.indices, vec![1, 0]);
    assert_eq!(s.data, vec![3, 4]);
}

#[test]
fn slice_of_nothing_is_empty() {
    let m = sample();
    let s = m.slice(3, 0);
    assert_eq!(s.rows, 0);
    assert_eq!(s.indptr, vec![0]);
    assert!(s.indices.is_empty());
    assert!(s.data.is_empty());
}

#[test]
fn slice_of_everything_is_the_matrix() {
    let m = sample();
    let s = m.slice(0, 3);
    assert_eq!(s.indptr, m.indptr);
    assert_eq!(s.indices, m.indices);
    assert_eq!(s.data, m.data);
}

#[test]
fn transpose_exchanges_rows_and_columns() {
    let m = sample();
    let t = m.transpose();
    assert_eq!(t.rows, 3);
    assert_eq!(t.cols, 3);
    // column 0 holds (0,1) and (2,4); column 1 holds (2,3); column 2 holds (0,2)
    assert_eq!(t.indptr, vec![0, 2, 3, 4]);
    assert_eq!(t.indices, vec![0, 2, 2, 0]);
    assert_eq!(t.data, vec![1, 4, 3, 2]);
}

#[test]
fn transpose_of_a_wide_matrix() {
    // one row, four columns, entries in columns 3 and 1
    let m: Mat = CsrMatBase::new(vec![0, 2], vec![3, 1], vec![7, 9], 1, 4);
    let t = m.transpose();
    assert_eq!(t.rows, 4);
    assert_eq!(t.cols, 1);
    assert_eq!(t.indptr, vec![0, 0, 1, 1, 2]);
    assert_eq!(t.indices, vec![0, 0]);
    assert_eq!(t.data, vec![9, 7]);
}

#[test]
fn transpose_of_an_empty_matrix() {
    let m: Mat = CsrMatBase::new(vec![0, 0, 0], vec![], vec![], 2, 3);
    let t = m.transpose();
    assert_eq!(t.rows, 3);
    assert_eq!(t.cols, 2);
    assert_eq!(t.indptr, vec![0, 0, 0, 0]);
    assert_eq!(t.nnz(), 0);
}

fn cells(m: &Mat) -> Vec<(usize, u32, u16)> {
    let mut out = vec![];
    for r in 0..m.rows {
        for k in m.indptr[r] as usize..m.indptr[r + 1] as usize {
            out.push((r, m.indices[k], m.data[k]));
        }
    }
    out.sort();
    out
}

#[test]
fn transpose_twice_gives_the_matrix_back() {
    let m = sample();
    let back = m.transpose().transpose();
    assert_eq!(back.rows, m.rows);
    assert_eq!(back.cols, m.cols);
    assert_eq!(back.indptr, m.indptr);
    assert_eq!(cells(&back), cells(&m));
}

#[test]
fn results_keep_the_row_pointer_invariants() {
    let m = sample();
    for r in [m.slice(0, 2), m.transpose()] {
        assert_eq!(r.indptr[0], 0);
        assert_eq!(r.indptr[r.rows] as usize, r.indices.len());
        assert_eq!(r.indices.len(), r.data.len());
        assert!(r.indptr.windows(2).all(|w| w[0] <= w[1]));
        assert!(r.indices.iter().all(|c| (*c as usize) < r.cols));
    }
}

#[test]
fn index_widths_convert_both_ways() {
    assert_eq!(<u8 as IndexStorage>::from_usize(200), 200u8);
    assert_eq!(<u8 as IndexStorage>::from_usize(256 + 7), 7u8);
    assert_eq!(<u16 as IndPtrStorage>::from_usize(65536 + 5), 5u16);
    assert_eq!(IndexStorage::index(77u32), 77usize);
    assert_eq!(IndPtrStorage::index_unchecked(12u64), 12usize);
    assert_eq!(IndPtrStorage::try_index(&9u128), Some(9usize));
    assert_eq!(IndexStorage::try_index(&3usize), Some(3usize));
}

#[test]
fn value_widths_count() {
    assert_eq!(<u16 as DataStorage>::zero(), 0);
    assert_eq!(<u32 as DataStorage>::one(), 1);
    assert!(DataStorage::is_zero(&0u16));
    assert!(!DataStorage::is_zero(&5u16));
    assert!(DataStorage::less_than(&2u32, &3u32));
    assert!(!DataStorage::less_than(&3u32, &3u32));
    assert_eq!(DataStorage::add_product(10u16, 3, 4), 22);
}
