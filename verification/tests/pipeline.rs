use polars_simed::assemble::{chunked_csr_to_matches, csr_to_matches, Matches};
use polars_simed::cossim::compute_cossim;
use polars_simed::csr::CsrMatBase;
use polars_simed::driver::{
    left_batch, left_parallel_sparse_dot_top_n, right_batch, right_parallel_sparse_dot_top_n,
};
use polars_simed::matching::{awesome_cossim, result_fits, text_fits, try_awesome_cossim};
use polars_simed::partition::split_offsets;
use polars_simed::vectorize::transform;

type Mat = CsrMatBase<u16, u32, u32>;

fn strings(items: &[&str]) -> Vec<String> {
    items.iter().map(|s| s.to_string()).collect()
}

fn triples(m: &Matches<u16>) -> Vec<(usize, usize, u16)> {
    assert_eq!(m.row.len(), m.col.len());
    assert_eq!(m.row.len(), m.sim.len());
    (0..m.row.len()).map(|k| (m.row[k], m.col[k], m.sim[k])).collect()
}

fn sorted(m: &Matches<u16>) -> Vec<(usize, usize, u16)> {
    let mut t = triples(m);
    t.sort();
    t
}

#[test]
fn split_offsets_shares_out_evenly() {
    assert_eq!(split_offsets(10, 3), vec![(0, 4), (4, 3), (7, 3)]);
    assert_eq!(split_offsets(9, 3), vec![(0, 3), (3, 3), (6, 3)]);
    assert_eq!(split_offsets(7, 1), vec![(0, 7)]);
    assert_eq!(split_offsets(1000, 4), vec![(0, 250), (250, 250), (500, 250), (750, 250)]);
}

#[test]
fn split_offsets_with_more_batches_than_rows() {
    assert_eq!(split_offsets(2, 4), vec![(0, 1), (1, 1), (2, 0), (2, 0)]);
    assert_eq!(split_offsets(0, 3), vec![(0, 0), (0, 0), (0, 0)]);
}

#[test]
fn split_offsets_cover_everything_in_order() {
    for total in 0..40usize {
        for n in 1..9usize {
            let parts = split_offsets(total, n);
            assert_eq!(parts.len(), n);
            let mut next = 0;
            for (offset, len) in &parts {
                assert_eq!(*offset, next);
                next += len;
            }
            assert_eq!(next, total);
            let longest = parts.iter().map(|p| p.1).max().unwrap();
            let shortest = parts.iter().map(|p| p.1).min().unwrap();
            assert!(longest - shortest <= 1);
        }
    }
}

#[test]
fn csr_to_matches_lists_row_after_row() {
    let m: Mat = CsrMatBase::new(vec![0, 2, 2, 3], vec![4, 1, 0], vec![7, 8, 9], 3, 5);
    let out = csr_to_matches(m);
    assert_eq!(out.row, vec![0, 0, 2]);
    assert_eq!(out.col, vec![4, 1, 0]);
    assert_eq!(out.sim, vec![7, 8, 9]);
}

#[test]
fn chunked_csr_to_matches_adds_the_offsets() {
    let first: Mat = CsrMatBase::new(vec![0, 1, 1], vec![3], vec![5], 2, 4);
    let second: Mat = CsrMatBase::new(vec![0, 2], vec![0, 2], vec![6, 7], 1, 4);
    let out = chunked_csr_to_matches(vec![(0, 2), (2, 1)], vec![first, second]);
    assert_eq!(out.row, vec![0, 2, 2]);
    assert_eq!(out.col, vec![3, 0, 2]);
    assert_eq!(out.sim, vec![5, 6, 7]);
}

#[test]
fn chunked_csr_to_matches_leaves_out_what_has_no_partner() {
    let first: Mat = CsrMatBase::new(vec![0, 1], vec![3], vec![5], 1, 4);
    let second: Mat = CsrMatBase::new(vec![0, 1], vec![0], vec![6], 1, 4);
    let out = chunked_csr_to_matches(vec![(0, 1)], vec![first, second]);
    assert_eq!(out.row, vec![0]);
    let out: Matches<u16> = chunked_csr_to_matches(vec![(0, 1)], Vec::<Mat>::new());
    assert!(out.row.is_empty());
}

#[test]
fn left_batch_matches_a_stretch_of_rows() {
    let a: Mat = transform(&strings(&["cat", "dog", "catdog"]));
    let b: Mat = transform(&strings(&["dog", "cat"]));
    let bt = b.transpose();
    let c = left_batch(&a, &bt, 5, 1, 2);
    assert_eq!(c.rows, 2);
    assert_eq!(c.cols, 2);
    // "dog" matches right 0; "catdog" matches right 0 and right 1
    assert_eq!(c.indptr, vec![0, 1, 3]);
    assert_eq!(c.indices[0], 0);
    assert_eq!(c.data, vec![1, 1, 1]);
}

#[test]
fn left_strategy_returns_one_batch_per_thread() {
    let a: Mat = transform(&strings(&["cat", "dog", "catdog"]));
    let b: Mat = transform(&strings(&["dog", "cat"]));
    let bt = b.transpose();
    let (offsets, batches) = left_parallel_sparse_dot_top_n(&a, &bt, 5, 2);
    assert_eq!(offsets, vec![(0, 2), (2, 1)]);
    assert_eq!(batches.len(), 2);
    assert_eq!(batches[0].rows, 2);
    assert_eq!(batches[1].rows, 1);
    assert_eq!(batches[0].indices, vec![1, 0]);
}

#[test]
fn right_batch_numbers_columns_by_right_rows() {
    let a: Mat = transform(&strings(&["cat", "dog", "catdog"]));
    let b: Mat = transform(&strings(&["dog", "cat", "dogcat"]));
    let c = right_batch(&a, &b, 5, 1, 2);
    assert_eq!(c.rows, 3);
    assert_eq!(c.cols, 3);
    // against right rows 1..3: "cat" matches 1 and 2, "dog" matches 2, "catdog" matches 1 and 2
    assert_eq!(c.indptr, vec![0, 2, 3, 5]);
    let mut first = vec![c.indices[0], c.indices[1]];
    first.sort();
    assert_eq!(first, vec![1, 2]);
    assert_eq!(c.indices[2], 2);
}

#[test]
fn right_strategy_returns_one_batch_per_thread() {
    let a: Mat = transform(&strings(&["cat", "dog"]));
    let b: Mat = transform(&strings(&["dog", "cat", "dogcat"]));
    let (offsets, batches) = right_parallel_sparse_dot_top_n(&a, &b, 5, 2);
    assert_eq!(offsets, vec![(0, 2), (2, 1)]);
    assert_eq!(batches.len(), 2);
    assert!(batches.iter().all(|m| m.rows == 2 && m.cols == 3));
    assert_eq!(batches[1].indices, vec![2, 2]);
}

#[test]
fn both_strategies_agree_when_nothing_is_cut_off() {
    let left = strings(&["cat", "dog", "catdog", "", "hello"]);
    let right = strings(&["dogcat", "cat", "help", "hello"]);
    for threads in 1..5usize {
        let a: Mat = transform(&left);
        let b: Mat = transform(&right);
        let by_left = compute_cossim(a, b, 10, threads, true);
        let a: Mat = transform(&left);
        let b: Mat = transform(&right);
        let by_right = compute_cossim(a, b, 10, threads, false);
        assert_eq!(sorted(&by_left), sorted(&by_right));
        assert_eq!(
            sorted(&by_left),
            vec![(0, 0, 1), (0, 1, 1), (1, 0, 1), (2, 0, 2), (2, 1, 1), (4, 2, 1), (4, 3, 3)]
        );
    }
}

#[test]
fn the_left_strategy_does_not_depend_on_the_number_of_threads() {
    let left = strings(&["banana", "bandana", "cabana", "anagram"]);
    let right = strings(&["banana", "bandanas", "ana"]);
    let one = sorted(&awesome_cossim(&left, &right, 2, 1, Some(true)));
    for threads in 2..6usize {
        let many = sorted(&awesome_cossim(&left, &right, 2, threads, Some(true)));
        assert_eq!(many.len(), one.len());
        for i in 0..left.len() {
            let scores = |t: &Vec<(usize, usize, u16)>| -> Vec<u16> {
                let mut s: Vec<u16> = t.iter().filter(|x| x.0 == i).map(|x| x.2).collect();
                s.sort();
                s
            };
            assert_eq!(scores(&many), scores(&one));
        }
    }
}

#[test]
fn matches_are_listed_by_ascending_row() {
    let left = strings(&["cat", "dog", "catdog", "hello"]);
    let right = strings(&["dogcat", "cat", "hello"]);
    for by_left in [Some(true), Some(false), None] {
        let out = awesome_cossim(&left, &right, 3, 3, by_left);
        assert!(out.row.windows(2).all(|w| w[0] <= w[1]));
        assert!(out.row.iter().all(|r| *r < left.len()));
        assert!(out.col.iter().all(|c| *c < right.len()));
    }
}

#[test]
fn a_string_matches_itself_with_the_number_of_its_trigrams() {
    let words = strings(&["banana", "hello", "world", "cat"]);
    let out = awesome_cossim(&words, &words, 1, 2, Some(true));
    assert_eq!(triples(&out), vec![(0, 0, 3), (1, 1, 3), (2, 2, 3), (3, 3, 1)]);
}

#[test]
fn the_same_string_on_both_sides() {
    let out = awesome_cossim(&strings(&["cat"]), &strings(&["cat"]), 1, 1, None);
    assert_eq!(triples(&out), vec![(0, 0, 1)]);
}

#[test]
fn strings_without_a_common_trigram_do_not_match() {
    let out = awesome_cossim(&strings(&["cat"]), &strings(&["dog"]), 1, 1, None);
    assert!(triples(&out).is_empty());
}

#[test]
fn a_thousand_equal_strings_in_four_batches() {
    let left = vec!["hello".to_string(); 1000];
    let right = strings(&["hello"]);
    let out = awesome_cossim(&left, &right, 1, 4, Some(true));
    let got = triples(&out);
    assert_eq!(got.len(), 1000);
    assert!(got.iter().all(|t| t.1 == 0 && t.2 == 3));
    let mut rows: Vec<usize> = got.iter().map(|t| t.0).collect();
    rows.sort();
    assert_eq!(rows, (0..1000).collect::<Vec<usize>>());
}

#[test]
fn equal_scores_keep_any_two_of_three() {
    let out = awesome_cossim(&strings(&["abc"]), &strings(&["abc", "abc", "abc"]), 2, 1, None);
    let got = triples(&out);
    assert_eq!(got.len(), 2);
    assert!(got.iter().all(|t| t.0 == 0 && t.1 < 3));
    assert_ne!(got[0].1, got[1].1);
    assert_eq!(got[0].2, got[1].2);
    assert_eq!(got[0].2, 1);
}

#[test]
fn an_empty_string_matches_nothing() {
    for ntop in [0usize, 1, 5] {
        for by_left in [Some(true), Some(false)] {
            let out = awesome_cossim(&strings(&[""]), &strings(&["anything"]), ntop, 2, by_left);
            assert!(triples(&out).is_empty());
        }
    }
}

#[test]
fn empty_tables_match_nothing() {
    let none = strings(&[]);
    let some = strings(&["cat"]);
    for by_left in [Some(true), Some(false)] {
        assert!(triples(&awesome_cossim(&none, &some, 3, 2, by_left)).is_empty());
        assert!(triples(&awesome_cossim(&some, &none, 3, 2, by_left)).is_empty());
        assert!(triples(&awesome_cossim(&none, &none, 3, 2, by_left)).is_empty());
    }
}

#[test]
fn the_right_strategy_keeps_the_best_of_each_batch() {
    // right rows 0 and 1 are the two best for "banana" and fall into one batch
    let left = strings(&["banana"]);
    let right = strings(&["banana", "bananas", "ban", "xyz"]);
    let exact = sorted(&awesome_cossim(&left, &right, 1, 2, Some(true)));
    assert_eq!(exact.len(), 1);
    assert_eq!(exact[0].2, 3);
    let staged = sorted(&awesome_cossim(&left, &right, 1, 2, Some(false)));
    assert_eq!(staged.len(), 1);
    assert_eq!(staged[0].2, 3);
    let two = sorted(&awesome_cossim(&left, &right, 2, 2, Some(false)));
    assert_eq!(two.iter().map(|t| t.2).collect::<Vec<u16>>(), vec![3, 3]);
}

#[test]
fn no_row_lists_more_than_ntop_matches() {
    let left = strings(&["banana", "bandana", "cabana"]);
    let right = strings(&["banana", "bandanas", "ana", "cabana", "nana"]);
    for ntop in 0..4usize {
        for by_left in [Some(true), Some(false)] {
            let out = awesome_cossim(&left, &right, ntop, 3, by_left);
            for i in 0..left.len() {
                assert!(out.row.iter().filter(|r| **r == i).count() <= ntop);
            }
        }
    }
}

#[test]
fn result_fits_counts_in_32_bits() {
    assert!(result_fits(0, 0, 0));
    assert!(result_fits(1000, 5, 3));
    assert!(result_fits(usize::MAX, 10, 0));
    assert!(result_fits(usize::MAX, 0, 10));
    assert!(result_fits(u32::MAX as usize, 7, 1));
    assert!(result_fits(1 << 16, 1 << 20, (1 << 16) - 1));
    assert!(!result_fits(1 << 16, 1 << 20, 1 << 16));
    assert!(!result_fits(1 << 20, 1 << 12, usize::MAX));
    assert!(result_fits(1 << 20, (1 << 12) - 1, usize::MAX));
}

#[test]
fn text_fits_small_columns() {
    assert!(text_fits(&strings(&[])));
    assert!(text_fits(&strings(&["cat", "", "hello world"])));
}

#[test]
fn try_awesome_cossim_gives_the_matches_when_sizes_fit() {
    let left = strings(&["cat", "dog", "catdog"]);
    let right = strings(&["dogcat", "cat"]);
    for by_left in [None, Some(true), Some(false)] {
        let found = try_awesome_cossim(&left, &right, 2, 2, by_left).unwrap();
        let plain = awesome_cossim(&left, &right, 2, 2, by_left);
        assert_eq!(sorted(&found), sorted(&plain));
        assert_eq!(sorted(&found), vec![(0, 0, 1), (0, 1, 1), (1, 0, 1), (2, 0, 2), (2, 1, 1)]);
    }
}
