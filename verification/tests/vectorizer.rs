use polars_simed::csr::CsrMatBase;
use polars_simed::vectorize::{transform, vectorize_one};
use polars_simed::vocab::{generate_ngrams, trigram_index, ALPHABET_LEN, VOCABULARY_LEN};

type Mat = CsrMatBase<u16, u32, u32>;

fn code(gram: &str) -> u32 {
    let chars: Vec<char> = gram.chars().collect();
    trigram_index::<u32>(&chars).unwrap()
}

fn strings(items: &[&str]) -> Vec<String> {
    items.iter().map(|s| s.to_string()).collect()
}

#[test]
fn vocabulary_lists_all_lowercase_trigrams() {
    let all = generate_ngrams();
    assert_eq!(ALPHABET_LEN, 26);
    assert_eq!(VOCABULARY_LEN, 17576);
    assert_eq!(all.len(), 17576);
    assert_eq!(all[0], vec!['a', 'a', 'a']);
    assert_eq!(all[1], vec!['a', 'a', 'b']);
    assert_eq!(all[26], vec!['a', 'b', 'a']);
    assert_eq!(all[1371], vec!['c', 'a', 't']);
    assert_eq!(all[17575], vec!['z', 'z', 'z']);
}

#[test]
fn vocabulary_places_are_the_columns() {
    let all = generate_ngrams();
    for i in [0usize, 1, 25, 26, 675, 676, 1371, 9999, 17575] {
        assert_eq!(trigram_index::<u32>(&all[i]), Some(i as u32));
    }
}

#[test]
fn trigram_index_knows_only_lowercase_letters() {
    assert_eq!(code("aaa"), 0);
    assert_eq!(code("cat"), 1371);
    assert_eq!(code("zzz"), 17575);
    assert_eq!(trigram_index::<u32>(&vec!['C', 'a', 't']), None);
    assert_eq!(trigram_index::<u32>(&vec!['a', '1', 'b']), None);
    assert_eq!(trigram_index::<u32>(&vec!['a', ' ', 'b']), None);
    assert_eq!(trigram_index::<u32>(&vec!['\u{2060}', 'a', 'b']), None);
    assert_eq!(trigram_index::<u32>(&vec!['a', 'b', '{']), None);
    assert_eq!(trigram_index::<u32>(&vec!['a', 'b', '`']), None);
    assert_eq!(trigram_index::<u32>(&vec!['a', 'b']), None);
    assert_eq!(trigram_index::<u32>(&vec!['a', 'b', 'c', 'd']), None);
    assert_eq!(trigram_index::<u32>(&vec!['\u{e9}', 'a', 'b']), None);
}

#[test]
fn a_string_sets_the_columns_of_its_trigrams() {
    let row: Vec<(u32, u16)> = vectorize_one("hello");
    assert_eq!(row, vec![(code("hel"), 1), (code("ell"), 1), (code("llo"), 1)]);
}

#[test]
fn a_repeated_trigram_sets_its_column_once() {
    let row: Vec<(u32, u16)> = vectorize_one("aaaaa");
    assert_eq!(row, vec![(0, 1)]);
    let row: Vec<(u32, u16)> = vectorize_one("abcabc");
    assert_eq!(row, vec![(code("abc"), 1), (code("bca"), 1), (code("cab"), 1)]);
}

#[test]
fn padding_sets_no_column() {
    let row: Vec<(u32, u16)> = vectorize_one("cat");
    assert_eq!(row, vec![(1371, 1)]);
    let row: Vec<(u32, u16)> = vectorize_one("ab");
    assert!(row.is_empty());
    let row: Vec<(u32, u16)> = vectorize_one("");
    assert!(row.is_empty());
}

#[test]
fn uppercase_and_other_characters_set_no_column() {
    let row: Vec<(u32, u16)> = vectorize_one("Cat");
    assert!(row.is_empty());
    let row: Vec<(u32, u16)> = vectorize_one("ab cd");
    assert!(row.is_empty());
    let row: Vec<(u32, u16)> = vectorize_one("abc-def");
    assert_eq!(row, vec![(code("abc"), 1), (code("def"), 1)]);
}

#[test]
fn transform_has_a_row_for_every_string() {
    let m: Mat = transform(&strings(&["cat", "", "hello", "X"]));
    assert_eq!(m.rows, 4);
    assert_eq!(m.cols, 17576);
    assert_eq!(m.indptr, vec![0, 1, 1, 4, 4]);
    assert_eq!(m.indices, vec![1371, code("hel"), code("ell"), code("llo")]);
    assert_eq!(m.data, vec![1, 1, 1, 1]);
}

#[test]
fn transform_of_no_strings() {
    let m: Mat = transform(&strings(&[]));
    assert_eq!(m.rows, 0);
    assert_eq!(m.cols, 17576);
    assert_eq!(m.indptr, vec![0]);
    assert_eq!(m.nnz(), 0);
}

#[test]
fn equal_strings_give_equal_rows() {
    let m: Mat = transform(&strings(&["banana", "apple", "banana"]));
    let first = &m.indices[m.indptr[0] as usize..m.indptr[1] as usize];
    let third = &m.indices[m.indptr[2] as usize..m.indptr[3] as usize];
    assert_eq!(first, third);
    let other: Mat = transform(&strings(&["banana"]));
    assert_eq!(first, &other.indices[..]);
}

#[test]
fn the_columns_of_a_row_are_the_trigrams_of_its_string() {
    let m: Mat = transform(&strings(&["banana"]));
    let mut got: Vec<u32> = m.indices.clone();
    got.sort();
    // ban, ana, nan, ana, ana -> ban, ana, nan
    let mut want = vec![code("ban"), code("ana"), code("nan")];
    want.sort();
    assert_eq!(got, want);
}
