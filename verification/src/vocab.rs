//! The trigram vocabulary: all triples of lowercase letters, by alphabet.

use crate::storage::IndexStorage;
use vstd::prelude::*;

verus! {

/// Number of letters in the alphabet.
pub const ALPHABET_LEN: usize = 26;

/// Number of trigrams in the vocabulary.
pub const VOCABULARY_LEN: usize = 17576;

/// The place of a lowercase letter in the alphabet; other characters have none.
pub open spec fn letter_rank(ch: char) -> Option<nat> {
    if 'a' <= ch <= 'z' {
        Some((ch as nat - 'a' as nat) as nat)
    } else {
        None
    }
}

/// The place of a trigram in the vocabulary. Sequences that are not three
/// lowercase letters have none.
pub open spec fn trigram_code(g: Seq<char>) -> Option<nat> {
    if g.len() == 3 && letter_rank(g[0]).is_some() && letter_rank(g[1]).is_some() && letter_rank(
        g[2],
    ).is_some() {
        Some(
            (letter_rank(g[0]).unwrap() * 26 + letter_rank(g[1]).unwrap()) * 26 + letter_rank(
                g[2],
            ).unwrap(),
        )
    } else {
        None
    }
}

/// The place of a lowercase letter in the alphabet.
fn rank_of(ch: char) -> (r: Option<usize>)
    ensures
        r.is_some() == letter_rank(ch).is_some(),
        r.is_some() ==> r.unwrap() == letter_rank(ch).unwrap() && r.unwrap() < 26,
{
    if ch >= 'a' && ch <= 'z' {
        Some((ch as u32 - 'a' as u32) as usize)
    } else {
        None
    }
}

/// The letter at place `i` of the alphabet.
fn letter(i: usize) -> (ch: char)
    requires
        i < 26,
    ensures
        letter_rank(ch) == Some(i as nat),
{
    ('a' as u8 + i as u8) as char
}

/// Trigrams with the same place in the vocabulary are the same trigram.
pub proof fn lemma_trigram_code_injective(g: Seq<char>, h: Seq<char>)
    requires
        trigram_code(g).is_some(),
        trigram_code(g) == trigram_code(h),
    ensures
        g == h,
{
    assert(letter_rank(g[0]).unwrap() == letter_rank(h[0]).unwrap());
    assert(letter_rank(g[1]).unwrap() == letter_rank(h[1]).unwrap());
    assert(letter_rank(g[2]).unwrap() == letter_rank(h[2]).unwrap());
    assert(g =~= h);
}

/// The whole vocabulary in order: all triples of lowercase letters, the last
/// letter changing fastest.
pub fn generate_ngrams() -> (ngrams: Vec<Vec<char>>)
    ensures
        ngrams@.len() == VOCABULARY_LEN,
        forall|i: int| 0 <= i < ngrams@.len() ==> trigram_code((#[trigger] ngrams@[i])@) == Some(i as nat),
{
    let mut ngrams: Vec<Vec<char>> = Vec::new();
    let mut a: usize = 0;
    while a < ALPHABET_LEN
        invariant
            a <= 26,
            ngrams@.len() == a * 676,
            forall|i: int|
                0 <= i < ngrams@.len() ==> trigram_code((#[trigger] ngrams@[i])@) == Some(i as nat),
        decreases 26 - a,
    {
        let mut b: usize = 0;
        while b < ALPHABET_LEN
            invariant
                a < 26,
                b <= 26,
                ngrams@.len() == a * 676 + b * 26,
                forall|i: int|
                    0 <= i < ngrams@.len() ==> trigram_code((#[trigger] ngrams@[i])@) == Some(
                        i as nat,
                    ),
            decreases 26 - b,
        {
            let mut c: usize = 0;
            while c < ALPHABET_LEN
                invariant
                    a < 26,
                    b < 26,
                    c <= 26,
                    ngrams@.len() == a * 676 + b * 26 + c,
                    forall|i: int|
                        0 <= i < ngrams@.len() ==> trigram_code((#[trigger] ngrams@[i])@) == Some(
                            i as nat,
                        ),
                decreases 26 - c,
            {
                let mut gram: Vec<char> = Vec::with_capacity(3);
                gram.push(letter(a));
                gram.push(letter(b));
                gram.push(letter(c));
                assert(trigram_code(gram@) == Some((a * 676 + b * 26 + c) as nat));
                ngrams.push(gram);
                c += 1;
            }
            b += 1;
        }
        a += 1;
    }
    ngrams
}

/// The column of a trigram: its place in the vocabulary, if it is in it.
pub fn trigram_index<J: IndexStorage>(gram: &Vec<char>) -> (index: Option<J>)
    requires
        VOCABULARY_LEN - 1 <= J::max_nat(),
    ensures
        index.is_some() == trigram_code(gram@).is_some(),
        index.is_some() ==> index.unwrap().as_nat() == trigram_code(gram@).unwrap(),
{
    if gram.len() != 3 {
        return None;
    }
    match (rank_of(gram[0]), rank_of(gram[1]), rank_of(gram[2])) {
        (Some(a), Some(b), Some(c)) => {
            let code = (a * ALPHABET_LEN + b) * ALPHABET_LEN + c;
            proof {
                J::lemma_from_usize_exact(code);
            }
            Some(J::from_usize(code))
        },
        _ => None,
    }
}

} // verus!
