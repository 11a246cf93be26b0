//! The sparse product that keeps only the best entries of each row.
//!
//! For a left matrix `a` and a right matrix `b` whose rows are indexed by the
//! columns of `a`, row `i` of the result holds the `ntop` largest entries of row
//! `i` of the product `a * b`.

use crate::csr::{distinct_pairs, entry_in, row_pairs, CsrMatBase};
use crate::rows::push_row;
use crate::select::{is_top_selection, scored, select_topn};
use crate::storage::{DataStorage, IndPtrStorage, IndexStorage};
use vstd::prelude::*;

verus! {

/// The part of the product entry `(a * b)[_, l]` that the positions `lo..hi` of
/// `a` contribute: each stored value times the entry of `b` it meets.
pub open spec fn dot_in<T: DataStorage, I: IndPtrStorage, J: IndexStorage>(
    a: &CsrMatBase<T, I, J>,
    lo: int,
    hi: int,
    b: &CsrMatBase<T, I, J>,
    l: int,
) -> nat
    decreases hi - lo,
{
    if hi <= lo {
        0
    } else {
        dot_in(a, lo, hi - 1, b, l) + a.data@[hi - 1].value() * b.entry(a.col(hi - 1), l)
    }
}

/// The product entry `(a * b)[i, l]`.
pub open spec fn row_dot<T: DataStorage, I: IndPtrStorage, J: IndexStorage>(
    a: &CsrMatBase<T, I, J>,
    i: int,
    b: &CsrMatBase<T, I, J>,
    l: int,
) -> nat {
    dot_in(a, a.ptr(i), a.ptr(i + 1), b, l)
}

/// The nonzero scores among the first `n` of `scores`, each with its position,
/// by ascending position.
pub open spec fn nonzero_scores(scores: Seq<nat>, n: int) -> Seq<(nat, nat)>
    decreases n,
{
    if n <= 0 {
        Seq::empty()
    } else {
        let rest = nonzero_scores(scores, n - 1);
        if scores[n - 1] != 0 {
            rest.push(((n - 1) as nat, scores[n - 1]))
        } else {
            rest
        }
    }
}

/// Row `i` of the product `a * b`, written out densely.
pub open spec fn product_row<T: DataStorage, I: IndPtrStorage, J: IndexStorage>(
    a: &CsrMatBase<T, I, J>,
    i: int,
    b: &CsrMatBase<T, I, J>,
) -> Seq<nat> {
    Seq::new(b.cols as nat, |l: int| row_dot(a, i, b, l))
}

/// The nonzero entries of row `i` of the product `a * b` as `(column, score)`.
pub open spec fn product_candidates<T: DataStorage, I: IndPtrStorage, J: IndexStorage>(
    a: &CsrMatBase<T, I, J>,
    i: int,
    b: &CsrMatBase<T, I, J>,
) -> Seq<(nat, nat)> {
    nonzero_scores(product_row(a, i, b), b.cols as int)
}

/// Every entry of the product `a * b` can be held by the value width.
pub open spec fn product_fits<T: DataStorage, I: IndPtrStorage, J: IndexStorage>(
    a: &CsrMatBase<T, I, J>,
    b: &CsrMatBase<T, I, J>,
) -> bool {
    forall|i: int, l: int|
        0 <= i < a.rows && 0 <= l < b.cols ==> #[trigger] row_dot(a, i, b, l) <= T::max_value()
}

/// How many entries the first `r` rows of the result hold: for each row the
/// number of its nonzero product entries, capped at `ntop`.
pub open spec fn kept_upto<T: DataStorage, I: IndPtrStorage, J: IndexStorage>(
    a: &CsrMatBase<T, I, J>,
    b: &CsrMatBase<T, I, J>,
    ntop: nat,
    r: int,
) -> nat
    decreases r,
{
    if r <= 0 {
        0
    } else {
        let n = product_candidates(a, r - 1, b).len();
        kept_upto(a, b, ntop, r - 1) + if n <= ntop {
            n
        } else {
            ntop
        }
    }
}

/// A longer stretch of positions never sums to less.
pub proof fn lemma_entry_in_monotone<T: DataStorage, J: IndexStorage>(
    indices: Seq<J>,
    data: Seq<T>,
    lo: int,
    mid: int,
    hi: int,
    c: int,
)
    requires
        lo <= mid <= hi,
    ensures
        entry_in(indices, data, lo, mid, c) <= entry_in(indices, data, lo, hi, c),
    decreases hi - mid,
{
    if mid < hi {
        lemma_entry_in_monotone(indices, data, lo, mid, hi - 1, c);
    }
}

/// A longer stretch of positions never contributes less to a product entry.
pub proof fn lemma_dot_in_monotone<T: DataStorage, I: IndPtrStorage, J: IndexStorage>(
    a: &CsrMatBase<T, I, J>,
    lo: int,
    mid: int,
    hi: int,
    b: &CsrMatBase<T, I, J>,
    l: int,
)
    requires
        lo <= mid <= hi,
    ensures
        dot_in(a, lo, mid, b, l) <= dot_in(a, lo, hi, b, l),
    decreases hi - mid,
{
    if mid < hi {
        lemma_dot_in_monotone(a, lo, mid, hi - 1, b, l);
    }
}

/// A column that the index width cannot express is stored nowhere.
pub proof fn lemma_entry_in_unstored<T: DataStorage, J: IndexStorage>(
    indices: Seq<J>,
    data: Seq<T>,
    lo: int,
    hi: int,
    c: int,
)
    requires
        0 <= lo,
        hi <= indices.len(),
        c > J::max_nat(),
    ensures
        entry_in(indices, data, lo, hi, c) == 0,
    decreases hi - lo,
{
    if lo < hi {
        lemma_entry_in_unstored(indices, data, lo, hi - 1, c);
        indices[hi - 1].lemma_bounded();
    }
}

/// A product entry in a column that the index width cannot express is zero.
pub proof fn lemma_dot_in_unstored<T: DataStorage, I: IndPtrStorage, J: IndexStorage>(
    a: &CsrMatBase<T, I, J>,
    lo: int,
    hi: int,
    b: &CsrMatBase<T, I, J>,
    l: int,
)
    requires
        a.wf(),
        b.wf(),
        a.cols == b.rows,
        0 <= lo,
        hi <= a.indices@.len(),
        l > J::max_nat(),
    ensures
        dot_in(a, lo, hi, b, l) == 0,
    decreases hi - lo,
{
    if lo < hi {
        lemma_dot_in_unstored(a, lo, hi - 1, b, l);
        let j = a.col(hi - 1);
        assert(a.indices@[hi - 1].as_nat() < a.cols);
        b.lemma_slice_row(0, b.rows as int, j);
        lemma_entry_in_unstored(b.indices@, b.data@, b.ptr(j), b.ptr(j + 1), l);
        assert(a.data@[hi - 1].value() * b.entry(j, l) == 0) by (nonlinear_arith)
            requires
                b.entry(j, l) == 0,
        ;
    }
}

/// A vector of `n` zeros.
fn zeros<T: DataStorage>(n: usize) -> (v: Vec<T>)
    ensures
        v@.len() == n,
        forall|l: int| 0 <= l < n ==> (#[trigger] v@[l]).value() == 0,
{
    let mut v: Vec<T> = Vec::with_capacity(n);
    let mut l: usize = 0;
    while l < n
        invariant
            l <= n,
            v@.len() == l,
            forall|q: int| 0 <= q < l ==> (#[trigger] v@[q]).value() == 0,
        decreases n - l,
    {
        v.push(T::zero());
        l += 1;
    }
    v
}

/// Row `i` of the product `a * b`, accumulated densely: every stored entry
/// of the row of `a` adds its multiple of a row of `b`.
pub fn accumulate_row<T: DataStorage, I: IndPtrStorage, J: IndexStorage>(
    a: &CsrMatBase<T, I, J>,
    b: &CsrMatBase<T, I, J>,
    i: usize,
) -> (sums: Vec<T>)
    requires
        a.wf(),
        b.wf(),
        a.cols == b.rows,
        i < a.rows,
        forall|l: int| 0 <= l < b.cols ==> #[trigger] row_dot(a, i as int, b, l) <= T::max_value(),
    ensures
        sums@.len() == b.cols,
        forall|l: int| 0 <= l < b.cols ==> (#[trigger] sums@[l]).value() == row_dot(a, i as int, b, l),
{
    let bn = b.cols;
    let mut sums: Vec<T> = zeros(bn);
    let jj_start = a.row_start(i);
    let jj_end = a.row_start(i + 1);
    proof {
        a.lemma_slice_row(0, a.rows as int, i as int);
    }
    let mut jj: usize = jj_start;
    while jj < jj_end
        invariant
            a.wf(),
            b.wf(),
            a.cols == b.rows,
            bn == b.cols,
            i < a.rows,
            jj_start == a.ptr(i as int),
            jj_end == a.ptr(i + 1),
            jj_start <= jj <= jj_end <= a.data@.len(),
            sums@.len() == bn,
            forall|l: int| 0 <= l < bn ==> #[trigger] row_dot(a, i as int, b, l) <= T::max_value(),
            forall|l: int|
                0 <= l < bn ==> (#[trigger] sums@[l]).value() == dot_in(a, jj_start as int, jj as int, b, l),
        decreases jj_end - jj,
    {
        let j = a.col_at(jj);
        let v: T = a.data[jj];
        let kk_start = b.row_start(j);
        let kk_end = b.row_start(j + 1);
        proof {
            b.lemma_slice_row(0, b.rows as int, j as int);
            assert forall|l: int| 0 <= l < bn implies v.value() * #[trigger] entry_in(
                b.indices@,
                b.data@,
                kk_start as int,
                kk_start as int,
                l,
            ) == 0 by {
                assert(v.value() * 0 == 0) by (nonlinear_arith);
            }
        }
        let mut kk: usize = kk_start;
        while kk < kk_end
            invariant
                a.wf(),
                b.wf(),
                bn == b.cols,
                i < a.rows,
                j < b.rows,
                j == a.col(jj as int),
                v == a.data@[jj as int],
                jj_start == a.ptr(i as int),
                jj_end == a.ptr(i + 1),
                jj_start <= jj < jj_end <= a.data@.len(),
                kk_start == b.ptr(j as int),
                kk_end == b.ptr(j + 1),
                kk_start <= kk <= kk_end <= b.data@.len(),
                sums@.len() == bn,
                forall|l: int|
                    0 <= l < bn ==> #[trigger] row_dot(a, i as int, b, l) <= T::max_value(),
                forall|l: int|
                    0 <= l < bn ==> (#[trigger] sums@[l]).value() == dot_in(
                        a,
                        jj_start as int,
                        jj as int,
                        b,
                        l,
                    ) + v.value() * entry_in(b.indices@, b.data@, kk_start as int, kk as int, l),
            decreases kk_end - kk,
        {
            let k = b.col_at(kk);
            let w: T = b.data[kk];
            let old_sum: T = sums[k];
            proof {
                let before = entry_in(b.indices@, b.data@, kk_start as int, kk as int, k as int);
                let after = entry_in(b.indices@, b.data@, kk_start as int, kk + 1, k as int);
                let whole = b.entry(j as int, k as int);
                let done = dot_in(a, jj_start as int, jj as int, b, k as int);
                assert(after == before + w.value());
                lemma_entry_in_monotone(
                    b.indices@,
                    b.data@,
                    kk_start as int,
                    kk + 1,
                    kk_end as int,
                    k as int,
                );
                assert(after <= whole);
                assert(v.value() * after == v.value() * before + v.value() * w.value())
                    by (nonlinear_arith)
                    requires
                        after == before + w.value(),
                ;
                assert(v.value() * after <= v.value() * whole) by (nonlinear_arith)
                    requires
                        after <= whole,
                ;
                assert(dot_in(a, jj_start as int, jj + 1, b, k as int) == done + v.value()
                    * whole);
                lemma_dot_in_monotone(a, jj_start as int, jj + 1, jj_end as int, b, k as int);
                assert(row_dot(a, i as int, b, k as int) <= T::max_value());
            }
            sums.set(k, old_sum.add_product(v, w));
            kk += 1;
        }
        jj += 1;
    }
    sums
}

/// The numbers that the values of `s` stand for.
pub open spec fn values<T: DataStorage>(s: Seq<T>) -> Seq<nat> {
    s.map_values(|x: T| x.value())
}

/// What `nonzero_scores` lists: exactly the positions below `n` with a nonzero
/// score, each once, with that score, by ascending position.
pub proof fn lemma_nonzero_scores(scores: Seq<nat>, n: int)
    requires
        0 <= n <= scores.len(),
    ensures
        nonzero_scores(scores, n).len() <= n,
        forall|p: int|
            0 <= p < nonzero_scores(scores, n).len() ==> {
                let x = #[trigger] nonzero_scores(scores, n)[p];
                x.0 < n && x.1 == scores[x.0 as int] && x.1 != 0
            },
        forall|p: int, q: int|
            0 <= p < q < nonzero_scores(scores, n).len() ==> (#[trigger] nonzero_scores(
                scores,
                n,
            )[p]).0 < (#[trigger] nonzero_scores(scores, n)[q]).0,
        forall|l: int|
            0 <= l < n && scores[l] != 0 ==> nonzero_scores(scores, n).contains(
                (l as nat, #[trigger] scores[l]),
            ),
    decreases n,
{
    if n > 0 {
        lemma_nonzero_scores(scores, n - 1);
        let rest = nonzero_scores(scores, n - 1);
        let all = nonzero_scores(scores, n);
        assert forall|l: int| 0 <= l < n && scores[l] != 0 implies all.contains(
            (l as nat, #[trigger] scores[l]),
        ) by {
            if l < n - 1 {
                let p = choose|p: int| 0 <= p < rest.len() && rest[p] == (l as nat, scores[l]);
                assert(all[p] == (l as nat, scores[l]));
            } else {
                assert(all[all.len() - 1] == (l as nat, scores[l]));
            }
        }
    }
}

/// A selection from candidates with distinct columns is made of candidates and
/// has distinct columns itself.
pub proof fn lemma_selection_from(cands: Seq<(nat, nat)>, kept: Seq<(nat, nat)>, ntop: nat)
    requires
        is_top_selection(cands, kept, ntop),
        distinct_pairs(cands),
    ensures
        forall|p: int| 0 <= p < kept.len() ==> cands.contains(#[trigger] kept[p]),
        distinct_pairs(kept),
        kept.len() <= ntop,
{
    broadcast use vstd::seq_lib::group_to_multiset_ensures;

    assert forall|p: int| 0 <= p < kept.len() implies cands.contains(#[trigger] kept[p]) by {
        assert(kept.contains(kept[p]));
        assert(kept.to_multiset().count(kept[p]) > 0);
        assert(cands.to_multiset().count(kept[p]) > 0);
    }
    assert forall|p: int, q: int| 0 <= p < q < kept.len() implies (#[trigger] kept[p]).0 != (
    #[trigger] kept[q]).0 by {
        if kept[p].0 == kept[q].0 {
            assert(cands.contains(kept[p]));
            assert(cands.contains(kept[q]));
            let cp = choose|i: int| 0 <= i < cands.len() && cands[i] == kept[p];
            let cq = choose|i: int| 0 <= i < cands.len() && cands[i] == kept[q];
            assert(cp == cq);
            let x = kept[p];
            assert(kept[q] == x);
            // `x` occurs twice in `kept`, but once in `cands`
            let k1 = kept.remove(q);
            assert(k1[p] == x);
            assert(k1.contains(x));
            assert(k1.to_multiset().count(x) > 0);
            assert(k1.to_multiset() == kept.to_multiset().remove(x));
            assert(kept.to_multiset().count(x) >= 2);
            let c1 = cands.remove(cp);
            assert(c1.to_multiset() == cands.to_multiset().remove(x));
            assert(c1.to_multiset().count(x) >= 1);
            assert(c1.contains(x));
            let other = choose|i: int| 0 <= i < c1.len() && c1[i] == x;
            if other < cp {
                assert(cands[other] == x);
            } else {
                assert(cands[other + 1] == x);
            }
            assert(false);
        }
    }
}

/// The nonzero sums with their columns, by ascending column.
pub fn collect_candidates<T: DataStorage, J: IndexStorage>(sums: &Vec<T>) -> (cands: Vec<(J, T)>)
    requires
        forall|l: int|
            0 <= l < sums@.len() && (#[trigger] sums@[l]).value() != 0 ==> l <= J::max_nat(),
    ensures
        scored(cands@) == nonzero_scores(values(sums@), sums@.len() as int),
{
    let n = sums.len();
    let mut cands: Vec<(J, T)> = Vec::new();
    let mut l: usize = 0;
    assert(scored(cands@) =~= nonzero_scores(values(sums@), 0));
    while l < n
        invariant
            n == sums@.len(),
            l <= n,
            forall|q: int|
                0 <= q < sums@.len() && (#[trigger] sums@[q]).value() != 0 ==> q <= J::max_nat(),
            scored(cands@) == nonzero_scores(values(sums@), l as int),
        decreases n - l,
    {
        let score: T = sums[l];
        if !score.is_zero() {
            proof {
                assert(sums@[l as int].value() != 0);
                J::lemma_from_usize_exact(l);
            }
            let ghost before = cands@;
            cands.push((J::from_usize(l), score));
            assert(scored(cands@) =~= scored(before).push((l as nat, score.value())));
        }
        l += 1;
    }
    cands
}

/// For every row of `a`, the `ntop` largest entries of that row of the product
/// `a * b`. Zero entries are never kept, a row with fewer than `ntop` nonzero
/// entries keeps them all, and which of several equal entries is kept is left
/// open. The rows of `b` are indexed by the columns of `a`.
pub fn sparse_dot_topn<T: DataStorage, I: IndPtrStorage, J: IndexStorage>(
    a: &CsrMatBase<T, I, J>,
    b: &CsrMatBase<T, I, J>,
    ntop: usize,
) -> (c: CsrMatBase<T, I, J>)
    requires
        a.wf(),
        b.wf(),
        a.cols == b.rows,
        product_fits(a, b),
        kept_upto(a, b, ntop as nat, a.rows as int) <= I::max_nat(),
    ensures
        c.wf(),
        c.rows == a.rows,
        c.cols == b.cols,
        c.distinct_columns(),
        forall|i: int|
            0 <= i < a.rows ==> is_top_selection(
                product_candidates(a, i, b),
                #[trigger] c.row_scored(i),
                ntop as nat,
            ),
        forall|i: int| 0 <= i <= a.rows ==> #[trigger] c.ptr(i) == kept_upto(a, b, ntop as nat, i),
        forall|i: int| 0 <= i < a.rows ==> #[trigger] c.row_len(i) <= ntop,
{
    let rows = a.rows;
    let cols = b.cols;
    assert(a.indptr@.len() == a.indptr.len());
    let mut indptr: Vec<I> = Vec::with_capacity(rows + 1);
    let mut indices: Vec<J> = Vec::new();
    let mut data: Vec<T> = Vec::new();
    proof {
        I::lemma_from_usize_exact(0);
    }
    indptr.push(I::from_usize(0));

    let mut i: usize = 0;
    while i < rows
        invariant
            a.wf(),
            b.wf(),
            a.cols == b.rows,
            product_fits(a, b),
            kept_upto(a, b, ntop as nat, a.rows as int) <= I::max_nat(),
            rows == a.rows,
            cols == b.cols,
            i <= rows,
            indptr@.len() == i + 1,
            indices@.len() == data@.len(),
            indices@.len() == kept_upto(a, b, ntop as nat, i as int),
            forall|r: int|
                0 <= r <= i ==> (#[trigger] indptr@[r]).as_nat() == kept_upto(
                    a,
                    b,
                    ntop as nat,
                    r,
                ),
            forall|k: int| 0 <= k < indices@.len() ==> (#[trigger] indices@[k]).as_nat() < cols,
            forall|r: int|
                0 <= r < i ==> is_top_selection(
                    product_candidates(a, r, b),
                    #[trigger] row_pairs(indptr@, indices@, data@, r),
                    ntop as nat,
                ),
            forall|r: int| 0 <= r < i ==> distinct_pairs(#[trigger] row_pairs(indptr@, indices@, data@, r)),
        decreases rows - i,
    {
        proof {
            assert forall|l: int| 0 <= l < b.cols implies #[trigger] row_dot(a, i as int, b, l)
                <= T::max_value() by {}
        }
        let sums = accumulate_row(a, b, i);
        proof {
            a.lemma_slice_row(0, a.rows as int, i as int);
            assert forall|l: int|
                0 <= l < sums@.len() && (#[trigger] sums@[l]).value() != 0 implies l
                <= J::max_nat() by {
                if l > J::max_nat() {
                    lemma_dot_in_unstored(a, a.ptr(i as int), a.ptr(i + 1), b, l);
                }
            }
            assert(values(sums@) =~= product_row(a, i as int, b));
        }
        let candidates: Vec<(J, T)> = collect_candidates(&sums);
        let top = select_topn(candidates, ntop);

        let ghost cands = product_candidates(a, i as int, b);
        let ghost kept = scored(top@);
        let ghost old_indices = indices@;
        let ghost base = indices@.len();
        proof {
            lemma_nonzero_scores(product_row(a, i as int, b), b.cols as int);
            lemma_selection_from(cands, kept, ntop as nat);
            lemma_kept_upto_monotone(a, b, ntop as nat, i + 1, rows as int);
            assert forall|r: int, s: int| 0 <= r <= s < indptr@.len() implies indptr@[r].as_nat()
                <= indptr@[s].as_nat() by {
                lemma_kept_upto_monotone(a, b, ntop as nat, r, s);
            }
        }
        push_row(&mut indptr, &mut indices, &mut data, &top);
        proof {
            assert forall|r: int| 0 <= r <= i + 1 implies (#[trigger] indptr@[r]).as_nat()
                == kept_upto(a, b, ntop as nat, r) by {
                if r <= i {
                    assert(indptr@[r] == indptr@.subrange(0, i + 1)[r]);
                }
            }
            assert forall|k: int| 0 <= k < indices@.len() implies (#[trigger] indices@[k]).as_nat()
                < cols by {
                if k < base {
                    assert(indices@[k] == indices@.subrange(0, base as int)[k]);
                    assert(old_indices[k].as_nat() < cols);
                } else {
                    let q = k - base;
                    assert(indices@[base + q] == top@[q].0);
                    assert(kept[q].0 == top@[q].0.as_nat());
                    assert(cands.contains(kept[q]));
                    let p = choose|p: int| 0 <= p < cands.len() && cands[p] == kept[q];
                    assert(cands[p].0 < b.cols);
                }
            }
        }
        i += 1;
    }

    let ghost whole = CsrMatBase { indptr, indices, data, rows, cols };
    assert(whole.wf()) by {
        assert forall|r: int, s: int| 0 <= r <= s <= rows implies whole.indptr@[r].as_nat()
            <= whole.indptr@[s].as_nat() by {
            lemma_kept_upto_monotone(a, b, ntop as nat, r, s);
        }
    }
    let c = CsrMatBase::new(indptr, indices, data, rows, cols);
    proof {
        assert(c == whole);
        assert forall|r: int| 0 <= r < a.rows implies #[trigger] c.row_len(r) <= ntop by {
            lemma_nonzero_scores(product_row(a, r, b), b.cols as int);
            lemma_selection_from(product_candidates(a, r, b), c.row_scored(r), ntop as nat);
        }
        assert forall|r: int, k1: int, k2: int|
            #![trigger c.in_row(r, k1), c.in_row(r, k2)]
            0 <= r < c.rows && c.in_row(r, k1) && c.in_row(r, k2) && k1 < k2 implies c.col(k1)
            != c.col(k2) by {
            let row = c.row_scored(r);
            assert(distinct_pairs(row));
            assert(row[k1 - c.ptr(r)].0 != row[k2 - c.ptr(r)].0);
        }
    }
    c
}

/// The result never shrinks as rows are added.
pub proof fn lemma_kept_upto_monotone<T: DataStorage, I: IndPtrStorage, J: IndexStorage>(
    a: &CsrMatBase<T, I, J>,
    b: &CsrMatBase<T, I, J>,
    ntop: nat,
    r: int,
    s: int,
)
    requires
        r <= s,
    ensures
        kept_upto(a, b, ntop, r) <= kept_upto(a, b, ntop, s),
    decreases s - r,
{
    if r < s {
        lemma_kept_upto_monotone(a, b, ntop, r, s - 1);
    }
}

} // verus!
