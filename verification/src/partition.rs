//! Cutting the rows of a matrix into batches of nearly equal size.

use vstd::arithmetic::div_mod::lemma_fundamental_div_mod;
use vstd::prelude::*;

verus! {

/// The length of batch `k` when `total` rows are cut into `n` batches: the
/// first batches are one longer if the rows cannot be shared out evenly.
pub open spec fn chunk_len(total: nat, n: nat, k: int) -> nat {
    total / n + if k < total % n {
        1nat
    } else {
        0nat
    }
}

/// The first row of batch `k`.
pub open spec fn chunk_start(total: nat, n: nat, k: int) -> nat
    decreases k,
{
    if k <= 0 {
        0
    } else {
        chunk_start(total, n, k - 1) + chunk_len(total, n, k - 1)
    }
}

/// Where batch `k` starts, written out.
pub proof fn lemma_chunk_start(total: nat, n: nat, k: int)
    requires
        n > 0,
        0 <= k <= n,
    ensures
        chunk_start(total, n, k) == k * (total / n) + if k < total % n {
            k
        } else {
            (total % n) as int
        },
    decreases k,
{
    let q = (total / n) as int;
    if k > 0 {
        lemma_chunk_start(total, n, k - 1);
        assert(k * q == (k - 1) * q + q) by (nonlinear_arith);
    } else {
        assert(0 * q == 0) by (nonlinear_arith);
    }
}

/// The batches cover all rows.
pub proof fn lemma_chunks_cover(total: nat, n: nat)
    requires
        n > 0,
    ensures
        chunk_start(total, n, n as int) == total,
{
    lemma_chunk_start(total, n, n as int);
    lemma_fundamental_div_mod(total as int, n as int);
    assert(n * (total / n) == (total / n) * n) by (nonlinear_arith);
}

/// Later batches start later.
pub proof fn lemma_chunk_start_monotone(total: nat, n: nat, j: int, k: int)
    requires
        j <= k,
    ensures
        chunk_start(total, n, j) <= chunk_start(total, n, k),
    decreases k - j,
{
    if j < k {
        lemma_chunk_start_monotone(total, n, j, k - 1);
    }
}

/// Cuts `0..total` into `n` batches `(start, length)` that follow each other
/// and whose lengths differ by one at most, the longer ones first.
pub fn split_offsets(total: usize, n: usize) -> (offsets: Vec<(usize, usize)>)
    requires
        n > 0,
    ensures
        offsets@.len() == n,
        forall|k: int|
            0 <= k < n ==> (#[trigger] offsets@[k]).0 == chunk_start(total as nat, n as nat, k)
                && offsets@[k].1 == chunk_len(total as nat, n as nat, k),
{
    let each = total / n;
    let longer = total % n;
    let mut offsets: Vec<(usize, usize)> = Vec::with_capacity(n);
    let mut offset: usize = 0;
    let mut k: usize = 0;
    while k < n
        invariant
            n > 0,
            each == total / n,
            longer == total % n,
            k <= n,
            offsets@.len() == k,
            offset == chunk_start(total as nat, n as nat, k as int),
            forall|j: int|
                0 <= j < k ==> (#[trigger] offsets@[j]).0 == chunk_start(
                    total as nat,
                    n as nat,
                    j,
                ) && offsets@[j].1 == chunk_len(total as nat, n as nat, j),
        decreases n - k,
    {
        proof {
            lemma_chunk_start_monotone(total as nat, n as nat, k + 1, n as int);
            lemma_chunks_cover(total as nat, n as nat);
        }
        let len = if k < longer {
            each + 1
        } else {
            each
        };
        offsets.push((offset, len));
        offset += len;
        k += 1;
    }
    offsets
}

} // verus!
