//! The guess-ranking heuristic.
//!
//! Statistics are drawn from the current candidate pool: for each position,
//! how many candidates hold each letter there, and for each letter, how many
//! candidates contain it at all. Each count is pushed through `inv_dist`,
//! which peaks when a count splits the pool in half (the most informative
//! case). A word's score is the sum of its per-position scores plus, for
//! each distinct letter, its whole-word coverage score.

use vstd::prelude::*;
use crate::letters::contains_letter;
use crate::letters::count_eq_upto;
use crate::letters::lidx;

verus! {

/// The information-style transform `(goal - |goal - 2*n|) / 2`: highest when
/// `n` is half of `goal`, zero at `n == 0` and `n == goal`.
pub open spec fn spec_inv_dist(n: int, goal: int) -> int {
    (goal - (if goal - 2 * n >= 0 {
        goal - 2 * n
    } else {
        2 * n - goal
    })) / 2
}

/// Within bounds, the transform is exactly the smaller of `n` and
/// `goal - n`, and never exceeds half of `goal`.
pub proof fn lemma_inv_dist_bounds(n: int, goal: int)
    requires
        0 <= n <= goal,
    ensures
        spec_inv_dist(n, goal) == if 2 * n <= goal {
            n
        } else {
            goal - n
        },
        0 <= spec_inv_dist(n, goal) <= goal / 2,
{
}

/// Apply the `inv_dist` transform: `(goal - |goal - 2*n|) / 2` with
/// truncating integer arithmetic.
pub fn inv_dist(n: usize, goal: usize) -> (r: usize)
    requires
        n <= goal,
        2 * goal <= usize::MAX,
    ensures
        r == spec_inv_dist(n as int, goal as int),
{
    let d = if 2 * n >= goal {
        2 * n - goal
    } else {
        goal - 2 * n
    };
    (goal - d) / 2
}

/// Among the first `k` candidate words, how many hold the byte `b` at
/// position `i`.
pub open spec fn count_at_upto(cands: Seq<Seq<u8>>, i: int, b: u8, k: int) -> nat
    decreases k,
{
    if k <= 0 {
        0
    } else {
        count_at_upto(cands, i, b, k - 1) + (if cands[k - 1][i] == b {
            1nat
        } else {
            0nat
        })
    }
}

/// How many candidate words hold the byte `b` at position `i`.
pub open spec fn count_at(cands: Seq<Seq<u8>>, i: int, b: u8) -> nat {
    count_at_upto(cands, i, b, cands.len() as int)
}

/// Among the first `k` candidate words, how many contain the byte `b`
/// anywhere.
pub open spec fn count_containing_upto(cands: Seq<Seq<u8>>, b: u8, k: int) -> nat
    decreases k,
{
    if k <= 0 {
        0
    } else {
        count_containing_upto(cands, b, k - 1) + (if contains_letter(cands[k - 1], lidx(b)) {
            1nat
        } else {
            0nat
        })
    }
}

/// How many candidate words contain the byte `b` anywhere.
pub open spec fn count_containing(cands: Seq<Seq<u8>>, b: u8) -> nat {
    count_containing_upto(cands, b, cands.len() as int)
}

/// A positional count over the first `k` words is at most `k`.
pub proof fn lemma_count_at_le(cands: Seq<Seq<u8>>, i: int, b: u8, k: int)
    requires
        0 <= k,
    ensures
        count_at_upto(cands, i, b, k) <= k,
    decreases k,
{
    if k > 0 {
        lemma_count_at_le(cands, i, b, k - 1);
    }
}

/// A coverage count over the first `k` words is at most `k`.
pub proof fn lemma_count_containing_le(cands: Seq<Seq<u8>>, b: u8, k: int)
    requires
        0 <= k,
    ensures
        count_containing_upto(cands, b, k) <= k,
    decreases k,
{
    if k > 0 {
        lemma_count_containing_le(cands, b, k - 1);
    }
}

/// Positional score of the byte `b` at position `i`: its candidate count
/// there, transformed.
pub open spec fn pos_score(cands: Seq<Seq<u8>>, i: int, b: u8) -> int {
    spec_inv_dist(count_at(cands, i, b) as int, cands.len() as int)
}

/// Coverage score of the byte `b`: the number of candidates containing it,
/// transformed.
pub open spec fn cov_score(cands: Seq<Seq<u8>>, b: u8) -> int {
    spec_inv_dist(count_containing(cands, b) as int, cands.len() as int)
}

/// Sum of the positional scores of the first `i` letters of `w`.
pub open spec fn word_pos_upto(cands: Seq<Seq<u8>>, w: Seq<u8>, i: int) -> int
    decreases i,
{
    if i <= 0 {
        0
    } else {
        word_pos_upto(cands, w, i - 1) + pos_score(cands, i - 1, w[i - 1])
    }
}

/// The letter at position `p` of `w` already occurred earlier in `w`.
pub open spec fn repeat_at(w: Seq<u8>, p: int) -> bool {
    exists|q: int| 0 <= q < p && w[q] == w[p]
}

/// Sum of the coverage scores of the first `i` letters of `w`, counting
/// each distinct letter only at its first occurrence.
pub open spec fn word_cov_upto(cands: Seq<Seq<u8>>, w: Seq<u8>, i: int) -> int
    decreases i,
{
    if i <= 0 {
        0
    } else {
        word_cov_upto(cands, w, i - 1) + (if repeat_at(w, i - 1) {
            0
        } else {
            cov_score(cands, w[i - 1])
        })
    }
}

/// Heuristic score of the word `w` against the candidate pool: positional
/// scores summed over all positions, plus coverage scores summed over the
/// distinct letters of `w`.
pub open spec fn word_score(cands: Seq<Seq<u8>>, w: Seq<u8>) -> int {
    word_pos_upto(cands, w, w.len() as int) + word_cov_upto(cands, w, w.len() as int)
}

/// Positional scores are between 0 and half the pool size.
pub proof fn lemma_pos_score_bounds(cands: Seq<Seq<u8>>, i: int, b: u8)
    ensures
        0 <= pos_score(cands, i, b) <= cands.len() / 2,
{
    lemma_count_at_le(cands, i, b, cands.len() as int);
    lemma_inv_dist_bounds(count_at(cands, i, b) as int, cands.len() as int);
}

/// Coverage scores are between 0 and half the pool size.
pub proof fn lemma_cov_score_bounds(cands: Seq<Seq<u8>>, b: u8)
    ensures
        0 <= cov_score(cands, b) <= cands.len() / 2,
{
    lemma_count_containing_le(cands, b, cands.len() as int);
    lemma_inv_dist_bounds(count_containing(cands, b) as int, cands.len() as int);
}

/// A positional-score prefix sum is between 0 and `i` halves of the pool.
pub proof fn lemma_word_pos_upto_bounds(cands: Seq<Seq<u8>>, w: Seq<u8>, i: int)
    requires
        0 <= i,
    ensures
        0 <= word_pos_upto(cands, w, i) <= i * (cands.len() / 2),
    decreases i,
{
    if i > 0 {
        lemma_word_pos_upto_bounds(cands, w, i - 1);
        lemma_pos_score_bounds(cands, i - 1, w[i - 1]);
        assert(i * (cands.len() / 2) == (i - 1) * (cands.len() / 2) + cands.len() / 2)
            by (nonlinear_arith);
    }
}

/// A coverage-score prefix sum is between 0 and `i` halves of the pool.
pub proof fn lemma_word_cov_upto_bounds(cands: Seq<Seq<u8>>, w: Seq<u8>, i: int)
    requires
        0 <= i,
    ensures
        0 <= word_cov_upto(cands, w, i) <= i * (cands.len() / 2),
    decreases i,
{
    if i > 0 {
        lemma_word_cov_upto_bounds(cands, w, i - 1);
        lemma_cov_score_bounds(cands, w[i - 1]);
        assert(i * (cands.len() / 2) == (i - 1) * (cands.len() / 2) + cands.len() / 2)
            by (nonlinear_arith);
    }
}

/// Counting a byte in a column sequence equals the positional count over
/// the candidate words the column was drawn from.
pub proof fn lemma_column_count(cands: Seq<Seq<u8>>, col: Seq<u8>, i: int, b: u8, k: int)
    requires
        0 <= k,
        forall|m: int| 0 <= m < k ==> col[m] == cands[m][i],
    ensures
        count_eq_upto(col, b, k) == count_at_upto(cands, i, b, k),
    decreases k,
{
    if k > 0 {
        lemma_column_count(cands, col, i, b, k - 1);
    }
}

} // verus!
