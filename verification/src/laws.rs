//! Session-level properties of the solver, proved once and for all.
//!
//! Throughout, "the feedback is honest" means the result sequence handed to
//! the solver is exactly what the oracle produces for the guess against one
//! fixed secret, and "the state admits the secret" means the secret is a
//! candidate under the current constraints.

use vstd::prelude::*;
use crate::letters::count_eq;
use crate::letters::is_lower;
use crate::letters::lemma_count_eq_upto_exists;
use crate::letters::lemma_count_eq_upto_pos;
use crate::letters::lidx;
use crate::letters::word_ok;
use crate::oracle::avail;
use crate::oracle::green_upto;
use crate::oracle::lemma_green_upto_exists;
use crate::oracle::lemma_yellow_upto_exists;
use crate::oracle::result_at;
use crate::oracle::spec_score;
use crate::oracle::CharResult;
use crate::solver::grey_eliminated;
use crate::solver::has_elsewhere;
use crate::solver::updated_admissible;
use crate::solver::WordlSolver;

verus! {

/// The feedback `result` is what one round of `update` expects after
/// guessing `word` against `pre`: the pointwise admissibility and knowledge
/// of `post` are exactly the transform that `update` promises.
pub open spec fn is_update_of(
    pre: WordlSolver,
    post: WordlSolver,
    word: Seq<u8>,
    result: Seq<CharResult>,
) -> bool {
    &&& post.wf()
    &&& post.word_len == pre.word_len
    &&& post.target_words == pre.target_words
    &&& post.guess_words == pre.guess_words
    &&& forall|p: int, c: int|
        0 <= p < post.word_len && 0 <= c < 26 ==> post.admissible(p, c) == updated_admissible(
            pre,
            word,
            result,
            p,
            c,
        )
    &&& forall|c: int|
        0 <= c < 26 ==> post.known(c) == (pre.known(c) || has_elsewhere(word, result, c))
}

/// Under honest feedback, a letter of the secret is never wiped from every
/// position: its absent marks are always outvoted by an exact or
/// present-elsewhere mark somewhere in the same guess.
proof fn lemma_secret_letter_not_grey_eliminated(
    word: Seq<u8>,
    secret: Seq<u8>,
    result: Seq<CharResult>,
    p: int,
)
    requires
        word.len() == secret.len(),
        result == spec_score(word, secret),
        0 <= p < secret.len(),
    ensures
        !grey_eliminated(word, result, lidx(secret[p])),
{
    let b = secret[p];
    let n = word.len() as int;
    if grey_eliminated(word, result, lidx(b)) {
        let j = choose|j: int|
            0 <= j < n && lidx(word[j]) == lidx(b) && result[j] == CharResult::Grey;
        assert(word[j] == b);
        assert(result[j] == result_at(word, secret, j));
        if green_upto(word, secret, b, n) > 0 {
            lemma_green_upto_exists(word, secret, b, n);
            let g = choose|g: int|
                0 <= g < n && word[g] == secret[g] && #[trigger] secret[g] == b;
            assert(result[g] == result_at(word, secret, g));
            assert(result[g] != CharResult::Grey);
            assert(has_elsewhere(word, result, lidx(b)));
        } else {
            lemma_count_eq_upto_pos(secret, b, secret.len() as int, p);
            assert(avail(word, secret, b) >= 1);
            assert(result_at(word, secret, j) == CharResult::Grey);
            assert(word[j] != secret[j] ==> crate::oracle::yellow_upto(word, secret, b, j)
                >= avail(word, secret, b));
            lemma_yellow_upto_exists(word, secret, b, j);
            let y = choose|y: int|
                0 <= y < j && #[trigger] word[y] == b && word[y] != secret[y]
                    && crate::oracle::yellow_upto(word, secret, b, y) < avail(word, secret, b);
            assert(result[y] == result_at(word, secret, y));
            assert(result[y] == CharResult::Yellow);
            assert(has_elsewhere(word, result, lidx(b)));
        }
    }
}

/// Monotonic narrowing. After one honest round of feedback, every word the
/// new state still admits was already admitted by the old state — applied
/// to the answer vocabulary, the candidate subset only shrinks — and the
/// secret itself is still admitted.
pub proof fn lemma_monotonic_narrowing(
    pre: WordlSolver,
    post: WordlSolver,
    word: Seq<u8>,
    result: Seq<CharResult>,
    secret: Seq<u8>,
)
    requires
        pre.wf(),
        word_ok(word, pre.word_len as int),
        word.len() == secret.len(),
        result == spec_score(word, secret),
        pre.is_candidate(secret),
        is_update_of(pre, post, word, result),
    ensures
        forall|w: Seq<u8>| post.is_candidate(w) ==> pre.is_candidate(w),
        post.is_candidate(secret),
{
    let n = pre.word_len as int;
    assert forall|w: Seq<u8>| post.is_candidate(w) implies pre.is_candidate(w) by {
        assert forall|p: int| 0 <= p < w.len() implies pre.admissible(
            p,
            lidx(#[trigger] w[p]),
        ) by {
            let c = lidx(w[p]);
            assert(post.admissible(p, c));
            assert(updated_admissible(pre, word, result, p, c));
            if result[p] == CharResult::Green {
                assert(result[p] == result_at(word, secret, p));
                assert(word[p] == secret[p]);
                assert(c == lidx(secret[p]));
                assert(pre.admissible(p, lidx(secret[p])));
            }
        }
        assert forall|c: int| 0 <= c < 26 && pre.known(c) implies crate::letters::contains_letter(
            w,
            c,
        ) by {
            assert(post.known(c));
        }
    }
    assert forall|p: int| 0 <= p < secret.len() implies post.admissible(
        p,
        lidx(#[trigger] secret[p]),
    ) by {
        let c = lidx(secret[p]);
        assert(result[p] == result_at(word, secret, p));
        if result[p] == CharResult::Green {
            assert(word[p] == secret[p]);
            assert(updated_admissible(pre, word, result, p, c));
        } else {
            assert(word[p] != secret[p]);
            assert(pre.admissible(p, c));
            lemma_secret_letter_not_grey_eliminated(word, secret, result, p);
            assert(updated_admissible(pre, word, result, p, c));
        }
        assert(post.admissible(p, c) == updated_admissible(pre, word, result, p, c));
    }
    assert forall|c: int| 0 <= c < 26 && post.known(c) implies crate::letters::contains_letter(
        secret,
        c,
    ) by {
        if !pre.known(c) {
            assert(has_elsewhere(word, result, c));
            let j = choose|j: int|
                0 <= j < word.len() && lidx(#[trigger] word[j]) == c && result[j]
                    != CharResult::Grey;
            let b = word[j];
            assert(result[j] == result_at(word, secret, j));
            if word[j] == secret[j] {
                assert(lidx(secret[j]) == c);
            } else {
                assert(result_at(word, secret, j) == CharResult::Yellow);
                assert(crate::oracle::yellow_upto(word, secret, b, j) < avail(word, secret, b));
                assert(count_eq(secret, b) > 0);
                lemma_count_eq_upto_exists(secret, b, secret.len() as int);
                let q = choose|q: int| 0 <= q < secret.len() && secret[q] == b;
                assert(lidx(secret[q]) == c);
            }
        }
    }
}

/// Pinned positions are permanent. Once a position admits exactly one
/// letter, one more honest round of feedback leaves it admitting exactly
/// that letter — only a reset can widen it again.
pub proof fn lemma_pinned_position_permanent(
    pre: WordlSolver,
    post: WordlSolver,
    word: Seq<u8>,
    result: Seq<CharResult>,
    secret: Seq<u8>,
    p: int,
    x: u8,
)
    requires
        pre.wf(),
        word_ok(word, pre.word_len as int),
        word.len() == secret.len(),
        result == spec_score(word, secret),
        pre.is_candidate(secret),
        is_update_of(pre, post, word, result),
        0 <= p < pre.word_len,
        is_lower(x),
        forall|c: int| 0 <= c < 26 ==> (pre.admissible(p, c) <==> c == lidx(x)),
    ensures
        forall|c: int| 0 <= c < 26 ==> (post.admissible(p, c) <==> c == lidx(x)),
{
    lemma_monotonic_narrowing(pre, post, word, result, secret);
    assert(pre.admissible(p, lidx(secret[p])));
    assert(secret[p] == x);
    assert forall|c: int| 0 <= c < 26 implies (post.admissible(p, c) <==> c == lidx(x)) by {
        assert(post.admissible(p, c) == updated_admissible(pre, word, result, p, c));
        if result[p] == CharResult::Green {
            assert(result[p] == result_at(word, secret, p));
            assert(word[p] == secret[p]);
        }
        if c == lidx(x) {
            assert(post.is_candidate(secret));
            assert(post.admissible(p, lidx(secret[p])));
        }
    }
}

/// The candidate pool of every prefix only shrinks across an honest round:
/// each pool word of the new state already stood in the old pool.
proof fn lemma_cand_upto_subset(pre: WordlSolver, post: WordlSolver, k: int)
    requires
        0 <= k,
        post.target_words == pre.target_words,
        post.word_len == pre.word_len,
        forall|w: Seq<u8>| post.is_candidate(w) ==> pre.is_candidate(w),
    ensures
        forall|m: int|
            0 <= m < post.cand_upto(k).len() ==> pre.cand_upto(k).contains(
                #[trigger] post.cand_upto(k)[m],
            ),
    decreases k,
{
    if k > 0 {
        lemma_cand_upto_subset(pre, post, k - 1);
        assert forall|m: int| 0 <= m < post.cand_upto(k).len() implies pre.cand_upto(k).contains(
            #[trigger] post.cand_upto(k)[m],
        ) by {
            let w = post.cand_upto(k)[m];
            if post.is_candidate(post.target_words@[k - 1]@) && m == post.cand_upto(k).len() - 1 {
                assert(w == pre.target_words@[k - 1]@);
                assert(pre.is_candidate(w));
                let i = pre.cand_upto(k).len() - 1;
                assert(pre.cand_upto(k)[i] == w);
            } else {
                assert(post.cand_upto(k - 1).contains(w) || pre.cand_upto(k - 1).contains(w));
                assert(pre.cand_upto(k - 1).contains(w));
                let i = choose|i: int| 0 <= i < pre.cand_upto(k - 1).len() && #[trigger] pre.cand_upto(k - 1)[i] == w;
                assert(pre.cand_upto(k)[i] == w);
            }
        }
    }
}

/// Monotonic narrowing, stated on the filtered vocabulary itself: after an
/// honest round, the candidate pool is a sub-collection of the old pool.
pub proof fn lemma_candidate_pool_narrows(
    pre: WordlSolver,
    post: WordlSolver,
    word: Seq<u8>,
    result: Seq<CharResult>,
    secret: Seq<u8>,
)
    requires
        pre.wf(),
        word_ok(word, pre.word_len as int),
        word.len() == secret.len(),
        result == spec_score(word, secret),
        pre.is_candidate(secret),
        is_update_of(pre, post, word, result),
    ensures
        forall|m: int|
            0 <= m < post.candidates().len() ==> pre.candidates().contains(
                #[trigger] post.candidates()[m],
            ),
{
    lemma_monotonic_narrowing(pre, post, word, result, secret);
    lemma_cand_upto_subset(pre, post, pre.target_words@.len() as int);
}

/// A word of the answer vocabulary that the state admits stands in the
/// candidate pool; in particular the pool is then not empty.
pub proof fn lemma_admitted_word_in_pool(s: WordlSolver, j: int)
    requires
        0 <= j < s.target_words@.len(),
        s.is_candidate(s.target_words@[j]@),
    ensures
        s.candidates().contains(s.target_words@[j]@),
        s.candidates().len() > 0,
{
    lemma_cand_upto_contains(s, j, s.target_words@.len() as int);
}

/// Helper: an admitted vocabulary word below `k` stands in the pool of the
/// first `k` words.
proof fn lemma_cand_upto_contains(s: WordlSolver, j: int, k: int)
    requires
        0 <= j < k,
        s.is_candidate(s.target_words@[j]@),
    ensures
        s.cand_upto(k).contains(s.target_words@[j]@),
    decreases k,
{
    if j == k - 1 {
        let i = s.cand_upto(k).len() - 1;
        assert(s.cand_upto(k)[i] == s.target_words@[j]@);
    } else {
        lemma_cand_upto_contains(s, j, k - 1);
        let i = choose|i: int| 0 <= i < s.cand_upto(k - 1).len() && #[trigger] s.cand_upto(k - 1)[i] == s.target_words@[j]@;
        assert(s.cand_upto(k)[i] == s.target_words@[j]@);
    }
}

/// Idempotent reset. Two fresh solvers over the same vocabularies — one
/// freshly constructed, one just reset — admit exactly the same words and
/// hold exactly the same candidate pool, so every later round, whose
/// contract depends only on admissibility, knowledge and the vocabularies,
/// behaves identically on them.
pub proof fn lemma_reset_equals_fresh(a: WordlSolver, b: WordlSolver)
    requires
        a.wf(),
        b.wf(),
        a.fresh(),
        b.fresh(),
        a.word_len == b.word_len,
        a.target_words == b.target_words,
        a.guess_words == b.guess_words,
    ensures
        forall|p: int, c: int|
            0 <= p < a.word_len && 0 <= c < 26 ==> a.admissible(p, c) == b.admissible(p, c),
        forall|c: int| 0 <= c < 26 ==> a.known(c) == b.known(c),
        forall|w: Seq<u8>| a.is_candidate(w) == b.is_candidate(w),
        a.candidates() == b.candidates(),
{
    assert forall|w: Seq<u8>| a.is_candidate(w) == b.is_candidate(w) by {
        lemma_fresh_candidate(a, w);
        lemma_fresh_candidate(b, w);
    }
    lemma_fresh_cand_upto_eq(a, b, a.target_words@.len() as int);
}

/// In a fresh well-formed state, a word is admitted exactly when it is a
/// lowercase word of the right length.
proof fn lemma_fresh_candidate(s: WordlSolver, w: Seq<u8>)
    requires
        s.wf(),
        s.fresh(),
    ensures
        s.is_candidate(w) == word_ok(w, s.word_len as int),
{
    if word_ok(w, s.word_len as int) {
        assert forall|p: int| 0 <= p < w.len() implies s.admissible(p, lidx(#[trigger] w[p])) by {
            assert(is_lower(w[p]));
        }
    }
}

/// Helper: two fresh states over the same vocabulary build the same pool.
proof fn lemma_fresh_cand_upto_eq(a: WordlSolver, b: WordlSolver, k: int)
    requires
        0 <= k,
        a.wf(),
        b.wf(),
        a.fresh(),
        b.fresh(),
        a.word_len == b.word_len,
        a.target_words == b.target_words,
    ensures
        a.cand_upto(k) == b.cand_upto(k),
    decreases k,
{
    if k > 0 {
        lemma_fresh_cand_upto_eq(a, b, k - 1);
        lemma_fresh_candidate(a, a.target_words@[k - 1]@);
        lemma_fresh_candidate(b, b.target_words@[k - 1]@);
    }
}

} // verus!

