//! The solver: constraint tracking, candidate filtering, and guess scoring.
//!
//! The solver keeps, for each of the `word_len` positions, the set of
//! letters still admissible there (a row of 26 flags), and a set of letters
//! known to occur somewhere in the secret. Feedback narrows those sets; the
//! candidate pool is the answer vocabulary filtered against them.

use vstd::prelude::*;
use crate::letters::contains_letter;
use crate::letters::counter;
use crate::letters::is_lower;
use crate::letters::lidx;
use crate::letters::word_ok;
use crate::oracle::CharResult;
use crate::scoring::cov_score;
use crate::scoring::count_at;
use crate::scoring::count_containing_upto;
use crate::scoring::inv_dist;
use crate::scoring::lemma_column_count;
use crate::scoring::lemma_count_at_le;
use crate::scoring::lemma_cov_score_bounds;
use crate::scoring::lemma_pos_score_bounds;
use crate::scoring::lemma_word_cov_upto_bounds;
use crate::scoring::lemma_word_pos_upto_bounds;
use crate::scoring::pos_score;
use crate::scoring::word_cov_upto;
use crate::scoring::word_pos_upto;
use crate::scoring::word_score;

verus! {

/// A solver for one fixed word length over a fixed pair of vocabularies.
///
/// `target_words` is the answer vocabulary (candidate secrets, also the pool
/// guesses are ranked over); `guess_words` is the wider vocabulary of legal
/// guesses, kept for callers but not consulted by the ranking (the ranking
/// deliberately stays inside the answer vocabulary).
pub struct WordlSolver {
    /// Shared length of every word in both vocabularies.
    pub word_len: usize,
    /// Answer vocabulary: the words that may be the secret.
    pub target_words: Vec<Vec<u8>>,
    /// Guess vocabulary: the words legal to submit.
    pub guess_words: Vec<Vec<u8>>,
    /// `letters[p][c]`: the letter with alphabet index `c` is still
    /// admissible at position `p`.
    pub letters: Vec<Vec<bool>>,
    /// `known_good[c]`: the letter with alphabet index `c` is known to occur
    /// somewhere in the secret.
    pub known_good: Vec<bool>,
}

impl WordlSolver {
    /// Letter index `c` is still admissible at position `p`.
    pub open spec fn admissible(self, p: int, c: int) -> bool {
        self.letters@[p]@[c]
    }

    /// Letter index `c` is known to occur in the secret.
    pub open spec fn known(self, c: int) -> bool {
        self.known_good@[c]
    }

    /// Structural well-formedness: row shapes match the word length, and
    /// both vocabularies hold lowercase words of that length. The arithmetic
    /// bound keeps every heuristic score within `usize`.
    pub open spec fn wf(self) -> bool {
        &&& self.letters@.len() == self.word_len
        &&& forall|p: int| 0 <= p < self.word_len ==> (#[trigger] self.letters@[p])@.len() == 26
        &&& self.known_good@.len() == 26
        &&& forall|k: int|
            0 <= k < self.target_words@.len() ==> word_ok(
                (#[trigger] self.target_words@[k])@,
                self.word_len as int,
            )
        &&& forall|k: int|
            0 <= k < self.guess_words@.len() ==> word_ok(
                (#[trigger] self.guess_words@[k])@,
                self.word_len as int,
            )
        &&& (self.word_len + 26) * self.target_words@.len() <= usize::MAX
    }

    /// A freshly constructed (or freshly reset) state: every letter is
    /// admissible at every position and nothing is known to occur.
    pub open spec fn fresh(self) -> bool {
        &&& forall|p: int, c: int|
            0 <= p < self.word_len && 0 <= c < 26 ==> self.admissible(p, c)
        &&& forall|c: int| 0 <= c < 26 ==> !self.known(c)
    }

    /// The word `w` is consistent with everything observed so far: each of
    /// its letters is admissible at its position, and it contains every
    /// letter known to occur in the secret.
    pub open spec fn is_candidate(self, w: Seq<u8>) -> bool {
        &&& word_ok(w, self.word_len as int)
        &&& forall|p: int| 0 <= p < w.len() ==> self.admissible(p, lidx(#[trigger] w[p]))
        &&& forall|c: int| 0 <= c < 26 && self.known(c) ==> contains_letter(w, c)
    }

    /// The candidates among the first `k` answer-vocabulary words, in
    /// vocabulary order.
    pub open spec fn cand_upto(self, k: int) -> Seq<Seq<u8>>
        decreases k,
    {
        if k <= 0 {
            Seq::empty()
        } else if self.is_candidate(self.target_words@[k - 1]@) {
            self.cand_upto(k - 1).push(self.target_words@[k - 1]@)
        } else {
            self.cand_upto(k - 1)
        }
    }

    /// All admissible candidates, in answer-vocabulary order.
    pub open spec fn candidates(self) -> Seq<Seq<u8>> {
        self.cand_upto(self.target_words@.len() as int)
    }

    /// Construct a solver over an answer vocabulary (`targets`) and a guess
    /// vocabulary (`guesses`), every word of the given length. Every letter
    /// starts admissible everywhere and nothing is known to occur.
    pub fn new(word_len: usize, targets: Vec<Vec<u8>>, guesses: Vec<Vec<u8>>) -> (s: WordlSolver)
        requires
            forall|k: int|
                0 <= k < targets@.len() ==> word_ok((#[trigger] targets@[k])@, word_len as int),
            forall|k: int|
                0 <= k < guesses@.len() ==> word_ok((#[trigger] guesses@[k])@, word_len as int),
            (word_len + 26) * targets@.len() <= usize::MAX,
        ensures
            s.wf(),
            s.fresh(),
            s.word_len == word_len,
            s.target_words == targets,
            s.guess_words == guesses,
    {
        let mut letters: Vec<Vec<bool>> = Vec::new();
        let mut p: usize = 0;
        while p < word_len
            invariant
                letters@.len() == p,
                p <= word_len,
                forall|q: int|
                    0 <= q < p ==> (#[trigger] letters@[q])@.len() == 26 && forall|d: int|
                        0 <= d < 26 ==> letters@[q]@[d],
            decreases word_len - p,
        {
            letters.push(full_row());
            p += 1;
        }
        WordlSolver {
            word_len,
            target_words: targets,
            guess_words: guesses,
            letters,
            known_good: empty_flags(),
        }
    }

    /// Restore the fresh state: every letter admissible at every position,
    /// nothing known to occur. The vocabularies and word length are kept.
    pub fn reset(&mut self)
        requires
            old(self).wf(),
        ensures
            final (self).wf(),
            final (self).fresh(),
            final (self).word_len == old(self).word_len,
            final (self).target_words == old(self).target_words,
            final (self).guess_words == old(self).guess_words,
    {
        let mut letters: Vec<Vec<bool>> = Vec::new();
        let mut p: usize = 0;
        let n = self.word_len;
        while p < n
            invariant
                letters@.len() == p,
                p <= n,
                forall|q: int|
                    0 <= q < p ==> (#[trigger] letters@[q])@.len() == 26 && forall|d: int|
                        0 <= d < 26 ==> letters@[q]@[d],
            decreases n - p,
        {
            letters.push(full_row());
            p += 1;
        }
        self.letters = letters;
        self.known_good = empty_flags();
    }
}

/// Some position of the guess got a non-absent mark for letter index `c`:
/// the letter is confirmed to occur in the secret.
pub open spec fn has_elsewhere(word: Seq<u8>, result: Seq<CharResult>, c: int) -> bool {
    exists|j: int|
        0 <= j < word.len() && lidx(#[trigger] word[j]) == c && result[j] != CharResult::Grey
}

/// Among the first `i` positions, letter index `c` got an absent mark while
/// no position of the whole guess confirms it: the letter is ruled out at
/// every position.
pub open spec fn grey_eliminated_upto(
    word: Seq<u8>,
    result: Seq<CharResult>,
    c: int,
    i: int,
) -> bool {
    &&& exists|j: int|
        0 <= j < i && lidx(#[trigger] word[j]) == c && result[j] == CharResult::Grey
    &&& !has_elsewhere(word, result, c)
}

/// Letter index `c` is ruled out everywhere by this feedback: some position
/// marked it absent and none confirmed it.
pub open spec fn grey_eliminated(word: Seq<u8>, result: Seq<CharResult>, c: int) -> bool {
    grey_eliminated_upto(word, result, c, word.len() as int)
}

/// Admissibility of letter index `c` at position `p` after the first `i`
/// positions of the feedback have been applied to the state `pre`.
///
/// An exact match pins the position to its letter; any other mark removes
/// the guessed letter from its own position; an unconfirmed absent mark
/// removes its letter from every position.
pub open spec fn step_admissible(
    pre: WordlSolver,
    word: Seq<u8>,
    result: Seq<CharResult>,
    p: int,
    c: int,
    i: int,
) -> bool {
    if p < i && result[p] == CharResult::Green {
        c == lidx(word[p])
    } else {
        &&& pre.admissible(p, c)
        &&& !(p < i && result[p] != CharResult::Green && c == lidx(word[p]))
        &&& !grey_eliminated_upto(word, result, c, i)
    }
}

/// Admissibility of letter index `c` at position `p` after the whole
/// feedback has been applied to the state `pre`.
pub open spec fn updated_admissible(
    pre: WordlSolver,
    word: Seq<u8>,
    result: Seq<CharResult>,
    p: int,
    c: int,
) -> bool {
    step_admissible(pre, word, result, p, c, word.len() as int)
}

/// The known-to-occur flag of letter index `c` after the first `i`
/// positions of the feedback: it grows by every letter marked non-absent.
pub open spec fn step_known(
    pre: WordlSolver,
    word: Seq<u8>,
    result: Seq<CharResult>,
    c: int,
    i: int,
) -> bool {
    pre.known(c) || exists|j: int|
        0 <= j < i && lidx(#[trigger] word[j]) == c && result[j] != CharResult::Grey
}

impl WordlSolver {
    /// Apply one round of feedback: `result` must be the oracle's output for
    /// `word` against the true secret. Processes positions left to right:
    /// an exact match pins its position to that letter, a present-elsewhere
    /// mark removes the letter from its position and records it as known to
    /// occur, and an absent mark removes the letter from its position alone
    /// when the same guess confirms the letter elsewhere, otherwise from
    /// every position.
    pub fn update(&mut self, word: &Vec<u8>, result: Vec<CharResult>)
        requires
            old(self).wf(),
            word_ok(word@, old(self).word_len as int),
            result@.len() == old(self).word_len,
        ensures
            final (self).wf(),
            final (self).word_len == old(self).word_len,
            final (self).target_words == old(self).target_words,
            final (self).guess_words == old(self).guess_words,
            forall|p: int, c: int|
                0 <= p < final (self).word_len && 0 <= c < 26 ==> final (self).admissible(p, c)
                    == updated_admissible(*old(self), word@, result@, p, c),
            forall|c: int|
                0 <= c < 26 ==> final (self).known(c) == (old(self).known(c) || has_elsewhere(
                    word@,
                    result@,
                    c,
                )),
    {
        let n = self.word_len;
        let mut i: usize = 0;
        while i < n
            invariant
                i <= n,
                n == self.word_len,
                self.word_len == old(self).word_len,
                self.target_words == old(self).target_words,
                self.guess_words == old(self).guess_words,
                old(self).wf(),
                self.wf(),
                word_ok(word@, n as int),
                result@.len() == n,
                forall|p: int, c: int|
                    0 <= p < n && 0 <= c < 26 ==> self.admissible(p, c) == step_admissible(
                        *old(self),
                        word@,
                        result@,
                        p,
                        c,
                        i as int,
                    ),
                forall|c: int|
                    0 <= c < 26 ==> self.known(c) == step_known(*old(self), word@, result@, c, i as int),
            decreases n - i,
        {
            let ghost pre_round = *self;
            let l = word[i];
            let d = (l - 97) as usize;
            match result[i] {
                CharResult::Grey => {
                    if elsewhere_hit(word, &result, l) {
                        self.letters[i][d] = false;
                    } else {
                        let mut p: usize = 0;
                        while p < n
                            invariant
                                p <= n,
                                n == self.word_len,
                                self.word_len == pre_round.word_len,
                                self.target_words == pre_round.target_words,
                                self.guess_words == pre_round.guess_words,
                                pre_round.wf(),
                                self.wf(),
                                self.known_good == pre_round.known_good,
                                i < n,
                                d == lidx(word@[i as int]),
                                0 <= d < 26,
                                forall|q: int, c: int|
                                    0 <= q < n && 0 <= c < 26 ==> self.admissible(q, c) == (
                                    pre_round.admissible(q, c) && !(q < p && c == d)),
                            decreases n - p,
                        {
                            self.letters[p][d] = false;
                            p += 1;
                        }
                    }
                },
                CharResult::Yellow => {
                    self.letters[i][d] = false;
                    self.known_good[d] = true;
                },
                CharResult::Green => {
                    self.letters[i] = singleton_row(d);
                    self.known_good[d] = true;
                },
            }
            proof {
                assert forall|p: int, c: int|
                    0 <= p < n && 0 <= c < 26 implies self.admissible(p, c) == step_admissible(
                    *old(self),
                    word@,
                    result@,
                    p,
                    c,
                    i + 1,
                ) by {
                    assert(pre_round.admissible(p, c) == step_admissible(
                        *old(self),
                        word@,
                        result@,
                        p,
                        c,
                        i as int,
                    ));
                }
                assert forall|c: int|
                    0 <= c < 26 implies self.known(c) == step_known(
                    *old(self),
                    word@,
                    result@,
                    c,
                    i + 1,
                ) by {
                    assert(pre_round.known(c) == step_known(*old(self), word@, result@, c, i as int));
                    if result@[i as int] != CharResult::Grey && lidx(word@[i as int]) == c {
                        assert(step_known(*old(self), word@, result@, c, i + 1));
                    } else if step_known(*old(self), word@, result@, c, i + 1) && !step_known(
                        *old(self),
                        word@,
                        result@,
                        c,
                        i as int,
                    ) {
                        let j = choose|j: int|
                            0 <= j < i + 1 && lidx(word@[j]) == c && result@[j]
                                != CharResult::Grey;
                        assert(0 <= j < i && lidx(word@[j]) == c && result@[j]
                            != CharResult::Grey);
                    }
                }
            }
            i += 1;
        }
    }
}

/// Why no guess can be proposed: the candidate pool is empty, so the
/// accumulated constraints admit no word of the answer vocabulary.
#[derive(Debug, Copy, Clone, PartialEq, Eq, Structural)]
pub enum SolverError {
    /// No answer-vocabulary word is consistent with the feedback seen so
    /// far: the feedback was malformed or the secret is not in the
    /// vocabulary.
    Unsolvable,
}

impl WordlSolver {
    /// Every word of the candidate pool is a candidate, and the pool is
    /// never larger than the prefix it was filtered from.
    pub proof fn lemma_cand_upto_props(self, k: int)
        requires
            0 <= k,
        ensures
            self.cand_upto(k).len() <= k,
            forall|m: int|
                0 <= m < self.cand_upto(k).len() ==> self.is_candidate(
                    #[trigger] self.cand_upto(k)[m],
                ),
        decreases k,
    {
        if k > 0 {
            self.lemma_cand_upto_props(k - 1);
        }
    }

    /// Decide whether `w` is consistent with the state: every letter
    /// admissible at its position, every known letter contained.
    pub fn is_candidate_word(&self, w: &Vec<u8>) -> (r: bool)
        requires
            self.wf(),
            word_ok(w@, self.word_len as int),
        ensures
            r == self.is_candidate(w@),
    {
        let mut p: usize = 0;
        while p < self.word_len
            invariant
                p <= self.word_len,
                self.wf(),
                word_ok(w@, self.word_len as int),
                forall|q: int| 0 <= q < p ==> self.admissible(q, lidx(#[trigger] w@[q])),
            decreases self.word_len - p,
        {
            let d = (w[p] - 97) as usize;
            if !self.letters[p][d] {
                return false;
            }
            p += 1;
        }
        let mut c: usize = 0;
        while c < 26
            invariant
                c <= 26,
                self.wf(),
                word_ok(w@, self.word_len as int),
                forall|q: int| 0 <= q < w@.len() ==> self.admissible(q, lidx(#[trigger] w@[q])),
                forall|e: int| 0 <= e < c && self.known(e) ==> contains_letter(w@, e),
            decreases 26 - c,
        {
            if self.known_good[c] {
                if !word_has_letter(w, (c as u8) + 97) {
                    return false;
                }
            }
            c += 1;
        }
        true
    }
}

impl WordlSolver {
    /// Answer-vocabulary index `k` holds the first word of maximal
    /// heuristic score against the current candidate pool.
    pub open spec fn is_first_best(self, k: int) -> bool {
        &&& 0 <= k < self.target_words@.len()
        &&& forall|j: int|
            0 <= j < self.target_words@.len() ==> word_score(
                self.candidates(),
                (#[trigger] self.target_words@[j])@,
            ) <= word_score(self.candidates(), self.target_words@[k]@)
        &&& forall|j: int|
            0 <= j < k ==> word_score(self.candidates(), (#[trigger] self.target_words@[j])@)
                < word_score(self.candidates(), self.target_words@[k]@)
    }

    /// Propose the next guess.
    ///
    /// The answer vocabulary is filtered to the candidate pool. A single
    /// surviving candidate is returned as solved; an empty pool is the
    /// unsolvable failure. Otherwise every answer-vocabulary word is scored
    /// against statistics drawn from the pool alone, and the first word of
    /// maximal score is returned.
    #[verifier::loop_isolation(false)]
    pub fn guess(&self) -> (r: Result<Vec<u8>, SolverError>)
        requires
            self.wf(),
        ensures
            (r is Ok) <==> self.candidates().len() > 0,
            (r is Err) ==> r == Err::<Vec<u8>, SolverError>(SolverError::Unsolvable),
            self.candidates().len() == 1 ==> (r matches Ok(w) && w@ == self.candidates()[0]),
            self.candidates().len() >= 2 ==> (r matches Ok(w) && exists|k: int|
                self.is_first_best(k) && w@ == self.target_words@[k]@),
    {
        let ghost cv = self.candidates();
        let tlen = self.target_words.len();

        let mut cands: Vec<Vec<u8>> = Vec::new();
        let mut k: usize = 0;
        while k < tlen
            invariant
                k <= tlen,
                cands@.len() == self.cand_upto(k as int).len(),
                forall|m: int|
                    0 <= m < cands@.len() ==> (#[trigger] cands@[m])@ == self.cand_upto(
                        k as int,
                    )[m],
            decreases tlen - k,
        {
            if self.is_candidate_word(&self.target_words[k]) {
                cands.push(clone_word(&self.target_words[k]));
            }
            k += 1;
        }

        let ncand = cands.len();
        proof {
            self.lemma_cand_upto_props(tlen as int);
            assert(forall|m: int|
                0 <= m < cands@.len() ==> (#[trigger] cands@[m])@ == cv[m]);
            assert forall|m: int| 0 <= m < cv.len() implies (#[trigger] cv[m]).len()
                == self.word_len && (forall|p: int|
                0 <= p < cv[m].len() ==> is_lower(#[trigger] cv[m][p])) by {
                assert(self.is_candidate(cv[m]));
            }
        }

        if ncand == 0 {
            return Err(SolverError::Unsolvable);
        }
        if ncand == 1 {
            return Ok(clone_word(&cands[0]));
        }

        proof {
            assert((self.word_len + 26) * tlen <= usize::MAX);
            assert((self.word_len as int) * (ncand as int) <= ((self.word_len as int) + 26) * (
            tlen as int)) by (nonlinear_arith)
                requires
                    0 <= self.word_len as int,
                    0 <= ncand as int <= tlen as int,
            ;
            assert(2 * ncand <= 26 * (ncand as int)) by (nonlinear_arith)
                requires
                    0 <= ncand as int,
            ;
            assert(26 * (ncand as int) <= ((self.word_len as int) + 26) * (tlen as int))
                by (nonlinear_arith)
                requires
                    0 <= self.word_len as int,
                    0 <= ncand as int <= tlen as int,
            ;
            let hv = (cv.len() as int) / 2;
            assert(2 * hv <= ncand as int);
            assert(2 * (self.word_len as int) * hv <= (self.word_len as int) * (ncand as int))
                by (nonlinear_arith)
                requires
                    0 <= self.word_len as int,
                    0 <= hv,
                    2 * hv <= ncand as int,
            ;
        }

        let mut letter_freqs: Vec<Vec<usize>> = Vec::new();
        let mut i: usize = 0;
        while i < self.word_len
            invariant
                i <= self.word_len,
                letter_freqs@.len() == i,
                forall|ii: int| 0 <= ii < i ==> (#[trigger] letter_freqs@[ii])@.len() == 26,
                forall|ii: int, c: int|
                    0 <= ii < i && 0 <= c < 26 ==> #[trigger] letter_freqs@[ii]@[c]
                        == pos_score(cv, ii, ((c + 97) as u8)),
            decreases self.word_len - i,
        {
            let mut col: Vec<u8> = Vec::new();
            let mut m: usize = 0;
            while m < ncand
                invariant
                    m <= ncand,
                    i < self.word_len,
                    col@.len() == m,
                    forall|q: int| 0 <= q < m ==> #[trigger] col@[q] == cv[q][i as int],
                decreases ncand - m,
            {
                col.push(cands[m][i]);
                m += 1;
            }
            let mut h = counter(&col);
            proof {
                assert forall|c: int| 0 <= c < 26 implies #[trigger] h@[c] == count_at(
                    cv,
                    i as int,
                    (c + 97) as u8,
                ) && h@[c] <= ncand by {
                    lemma_column_count(cv, col@, i as int, (c + 97) as u8, ncand as int);
                    lemma_count_at_le(cv, i as int, (c + 97) as u8, ncand as int);
                }
            }
            let mut c: usize = 0;
            while c < 26
                invariant
                    c <= 26,
                    i < self.word_len,
                    h@.len() == 26,
                    forall|d: int|
                        c <= d < 26 ==> #[trigger] h@[d] == count_at(cv, i as int, (d + 97) as u8)
                            && h@[d] <= ncand,
                    forall|d: int|
                        0 <= d < c ==> #[trigger] h@[d] == pos_score(cv, i as int, (d + 97) as u8),
                decreases 26 - c,
            {
                h[c] = inv_dist(h[c], ncand);
                c += 1;
            }
            letter_freqs.push(h);
            i += 1;
        }

        let mut word_freq: Vec<usize> = Vec::new();
        let mut c: usize = 0;
        while c < 26
            invariant
                c <= 26,
                word_freq@.len() == c,
                forall|d: int|
                    0 <= d < c ==> #[trigger] word_freq@[d] == cov_score(cv, (d + 97) as u8),
            decreases 26 - c,
        {
            let b = (c as u8) + 97;
            let mut cnt: usize = 0;
            let mut m: usize = 0;
            while m < ncand
                invariant
                    m <= ncand,
                    b == (c + 97) as u8,
                    cnt == count_containing_upto(cv, b, m as int),
                    cnt <= m,
                decreases ncand - m,
            {
                if word_has_letter(&cands[m], b) {
                    cnt += 1;
                }
                m += 1;
            }
            word_freq.push(inv_dist(cnt, ncand));
            c += 1;
        }

        let mut best: usize = 0;
        let mut best_score = score_word(
            &self.target_words[0],
            &letter_freqs,
            &word_freq,
            Ghost(cv),
        );
        let mut k: usize = 1;
        while k < tlen
            invariant
                1 <= k <= tlen,
                best < k,
                best_score == word_score(cv, self.target_words@[best as int]@),
                forall|j: int|
                    0 <= j < k ==> word_score(cv, (#[trigger] self.target_words@[j])@)
                        <= best_score,
                forall|j: int|
                    0 <= j < best ==> word_score(cv, (#[trigger] self.target_words@[j])@)
                        < best_score,
            decreases tlen - k,
        {
            let s = score_word(&self.target_words[k], &letter_freqs, &word_freq, Ghost(cv));
            if s > best_score {
                best = k;
                best_score = s;
            }
            k += 1;
        }
        proof {
            assert(self.is_first_best(best as int));
        }
        Ok(clone_word(&self.target_words[best]))
    }
}

/// Heuristic score of `w`: positional scores summed over the positions,
/// plus coverage scores summed over the distinct letters of `w`, all read
/// from the precomputed tables.
#[verifier::loop_isolation(false)]
fn score_word(
    w: &Vec<u8>,
    freqs: &Vec<Vec<usize>>,
    cov: &Vec<usize>,
    cands: Ghost<Seq<Seq<u8>>>,
) -> (s: usize)
    requires
        forall|i: int| 0 <= i < w@.len() ==> is_lower(#[trigger] w@[i]),
        freqs@.len() == w@.len(),
        forall|i: int| 0 <= i < freqs@.len() ==> (#[trigger] freqs@[i])@.len() == 26,
        cov@.len() == 26,
        forall|i: int, c: int|
            0 <= i < freqs@.len() && 0 <= c < 26 ==> #[trigger] freqs@[i]@[c] == pos_score(
                cands@,
                i,
                ((c + 97) as u8),
            ),
        forall|c: int| 0 <= c < 26 ==> #[trigger] cov@[c] == cov_score(cands@, ((c + 97) as u8)),
        2 * w@.len() * (cands@.len() / 2) <= usize::MAX,
    ensures
        s == word_score(cands@, w@),
{
    let n = w.len();
    let ghost half = cands@.len() / 2;
    let mut s: usize = 0;
    let mut p: usize = 0;
    while p < n
        invariant
            p <= n,
            s == word_pos_upto(cands@, w@, p as int),
            s <= p * half,
        decreases n - p,
    {
        let d = (w[p] - 97) as usize;
        proof {
            lemma_pos_score_bounds(cands@, p as int, w@[p as int]);
            lemma_word_pos_upto_bounds(cands@, w@, p as int);
            assert((p + 1) * half == p * half + half && (p + 1) * half <= n * half && n * half
                <= 2 * n * half) by (nonlinear_arith)
                requires
                    0 <= half,
                    p + 1 <= n,
            ;
        }
        s = s + freqs[p][d];
        p += 1;
    }
    let ghost pos_total = s as int;
    let mut p: usize = 0;
    while p < n
        invariant
            p <= n,
            s == pos_total + word_cov_upto(cands@, w@, p as int),
            s <= n * half + p * half,
        decreases n - p,
    {
        let d = (w[p] - 97) as usize;
        let mut q: usize = 0;
        let mut rep = false;
        while q < p
            invariant
                q <= p,
                p < n,
                rep == exists|q2: int| 0 <= q2 < q && w@[q2] == w@[p as int],
            decreases p - q,
        {
            if w[q] == w[p] {
                rep = true;
            }
            q += 1;
        }
        proof {
            lemma_cov_score_bounds(cands@, w@[p as int]);
            lemma_word_cov_upto_bounds(cands@, w@, p as int);
            lemma_word_pos_upto_bounds(cands@, w@, n as int);
            assert((p + 1) * half == p * half + half && n * half + (p + 1) * half <= 2 * n
                * half) by (nonlinear_arith)
                requires
                    0 <= half,
                    0 <= p,
                    p + 1 <= n,
            ;
        }
        if !rep {
            s = s + cov[d];
        }
        p += 1;
    }
    s
}

/// The word `w` contains the byte `b` somewhere.
fn word_has_letter(w: &Vec<u8>, b: u8) -> (r: bool)
    requires
        is_lower(b),
    ensures
        r == contains_letter(w@, lidx(b)),
{
    let mut j: usize = 0;
    while j < w.len()
        invariant
            j <= w@.len(),
            forall|q: int| 0 <= q < j ==> w@[q] != b,
        decreases w@.len() - j,
    {
        if w[j] == b {
            return true;
        }
        j += 1;
    }
    false
}

/// A copy of the word `w`, byte for byte.
fn clone_word(w: &Vec<u8>) -> (r: Vec<u8>)
    ensures
        r@ == w@,
{
    let mut r: Vec<u8> = Vec::new();
    let mut j: usize = 0;
    while j < w.len()
        invariant
            j <= w@.len(),
            r@ == w@.subrange(0, j as int),
        decreases w@.len() - j,
    {
        r.push(w[j]);
        j += 1;
    }
    proof {
        assert(r@ =~= w@);
    }
    r
}

/// A row of 26 flags with exactly one set: the position is pinned to the
/// letter with alphabet index `d`.
fn singleton_row(d: usize) -> (row: Vec<bool>)
    requires
        d < 26,
    ensures
        row@.len() == 26,
        forall|e: int| 0 <= e < 26 ==> row@[e] == (e == d),
{
    let mut row: Vec<bool> = Vec::new();
    let mut e: usize = 0;
    while e < 26
        invariant
            row@.len() == e,
            e <= 26,
            forall|f: int| 0 <= f < e ==> row@[f] == (f == d),
        decreases 26 - e,
    {
        row.push(e == d);
        e += 1;
    }
    row
}

/// The guess `word` confirms the letter `l` somewhere: some position with
/// that letter got a non-absent mark.
fn elsewhere_hit(word: &Vec<u8>, result: &Vec<CharResult>, l: u8) -> (r: bool)
    requires
        is_lower(l),
        word@.len() == result@.len(),
        forall|i: int| 0 <= i < word@.len() ==> is_lower(#[trigger] word@[i]),
    ensures
        r == has_elsewhere(word@, result@, lidx(l)),
{
    let mut j: usize = 0;
    let mut found = false;
    while j < word.len()
        invariant
            j <= word@.len(),
            word@.len() == result@.len(),
            found == exists|k: int|
                0 <= k < j && lidx(#[trigger] word@[k]) == lidx(l) && result@[k]
                    != CharResult::Grey,
        decreases word@.len() - j,
    {
        let hit = word[j] == l && !matches!(result[j], CharResult::Grey);
        if hit {
            found = true;
        }
        j += 1;
    }
    found
}

/// A row of 26 flags, all set: the full alphabet is admissible.
fn full_row() -> (row: Vec<bool>)
    ensures
        row@.len() == 26,
        forall|d: int| 0 <= d < 26 ==> row@[d],
{
    let mut row: Vec<bool> = Vec::new();
    let mut d: usize = 0;
    while d < 26
        invariant
            row@.len() == d,
            d <= 26,
            forall|e: int| 0 <= e < d ==> row@[e],
        decreases 26 - d,
    {
        row.push(true);
        d += 1;
    }
    row
}

/// A row of 26 flags, all clear: no letter known to occur.
fn empty_flags() -> (row: Vec<bool>)
    ensures
        row@.len() == 26,
        forall|d: int| 0 <= d < 26 ==> !row@[d],
{
    let mut row: Vec<bool> = Vec::new();
    let mut d: usize = 0;
    while d < 26
        invariant
            row@.len() == d,
            d <= 26,
            forall|e: int| 0 <= e < d ==> !row@[e],
        decreases 26 - d,
    {
        row.push(false);
        d += 1;
    }
    row
}

} // verus!
