//! The feedback oracle: scoring a guess against a secret word.
//!
//! For each position the oracle reports one of three results, using the
//! standard two-pass duplicate-letter accounting rule: exact matches first
//! consume a letter's budget (its occurrence count in the secret), then the
//! remaining positions are scanned left to right, each drawing on whatever
//! budget is left.

use vstd::prelude::*;
use crate::letters::count_eq;
use crate::letters::count_eq_upto;
use crate::letters::counter;
use crate::letters::is_lower;
use crate::letters::lemma_count_eq_upto_mono;

verus! {

/// Per-position feedback for one guessed letter.
///
/// `Grey` means absent (no budget left for this letter), `Yellow` means the
/// letter occurs in the secret but not at this position, `Green` means an
/// exact match.
#[derive(Debug, Copy, Clone, PartialEq, Eq, Structural)]
pub enum CharResult {
    Grey,
    Yellow,
    Green,
}

/// Number of exact matches of the byte `b` among the first `i` positions.
pub open spec fn green_upto(guess: Seq<u8>, secret: Seq<u8>, b: u8, i: int) -> nat
    decreases i,
{
    if i <= 0 {
        0
    } else {
        green_upto(guess, secret, b, i - 1) + (if guess[i - 1] == secret[i - 1] && secret[i - 1]
            == b {
            1nat
        } else {
            0nat
        })
    }
}

/// Budget of the byte `b` left for present-elsewhere marks after all exact
/// matches are accounted: occurrences in the secret minus exact matches.
pub open spec fn avail(guess: Seq<u8>, secret: Seq<u8>, b: u8) -> int {
    count_eq(secret, b) - green_upto(guess, secret, b, guess.len() as int)
}

/// Exact matches of `b` in a prefix never exceed the occurrences of `b`
/// in the same prefix of the secret.
pub proof fn lemma_green_upto_le(guess: Seq<u8>, secret: Seq<u8>, b: u8, i: int)
    requires
        0 <= i,
    ensures
        green_upto(guess, secret, b, i) <= count_eq_upto(secret, b, i),
    decreases i,
{
    if i > 0 {
        lemma_green_upto_le(guess, secret, b, i - 1);
    }
}

/// The budget left for a byte is never negative.
pub proof fn lemma_avail_nonneg(guess: Seq<u8>, secret: Seq<u8>, b: u8)
    requires
        guess.len() == secret.len(),
    ensures
        avail(guess, secret, b) >= 0,
{
    lemma_green_upto_le(guess, secret, b, guess.len() as int);
}

/// Number of present-elsewhere marks the byte `b` has received among the
/// first `i` positions of the second pass.
pub open spec fn yellow_upto(guess: Seq<u8>, secret: Seq<u8>, b: u8, i: int) -> nat
    decreases i,
{
    if i <= 0 {
        0
    } else {
        yellow_upto(guess, secret, b, i - 1) + (if guess[i - 1] == b && guess[i - 1] != secret[i
            - 1] && yellow_upto(guess, secret, b, i - 1) < avail(guess, secret, b) {
            1nat
        } else {
            0nat
        })
    }
}

/// A positive exact-match count names an exactly matching position.
pub proof fn lemma_green_upto_exists(guess: Seq<u8>, secret: Seq<u8>, b: u8, i: int)
    requires
        green_upto(guess, secret, b, i) > 0,
    ensures
        exists|j: int| 0 <= j < i && guess[j] == secret[j] && #[trigger] secret[j] == b,
    decreases i,
{
    if i > 0 {
        if guess[i - 1] == secret[i - 1] && secret[i - 1] == b {
            assert(0 <= i - 1 < i && guess[i - 1] == secret[i - 1] && secret[i - 1] == b);
        } else {
            lemma_green_upto_exists(guess, secret, b, i - 1);
        }
    }
}

/// A positive present-elsewhere count names a position that was marked
/// present-elsewhere.
pub proof fn lemma_yellow_upto_exists(guess: Seq<u8>, secret: Seq<u8>, b: u8, i: int)
    requires
        yellow_upto(guess, secret, b, i) > 0,
    ensures
        exists|j: int|
            0 <= j < i && #[trigger] guess[j] == b && guess[j] != secret[j] && yellow_upto(
                guess,
                secret,
                b,
                j,
            ) < avail(guess, secret, b),
    decreases i,
{
    if i > 0 {
        if guess[i - 1] == b && guess[i - 1] != secret[i - 1] && yellow_upto(guess, secret, b, i - 1)
            < avail(guess, secret, b) {
        } else {
            lemma_yellow_upto_exists(guess, secret, b, i - 1);
        }
    }
}

/// The feedback at position `i` under the two-pass rule.
pub open spec fn result_at(guess: Seq<u8>, secret: Seq<u8>, i: int) -> CharResult {
    if guess[i] == secret[i] {
        CharResult::Green
    } else if yellow_upto(guess, secret, guess[i], i) < avail(guess, secret, guess[i]) {
        CharResult::Yellow
    } else {
        CharResult::Grey
    }
}

/// The whole feedback sequence for a guess against a secret.
pub open spec fn spec_score(guess: Seq<u8>, secret: Seq<u8>) -> Seq<CharResult> {
    Seq::new(guess.len(), |i: int| result_at(guess, secret, i))
}

/// Score a guess against a secret word: per-position feedback following the
/// two-pass duplicate-letter rule.
pub fn score(guess: &Vec<u8>, word: &Vec<u8>) -> (r: Vec<CharResult>)
    requires
        guess@.len() == word@.len(),
        forall|i: int| 0 <= i < guess@.len() ==> is_lower(#[trigger] guess@[i]),
        forall|i: int| 0 <= i < word@.len() ==> is_lower(#[trigger] word@[i]),
    ensures
        r@ == spec_score(guess@, word@),
        r@.len() == guess@.len(),
{
    let n = word.len();
    let mut count = counter(word);

    let mut i: usize = 0;
    while i < n
        invariant
            i <= n,
            n == word@.len(),
            n == guess@.len(),
            count@.len() == 26,
            forall|j: int| 0 <= j < guess@.len() ==> is_lower(#[trigger] guess@[j]),
            forall|j: int| 0 <= j < word@.len() ==> is_lower(#[trigger] word@[j]),
            forall|d: int|
                0 <= d < 26 ==> #[trigger] count@[d] == count_eq(word@, (d + 97) as u8)
                    - green_upto(guess@, word@, (d + 97) as u8, i as int),
        decreases n - i,
    {
        if guess[i] == word[i] {
            let b = word[i];
            let d = (b - 97) as usize;
            proof {
                lemma_green_upto_le(guess@, word@, b, i + 1);
                lemma_count_eq_upto_mono(word@, b, i + 1, word@.len() as int);
            }
            count[d] = count[d] - 1;
        }
        i += 1;
    }

    proof {
        assert forall|d: int| 0 <= d < 26 implies (#[trigger] avail(guess@, word@, (d + 97) as u8)) >= 0 by {
            lemma_avail_nonneg(guess@, word@, (d + 97) as u8);
        }
    }
    let mut result: Vec<CharResult> = Vec::new();
    let mut i: usize = 0;
    while i < n
        invariant
            i <= n,
            n == word@.len(),
            n == guess@.len(),
            count@.len() == 26,
            result@.len() == i,
            forall|j: int| 0 <= j < guess@.len() ==> is_lower(#[trigger] guess@[j]),
            forall|j: int| 0 <= j < word@.len() ==> is_lower(#[trigger] word@[j]),
            forall|d: int|
                0 <= d < 26 ==> #[trigger] count@[d] == avail(guess@, word@, (d + 97) as u8)
                    - yellow_upto(guess@, word@, (d + 97) as u8, i as int),
            forall|d: int|
                0 <= d < 26 ==> #[trigger] yellow_upto(guess@, word@, (d + 97) as u8, i as int)
                    <= avail(guess@, word@, (d + 97) as u8),
            forall|j: int| 0 <= j < i ==> #[trigger] result@[j] == result_at(guess@, word@, j),
        decreases n - i,
    {
        proof {
            assert forall|d: int| 0 <= d < 26 implies (#[trigger] avail(guess@, word@, (d + 97) as u8)) >= 0 by {
                lemma_avail_nonneg(guess@, word@, (d + 97) as u8);
            }
        }
        if guess[i] == word[i] {
            result.push(CharResult::Green);
        } else {
            let b = guess[i];
            let d = (b - 97) as usize;
            if count[d] > 0 {
                result.push(CharResult::Yellow);
                count[d] = count[d] - 1;
            } else {
                result.push(CharResult::Grey);
            }
        }
        proof {
            assert forall|d: int|
                0 <= d < 26 implies #[trigger] yellow_upto(
                guess@,
                word@,
                (d + 97) as u8,
                i + 1,
            ) <= avail(guess@, word@, (d + 97) as u8) by {
                assert(count@[d] >= 0);
            }
        }
        i += 1;
    }
    proof {
        assert(result@ =~= spec_score(guess@, word@));
    }
    result
}

} // verus!
