//! Letters, words, and letter counting.
//!
//! A word is a `Vec<u8>` of lowercase ASCII letters. Letters are identified
//! by their index in the 26-letter alphabet: `b'a'` has index 0, `b'z'` has
//! index 25.

use vstd::prelude::*;

verus! {

/// `b` is a lowercase ASCII letter.
pub open spec fn is_lower(b: u8) -> bool {
    97 <= b <= 122
}

/// Alphabet index of the letter `b` (0 for `b'a'`, 25 for `b'z'`).
pub open spec fn lidx(b: u8) -> int {
    b - 97
}

/// A word of length `len`: lowercase letters only.
pub open spec fn word_ok(w: Seq<u8>, len: int) -> bool {
    &&& w.len() == len
    &&& forall|i: int| 0 <= i < w.len() ==> is_lower(#[trigger] w[i])
}

/// The word `w` contains the letter with alphabet index `c` somewhere.
pub open spec fn contains_letter(w: Seq<u8>, c: int) -> bool {
    exists|j: int| 0 <= j < w.len() && lidx(#[trigger] w[j]) == c
}

/// Number of occurrences of the byte `b` among the first `i` entries of `s`.
pub open spec fn count_eq_upto(s: Seq<u8>, b: u8, i: int) -> nat
    decreases i,
{
    if i <= 0 {
        0
    } else {
        count_eq_upto(s, b, i - 1) + (if s[i - 1] == b {
            1nat
        } else {
            0nat
        })
    }
}

/// Number of occurrences of the byte `b` in the whole of `s`.
pub open spec fn count_eq(s: Seq<u8>, b: u8) -> nat {
    count_eq_upto(s, b, s.len() as int)
}

/// A prefix count never exceeds the number of entries counted.
pub proof fn lemma_count_eq_upto_le(s: Seq<u8>, b: u8, i: int)
    requires
        0 <= i,
    ensures
        count_eq_upto(s, b, i) <= i,
    decreases i,
{
    if i > 0 {
        lemma_count_eq_upto_le(s, b, i - 1);
    }
}

/// Prefix counts are monotone in the prefix length.
pub proof fn lemma_count_eq_upto_mono(s: Seq<u8>, b: u8, i: int, j: int)
    requires
        0 <= i <= j,
    ensures
        count_eq_upto(s, b, i) <= count_eq_upto(s, b, j),
    decreases j,
{
    if i < j {
        lemma_count_eq_upto_mono(s, b, i, j - 1);
    }
}

/// An occurrence inside the counted prefix makes the count positive.
pub proof fn lemma_count_eq_upto_pos(s: Seq<u8>, b: u8, i: int, p: int)
    requires
        0 <= p < i,
        s[p] == b,
    ensures
        count_eq_upto(s, b, i) >= 1,
    decreases i,
{
    if p < i - 1 {
        lemma_count_eq_upto_pos(s, b, i - 1, p);
    }
}

/// A positive count names an occurrence inside the counted prefix.
pub proof fn lemma_count_eq_upto_exists(s: Seq<u8>, b: u8, i: int)
    requires
        count_eq_upto(s, b, i) > 0,
    ensures
        exists|p: int| 0 <= p < i && s[p] == b,
    decreases i,
{
    if i > 0 {
        if s[i - 1] == b {
            assert(0 <= i - 1 < i && s[i - 1] == b);
        } else {
            lemma_count_eq_upto_exists(s, b, i - 1);
        }
    }
}

/// Per-letter occurrence counts of a word: entry `c` is the number of
/// positions of `word` holding the letter with alphabet index `c`.
pub fn counter(word: &Vec<u8>) -> (h: Vec<usize>)
    requires
        forall|i: int| 0 <= i < word@.len() ==> is_lower(#[trigger] word@[i]),
    ensures
        h@.len() == 26,
        forall|c: int|
            0 <= c < 26 ==> #[trigger] h@[c] == count_eq(word@, (c + 97) as u8),
{
    let mut h: Vec<usize> = Vec::new();
    let mut c: usize = 0;
    while c < 26
        invariant
            h@.len() == c,
            c <= 26,
            forall|d: int| 0 <= d < c ==> #[trigger] h@[d] == 0,
        decreases 26 - c,
    {
        h.push(0);
        c += 1;
    }
    let mut i: usize = 0;
    while i < word.len()
        invariant
            i <= word@.len(),
            h@.len() == 26,
            forall|j: int| 0 <= j < word@.len() ==> is_lower(#[trigger] word@[j]),
            forall|d: int|
                0 <= d < 26 ==> #[trigger] h@[d] == count_eq_upto(word@, (d + 97) as u8, i as int),
        decreases word@.len() - i,
    {
        proof {
            lemma_count_eq_upto_le(word@, word@[i as int], i as int);
        }
        let b = word[i];
        let d = (b - 97) as usize;
        h[d] = h[d] + 1;
        i += 1;
    }
    h
}

} // verus!
