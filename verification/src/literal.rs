//! Numeric literals: recognizing plain decimal/scientific numbers and
//! stripping the single-letter float marker `f` that may trail one.
//!
//! A marker is stripped only where the whole shape is a numeric literal
//! standing on a word boundary: `5f`, `0.25f` and `1.2e3f` lose the `f`,
//! while identifiers such as `x2f` or `ROOMf`, and tokens such as `5ff`
//! whose `f` is followed by another word character, stay untouched.

use vstd::prelude::*;
use crate::text::{is_word_char, is_digit, word_char, digit_char, chars_of, string_of};

verus! {

/// The end of the run of decimal digits beginning at `i`.
pub open spec fn digits_end(s: Seq<char>, i: int) -> int
    decreases s.len() - i when 0 <= i <= s.len()
{
    if 0 <= i < s.len() && is_digit(s[i]) {
        digits_end(s, i + 1)
    } else {
        i
    }
}

pub proof fn lemma_digits_end_bounds(s: Seq<char>, i: int)
    requires
        0 <= i <= s.len(),
    ensures
        i <= digits_end(s, i) <= s.len(),
    decreases s.len() - i,
{
    if 0 <= i < s.len() && is_digit(s[i]) {
        lemma_digits_end_bounds(s, i + 1);
    }
}

/// The end of an optional exponent part (`e`, an optional sign, and at least
/// one digit) beginning at `j`; `j` itself if no complete exponent starts there.
pub open spec fn exp_end(s: Seq<char>, j: int) -> int {
    if 0 <= j < s.len() && s[j] == 'e' {
        let k = if j + 1 < s.len() && (s[j + 1] == '+' || s[j + 1] == '-') {
            j + 2
        } else {
            j + 1
        };
        if k < s.len() && is_digit(s[k]) {
            digits_end(s, k)
        } else {
            j
        }
    } else {
        j
    }
}

/// The end of the longest unsigned numeric literal beginning at `i`: digits,
/// an optional fractional part, and an optional exponent. Meaningful only
/// where a digit stands at `i`.
pub open spec fn lit_end(s: Seq<char>, i: int) -> int {
    let d = digits_end(s, i);
    let f = if d < s.len() && s[d] == '.' {
        digits_end(s, d + 1)
    } else {
        d
    };
    exp_end(s, f)
}

pub proof fn lemma_lit_end_bounds(s: Seq<char>, i: int)
    requires
        0 <= i < s.len(),
        is_digit(s[i]),
    ensures
        i < lit_end(s, i) <= s.len(),
{
    lemma_digits_end_bounds(s, i);
    let d = digits_end(s, i);
    assert(digits_end(s, i) == digits_end(s, i + 1));
    lemma_digits_end_bounds(s, i + 1);
    let f = if d < s.len() && s[d] == '.' {
        digits_end(s, d + 1)
    } else {
        d
    };
    if d < s.len() && s[d] == '.' {
        lemma_digits_end_bounds(s, d + 1);
    }
    if 0 <= f < s.len() && s[f] == 'e' {
        let k = if f + 1 < s.len() && (s[f + 1] == '+' || s[f + 1] == '-') {
            f + 2
        } else {
            f + 1
        };
        if k < s.len() && is_digit(s[k]) {
            lemma_digits_end_bounds(s, k);
        }
    }
}

/// Whether a suffixed numeric literal stands at `i`: a numeric literal on a
/// word boundary, followed immediately by the marker `f` on a word boundary.
pub open spec fn marker_match_at(s: Seq<char>, i: int) -> bool {
    &&& 0 <= i < s.len()
    &&& is_digit(s[i])
    &&& (i == 0 || !is_word_char(s[i - 1]))
    &&& {
        let j = lit_end(s, i);
        &&& j < s.len()
        &&& s[j] == 'f'
        &&& (j + 1 == s.len() || !is_word_char(s[j + 1]))
    }
}

/// The index of the marker `f` of the leftmost suffixed numeric literal
/// beginning at or after `i`.
pub open spec fn first_marker_from(s: Seq<char>, i: int) -> Option<int>
    decreases s.len() - i when 0 <= i <= s.len()
{
    if i < 0 || i >= s.len() {
        None
    } else if marker_match_at(s, i) {
        Some(lit_end(s, i))
    } else {
        first_marker_from(s, i + 1)
    }
}

/// Suffix normalization: the text with every float marker stripped, obtained
/// by removing the marker of the leftmost suffixed literal until none remains.
pub open spec fn norm(s: Seq<char>) -> Seq<char>
    decreases s.len(),
{
    match first_marker_from(s, 0) {
        Option::None => s,
        Option::Some(j) => {
            if 0 <= j < s.len() {
                norm(s.remove(j))
            } else {
                s
            }
        },
    }
}

/// Suffix normalization is idempotent: normalizing an already-normalized
/// text yields the identical text.
pub proof fn lemma_norm_idempotent(s: Seq<char>)
    ensures
        norm(norm(s)) == norm(s),
    decreases s.len(),
{
    match first_marker_from(s, 0) {
        Option::None => {},
        Option::Some(j) => {
            if 0 <= j < s.len() {
                lemma_norm_idempotent(s.remove(j));
            }
        },
    }
}

/// Whether the whole text is a plain number acceptable to the evaluator: an
/// optional sign, then either a digit-led literal (digits, optional fraction,
/// optional exponent) or a fraction-led one (`.` and digits, optional
/// exponent), reaching exactly to the end of the text.
pub open spec fn is_plain_number(s: Seq<char>) -> bool {
    let b: int = if s.len() > 0 && (s[0] == '+' || s[0] == '-') {
        1
    } else {
        0
    };
    ||| (b < s.len() && is_digit(s[b]) && lit_end(s, b) == s.len())
    ||| (b + 1 < s.len() && s[b] == '.' && is_digit(s[b + 1]) && exp_end(
        s,
        digits_end(s, b + 1),
    ) == s.len())
}

/// Executable digit-run scan.
pub fn digits_end_x(s: &Vec<char>, i: usize) -> (r: usize)
    requires
        i <= s.len(),
    ensures
        r == digits_end(s@, i as int),
        i <= r <= s.len(),
{
    let mut j: usize = i;
    while j < s.len() && digit_char(s[j])
        invariant
            i <= j <= s.len(),
            digits_end(s@, i as int) == digits_end(s@, j as int),
        decreases s.len() - j,
    {
        j += 1;
    }
    j
}

/// Executable exponent scan.
pub fn exp_end_x(s: &Vec<char>, j: usize) -> (r: usize)
    requires
        j <= s.len(),
    ensures
        r == exp_end(s@, j as int),
        j <= r <= s.len(),
{
    if j < s.len() && s[j] == 'e' {
        let k: usize = if j + 1 < s.len() && (s[j + 1] == '+' || s[j + 1] == '-') {
            j + 2
        } else {
            j + 1
        };
        if k < s.len() && digit_char(s[k]) {
            digits_end_x(s, k)
        } else {
            j
        }
    } else {
        j
    }
}

/// Executable literal scan.
pub fn lit_end_x(s: &Vec<char>, i: usize) -> (r: usize)
    requires
        i <= s.len(),
    ensures
        r == lit_end(s@, i as int),
        i <= r <= s.len(),
{
    let d = digits_end_x(s, i);
    let f: usize = if d < s.len() && s[d] == '.' {
        digits_end_x(s, d + 1)
    } else {
        d
    };
    exp_end_x(s, f)
}

/// Executable marker test.
pub fn marker_at_x(s: &Vec<char>, i: usize) -> (r: bool)
    requires
        i < s.len(),
    ensures
        r == marker_match_at(s@, i as int),
{
    if !digit_char(s[i]) {
        return false;
    }
    if i > 0 && word_char(s[i - 1]) {
        return false;
    }
    let j = lit_end_x(s, i);
    j < s.len() && s[j] == 'f' && (j + 1 == s.len() || !word_char(s[j + 1]))
}

/// Executable search for the leftmost marker.
pub fn first_marker_x(s: &Vec<char>) -> (r: Option<usize>)
    ensures
        match r {
            Option::Some(j) => first_marker_from(s@, 0) == Option::Some(j as int) && j < s.len(),
            Option::None => first_marker_from(s@, 0) is None,
        },
{
    let mut i: usize = 0;
    while i < s.len()
        invariant
            0 <= i <= s.len(),
            first_marker_from(s@, 0) == first_marker_from(s@, i as int),
        decreases s.len() - i,
    {
        if marker_at_x(s, i) {
            let j = lit_end_x(s, i);
            proof {
                lemma_lit_end_bounds(s@, i as int);
            }
            return Some(j);
        }
        i += 1;
    }
    None
}

/// Strips every float marker from the text: the executable form of `norm`.
pub fn normalize_chars(e: Vec<char>) -> (r: Vec<char>)
    ensures
        r@ == norm(e@),
{
    let mut cur = e;
    let ghost orig = cur@;
    loop
        invariant
            norm(cur@) == norm(orig),
        ensures
            norm(cur@) == norm(orig),
            first_marker_from(cur@, 0) is None,
        decreases cur@.len(),
    {
        match first_marker_x(&cur) {
            Some(j) => {
                cur.remove(j);
            },
            None => {
                break ;
            },
        }
    }
    proof {
        assert(norm(cur@) == cur@);
    }
    cur
}

/// Executable test for `is_plain_number`.
pub fn plain_number_x(s: &Vec<char>) -> (r: bool)
    ensures
        r == is_plain_number(s@),
{
    let b: usize = if s.len() > 0 && (s[0] == '+' || s[0] == '-') {
        1
    } else {
        0
    };
    if b < s.len() && digit_char(s[b]) {
        if lit_end_x(s, b) == s.len() {
            return true;
        }
    }
    b + 1 < s.len() && s[b] == '.' && digit_char(s[b + 1]) && {
        let d = digits_end_x(s, b + 1);
        exp_end_x(s, d) == s.len()
    }
}

/// Suffix normalization of a whole expression text, the public face of
/// `norm`: strips every float marker and changes nothing else.
pub fn normalize_text(s: &str) -> (r: String)
    ensures
        r@ == norm(s@),
{
    let cs = chars_of(s);
    let normalized = normalize_chars(cs);
    string_of(&normalized)
}

} // verus!
