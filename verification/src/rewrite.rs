//! Whole-word rewriting: finding symbol references on word boundaries,
//! replacing every such reference by a value text, and finding the word
//! tokens that could still name a symbol.

use vstd::prelude::*;
use crate::text::{is_word_char, is_digit, word_char, digit_char};

verus! {

/// Whether `name` stands at `i` in `e` as a whole word: the characters match
/// and neither a word character precedes nor one follows the occurrence.
pub open spec fn word_match_at(e: Seq<char>, name: Seq<char>, i: int) -> bool {
    &&& name.len() > 0
    &&& 0 <= i
    &&& i + name.len() <= e.len()
    &&& e.subrange(i, i + name.len()) == name
    &&& (i == 0 || !is_word_char(e[i - 1]))
    &&& (i + name.len() == e.len() || !is_word_char(e[i + name.len()]))
}

/// The leftmost whole-word occurrence of `name` at or after `i`.
pub open spec fn first_match_from(e: Seq<char>, name: Seq<char>, i: int) -> Option<int>
    decreases e.len() - i when 0 <= i <= e.len()
{
    if i < 0 || i >= e.len() {
        None
    } else if word_match_at(e, name, i) {
        Some(i)
    } else {
        first_match_from(e, name, i + 1)
    }
}

/// Whether `name` occurs anywhere in `e` as a whole word.
pub open spec fn occurs_word(e: Seq<char>, name: Seq<char>) -> bool {
    first_match_from(e, name, 0) is Some
}

/// The text from `i` on, with every whole-word occurrence of `name` replaced
/// by `val`. Word boundaries are judged against the original text, so an
/// occurrence abutting an already-replaced one is not a whole word.
pub open spec fn subst_from(e: Seq<char>, name: Seq<char>, val: Seq<char>, i: int) -> Seq<char>
    decreases e.len() - i when 0 <= i <= e.len()
{
    if name.len() == 0 || i >= e.len() {
        e.subrange(i, e.len() as int)
    } else if word_match_at(e, name, i) {
        val + subst_from(e, name, val, i + name.len())
    } else {
        seq![e[i]] + subst_from(e, name, val, i + 1)
    }
}

/// The text with every whole-word occurrence of `name` replaced by `val`.
pub open spec fn subst_word(e: Seq<char>, name: Seq<char>, val: Seq<char>) -> Seq<char> {
    subst_from(e, name, val, 0)
}

/// Where no whole-word occurrence of `name` stands at or after `i`, the
/// rewrite from `i` leaves the text unchanged.
proof fn lemma_subst_from_absent(e: Seq<char>, name: Seq<char>, val: Seq<char>, i: int)
    requires
        0 <= i <= e.len(),
        first_match_from(e, name, i) is None,
    ensures
        subst_from(e, name, val, i) == e.subrange(i, e.len() as int),
    decreases e.len() - i,
{
    if name.len() == 0 || i >= e.len() {
    } else {
        lemma_subst_from_absent(e, name, val, i + 1);
        assert(subst_from(e, name, val, i) =~= e.subrange(i, e.len() as int));
    }
}

/// A symbol that does not occur as a whole word is not substituted: the
/// rewrite leaves the text identical. In particular a symbol name standing
/// only inside a longer word token is never replaced.
pub proof fn lemma_subst_absent_identity(e: Seq<char>, name: Seq<char>, val: Seq<char>)
    requires
        !occurs_word(e, name),
    ensures
        subst_word(e, name, val) == e,
{
    lemma_subst_from_absent(e, name, val, 0);
    assert(e.subrange(0, e.len() as int) =~= e);
}

/// The end of the run of word characters beginning at `i`.
pub open spec fn word_end(s: Seq<char>, i: int) -> int
    decreases s.len() - i when 0 <= i <= s.len()
{
    if 0 <= i < s.len() && is_word_char(s[i]) {
        word_end(s, i + 1)
    } else {
        i
    }
}

/// The leftmost word token at or after `i` that is shaped like an identifier,
/// that is, begins with a word character other than a digit.
pub open spec fn first_ident_from(e: Seq<char>, i: int) -> Option<Seq<char>>
    decreases e.len() - i when 0 <= i <= e.len()
{
    if i < 0 || i >= e.len() {
        None
    } else if is_word_char(e[i]) && !is_digit(e[i]) && (i == 0 || !is_word_char(e[i - 1])) {
        Some(e.subrange(i, word_end(e, i)))
    } else {
        first_ident_from(e, i + 1)
    }
}

/// The leftmost identifier-shaped token of the text.
pub open spec fn first_ident(e: Seq<char>) -> Option<Seq<char>> {
    first_ident_from(e, 0)
}

/// Executable test for a whole-word occurrence at `i`.
pub fn word_match_x(e: &Vec<char>, name: &Vec<char>, i: usize) -> (r: bool)
    requires
        i <= e.len(),
    ensures
        r == word_match_at(e@, name@, i as int),
{
    if name.len() == 0 || e.len() - i < name.len() {
        return false;
    }
    if i > 0 && word_char(e[i - 1]) {
        return false;
    }
    if i + name.len() < e.len() && word_char(e[i + name.len()]) {
        return false;
    }
    let mut k: usize = 0;
    while k < name.len()
        invariant
            0 <= k <= name.len(),
            i + name.len() <= e.len(),
            forall|m: int| 0 <= m < k ==> e@[i + m] == name@[m],
        decreases name.len() - k,
    {
        if e[i + k] != name[k] {
            assert(e@.subrange(i as int, i + name@.len()) != name@) by {
                assert(e@.subrange(i as int, i + name@.len())[k as int] != name@[k as int]);
            }
            return false;
        }
        k += 1;
    }
    proof {
        assert(e@.subrange(i as int, i + name@.len()) =~= name@);
    }
    true
}

/// Executable search for the leftmost whole-word occurrence.
pub fn first_match_x(e: &Vec<char>, name: &Vec<char>) -> (r: Option<usize>)
    ensures
        match r {
            Option::Some(i) => first_match_from(e@, name@, 0) == Option::Some(i as int),
            Option::None => first_match_from(e@, name@, 0) is None,
        },
{
    let mut i: usize = 0;
    while i < e.len()
        invariant
            0 <= i <= e.len(),
            first_match_from(e@, name@, 0) == first_match_from(e@, name@, i as int),
        decreases e.len() - i,
    {
        if word_match_x(e, name, i) {
            return Some(i);
        }
        i += 1;
    }
    None
}

/// Executable test for a whole-word occurrence anywhere in the text.
pub fn occurs_x(e: &Vec<char>, name: &Vec<char>) -> (r: bool)
    ensures
        r == occurs_word(e@, name@),
{
    first_match_x(e, name).is_some()
}

/// The text with every whole-word occurrence of `name` replaced by `val`:
/// the executable form of `subst_word`.
pub fn subst_x(e: &Vec<char>, name: &Vec<char>, val: &Vec<char>) -> (r: Vec<char>)
    ensures
        r@ == subst_word(e@, name@, val@),
{
    let mut out: Vec<char> = Vec::new();
    let mut i: usize = 0;
    if name.len() == 0 {
        proof {
            assert(subst_from(e@, name@, val@, 0) =~= e@);
        }
        return e.clone();
    }
    while i < e.len()
        invariant
            0 <= i <= e.len(),
            name@.len() > 0,
            out@ + subst_from(e@, name@, val@, i as int) == subst_from(e@, name@, val@, 0),
        decreases e.len() - i,
    {
        let ghost prev = out@;
        let ghost at = i as int;
        if word_match_x(e, name, i) {
            let mut k: usize = 0;
            while k < val.len()
                invariant
                    0 <= k <= val.len(),
                    out@ == prev + val@.take(k as int),
                decreases val.len() - k,
            {
                out.push(val[k]);
                proof {
                    assert(val@.take(k + 1 as int) =~= val@.take(k as int).push(val@[k as int]));
                    assert(prev + val@.take(k + 1 as int) =~= (prev + val@.take(k as int)).push(
                        val@[k as int],
                    ));
                }
                k += 1;
            }
            i += name.len();
            proof {
                assert(val@.take(val@.len() as int) =~= val@);
                assert(out@ + subst_from(e@, name@, val@, i as int) =~= prev + subst_from(
                    e@,
                    name@,
                    val@,
                    at,
                ));
            }
        } else {
            out.push(e[i]);
            i += 1;
            proof {
                assert(out@ + subst_from(e@, name@, val@, i as int) =~= prev + subst_from(
                    e@,
                    name@,
                    val@,
                    at,
                ));
            }
        }
    }
    proof {
        assert(subst_from(e@, name@, val@, e@.len() as int) =~= Seq::<char>::empty());
        assert(out@ + Seq::<char>::empty() =~= out@);
    }
    out
}

/// Executable search for the leftmost identifier-shaped token.
pub fn first_ident_x(e: &Vec<char>) -> (r: Option<Vec<char>>)
    ensures
        match r {
            Option::Some(t) => first_ident(e@) == Option::Some(t@),
            Option::None => first_ident(e@) is None,
        },
{
    let mut i: usize = 0;
    while i < e.len()
        invariant
            0 <= i <= e.len(),
            first_ident_from(e@, 0) == first_ident_from(e@, i as int),
        decreases e.len() - i,
    {
        if word_char(e[i]) && !digit_char(e[i]) && (i == 0 || !word_char(e[i - 1])) {
            let mut j: usize = i;
            while j < e.len() && word_char(e[j])
                invariant
                    i <= j <= e.len(),
                    word_end(e@, i as int) == word_end(e@, j as int),
                decreases e.len() - j,
            {
                j += 1;
            }
            let mut t: Vec<char> = Vec::new();
            let mut k: usize = i;
            while k < j
                invariant
                    i <= k <= j <= e.len(),
                    t@ == e@.subrange(i as int, k as int),
                decreases j - k,
            {
                t.push(e[k]);
                proof {
                    assert(e@.subrange(i as int, k + 1 as int) =~= e@.subrange(
                        i as int,
                        k as int,
                    ).push(e@[k as int]));
                }
                k += 1;
            }
            return Some(t);
        }
        i += 1;
    }
    None
}

/// The index that `first_match_from` returns does carry a whole-word match.
pub proof fn lemma_first_match_is_match(e: Seq<char>, name: Seq<char>, j: int, i: int)
    requires
        0 <= j <= e.len(),
        first_match_from(e, name, j) == Option::Some(i),
    ensures
        word_match_at(e, name, i),
        j <= i,
    decreases e.len() - j,
{
    if j >= e.len() {
    } else if word_match_at(e, name, j) {
    } else {
        lemma_first_match_is_match(e, name, j + 1, i);
    }
}

/// Where some identifier-shaped token starts at `i`, the scan from any
/// earlier point finds one.
pub proof fn lemma_token_start_found(e: Seq<char>, j: int, i: int)
    requires
        0 <= j <= i < e.len(),
        is_word_char(e[i]),
        !is_digit(e[i]),
        i == 0 || !is_word_char(e[i - 1]),
    ensures
        first_ident_from(e, j) is Some,
    decreases i - j,
{
    if is_word_char(e[j]) && !is_digit(e[j]) && (j == 0 || !is_word_char(e[j - 1])) {
    } else {
        lemma_token_start_found(e, j + 1, i);
    }
}

/// A whole-word occurrence of an identifier leaves an identifier-shaped
/// token in the text: where no such token stands, no identifier occurs.
pub proof fn lemma_ident_occurrence_implies_token(e: Seq<char>, name: Seq<char>)
    requires
        occurs_word(e, name),
        crate::text::is_ident(name),
    ensures
        first_ident(e) is Some,
{
    let i0 = first_match_from(e, name, 0)->0;
    lemma_first_match_is_match(e, name, 0, i0);
    assert(e.subrange(i0, i0 + name.len() as int)[0] == e[i0]);
    assert(e[i0] == name[0]);
    lemma_token_start_found(e, 0, i0);
}

} // verus!
