//! The fixed Thai alphabet over which edits are generated, the character
//! classes used to validate dictionary words, and the word-acceptance
//! capability that a dictionary builder can be configured with.
use vstd::prelude::*;
use vstd::string::StrSliceExecFns;

verus! {

/// A symbol of the Thai edit alphabet: the 44 consonants together with
/// U+0E24 and U+0E26 fill the contiguous block U+0E01..=U+0E2E; the
/// remaining vowels, tone marks and signs fill U+0E2F..=U+0E3A and
/// U+0E40..=U+0E4E.  Thai digits (U+0E50..=U+0E59) are excluded.
pub open spec fn is_thai_letter(c: char) -> bool {
    (0x0e01 <= c as u32 && c as u32 <= 0x0e3a) || (0x0e40 <= c as u32 && c as u32 <= 0x0e4e)
}

/// A Thai digit, U+0E50..=U+0E59.
pub open spec fn is_thai_digit_char(c: char) -> bool {
    0x0e50 <= c as u32 && c as u32 <= 0x0e59
}

/// An ASCII digit.
pub open spec fn is_ascii_digit_char(c: char) -> bool {
    0x30 <= c as u32 && c as u32 <= 0x39
}

fn is_thai_char(c: char) -> (r: bool)
    ensures
        r == is_thai_letter(c),
{
    let u = c as u32;
    (0x0e01 <= u && u <= 0x0e3a) || (0x0e40 <= u && u <= 0x0e4e)
}

fn is_thai_digit(c: char) -> (r: bool)
    ensures
        r == is_thai_digit_char(c),
{
    let u = c as u32;
    0x0e50 <= u && u <= 0x0e59
}

fn is_digit(c: char) -> (r: bool)
    ensures
        r == is_ascii_digit_char(c),
{
    let u = c as u32;
    0x30 <= u && u <= 0x39
}

/// A word passes the Thai check when every character is a Thai letter or
/// a full stop.  No digit, Thai or ASCII, is a Thai letter or a full
/// stop, so such a word never contains a digit.
pub open spec fn spec_is_thai_and_not_num(w: Seq<char>) -> bool {
    forall|j: int| 0 <= j < w.len() ==> (w[j] == '.' || is_thai_letter(#[trigger] w[j]))
}

/// Does every character of `word` belong to the Thai alphabet (a full
/// stop is tolerated), with no Thai or ASCII digit anywhere?
pub fn is_thai_and_not_num(word: &str) -> (r: bool)
    ensures
        r == spec_is_thai_and_not_num(word@),
{
    let n = word.unicode_len();
    let mut i: usize = 0;
    while i < n
        invariant
            i <= n,
            n == word@.len(),
            forall|j: int| 0 <= j < i ==> (word@[j] == '.' || is_thai_letter(#[trigger] word@[j])),
        decreases n - i,
    {
        let c = word.get_char(i);
        if c != '.' && !is_thai_char(c) {
            return false;
        }
        if is_thai_digit(c) || is_digit(c) {
            return false;
        }
        i += 1;
    }
    true
}

/// An acceptance test over words, injected into dictionary construction
/// so that other scripts or constraints can be substituted.
pub trait WordFilter {
    /// What the filter accepts, as a predicate over the word's characters.
    spec fn spec_accept(&self, w: Seq<char>) -> bool;

    /// Decide whether `word` is acceptable as a dictionary key.
    fn accept(&self, word: &str) -> (r: bool)
        ensures
            r == self.spec_accept(word@),
    ;
}

/// The standard filter for this library: Thai letters only, no digits.
pub struct ThaiWordFilter;

impl WordFilter for ThaiWordFilter {
    open spec fn spec_accept(&self, w: Seq<char>) -> bool {
        spec_is_thai_and_not_num(w)
    }

    fn accept(&self, word: &str) -> (r: bool) {
        is_thai_and_not_num(word)
    }
}

/// Relies on char::from_u32, documented to return the character with the
/// given code exactly when the code is a Unicode scalar value, and None
/// for surrogate codes (U+D800..=U+DFFF) and codes above char::MAX.
#[verifier::external_body]
pub(crate) fn char_from_code(code: u32) -> (r: Option<char>)
    ensures
        r matches Some(c) ==> c as u32 == code,
        code < 0xd800 ==> r is Some,
{
    char::from_u32(code)
}

/// Two characters with the same scalar value are the same character.
pub(crate) proof fn lemma_char_code_injective(a: char, b: char)
    requires
        a as u32 == b as u32,
    ensures
        a == b,
{
}

/// A sequence fit to serve as the substitution and insertion vocabulary:
/// it holds exactly the Thai letters.
pub open spec fn is_alphabet(al: Seq<char>) -> bool {
    forall|c: char| #[trigger] al.contains(c) <==> is_thai_letter(c)
}

/// The substitution and insertion vocabulary: every Thai letter once, in
/// codepoint order.
pub fn thai_alphabet() -> (r: Vec<char>)
    ensures
        is_alphabet(r@),
{
    let mut r: Vec<char> = Vec::new();
    let mut u: u32 = 0x0e01;
    while u <= 0x0e3a
        invariant
            0x0e01 <= u <= 0x0e3b,
            r@.len() == u - 0x0e01,
            forall|k: int| 0 <= k < r@.len() ==> (#[trigger] r@[k]) as u32 == 0x0e01 + k,
        decreases 0x0e3b - u,
    {
        match char_from_code(u) {
            Some(c) => {
                r.push(c);
            },
            None => {
                proof {
                    assert(false);
                }
            },
        }
        u = u + 1;
    }
    let mut v: u32 = 0x0e40;
    while v <= 0x0e4e
        invariant
            0x0e40 <= v <= 0x0e4f,
            r@.len() == 58 + (v - 0x0e40),
            forall|k: int| 0 <= k < 58 ==> (#[trigger] r@[k]) as u32 == 0x0e01 + k,
            forall|k: int| 58 <= k < r@.len() ==> (#[trigger] r@[k]) as u32 == 0x0e40 + (k - 58),
        decreases 0x0e4f - v,
    {
        match char_from_code(v) {
            Some(c) => {
                r.push(c);
            },
            None => {
                proof {
                    assert(false);
                }
            },
        }
        v = v + 1;
    }
    proof {
        assert forall|c: char| r@.contains(c) implies is_thai_letter(c) by {
            let k = choose|k: int| 0 <= k < r@.len() && r@[k] == c;
            assert(r@[k] as u32 == c as u32);
        }
        assert forall|c: char| is_thai_letter(c) implies r@.contains(c) by {
            if c as u32 <= 0x0e3a {
                let k = c as u32 - 0x0e01;
                assert(r@[k as int] as u32 == c as u32);
                lemma_char_code_injective(r@[k as int], c);
                assert(r@[k as int] == c);
            } else {
                let k = 58 + (c as u32 - 0x0e40);
                assert(r@[k as int] as u32 == c as u32);
                lemma_char_code_injective(r@[k as int], c);
                assert(r@[k as int] == c);
            }
        }
    }
    r
}

} // verus!
