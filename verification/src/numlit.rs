//! Recognition of numeric literals: the strings the standard float
//! parser accepts.  Numbers are exempt from correction — they are never
//! treated as misspelled.
//!
//! The accepted language, after an optional leading sign, is either one
//! of the case-insensitive words `inf`, `infinity`, `nan`, or a number:
//!
//! ```text
//! Number ::= Digits '.'? Digits? Exp? | '.' Digits Exp?
//! Exp    ::= ('e' | 'E') Sign? Digits
//! Digits ::= Digit+
//! ```
use vstd::prelude::*;
use crate::thai::char_from_code;
use crate::thai::is_ascii_digit_char;
use crate::thai::lemma_char_code_injective;
use crate::words::str_to_chars;

verus! {

/// A leading sign character.
pub open spec fn is_sign(c: char) -> bool {
    c == '+' || c == '-'
}

/// An ASCII uppercase letter folded to lowercase; anything else kept.
pub open spec fn lower_char(c: char) -> char {
    if 0x41 <= c as u32 && c as u32 <= 0x5a {
        ((c as u32) + 32) as char
    } else {
        c
    }
}

/// The first index at or after `i` that does not hold an ASCII digit.
pub open spec fn end_of_digits(s: Seq<char>, i: int) -> int
    decreases s.len() - i,
    when 0 <= i <= s.len()
{
    if i < s.len() && is_ascii_digit_char(s[i]) {
        end_of_digits(s, i + 1)
    } else {
        i
    }
}

/// From `i` on, `s` holds a full exponent part: `e` or `E`, an optional
/// sign, then digits up to the end.
pub open spec fn exp_ok(s: Seq<char>, i: int) -> bool {
    i < s.len() && (s[i] == 'e' || s[i] == 'E') && {
        let j = if i + 1 < s.len() && is_sign(s[i + 1]) {
            i + 2
        } else {
            i + 1
        };
        j < s.len() && end_of_digits(s, j) == s.len()
    }
}

/// After the mantissa, either the string ends or an exponent follows.
pub open spec fn tail_ok(s: Seq<char>, i: int) -> bool {
    i == s.len() || exp_ok(s, i)
}

/// From `i` on, `s` holds a number: digits, an optional point with
/// optional further digits, and an optional exponent; or a point with
/// digits and an optional exponent.
pub open spec fn number_ok(s: Seq<char>, i: int) -> bool {
    let d1 = end_of_digits(s, i);
    if d1 == i {
        i < s.len() && s[i] == '.' && {
            let d2 = end_of_digits(s, i + 1);
            d2 > i + 1 && tail_ok(s, d2)
        }
    } else {
        if d1 < s.len() && s[d1] == '.' {
            tail_ok(s, end_of_digits(s, d1 + 1))
        } else {
            tail_ok(s, d1)
        }
    }
}

/// From `i` on, `s` spells `inf`, `infinity` or `nan`, in any case.
pub open spec fn special_ok(s: Seq<char>, i: int) -> bool {
    s.subrange(i, s.len() as int).map_values(|c: char| lower_char(c)) == seq!['i', 'n', 'f']
        || s.subrange(i, s.len() as int).map_values(|c: char| lower_char(c)) == seq![
        'i',
        'n',
        'f',
        'i',
        'n',
        'i',
        't',
        'y',
    ] || s.subrange(i, s.len() as int).map_values(|c: char| lower_char(c)) == seq!['n', 'a', 'n']
}

/// Is `s` a numeric literal: an optional sign followed by a special
/// word or a number?
pub open spec fn spec_is_numeric_literal(s: Seq<char>) -> bool {
    s.len() > 0 && {
        let i: int = if is_sign(s[0]) {
            1
        } else {
            0
        };
        special_ok(s, i) || number_ok(s, i)
    }
}

fn is_digit_exec(c: char) -> (r: bool)
    ensures
        r == is_ascii_digit_char(c),
{
    let u = c as u32;
    0x30 <= u && u <= 0x39
}

fn lower_exec(c: char) -> (r: char)
    ensures
        r == lower_char(c),
{
    let u = c as u32;
    if 0x41 <= u && u <= 0x5a {
        match char_from_code(u + 32) {
            Some(l) => {
                proof {
                    lemma_char_code_injective(l, lower_char(c));
                }
                l
            },
            None => {
                proof {
                    assert(false);
                }
                c
            },
        }
    } else {
        c
    }
}

#[verifier::loop_isolation(true)]
fn end_digits_exec(w: &Vec<char>, i: usize) -> (r: usize)
    requires
        i <= w@.len(),
    ensures
        r == end_of_digits(w@, i as int),
        i <= r <= w@.len(),
{
    let n = w.len();
    let mut j: usize = i;
    loop
        invariant
            i <= j <= n,
            n == w@.len(),
            end_of_digits(w@, i as int) == end_of_digits(w@, j as int),
        ensures
            i <= j <= n,
            j == end_of_digits(w@, i as int),
        decreases n - j,
    {
        if j == n {
            break ;
        }
        if !is_digit_exec(w[j]) {
            break ;
        }
        j = j + 1;
    }
    j
}

fn exp_ok_exec(w: &Vec<char>, i: usize) -> (r: bool)
    requires
        i <= w@.len(),
    ensures
        r == exp_ok(w@, i as int),
{
    let n = w.len();
    if i >= n {
        return false;
    }
    let c = w[i];
    if c != 'e' && c != 'E' {
        return false;
    }
    let j: usize = if i + 1 < n && (w[i + 1] == '+' || w[i + 1] == '-') {
        i + 2
    } else {
        i + 1
    };
    if j >= n {
        return false;
    }
    end_digits_exec(w, j) == n
}

fn tail_ok_exec(w: &Vec<char>, i: usize) -> (r: bool)
    requires
        i <= w@.len(),
    ensures
        r == tail_ok(w@, i as int),
{
    if i == w.len() {
        true
    } else {
        exp_ok_exec(w, i)
    }
}

fn number_ok_exec(w: &Vec<char>, i: usize) -> (r: bool)
    requires
        i <= w@.len(),
    ensures
        r == number_ok(w@, i as int),
{
    let n = w.len();
    let d1 = end_digits_exec(w, i);
    if d1 == i {
        if i < n && w[i] == '.' {
            let d2 = end_digits_exec(w, i + 1);
            d2 > i + 1 && tail_ok_exec(w, d2)
        } else {
            false
        }
    } else {
        if d1 < n && w[d1] == '.' {
            let d2 = end_digits_exec(w, d1 + 1);
            tail_ok_exec(w, d2)
        } else {
            tail_ok_exec(w, d1)
        }
    }
}

fn special_ok_exec(w: &Vec<char>, i: usize) -> (r: bool)
    requires
        i <= w@.len(),
    ensures
        r == special_ok(w@, i as int),
{
    let n = w.len();
    let ghost lowered = w@.subrange(i as int, w@.len() as int).map_values(
        |c: char| lower_char(c),
    );
    if n - i == 3 {
        let a = lower_exec(w[i]);
        let b = lower_exec(w[i + 1]);
        let c = lower_exec(w[i + 2]);
        let inf = a == 'i' && b == 'n' && c == 'f';
        let nan = a == 'n' && b == 'a' && c == 'n';
        proof {
            if inf {
                assert(lowered =~= seq!['i', 'n', 'f']);
            } else if nan {
                assert(lowered =~= seq!['n', 'a', 'n']);
            } else {
                assert(lowered.len() == 3);
                assert(lowered[0] == a && lowered[1] == b && lowered[2] == c);
            }
        }
        inf || nan
    } else if n - i == 8 {
        let ok = lower_exec(w[i]) == 'i' && lower_exec(w[i + 1]) == 'n' && lower_exec(w[i + 2])
            == 'f' && lower_exec(w[i + 3]) == 'i' && lower_exec(w[i + 4]) == 'n' && lower_exec(
            w[i + 5],
        ) == 'i' && lower_exec(w[i + 6]) == 't' && lower_exec(w[i + 7]) == 'y';
        proof {
            if ok {
                assert(lowered =~= seq!['i', 'n', 'f', 'i', 'n', 'i', 't', 'y']);
            } else {
                assert(lowered.len() == 8);
                assert(forall|k: int|
                    0 <= k < 8 ==> lowered[k] == lower_char(#[trigger] w@[i + k]));
            }
        }
        ok
    } else {
        proof {
            assert(lowered.len() != 3 && lowered.len() != 8);
        }
        false
    }
}

/// Does `word` parse as a numeric literal?
pub fn is_numeric_literal(word: &str) -> (r: bool)
    ensures
        r == spec_is_numeric_literal(word@),
{
    let w = str_to_chars(word);
    let n = w.len();
    if n == 0 {
        return false;
    }
    let i: usize = if w[0] == '+' || w[0] == '-' {
        1
    } else {
        0
    };
    special_ok_exec(&w, i) || number_ok_exec(&w, i)
}

} // verus!
