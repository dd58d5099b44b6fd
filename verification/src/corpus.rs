//! Corpus records: one word and one frequency per line, tab-separated.
//! Reading the file is the caller's business; this module turns a line
//! that was read into a (word, frequency) pair, skipping lines that do
//! not parse.
use vstd::prelude::*;
use crate::thai::is_ascii_digit_char;
use crate::words::chars_to_string;
use crate::words::str_to_chars;
use vstd::string::StringExecFns;

verus! {

/// Every character is an ASCII digit.
pub open spec fn all_digits(s: Seq<char>) -> bool {
    forall|k: int| 0 <= k < s.len() ==> is_ascii_digit_char(#[trigger] s[k])
}

/// The value of a digit string read in base ten.
pub open spec fn dec_value(s: Seq<char>) -> int
    decreases s.len(),
{
    if s.len() == 0 {
        0
    } else {
        dec_value(s.drop_last()) * 10 + (s.last() as u32 - 0x30)
    }
}

/// The digits of an unsigned decimal literal: an optional leading plus
/// sign is dropped.
pub open spec fn usize_digits_body(s: Seq<char>) -> Seq<char> {
    if s.len() > 0 && s[0] == '+' {
        s.drop_first()
    } else {
        s
    }
}

/// Does `s` spell an unsigned decimal number that fits a usize: an
/// optional plus sign, then digits only, with a value in range?
pub open spec fn is_usize_literal(s: Seq<char>) -> bool {
    let b = usize_digits_body(s);
    b.len() >= 1 && all_digits(b) && dec_value(b) <= usize::MAX as int
}

/// A digit string is worth no less than any of its prefixes, and no
/// less than zero.
proof fn lemma_dec_value_prefix(t: Seq<char>, k: int)
    requires
        0 <= k <= t.len(),
        all_digits(t),
    ensures
        0 <= dec_value(t.subrange(0, k)) <= dec_value(t),
    decreases t.len(),
{
    if t.len() == 0 {
        assert(t.subrange(0, k) =~= t);
    } else if k == t.len() {
        assert(t.subrange(0, k) =~= t);
        let p = t.drop_last();
        assert(all_digits(p));
        lemma_dec_value_prefix(p, p.len() as int);
        assert(is_ascii_digit_char(t.last()));
        assert(dec_value(t) >= dec_value(p)) by (nonlinear_arith)
            requires
                dec_value(t) == dec_value(p) * 10 + (t.last() as u32 - 0x30),
                dec_value(p) >= 0,
                t.last() as u32 >= 0x30,
        {}
    } else {
        let p = t.drop_last();
        assert(all_digits(p));
        assert(t.subrange(0, k) =~= p.subrange(0, k));
        lemma_dec_value_prefix(p, k);
        lemma_dec_value_prefix(p, p.len() as int);
        assert(p.subrange(0, p.len() as int) =~= p);
        assert(dec_value(t) >= dec_value(p)) by (nonlinear_arith)
            requires
                dec_value(t) == dec_value(p) * 10 + (t.last() as u32 - 0x30),
                dec_value(p) >= 0,
                t.last() as u32 >= 0x30,
        {}
    }
}

/// Parse the unsigned decimal literal held in `w`, if any: the optional
/// plus sign, digits to the very end, value within usize range.
fn parse_usize_units(w: &Vec<char>) -> (r: Option<usize>)
    ensures
        match r {
            Some(v) => is_usize_literal(w@) && v as int == dec_value(usize_digits_body(w@)),
            None => !is_usize_literal(w@),
        },
{
    let n = w.len();
    let start: usize = if n > 0 && w[0] == '+' {
        1
    } else {
        0
    };
    let ghost body = usize_digits_body(w@);
    proof {
        assert(body =~= w@.subrange(start as int, n as int));
    }
    if start == n {
        return None;
    }
    let mut acc: usize = 0;
    let mut j: usize = start;
    while j < n
        invariant
            start <= j <= n,
            n == w@.len(),
            body == w@.subrange(start as int, n as int),
            all_digits(w@.subrange(start as int, j as int)),
            acc as int == dec_value(w@.subrange(start as int, j as int)),
        decreases n - j,
    {
        let c = w[j];
        let u = c as u32;
        if !(0x30 <= u && u <= 0x39) {
            proof {
                assert(body[j - start] == w@[j as int]);
            }
            return None;
        }
        let d: usize = (u - 0x30) as usize;
        let ghost pre = w@.subrange(start as int, j as int);
        proof {
            assert(w@.subrange(start as int, j + 1) =~= pre.push(w@[j as int]));
            assert(pre.push(w@[j as int]).drop_last() =~= pre);
            assert(dec_value(w@.subrange(start as int, j + 1)) == dec_value(pre) * 10 + d);
        }
        if acc > (usize::MAX - d) / 10 {
            proof {
                assert(dec_value(w@.subrange(start as int, j + 1)) > usize::MAX as int)
                    by (nonlinear_arith)
                    requires
                        dec_value(w@.subrange(start as int, j + 1)) == acc as int * 10 + d as int,
                        acc as int > (usize::MAX as int - d as int) / 10,
                        0 <= d as int <= 9,
                {}
                if is_usize_literal(w@) {
                    lemma_dec_value_prefix(body, j + 1 - start);
                    assert(body.subrange(0, j + 1 - start) =~= w@.subrange(start as int, j + 1));
                }
            }
            return None;
        }
        proof {
            assert(acc as int * 10 + d as int <= usize::MAX as int) by (nonlinear_arith)
                requires
                    acc as int <= (usize::MAX as int - d as int) / 10,
                    0 <= d as int <= 9,
            {}
        }
        acc = acc * 10 + d;
        j = j + 1;
    }
    proof {
        assert(w@.subrange(start as int, n as int) =~= body);
    }
    Some(acc)
}

/// The first index at or after `i` holding a tab, or the length.
pub open spec fn first_tab(s: Seq<char>, i: int) -> int
    decreases s.len() - i,
    when 0 <= i <= s.len()
{
    if i < s.len() && s[i] != '\t' {
        first_tab(s, i + 1)
    } else {
        i
    }
}

/// What a corpus line yields: the text before the first tab as the
/// word, the field after it as the frequency — provided that second
/// field is an unsigned decimal literal in usize range.  Anything after
/// a second tab is ignored.
pub open spec fn spec_parse_line(s: Seq<char>) -> Option<(Seq<char>, int)> {
    let t1 = first_tab(s, 0);
    if t1 == s.len() {
        None
    } else {
        let t2 = first_tab(s, t1 + 1);
        let field = s.subrange(t1 + 1, t2);
        if is_usize_literal(field) {
            Some((s.subrange(0, t1), dec_value(usize_digits_body(field))))
        } else {
            None
        }
    }
}

#[verifier::loop_isolation(true)]
fn first_tab_exec(w: &Vec<char>, i: usize) -> (r: usize)
    requires
        i <= w@.len(),
    ensures
        r == first_tab(w@, i as int),
        i <= r <= w@.len(),
{
    let n = w.len();
    let mut j: usize = i;
    loop
        invariant
            i <= j <= n,
            n == w@.len(),
            first_tab(w@, i as int) == first_tab(w@, j as int),
        ensures
            i <= j <= n,
            j == first_tab(w@, i as int),
        decreases n - j,
    {
        if j == n {
            break ;
        }
        if w[j] == '\t' {
            break ;
        }
        j = j + 1;
    }
    j
}

/// The characters of `w` between `a` and `b`.
fn subword(w: &Vec<char>, a: usize, b: usize) -> (r: Vec<char>)
    requires
        a <= b <= w@.len(),
    ensures
        r@ == w@.subrange(a as int, b as int),
{
    let mut r: Vec<char> = Vec::new();
    let mut j: usize = a;
    while j < b
        invariant
            a <= j <= b,
            b <= w@.len(),
            r@ == w@.subrange(a as int, j as int),
        decreases b - j,
    {
        r.push(w[j]);
        proof {
            assert(r@ =~= w@.subrange(a as int, j + 1));
        }
        j = j + 1;
    }
    r
}

/// Split one corpus line into its word and its frequency, or nothing
/// when the line is not a record: no tab, or a frequency field that is
/// not an unsigned decimal number in range.
pub fn parse_corpus_line(line: &str) -> (r: Option<(String, usize)>)
    ensures
        match r {
            Some(p) => spec_parse_line(line@) == Some((p.0@, p.1 as int)),
            None => spec_parse_line(line@) is None,
        },
{
    let w = str_to_chars(line);
    let n = w.len();
    let t1 = first_tab_exec(&w, 0);
    if t1 == n {
        return None;
    }
    let t2 = first_tab_exec(&w, t1 + 1);
    let field = subword(&w, t1 + 1, t2);
    match parse_usize_units(&field) {
        Some(v) => {
            let word = subword(&w, 0, t1);
            Some((chars_to_string(&word), v))
        },
        None => None,
    }
}

/// The conventional location of the frequency corpus, relative to the
/// process's working directory.
pub fn tnc_freq_path() -> (r: Option<String>)
    ensures
        r matches Some(p) && p@ == "data/tnc_freq.txt"@,
{
    Some(String::from_str("data/tnc_freq.txt"))
}

} // verus!
