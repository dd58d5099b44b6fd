//! Conversions between the string surface of the library and the unit
//! sequences (one `char` per script unit) that the engine edits, plus
//! small helpers over sequences of such words.
use vstd::prelude::*;
use vstd::string::StrSliceExecFns;

verus! {

/// The per-word views of a sequence of unit words.
pub open spec fn seq_views(s: Seq<Vec<char>>) -> Seq<Seq<char>> {
    s.map_values(|v: Vec<char>| v@)
}

/// The characters of `word`, one element per codepoint.
pub fn str_to_chars(word: &str) -> (r: Vec<char>)
    ensures
        r@ == word@,
{
    let n = word.unicode_len();
    let mut r: Vec<char> = Vec::new();
    let mut i: usize = 0;
    while i < n
        invariant
            i <= n,
            n == word@.len(),
            r@ == word@.subrange(0, i as int),
        decreases n - i,
    {
        r.push(word.get_char(i));
        proof {
            assert(r@ =~= word@.subrange(0, i + 1));
        }
        i = i + 1;
    }
    proof {
        assert(r@ =~= word@);
    }
    r
}

/// Relies on String's FromIterator implementation: collecting a vector of
/// characters yields the string of exactly those characters in order.
#[verifier::external_body]
pub(crate) fn chars_to_string(w: &Vec<char>) -> (r: String)
    ensures
        r@ == w@,
{
    w.iter().collect()
}

/// A copy of `w` with the same characters.
pub(crate) fn clone_word(w: &Vec<char>) -> (r: Vec<char>)
    ensures
        r@ == w@,
{
    let r = w.clone();
    proof {
        assert(r@ =~= w@);
    }
    r
}

/// Do two unit words hold the same characters?
pub(crate) fn word_eq(a: &Vec<char>, b: &Vec<char>) -> (r: bool)
    ensures
        r == (a@ == b@),
{
    if a.len() != b.len() {
        return false;
    }
    let n = a.len();
    let mut i: usize = 0;
    while i < n
        invariant
            i <= n,
            n == a@.len() == b@.len(),
            forall|j: int| 0 <= j < i ==> a@[j] == b@[j],
        decreases n - i,
    {
        if a[i] != b[i] {
            return false;
        }
        i = i + 1;
    }
    proof {
        assert(a@ =~= b@);
    }
    true
}

/// Membership in a pushed sequence is membership in the old sequence or
/// equality with the new element.
pub(crate) proof fn lemma_push_preserves_contains(s: Seq<Seq<char>>, x: Seq<char>)
    ensures
        forall|y: Seq<char>| #[trigger] s.contains(y) ==> s.push(x).contains(y),
        forall|y: Seq<char>| #[trigger] s.push(x).contains(y) ==> s.contains(y) || y == x,
        s.push(x).contains(x),
{
    assert forall|y: Seq<char>| #[trigger] s.contains(y) implies s.push(x).contains(y) by {
        let i = choose|i: int| 0 <= i < s.len() && s[i] == y;
        assert(s.push(x)[i] == y);
    }
    assert forall|y: Seq<char>| #[trigger] s.push(x).contains(y) implies s.contains(y) || y == x by {
        let i = choose|i: int| 0 <= i < s.push(x).len() && s.push(x)[i] == y;
        if i < s.len() {
            assert(s[i] == y);
        }
    }
    assert(s.push(x)[s.len() as int] == x);
}

/// Pushing a fresh element keeps a sequence duplicate-free.
pub(crate) proof fn lemma_no_dups_push(s: Seq<Seq<char>>, x: Seq<char>)
    requires
        s.no_duplicates(),
        !s.contains(x),
    ensures
        s.push(x).no_duplicates(),
{
    assert forall|i: int, j: int|
        0 <= i < s.push(x).len() && 0 <= j < s.push(x).len() && i != j implies s.push(x)[i]
        != s.push(x)[j] by {
        if i < s.len() && j < s.len() {
        } else if i < s.len() {
            if s[i] == x {
                assert(s.contains(x));
            }
        } else if j < s.len() {
            if s[j] == x {
                assert(s.contains(x));
            }
        }
    }
}

/// Append one candidate word.
pub(crate) fn push_word(r: &mut Vec<Vec<char>>, x: Vec<char>)
    ensures
        seq_views(final(r)@) == seq_views(old(r)@).push(x@),
{
    let ghost xv = x@;
    r.push(x);
    proof {
        assert(seq_views(r@) =~= seq_views(old(r)@).push(xv));
    }
}

/// Is some word of `v` made of exactly the characters of `w`?
pub(crate) fn contains_word(v: &Vec<Vec<char>>, w: &Vec<char>) -> (r: bool)
    ensures
        r == seq_views(v@).contains(w@),
{
    let n = v.len();
    let mut i: usize = 0;
    while i < n
        invariant
            i <= n,
            n == v@.len(),
            forall|k: int| 0 <= k < i ==> #[trigger] seq_views(v@)[k] != w@,
        decreases n - i,
    {
        if word_eq(&v[i], w) {
            proof {
                assert(seq_views(v@)[i as int] == w@);
            }
            return true;
        }
        i = i + 1;
    }
    proof {
        if seq_views(v@).contains(w@) {
            let k = choose|k: int| 0 <= k < seq_views(v@).len() && seq_views(v@)[k] == w@;
        }
    }
    false
}

/// Each word of `ws`, rendered as a string.
pub(crate) fn words_to_strings(ws: &Vec<Vec<char>>) -> (r: Vec<String>)
    ensures
        r.deep_view() == seq_views(ws@),
{
    let n = ws.len();
    let mut r: Vec<String> = Vec::new();
    let mut i: usize = 0;
    while i < n
        invariant
            i <= n,
            n == ws@.len(),
            r.deep_view() == seq_views(ws@).subrange(0, i as int),
        decreases n - i,
    {
        r.push(chars_to_string(&ws[i]));
        proof {
            assert(r.deep_view() =~= seq_views(ws@).subrange(0, i + 1));
        }
        i = i + 1;
    }
    proof {
        assert(r.deep_view() =~= seq_views(ws@));
    }
    r
}

} // verus!
