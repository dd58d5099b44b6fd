//! The edit generator: every string reachable from a word by one
//! single-unit edit — deletion, adjacent transposition, replacement by an
//! alphabet symbol, or insertion of an alphabet symbol — and, by pairing,
//! by two such edits.
use vstd::prelude::*;
use vstd::pervasive::VecAdditionalExecFns;
use crate::thai::is_alphabet;
use crate::thai::is_thai_letter;
use crate::words::clone_word;
use crate::words::lemma_push_preserves_contains;
use crate::words::push_word;
use crate::words::seq_views;

verus! {

/// `b` is `a` with one unit removed.
pub open spec fn is_deletion(a: Seq<char>, b: Seq<char>) -> bool {
    exists|i: int| 0 <= i < a.len() && b == #[trigger] a.remove(i)
}

/// `a` with the adjacent units at `i` and `i + 1` swapped.
pub open spec fn transposed(a: Seq<char>, i: int) -> Seq<char> {
    a.update(i, a[i + 1]).update(i + 1, a[i])
}

/// `b` is `a` with one adjacent pair of units swapped.
pub open spec fn is_transposition(a: Seq<char>, b: Seq<char>) -> bool {
    exists|i: int| 0 <= i && i + 1 < a.len() && b == #[trigger] transposed(a, i)
}

/// `b` is `a` with one unit replaced by an alphabet symbol.
pub open spec fn is_replacement(a: Seq<char>, b: Seq<char>) -> bool {
    exists|i: int, c: char|
        0 <= i < a.len() && is_thai_letter(c) && b == #[trigger] a.update(i, c)
}

/// `b` is `a` with one alphabet symbol inserted at some gap.
pub open spec fn is_insertion(a: Seq<char>, b: Seq<char>) -> bool {
    exists|i: int, c: char|
        0 <= i <= a.len() && is_thai_letter(c) && b == #[trigger] a.insert(i, c)
}

/// `b` is reachable from `a` by exactly one single-unit edit.
pub open spec fn is_edit1(a: Seq<char>, b: Seq<char>) -> bool {
    is_deletion(a, b) || is_transposition(a, b) || is_replacement(a, b) || is_insertion(a, b)
}

/// `b` is reachable from `a` by two single-unit edits.
pub open spec fn is_edit2(a: Seq<char>, b: Seq<char>) -> bool {
    exists|m: Seq<char>| #[trigger] is_edit1(a, m) && is_edit1(m, b)
}

/// Append every deletion variant of `w`.
fn push_deletions(r: &mut Vec<Vec<char>>, w: &Vec<char>)
    ensures
        forall|s: Seq<char>|
            #[trigger] seq_views(old(r)@).contains(s) ==> seq_views(final(r)@).contains(s),
        forall|s: Seq<char>|
            #[trigger] seq_views(final(r)@).contains(s) ==> seq_views(old(r)@).contains(s)
                || is_deletion(w@, s),
        forall|i: int| 0 <= i < w@.len() ==> seq_views(final(r)@).contains(#[trigger] w@.remove(i)),
{
    let n = w.len();
    let mut i: usize = 0;
    while i < n
        invariant
            i <= n,
            n == w@.len(),
            forall|s: Seq<char>|
                #[trigger] seq_views(old(r)@).contains(s) ==> seq_views(r@).contains(s),
            forall|s: Seq<char>|
                #[trigger] seq_views(r@).contains(s) ==> seq_views(old(r)@).contains(s)
                    || is_deletion(w@, s),
            forall|j: int| 0 <= j < i ==> seq_views(r@).contains(#[trigger] w@.remove(j)),
        decreases n - i,
    {
        let mut d = clone_word(w);
        let _ = d.remove(i);
        let ghost pre = seq_views(r@);
        proof {
            assert(d@ == w@.remove(i as int));
            lemma_push_preserves_contains(pre, d@);
        }
        push_word(r, d);
        proof {
            assert(is_deletion(w@, w@.remove(i as int)));
        }
        i = i + 1;
    }
}

/// Append every adjacent-transposition variant of `w`.
fn push_transpositions(r: &mut Vec<Vec<char>>, w: &Vec<char>)
    ensures
        forall|s: Seq<char>|
            #[trigger] seq_views(old(r)@).contains(s) ==> seq_views(final(r)@).contains(s),
        forall|s: Seq<char>|
            #[trigger] seq_views(final(r)@).contains(s) ==> seq_views(old(r)@).contains(s)
                || is_transposition(w@, s),
        forall|i: int|
            0 <= i && i + 1 < w@.len() ==> seq_views(final(r)@).contains(
                #[trigger] transposed(w@, i),
            ),
{
    let n = w.len();
    if n < 2 {
        return ;
    }
    let mut i: usize = 0;
    while i < n - 1
        invariant
            i <= n - 1,
            2 <= n == w@.len(),
            forall|s: Seq<char>|
                #[trigger] seq_views(old(r)@).contains(s) ==> seq_views(r@).contains(s),
            forall|s: Seq<char>|
                #[trigger] seq_views(r@).contains(s) ==> seq_views(old(r)@).contains(s)
                    || is_transposition(w@, s),
            forall|j: int| 0 <= j < i ==> seq_views(r@).contains(#[trigger] transposed(w@, j)),
        decreases n - i,
    {
        let a = w[i];
        let b = w[i + 1];
        let mut d = clone_word(w);
        d.set(i, b);
        d.set(i + 1, a);
        let ghost pre = seq_views(r@);
        proof {
            assert(d@ == transposed(w@, i as int));
            lemma_push_preserves_contains(pre, d@);
        }
        push_word(r, d);
        proof {
            assert(is_transposition(w@, transposed(w@, i as int)));
        }
        i = i + 1;
    }
}

/// Append every replacement of the unit at `i` by an alphabet symbol.
fn push_replacements_at(r: &mut Vec<Vec<char>>, w: &Vec<char>, alphabet: &Vec<char>, i: usize)
    requires
        i < w@.len(),
        is_alphabet(alphabet@),
    ensures
        forall|s: Seq<char>|
            #[trigger] seq_views(old(r)@).contains(s) ==> seq_views(final(r)@).contains(s),
        forall|s: Seq<char>|
            #[trigger] seq_views(final(r)@).contains(s) ==> seq_views(old(r)@).contains(s)
                || is_replacement(w@, s),
        forall|c: char|
            is_thai_letter(c) ==> seq_views(final(r)@).contains(#[trigger] w@.update(i as int, c)),
{
    let m = alphabet.len();
    let mut k: usize = 0;
    while k < m
        invariant
            k <= m,
            m == alphabet@.len(),
            i < w@.len(),
            forall|s: Seq<char>|
                #[trigger] seq_views(old(r)@).contains(s) ==> seq_views(r@).contains(s),
            forall|s: Seq<char>|
                #[trigger] seq_views(r@).contains(s) ==> seq_views(old(r)@).contains(s)
                    || is_replacement(w@, s),
            forall|k2: int|
                0 <= k2 < k ==> seq_views(r@).contains(
                    w@.update(i as int, #[trigger] alphabet@[k2]),
                ),
        decreases m - k,
    {
        let c = alphabet[k];
        let mut d = clone_word(w);
        d.set(i, c);
        let ghost pre = seq_views(r@);
        proof {
            assert(alphabet@.contains(c));
            assert(d@ == w@.update(i as int, c));
            lemma_push_preserves_contains(pre, d@);
        }
        push_word(r, d);
        proof {
            assert(is_replacement(w@, w@.update(i as int, c)));
        }
        k = k + 1;
    }
    proof {
        assert forall|c: char| is_thai_letter(c) implies seq_views(r@).contains(
            w@.update(i as int, c),
        ) by {
            assert(alphabet@.contains(c));
            let k2 = choose|k2: int| 0 <= k2 < alphabet@.len() && alphabet@[k2] == c;
            assert(seq_views(r@).contains(w@.update(i as int, alphabet@[k2])));
        }
    }
}

/// Append every replacement variant of `w`.
fn push_replacements(r: &mut Vec<Vec<char>>, w: &Vec<char>, alphabet: &Vec<char>)
    requires
        is_alphabet(alphabet@),
    ensures
        forall|s: Seq<char>|
            #[trigger] seq_views(old(r)@).contains(s) ==> seq_views(final(r)@).contains(s),
        forall|s: Seq<char>|
            #[trigger] seq_views(final(r)@).contains(s) ==> seq_views(old(r)@).contains(s)
                || is_replacement(w@, s),
        forall|i: int, c: char|
            0 <= i < w@.len() && is_thai_letter(c) ==> seq_views(final(r)@).contains(
                #[trigger] w@.update(i, c),
            ),
{
    let n = w.len();
    let mut i: usize = 0;
    while i < n
        invariant
            i <= n,
            n == w@.len(),
            forall|s: Seq<char>|
                #[trigger] seq_views(old(r)@).contains(s) ==> seq_views(r@).contains(s),
            forall|s: Seq<char>|
                #[trigger] seq_views(r@).contains(s) ==> seq_views(old(r)@).contains(s)
                    || is_replacement(w@, s),
            forall|j: int, c: char|
                0 <= j < i && is_thai_letter(c) ==> seq_views(r@).contains(
                    #[trigger] w@.update(j, c),
                ),
        decreases n - i,
    {
        push_replacements_at(r, w, alphabet, i);
        i = i + 1;
    }
}

/// Append every insertion of an alphabet symbol at gap `i`.
fn push_insertions_at(r: &mut Vec<Vec<char>>, w: &Vec<char>, alphabet: &Vec<char>, i: usize)
    requires
        i <= w@.len(),
        is_alphabet(alphabet@),
    ensures
        forall|s: Seq<char>|
            #[trigger] seq_views(old(r)@).contains(s) ==> seq_views(final(r)@).contains(s),
        forall|s: Seq<char>|
            #[trigger] seq_views(final(r)@).contains(s) ==> seq_views(old(r)@).contains(s)
                || is_insertion(w@, s),
        forall|c: char|
            is_thai_letter(c) ==> seq_views(final(r)@).contains(#[trigger] w@.insert(i as int, c)),
{
    let m = alphabet.len();
    let mut k: usize = 0;
    while k < m
        invariant
            k <= m,
            m == alphabet@.len(),
            i <= w@.len(),
            forall|s: Seq<char>|
                #[trigger] seq_views(old(r)@).contains(s) ==> seq_views(r@).contains(s),
            forall|s: Seq<char>|
                #[trigger] seq_views(r@).contains(s) ==> seq_views(old(r)@).contains(s)
                    || is_insertion(w@, s),
            forall|k2: int|
                0 <= k2 < k ==> seq_views(r@).contains(
                    w@.insert(i as int, #[trigger] alphabet@[k2]),
                ),
        decreases m - k,
    {
        let c = alphabet[k];
        let mut d = clone_word(w);
        d.insert(i, c);
        let ghost pre = seq_views(r@);
        proof {
            assert(alphabet@.contains(c));
            assert(d@ == w@.insert(i as int, c));
            lemma_push_preserves_contains(pre, d@);
        }
        push_word(r, d);
        proof {
            assert(is_insertion(w@, w@.insert(i as int, c)));
        }
        k = k + 1;
    }
    proof {
        assert forall|c: char| is_thai_letter(c) implies seq_views(r@).contains(
            w@.insert(i as int, c),
        ) by {
            assert(alphabet@.contains(c));
            let k2 = choose|k2: int| 0 <= k2 < alphabet@.len() && alphabet@[k2] == c;
            assert(seq_views(r@).contains(w@.insert(i as int, alphabet@[k2])));
        }
    }
}

/// Append every insertion variant of `w`.
fn push_insertions(r: &mut Vec<Vec<char>>, w: &Vec<char>, alphabet: &Vec<char>)
    requires
        is_alphabet(alphabet@),
    ensures
        forall|s: Seq<char>|
            #[trigger] seq_views(old(r)@).contains(s) ==> seq_views(final(r)@).contains(s),
        forall|s: Seq<char>|
            #[trigger] seq_views(final(r)@).contains(s) ==> seq_views(old(r)@).contains(s)
                || is_insertion(w@, s),
        forall|i: int, c: char|
            0 <= i <= w@.len() && is_thai_letter(c) ==> seq_views(final(r)@).contains(
                #[trigger] w@.insert(i, c),
            ),
{
    let n = w.len();
    let mut i: usize = 0;
    while i < n
        invariant
            i <= n,
            n == w@.len(),
            forall|s: Seq<char>|
                #[trigger] seq_views(old(r)@).contains(s) ==> seq_views(r@).contains(s),
            forall|s: Seq<char>|
                #[trigger] seq_views(r@).contains(s) ==> seq_views(old(r)@).contains(s)
                    || is_insertion(w@, s),
            forall|j: int, c: char|
                0 <= j < i && is_thai_letter(c) ==> seq_views(r@).contains(
                    #[trigger] w@.insert(j, c),
                ),
        decreases n - i,
    {
        push_insertions_at(r, w, alphabet, i);
        i = i + 1;
    }
    push_insertions_at(r, w, alphabet, n);
}

/// Every string reachable from `w` by one single-unit edit, and nothing
/// else.  The list may repeat a string; downstream known-word filtering
/// removes duplicates.
pub(crate) fn edits1_units(w: &Vec<char>, alphabet: &Vec<char>) -> (r: Vec<Vec<char>>)
    requires
        is_alphabet(alphabet@),
    ensures
        forall|s: Seq<char>| #[trigger] seq_views(r@).contains(s) <==> is_edit1(w@, s),
{
    let mut r: Vec<Vec<char>> = Vec::new();
    push_deletions(&mut r, w);
    push_transpositions(&mut r, w);
    push_replacements(&mut r, w, alphabet);
    push_insertions(&mut r, w, alphabet);
    proof {
        assert forall|s: Seq<char>| is_edit1(w@, s) implies seq_views(r@).contains(s) by {
            if is_deletion(w@, s) {
                let i = choose|i: int| 0 <= i < w@.len() && s == w@.remove(i);
                assert(seq_views(r@).contains(w@.remove(i)));
            } else if is_transposition(w@, s) {
                let i = choose|i: int| 0 <= i && i + 1 < w@.len() && s == transposed(w@, i);
                assert(seq_views(r@).contains(transposed(w@, i)));
            } else if is_replacement(w@, s) {
                let (i, c) = choose|i: int, c: char|
                    0 <= i < w@.len() && is_thai_letter(c) && s == w@.update(i, c);
                assert(seq_views(r@).contains(w@.update(i, c)));
            } else {
                let (i, c) = choose|i: int, c: char|
                    0 <= i <= w@.len() && is_thai_letter(c) && s == w@.insert(i, c);
                assert(seq_views(r@).contains(w@.insert(i, c)));
            }
        }
    }
    r
}

} // verus!
