//! Laws of the corrector, stated over the dictionary model and the
//! cascade contract and proved once and for all.
use vstd::prelude::*;
use crate::checker::is_known_edit1;
use crate::checker::is_known_edit2;
use crate::checker::spell_post;
use crate::dict::contains_key;
use crate::dict::distinct_keys;
use crate::dict::freq_of;
use crate::dict::lemma_freq_first_match;
use crate::dict::spec_keep;
use crate::thai::WordFilter;

verus! {

/// Every member of a filtered sequence is a member of the original that
/// satisfies the predicate.
proof fn lemma_filter_subset<A>(s: Seq<A>, pred: spec_fn(A) -> bool)
    ensures
        forall|x: A| #[trigger] s.filter(pred).contains(x) ==> s.contains(x) && pred(x),
    decreases s.len(),
{
    reveal(Seq::filter);
    if s.len() > 0 {
        lemma_filter_subset(s.drop_last(), pred);
        assert forall|x: A| #[trigger] s.filter(pred).contains(x) implies s.contains(x) && pred(
            x,
        ) by {
            let f = s.filter(pred);
            let sub = s.drop_last().filter(pred);
            let i = choose|i: int| 0 <= i < f.len() && f[i] == x;
            if pred(s.last()) && i == f.len() - 1 {
                assert(s[s.len() - 1] == x);
            } else {
                assert(sub[i] == x);
                assert(sub.contains(x));
                let j = choose|j: int| 0 <= j < s.drop_last().len() && s.drop_last()[j] == x;
                assert(s[j] == x);
            }
        }
    }
}

/// A word present in the dictionary is its own correction: the cascade
/// returns exactly that word, first and alone.
pub proof fn lemma_spell_known_word(d: Seq<(Seq<char>, usize)>, w: Seq<char>, out: Seq<Seq<char>>)
    requires
        spell_post(d, w, out),
        contains_key(d, w),
    ensures
        out == seq![w],
        out.len() == 1,
        out[0] == w,
{
}

/// The known-word filter returns a subset of its input: exactly the
/// members of the input that are dictionary keys.
pub proof fn lemma_known_words_intersection(
    d: Seq<(Seq<char>, usize)>,
    words: Seq<Seq<char>>,
    out: Seq<Seq<char>>,
)
    requires
        out == words.filter(|w: Seq<char>| contains_key(d, w)),
    ensures
        forall|s: Seq<char>| #[trigger] out.contains(s) ==> words.contains(s),
        forall|s: Seq<char>| #[trigger] out.contains(s) <==> words.contains(s) && contains_key(
            d,
            s,
        ),
{
    let pred = |w: Seq<char>| contains_key(d, w);
    lemma_filter_subset(words, pred);
    assert forall|s: Seq<char>| words.contains(s) && contains_key(d, s) implies #[trigger] out
        .contains(s) by {
        let i = choose|i: int| 0 <= i < words.len() && words[i] == s;
        assert(pred(words[i]));
        assert(words.filter(pred).contains(words[i]));
    }
}

/// When the word itself is unknown and exactly one known word lies at
/// edit distance one, the cascade returns that neighbour alone — never a
/// distance-two candidate.
pub proof fn lemma_spell_unique_neighbor(
    d: Seq<(Seq<char>, usize)>,
    w: Seq<char>,
    n: Seq<char>,
    out: Seq<Seq<char>>,
)
    requires
        spell_post(d, w, out),
        !contains_key(d, w),
        is_known_edit1(d, w, n),
        forall|s: Seq<char>| is_known_edit1(d, w, s) ==> s == n,
    ensures
        out == seq![n],
{
    assert(out.contains(n));
    let i = choose|i: int| 0 <= i < out.len() && out[i] == n;
    assert forall|j: int| 0 <= j < out.len() implies out[j] == n by {
        assert(out.contains(out[j]));
    }
    if out.len() > 1 {
        assert(out[0] == n && out[1] == n);
        assert(!out.no_duplicates());
    }
    assert(out =~= seq![n]);
}

/// Every key of a table whose entries all survive the filter
/// configuration itself survives it, with its recorded frequency.
pub proof fn lemma_key_kept<F: WordFilter>(
    d: Seq<(Seq<char>, usize)>,
    s: Seq<char>,
    min_freq: usize,
    min_len: usize,
    max_len: usize,
    dict_filter: Option<&F>,
)
    requires
        distinct_keys(d),
        forall|i: int|
            0 <= i < d.len() ==> spec_keep(
                (#[trigger] d[i]).0,
                d[i].1,
                min_freq,
                min_len,
                max_len,
                dict_filter,
            ),
        contains_key(d, s),
    ensures
        spec_keep(s, freq_of(d, s), min_freq, min_len, max_len, dict_filter),
{
    let i = choose|i: int| 0 <= i < d.len() && d[i].0 == s;
    assert forall|k: int| 0 <= k < i implies (#[trigger] d[k]).0 != s by {
        assert(d[k].0 != d[i].0);
    }
    lemma_freq_first_match(d, s, i);
}

/// A pair rejected by the filter configuration never surfaces again:
/// every word the cascade returns, other than the input word echoed
/// back, is a dictionary key and so survives the configuration.
pub proof fn lemma_spell_only_kept_words<F: WordFilter>(
    d: Seq<(Seq<char>, usize)>,
    w: Seq<char>,
    out: Seq<Seq<char>>,
    min_freq: usize,
    min_len: usize,
    max_len: usize,
    dict_filter: Option<&F>,
)
    requires
        distinct_keys(d),
        forall|i: int|
            0 <= i < d.len() ==> spec_keep(
                (#[trigger] d[i]).0,
                d[i].1,
                min_freq,
                min_len,
                max_len,
                dict_filter,
            ),
        spell_post(d, w, out),
    ensures
        forall|s: Seq<char>|
            #[trigger] out.contains(s) && s != w ==> contains_key(d, s) && spec_keep(
                s,
                freq_of(d, s),
                min_freq,
                min_len,
                max_len,
                dict_filter,
            ),
{
    assert forall|s: Seq<char>| #[trigger] out.contains(s) && s != w implies contains_key(d, s)
        && spec_keep(s, freq_of(d, s), min_freq, min_len, max_len, dict_filter) by {
        if contains_key(d, w) {
            assert(out == seq![w]);
            assert(s == out[0]);
        } else if exists|t: Seq<char>| is_known_edit1(d, w, t) {
            assert(is_known_edit1(d, w, s));
            lemma_key_kept(d, s, min_freq, min_len, max_len, dict_filter);
        } else if exists|t: Seq<char>| is_known_edit2(d, w, t) {
            assert(is_known_edit2(d, w, s));
            lemma_key_kept(d, s, min_freq, min_len, max_len, dict_filter);
        } else {
            assert(out == seq![w]);
            assert(s == out[0]);
        }
    }
}

/// Over an empty dictionary nothing is known: the cascade always falls
/// back to the input word, and every frequency is zero.
pub proof fn lemma_empty_dictionary(d: Seq<(Seq<char>, usize)>, w: Seq<char>, out: Seq<Seq<char>>)
    requires
        d.len() == 0,
        spell_post(d, w, out),
    ensures
        out == seq![w],
        forall|s: Seq<char>| #[trigger] freq_of(d, s) == 0,
{
    assert forall|s: Seq<char>| !contains_key(d, s) && #[trigger] freq_of(d, s) == 0 by {
        if contains_key(d, s) {
            let i = choose|i: int| 0 <= i < d.len() && d[i].0 == s;
        }
    }
    assert(!(exists|s: Seq<char>| is_known_edit1(d, w, s)));
    assert(!(exists|s: Seq<char>| is_known_edit2(d, w, s)));
}

} // verus!
