//! The dictionary model: an association list from words (unit sequences)
//! to frequencies, the filter configuration that admits a pair into the
//! table, and the fold that builds a table from raw pairs.
use vstd::prelude::*;
use crate::thai::WordFilter;

verus! {

/// Does the pair `(w, f)` survive the filter configuration?  A pair is
/// kept exactly when its frequency reaches `min_freq`, the word is
/// non-empty with unit length inside `[min_len, max_len]`, the word does
/// not begin with the sentence terminator, and the optional acceptance
/// predicate (when present) accepts the word.
pub open spec fn spec_keep<F: WordFilter>(
    w: Seq<char>,
    f: usize,
    min_freq: usize,
    min_len: usize,
    max_len: usize,
    dict_filter: Option<&F>,
) -> bool {
    &&& f >= min_freq
    &&& w.len() >= 1
    &&& min_len <= w.len() <= max_len
    &&& w[0] != '.'
    &&& match dict_filter {
        Some(g) => g.spec_accept(w),
        None => true,
    }
}

/// Is `w` a key of the table?
pub open spec fn contains_key(d: Seq<(Seq<char>, usize)>, w: Seq<char>) -> bool {
    exists|i: int| 0 <= i < d.len() && (#[trigger] d[i]).0 == w
}

/// No key occurs twice.
pub open spec fn distinct_keys(d: Seq<(Seq<char>, usize)>) -> bool {
    forall|i: int, j: int|
        0 <= i < j < d.len() ==> (#[trigger] d[i]).0 != (#[trigger] d[j]).0
}

/// The frequency recorded for `w`: that of its first entry, or zero when
/// `w` is not a key.
pub open spec fn freq_of(d: Seq<(Seq<char>, usize)>, w: Seq<char>) -> usize
    decreases d.len(),
{
    if d.len() == 0 {
        0
    } else if d[0].0 == w {
        d[0].1
    } else {
        freq_of(d.drop_first(), w)
    }
}

/// The sum of all recorded frequencies, as an unbounded integer.
pub open spec fn sum_freqs(d: Seq<(Seq<char>, usize)>) -> int
    decreases d.len(),
{
    if d.len() == 0 {
        0
    } else {
        sum_freqs(d.drop_last()) + d.last().1
    }
}

/// The table grown from `pairs` in order: a pair is appended when it
/// survives the filter and its key is not present yet, so the first kept
/// occurrence of a key wins.
pub open spec fn build_table<F: WordFilter>(
    pairs: Seq<(Seq<char>, usize)>,
    min_freq: usize,
    min_len: usize,
    max_len: usize,
    dict_filter: Option<&F>,
) -> Seq<(Seq<char>, usize)>
    decreases pairs.len(),
{
    if pairs.len() == 0 {
        Seq::empty()
    } else {
        let prev = build_table(pairs.drop_last(), min_freq, min_len, max_len, dict_filter);
        let p = pairs.last();
        if spec_keep(p.0, p.1, min_freq, min_len, max_len, dict_filter) && !contains_key(
            prev,
            p.0,
        ) {
            prev.push(p)
        } else {
            prev
        }
    }
}

/// The frequency of a matched entry is the frequency of its first match.
pub proof fn lemma_freq_first_match(d: Seq<(Seq<char>, usize)>, w: Seq<char>, j: int)
    requires
        0 <= j < d.len(),
        d[j].0 == w,
        forall|k: int| 0 <= k < j ==> (#[trigger] d[k]).0 != w,
    ensures
        freq_of(d, w) == d[j].1,
        contains_key(d, w),
    decreases j,
{
    if j > 0 {
        assert forall|k: int| 0 <= k < j - 1 implies (#[trigger] d.drop_first()[k]).0 != w by {
            assert(d.drop_first()[k] == d[k + 1]);
        }
        lemma_freq_first_match(d.drop_first(), w, j - 1);
    }
}

/// A word that is no key has frequency zero.
pub proof fn lemma_freq_absent(d: Seq<(Seq<char>, usize)>, w: Seq<char>)
    requires
        !contains_key(d, w),
    ensures
        freq_of(d, w) == 0,
    decreases d.len(),
{
    if d.len() > 0 {
        assert(d[0].0 != w);
        assert(!contains_key(d.drop_first(), w)) by {
            if contains_key(d.drop_first(), w) {
                let i = choose|i: int|
                    0 <= i < d.drop_first().len() && d.drop_first()[i].0 == w;
                assert(d[i + 1].0 == w);
            }
        }
        lemma_freq_absent(d.drop_first(), w);
    }
}

/// What the table fold guarantees: distinct keys, every entry kept and
/// taken from the input, and a key for exactly the input pairs that were
/// kept.
pub proof fn lemma_build_table_props<F: WordFilter>(
    pairs: Seq<(Seq<char>, usize)>,
    min_freq: usize,
    min_len: usize,
    max_len: usize,
    dict_filter: Option<&F>,
)
    ensures
        ({
            let d = build_table(pairs, min_freq, min_len, max_len, dict_filter);
            &&& distinct_keys(d)
            &&& forall|i: int|
                0 <= i < d.len() ==> spec_keep(
                    (#[trigger] d[i]).0,
                    d[i].1,
                    min_freq,
                    min_len,
                    max_len,
                    dict_filter,
                ) && pairs.contains(d[i])
            &&& forall|s: Seq<char>|
                contains_key(d, s) <==> exists|j: int|
                    0 <= j < pairs.len() && (#[trigger] pairs[j]).0 == s && spec_keep(
                        pairs[j].0,
                        pairs[j].1,
                        min_freq,
                        min_len,
                        max_len,
                        dict_filter,
                    )
        }),
    decreases pairs.len(),
{
    let d = build_table(pairs, min_freq, min_len, max_len, dict_filter);
    if pairs.len() == 0 {
        assert forall|s: Seq<char>| contains_key(d, s) implies false by {
            let i = choose|i: int| 0 <= i < d.len() && d[i].0 == s;
        }
    } else {
        let rest = pairs.drop_last();
        let prev = build_table(rest, min_freq, min_len, max_len, dict_filter);
        let p = pairs.last();
        lemma_build_table_props(rest, min_freq, min_len, max_len, dict_filter);
        assert forall|i: int| 0 <= i < rest.len() implies pairs.contains(#[trigger] rest[i]) by {
            assert(pairs[i] == rest[i]);
        }
        assert(pairs[pairs.len() - 1] == p);
        let kept = spec_keep(p.0, p.1, min_freq, min_len, max_len, dict_filter);
        if kept && !contains_key(prev, p.0) {
            assert(d == prev.push(p));
            assert(d[d.len() - 1] == p);
            assert forall|i: int| 0 <= i < d.len() implies spec_keep(
                (#[trigger] d[i]).0,
                d[i].1,
                min_freq,
                min_len,
                max_len,
                dict_filter,
            ) && pairs.contains(d[i]) by {
                if i < prev.len() {
                    assert(d[i] == prev[i]);
                } else {
                    assert(d[i] == p);
                }
            }
            assert forall|i: int, j: int| 0 <= i < j < d.len() implies (#[trigger] d[i]).0 != (
            #[trigger] d[j]).0 by {
                if j < prev.len() {
                } else {
                    assert(d[j] == p);
                    assert(d[i] == prev[i]);
                    if prev[i].0 == p.0 {
                        assert(contains_key(prev, p.0));
                    }
                }
            }
            assert forall|s: Seq<char>| contains_key(d, s) implies exists|j: int|
                0 <= j < pairs.len() && (#[trigger] pairs[j]).0 == s && spec_keep(
                    pairs[j].0,
                    pairs[j].1,
                    min_freq,
                    min_len,
                    max_len,
                    dict_filter,
                ) by {
                let i = choose|i: int| 0 <= i < d.len() && d[i].0 == s;
                if i < prev.len() {
                    assert(contains_key(prev, s));
                    let j = choose|j: int|
                        0 <= j < rest.len() && (#[trigger] rest[j]).0 == s && spec_keep(
                            rest[j].0,
                            rest[j].1,
                            min_freq,
                            min_len,
                            max_len,
                            dict_filter,
                        );
                    assert(pairs[j] == rest[j]);
                } else {
                    assert(pairs[pairs.len() - 1].0 == s);
                }
            }
            assert forall|s: Seq<char>|
                (exists|j: int|
                    0 <= j < pairs.len() && (#[trigger] pairs[j]).0 == s && spec_keep(
                        pairs[j].0,
                        pairs[j].1,
                        min_freq,
                        min_len,
                        max_len,
                        dict_filter,
                    )) implies contains_key(d, s) by {
                let j = choose|j: int|
                    0 <= j < pairs.len() && (#[trigger] pairs[j]).0 == s && spec_keep(
                        pairs[j].0,
                        pairs[j].1,
                        min_freq,
                        min_len,
                        max_len,
                        dict_filter,
                    );
                if j < rest.len() {
                    assert(rest[j] == pairs[j]);
                    assert(contains_key(prev, s));
                    let i = choose|i: int| 0 <= i < prev.len() && prev[i].0 == s;
                    assert(d[i] == prev[i]);
                } else {
                    assert(d[d.len() - 1].0 == s);
                }
            }
        } else {
            assert(d == prev);
            assert forall|s: Seq<char>|
                (exists|j: int|
                    0 <= j < pairs.len() && (#[trigger] pairs[j]).0 == s && spec_keep(
                        pairs[j].0,
                        pairs[j].1,
                        min_freq,
                        min_len,
                        max_len,
                        dict_filter,
                    )) implies contains_key(d, s) by {
                let j = choose|j: int|
                    0 <= j < pairs.len() && (#[trigger] pairs[j]).0 == s && spec_keep(
                        pairs[j].0,
                        pairs[j].1,
                        min_freq,
                        min_len,
                        max_len,
                        dict_filter,
                    );
                if j < rest.len() {
                    assert(rest[j] == pairs[j]);
                } else {
                    assert(p.0 == s && kept);
                    assert(contains_key(prev, p.0));
                }
            }
        }
    }
}

} // verus!
