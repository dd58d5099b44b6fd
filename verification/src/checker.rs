//! The corrector: an immutable frequency table built once from raw
//! (word, frequency) pairs, with known-word filtering, frequency lookup
//! and the tiered correction cascade.
use vstd::prelude::*;
use crate::dict::build_table;
use crate::dict::contains_key;
use crate::dict::distinct_keys;
use crate::dict::freq_of;
use crate::dict::lemma_build_table_props;
use crate::dict::lemma_freq_absent;
use crate::dict::lemma_freq_first_match;
use crate::dict::spec_keep;
use crate::dict::sum_freqs;
use crate::edits::edits1_units;
use crate::edits::is_edit1;
use crate::edits::is_edit2;
use crate::numlit::is_numeric_literal;
use crate::numlit::spec_is_numeric_literal;
use crate::thai::is_alphabet;
use crate::thai::thai_alphabet;
use crate::thai::WordFilter;
use crate::words::chars_to_string;
use crate::words::clone_word;
use crate::words::contains_word;
use crate::words::lemma_no_dups_push;
use crate::words::lemma_push_preserves_contains;
use crate::words::push_word;
use crate::words::seq_views;
use crate::words::str_to_chars;
use crate::words::word_eq;
use crate::words::words_to_strings;

verus! {

/// `s` is a known word one single-unit edit away from `w`.
pub open spec fn is_known_edit1(d: Seq<(Seq<char>, usize)>, w: Seq<char>, s: Seq<char>) -> bool {
    is_edit1(w, s) && contains_key(d, s)
}

/// `s` is a known word two single-unit edits away from `w`.
pub open spec fn is_known_edit2(d: Seq<(Seq<char>, usize)>, w: Seq<char>, s: Seq<char>) -> bool {
    is_edit2(w, s) && contains_key(d, s)
}

/// The candidates come in order of non-increasing frequency.
pub open spec fn ranked_by_freq(d: Seq<(Seq<char>, usize)>, out: Seq<Seq<char>>) -> bool {
    forall|p: int, q: int|
        0 <= p < q < out.len() ==> freq_of(d, #[trigger] out[p]) >= freq_of(d, #[trigger] out[q])
}

/// `out` holds each word satisfying `pred` exactly once, and nothing
/// else.
pub open spec fn lists_exactly(out: Seq<Seq<char>>, pred: spec_fn(Seq<char>) -> bool) -> bool {
    &&& out.no_duplicates()
    &&& forall|s: Seq<char>| #[trigger] out.contains(s) <==> pred(s)
}

/// What the correction cascade returns for `w` over dictionary `d`: the
/// word itself when known; else the known words at edit distance one,
/// ranked, when any exist; else the known words within edit distance
/// two, ranked, when any exist; else the word itself as fallback.
pub open spec fn spell_post(d: Seq<(Seq<char>, usize)>, w: Seq<char>, out: Seq<Seq<char>>) -> bool {
    if contains_key(d, w) {
        out == seq![w]
    } else if exists|s: Seq<char>| is_known_edit1(d, w, s) {
        lists_exactly(out, |s: Seq<char>| is_known_edit1(d, w, s)) && ranked_by_freq(d, out)
    } else if exists|s: Seq<char>| is_known_edit2(d, w, s) {
        lists_exactly(out, |s: Seq<char>| is_known_edit2(d, w, s)) && ranked_by_freq(d, out)
    } else {
        out == seq![w]
    }
}

/// Some word among the first `upto` of `e1v` reaches `s` in one edit.
spec fn covered(e1v: Seq<Seq<char>>, upto: int, s: Seq<char>) -> bool {
    exists|j: int| 0 <= j < upto && is_edit1(#[trigger] e1v[j], s)
}

/// A permutation of a duplicate-free candidate list is duplicate-free
/// and holds the same words.
proof fn lemma_perm_preserves_listing(av: Seq<Seq<char>>, bv: Seq<Seq<char>>)
    requires
        av.to_multiset() == bv.to_multiset(),
        av.no_duplicates(),
    ensures
        bv.no_duplicates(),
        forall|s: Seq<char>| #[trigger] bv.contains(s) <==> av.contains(s),
{
    broadcast use vstd::seq_lib::group_to_multiset_ensures;
    broadcast use vstd::multiset::group_multiset_axioms;

    av.lemma_multiset_has_no_duplicates();
    assert forall|x: Seq<char>| bv.to_multiset().contains(x) implies bv.to_multiset().count(x)
        == 1 by {
        assert(av.to_multiset().count(x) == bv.to_multiset().count(x));
        assert(av.to_multiset().contains(x));
    }
    bv.lemma_multiset_has_no_duplicates_conv();
    assert forall|s: Seq<char>| #[trigger] bv.contains(s) <==> av.contains(s) by {
        assert(av.contains(s) <==> av.to_multiset().count(s) > 0);
        assert(bv.contains(s) <==> bv.to_multiset().count(s) > 0);
        assert(av.to_multiset().count(s) == bv.to_multiset().count(s));
    }
}

/// The raw input pairs of a construction request, as word views: an
/// absent custom dictionary stands for no pairs at all.
pub open spec fn pairs_view(cd: Option<Vec<(String, usize)>>) -> Seq<(Seq<char>, usize)> {
    match cd {
        None => Seq::empty(),
        Some(v) => v@.map_values(|p: (String, usize)| (p.0@, p.1)),
    }
}

/// The entry views of a stored table.
pub open spec fn stored_views(s: Seq<(Vec<char>, usize)>) -> Seq<(Seq<char>, usize)> {
    s.map_values(|p: (Vec<char>, usize)| (p.0@, p.1))
}

/// Filtering a pushed sequence filters the old part and then decides the
/// new element.
proof fn lemma_filter_push<A>(s: Seq<A>, pred: spec_fn(A) -> bool, x: A)
    ensures
        s.push(x).filter(pred) == (if pred(x) {
            s.filter(pred).push(x)
        } else {
            s.filter(pred)
        }),
{
    reveal(Seq::filter);
    assert(s.push(x).drop_last() =~= s);
    assert(s.push(x).last() == x);
}

/// A frequency-ranked spell checker over an immutable dictionary.
pub struct NorvigSpellChecker {
    word_freqs: Vec<(Vec<char>, usize)>,
    total_words: usize,
}

impl NorvigSpellChecker {
    /// The dictionary as a sequence of (word, frequency) entries.
    pub closed spec fn entries(&self) -> Seq<(Seq<char>, usize)> {
        stored_views(self.word_freqs@)
    }

    /// Is `w` a dictionary key?
    pub open spec fn spec_contains(&self, w: Seq<char>) -> bool {
        contains_key(self.entries(), w)
    }

    /// The frequency recorded for `w`, zero when unknown.
    pub open spec fn spec_freq(&self, w: Seq<char>) -> usize {
        freq_of(self.entries(), w)
    }

    /// The saturated sum of all frequencies: the true sum when it fits a
    /// usize, the largest usize otherwise.
    pub open spec fn spec_total(&self, t: usize) -> bool {
        t as int == if sum_freqs(self.entries()) <= usize::MAX as int {
            sum_freqs(self.entries())
        } else {
            usize::MAX as int
        }
    }

    #[verifier::type_invariant]
    spec fn wf(&self) -> bool {
        &&& distinct_keys(self.entries())
        &&& self.spec_total(self.total_words)
    }

    /// Build the table from raw pairs under the given filter
    /// configuration.  A pair is kept exactly when it survives the
    /// configuration; of several pairs with one key the first kept one
    /// wins.  An absent dictionary gives the empty table, which is
    /// tolerated: every lookup then misses.
    pub fn new<F: WordFilter>(
        custom_dict: Option<Vec<(String, usize)>>,
        min_freq: usize,
        min_len: usize,
        max_len: usize,
        dict_filter: Option<&F>,
    ) -> (r: Self)
        ensures
            r.entries() == build_table(
                pairs_view(custom_dict),
                min_freq,
                min_len,
                max_len,
                dict_filter,
            ),
            distinct_keys(r.entries()),
            forall|i: int|
                0 <= i < r.entries().len() ==> spec_keep(
                    (#[trigger] r.entries()[i]).0,
                    r.entries()[i].1,
                    min_freq,
                    min_len,
                    max_len,
                    dict_filter,
                ) && pairs_view(custom_dict).contains(r.entries()[i]),
            forall|s: Seq<char>|
                r.spec_contains(s) <==> exists|j: int|
                    0 <= j < pairs_view(custom_dict).len() && (#[trigger] pairs_view(
                        custom_dict,
                    )[j]).0 == s && spec_keep(
                        pairs_view(custom_dict)[j].0,
                        pairs_view(custom_dict)[j].1,
                        min_freq,
                        min_len,
                        max_len,
                        dict_filter,
                    ),
    {
        let ghost target = pairs_view(custom_dict);
        let pairs: Vec<(String, usize)> = match custom_dict {
            Some(v) => v,
            None => Vec::new(),
        };
        proof {
            assert(target =~= pairs@.map_values(|p: (String, usize)| (p.0@, p.1)));
        }
        let n = pairs.len();
        let mut entries: Vec<(Vec<char>, usize)> = Vec::new();
        let mut i: usize = 0;
        while i < n
            invariant
                i <= n,
                n == pairs@.len(),
                target == pairs@.map_values(|p: (String, usize)| (p.0@, p.1)),
                stored_views(entries@) == build_table(
                    target.subrange(0, i as int),
                    min_freq,
                    min_len,
                    max_len,
                    dict_filter,
                ),
            decreases n - i,
        {
            let wv = str_to_chars(pairs[i].0.as_str());
            let f = pairs[i].1;
            let kept = keep_pair(pairs[i].0.as_str(), &wv, f, min_freq, min_len, max_len,
                dict_filter);
            let ghost pre = stored_views(entries@);
            if kept && !contains_entry(&entries, &wv) {
                entries.push((wv, f));
                proof {
                    assert(stored_views(entries@) =~= pre.push((target[i as int].0, f)));
                }
            }
            proof {
                let sub1 = target.subrange(0, i + 1);
                assert(sub1.drop_last() =~= target.subrange(0, i as int));
                assert(sub1.last() == target[i as int]);
                assert(target[i as int].0 == pairs@[i as int].0@);
                assert(stored_views(entries@) =~= build_table(
                    sub1,
                    min_freq,
                    min_len,
                    max_len,
                    dict_filter,
                ));
            }
            i = i + 1;
        }
        proof {
            assert(target.subrange(0, n as int) =~= target);
            lemma_build_table_props(target, min_freq, min_len, max_len, dict_filter);
        }
        let m = entries.len();
        let mut total: usize = 0;
        let mut j: usize = 0;
        while j < m
            invariant
                j <= m,
                m == entries@.len(),
                total as int == if sum_freqs(stored_views(entries@).subrange(0, j as int))
                    <= usize::MAX as int {
                    sum_freqs(stored_views(entries@).subrange(0, j as int))
                } else {
                    usize::MAX as int
                },
            decreases m - j,
        {
            let f = entries[j].1;
            proof {
                let sub1 = stored_views(entries@).subrange(0, j + 1);
                assert(sub1.drop_last() =~= stored_views(entries@).subrange(0, j as int));
                assert(sub1.last().1 == f);
            }
            if total <= usize::MAX - f {
                total = total + f;
            } else {
                total = usize::MAX;
            }
            j = j + 1;
        }
        proof {
            assert(stored_views(entries@).subrange(0, m as int) =~= stored_views(entries@));
        }
        NorvigSpellChecker { word_freqs: entries, total_words: total }
    }

    /// The recorded frequency of `w`, or None when `w` is no key.
    fn lookup(&self, w: &Vec<char>) -> (r: Option<usize>)
        ensures
            match r {
                Some(f) => self.spec_contains(w@) && f == self.spec_freq(w@),
                None => !self.spec_contains(w@),
            },
    {
        let n = self.word_freqs.len();
        let mut j: usize = 0;
        while j < n
            invariant
                j <= n,
                n == self.entries().len(),
                forall|k: int| 0 <= k < j ==> (#[trigger] self.entries()[k]).0 != w@,
            decreases n - j,
        {
            if word_eq(&self.word_freqs[j].0, w) {
                proof {
                    lemma_freq_first_match(self.entries(), w@, j as int);
                }
                return Some(self.word_freqs[j].1);
            }
            j = j + 1;
        }
        proof {
            if self.spec_contains(w@) {
                let k = choose|k: int|
                    0 <= k < self.entries().len() && self.entries()[k].0 == w@;
            }
        }
        None
    }

    /// The frequency of `word` in the dictionary, zero when unknown.
    pub fn freq(&self, word: &str) -> (r: usize)
        ensures
            r == self.spec_freq(word@),
    {
        let wv = str_to_chars(word);
        match self.lookup(&wv) {
            Some(f) => f,
            None => {
                proof {
                    lemma_freq_absent(self.entries(), wv@);
                }
                0
            },
        }
    }

    /// The saturated sum of all dictionary frequencies, the denominator
    /// of a probability computed outside.
    pub fn total_words(&self) -> (r: usize)
        ensures
            self.spec_total(r),
    {
        proof {
            use_type_invariant(self);
        }
        self.total_words
    }

    /// The members of `words` that are dictionary keys, in input order.
    pub fn known(&self, words: &Vec<String>) -> (r: Vec<String>)
        ensures
            r.deep_view() == words.deep_view().filter(
                |w: Seq<char>| contains_key(self.entries(), w),
            ),
    {
        let ghost pred = |w: Seq<char>| contains_key(self.entries(), w);
        let n = words.len();
        let mut r: Vec<String> = Vec::new();
        let mut i: usize = 0;
        while i < n
            invariant
                i <= n,
                n == words@.len(),
                r.deep_view() == words.deep_view().subrange(0, i as int).filter(pred),
            decreases n - i,
        {
            let wv = str_to_chars(words[i].as_str());
            let ghost pre = r.deep_view();
            if self.lookup(&wv).is_some() {
                r.push(words[i].clone());
                proof {
                    assert(r.deep_view() =~= pre.push(words@[i as int]@));
                }
            }
            proof {
                let subv = words.deep_view().subrange(0, i as int);
                lemma_filter_push(subv, pred, words.deep_view()[i as int]);
                assert(subv.push(words.deep_view()[i as int]) =~= words.deep_view().subrange(
                    0,
                    i + 1,
                ));
                assert(words.deep_view()[i as int] == words@[i as int]@);
            }
            i = i + 1;
        }
        proof {
            assert(words.deep_view().subrange(0, n as int) =~= words.deep_view());
        }
        r
    }

    /// A snapshot of the dictionary as (word, frequency) pairs, in
    /// storage order.
    pub fn dictionary(&self) -> (r: Vec<(String, usize)>)
        ensures
            r@.map_values(|p: (String, usize)| (p.0@, p.1)) == self.entries(),
    {
        let n = self.word_freqs.len();
        let mut r: Vec<(String, usize)> = Vec::new();
        let mut i: usize = 0;
        while i < n
            invariant
                i <= n,
                n == self.entries().len(),
                r@.map_values(|p: (String, usize)| (p.0@, p.1)) == self.entries().subrange(
                    0,
                    i as int,
                ),
            decreases n - i,
        {
            let s = chars_to_string(&self.word_freqs[i].0);
            r.push((s, self.word_freqs[i].1));
            proof {
                assert(r@.map_values(|p: (String, usize)| (p.0@, p.1)) =~= self.entries().subrange(
                    0,
                    i + 1,
                ));
            }
            i = i + 1;
        }
        proof {
            assert(self.entries().subrange(0, n as int) =~= self.entries());
        }
        r
    }

    /// The frequency of a unit word, zero when unknown.
    fn freq_units(&self, w: &Vec<char>) -> (r: usize)
        ensures
            r == self.spec_freq(w@),
    {
        match self.lookup(w) {
            Some(f) => f,
            None => {
                proof {
                    lemma_freq_absent(self.entries(), w@);
                }
                0
            },
        }
    }

    /// The known members of `cands`, each once, in first-seen order.
    fn known_units(&self, cands: &Vec<Vec<char>>) -> (r: Vec<Vec<char>>)
        ensures
            seq_views(r@).no_duplicates(),
            forall|s: Seq<char>|
                #[trigger] seq_views(r@).contains(s) <==> seq_views(cands@).contains(s)
                    && contains_key(self.entries(), s),
    {
        let n = cands.len();
        let mut r: Vec<Vec<char>> = Vec::new();
        let mut i: usize = 0;
        while i < n
            invariant
                i <= n,
                n == cands@.len(),
                seq_views(r@).no_duplicates(),
                forall|s: Seq<char>|
                    #[trigger] seq_views(r@).contains(s) <==> seq_views(cands@).subrange(
                        0,
                        i as int,
                    ).contains(s) && contains_key(self.entries(), s),
            decreases n - i,
        {
            let ghost pre = seq_views(r@);
            let ghost subv = seq_views(cands@).subrange(0, i as int);
            let ghost cv = seq_views(cands@)[i as int];
            proof {
                assert(cv == cands@[i as int]@);
            }
            let known_here = self.lookup(&cands[i]).is_some();
            if known_here && !contains_word(&r, &cands[i]) {
                let cw = clone_word(&cands[i]);
                proof {
                    lemma_push_preserves_contains(pre, cv);
                    lemma_no_dups_push(pre, cv);
                }
                push_word(&mut r, cw);
            }
            proof {
                lemma_push_preserves_contains(subv, cv);
                assert(subv.push(cv) =~= seq_views(cands@).subrange(0, i + 1));
                assert forall|s: Seq<char>| #[trigger] seq_views(r@).contains(s) implies seq_views(
                    cands@,
                ).subrange(0, i + 1).contains(s) && contains_key(self.entries(), s) by {
                    assert(pre.contains(s) || s == cv);
                    if pre.contains(s) {
                        assert(subv.contains(s) ==> subv.push(cv).contains(s));
                    }
                }
                assert forall|s: Seq<char>| seq_views(cands@).subrange(0, i + 1).contains(s)
                    && contains_key(self.entries(), s) implies #[trigger] seq_views(r@).contains(
                    s,
                ) by {
                    if subv.contains(s) {
                        assert(pre.contains(s));
                    } else {
                        assert(s == cv);
                        assert(known_here);
                        if !pre.contains(cv) {
                            assert(seq_views(r@) == pre.push(cv));
                        }
                    }
                }
            }
            i = i + 1;
        }
        proof {
            assert(seq_views(cands@).subrange(0, n as int) =~= seq_views(cands@));
        }
        r
    }

    /// The known words within two edits of `w`, each once.
    fn known_edits2_units(&self, w: &Vec<char>, alphabet: &Vec<char>) -> (r: Vec<Vec<char>>)
        requires
            is_alphabet(alphabet@),
        ensures
            seq_views(r@).no_duplicates(),
            forall|s: Seq<char>|
                #[trigger] seq_views(r@).contains(s) <==> is_edit2(w@, s) && contains_key(
                    self.entries(),
                    s,
                ),
    {
        let e1 = edits1_units(w, alphabet);
        let ghost e1v = seq_views(e1@);
        let n = e1.len();
        let mut r: Vec<Vec<char>> = Vec::new();
        let mut i: usize = 0;
        while i < n
            invariant
                i <= n,
                n == e1v.len(),
                e1v == seq_views(e1@),
                seq_views(r@).no_duplicates(),
                forall|s: Seq<char>|
                    #[trigger] seq_views(r@).contains(s) <==> covered(e1v, i as int, s)
                        && contains_key(self.entries(), s),
            decreases n - i,
        {
            let e2 = edits1_units(&e1[i], alphabet);
            let ghost e2v = seq_views(e2@);
            let m = e2.len();
            let mut k: usize = 0;
            while k < m
                invariant
                    k <= m,
                    i < n,
                    m == e2v.len(),
                    e2v == seq_views(e2@),
                    seq_views(r@).no_duplicates(),
                    forall|s: Seq<char>|
                        #[trigger] seq_views(r@).contains(s) <==> (covered(e1v, i as int, s)
                            || e2v.subrange(0, k as int).contains(s)) && contains_key(
                            self.entries(),
                            s,
                        ),
                decreases m - k,
            {
                let ghost pre = seq_views(r@);
                let ghost subv = e2v.subrange(0, k as int);
                let ghost cv = e2v[k as int];
                proof {
                    assert(cv == e2@[k as int]@);
                }
                let known_here = self.lookup(&e2[k]).is_some();
                if known_here && !contains_word(&r, &e2[k]) {
                    let cw = clone_word(&e2[k]);
                    proof {
                        lemma_push_preserves_contains(pre, cv);
                        lemma_no_dups_push(pre, cv);
                    }
                    push_word(&mut r, cw);
                }
                proof {
                    lemma_push_preserves_contains(subv, cv);
                    assert(subv.push(cv) =~= e2v.subrange(0, k + 1));
                    assert forall|s: Seq<char>| #[trigger] seq_views(r@).contains(s) implies (
                    covered(e1v, i as int, s) || e2v.subrange(0, k + 1).contains(s))
                        && contains_key(self.entries(), s) by {
                        assert(pre.contains(s) || s == cv);
                        if pre.contains(s) {
                            assert(subv.contains(s) ==> subv.push(cv).contains(s));
                        }
                    }
                    assert forall|s: Seq<char>| (covered(e1v, i as int, s) || e2v.subrange(
                        0,
                        k + 1,
                    ).contains(s)) && contains_key(self.entries(), s) implies #[trigger] seq_views(
                        r@,
                    ).contains(s) by {
                        if covered(e1v, i as int, s) || subv.contains(s) {
                            assert(pre.contains(s));
                        } else {
                            assert(s == cv);
                            assert(known_here);
                            if !pre.contains(cv) {
                                assert(seq_views(r@) == pre.push(cv));
                            }
                        }
                    }
                }
                k = k + 1;
            }
            proof {
                assert(e2v.subrange(0, m as int) =~= e2v);
                assert forall|s: Seq<char>|
                    covered(e1v, i + 1, s) <==> (covered(e1v, i as int, s) || is_edit1(
                        e1v[i as int],
                        s,
                    )) by {
                    if covered(e1v, i + 1, s) {
                        let j = choose|j: int| 0 <= j < i + 1 && is_edit1(e1v[j], s);
                        if j < i {
                            assert(covered(e1v, i as int, s));
                        }
                    }
                    if covered(e1v, i as int, s) {
                        let j = choose|j: int| 0 <= j < i && is_edit1(e1v[j], s);
                        assert(0 <= j < i + 1 && is_edit1(e1v[j], s));
                    }
                }
            }
            i = i + 1;
        }
        proof {
            assert forall|s: Seq<char>| covered(e1v, n as int, s) implies is_edit2(w@, s) by {
                let j = choose|j: int| 0 <= j < n && is_edit1(e1v[j], s);
                assert(e1v.contains(e1v[j]));
                assert(is_edit1(w@, e1v[j]));
            }
            assert forall|s: Seq<char>| is_edit2(w@, s) implies covered(e1v, n as int, s) by {
                let mid = choose|mid: Seq<char>| is_edit1(w@, mid) && is_edit1(mid, s);
                assert(e1v.contains(mid));
                let j = choose|j: int| 0 <= j < e1v.len() && e1v[j] == mid;
                assert(0 <= j < n && is_edit1(e1v[j], s));
            }
        }
        r
    }

    /// The first position of the sorted prefix `v[0..i]` whose entry has
    /// frequency below `fi`; the stable insertion slot for descending
    /// order.
    fn find_slot(&self, v: &Vec<Vec<char>>, i: usize, fi: usize) -> (j: usize)
        requires
            i < v@.len(),
        ensures
            j <= i,
            forall|q: int|
                j <= q < i ==> freq_of(self.entries(), #[trigger] seq_views(v@)[q]) < fi,
            j > 0 ==> freq_of(self.entries(), seq_views(v@)[j - 1]) >= fi,
    {
        let mut j: usize = i;
        while j > 0
            invariant
                j <= i,
                i < v@.len(),
                forall|q: int|
                    j <= q < i ==> freq_of(self.entries(), #[trigger] seq_views(v@)[q]) < fi,
            decreases j,
        {
            if self.freq_units(&v[j - 1]) >= fi {
                return j;
            }
            proof {
                assert(seq_views(v@)[j - 1] == v@[j - 1]@);
            }
            j = j - 1;
        }
        j
    }

    /// Sort the candidates by non-increasing frequency, stably.
    fn rank_units(&self, cands: Vec<Vec<char>>) -> (r: Vec<Vec<char>>)
        ensures
            seq_views(r@).to_multiset() == seq_views(cands@).to_multiset(),
            ranked_by_freq(self.entries(), seq_views(r@)),
    {
        broadcast use vstd::seq_lib::group_to_multiset_ensures;

        let ghost d = self.entries();
        let mut v = cands;
        let n = v.len();
        if n == 0 {
            return v;
        }
        let mut i: usize = 1;
        while i < n
            invariant
                1 <= i <= n,
                n == v@.len(),
                seq_views(v@).to_multiset() == seq_views(cands@).to_multiset(),
                forall|p: int, q: int|
                    0 <= p < q < i ==> freq_of(d, #[trigger] seq_views(v@)[p]) >= freq_of(
                        d,
                        #[trigger] seq_views(v@)[q],
                    ),
            decreases n - i,
        {
            let fi = self.freq_units(&v[i]);
            let j = self.find_slot(&v, i, fi);
            let ghost ov = seq_views(v@);
            let x = v.remove(i);
            v.insert(j, x);
            proof {
                let nv = seq_views(v@);
                assert(nv =~= ov.remove(i as int).insert(j as int, ov[i as int]));
                assert(ov.remove(i as int).to_multiset() =~= ov.to_multiset().remove(
                    ov[i as int],
                ));
                vstd::seq_lib::to_multiset_insert(ov.remove(i as int), j as int, ov[i as int]);
                assert(ov.contains(ov[i as int]));
                assert(nv.to_multiset() =~= ov.to_multiset());
                assert forall|p: int, q: int| 0 <= p < q < i + 1 implies freq_of(
                    d,
                    #[trigger] nv[p],
                ) >= freq_of(d, #[trigger] nv[q]) by {
                    assert(forall|t: int| 0 <= t < j ==> #[trigger] nv[t] == ov[t]);
                    assert(nv[j as int] == ov[i as int]);
                    assert(forall|t: int| j < t <= i ==> #[trigger] nv[t] == ov[t - 1]);
                    if q < j {
                    } else if q == j {
                        if p < j && j > 0 {
                            assert(freq_of(d, ov[p]) >= freq_of(d, ov[j - 1]));
                        }
                    } else {
                        if p == j {
                            assert(freq_of(d, ov[q - 1]) < fi);
                        } else if p < j {
                            assert(freq_of(d, ov[p]) >= freq_of(d, ov[q - 1]));
                        } else {
                            assert(freq_of(d, ov[p - 1]) >= freq_of(d, ov[q - 1]));
                        }
                    }
                }
            }
            i = i + 1;
        }
        v
    }

    /// The correction candidates for `word`: the word itself when known;
    /// else the known words at edit distance one, ranked by frequency;
    /// else the known words within edit distance two, ranked; else the
    /// word itself.
    pub fn spell(&self, word: &str) -> (r: Vec<String>)
        ensures
            spell_post(self.entries(), word@, r.deep_view()),
    {
        broadcast use vstd::seq_lib::group_to_multiset_ensures;

        let ghost d = self.entries();
        let wv = str_to_chars(word);
        if self.lookup(&wv).is_some() {
            let mut out: Vec<String> = Vec::new();
            out.push(word.to_owned());
            proof {
                assert(out.deep_view() =~= seq![word@]);
            }
            return out;
        }
        let alphabet = thai_alphabet();
        let e1 = edits1_units(&wv, &alphabet);
        let k1 = self.known_units(&e1);
        if k1.len() > 0 {
            let ghost k1v = seq_views(k1@);
            proof {
                assert(k1v.contains(k1v[0]));
                assert(is_known_edit1(d, word@, k1v[0]));
            }
            let ranked = self.rank_units(k1);
            let out = words_to_strings(&ranked);
            proof {
                let rv = seq_views(ranked@);
                lemma_perm_preserves_listing(k1v, rv);
                assert(lists_exactly(rv, |s: Seq<char>| is_known_edit1(d, word@, s)));
            }
            return out;
        }
        proof {
            assert(!(exists|s: Seq<char>| is_known_edit1(d, word@, s))) by {
                if exists|s: Seq<char>| is_known_edit1(d, word@, s) {
                    let s = choose|s: Seq<char>| is_known_edit1(d, word@, s);
                    assert(seq_views(e1@).contains(s));
                    assert(seq_views(k1@).contains(s));
                }
            }
        }
        let k2 = self.known_edits2_units(&wv, &alphabet);
        if k2.len() > 0 {
            let ghost k2v = seq_views(k2@);
            proof {
                assert(k2v.contains(k2v[0]));
                assert(is_known_edit2(d, word@, k2v[0]));
            }
            let ranked = self.rank_units(k2);
            let out = words_to_strings(&ranked);
            proof {
                let rv = seq_views(ranked@);
                lemma_perm_preserves_listing(k2v, rv);
                assert(lists_exactly(rv, |s: Seq<char>| is_known_edit2(d, word@, s)));
            }
            return out;
        }
        proof {
            assert(!(exists|s: Seq<char>| is_known_edit2(d, word@, s))) by {
                if exists|s: Seq<char>| is_known_edit2(d, word@, s) {
                    let s = choose|s: Seq<char>| is_known_edit2(d, word@, s);
                    assert(seq_views(k2@).contains(s));
                }
            }
        }
        let mut out: Vec<String> = Vec::new();
        out.push(word.to_owned());
        proof {
            assert(out.deep_view() =~= seq![word@]);
        }
        out
    }

    /// The single best correction for `word`: a numeric literal is
    /// returned unchanged; otherwise the highest-ranked candidate of the
    /// cascade, which is `word` itself when it is known or when nothing
    /// known is within two edits.
    pub fn correct(&self, word: &str) -> (r: String)
        ensures
            spec_is_numeric_literal(word@) ==> r@ == word@,
            !spec_is_numeric_literal(word@) ==> exists|out: Seq<Seq<char>>|
                #[trigger] spell_post(self.entries(), word@, out) && out.len() >= 1 && r@
                    == out[0],
            !spec_is_numeric_literal(word@) && self.spec_contains(word@) ==> r@ == word@,
            !spec_is_numeric_literal(word@) && !self.spec_contains(word@) && !(exists|s: Seq<char>|
                is_known_edit1(self.entries(), word@, s)) && !(exists|s: Seq<char>|
                is_known_edit2(self.entries(), word@, s)) ==> r@ == word@,
    {
        if is_numeric_literal(word) {
            return word.to_owned();
        }
        let mut cands = self.spell(word);
        let ghost outv = cands.deep_view();
        proof {
            lemma_spell_nonempty(self.entries(), word@, outv);
        }
        if cands.len() > 0 {
            let first = cands.remove(0);
            proof {
                assert(first@ == outv[0]);
            }
            first
        } else {
            word.to_owned()
        }
    }
}

/// The cascade never returns an empty candidate list: every tier either
/// yields a witness or falls through to the input word itself.
pub proof fn lemma_spell_nonempty(d: Seq<(Seq<char>, usize)>, w: Seq<char>, out: Seq<Seq<char>>)
    requires
        spell_post(d, w, out),
    ensures
        out.len() >= 1,
{
    if contains_key(d, w) {
        assert(out == seq![w]);
    } else if exists|s: Seq<char>| is_known_edit1(d, w, s) {
        let s = choose|s: Seq<char>| is_known_edit1(d, w, s);
        assert(out.contains(s));
        let i = choose|i: int| 0 <= i < out.len() && out[i] == s;
    } else if exists|s: Seq<char>| is_known_edit2(d, w, s) {
        let s = choose|s: Seq<char>| is_known_edit2(d, w, s);
        assert(out.contains(s));
        let i = choose|i: int| 0 <= i < out.len() && out[i] == s;
    } else {
        assert(out == seq![w]);
    }
}

/// Does the filter configuration keep the pair `(word, f)`?
fn keep_pair<F: WordFilter>(
    word: &str,
    wv: &Vec<char>,
    f: usize,
    min_freq: usize,
    min_len: usize,
    max_len: usize,
    dict_filter: Option<&F>,
) -> (r: bool)
    requires
        wv@ == word@,
    ensures
        r == spec_keep(word@, f, min_freq, min_len, max_len, dict_filter),
{
    if f < min_freq {
        return false;
    }
    let len = wv.len();
    if len == 0 || len < min_len || len > max_len {
        return false;
    }
    if wv[0] == '.' {
        return false;
    }
    match dict_filter {
        Some(g) => g.accept(word),
        None => true,
    }
}

/// Is `w` already a key of the stored table?
fn contains_entry(entries: &Vec<(Vec<char>, usize)>, w: &Vec<char>) -> (r: bool)
    ensures
        r == contains_key(stored_views(entries@), w@),
{
    let n = entries.len();
    let mut j: usize = 0;
    while j < n
        invariant
            j <= n,
            n == entries@.len(),
            forall|k: int| 0 <= k < j ==> (#[trigger] stored_views(entries@)[k]).0 != w@,
        decreases n - j,
    {
        if word_eq(&entries[j].0, w) {
            proof {
                assert(stored_views(entries@)[j as int].0 == w@);
            }
            return true;
        }
        j = j + 1;
    }
    proof {
        if contains_key(stored_views(entries@), w@) {
            let k = choose|k: int|
                0 <= k < stored_views(entries@).len() && stored_views(entries@)[k].0 == w@;
        }
    }
    false
}

} // verus!
