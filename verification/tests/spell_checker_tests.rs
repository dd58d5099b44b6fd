use spell_checker::is_numeric_literal;
use spell_checker::is_thai_and_not_num;
use spell_checker::parse_corpus_line;
use spell_checker::tnc_freq_path;
use spell_checker::NorvigSpellChecker;
use spell_checker::ThaiWordFilter;

fn dict(pairs: &[(&str, usize)]) -> Option<Vec<(String, usize)>> {
    Some(pairs.iter().map(|(w, f)| (w.to_string(), *f)).collect())
}

#[test]
fn known_word_is_its_own_first_candidate() {
    let sc = NorvigSpellChecker::new(dict(&[("กข", 5), ("ขค", 3)]), 2, 2, 40,
        Some(&ThaiWordFilter));
    assert_eq!(sc.spell("กข"), vec!["กข".to_string()]);
    assert_eq!(sc.correct("กข"), "กข".to_string());
}

#[test]
fn known_words_are_the_intersection_with_the_dictionary() {
    let sc = NorvigSpellChecker::new(dict(&[("กข", 5), ("ขค", 3)]), 2, 2, 40,
        Some(&ThaiWordFilter));
    let input = vec!["กข".to_string(), "งง".to_string(), "ขค".to_string()];
    let out = sc.known(&input);
    assert_eq!(out, vec!["กข".to_string(), "ขค".to_string()]);
    let none = sc.known(&vec!["งง".to_string()]);
    assert!(none.is_empty());
}

#[test]
fn unique_distance_one_neighbor_beats_distance_two() {
    // "กา" is one deletion away from "กาข"; "ขา" is two edits away but
    // far more frequent.  The cascade must stop at distance one.
    let sc = NorvigSpellChecker::new(dict(&[("กา", 1), ("ขา", 100)]), 1, 2, 40,
        Some(&ThaiWordFilter));
    assert_eq!(sc.spell("กาข"), vec!["กา".to_string()]);
    assert_eq!(sc.correct("กาข"), "กา".to_string());
}

#[test]
fn numeric_input_is_returned_unchanged() {
    let sc = NorvigSpellChecker::new(dict(&[("ทดสอบ", 5)]), 2, 2, 40, Some(&ThaiWordFilter));
    assert_eq!(sc.correct("123"), "123".to_string());
    assert_eq!(sc.correct("-1.5e3"), "-1.5e3".to_string());
    assert_eq!(sc.correct("NaN"), "NaN".to_string());
}

#[test]
fn numeric_literal_recognizer_matches_float_grammar() {
    for ok in ["123", "12.5", ".5", "5.", "+1e9", "-2E-4", "1.e5", "inf", "Infinity", "NaN",
        "-inf", "+nan"] {
        assert!(is_numeric_literal(ok), "expected numeric: {ok}");
    }
    for bad in ["", "+", "-", "12a", "1e", "e5", ".", "1.2.3", "nan0", "infx", " 1", "1 "] {
        assert!(!is_numeric_literal(bad), "expected not numeric: {bad}");
    }
}

#[test]
fn candidates_come_in_descending_frequency_order() {
    // Both dictionary words are one replacement away from the input.
    let sc = NorvigSpellChecker::new(dict(&[("บข", 5), ("บค", 50)]), 1, 2, 40,
        Some(&ThaiWordFilter));
    assert_eq!(sc.spell("บบ"), vec!["บค".to_string(), "บข".to_string()]);
    assert_eq!(sc.correct("บบ"), "บค".to_string());
}

#[test]
fn missing_vowel_and_sign_are_restored() {
    // The misspelling lacks one vowel and one sign of the dictionary
    // word: a distance-two correction.
    let sc = NorvigSpellChecker::new(dict(&[("เหตุการณ์", 100)]), 2, 2, 40,
        Some(&ThaiWordFilter));
    assert_eq!(sc.spell("เหตการณ"), vec!["เหตุการณ์".to_string()]);
    assert_eq!(sc.correct("เหตการณ"), "เหตุการณ์".to_string());
}

#[test]
fn empty_dictionary_corrects_nothing_and_never_fails() {
    let sc = NorvigSpellChecker::new::<ThaiWordFilter>(None, 2, 2, 40, None);
    assert_eq!(sc.correct("กข"), "กข".to_string());
    assert_eq!(sc.spell("กข"), vec!["กข".to_string()]);
    assert_eq!(sc.freq("กข"), 0);
    assert_eq!(sc.total_words(), 0);
    assert!(sc.dictionary().is_empty());
}

#[test]
fn rejected_entries_never_appear_anywhere() {
    // Too rare, too short, too long, not Thai, leading full stop: all
    // rejected; only one pair survives.
    let sc = NorvigSpellChecker::new(
        dict(&[("กา", 1), ("ก", 5), ("กขคง", 5), ("กข1", 5), (".กข", 9), ("ขค", 7)]),
        2,
        2,
        3,
        Some(&ThaiWordFilter),
    );
    assert_eq!(sc.dictionary(), vec![("ขค".to_string(), 7)]);
    assert_eq!(sc.total_words(), 7);
    let all = vec!["กา".to_string(), "ก".to_string(), "กขคง".to_string(), "กข1".to_string(),
        ".กข".to_string(), "ขค".to_string()];
    assert_eq!(sc.known(&all), vec!["ขค".to_string()]);
    assert_eq!(sc.freq("กา"), 0);
    // The rejected word itself is not proposed; its distance-two known
    // neighbour is.
    assert_eq!(sc.spell("กา"), vec!["ขค".to_string()]);
}

#[test]
fn duplicate_keys_keep_the_first_kept_pair() {
    let sc = NorvigSpellChecker::new(dict(&[("กข", 5), ("กข", 9)]), 2, 2, 40,
        Some(&ThaiWordFilter));
    assert_eq!(sc.freq("กข"), 5);
    assert_eq!(sc.dictionary(), vec![("กข".to_string(), 5)]);
}

#[test]
fn transposition_is_one_edit() {
    let sc = NorvigSpellChecker::new(dict(&[("กข", 7)]), 1, 2, 40, Some(&ThaiWordFilter));
    assert_eq!(sc.spell("ขก"), vec!["กข".to_string()]);
}

#[test]
fn insertion_and_deletion_are_one_edit() {
    let sc = NorvigSpellChecker::new(dict(&[("กาข", 5)]), 1, 2, 40, Some(&ThaiWordFilter));
    // One missing symbol: restored by insertion.
    assert_eq!(sc.spell("กา"), vec!["กาข".to_string()]);
    // One stray symbol, not even Thai: removed by deletion.
    let sc2 = NorvigSpellChecker::new(dict(&[("กา", 5)]), 1, 2, 40, Some(&ThaiWordFilter));
    assert_eq!(sc2.spell("กzา"), vec!["กา".to_string()]);
}

#[test]
fn unreachable_word_falls_back_to_the_input() {
    let sc = NorvigSpellChecker::new(dict(&[("เหตุการณ์", 100)]), 2, 2, 40,
        Some(&ThaiWordFilter));
    assert_eq!(sc.spell("abc"), vec!["abc".to_string()]);
    assert_eq!(sc.correct("abc"), "abc".to_string());
}

#[test]
fn frequencies_and_total_are_reported() {
    let sc = NorvigSpellChecker::new(dict(&[("กข", 5), ("ขค", 3)]), 2, 2, 40,
        Some(&ThaiWordFilter));
    assert_eq!(sc.freq("กข"), 5);
    assert_eq!(sc.freq("ขค"), 3);
    assert_eq!(sc.freq("งง"), 0);
    assert_eq!(sc.total_words(), 8);
    let mut snapshot = sc.dictionary();
    snapshot.sort();
    assert_eq!(snapshot, vec![("กข".to_string(), 5), ("ขค".to_string(), 3)]);
}

#[test]
fn thai_word_check_accepts_letters_and_full_stop_only() {
    assert!(is_thai_and_not_num("กขค"));
    assert!(is_thai_and_not_num("ก.ข"));
    assert!(is_thai_and_not_num("เหตุการณ์"));
    assert!(is_thai_and_not_num(""));
    assert!(!is_thai_and_not_num("กxข"));
    assert!(!is_thai_and_not_num("ก1"));
    assert!(!is_thai_and_not_num("ก๑"));
}

#[test]
fn corpus_lines_parse_word_and_frequency() {
    assert_eq!(parse_corpus_line("กข\t10"), Some(("กข".to_string(), 10)));
    assert_eq!(parse_corpus_line("กข\t10\tnote"), Some(("กข".to_string(), 10)));
    assert_eq!(parse_corpus_line("กข\t+7"), Some(("กข".to_string(), 7)));
    assert_eq!(parse_corpus_line("\t5"), Some(("".to_string(), 5)));
    assert_eq!(parse_corpus_line("กข 10"), None);
    assert_eq!(parse_corpus_line("กข\tx"), None);
    assert_eq!(parse_corpus_line("กข\t"), None);
    assert_eq!(parse_corpus_line(""), None);
    assert_eq!(parse_corpus_line("กข\t99999999999999999999999"), None);
}

#[test]
fn corpus_path_is_the_conventional_one() {
    assert_eq!(tnc_freq_path(), Some("data/tnc_freq.txt".to_string()));
}
