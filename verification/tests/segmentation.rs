//! Tests of rule construction and the segmentation algorithm.

use srx::{Rule, Rules};

fn rule(before: Option<&str>, after: Option<&str>, do_break: bool) -> Rule {
    Rule::new(before, after, do_break).expect("test rule is valid")
}

#[test]
fn match_indices_correct() {
    let rule = Rule::new(Some("abc"), Some("d+fg"), true).expect("test rule is valid");

    assert_eq!(rule.match_indices("abcddfgxxx"), vec![3_usize]);
}

#[test]
fn match_indices_non_overlapping() {
    let rule = rule(Some("a"), Some("a"), true);

    // Matches are found left to right without overlap: "aaaa" holds two
    // matches of "a(a)", not three.
    assert_eq!(rule.match_indices("aaaa"), vec![1_usize, 3_usize]);
}

#[test]
fn do_break_reported() {
    assert!(rule(Some("x"), None, true).do_break());
    assert!(!rule(Some("x"), None, false).do_break());
}

#[test]
fn new_rejects_empty_pattern_pair() {
    let r = Rule::new(None, None, true);
    assert!(matches!(r, Err(srx::Error::SRXError { .. })));
}

#[test]
fn new_rejects_invalid_regex() {
    let r = Rule::new(Some("("), None, true);
    assert!(matches!(r, Err(srx::Error::RegexError(_))));
}

#[test]
fn new_accepts_one_sided_patterns() {
    assert!(Rule::new(Some("x"), None, true).is_ok());
    assert!(Rule::new(None, Some("x"), true).is_ok());
}

#[test]
fn empty_input_yields_no_segments() {
    let rules = Rules::new(vec![rule(Some("\\."), Some("\\s"), true)]);
    assert_eq!(rules.split(""), Vec::<&str>::new());
    assert_eq!(rules.split_ranges(""), Vec::<std::ops::Range<usize>>::new());
}

#[test]
fn empty_rules_yield_whole_text() {
    let rules = Rules::default();
    assert!(rules.is_empty());
    assert_eq!(rules.len(), 0);
    assert_eq!(rules.split("No rule applies here."), vec!["No rule applies here."]);
}

#[test]
fn example_splits_correct() {
    // The classic abbreviation example: do not break after "U.K." or "Mr.",
    // break after a full stop followed by whitespace and an uppercase
    // letter.
    let rules = Rules::new(vec![
        rule(Some("U\\.K\\."), Some("\\s"), false),
        rule(Some("Mr\\."), Some("\\s"), false),
        rule(Some("\\."), Some("\\s[A-Z]"), true),
    ]);

    let text = "The U.K. Prime Minister, Mr. Blair, was seen out with his family today. He is well.";
    assert_eq!(
        rules.split(text),
        vec![
            "The U.K. Prime Minister, Mr. Blair, was seen out with his family today.",
            " He is well."
        ]
    );
}

#[test]
fn example_splits_correct_multi_emoji() {
    // Break after sentence-ending punctuation and whitespace, except after
    // known abbreviations; the text holds multi-byte characters.
    let rules = Rules::new(vec![
        rule(Some("e\\.g\\.\\s"), None, false),
        rule(Some("U\\.K\\.\\s"), None, false),
        rule(Some("Mr\\.\\s"), None, false),
        rule(Some("\\.\\s"), Some("[A-Z]"), true),
    ]);

    let text = "e.g. U.K. and Mr. do not split. SRX is a \u{1F980}-based format \u{1F431}";
    assert_eq!(
        rules.split(text),
        vec![
            "e.g. U.K. and Mr. do not split. ",
            "SRX is a \u{1F980}-based format \u{1F431}"
        ]
    );
}

#[test]
fn split_ranges_lie_on_char_boundaries() {
    // "é" takes two bytes, so the break behind it must sit on a character
    // boundary, not in the middle of the encoding.
    let rules = Rules::new(vec![rule(Some("\\."), Some("\\s[A-Z]"), true)]);
    let text = "a\u{e9}. B";
    let ranges = rules.split_ranges(text);
    assert_eq!(ranges, vec![0..4, 4..6]);
    for r in ranges {
        assert!(text.is_char_boundary(r.start));
        assert!(text.is_char_boundary(r.end));
    }
}

#[test]
fn ignores_last_match_index() {
    // A break candidate at the very end of the text (offset == length) is
    // discarded, so the text stays whole.
    let rules = Rules::new(vec![rule(Some("!\\s"), None, true)]);
    let split: Vec<&str> = rules.split("Hello! ");
    assert_eq!(split, vec!["Hello! "]);
}

#[test]
fn break_at_offset_zero_emits_empty_segment() {
    let rules = Rules::new(vec![rule(None, Some("H"), true)]);
    assert_eq!(rules.split("Hi"), vec!["", "Hi"]);
}

#[test]
fn first_rule_wins_on_shared_offset() {
    // Both rules claim the offset after "x." — the earlier one decides.
    let no_break_first = Rules::new(vec![
        rule(Some("x\\."), Some("\\s"), false),
        rule(Some("x\\."), Some("\\s"), true),
    ]);
    assert_eq!(no_break_first.split("ax. b"), vec!["ax. b"]);

    let break_first = Rules::new(vec![
        rule(Some("x\\."), Some("\\s"), true),
        rule(Some("x\\."), Some("\\s"), false),
    ]);
    assert_eq!(break_first.split("ax. b"), vec!["ax.", " b"]);
}

#[test]
fn concatenation_reproduces_input() {
    let rules = Rules::new(vec![
        rule(Some("\\."), Some("\\s"), true),
        rule(Some("!"), Some("\\s"), true),
    ]);
    let text = "One. Two! Three \u{1F431}. End";
    let parts = rules.split(text);
    assert!(parts.len() > 1);
    assert_eq!(parts.concat(), text);
}
