//! Tests of engine construction, language resolution and diagnostics.

use srx::schema;
use srx::SRX;

fn raw_rule(do_break: &str, before: Option<&str>, after: Option<&str>) -> schema::Rule {
    schema::Rule {
        do_break: do_break.to_string(),
        beforebreak: before.map(|s| s.to_string()),
        afterbreak: after.map(|s| s.to_string()),
    }
}

fn group(name: &str, rules: Vec<schema::Rule>) -> schema::LanguageRule {
    schema::LanguageRule { name: name.to_string(), rules }
}

fn map_entry(pattern: &str, name: &str) -> schema::LanguageMap {
    schema::LanguageMap { pattern: pattern.to_string(), name: name.to_string() }
}

fn table(
    cascade: &str,
    groups: Vec<schema::LanguageRule>,
    maps: Vec<schema::LanguageMap>,
) -> schema::SRX {
    schema::SRX {
        version: None,
        header: schema::Header {
            segmentsubflows: None,
            cascade: cascade.to_string(),
            handles: vec![],
        },
        body: schema::Body {
            languagerules: schema::LanguageRules { rules: groups },
            maprules: schema::MapRules { maps },
        },
    }
}

#[test]
fn getting_language_rules_works() {
    let srx = SRX::build(table(
        "no",
        vec![
            group(
                "English",
                vec![
                    raw_rule("no", Some("Mr\\."), Some("\\s")),
                    raw_rule("yes", Some("\\."), Some("\\s[A-Z]")),
                ],
            ),
            group("French", vec![raw_rule("yes", Some("\\."), Some("\\s"))]),
        ],
        vec![map_entry("en.*", "English"), map_entry("fr.*", "French")],
    ))
    .expect("table is valid");

    assert!(!srx.language_rules("en").is_empty());
    assert_ne!(srx.language_rules("en").len(), srx.language_rules("fr").len());
}

#[test]
fn map_patterns_match_whole_code() {
    let srx = SRX::build(table(
        "no",
        vec![group("English", vec![raw_rule("yes", Some("\\."), Some("\\s"))])],
        vec![map_entry("en", "English")],
    ))
    .expect("table is valid");

    assert_eq!(srx.language_rules("en").len(), 1);
    // "en" must match the whole code, not a part of it.
    assert_eq!(srx.language_rules("men").len(), 0);
    assert_eq!(srx.language_rules("en-GB").len(), 0);
}

#[test]
fn cascade_false_takes_first_matching_bucket() {
    // Both entries match "en"; with cascade off only the first one counts.
    let srx = SRX::build(table(
        "no",
        vec![
            group("English", vec![raw_rule("yes", Some("x\\."), Some("\\s"))]),
            group(
                "Default",
                vec![
                    raw_rule("no", Some("x\\."), Some("\\s")),
                    raw_rule("yes", Some("y\\."), Some("\\s")),
                ],
            ),
        ],
        vec![map_entry("en.*", "English"), map_entry("[a-z].*", "Default")],
    ))
    .expect("table is valid");

    let rules = srx.language_rules("en");
    assert_eq!(rules.len(), 1);
    assert_eq!(rules.split("ax. b"), vec!["ax.", " b"]);
}

#[test]
fn cascade_true_accumulates_buckets_in_map_order() {
    // Both entries match "en"; with cascade on, Default's rules come first
    // and their no-break decision wins over English's break.
    let srx = SRX::build(table(
        "yes",
        vec![
            group("Default", vec![raw_rule("no", Some("x\\."), Some("\\s"))]),
            group("English", vec![raw_rule("yes", Some("x\\."), Some("\\s"))]),
        ],
        vec![map_entry("[a-z].*", "Default"), map_entry("en.*", "English")],
    ))
    .expect("table is valid");

    let rules = srx.language_rules("en");
    assert_eq!(rules.len(), 2);
    assert_eq!(rules.split("ax. b"), vec!["ax. b"]);

    // A code only one entry matches gets only that bucket.
    assert_eq!(srx.language_rules("EN").len(), 0);
    assert_eq!(srx.language_rules("de").len(), 1);
}

#[test]
fn unmatched_language_code_keeps_text_whole() {
    let srx = SRX::build(table(
        "yes",
        vec![group("English", vec![raw_rule("yes", Some("\\."), Some("\\s"))])],
        vec![map_entry("en.*", "English")],
    ))
    .expect("table is valid");

    let rules = srx.language_rules("zz-UNKNOWN");
    assert!(rules.is_empty());
    assert_eq!(rules.split("One. Two. Three."), vec!["One. Two. Three."]);
}

#[test]
fn errors_reported() {
    // "broken" declares three rules: one compiles, "(" does not, and an
    // empty pattern pair is refused — so two diagnostics stay behind.
    let srx = SRX::build(table(
        "no",
        vec![
            group(
                "broken",
                vec![
                    raw_rule("yes", Some("\\."), Some("\\s")),
                    raw_rule("yes", Some("("), None),
                    raw_rule("no", None, None),
                ],
            ),
            group("clean", vec![raw_rule("yes", Some("!"), Some("\\s"))]),
        ],
        vec![map_entry("br.*", "broken"), map_entry("cl.*", "clean")],
    ))
    .expect("table is valid");

    let errors = srx.errors();
    assert!(!errors.is_empty());
    let total: usize = errors.iter().map(|(_, msgs)| msgs.len()).sum();
    assert_eq!(total, 2);

    let broken = errors.iter().find(|(lang, _)| lang.0 == "broken").expect("diagnostics exist");
    assert_eq!(broken.1.len(), 2);
    let clean = errors.iter().find(|(lang, _)| lang.0 == "clean").expect("diagnostics exist");
    assert_eq!(clean.1.len(), 0);

    // Diagnostics accounting: three declared, two failed, one active.
    assert_eq!(srx.language_rules("br").len(), 1);
}

#[test]
fn duplicate_language_keeps_last_bucket_and_all_diagnostics() {
    let srx = SRX::build(table(
        "no",
        vec![
            group(
                "English",
                vec![raw_rule("yes", Some("("), None), raw_rule("yes", Some("\\."), Some("\\s"))],
            ),
            group(
                "English",
                vec![
                    raw_rule("yes", Some("!"), Some("\\s")),
                    raw_rule("no", Some("\\?"), Some("\\s")),
                ],
            ),
        ],
        vec![map_entry("en.*", "English")],
    ))
    .expect("table is valid");

    // The second declaration's bucket wins...
    assert_eq!(srx.language_rules("en").len(), 2);
    // ...and the diagnostics of both declarations accumulate.
    let errors = srx.errors();
    assert_eq!(errors.len(), 1);
    assert_eq!(errors[0].0 .0, "English");
    assert_eq!(errors[0].1.len(), 1);
}

#[test]
fn build_rejects_malformed_cascade_token() {
    let r = SRX::build(table("maybe", vec![], vec![]));
    assert!(matches!(r, Err(srx::Error::SRXError { .. })));
}

#[test]
fn build_rejects_invalid_map_pattern() {
    let r = SRX::build(table(
        "yes",
        vec![group("English", vec![])],
        vec![map_entry("(", "English")],
    ));
    assert!(matches!(r, Err(srx::Error::RegexError(_))));
}

#[test]
fn build_rejects_malformed_break_token() {
    let r = SRX::build(table(
        "yes",
        vec![group("English", vec![raw_rule("perhaps", Some("\\."), None)])],
        vec![map_entry("en.*", "English")],
    ));
    assert!(matches!(r, Err(srx::Error::SRXError { .. })));
}

#[test]
fn build_rejects_mapped_language_without_bucket() {
    let r = SRX::build(table(
        "yes",
        vec![group("English", vec![])],
        vec![map_entry("en.*", "English"), map_entry("zz.*", "Missing")],
    ));
    match r {
        Err(srx::Error::SRXError { reason }) => {
            assert!(reason.contains("Did not find entry for Missing"));
        }
        _ => panic!("expected a structural error"),
    }
}

#[test]
fn empty_bucket_for_mapped_language_is_accepted() {
    let srx = SRX::build(table(
        "yes",
        vec![group("English", vec![])],
        vec![map_entry("en.*", "English")],
    ))
    .expect("table is valid");
    assert_eq!(srx.language_rules("en").len(), 0);
}
