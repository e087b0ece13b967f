//! Tests of the raw-table helpers, errors and anchored pattern compilation.

use srx::schema::string_to_bool;
use srx::{end_regex, full_regex, start_regex, str_eq, Error};

#[test]
fn string_to_bool_accepts_the_two_tokens() {
    assert_eq!(string_to_bool("yes").expect("token is valid"), true);
    assert_eq!(string_to_bool("no").expect("token is valid"), false);
}

#[test]
fn string_to_bool_rejects_other_tokens() {
    for bad in ["", "Yes", "NO", "maybe", "true"] {
        match string_to_bool(bad) {
            Err(Error::SRXError { reason }) => {
                assert_eq!(
                    reason,
                    format!("unexpected boolean value '{}'. Expected 'yes' or 'no'.", bad)
                );
            }
            _ => panic!("expected a structural error"),
        }
    }
}

#[test]
fn error_message_prefixes_the_reason() {
    let e = Error::SRXError { reason: "something is off".to_string() };
    assert_eq!(e.message(), "invalid SRX: something is off");

    let e = Error::RegexError("unclosed group".to_string());
    assert_eq!(e.message(), "Error constructing regex: unclosed group");
}

#[test]
fn str_eq_compares_characters() {
    assert!(str_eq("", ""));
    assert!(str_eq("a\u{e9}\u{1F431}", "a\u{e9}\u{1F431}"));
    assert!(!str_eq("abc", "abd"));
    assert!(!str_eq("abc", "ab"));
}

#[test]
fn full_regex_anchors_both_ends() {
    let re = full_regex("en").expect("pattern is valid");
    assert!(re.is_match("en"));
    assert!(!re.is_match("men"));
    assert!(!re.is_match("enx"));
}

#[test]
fn start_regex_anchors_the_start() {
    let re = start_regex("en").expect("pattern is valid");
    assert!(re.is_match("enx"));
    assert!(!re.is_match("xen"));
}

#[test]
fn end_regex_anchors_the_end() {
    let re = end_regex("en").expect("pattern is valid");
    assert!(re.is_match("xen"));
    assert!(!re.is_match("enx"));
}

#[test]
fn anchored_compilation_can_fail() {
    assert!(full_regex("(").is_err());
    assert!(start_regex("(").is_err());
    assert!(end_regex("(").is_err());
}
