use keyboard_remap::filter::{file_name_filter, filter_outcome, DEFAULT_FILE_NAME_FILTER};
use regex::Regex;

#[test]
fn default_filter_is_for_java_files() {
    assert_eq!(DEFAULT_FILE_NAME_FILTER, r"^.*[.]java$");
    let filter = file_name_filter(None).ok().unwrap();
    assert_eq!(filter.as_str(), r"^.*[.]java$");
    assert!(filter.is_match("Main.java"));
    assert!(filter.is_match(".java"));
    assert!(!filter.is_match("Main.javax"));
    assert!(!filter.is_match("Main_java"));
    assert!(!filter.is_match("main.rs"));
}

#[test]
fn filter_is_compiled_from_the_pattern_asked_for() {
    let filter = file_name_filter(Some("^[a-c]+[.]rs$")).ok().unwrap();
    assert_eq!(filter.as_str(), "^[a-c]+[.]rs$");
    assert!(filter.is_match("abc.rs"));
    assert!(!filter.is_match("abd.rs"));
    assert!(!filter.is_match("Main.java"));
}

#[test]
fn invalid_pattern_is_reported_with_its_reason() {
    let expected = Regex::new("ab(c").unwrap_err().to_string();
    assert!(!expected.is_empty());
    let invalid = file_name_filter(Some("ab(c")).err().unwrap();
    assert_eq!(invalid.pattern, "ab(c");
    assert_eq!(invalid.reason, expected);
}

#[test]
fn outcome_keeps_a_compiled_filter() {
    let compiled = Regex::new("x+y");
    let outcome = filter_outcome("x+y", compiled);
    let filter = outcome.ok().unwrap();
    assert_eq!(filter.as_str(), "x+y");
    assert!(filter.is_match("axxy"));
}

#[test]
fn outcome_names_the_pattern_that_failed() {
    let compiled = Regex::new("[z-a]");
    let reason = compiled.clone().unwrap_err().to_string();
    let invalid = filter_outcome("[z-a]", compiled).err().unwrap();
    assert_eq!(invalid.pattern, "[z-a]");
    assert_eq!(invalid.reason, reason);
}

#[test]
fn filter_is_refused_exactly_where_the_compiler_refuses() {
    for pattern in ["", "^.*[.]java$", "a|b", "(", "[", "a{2,1}", "\\", "\\\\x", "*"] {
        let expected = Regex::new(pattern);
        match file_name_filter(Some(pattern)) {
            Ok(filter) => {
                assert!(expected.is_ok());
                assert_eq!(filter.as_str(), pattern);
            }
            Err(invalid) => {
                assert_eq!(invalid.pattern, pattern);
                assert_eq!(invalid.reason, expected.unwrap_err().to_string());
            }
        }
    }
    assert!(file_name_filter(Some("(")).is_err());
    assert!(file_name_filter(Some("a|b")).is_ok());
}
