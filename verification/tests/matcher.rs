use gatherbrained::matcher;
use gatherbrained::matcher::lower;

#[test]
fn matching_ignores_letter_case() {
    assert!(matcher::matches("Hello World", &["hello"]));
    assert!(matcher::matches("Hello World", &["WORLD"]));
    assert!(matcher::matches("hello world", &["HeLLo", "wORLD"]));
}

#[test]
fn matching_is_by_substring() {
    assert!(matcher::matches("heart", &["art"]));
    assert!(matcher::matches("Alpha #tag1", &["tag1"]));
    assert!(matcher::matches("Alpha #tag1", &["#tag"]));
    assert!(!matcher::matches("Alpha #tag1", &["tag2"]));
}

#[test]
fn no_needles_match_everything() {
    assert!(matcher::matches("anything", &[]));
    assert!(matcher::matches("", &[]));
}

#[test]
fn the_empty_needle_matches_everything() {
    assert!(matcher::matches("anything", &[""]));
    assert!(matcher::matches("", &[""]));
}

#[test]
fn every_needle_must_match() {
    let entry = "Beta Gamma #tag2";
    for a in ["beta", "tag2", "delta", ""] {
        for b in ["gamma", "tag1", "#"] {
            let both = matcher::matches(entry, &[a, b]);
            assert_eq!(both, matcher::matches(entry, &[a]) && matcher::matches(entry, &[b]));
        }
    }
    assert!(matcher::matches(entry, &["beta", "gamma", "tag2"]));
    assert!(!matcher::matches(entry, &["beta", "gamma", "tag1"]));
}

#[test]
fn matching_folds_case_beyond_ascii() {
    assert!(matcher::matches("\u{c9}t\u{e9}", &["\u{e9}T\u{c9}"]));
    assert!(matcher::matches("\u{130}stanbul", &["i\u{307}stanbul"]));
    assert!(!matcher::matches("stra\u{df}e", &["STRASSE"]));
}

#[test]
fn lower_folds_each_needle() {
    let lowered: Vec<String> =
        lower(&["Tag1", "GAMMA", ""]).into_iter().map(|n| n.into_iter().collect()).collect();
    assert_eq!(lowered, vec!["tag1", "gamma", ""]);
}
