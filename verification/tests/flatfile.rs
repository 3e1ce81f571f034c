use gatherbrained::flatfile::{generate, is_delimiter, parse};

fn chars(s: &str) -> Vec<char> {
    s.chars().collect()
}

#[test]
fn parse_splits_on_the_canonical_delimiter() {
    assert_eq!(
        parse("Alpha #tag1\n----\nBeta Gamma #tag2\n"),
        vec!["Alpha #tag1", "Beta Gamma #tag2"]
    );
}

#[test]
fn parse_of_nothing_is_nothing() {
    assert_eq!(parse(""), Vec::<String>::new());
    assert_eq!(parse("\n\n  \n"), Vec::<String>::new());
    assert_eq!(parse("----"), Vec::<String>::new());
    assert_eq!(parse("----\n"), Vec::<String>::new());
}

#[test]
fn parse_splits_alike_whatever_the_length_of_the_delimiter() {
    let expected = vec!["one", "two"];
    assert_eq!(parse("one\n-\ntwo\n"), expected);
    assert_eq!(parse("one\n--\ntwo\n"), expected);
    assert_eq!(parse("one\n----\ntwo\n"), expected);
    assert_eq!(parse("one\n------------\ntwo\n"), expected);
}

#[test]
fn parse_drops_empty_spans() {
    assert_eq!(parse("----\nA\n----\n----\n\n--\nB\n----\n"), vec!["A", "B"]);
    assert_eq!(parse("A\n----"), vec!["A"]);
    assert_eq!(parse("----\nA"), vec!["A"]);
}

#[test]
fn parse_keeps_the_inside_of_an_entry() {
    assert_eq!(
        parse("\n\n  first line\n\n  second line  \n\n"),
        vec!["first line\n\n  second line"]
    );
}

#[test]
fn parse_takes_only_lines_of_dashes_alone_for_delimiters() {
    assert_eq!(parse("a\n--x\nb"), vec!["a\n--x\nb"]);
    assert_eq!(parse("a\n ---\nb"), vec!["a\n ---\nb"]);
    assert_eq!(parse("a\n--- \nb"), vec!["a\n--- \nb"]);
    assert_eq!(parse("a\r\n----\r\nb"), vec!["a\r\n----\r\nb"]);
}

#[test]
fn parse_trims_unicode_whitespace() {
    assert_eq!(parse("\u{3000}\u{2003}idea\u{a0}\u{85}\n"), vec!["idea"]);
}

#[test]
fn parse_can_leave_a_delimiter_line_at_the_edge_of_an_entry() {
    let entries = parse("  ---\nfoo");
    assert_eq!(entries, vec!["---\nfoo"]);
    let refs: Vec<&str> = entries.iter().map(|e| e.as_str()).collect();
    assert_eq!(parse(&generate(&refs)), vec!["foo"]);
}

#[test]
fn generate_of_nothing_is_empty() {
    assert_eq!(generate(&[]), "");
}

#[test]
fn generate_ends_each_entry_with_one_line_feed() {
    assert_eq!(generate(&["a"]), "a\n");
}

#[test]
fn generate_puts_four_dashes_between_entries() {
    assert_eq!(generate(&["a", "b"]), "a\n----\nb\n");
    assert_eq!(generate(&["a", "b", "c d"]), "a\n----\nb\n----\nc d\n");
}

#[test]
fn generate_trims_each_entry() {
    assert_eq!(generate(&["  a  ", "\nb\n\n", "\tc\u{2028}"]), "a\n----\nb\n----\nc\n");
    assert_eq!(generate(&[" "]), "\n");
    assert_eq!(generate(&["a", ""]), "a\n----\n\n");
}

#[test]
fn parse_reads_back_what_generate_wrote() {
    let entries = ["first idea", "  second\nidea, on two lines ", "third #tag -- with dashes"];
    let text = generate(&entries);
    assert_eq!(
        parse(&text),
        vec!["first idea", "second\nidea, on two lines", "third #tag -- with dashes"]
    );
    let again: Vec<String> = parse(&text);
    let refs: Vec<&str> = again.iter().map(|e| e.as_str()).collect();
    assert_eq!(generate(&refs), text);
}

#[test]
fn is_delimiter_wants_dashes_and_nothing_else() {
    assert!(is_delimiter(&chars("-")));
    assert!(is_delimiter(&chars("----")));
    assert!(!is_delimiter(&chars("")));
    assert!(!is_delimiter(&chars("-- -")));
    assert!(!is_delimiter(&chars("---\r")));
    assert!(!is_delimiter(&chars("\u{2014}")));
}
