use gatherbrained::compose::{queries, words_of};
use gatherbrained::{Error, Gatherbrained};

const STORE: &str = "Alpha #tag1\n----\nBeta Gamma #tag2\n";

fn store() -> Gatherbrained {
    Gatherbrained::new("ideas.gb", Ok(STORE)).unwrap()
}

#[test]
fn narrate_joins_one_arc_for_each_line() {
    assert_eq!(
        store().narrate(&[Ok("tag1\ntag2")]).unwrap(),
        "Alpha #tag1\n----\nBeta Gamma #tag2\n"
    );
}

#[test]
fn narrate_follows_the_order_of_the_narrative() {
    assert_eq!(
        store().narrate(&[Ok("tag2\ntag1\n")]).unwrap(),
        "Beta Gamma #tag2\n----\nAlpha #tag1\n"
    );
}

#[test]
fn narrate_skips_blank_lines_and_lines_without_a_match() {
    assert_eq!(
        store().narrate(&[Ok("\n  \ntag1\n\nnowhere\n\t\ntag2\n\n")]).unwrap(),
        "Alpha #tag1\n----\nBeta Gamma #tag2\n"
    );
    assert_eq!(store().narrate(&[Ok("nowhere\n\n")]).unwrap(), "");
    assert_eq!(store().narrate(&[Ok("")]).unwrap(), "");
    assert_eq!(store().narrate(&[]).unwrap(), "");
}

#[test]
fn narrate_takes_the_words_of_a_line_together() {
    assert_eq!(
        store().narrate(&[Ok("beta   GAMMA\ntag1 tag2\n#tag a")]).unwrap(),
        "Beta Gamma #tag2\n----\nAlpha #tag1\n----\nBeta Gamma #tag2\n"
    );
}

#[test]
fn narrate_repeats_an_entry_that_several_lines_select() {
    assert_eq!(
        store().narrate(&[Ok("tag\ntag1")]).unwrap(),
        "Alpha #tag1\n----\nBeta Gamma #tag2\n----\nAlpha #tag1\n"
    );
}

#[test]
fn narrate_reads_the_narratives_one_after_the_other() {
    assert_eq!(
        store().narrate(&[Ok("tag2"), Ok("nowhere"), Ok("tag1\ntag2")]).unwrap(),
        "Beta Gamma #tag2\n----\nAlpha #tag1\n----\nBeta Gamma #tag2\n"
    );
}

#[test]
fn missing_is_empty_when_every_entry_is_told() {
    assert_eq!(store().missing(&[Ok("tag1\ntag2")]).unwrap(), "");
}

#[test]
fn missing_returns_what_no_line_matches() {
    assert_eq!(store().missing(&[Ok("tag1")]).unwrap(), "Beta Gamma #tag2\n");
    assert_eq!(store().missing(&[Ok("tag2\n\nnowhere")]).unwrap(), "Alpha #tag1\n");
    assert_eq!(store().missing(&[Ok("tag1 tag2")]).unwrap(), STORE);
}

#[test]
fn missing_without_a_query_returns_everything() {
    assert_eq!(store().missing(&[]).unwrap(), STORE);
    assert_eq!(store().missing(&[Ok(""), Ok("\n \n")]).unwrap(), STORE);
}

#[test]
fn missing_adds_up_the_lines_of_all_narratives() {
    let store = Gatherbrained::new("x", Ok("a #one\n-\nb #two\n-\nc #three\n-\nd\n")).unwrap();
    assert_eq!(store.missing(&[Ok("one"), Ok("three\n")]).unwrap(), "b #two\n----\nd\n");
    assert_eq!(store.missing(&[Ok("one\nTHREE"), Ok("two")]).unwrap(), "d\n");
}

#[test]
fn missing_keeps_or_drops_entries_of_equal_text_together() {
    let store = Gatherbrained::new("x", Ok("same\n-\nother #t\n-\nsame\n")).unwrap();
    assert_eq!(store.missing(&[Ok("#t")]).unwrap(), "same\n----\nsame\n");
    assert_eq!(store.missing(&[Ok("same")]).unwrap(), "other #t\n");
}

#[test]
fn missing_is_what_the_searches_of_the_narrative_leave() {
    let text = "a #one\n-\nb #two\n-\nc #one #two\n-\nd\n-\ne #three\n";
    let store = Gatherbrained::new("x", Ok(text)).unwrap();
    let narrative = "one\n\nthree\n";
    let mut told: Vec<String> = Vec::new();
    for line in narrative.split('\n') {
        let needles: Vec<&str> = line.split_whitespace().collect();
        if needles.is_empty() {
            continue;
        }
        told.extend(gatherbrained::flatfile::parse(&store.search(&needles).unwrap()));
    }
    let expected: Vec<String> =
        store.entries().iter().filter(|e| !told.contains(e)).cloned().collect();
    let left = store.missing(&[Ok(narrative)]).unwrap();
    assert_eq!(gatherbrained::flatfile::parse(&left), expected);
    assert_eq!(expected, vec!["b #two", "d"]);
}

#[test]
fn queries_are_the_words_of_the_lines_that_have_any() {
    let expected: Vec<Vec<String>> = vec![
        vec!["tag1".to_string()],
        vec!["beta".to_string(), "gamma".to_string()],
        vec!["last".to_string()],
    ];
    assert_eq!(queries(&["tag1\n\n  beta\tgamma \n", "", " \nlast"]), expected);
    assert_eq!(queries(&[]), Vec::<Vec<String>>::new());
}

#[test]
fn narrate_fails_on_a_narrative_that_could_not_be_read() {
    assert_eq!(
        store().narrate(&[Ok("tag1"), Err("no such file"), Err("later")]).unwrap_err(),
        Error::System { what: "no such file".to_string() }
    );
    assert_eq!(
        store().narrate(&[Err("first"), Ok("tag1")]).unwrap_err(),
        Error::System { what: "first".to_string() }
    );
}

#[test]
fn missing_fails_on_a_narrative_that_could_not_be_read() {
    assert_eq!(
        store().missing(&[Ok("tag1"), Ok(""), Err("no such file")]).unwrap_err(),
        Error::System { what: "no such file".to_string() }
    );
}

#[test]
fn words_of_a_line_are_its_needles() {
    assert_eq!(words_of("  edit tag1\t#Tag2 "), vec!["edit", "tag1", "#Tag2"]);
    assert_eq!(words_of(" \n"), Vec::<String>::new());
}
