use gatherbrained::{
    accepted, append_extension, history_for, tmpfile_for, Error, Gatherbrained,
};

const STORE: &str = "Alpha #tag1\n----\nBeta Gamma #tag2\n";

fn store() -> Gatherbrained {
    Gatherbrained::new("ideas.gb", Ok(STORE)).unwrap()
}

#[test]
fn new_reads_the_entries_in_file_order() {
    let store = store();
    assert_eq!(store.entries(), &vec!["Alpha #tag1".to_string(), "Beta Gamma #tag2".to_string()]);
    assert_eq!(store.path(), "ideas.gb");
}

#[test]
fn new_of_an_empty_file_is_an_empty_store() {
    let store = Gatherbrained::new("ideas.gb", Ok("")).unwrap();
    assert!(store.entries().is_empty());
    assert_eq!(store.contents(), "");
}

#[test]
fn search_by_one_tag_selects_the_tagged_entry() {
    assert_eq!(store().search(&["tag1"]).unwrap(), "Alpha #tag1\n");
}

#[test]
fn search_ignores_letter_case() {
    assert_eq!(store().search(&["gamma"]).unwrap(), "Beta Gamma #tag2\n");
}

#[test]
fn search_needs_every_needle() {
    assert_eq!(store().search(&["tag1", "tag2"]).unwrap(), "");
}

#[test]
fn search_without_needles_returns_every_entry_in_order() {
    assert_eq!(store().search(&[]).unwrap(), STORE);
    let three = Gatherbrained::new("x", Ok("c\n--\na\n-\nb")).unwrap();
    assert_eq!(three.search(&[]).unwrap(), "c\n----\na\n----\nb\n");
}

#[test]
fn search_keeps_file_order() {
    let store = Gatherbrained::new("x", Ok("b #t\n----\nskip\n----\na #t\n----\nc #T\n")).unwrap();
    assert_eq!(store.search(&["#t"]).unwrap(), "b #t\n----\na #t\n----\nc #T\n");
}

#[test]
fn search_leaves_the_store_as_it_is() {
    let store = store();
    let _ = store.search(&["tag1"]).unwrap();
    assert_eq!(store.contents(), STORE);
}

#[test]
fn searching_a_search_result_again_changes_nothing() {
    let store = Gatherbrained::new("x", Ok("b #t\n----\nskip\n----\na #t\n----\nc #T\n")).unwrap();
    let once = store.search(&["#t"]).unwrap();
    let again = Gatherbrained::new("x", Ok(&once)).unwrap().search(&["#t"]).unwrap();
    assert_eq!(again, once);
}

#[test]
fn contents_are_the_canonical_text_of_the_store() {
    let store = Gatherbrained::new("x", Ok("\n  one \n-\n\n--\ntwo\n")).unwrap();
    assert_eq!(store.contents(), "one\n----\ntwo\n");
}

#[test]
fn merge_appends_the_other_entries() {
    let mut store = store();
    let other = Gatherbrained::new("elsewhere", Ok("Delta\n----\nAlpha #tag1\n")).unwrap();
    store.merge(other);
    assert_eq!(
        store.contents(),
        "Alpha #tag1\n----\nBeta Gamma #tag2\n----\nDelta\n----\nAlpha #tag1\n"
    );
    assert_eq!(store.path(), "ideas.gb");
}

#[test]
fn generate_is_the_writer_of_the_format() {
    assert_eq!(Gatherbrained::generate(&[" a ", "b"]), "a\n----\nb\n");
    assert_eq!(Gatherbrained::generate(&[]), "");
}

#[test]
fn clone_is_a_store_of_its_own() {
    let store = store();
    let mut copy = store.clone();
    assert_eq!(
        copy.add(Some(0), Ok(Some("Delta"))).unwrap(),
        Some("Alpha #tag1\n----\nBeta Gamma #tag2\n----\nDelta\n".to_string())
    );
    assert_eq!(store.contents(), STORE);
    assert_eq!(copy.path(), store.path());
}

#[test]
fn derived_paths_append_a_suffix() {
    assert_eq!(history_for("ideas.gb"), "ideas.gb.history");
    assert_eq!(tmpfile_for("ideas.gb"), "ideas.gb.tmp");
    assert_eq!(tmpfile_for("dir/ideas"), "dir/ideas.tmp");
    assert_eq!(tmpfile_for(""), ".tmp");
    assert_eq!(append_extension("a/b.c", ".d"), "a/b.c.d");
}

#[test]
fn only_status_zero_is_accepted() {
    assert!(accepted(Some(0)));
    assert!(!accepted(Some(1)));
    assert!(!accepted(Some(-1)));
    assert!(!accepted(None));
}

#[test]
fn begin_wants_an_editor() {
    assert_eq!(store().begin(None, false).unwrap_err(), Error::EnvVar);
    assert_eq!(store().begin(None, true).unwrap_err(), Error::EnvVar);
}

#[test]
fn begin_refuses_an_occupied_scratch_path() {
    assert_eq!(
        store().begin(Some("vi"), true).unwrap_err(),
        Error::TempfileExists { path: "ideas.gb.tmp".to_string() }
    );
}

#[test]
fn begin_names_the_editor_and_the_scratch_path() {
    let session = store().begin(Some("vi"), false).unwrap();
    assert_eq!(session.editor, "vi");
    assert_eq!(session.scratch, "ideas.gb.tmp");
}

#[test]
fn add_appends_what_the_editor_left() {
    let mut store = store();
    let text = store.add(Some(0), Ok(Some("\nDelta #tag1\n----\nEpsilon\n"))).unwrap();
    let expected = "Alpha #tag1\n----\nBeta Gamma #tag2\n----\nDelta #tag1\n----\nEpsilon\n";
    assert_eq!(text, Some(expected.to_string()));
    assert_eq!(store.contents(), expected);
    assert_eq!(store.entries().len(), 4);
}

#[test]
fn add_without_a_scratch_file_does_nothing() {
    let mut store = store();
    assert_eq!(store.add(Some(0), Ok(None)).unwrap(), None);
    assert_eq!(store.contents(), STORE);
}

#[test]
fn add_of_a_blank_scratch_file_does_nothing() {
    let mut store = store();
    assert_eq!(store.add(Some(0), Ok(Some(""))).unwrap(), None);
    assert_eq!(store.add(Some(0), Ok(Some("\n----\n  \n"))).unwrap(), None);
    assert_eq!(store.contents(), STORE);
}

#[test]
fn add_fails_when_the_editor_failed() {
    let mut store = store();
    assert_eq!(store.add(Some(1), Ok(Some("Delta"))).unwrap_err(), Error::EditorFailed);
    assert_eq!(store.add(None, Ok(Some("Delta"))).unwrap_err(), Error::EditorFailed);
    assert_eq!(store.add(Some(2), Ok(None)).unwrap_err(), Error::EditorFailed);
    assert_eq!(store.contents(), STORE);
}

#[test]
fn edit_replaces_the_matched_entry_with_two_new_ones() {
    let mut store = store();
    let scratch = store.search(&["tag1"]).unwrap();
    assert_eq!(scratch, "Alpha #tag1\n");
    let edited = "Alpha, reworked #tag1\n----\nAleph #tag1\n";
    let text = store.edit(&["tag1"], Some(0), Ok(edited)).unwrap();
    assert_eq!(
        store.entries(),
        &vec![
            "Beta Gamma #tag2".to_string(),
            "Alpha, reworked #tag1".to_string(),
            "Aleph #tag1".to_string()
        ]
    );
    assert_eq!(text, "Beta Gamma #tag2\n----\nAlpha, reworked #tag1\n----\nAleph #tag1\n");
    assert_eq!(store.contents(), text);
}

#[test]
fn edit_keeps_the_order_of_what_stays() {
    let mut store = Gatherbrained::new("x", Ok("a #t\n-\nb\n-\nc #t\n-\nd\n")).unwrap();
    let text = store.edit(&["#T"], Some(0), Ok("e #t")).unwrap();
    assert_eq!(text, "b\n----\nd\n----\ne #t\n");
}

#[test]
fn edit_to_nothing_deletes_what_matched() {
    let mut store = store();
    assert_eq!(store.edit(&["tag1"], Some(0), Ok("")).unwrap(), "Beta Gamma #tag2\n");
    assert_eq!(store.entries().len(), 1);
}

#[test]
fn edit_without_needles_replaces_everything() {
    let mut store = store();
    assert_eq!(store.edit(&[], Some(0), Ok("Omega")).unwrap(), "Omega\n");
    let mut store = self::store();
    assert_eq!(store.edit(&[], Some(0), Ok(" \n")).unwrap(), "");
}

#[test]
fn edit_that_matches_nothing_only_appends() {
    let mut store = store();
    assert_eq!(
        store.edit(&["nowhere"], Some(0), Ok("Omega")).unwrap(),
        "Alpha #tag1\n----\nBeta Gamma #tag2\n----\nOmega\n"
    );
}

#[test]
fn edit_fails_when_the_editor_failed() {
    let mut store = store();
    assert_eq!(store.edit(&["tag1"], Some(130), Ok("Omega")).unwrap_err(), Error::EditorFailed);
    assert_eq!(store.edit(&["tag1"], None, Ok("")).unwrap_err(), Error::EditorFailed);
    assert_eq!(store.contents(), STORE);
}

#[test]
fn new_of_an_unreadable_file_fails() {
    let r = Gatherbrained::new("ideas.gb", Err("permission denied"));
    assert_eq!(r.unwrap_err(), Error::System { what: "permission denied".to_string() });
}

#[test]
fn add_fails_when_the_scratch_file_is_unreadable() {
    let mut store = store();
    assert_eq!(
        store.add(Some(0), Err("invalid data")).unwrap_err(),
        Error::System { what: "invalid data".to_string() }
    );
    assert_eq!(store.contents(), STORE);
}

#[test]
fn add_reports_the_editor_before_the_scratch_file() {
    let mut store = store();
    assert_eq!(store.add(Some(1), Err("invalid data")).unwrap_err(), Error::EditorFailed);
    assert_eq!(store.add(None, Ok(None)).unwrap_err(), Error::EditorFailed);
}

#[test]
fn edit_fails_when_the_scratch_file_is_unreadable() {
    let mut store = store();
    assert_eq!(
        store.edit(&["tag1"], Some(0), Err("not found")).unwrap_err(),
        Error::System { what: "not found".to_string() }
    );
    assert_eq!(store.edit(&["tag1"], Some(9), Err("not found")).unwrap_err(), Error::EditorFailed);
    assert_eq!(store.contents(), STORE);
}
