use gatherbrained::model::Separator;
use gatherbrained::text::{
    chars_of, contains, is_whitespace, lowercase_of, split, string_of, trim_bounds, words,
};

fn chars(s: &str) -> Vec<char> {
    s.chars().collect()
}

fn strings(pieces: Vec<Vec<char>>) -> Vec<String> {
    pieces.into_iter().map(|p| p.into_iter().collect()).collect()
}

fn trimmed(s: &str) -> String {
    let v = chars(s);
    let (from, to) = trim_bounds(&v);
    string_of(&v, from, to)
}

const SAMPLES: [&str; 12] = [
    "",
    " ",
    "\n",
    "a",
    " a",
    "a ",
    "  a b  ",
    "\t\n a\u{a0}b \u{3000}\r\n",
    "\u{2003}x\u{2003}",
    "no edges",
    "\u{200b}zero width is no space\u{200b}",
    "line one\nline two\n\nline four\n",
];

#[test]
fn is_whitespace_is_that_of_the_standard_library() {
    let mut c = '\0';
    loop {
        assert_eq!(is_whitespace(c), c.is_whitespace(), "U+{:04X}", c as u32);
        if c == char::MAX {
            break;
        }
        c = char::from_u32(c as u32 + 1).unwrap_or('\u{e000}');
    }
}

#[test]
fn chars_of_and_string_of_are_inverse() {
    for s in SAMPLES {
        let v = chars_of(s);
        assert_eq!(v, chars(s));
        assert_eq!(string_of(&v, 0, v.len()), s);
    }
    let v = chars_of("h\u{e9}llo");
    assert_eq!(string_of(&v, 1, 3), "\u{e9}l");
    assert_eq!(string_of(&v, 2, 2), "");
}

#[test]
fn trim_is_that_of_the_standard_library() {
    for s in SAMPLES {
        assert_eq!(trimmed(s), s.trim(), "{:?}", s);
    }
}

#[test]
fn trim_bounds_of_blank_text_are_empty() {
    let v = chars(" \t\n");
    let (from, to) = trim_bounds(&v);
    assert_eq!(from, to);
    assert_eq!(trim_bounds(&chars("  ab ")), (2, 4));
    assert_eq!(trim_bounds(&[]), (0, 0));
}

#[test]
fn lines_are_those_of_the_standard_library() {
    for s in SAMPLES {
        let expected: Vec<String> = s.split('\n').map(|l| l.to_string()).collect();
        assert_eq!(strings(split(&chars(s), Separator::Newline)), expected, "{:?}", s);
    }
}

#[test]
fn split_gives_one_piece_more_than_separators() {
    assert_eq!(strings(split(&chars(""), Separator::Newline)), vec![""]);
    assert_eq!(strings(split(&chars("\n"), Separator::Newline)), vec!["", ""]);
    assert_eq!(strings(split(&chars("a\n\nb\n"), Separator::Newline)), vec!["a", "", "b", ""]);
    assert_eq!(strings(split(&chars("a b\tc"), Separator::Whitespace)), vec!["a", "b", "c"]);
}

#[test]
fn words_are_those_of_the_standard_library() {
    for s in SAMPLES {
        let expected: Vec<String> = s.split_whitespace().map(|w| w.to_string()).collect();
        assert_eq!(strings(words(&chars(s))), expected, "{:?}", s);
    }
}

#[test]
fn words_of_a_blank_line_are_none() {
    assert_eq!(words(&chars("")), Vec::<Vec<char>>::new());
    assert_eq!(words(&chars(" \t \u{a0}")), Vec::<Vec<char>>::new());
    assert_eq!(strings(words(&chars("  tag1   #tag2 "))), vec!["tag1", "#tag2"]);
}

#[test]
fn contains_is_that_of_the_standard_library() {
    let hays = ["", "a", "heart", "abcabd", "aaab", "Hello World", "ab"];
    let needles = ["", "a", "art", "abd", "aab", "abc", "b", "World", "world", "abcabdx", "ba"];
    for hay in hays {
        for needle in needles {
            assert_eq!(
                contains(&chars(hay), &chars(needle)),
                hay.contains(needle),
                "{:?} in {:?}",
                needle,
                hay
            );
        }
    }
}

#[test]
fn contains_finds_a_needle_at_either_end() {
    assert!(contains(&chars("heart"), &chars("art")));
    assert!(contains(&chars("heart"), &chars("he")));
    assert!(contains(&chars("heart"), &chars("heart")));
    assert!(!contains(&chars("heart"), &chars("hearts")));
    assert!(!contains(&chars("heart"), &chars("hat")));
}

#[test]
fn lowercase_of_folds_letter_case() {
    assert_eq!(lowercase_of("Hello World"), chars("hello world"));
    assert_eq!(lowercase_of("\u{c0}B #Tag"), chars("\u{e0}b #tag"));
    assert_eq!(lowercase_of("\u{130}"), chars("i\u{307}"));
    assert_eq!(lowercase_of(""), chars(""));
}
