use word_triples::text::split_str;

fn pieces(s: &str, sep: char) -> Vec<String> {
    split_str(s, sep)
}

#[test]
fn split_of_the_empty_text_is_one_empty_piece() {
    assert_eq!(pieces("", '-'), vec![""]);
}

#[test]
fn split_without_separator_is_the_text() {
    assert_eq!(pieces("abacus", '-'), vec!["abacus"]);
}

#[test]
fn split_cuts_at_every_separator() {
    assert_eq!(pieces("a-b", '-'), vec!["a", "b"]);
    assert_eq!(pieces("abacus-abacus-abridge", '-'), vec!["abacus", "abacus", "abridge"]);
    assert_eq!(pieces("one\ntwo\nthree", '\n'), vec!["one", "two", "three"]);
}

#[test]
fn split_keeps_empty_pieces() {
    assert_eq!(pieces("-", '-'), vec!["", ""]);
    assert_eq!(pieces("--", '-'), vec!["", "", ""]);
    assert_eq!(pieces("-a-", '-'), vec!["", "a", ""]);
    assert_eq!(pieces("a--b", '-'), vec!["a", "", "b"]);
    assert_eq!(pieces("one\ntwo\n", '\n'), vec!["one", "two", ""]);
}

#[test]
fn split_goes_by_characters_not_bytes() {
    assert_eq!(pieces("\u{e9}t\u{e9}-\u{1f600}", '-'), vec!["\u{e9}t\u{e9}", "\u{1f600}"]);
    assert_eq!(pieces("a\u{e9}b\u{e9}c", '\u{e9}'), vec!["a", "b", "c"]);
}

#[test]
fn split_agrees_with_the_standard_library() {
    let samples: [&str; 7] = ["", "-", "a", "a-b-c", "--a--", "abacus-abacus-abridge", "x-"];
    for s in samples {
        let expected: Vec<String> = s.split('-').map(|p| p.to_string()).collect();
        assert_eq!(pieces(s, '-'), expected);
        assert_eq!(pieces(s, '-').join("-"), s);
    }
}
