use word_lsp::complete::completion_labels;

fn labels(text: &str, line: usize, character: usize) -> Option<Vec<String>> {
    completion_labels(&text.as_bytes().to_vec(), line, character)
        .map(|ls| ls.into_iter().map(|l| String::from_utf8(l).unwrap()).collect())
}

fn strings(ws: &[&str]) -> Option<Vec<String>> {
    Some(ws.iter().map(|w| w.to_string()).collect())
}

#[test]
fn distinct_words_of_prefix() {
    assert_eq!(labels("foo bar foo baz", 0, 15), strings(&["foo", "bar", "baz"]));
}

#[test]
fn symbols_are_excluded() {
    assert_eq!(labels("a + b = a", 0, 9), strings(&["a", "b"]));
}

#[test]
fn prefix_stops_at_cursor() {
    assert_eq!(labels("let x = value", 0, 5), strings(&["let", "x"]));
}

#[test]
fn second_line_is_scanned_alone() {
    assert_eq!(labels("alpha beta\ngamma alpha", 1, 11), strings(&["gamma", "alpha"]));
}

#[test]
fn first_seen_order_is_kept() {
    assert_eq!(labels("b a b c a", 0, 9), strings(&["b", "a", "c"]));
}

#[test]
fn repeated_request_is_identical() {
    let a = labels("x y x z", 0, 7);
    let b = labels("x y x z", 0, 7);
    assert_eq!(a, b);
    assert_eq!(a, strings(&["x", "y", "z"]));
}

#[test]
fn line_out_of_range_gives_nothing() {
    assert_eq!(labels("one line", 3, 0), None);
}

#[test]
fn offset_out_of_range_gives_nothing() {
    assert_eq!(labels("ab", 0, 3), None);
}

#[test]
fn crlf_line_ending_is_stripped() {
    assert_eq!(labels("ab\r\ncd", 0, 2), strings(&["ab"]));
    assert_eq!(labels("ab\r\ncd", 0, 3), None);
    assert_eq!(labels("ab\r\ncd", 1, 2), strings(&["cd"]));
}

#[test]
fn trailing_newline_opens_no_line() {
    assert_eq!(labels("ab\n", 1, 0), None);
    assert_eq!(labels("ab\n", 0, 1), strings(&["a"]));
}

#[test]
fn empty_prefix_gives_empty_list() {
    assert_eq!(labels("abc", 0, 0), strings(&[]));
}

#[test]
fn empty_document_has_no_lines() {
    assert_eq!(labels("", 0, 0), None);
}
