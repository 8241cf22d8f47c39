use citati::escape::is_escaped;
use citati::sanitize::{comments_in_citation_blocks, strip_comments};

fn with_backslashes(n: usize) -> String {
    let mut s = String::from("text ");
    for _ in 0..n {
        s.push('\\');
    }
    s
}

#[test]
fn escape_parity_zero_to_four() {
    assert!(!is_escaped(&with_backslashes(0)));
    assert!(is_escaped(&with_backslashes(1)));
    assert!(!is_escaped(&with_backslashes(2)));
    assert!(is_escaped(&with_backslashes(3)));
    assert!(!is_escaped(&with_backslashes(4)));
}

#[test]
fn escape_of_empty_text() {
    assert!(!is_escaped(""));
    assert!(is_escaped("\\"));
}

#[test]
fn strip_removes_comment_and_trailing_space() {
    let src = "@article{a,\n  title = {X},   % a note\n}\n";
    assert_eq!(strip_comments(src), "@article{a,\n  title = {X},\n}\n");
}

#[test]
fn strip_keeps_escaped_marker() {
    assert_eq!(strip_comments("rate = {5\\% more}\n"), "rate = {5\\% more}\n");
}

#[test]
fn strip_cuts_at_marker_after_even_backslashes() {
    assert_eq!(strip_comments("a \\\\% gone"), "a \\\\\n");
}

#[test]
fn strip_drops_lines_left_empty() {
    assert_eq!(strip_comments("\n% only a comment\n   % indented\nx\n\n"), "x\n");
}

#[test]
fn strip_is_unicode_safe() {
    assert_eq!(strip_comments("Gödel\u{3000} % note\n"), "Gödel\n");
}

#[test]
fn strip_normalises_crlf() {
    assert_eq!(strip_comments("a\r\nb % c\r\n"), "a\nb\n");
}

#[test]
fn strip_twice_is_strip_once() {
    let src = "@book{b,\n  note = {50\\%}, % why\n  % drop\n  title = {T}\n}\n";
    let once = strip_comments(src);
    assert_eq!(strip_comments(&once), once);
}

#[test]
fn markers_inside_entries_are_found() {
    let src = "% header comment\n@article{a,\n  title = {X}, % note\n  pages = {1--2}\n}\n% between\n@book{b,\n  note = {100\\%}\n}\n";
    assert_eq!(comments_in_citation_blocks(src), vec![3]);
}

#[test]
fn nested_braces_do_not_end_an_entry() {
    let src = "@misc{m,\n  title = {A {B} C},\n  % inside\n}\n% outside\n";
    assert_eq!(comments_in_citation_blocks(src), vec![3]);
}

#[test]
fn no_entries_no_findings() {
    assert!(comments_in_citation_blocks("% just a comment\ntext\n").is_empty());
}

#[test]
fn blocks_without_a_key_are_not_entries() {
    assert!(comments_in_citation_blocks("@c{%}\n").is_empty());
    assert!(comments_in_citation_blocks("@string{x = {a % b}}\n@comment{\n% note\n}\n").is_empty());
    assert_eq!(comments_in_citation_blocks("@misc{k,\n % here\n}\n"), vec![2]);
}
