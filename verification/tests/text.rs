use hnapi::text::{indent, parse_comment_count, parse_score, remove_subdomains};

#[test]
fn indent_single_line() {
    assert_eq!(indent("hello", 1), "  hello");
    assert_eq!(indent("hello", 0), "hello");
}

#[test]
fn indent_prefixes_every_line() {
    assert_eq!(indent("a\nb\nc", 2), "    a\n    b\n    c");
}

#[test]
fn indent_empty_and_trailing_newline() {
    assert_eq!(indent("", 3), "");
    // a trailing line feed opens no further line, as str::lines has it
    assert_eq!(indent("a\n", 1), "  a");
    assert_eq!(indent("a\n\n", 1), "  a\n  ");
}

#[test]
fn indent_strips_carriage_returns_before_line_feeds() {
    assert_eq!(indent("a\r\nb", 1), "  a\n  b");
}

#[test]
fn indent_keeps_a_bare_trailing_carriage_return() {
    // no line feed follows, so str::lines keeps the '\r' in the last line
    assert_eq!(indent("a\r", 1), "  a\r");
    assert_eq!(indent("a\rb", 1), "  a\rb");
}

#[test]
fn parse_score_reads_the_number() {
    assert_eq!(parse_score("123 points".to_string()), 123);
    assert_eq!(parse_score("1 point".to_string()), 1);
    assert_eq!(parse_score("42".to_string()), 42);
}

#[test]
fn parse_comment_count_reads_the_number() {
    assert_eq!(parse_comment_count("45&nbsp;comments".to_string()), 45);
    assert_eq!(parse_comment_count("1&nbsp;comment".to_string()), 1);
}

#[test]
fn remove_subdomains_keeps_last_two_labels() {
    assert_eq!(remove_subdomains("www.news.example.com"), "example.com");
    assert_eq!(remove_subdomains("news.example.com"), "example.com");
    assert_eq!(remove_subdomains("example.com"), "example.com");
    assert_eq!(remove_subdomains("localhost"), "localhost");
}
