use define::render::multiline_to_html_br;
use define::strutil::{join_lines, split_lines, trim};

#[test]
fn test_multiline_to_html_br_single_line_is_trimmed() {
    assert_eq!(multiline_to_html_br("  word  "), "word");
    assert_eq!(multiline_to_html_br("plain"), "plain");
    assert_eq!(multiline_to_html_br(""), "");
}

#[test]
fn test_multiline_to_html_br_trailing_newline_is_still_one_line() {
    assert_eq!(multiline_to_html_br("one line\n"), "one line");
}

#[test]
fn test_multiline_to_html_br_multi_line() {
    assert_eq!(multiline_to_html_br("a\nb"), "a<br>b<br>");
    assert_eq!(multiline_to_html_br("a\nb\nc\n"), "a<br>b<br>c<br>");
}

#[test]
fn test_multiline_to_html_br_keeps_inner_blank_lines() {
    assert_eq!(multiline_to_html_br("a\n\nb"), "a<br><br>b<br>");
}

#[test]
fn test_split_lines() {
    assert_eq!(split_lines(""), Vec::<String>::new());
    assert_eq!(split_lines("a"), vec![String::from("a")]);
    assert_eq!(split_lines("a\n"), vec![String::from("a")]);
    assert_eq!(
        split_lines("a\nb"),
        vec![String::from("a"), String::from("b")]
    );
    assert_eq!(
        split_lines("a\r\nb"),
        vec![String::from("a"), String::from("b")]
    );
    assert_eq!(split_lines("a\r"), vec![String::from("a\r")]);
    assert_eq!(
        split_lines("a\n\n"),
        vec![String::from("a"), String::from("")]
    );
}

#[test]
fn test_join_lines() {
    assert_eq!(join_lines(&Vec::<String>::new()), "");
    assert_eq!(
        join_lines(&vec![String::from("x"), String::from("y")]),
        "x\ny\n"
    );
}

#[test]
fn test_trim_unicode_whitespace() {
    assert_eq!(trim("\t x \n"), "x");
    assert_eq!(trim("\u{a0}wide\u{3000}"), "wide");
    assert_eq!(trim("   "), "");
    assert_eq!(trim("inner space kept"), "inner space kept");
}
