use markdown::to_html;

#[test]
fn simple() {
    let input = "aaa\n\nbbb\n";
    let html = to_html(input);
    assert_eq!(html, "<p>aaa</p>\n<p>bbb</p>\n");
}

#[test]
fn multiline() {
    let input = "aaa\nbbb\n\nccc\nddd\n";
    let html = to_html(input);
    assert_eq!(html, "<p>aaa\nbbb</p>\n<p>ccc\nddd</p>\n");
}

#[test]
fn multiple_blanks() {
    let input = "aaa\n\n\nbbb\n";
    let html = to_html(input);
    assert_eq!(html, "<p>aaa</p>\n<p>bbb</p>\n");
}

#[test]
fn trailing_whitespace_trimmed() {
    let input = "a \nb\t\n";
    let html = to_html(input);
    assert_eq!(html, "<p>a\nb</p>\n");
}

#[test]
fn skip_leading_spaces() {
    let input = "  aaa\n bbb\n";
    let html = to_html(input);
    assert_eq!(html, "<p>aaa\nbbb</p>\n");
}

#[test]
fn skip_many_leading_spaces() {
    let input = "\r\naaa\r\n            bbb\r\n                                    ccc\r\n";
    let html = to_html(input);
    assert_eq!(html, "<p>aaa\nbbb\nccc</p>\n");
}

#[test]
fn start_three_leading_spaces() {
    let input = "\r\n   aaa\r\nbbb\r\n";
    let html = to_html(input);
    assert_eq!(html, "<p>aaa\nbbb</p>\n");
}
