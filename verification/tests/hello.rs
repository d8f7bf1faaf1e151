use markdown::to_html;

#[test]
fn parse_hello() {
    let input = "hello";
    let html = to_html(input);
    assert_eq!(html, "<p>hello</p>\n")
}
