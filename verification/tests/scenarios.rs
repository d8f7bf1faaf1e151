use markdown::to_html;

#[test]
fn empty_input() {
    assert_eq!(to_html(""), "");
}

#[test]
fn thematic_breaks() {
    assert_eq!(to_html("***\n---\n___\n"), "<hr />\n<hr />\n<hr />\n");
}

#[test]
fn atx_heading() {
    assert_eq!(to_html("# Foo\n"), "<h1>Foo</h1>\n");
}

#[test]
fn atx_heading_levels() {
    assert_eq!(to_html("### Foo\n"), "<h3>Foo</h3>\n");
    assert_eq!(to_html("###### Foo\n"), "<h6>Foo</h6>\n");
    assert_eq!(to_html("####### Foo\n"), "<p>####### Foo</p>\n");
}

#[test]
fn atx_heading_closing_sequence() {
    assert_eq!(to_html("## Foo ##\n"), "<h2>Foo</h2>\n");
    assert_eq!(to_html("# Foo # b #\n"), "<h1>Foo # b #</h1>\n");
}

#[test]
fn block_quote_with_heading() {
    assert_eq!(
        to_html("> # Foo\n> bar\n> baz\n"),
        "<blockquote>\n<h1>Foo</h1>\n<p>bar\nbaz</p>\n</blockquote>\n"
    );
}

#[test]
fn setext_heading() {
    assert_eq!(to_html("Foo\n---\n"), "<h2>Foo</h2>\n");
    assert_eq!(to_html("Foo\n===\n"), "<h1>Foo</h1>\n");
}

#[test]
fn indented_code() {
    assert_eq!(to_html("    code\n"), "<pre><code>code\n</code></pre>\n");
}

#[test]
fn fenced_code_with_info() {
    assert_eq!(
        to_html("```rust\nx\n```\n"),
        "<pre><code class=\"language-rust\">x\n</code></pre>\n"
    );
}

#[test]
fn break_closes_block_quote() {
    assert_eq!(
        to_html("> foo\n---\n"),
        "<blockquote>\n<p>foo</p>\n</blockquote>\n<hr />\n"
    );
}

#[test]
fn lazy_continuation() {
    assert_eq!(
        to_html("> bar\nbaz\n> foo\n"),
        "<blockquote>\n<p>bar\nbaz\nfoo</p>\n</blockquote>\n"
    );
}

#[test]
fn escapes_across_continuation_lines() {
    assert_eq!(
        to_html("a \\# b\nc \\- d \\> e\n"),
        "<p>a # b\nc - d &gt; e</p>\n"
    );
}

#[test]
fn empty_heading() {
    assert_eq!(to_html("# \n"), "<h1></h1>\n");
    assert_eq!(to_html("##\n"), "<h2></h2>\n");
}

#[test]
fn ordered_one_interrupts_paragraph() {
    assert_eq!(
        to_html("para\n1. x\n"),
        "<p>para</p>\n<ol>\n<li>x</li>\n</ol>\n"
    );
}

#[test]
fn ordered_other_start_does_not_interrupt() {
    assert_eq!(to_html("para\n2. x\n"), "<p>para\n2. x</p>\n");
}

#[test]
fn empty_list_item() {
    assert_eq!(to_html("- \n"), "<ul>\n<li></li>\n</ul>\n");
}
