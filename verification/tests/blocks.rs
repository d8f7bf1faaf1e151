use markdown::to_html;

#[test]
fn tight_list() {
    assert_eq!(
        to_html("- one\n- two\n"),
        "<ul>\n<li>one</li>\n<li>two</li>\n</ul>\n"
    );
}

#[test]
fn loose_list() {
    assert_eq!(
        to_html("- one\n\n- two\n"),
        "<ul>\n<li>\n<p>one</p>\n</li>\n<li>\n<p>two</p>\n</li>\n</ul>\n"
    );
}

#[test]
fn ordered_list_start() {
    assert_eq!(
        to_html("3. a\n4. b\n"),
        "<ol start=\"3\">\n<li>a</li>\n<li>b</li>\n</ol>\n"
    );
}

#[test]
fn ordered_list_from_one() {
    assert_eq!(to_html("1. a\n2. b\n"), "<ol>\n<li>a</li>\n<li>b</li>\n</ol>\n");
}

#[test]
fn fenced_code_unclosed() {
    assert_eq!(to_html("```\nabc\n"), "<pre><code>abc\n</code></pre>\n");
}

#[test]
fn fenced_code_encodes_angles() {
    assert_eq!(
        to_html("```\n<b> & >\n```\n"),
        "<pre><code>&lt;b&gt; & &gt;\n</code></pre>\n"
    );
}

#[test]
fn indented_code_keeps_blank_lines() {
    assert_eq!(
        to_html("    a\n\n    b\n"),
        "<pre><code>a\n\nb\n</code></pre>\n"
    );
}

#[test]
fn indented_code_blank_line_skips_columns() {
    assert_eq!(
        to_html("    a\n \t  \n    b\n"),
        "<pre><code>a\n  \nb\n</code></pre>\n"
    );
}

#[test]
fn indented_code_needs_content() {
    assert!(!markdown::matchers::scan_indented_code("    ", 0));
    assert!(!markdown::matchers::scan_indented_code(" \t ", 0));
    assert!(markdown::matchers::scan_indented_code("    x", 0));
    assert!(markdown::matchers::scan_indented_code("\tx", 0));
}

#[test]
fn fenced_code_in_block_quote() {
    assert_eq!(
        to_html("> ```\n> a\n>\n> b\n> ```\n"),
        "<blockquote>\n<pre><code>a\n\nb\n</code></pre>\n</blockquote>\n"
    );
}

#[test]
fn loose_list_in_block_quote() {
    assert_eq!(
        to_html("> - a\n>\n> - b\n"),
        "<blockquote>\n<ul>\n<li>\n<p>a</p>\n</li>\n<li>\n<p>b</p>\n</li>\n</ul>\n</blockquote>\n"
    );
}

#[test]
fn html_block_simple() {
    assert_eq!(
        to_html("<div>\nfoo\n</div>\n"),
        "<div>\nfoo\n</div>\n"
    );
}

#[test]
fn html_comment_block() {
    assert_eq!(to_html("<!-- note -->\n"), "<!-- note -->\n");
}

#[test]
fn escapes_in_text() {
    assert_eq!(to_html("a \\# b \\> c \\- d\n"), "<p>a # b &gt; c - d</p>\n");
}

#[test]
fn text_escapes_render() {
    assert_eq!(markdown::render::escape("\\#x\\-"), "#x-");
    assert_eq!(markdown::render::encode("<a>"), "&lt;a&gt;");
}

#[test]
fn block_quote_tab_credit() {
    assert_eq!(
        to_html(">\t\tfoo\n"),
        "<blockquote>\n<pre><code>  foo\n</code></pre>\n</blockquote>\n"
    );
}

#[test]
fn deterministic_rendering() {
    let input = "# a\n\n- b\n- c\n\n> d\n";
    assert_eq!(to_html(input), to_html(input));
}

#[test]
fn nested_block_quote() {
    assert_eq!(
        to_html("> > a\n"),
        "<blockquote>\n<blockquote>\n<p>a</p>\n</blockquote>\n</blockquote>\n"
    );
}

#[test]
fn list_in_block_quote() {
    assert_eq!(
        to_html("> - a\n> - b\n"),
        "<blockquote>\n<ul>\n<li>a</li>\n<li>b</li>\n</ul>\n</blockquote>\n"
    );
}

#[test]
fn ordered_list_large_start() {
    assert_eq!(
        to_html("999999999. a\n"),
        "<ol start=\"999999999\">\n<li>a</li>\n</ol>\n"
    );
}

#[test]
fn break_interrupts_list() {
    assert_eq!(to_html("- a\n***\n"), "<ul>\n<li>a</li>\n</ul>\n<hr />\n");
}

#[test]
fn setext_needs_paragraph() {
    assert_eq!(to_html("---\n"), "<hr />\n");
    assert_eq!(to_html("===\n"), "<p>===</p>\n");
}

#[test]
fn html_custom_tag() {
    assert_eq!(to_html("<custom-tag attr=\"v\">\nx\n"), "<custom-tag attr=\"v\">\nx\n");
}

#[test]
fn fence_char_mismatch_stays_open() {
    assert_eq!(
        to_html("```\na\n~~~\n```\n"),
        "<pre><code>a\n~~~\n</code></pre>\n"
    );
}

#[test]
fn quote_after_list() {
    assert_eq!(
        to_html("- a\n> y\n"),
        "<ul>\n<li>a</li>\n</ul>\n<blockquote>\n<p>y</p>\n</blockquote>\n"
    );
}

#[test]
fn fence_absorbs_heading_line() {
    assert_eq!(to_html("```\n# x\n```\n"), "<pre><code># x\n</code></pre>\n");
}

#[test]
fn heading_closes_indented_code() {
    assert_eq!(
        to_html("    x\n# y\n"),
        "<pre><code>x\n</code></pre>\n<h1>y</h1>\n"
    );
}

#[test]
fn paragraph_takes_precedence_over_custom_tag() {
    assert_eq!(to_html("a\n<x>\n"), "<p>a\n<x></p>\n");
}
