//! Rendering the block tree to HTML, and the tightening pass that
//! flattens paragraphs inside tight list items.

use vstd::prelude::*;
use vstd::string::*;
use crate::ast::{Node, view_node, view_nodes, lemma_view_nodes};
use crate::chars::{run_len, run_len_end, ch_fn, ws_fn, trim_s, trim_end_s, count_ws_end_range, trim_range, sub_string};
use crate::matchers::not_ch_fn;
use crate::model::{NodeM, ListTypeM, children_of, with_children};
use crate::ast::{ListProximity, ListType, ListItem as AstListItem, List as AstList};

verus! {

/// One character of code text, with `<` and `>` encoded.
pub open spec fn enc_char(c: char) -> Seq<char> {
    if c == '<' {
        "&lt;"@
    } else if c == '>' {
        "&gt;"@
    } else {
        seq![c]
    }
}

/// Code text with `<` and `>` encoded.
pub open spec fn encode_s(s: Seq<char>) -> Seq<char>
    decreases s.len(),
{
    if s.len() == 0 {
        Seq::empty()
    } else {
        enc_char(s[0]) + encode_s(s.skip(1))
    }
}

/// Resolve the literal escapes `\#`, `\>` and `\-` in a text run, in one
/// left-to-right pass.
pub open spec fn escape_s(s: Seq<char>) -> Seq<char>
    decreases s.len(),
{
    if s.len() == 0 {
        Seq::empty()
    } else if s.len() >= 2 && s[0] == '\\' && s[1] == '#' {
        "#"@ + escape_s(s.skip(2))
    } else if s.len() >= 2 && s[0] == '\\' && s[1] == '>' {
        "&gt;"@ + escape_s(s.skip(2))
    } else if s.len() >= 2 && s[0] == '\\' && s[1] == '-' {
        "-"@ + escape_s(s.skip(2))
    } else {
        seq![s[0]] + escape_s(s.skip(1))
    }
}

/// Encode the text of a code block.
#[verifier::loop_isolation(false)]
pub fn encode(input: &str) -> (r: String)
    ensures
        r@ == encode_s(input@),
{
    let n = input.unicode_len();
    let mut out = String::new();
    let mut i: usize = 0;
    proof {
        assert(input@.skip(0) =~= input@);
        assert(Seq::<char>::empty() + encode_s(input@) =~= encode_s(input@));
    }
    loop
        invariant
            0 <= i <= n,
            encode_s(input@) == out@ + encode_s(input@.skip(i as int)),
        decreases n - i,
    {
        if i == n {
            proof {
                assert(encode_s(input@.skip(i as int)) == Seq::<char>::empty());
                assert(out@ + Seq::<char>::empty() =~= out@);
            }
            return out;
        }
        let c = input.get_char(i);
        proof {
            assert(input@.skip(i as int)[0] == input@[i as int]);
            assert(input@.skip(i as int).skip(1) =~= input@.skip(i as int + 1));
        }
        if c == '<' {
            out.append("&lt;");
        } else if c == '>' {
            out.append("&gt;");
        } else {
            let one = input.substring_char(i, i + 1);
            proof {
                assert(one@ =~= seq![c]);
                assert(enc_char(c) =~= seq![c]);
            }
            out.append(one);
        }
        proof {
            assert(out@ + encode_s(input@.skip(i as int + 1)) =~= encode_s(input@));
        }
        i = i + 1;
    }
}

/// Resolve the text escapes of a rendered run.
#[verifier::loop_isolation(false)]
pub fn escape(input: &str) -> (r: String)
    ensures
        r@ == escape_s(input@),
{
    let n = input.unicode_len();
    let mut out = String::new();
    let mut i: usize = 0;
    proof {
        assert(input@.skip(0) =~= input@);
        assert(Seq::<char>::empty() + escape_s(input@) =~= escape_s(input@));
    }
    loop
        invariant
            0 <= i <= n,
            escape_s(input@) == out@ + escape_s(input@.skip(i as int)),
        decreases n - i,
    {
        if i == n {
            proof {
                assert(out@ + Seq::<char>::empty() =~= out@);
            }
            return out;
        }
        let c = input.get_char(i);
        proof {
            assert(input@.skip(i as int)[0] == input@[i as int]);
            assert(input@.skip(i as int).skip(1) =~= input@.skip(i as int + 1));
        }
        let mut step: usize = 1;
        if c == '\\' && i + 1 < n {
            let c2 = input.get_char(i + 1);
            proof {
                assert(input@.skip(i as int)[1] == input@[i as int + 1]);
                assert(input@.skip(i as int).skip(2) =~= input@.skip(i as int + 2));
            }
            if c2 == '#' {
                out.append("#");
                step = 2;
            } else if c2 == '>' {
                out.append("&gt;");
                step = 2;
            } else if c2 == '-' {
                out.append("-");
                step = 2;
            }
        }
        if step == 1 {
            let one = input.substring_char(i, i + 1);
            proof {
                assert(one@ =~= seq![c]);
                assert(escape_s(input@.skip(i as int)) == seq![c] + escape_s(
                    input@.skip(i as int + 1),
                ));
            }
            out.append(one);
        }
        proof {
            assert(out@ + escape_s(input@.skip(i as int + step as int)) =~= escape_s(input@));
        }
        i = i + step;
    }
}

/// The decimal digit character of `d`.
pub open spec fn digit_char(d: int) -> char {
    (48 + d) as char
}

/// The decimal spelling of `n`.
pub open spec fn dec_str(n: int) -> Seq<char>
    decreases n,
{
    if n < 10 {
        seq![digit_char(n)]
    } else {
        dec_str(n / 10).push(digit_char(n % 10))
    }
}

/// One decimal digit as text.
fn digit_str(d: usize) -> (r: &'static str)
    requires
        d < 10,
    ensures
        r@ == seq![digit_char(d as int)],
{
    proof {
        reveal_strlit("0");
        reveal_strlit("1");
        reveal_strlit("2");
        reveal_strlit("3");
        reveal_strlit("4");
        reveal_strlit("5");
        reveal_strlit("6");
        reveal_strlit("7");
        reveal_strlit("8");
        reveal_strlit("9");
    }
    let r = match d {
        0 => "0",
        1 => "1",
        2 => "2",
        3 => "3",
        4 => "4",
        5 => "5",
        6 => "6",
        7 => "7",
        8 => "8",
        _ => "9",
    };
    proof {
        assert(r@ =~= seq![digit_char(d as int)]);
    }
    r
}

/// Append the decimal spelling of `n`.
fn push_dec(out: &mut String, n: usize)
    ensures
        final(out)@ == old(out)@ + dec_str(n as int),
    decreases n,
{
    if n < 10 {
        out.append(digit_str(n));
    } else {
        push_dec(out, n / 10);
        out.append(digit_str(n % 10));
        proof {
            assert(old(out)@ + dec_str(n as int / 10) + seq![digit_char(n as int % 10)] =~= old(
                out,
            )@ + dec_str(n as int));
        }
    }
}

/// The rendered `class` attribute of a fenced code block: the first
/// space-delimited token of the trimmed info string.
pub open spec fn info_attr(info: Option<Seq<char>>) -> Seq<char> {
    match info {
        Option::None => Seq::empty(),
        Option::Some(i) => {
            let t = trim_s(i);
            " class=\"language-"@ + t.take(run_len(t, not_ch_fn(' '))) + "\""@
        },
    }
}

/// The rendered text of a single node.
pub open spec fn render_m(n: NodeM) -> Seq<char>
    decreases n,
{
    match n {
        NodeM::Root { children } => render_seq_m(children),
        NodeM::BlockQuote { children } => "<blockquote>\n"@ + render_seq_m(children)
            + "</blockquote>\n"@,
        NodeM::ThematicBreak => "<hr />\n"@,
        NodeM::List { list_type, proximity, children } => {
            match list_type {
                ListTypeM::Unordered(_) => "<ul>\n"@ + render_seq_m(children) + "</ul>\n"@,
                ListTypeM::Ordered(_, start) => {
                    if start == 1 {
                        "<ol>\n"@ + render_seq_m(children) + "</ol>\n"@
                    } else {
                        "<ol start=\""@ + dec_str(start) + "\">\n"@ + render_seq_m(children)
                            + "</ol>\n"@
                    }
                },
            }
        },
        NodeM::ListItem { indent, children } => "<li>"@ + render_items_m(children, false)
            + "</li>\n"@,
        NodeM::Heading { level, children } => "<h"@ + dec_str(level as int) + ">"@ + render_seq_m(
            children,
        ) + "</h"@ + dec_str(level as int) + ">\n"@,
        NodeM::Paragraph { children } => "<p>"@ + render_seq_m(children) + "</p>\n"@,
        NodeM::Code { text, info } => "<pre><code"@ + info_attr(info) + ">"@ + encode_s(text)
            + "</code></pre>\n"@,
        NodeM::Html { text, html_type } => text,
        NodeM::Text { text } => escape_s(trim_end_s(text)),
    }
}

/// The rendered text of a sequence of siblings.
pub open spec fn render_seq_m(ns: Seq<NodeM>) -> Seq<char>
    decreases ns,
{
    if ns.len() == 0 {
        Seq::empty()
    } else {
        render_seq_m(ns.drop_last()) + render_m(ns.last())
    }
}

/// The rendered text of a list item's children: each non-text child is
/// preceded by a newline unless the previous chunk already ended in one.
pub open spec fn render_items_m(ns: Seq<NodeM>, skip_nl: bool) -> Seq<char>
    decreases ns,
{
    if ns.len() == 0 {
        Seq::empty()
    } else {
        let piece = (if ns[0] is Text || skip_nl {
            Seq::<char>::empty()
        } else {
            "\n"@
        }) + render_m(ns[0]);
        piece + render_items_m(ns.skip(1), piece.len() > 0 && piece.last() == '\n')
    }
}

/// Append the rendering of one node to `out`.
pub fn render_node(n: &Node, out: &mut String)
    ensures
        final(out)@ == old(out)@ + render_m(n@),
    decreases n,
{
    let ghost out0 = old(out)@;
    match n {
        Node::Root(x) => {
            render_children(&x.children, out);
        },
        Node::BlockQuote(x) => {
            out.append("<blockquote>\n");
            render_children(&x.children, out);
            out.append("</blockquote>\n");
            proof {
                assert(out@ =~= out0 + render_m(n@));
            }
        },
        Node::ThematicBreak => {
            out.append("<hr />\n");
        },
        Node::List(x) => {
            match &x.list_type {
                ListType::Unordered(_) => {
                    out.append("<ul>\n");
                    render_children(&x.children, out);
                    out.append("</ul>\n");
                },
                ListType::Ordered(_, start) => {
                    if *start == 1 {
                        out.append("<ol>\n");
                        render_children(&x.children, out);
                        out.append("</ol>\n");
                    } else {
                        out.append("<ol start=\"");
                        push_dec(out, *start);
                        out.append("\">\n");
                        render_children(&x.children, out);
                        out.append("</ol>\n");
                    }
                },
            }
            proof {
                assert(out@ =~= out0 + render_m(n@));
            }
        },
        Node::ListItem(x) => {
            out.append("<li>");
            render_item_children(&x.children, out);
            out.append("</li>\n");
            proof {
                assert(out@ =~= out0 + render_m(n@));
            }
        },
        Node::Heading(x) => {
            out.append("<h");
            push_dec(out, x.level as usize);
            out.append(">");
            render_children(&x.children, out);
            out.append("</h");
            push_dec(out, x.level as usize);
            out.append(">\n");
            proof {
                assert(out@ =~= out0 + render_m(n@));
            }
        },
        Node::Paragraph(x) => {
            out.append("<p>");
            render_children(&x.children, out);
            out.append("</p>\n");
            proof {
                assert(out@ =~= out0 + render_m(n@));
            }
        },
        Node::Code(x) => {
            out.append("<pre><code");
            match &x.info {
                Option::Some(info) => {
                    out.append(" class=\"language-");
                    let istr = info.as_str();
                    let ilen = istr.unicode_len();
                    let (a, b) = trim_range(istr, 0, ilen);
                    proof {
                        assert(istr@.subrange(0, ilen as int) =~= istr@);
                    }
                    let tok = count_char_not(istr, a, b);
                    let piece = sub_string(istr, a, a + tok);
                    out.append(piece.as_str());
                    out.append("\"");
                    proof {
                        let t = trim_s(info@);
                        assert(istr@.subrange(a as int, b as int) == t);
                        assert(istr@.subrange(a as int, a + tok) =~= t.take(
                            run_len(t, not_ch_fn(' ')),
                        ));
                    }
                },
                Option::None => {},
            }
            out.append(">");
            let enc = encode(x.text.as_str());
            out.append(enc.as_str());
            out.append("</code></pre>\n");
            proof {
                assert(out@ =~= out0 + render_m(n@));
            }
        },
        Node::Html(x) => {
            out.append(x.text.as_str());
        },
        Node::Text(x) => {
            let xs = x.as_str();
            let xn = xs.unicode_len();
            let we = count_ws_end_range(xs, 0, xn);
            let piece = sub_string(xs, 0, xn - we);
            proof {
                assert(xs@.subrange(0, xn as int) =~= xs@);
                assert(piece@ =~= trim_end_s(x@));
            }
            let esc = escape(piece.as_str());
            out.append(esc.as_str());
        },
    }
}

/// The first-token length of the info string: characters before the
/// first space within `[from, to)`.
fn count_char_not(s: &str, from: usize, to: usize) -> (r: usize)
    requires
        from <= to <= s@.len(),
    ensures
        r == run_len(s@.subrange(from as int, to as int), not_ch_fn(' ')),
        from + r <= to,
{
    let ghost t = s@.subrange(from as int, to as int);
    let mut i: usize = from;
    loop
        invariant
            from <= i <= to,
            to <= s@.len(),
            t == s@.subrange(from as int, to as int),
            forall|j: int| 0 <= j < i - from ==> not_ch_fn(' ')(t[j]),
        decreases to - i,
    {
        if i == to {
            proof {
                crate::chars::lemma_run_len_unique(t, not_ch_fn(' '), i - from);
            }
            return i - from;
        }
        let c = s.get_char(i);
        proof {
            assert(t[i - from] == s@[i as int]);
        }
        if c == ' ' {
            proof {
                crate::chars::lemma_run_len_unique(t, not_ch_fn(' '), i - from);
            }
            return i - from;
        }
        i = i + 1;
    }
}

/// Append the renderings of all children in order.
#[verifier::loop_isolation(false)]
fn render_children(v: &Vec<Node>, out: &mut String)
    ensures
        final(out)@ == old(out)@ + render_seq_m(view_nodes(v@)),
    decreases v,
{
    let ghost out0 = old(out)@;
    let mut i: usize = 0;
    let n = v.len();
    proof {
        lemma_view_nodes(v@);
        assert(view_nodes(v@.take(0)) =~= Seq::<NodeM>::empty()) by {
            assert(v@.take(0).len() == 0);
        }
        assert(out0 + Seq::<char>::empty() =~= out0);
    }
    loop
        invariant
            0 <= i <= n,
            out@ == out0 + render_seq_m(view_nodes(v@.take(i as int))),
        decreases n - i,
    {
        if i == n {
            proof {
                assert(v@.take(n as int) =~= v@);
                assert(view_nodes(v@.take(n as int)) == view_nodes(v@));
            }
            return ;
        }
        proof {
            assert(decreases_to!(v => v@[i as int]));
        }
        render_node(&v[i], out);
        proof {
            let pre = v@.take(i as int);
            let cur = v@.take(i as int + 1);
            assert(cur.drop_last() =~= pre);
            assert(cur.last() == v@[i as int]);
            assert(view_nodes(cur) == view_nodes(cur.drop_last()).push(view_node(cur.last())));
            assert(render_seq_m(view_nodes(cur)) == render_seq_m(view_nodes(cur).drop_last())
                + render_m(view_nodes(cur).last())) by {
                assert(view_nodes(cur).len() > 0);
            }
            assert(view_nodes(cur).drop_last() =~= view_nodes(pre));
            assert(out@ =~= out0 + render_seq_m(view_nodes(cur)));
        }
        i = i + 1;
    }
}

/// Append the renderings of a list item's children, tracking whether the
/// previous chunk ended with a newline.
#[verifier::loop_isolation(false)]
fn render_item_children(v: &Vec<Node>, out: &mut String)
    ensures
        final(out)@ == old(out)@ + render_items_m(view_nodes(v@), false),
    decreases v,
{
    let ghost out0 = old(out)@;
    let mut i: usize = 0;
    let mut skip_nl = false;
    let n = v.len();
    proof {
        lemma_view_nodes(v@);
        assert(view_nodes(v@).skip(0) =~= view_nodes(v@));
    }
    loop
        invariant
            0 <= i <= n,
            out0 + render_items_m(view_nodes(v@), false) == out@ + render_items_m(
                view_nodes(v@).skip(i as int),
                skip_nl,
            ),
        decreases n - i,
    {
        if i == n {
            proof {
                assert(view_nodes(v@).skip(i as int).len() == 0);
                assert(out@ + Seq::<char>::empty() =~= out@);
            }
            return ;
        }
        let ghost rem = view_nodes(v@).skip(i as int);
        let ghost sk0 = skip_nl;
        let ghost piece = (if rem[0] is Text || skip_nl {
            Seq::<char>::empty()
        } else {
            "\n"@
        }) + render_m(rem[0]);
        let is_text = match &v[i] {
            Node::Text(_) => true,
            _ => false,
        };
        let ghost before = out@;
        proof {
            assert(rem[0] == view_nodes(v@)[i as int]);
        }
        let len_before = out.as_str().unicode_len();
        if !(is_text || skip_nl) {
            out.append("\n");
        }
        proof {
            assert(decreases_to!(v => v@[i as int]));
        }
        render_node(&v[i], out);
        proof {
            assert(out@ =~= before + piece);
        }
        let len_after = out.as_str().unicode_len();
        if len_after > len_before {
            let lc = out.as_str().get_char(len_after - 1);
            proof {
                assert(piece.len() == len_after - len_before);
                assert(out@.last() == piece.last());
            }
            skip_nl = lc == '\n';
        } else {
            skip_nl = false;
        }
        proof {
            assert(skip_nl == (piece.len() > 0 && piece.last() == '\n'));
        }
        i = i + 1;
        proof {
            assert(view_nodes(v@).skip(i as int) =~= rem.skip(1));
            assert(render_items_m(rem, sk0) == piece + render_items_m(rem.skip(1), skip_nl));
            assert(before + render_items_m(rem, sk0) =~= (before + piece) + render_items_m(
                rem.skip(1),
                skip_nl,
            ));
        }
    }
}

/// The tightening pass on one node: lists still tight have their items'
/// paragraphs flattened, and every child is visited.
pub open spec fn tighten_m(n: NodeM) -> NodeM
    decreases n, 0nat,
{
    match n {
        NodeM::Root { children } => NodeM::Root { children: tighten_seq(children) },
        NodeM::BlockQuote { children } => NodeM::BlockQuote { children: tighten_seq(children) },
        NodeM::List { list_type, proximity, children } => {
            if proximity is Tight {
                NodeM::List { list_type, proximity, children: tighten_items(children) }
            } else {
                NodeM::List { list_type, proximity, children: tighten_seq(children) }
            }
        },
        NodeM::ListItem { indent, children } => NodeM::ListItem {
            indent,
            children: tighten_seq(children),
        },
        NodeM::Paragraph { children } => NodeM::Paragraph { children: tighten_seq(children) },
        _ => n,
    }
}

/// The tightening pass on each node of a sequence.
pub open spec fn tighten_seq(ns: Seq<NodeM>) -> Seq<NodeM>
    decreases ns, 0nat,
{
    if ns.len() == 0 {
        Seq::empty()
    } else {
        tighten_seq(ns.drop_last()).push(tighten_m(ns.last()))
    }
}

/// The tightening pass on one child of a tight list.
pub open spec fn tighten_item_one(m: NodeM) -> NodeM
    decreases m, 1nat,
{
    match m {
        NodeM::ListItem { indent, children } => NodeM::ListItem {
            indent,
            children: tighten_flat(children),
        },
        _ => tighten_m(m),
    }
}

/// The tightening pass on the children of a tight list.
pub open spec fn tighten_items(ns: Seq<NodeM>) -> Seq<NodeM>
    decreases ns, 0nat,
{
    if ns.len() == 0 {
        Seq::empty()
    } else {
        tighten_items(ns.drop_last()).push(tighten_item_one(ns.last()))
    }
}

/// The children of a tight list item with paragraphs spliced out: a
/// paragraph child is replaced by its own children, in place.
pub open spec fn tighten_flat(cs: Seq<NodeM>) -> Seq<NodeM>
    decreases cs, 0nat,
{
    if cs.len() == 0 {
        Seq::empty()
    } else {
        tighten_flat(cs.drop_last()) + (match cs.last() {
            NodeM::Paragraph { children } => tighten_seq(children),
            _ => seq![tighten_m(cs.last())],
        })
    }
}

pub proof fn lemma_tighten_seq(ns: Seq<NodeM>)
    ensures
        tighten_seq(ns).len() == ns.len(),
        forall|i: int| 0 <= i < ns.len() ==> tighten_seq(ns)[i] == tighten_m(#[trigger] ns[i]),
    decreases ns,
{
    if ns.len() > 0 {
        lemma_tighten_seq(ns.drop_last());
        assert forall|i: int| 0 <= i < ns.len() implies tighten_seq(ns)[i] == tighten_m(ns[i]) by {
            if i < ns.len() - 1 {
                assert(ns.drop_last()[i] == ns[i]);
            }
        }
    }
}

pub proof fn lemma_tighten_items(ns: Seq<NodeM>)
    ensures
        tighten_items(ns).len() == ns.len(),
        forall|i: int|
            0 <= i < ns.len() ==> tighten_items(ns)[i] == tighten_item_one(#[trigger] ns[i]),
    decreases ns,
{
    if ns.len() > 0 {
        lemma_tighten_items(ns.drop_last());
        assert forall|i: int| 0 <= i < ns.len() implies tighten_items(ns)[i] == tighten_item_one(
            ns[i],
        ) by {
            if i < ns.len() - 1 {
                assert(ns.drop_last()[i] == ns[i]);
            }
        }
    }
}

/// Convert tight list items' paragraph children into plain text runs.
pub fn tighten(node: Node) -> (r: Node)
    ensures
        r@ == tighten_m(node@),
    decreases node,
{
    match node {
        Node::Root(x) => Node::Root(crate::ast::Root { children: tighten_vec(x.children) }),
        Node::BlockQuote(x) => Node::BlockQuote(
            crate::ast::BlockQuote { children: tighten_vec(x.children) },
        ),
        Node::List(x) => {
            let tight = match &x.proximity {
                ListProximity::Tight => true,
                ListProximity::Loose => false,
            };
            if tight {
                Node::List(
                    AstList {
                        list_type: x.list_type,
                        proximity: x.proximity,
                        children: tighten_items_vec(x.children),
                    },
                )
            } else {
                Node::List(
                    AstList {
                        list_type: x.list_type,
                        proximity: x.proximity,
                        children: tighten_vec(x.children),
                    },
                )
            }
        },
        Node::ListItem(x) => Node::ListItem(
            AstListItem { indent: x.indent, children: tighten_vec(x.children) },
        ),
        Node::Paragraph(x) => Node::Paragraph(
            crate::ast::Paragraph { children: tighten_vec(x.children) },
        ),
        other => other,
    }
}

/// Tighten every node of a children vector.
#[verifier::loop_isolation(false)]
fn tighten_vec(v: Vec<Node>) -> (r: Vec<Node>)
    ensures
        view_nodes(r@) == tighten_seq(view_nodes(v@)),
    decreases v,
{
    let ghost orig = v@;
    let total = v.len();
    let mut v = v;
    let mut out: Vec<Node> = Vec::new();
    let mut done: usize = 0;
    proof {
        lemma_view_nodes(orig);
        lemma_tighten_seq(view_nodes(orig));
    }
    loop
        invariant
            0 <= done <= orig.len(),
            orig.len() == total,
            v@ == orig.skip(done as int),
            view_nodes(out@).len() == done,
            forall|i: int|
                0 <= i < done ==> view_nodes(out@)[i] == tighten_seq(view_nodes(orig))[i],
        decreases orig.len() - done,
    {
        if v.len() == 0 {
            proof {
                assert(view_nodes(out@) =~= tighten_seq(view_nodes(orig)));
            }
            return out;
        }
        let first = v.remove(0);
        proof {
            assert(orig.skip(done as int)[0] == orig[done as int]);
            assert(decreases_to!(orig => orig[done as int]));
            assert(orig.skip(done as int).skip(1) =~= orig.skip(done as int + 1));
        }
        let ghost out_pre = out@;
        let t = tighten(first);
        out.push(t);
        proof {
            crate::ast::lemma_view_nodes_push(out_pre, out@.last());
            lemma_view_nodes(out@);
        }
        done = done + 1;
    }
}

/// Tighten every child of a tight list, flattening list items.
#[verifier::loop_isolation(false)]
fn tighten_items_vec(v: Vec<Node>) -> (r: Vec<Node>)
    ensures
        view_nodes(r@) == tighten_items(view_nodes(v@)),
    decreases v,
{
    let ghost orig = v@;
    let total = v.len();
    let mut v = v;
    let mut out: Vec<Node> = Vec::new();
    let mut done: usize = 0;
    proof {
        lemma_view_nodes(orig);
        lemma_tighten_items(view_nodes(orig));
    }
    loop
        invariant
            0 <= done <= orig.len(),
            orig.len() == total,
            v@ == orig.skip(done as int),
            view_nodes(out@).len() == done,
            forall|i: int|
                0 <= i < done ==> view_nodes(out@)[i] == tighten_items(view_nodes(orig))[i],
        decreases orig.len() - done,
    {
        if v.len() == 0 {
            proof {
                assert(view_nodes(out@) =~= tighten_items(view_nodes(orig)));
            }
            return out;
        }
        let first = v.remove(0);
        proof {
            assert(orig.skip(done as int)[0] == orig[done as int]);
            assert(decreases_to!(orig => orig[done as int]));
            assert(orig.skip(done as int).skip(1) =~= orig.skip(done as int + 1));
        }
        let ghost out_pre = out@;
        let t = match first {
            Node::ListItem(x) => {
                proof {
                    assert(decreases_to!(orig[done as int] => x.children));
                }
                Node::ListItem(AstListItem { indent: x.indent, children: tighten_flat_vec(x.children) })
            },
            other => tighten(other),
        };
        out.push(t);
        proof {
            crate::ast::lemma_view_nodes_push(out_pre, out@.last());
            lemma_view_nodes(out@);
        }
        done = done + 1;
    }
}

/// Flatten the children of one tight list item: paragraphs are replaced
/// by their own children.
#[verifier::loop_isolation(false)]
fn tighten_flat_vec(v: Vec<Node>) -> (r: Vec<Node>)
    ensures
        view_nodes(r@) == tighten_flat(view_nodes(v@)),
    decreases v,
{
    let ghost orig = v@;
    let total = v.len();
    let mut v = v;
    let mut out: Vec<Node> = Vec::new();
    let mut done: usize = 0;
    proof {
        lemma_view_nodes(orig);
        assert(view_nodes(orig).take(0) =~= Seq::<NodeM>::empty());
        assert(view_nodes(out@) =~= tighten_flat(view_nodes(orig).take(0)));
    }
    loop
        invariant
            0 <= done <= orig.len(),
            orig.len() == total,
            v@ == orig.skip(done as int),
            view_nodes(out@) == tighten_flat(view_nodes(orig).take(done as int)),
        decreases orig.len() - done,
    {
        if v.len() == 0 {
            proof {
                assert(view_nodes(orig).take(done as int) =~= view_nodes(orig));
            }
            return out;
        }
        let first = v.remove(0);
        proof {
            assert(orig.skip(done as int)[0] == orig[done as int]);
            assert(decreases_to!(orig => orig[done as int]));
            assert(orig.skip(done as int).skip(1) =~= orig.skip(done as int + 1));
        }
        let ghost pre = view_nodes(orig).take(done as int);
        let ghost cur = view_nodes(orig).take(done as int + 1);
        proof {
            assert(cur.drop_last() =~= pre);
            assert(cur.last() == view_nodes(orig)[done as int]);
        }
        match first {
            Node::Paragraph(x) => {
                proof {
                    assert(decreases_to!(orig[done as int] => x.children));
                }
                let mut ts = tighten_vec(x.children);
                let ghost out_pre = out@;
                let ghost ts_v = ts@;
                append_nodes(&mut out, ts);
                proof {
                    lemma_view_nodes_concat(out_pre, ts_v);
                    assert(view_nodes(out@) =~= tighten_flat(cur));
                }
            },
            other => {
                let ghost out_pre = out@;
                let t = tighten(other);
                out.push(t);
                proof {
                    crate::ast::lemma_view_nodes_push(out_pre, out@.last());
                    assert(view_nodes(out@) =~= tighten_flat(cur));
                }
            },
        }
        done = done + 1;
    }
}

/// Move all nodes of `src` to the end of `dst`.
#[verifier::rlimit(100)]
#[verifier::loop_isolation(false)]
fn append_nodes(dst: &mut Vec<Node>, src: Vec<Node>)
    ensures
        final(dst)@ == old(dst)@ + src@,
{
    let ghost orig = src@;
    let total = src.len();
    let mut src = src;
    let mut done: usize = 0;
    loop
        invariant
            0 <= done <= orig.len(),
            orig.len() == total,
            src@ == orig.skip(done as int),
            dst@ == old(dst)@ + orig.take(done as int),
        decreases orig.len() - done,
    {
        if src.len() == 0 {
            proof {
                assert(orig.take(done as int) =~= orig);
            }
            return ;
        }
        let first = src.remove(0);
        proof {
            assert(orig.skip(done as int)[0] == orig[done as int]);
            assert(orig.skip(done as int).skip(1) =~= orig.skip(done as int + 1));
        }
        dst.push(first);
        proof {
            assert(dst@ =~= old(dst)@ + orig.take(done as int + 1));
        }
        done = done + 1;
    }
}

/// Viewing a concatenation is concatenating the views.
pub proof fn lemma_view_nodes_concat(a: Seq<Node>, b: Seq<Node>)
    ensures
        view_nodes(a + b) == view_nodes(a) + view_nodes(b),
    decreases b,
{
    if b.len() == 0 {
        assert(a + b =~= a);
        assert(view_nodes(a) + view_nodes(b) =~= view_nodes(a));
    } else {
        lemma_view_nodes_concat(a, b.drop_last());
        assert((a + b).drop_last() =~= a + b.drop_last());
        assert((a + b).last() == b.last());
        assert(view_nodes(a) + view_nodes(b) =~= (view_nodes(a) + view_nodes(b.drop_last())).push(
            view_node(b.last()),
        ));
    }
}

} // verus!
