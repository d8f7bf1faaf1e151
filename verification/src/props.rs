//! Laws of the library: properties of parsing, tightening and rendering,
//! stated over the model and proved once for all inputs.

use vstd::prelude::*;
use crate::chars::{all_ws_from, is_ws, run_len, run_len_end, trim_s, trim_start_s, trim_end_s, ws_fn, ch_fn, lemma_run_len, lemma_run_len_unique, lemma_run_len_end, lemma_run_len_end_unique};
use crate::matchers::{atx_match, bq_marker, fence_match, html15_kind, html6_match, html7_match, is_indented_code, is_thematic_break, li_match, setext_level, not_ch_fn};
use crate::model::{NodeM, children_of, spine_node, spine_set, with_children};
use crate::parser::{StateM, html_of, step_line, cur_of, fenced_step, lines_of, parse_lines, init_state, set_cur_st};
use crate::render::{encode_s, escape_s, render_m, render_seq_m, tighten_m, tighten_seq, tighten_items, tighten_item_one, tighten_flat, lemma_tighten_seq, lemma_tighten_items, dec_str};

verus! {

/// Rendering is deterministic: one input has one rendering.  `to_html`
/// returns `html_of` of its input exactly, so equal inputs render
/// equally.
pub proof fn lemma_deterministic(a: Seq<char>, b: Seq<char>)
    requires
        a == b,
    ensures
        html_of(a) == html_of(b),
{
}

/// Every paragraph of the tree holds only text runs.  Parse trees have
/// this shape: paragraphs are created holding one text run and only ever
/// receive further text runs.
pub open spec fn paras_flat(n: NodeM) -> bool
    decreases n,
{
    match n {
        NodeM::Paragraph { children } => forall|i: int|
            0 <= i < children.len() ==> (#[trigger] children[i]) is Text,
        _ => forall|i: int|
            0 <= i < children_of(n).len() ==> paras_flat(#[trigger] children_of(n)[i]),
    }
}

/// No paragraph stands among the children of this node's tight lists'
/// items, at any block depth.  Headings hold inline runs and are not
/// descended into.
pub open spec fn tight_ok(n: NodeM) -> bool
    decreases n,
{
    match n {
        NodeM::List { proximity, children, .. } => {
            if proximity is Tight {
                forall|i: int|
                    0 <= i < children.len() ==> (#[trigger] children[i] matches
                    NodeM::ListItem { children: cs, .. } ==> item_flat_ok(cs))
            } else {
                forall|i: int|
                    0 <= i < children.len() ==> tight_ok(#[trigger] children[i])
            }
        },
        NodeM::Root { children } => forall|i: int|
            0 <= i < children.len() ==> tight_ok(#[trigger] children[i]),
        NodeM::BlockQuote { children } => forall|i: int|
            0 <= i < children.len() ==> tight_ok(#[trigger] children[i]),
        NodeM::ListItem { children, .. } => forall|i: int|
            0 <= i < children.len() ==> tight_ok(#[trigger] children[i]),
        NodeM::Paragraph { children } => forall|i: int|
            0 <= i < children.len() ==> tight_ok(#[trigger] children[i]),
        _ => true,
    }
}

/// The children of one tight item: no paragraph among them, and all of
/// them sound below.
pub open spec fn item_flat_ok(cs: Seq<NodeM>) -> bool
    decreases cs,
{
    forall|j: int|
        0 <= j < cs.len() ==> !((#[trigger] cs[j]) is Paragraph) && tight_ok(cs[j])
}

/// Tight lists: after the tightening pass, no paragraph remains inside a
/// tight list's items, anywhere in a tree whose paragraphs hold only
/// text runs.
pub proof fn lemma_tight_lists(n: NodeM)
    requires
        paras_flat(n),
    ensures
        tight_ok(tighten_m(n)),
    decreases n, 3nat,
{
    match n {
        NodeM::List { list_type, proximity, children } => {
            if proximity is Tight {
                assert forall|i: int| 0 <= i < children.len() implies paras_flat(
                    #[trigger] children[i],
                ) by {
                    assert(children[i] == children_of(n)[i]);
                }
                lemma_tight_items(children);
                lemma_tighten_items(children);
                assert forall|i: int|
                    0 <= i < tighten_items(children).len() implies (
                #[trigger] tighten_items(children)[i] matches NodeM::ListItem { children: cs, .. }
                    ==> item_flat_ok(cs)) by {
                    assert(paras_flat(children[i]));
                    assert(tighten_items(children)[i] == tighten_item_one(children[i]));
                    if children[i] is ListItem {
                        lemma_tight_flat(children_of(children[i]));
                    }
                }
            } else {
                assert forall|i: int| 0 <= i < children.len() implies paras_flat(
                    #[trigger] children[i],
                ) by {
                    assert(children[i] == children_of(n)[i]);
                }
                lemma_tight_seq(children);
                lemma_tighten_seq(children);
            }
        },
        NodeM::Root { children } => {
            assert forall|i: int| 0 <= i < children.len() implies paras_flat(
                #[trigger] children[i],
            ) by {
                assert(children[i] == children_of(n)[i]);
            }
            lemma_tight_seq(children);
            lemma_tighten_seq(children);
        },
        NodeM::BlockQuote { children } => {
            assert forall|i: int| 0 <= i < children.len() implies paras_flat(
                #[trigger] children[i],
            ) by {
                assert(children[i] == children_of(n)[i]);
            }
            lemma_tight_seq(children);
            lemma_tighten_seq(children);
        },
        NodeM::ListItem { children, .. } => {
            assert forall|i: int| 0 <= i < children.len() implies paras_flat(
                #[trigger] children[i],
            ) by {
                assert(children[i] == children_of(n)[i]);
            }
            lemma_tight_seq(children);
            lemma_tighten_seq(children);
        },
        NodeM::Paragraph { children } => {
            assert forall|i: int| 0 <= i < children.len() implies paras_flat(
                #[trigger] children[i],
            ) by {
                assert(children[i] is Text);
                assert(children_of(children[i]).len() == 0);
            }
            lemma_tight_seq(children);
            lemma_tighten_seq(children);
        },
        _ => {
            assert(tighten_m(n) == n);
        },
    }
}

proof fn lemma_tight_seq(ns: Seq<NodeM>)
    requires
        forall|i: int| 0 <= i < ns.len() ==> paras_flat(#[trigger] ns[i]),
    ensures
        forall|i: int| 0 <= i < ns.len() ==> tight_ok(#[trigger] tighten_seq(ns)[i]),
    decreases ns, 4nat,
{
    lemma_tighten_seq(ns);
    assert forall|i: int| 0 <= i < ns.len() implies tight_ok(#[trigger] tighten_seq(ns)[i]) by {
        lemma_tight_lists(ns[i]);
    }
}

proof fn lemma_tight_items(ns: Seq<NodeM>)
    requires
        forall|i: int| 0 <= i < ns.len() ==> paras_flat(#[trigger] ns[i]),
    ensures
        forall|i: int|
            0 <= i < ns.len() ==> (#[trigger] tighten_items(ns)[i] matches NodeM::ListItem {
                children: cs,
                ..
            } ==> item_flat_ok(cs)),
    decreases ns, 4nat,
{
    lemma_tighten_items(ns);
    assert forall|i: int|
        0 <= i < ns.len() implies (#[trigger] tighten_items(ns)[i] matches NodeM::ListItem {
            children: cs,
            ..
        } ==> item_flat_ok(cs)) by {
        assert(tighten_items(ns)[i] == tighten_item_one(ns[i]));
        if ns[i] is ListItem {
            lemma_tight_flat(children_of(ns[i]));
        } else {
            lemma_tight_lists(ns[i]);
            assert(tighten_item_one(ns[i]) == tighten_m(ns[i]));
            if tighten_m(ns[i]) is ListItem {
                assert(ns[i] is ListItem);
            }
        }
    }
}

/// Flattening the children of one tight list item leaves no paragraph.
proof fn lemma_tight_flat(cs: Seq<NodeM>)
    requires
        forall|j: int| 0 <= j < cs.len() ==> paras_flat(#[trigger] cs[j]),
    ensures
        item_flat_ok(tighten_flat(cs)),
    decreases cs, 4nat,
{
    if cs.len() > 0 {
        lemma_tight_flat(cs.drop_last());
        let last = cs.last();
        let pre = tighten_flat(cs.drop_last());
        match last {
            NodeM::Paragraph { children } => {
                lemma_tighten_seq(children);
                assert forall|j: int|
                    0 <= j < tighten_flat(cs).len() implies !((#[trigger] tighten_flat(
                    cs,
                )[j]) is Paragraph) && tight_ok(tighten_flat(cs)[j]) by {
                    if j < pre.len() {
                        assert(tighten_flat(cs)[j] == pre[j]);
                    } else {
                        let k = j - pre.len();
                        assert(tighten_flat(cs)[j] == tighten_seq(children)[k]);
                        assert(children[k] is Text);
                        assert(tighten_seq(children)[k] == tighten_m(children[k]));
                    }
                }
            },
            _ => {
                lemma_tight_lists(last);
                assert forall|j: int|
                    0 <= j < tighten_flat(cs).len() implies !((#[trigger] tighten_flat(
                    cs,
                )[j]) is Paragraph) && tight_ok(tighten_flat(cs)[j]) by {
                    if j < pre.len() {
                        assert(tighten_flat(cs)[j] == pre[j]);
                    } else {
                        assert(tighten_flat(cs)[j] == tighten_m(last));
                        if tighten_m(last) is Paragraph {
                            assert(last is Paragraph);
                        }
                    }
                }
            },
        }
    }
}

/// Loose lists: the tightening pass leaves a loose list's items as they
/// stand; a paragraph child of an item stays a paragraph, so it still
/// renders wrapped in `<p>`.
pub proof fn lemma_loose_lists(lt: crate::model::ListTypeM, cs: Seq<NodeM>)
    ensures
        tighten_m(
            NodeM::List { list_type: lt, proximity: crate::ast::ListProximity::Loose, children: cs },
        ) == (NodeM::List {
            list_type: lt,
            proximity: crate::ast::ListProximity::Loose,
            children: tighten_seq(cs),
        }),
        forall|i: int, j: int|
            0 <= i < cs.len() && cs[i] is ListItem && 0 <= j < children_of(#[trigger] cs[i]).len()
                ==> ((#[trigger] children_of(cs[i])[j]) is Paragraph <==> children_of(
                tighten_seq(cs)[i],
            )[j] is Paragraph),
{
    lemma_tighten_seq(cs);
    assert forall|i: int, j: int|
        0 <= i < cs.len() && cs[i] is ListItem && 0 <= j < children_of(#[trigger] cs[i]).len()
            implies ((#[trigger] children_of(cs[i])[j]) is Paragraph <==> children_of(
            tighten_seq(cs)[i],
        )[j] is Paragraph) by {
        assert(tighten_seq(cs)[i] == tighten_m(cs[i]));
        lemma_tighten_seq(children_of(cs[i]));
        assert(children_of(tighten_m(cs[i])) == tighten_seq(children_of(cs[i])));
        assert(children_of(tighten_m(cs[i]))[j] == tighten_m(children_of(cs[i])[j]));
        if children_of(cs[i])[j] is Paragraph {
        } else {
            if tighten_m(children_of(cs[i])[j]) is Paragraph {
                assert(children_of(cs[i])[j] is Paragraph);
            }
        }
    }
}

/// Code text without angle brackets is rendered byte for byte.
pub proof fn lemma_encode_id(s: Seq<char>)
    requires
        forall|i: int| 0 <= i < s.len() ==> s[i] != '<' && s[i] != '>',
    ensures
        encode_s(s) == s,
    decreases s.len(),
{
    if s.len() > 0 {
        assert forall|i: int| 0 <= i < s.skip(1).len() implies s.skip(1)[i] != '<' && s.skip(1)[i]
            != '>' by {
            assert(s.skip(1)[i] == s[i + 1]);
        }
        lemma_encode_id(s.skip(1));
        assert(crate::render::enc_char(s[0]) == seq![s[0]]);
        assert(seq![s[0]] + s.skip(1) =~= s);
    }
}

/// Fenced code preserves its content at any depth: once every open
/// container has matched the line, leaving the state as it stood and
/// the remainder at `pos`, a remainder that does not close the fence is
/// appended to the code text exactly, stripped only of at most the
/// opener's count of leading spaces, and followed by one newline.
pub proof fn lemma_fenced_line_nested(st: StateM, line: Seq<char>, pos: int, rem: int)
    requires
        st.fence is Some,
        cur_of(st) is Code,
        0 <= pos,
        crate::parser::phase1(st, line) == (st, st.depth, pos, rem),
        !all_ws_from(line, pos),
        fence_match(line.skip(pos)) is None,
    ensures
        ({
            let lead = st.fence->Some_0.2;
            let sp = run_len(line.skip(pos), ch_fn(' '));
            let strip: int = if lead >= sp {
                sp
            } else {
                lead
            };
            step_line(st, line) == set_cur_st(
                StateM { last_blank: false, ..st },
                NodeM::Code {
                    text: cur_of(st)->Code_text + line.skip(pos + strip) + "\n"@,
                    info: cur_of(st)->Code_info,
                },
            )
        }),
{
    let (st1, m, p, r) = crate::parser::phase1(st, line);
    assert(st1 == st && m == st.depth && p == pos && r == rem);
    let st2 = crate::parser::close_spec(st1, m);
    assert(st2 == st1);
    let (st3, pos2, rem2, lazy) = crate::parser::open_spec(st2, line, pos, rem, true);
    assert(st3 == st2 && pos2 == pos);
    let st4 = StateM { last_blank: false, ..st };
    assert(cur_of(st4) == cur_of(st));
    assert(step_line(st, line) == crate::parser::leaf_spec(st4, line, pos, rem2, lazy, 0));
    assert(crate::parser::leaf_spec(st4, line, pos, rem2, lazy, 0) == fenced_step(st4, line, pos));
}

/// Fenced code preserves its content: while a fence is open at the top
/// level, a line that does not close it is appended to the code text
/// exactly, stripped only of at most the opener's count of leading
/// spaces, and followed by one newline.
pub proof fn lemma_fenced_line(st: StateM, line: Seq<char>)
    requires
        st.fence is Some,
        cur_of(st) is Code,
        st.depth == 1,
        st.root is Root,
        !all_ws_from(line, 0),
        fence_match(line) is None,
    ensures
        ({
            let lead = st.fence->Some_0.2;
            let sp = run_len(line, ch_fn(' '));
            let strip: int = if lead >= sp {
                sp
            } else {
                lead
            };
            step_line(st, line) == set_cur_st(
                StateM { last_blank: false, ..st },
                NodeM::Code {
                    text: cur_of(st)->Code_text + line.skip(strip) + "\n"@,
                    info: cur_of(st)->Code_info,
                },
            )
        }),
{
    let w = crate::parser::walk(st.root, st.depth, line, st.last_blank, 0, 0, 0, false, Option::None);
    assert(spine_node(st.root, 1) == cur_of(st));
    assert(w == crate::parser::walk(st.root, st.depth, line, st.last_blank, 1, 0, 0, false, Option::None));
    assert(w.m == 1 && w.pos == 0 && w.rem == 0 && w.fix is None && w.last_l is None);
    assert(crate::parser::phase1(st, line) == (st, st.depth, 0int, 0int));
    assert(line.skip(0) =~= line);
    lemma_fenced_line_nested(st, line, 0, 0);
}

/// A run of `n` number signs.
pub open spec fn hashes(n: int) -> Seq<char> {
    Seq::new(
        if n < 0 {
            0nat
        } else {
            n as nat
        },
        |i: int| '#',
    )
}

/// Trimming the end twice is trimming it once.
pub proof fn lemma_trim_end_idem(u: Seq<char>)
    ensures
        trim_end_s(trim_end_s(u)) == trim_end_s(u),
{
    lemma_run_len_end(u, ws_fn());
    let r = run_len_end(u, ws_fn());
    let u1 = trim_end_s(u);
    assert(u1.len() == u.len() - r);
    assert forall|i: int| u1.len() - 0 <= i < u1.len() implies is_ws(u1[i]) by {}
    if u1.len() > 0 {
        assert(u1[u1.len() - 1] == u[u.len() - r - 1]);
        assert(!is_ws(u1[u1.len() - 1]));
    }
    lemma_run_len_end_unique(u1, ws_fn(), 0);
    assert(u1.take(u1.len() as int) =~= u1);
}

/// Trimming the start of an already start-trimmed sequence changes
/// nothing.
pub proof fn lemma_trim_start_idem(u: Seq<char>)
    ensures
        trim_start_s(trim_start_s(u)) == trim_start_s(u),
{
    lemma_run_len(u, ws_fn());
    let r = run_len(u, ws_fn());
    let u1 = trim_start_s(u);
    if u1.len() > 0 {
        assert(u1[0] == u[r]);
    }
    lemma_run_len_unique(u1, ws_fn(), 0);
    assert(u1.skip(0) =~= u1);
}

/// A line that does not begin with `<` opens no HTML block.
pub proof fn lemma_no_html_openers(l: Seq<char>)
    requires
        l.len() > 0,
        l[0] != '<',
        l[0] != ' ',
    ensures
        html15_kind(l) is None,
        !html6_match(l),
        !html7_match(l),
{
    reveal_strlit("<pre");
    reveal_strlit("<script");
    reveal_strlit("<style");
    reveal_strlit("<textarea");
    reveal_strlit("<!--");
    reveal_strlit("<?");
    reveal_strlit("<!");
    reveal_strlit("<![CDATA[");
    lemma_run_len_unique(l, ch_fn(' '), 0);
    assert(l.skip(0) =~= l);
    if crate::chars::occurs_at(l, "<pre"@, 0) {
        assert(l.subrange(0, "<pre"@.len() as int)[0] == l[0]);
    }
    if crate::chars::occurs_at(l, "<script"@, 0) {
        assert(l.subrange(0, "<script"@.len() as int)[0] == l[0]);
    }
    if crate::chars::occurs_at(l, "<style"@, 0) {
        assert(l.subrange(0, "<style"@.len() as int)[0] == l[0]);
    }
    if crate::chars::occurs_at(l, "<textarea"@, 0) {
        assert(l.subrange(0, "<textarea"@.len() as int)[0] == l[0]);
    }
    if crate::chars::occurs_at(l, "<!--"@, 0) {
        assert(l.subrange(0, "<!--"@.len() as int)[0] == l[0]);
    }
    if crate::chars::occurs_at(l, "<?"@, 0) {
        assert(l.subrange(0, "<?"@.len() as int)[0] == l[0]);
    }
    if crate::chars::occurs_at(l, "<!"@, 0) {
        assert(l.subrange(0, "<!"@.len() as int)[0] == l[0]);
    }
    if crate::chars::occurs_at(l, "<![CDATA["@, 0) {
        assert(l.subrange(0, "<![CDATA["@.len() as int)[0] == l[0]);
    }
}

/// A heading line parses to exactly one heading: for `n` in 1..6 and a
/// text without `#`, newline or carriage return, the whole document
/// `"#" * n + " " + t` renders to exactly one `<hn>` element holding the
/// escaped, trimmed text, and no other output.
#[verifier::rlimit(100)]
pub proof fn lemma_atx_line(n: int, t: Seq<char>)
    requires
        1 <= n <= 6,
        forall|i: int| 0 <= i < t.len() ==> t[i] != '#' && t[i] != '\n' && t[i] != '\r',
    ensures
        html_of(hashes(n) + seq![' '] + t) == "<h"@ + dec_str(n) + ">"@ + escape_s(trim_s(t))
            + "</h"@ + dec_str(n) + ">\n"@,
{
    let l = hashes(n) + seq![' '] + t;
    assert(l.len() == n + 1 + t.len());
    assert forall|i: int| 0 <= i < n implies l[i] == '#' by {}
    assert(l[n as int] == ' ');
    assert forall|i: int| n + 1 <= i < l.len() implies l[i] == t[i - n - 1] by {}
    // one physical line
    lemma_run_len_unique(l, not_ch_fn('\n'), l.len() as int);
    assert(lines_of(l) =~= seq![l]);
    assert(parse_lines(seq![l]) == step_line(parse_lines(seq![l].drop_last()), l)) by {
        assert(seq![l].last() == l);
    }
    assert(seq![l].drop_last() =~= Seq::<Seq<char>>::empty());
    assert(parse_lines(Seq::<Seq<char>>::empty()) == init_state());
    let st = init_state();
    // phase one: nothing is open
    let w = crate::parser::walk(st.root, st.depth, l, st.last_blank, 0, 0, 0, false, Option::None);
    assert(w.m == 0 && w.pos == 0 && w.rem == 0 && w.fix is None && w.last_l is None);
    let (st1, m, pos, rem) = crate::parser::phase1(st, l);
    assert(st1 == st);
    assert(crate::parser::close_spec(st1, 0) == st1);
    // phase two: no marker opens
    assert(l.skip(0) =~= l);
    lemma_run_len_unique(l, ch_fn(' '), 0);
    assert(bq_marker(l) is None);
    assert(run_len(l, crate::chars::digit_fn()) == 0) by {
        lemma_run_len_unique(l, crate::chars::digit_fn(), 0);
    }
    assert(li_match(l) is None);
    let (st3, pos2, rem2, lazy) = crate::parser::open_spec(st, l, 0, 0, true);
    assert(st3 == st && pos2 == 0 && lazy);
    // not blank
    assert(!all_ws_from(l, 0)) by {
        assert(!is_ws(l[0]));
    }
    // the heading is recognised
    lemma_no_html_openers(l);
    lemma_run_len_unique(l.skip(0), ch_fn('#'), n);
    let body = l.skip(0 + n);
    assert(crate::chars::is_space_tab(body[0]));
    let a = run_len(t, crate::chars::space_tab_fn());
    lemma_run_len(t, crate::chars::space_tab_fn());
    assert(run_len(body, crate::chars::space_tab_fn()) == a + 1) by {
        lemma_run_len(t, crate::chars::space_tab_fn());
        assert forall|i: int| 0 <= i < a + 1 implies crate::chars::is_space_tab(body[i]) by {
            if i > 0 {
                assert(body[i] == t[i - 1]);
            }
        }
        if a + 1 < body.len() {
            assert(body[a + 1] == t[a]);
        }
        lemma_run_len_unique(body, crate::chars::space_tab_fn(), a + 1);
    }
    let rest = body.skip(a + 1);
    assert(rest =~= t.skip(a));
    // in `t`, leading whitespace is spaces and tabs only
    assert(a == run_len(t, ws_fn())) by {
        lemma_run_len(t, crate::chars::space_tab_fn());
        assert forall|i: int| 0 <= i < a implies is_ws(t[i]) by {}
        if a < t.len() {
            assert(!crate::chars::is_space_tab(t[a]));
            assert(!is_ws(t[a]));
        }
        lemma_run_len_unique(t, ws_fn(), a);
    }
    assert(rest == trim_start_s(t));
    let rest2 = trim_end_s(rest);
    assert(rest2 == trim_s(t));
    lemma_run_len_end(rest, ws_fn());
    assert(rest2 =~= rest.take(rest.len() - run_len_end(rest, ws_fn())));
    // the trimmed text holds no number sign
    assert(run_len_end(rest2, ch_fn('#')) == 0) by {
        if rest2.len() > 0 {
            assert(rest2[rest2.len() - 1] == rest[rest2.len() - 1]);
            assert(rest[rest2.len() - 1] == t[a + rest2.len() - 1]);
        }
        lemma_run_len_end_unique(rest2, ch_fn('#'), 0);
    }
    let content = crate::matchers::atx_content(body);
    if rest2.len() == 0 {
        assert(content == Seq::<char>::empty());
        assert(trim_s(t) =~= Seq::<char>::empty());
    } else {
        assert(content == trim_s(rest));
        assert(trim_start_s(rest) == rest) by {
            lemma_trim_start_idem(t);
        }
        assert(trim_s(rest) == rest2);
    }
    assert(content == trim_s(t));
    assert(atx_match(l) == Option::Some((n, content)));
    // the heading line is no fence, break or underline
    let st4 = StateM { last_blank: false, ..st };
    assert(cur_of(st4) is Root);
    assert(step_line(st, l) == crate::parser::atx_step(st4, n, content));
    // the resulting tree
    let heading = NodeM::Heading { level: n as u8, children: seq![NodeM::Text { text: content }] };
    assert(crate::parser::close_para_code(st4) == st4);
    let pushed = crate::parser::push_st(st4, heading);
    assert(children_of(st4.root).len() == 0);
    assert(pushed.root =~= (NodeM::Root { children: seq![heading] })) by {
        assert(children_of(st4.root).push(heading) =~= seq![heading]);
    }
    let fin = crate::parser::atx_step(st4, n, content);
    assert(fin.root == (NodeM::Root { children: seq![heading] }));
    // tightening leaves it alone
    let troot = tighten_m(fin.root);
    assert(troot == (NodeM::Root { children: tighten_seq(seq![heading]) }));
    lemma_tighten_seq(seq![heading]);
    assert(tighten_seq(seq![heading]) =~= seq![heading]) by {
        assert(tighten_seq(seq![heading])[0] == tighten_m(heading));
        assert(tighten_m(heading) == heading);
    }
    // rendering
    assert(render_m(troot) == render_seq_m(seq![heading]));
    assert(render_seq_m(seq![heading]) == render_seq_m(seq![heading].drop_last()) + render_m(
        heading,
    ));
    assert(seq![heading].drop_last() =~= Seq::<NodeM>::empty());
    assert(render_seq_m(Seq::<NodeM>::empty()) =~= Seq::<char>::empty());
    let txt = NodeM::Text { text: content };
    assert(render_seq_m(seq![txt]) == render_seq_m(seq![txt].drop_last()) + render_m(txt));
    assert(seq![txt].drop_last() =~= Seq::<NodeM>::empty());
    assert(trim_end_s(content) == content) by {
        lemma_trim_end_idem(trim_start_s(t));
    }
    assert(render_m(txt) == escape_s(content));
    assert(Seq::<char>::empty() + render_m(txt) =~= render_m(txt));
    assert(render_m(heading) == "<h"@ + dec_str(n) + ">"@ + escape_s(content) + "</h"@ + dec_str(
        n,
    ) + ">\n"@);
    assert(Seq::<char>::empty() + render_m(heading) =~= render_m(heading));
    assert(html_of(l) == render_m(heading));
}

/// A plain line: non-blank, it matches no block marker, it opens no
/// leaf other than a paragraph, and it holds no newline or carriage
/// return.
pub open spec fn plain_line(l: Seq<char>) -> bool {
    &&& l.len() > 0
    &&& !all_ws_from(l, 0)
    &&& bq_marker(l) is None
    &&& li_match(l) is None
    &&& html15_kind(l) is None
    &&& !html6_match(l)
    &&& !html7_match(l)
    &&& atx_match(l) is None
    &&& setext_level(l) == 0
    &&& !is_thematic_break(l)
    &&& fence_match(l) is None
    &&& !is_indented_code(l)
    &&& (forall|i: int| 0 <= i < l.len() ==> l[i] != '\n' && l[i] != '\r')
}

/// The parser state while one paragraph is open at the top level.
pub open spec fn para_state(ts: Seq<NodeM>) -> StateM {
    StateM {
        root: NodeM::Root { children: seq![NodeM::Paragraph { children: ts }] },
        depth: 1,
        fence: Option::None,
        seps: Seq::empty(),
        last_blank: false,
    }
}

/// The text runs the paragraph accumulates, line by line.
pub open spec fn text_nodes(ls: Seq<Seq<char>>) -> Seq<NodeM>
    decreases ls,
{
    if ls.len() == 0 {
        Seq::empty()
    } else if ls.len() == 1 {
        seq![NodeM::Text { text: trim_start_s(ls[0]) }]
    } else {
        text_nodes(ls.drop_last()).push(
            NodeM::Text { text: "\n"@ + trim_start_s(ls.last()) },
        )
    }
}

/// The lines with their leading and trailing whitespace removed, joined
/// with newlines.
pub open spec fn joined(ls: Seq<Seq<char>>) -> Seq<char>
    decreases ls,
{
    if ls.len() == 0 {
        Seq::empty()
    } else if ls.len() == 1 {
        trim_s(ls[0])
    } else {
        joined(ls.drop_last()) + seq!['\n'] + trim_s(ls.last())
    }
}

/// The first plain line opens the paragraph.
proof fn lemma_step_plain_first(l: Seq<char>)
    requires
        plain_line(l),
    ensures
        step_line(init_state(), l) == para_state(seq![NodeM::Text { text: trim_start_s(l) }]),
{
    let st = init_state();
    let w = crate::parser::walk(st.root, st.depth, l, st.last_blank, 0, 0, 0, false, Option::None);
    assert(w.m == 0 && w.pos == 0 && w.rem == 0 && w.fix is None && w.last_l is None);
    let (st1, m, pos, rem) = crate::parser::phase1(st, l);
    assert(st1 == st);
    assert(crate::parser::close_spec(st1, 0) == st1);
    assert(l.skip(0) =~= l);
    let (st3, pos2, rem2, lazy) = crate::parser::open_spec(st, l, 0, 0, true);
    assert(st3 == st && pos2 == 0);
    assert(!all_ws_from(l, 0));
    let st4 = StateM { last_blank: false, ..st };
    assert(step_line(st, l) == crate::parser::leaf_spec(st4, l, 0, 0, true, 0));
    assert(cur_of(st4) is Root);
    assert(crate::parser::leaf_spec(st4, l, 0, 0, true, 0) == crate::parser::para_open_step(
        st4,
        l,
    ));
    let pushed = crate::parser::push_st(
        st4,
        NodeM::Paragraph { children: seq![NodeM::Text { text: trim_start_s(l) }] },
    );
    assert(children_of(st4.root).len() == 0);
    assert(children_of(st4.root).push(
        NodeM::Paragraph { children: seq![NodeM::Text { text: trim_start_s(l) }] },
    ) =~= seq![NodeM::Paragraph { children: seq![NodeM::Text { text: trim_start_s(l) }] }]);
    assert(pushed =~= para_state(seq![NodeM::Text { text: trim_start_s(l) }]));
}

/// Every further plain line continues the open paragraph.
proof fn lemma_step_plain_next(ts: Seq<NodeM>, l: Seq<char>)
    requires
        plain_line(l),
    ensures
        step_line(para_state(ts), l) == para_state(
            ts.push(NodeM::Text { text: "\n"@ + trim_start_s(l) }),
        ),
{
    let st = para_state(ts);
    let para = NodeM::Paragraph { children: ts };
    lemma_newline_literal();
    assert(children_of(st.root).last() == para);
    assert(spine_node(children_of(st.root).last(), 0) == para);
    assert(spine_node(st.root, 1) == para);
    assert(cur_of(st) == para);
    assert(l.skip(0) =~= l);
    let w0 = crate::parser::walk(st.root, st.depth, l, st.last_blank, 0, 0, 0, false, Option::None);
    assert(w0 == crate::parser::walk(
        st.root,
        st.depth,
        l,
        st.last_blank,
        1,
        0,
        0,
        false,
        Option::None,
    ));
    assert(w0.m == 1 && w0.pos == 0 && w0.rem == 0 && w0.fix is None && w0.last_l is None);
    let (st1, m, pos, rem) = crate::parser::phase1(st, l);
    assert(st1 == st && m == 1);
    assert(crate::parser::close_spec(st1, 1) == st1);
    let (st3, pos2, rem2, lazy) = crate::parser::open_spec(st, l, 0, 0, true);
    assert(st3 == st && pos2 == 0);
    assert(!all_ws_from(l, 0));
    let st4 = StateM { last_blank: false, ..st };
    assert(st4 == st);
    assert(step_line(st, l) == crate::parser::leaf_spec(st, l, 0, 0, true, 0));
    assert(crate::parser::leaf_spec(st, l, 0, 0, true, 0) == crate::parser::append_text_at(
        st,
        1,
        "\n"@ + trim_start_s(l),
    ));
    let x = "\n"@ + trim_start_s(l);
    let newpara = NodeM::Paragraph { children: ts.push(NodeM::Text { text: x }) };
    assert(with_children(para, children_of(para).push(NodeM::Text { text: x })) == newpara);
    assert(children_of(st.root).len() == 1);
    assert(spine_set(children_of(st.root).last(), 0, newpara) == newpara);
    assert(spine_set(st.root, 1, newpara) == with_children(
        st.root,
        children_of(st.root).update(0, newpara),
    ));
    assert(children_of(st.root).update(0, newpara) =~= seq![newpara]);
    assert(spine_set(st.root, 1, newpara) == (NodeM::Root { children: seq![newpara] }));
    assert(crate::parser::append_text_at(st, 1, x) =~= para_state(
        ts.push(NodeM::Text { text: x }),
    ));
}

/// Parsing a document of plain lines yields one open paragraph holding
/// one text run per line.
proof fn lemma_parse_plain(ls: Seq<Seq<char>>)
    requires
        ls.len() >= 1,
        forall|i: int| 0 <= i < ls.len() ==> plain_line(#[trigger] ls[i]),
    ensures
        parse_lines(ls) == para_state(text_nodes(ls)),
    decreases ls,
{
    if ls.len() == 1 {
        assert(ls.drop_last() =~= Seq::<Seq<char>>::empty());
        assert(parse_lines(ls.drop_last()) == init_state());
        assert(parse_lines(ls) == step_line(parse_lines(ls.drop_last()), ls.last()));
        assert(parse_lines(ls) == step_line(init_state(), ls.last()));
        assert(ls.last() == ls[0]);
        lemma_step_plain_first(ls[0]);
    } else {
        assert forall|i: int| 0 <= i < ls.drop_last().len() implies plain_line(
            #[trigger] ls.drop_last()[i],
        ) by {
            assert(ls.drop_last()[i] == ls[i]);
        }
        lemma_parse_plain(ls.drop_last());
        assert(parse_lines(ls) == step_line(para_state(text_nodes(ls.drop_last())), ls.last()));
        assert(plain_line(ls.last())) by {
            assert(ls.last() == ls[ls.len() - 1]);
        }
        lemma_step_plain_next(text_nodes(ls.drop_last()), ls.last());
    }
}

/// Escape resolution distributes over a junction that starts with a
/// newline, since no escape pair crosses it.
proof fn lemma_escape_concat(x: Seq<char>, y: Seq<char>)
    requires
        y.len() == 0 || y[0] == '\n',
    ensures
        escape_s(x + y) == escape_s(x) + escape_s(y),
    decreases x.len(),
{
    if x.len() == 0 {
        assert(x + y =~= y);
        assert(Seq::<char>::empty() + escape_s(y) =~= escape_s(y));
    } else {
        let s = x + y;
        assert(s[0] == x[0]);
        if x.len() >= 2 {
            assert(s[1] == x[1]);
        } else {
            if s.len() >= 2 {
                assert(s[1] == y[0]);
            }
        }
        if s.len() >= 2 && s[0] == '\\' && (s[1] == '#' || s[1] == '>' || s[1] == '-') {
            assert(x.len() >= 2);
            assert(x.skip(2) + y =~= s.skip(2));
            lemma_escape_concat(x.skip(2), y);
            let rep: Seq<char> = if s[1] == '#' {
                "#"@
            } else if s[1] == '>' {
                "&gt;"@
            } else {
                "-"@
            };
            assert(escape_s(s) == rep + (escape_s(x.skip(2)) + escape_s(y)));
            assert(escape_s(x) == rep + escape_s(x.skip(2)));
            assert(rep + (escape_s(x.skip(2)) + escape_s(y)) =~= (rep + escape_s(x.skip(2)))
                + escape_s(y));
        } else {
            assert(x.skip(1) + y =~= s.skip(1));
            lemma_escape_concat(x.skip(1), y);
            if x.len() >= 2 && x[0] == '\\' && (x[1] == '#' || x[1] == '>' || x[1] == '-') {
                assert(false);
            }
            assert(escape_s(x) == seq![x[0]] + escape_s(x.skip(1)));
            assert(escape_s(s) == seq![s[0]] + (escape_s(x.skip(1)) + escape_s(y)));
            assert(seq![s[0]] + (escape_s(x.skip(1)) + escape_s(y)) =~= (seq![x[0]] + escape_s(
                x.skip(1),
            )) + escape_s(y));
        }
    }
}

/// Make the newline literal's one character visible.
proof fn lemma_newline_literal()
    ensures
        "\n"@ =~= seq!['\n'],
        "\n"@.len() == 1,
        "\n"@[0] == '\n',
{
    reveal_strlit("\n");
    assert("\n"@ =~= seq!['\n']);
}

/// A plain line's start-trimmed text is non-empty, and right-trimming
/// it, with or without a leading newline kept in place, leaves its full
/// trim.
proof fn lemma_plain_trim(l: Seq<char>)
    requires
        plain_line(l),
    ensures
        trim_start_s(l).len() > 0,
        trim_end_s(trim_start_s(l)) == trim_s(l),
        trim_end_s("\n"@ + trim_start_s(l)) == "\n"@ + trim_s(l),
{
    lemma_run_len(l, ws_fn());
    let r = run_len(l, ws_fn());
    let t = trim_start_s(l);
    if r == l.len() {
        assert(all_ws_from(l, 0));
    }
    assert(t.len() > 0);
    assert(t[0] == l[r]);
    assert(!is_ws(t[0]));
    lemma_run_len_end(t, ws_fn());
    let k = run_len_end(t, ws_fn());
    if k == t.len() {
        assert(is_ws(t[0]));
    }
    assert(k < t.len());
    lemma_newline_literal();
    let u = "\n"@ + t;
    assert forall|i: int| u.len() - k <= i < u.len() implies is_ws(u[i]) by {
        assert(u[i] == t[i - 1]);
    }
    assert(u[u.len() - k - 1] == t[t.len() - k - 1]);
    assert(!is_ws(u[u.len() - k - 1]));
    lemma_run_len_end_unique(u, ws_fn(), k);
    assert(trim_end_s(u) =~= "\n"@ + trim_end_s(t));
}

/// Rendering the accumulated text runs is escaping the joined lines.
proof fn lemma_render_texts(ls: Seq<Seq<char>>)
    requires
        ls.len() >= 1,
        forall|i: int| 0 <= i < ls.len() ==> plain_line(#[trigger] ls[i]),
    ensures
        render_seq_m(text_nodes(ls)) == escape_s(joined(ls)),
    decreases ls,
{
    if ls.len() == 1 {
        let t = trim_s(ls[0]);
        let ts = text_nodes(ls);
        assert(ts.last() == (NodeM::Text { text: trim_start_s(ls[0]) }));
        assert(ts.drop_last() =~= Seq::<NodeM>::empty());
        lemma_plain_trim(ls[0]);
        assert(render_m(ts.last()) == escape_s(t));
        assert(render_seq_m(ts) == render_seq_m(ts.drop_last()) + render_m(ts.last()));
        assert(render_seq_m(ts.drop_last()) == Seq::<char>::empty());
        assert(Seq::<char>::empty() + escape_s(t) =~= escape_s(t));
        assert(joined(ls) == t);
    } else {
        assert forall|i: int| 0 <= i < ls.drop_last().len() implies plain_line(
            #[trigger] ls.drop_last()[i],
        ) by {
            assert(ls.drop_last()[i] == ls[i]);
        }
        lemma_render_texts(ls.drop_last());
        assert(plain_line(ls.last())) by {
            assert(ls.last() == ls[ls.len() - 1]);
        }
        lemma_plain_trim(ls.last());
        let t = trim_s(ls.last());
        let ts = text_nodes(ls);
        assert(ts.drop_last() =~= text_nodes(ls.drop_last()));
        assert(ts.last() == (NodeM::Text { text: "\n"@ + trim_start_s(ls.last()) }));
        assert(render_m(ts.last()) == escape_s("\n"@ + t));
        assert(render_seq_m(ts) == render_seq_m(ts.drop_last()) + render_m(ts.last()));
        lemma_newline_literal();
        assert(joined(ls.drop_last()) + seq!['\n'] + t =~= joined(ls.drop_last()) + ("\n"@ + t));
        lemma_escape_concat(joined(ls.drop_last()), "\n"@ + t);
        assert(("\n"@ + t)[0] == '\n');
        assert(escape_s(joined(ls)) == escape_s(joined(ls.drop_last())) + escape_s("\n"@ + t));
    }
}

/// The plain-paragraph law: an input whose every line is plain renders
/// to exactly one paragraph, holding the escape-resolved join of the
/// lines trimmed of their leading and trailing whitespace.
pub proof fn lemma_plain_paragraph(s: Seq<char>)
    requires
        lines_of(s).len() >= 1,
        forall|i: int| 0 <= i < lines_of(s).len() ==> plain_line(#[trigger] lines_of(s)[i]),
    ensures
        html_of(s) == "<p>"@ + escape_s(joined(lines_of(s))) + "</p>\n"@,
{
    let ls = lines_of(s);
    lemma_parse_plain(ls);
    let ts = text_nodes(ls);
    let root = para_state(ts).root;
    let para = NodeM::Paragraph { children: ts };
    // tightening leaves the tree alone
    lemma_tighten_seq(seq![para]);
    lemma_tighten_seq(ts);
    lemma_texts_shape(ls);
    assert(texts_only(ls));
    assert(tighten_seq(ts) =~= ts) by {
        assert forall|i: int| 0 <= i < ts.len() implies tighten_seq(ts)[i] == ts[i] by {
            assert(ts[i] is Text);
            assert(tighten_seq(ts)[i] == tighten_m(ts[i]));
        }
    }
    assert(tighten_m(para) == para);
    assert(tighten_seq(seq![para]) =~= seq![para]) by {
        assert(tighten_seq(seq![para])[0] == tighten_m(para));
    }
    assert(tighten_m(root) == root);
    // rendering
    assert(render_m(root) == render_seq_m(seq![para]));
    assert(seq![para].drop_last() =~= Seq::<NodeM>::empty());
    assert(render_seq_m(seq![para]) == render_seq_m(Seq::<NodeM>::empty()) + render_m(para));
    assert(Seq::<char>::empty() + render_m(para) =~= render_m(para));
    lemma_render_texts(ls);
    assert(render_m(para) == "<p>"@ + escape_s(joined(ls)) + "</p>\n"@);
}

/// Every accumulated node is a text run.
pub open spec fn texts_only(ls: Seq<Seq<char>>) -> bool {
    forall|i: int| 0 <= i < text_nodes(ls).len() ==> (#[trigger] text_nodes(ls)[i]) is Text
}

proof fn lemma_texts_shape(ls: Seq<Seq<char>>)
    ensures
        texts_only(ls),
        text_nodes(ls).len() == if ls.len() == 0 {
            0int
        } else if ls.len() == 1 {
            1int
        } else {
            text_nodes(ls.drop_last()).len() + 1int
        },
    decreases ls,
{
    if ls.len() > 1 {
        lemma_texts_shape(ls.drop_last());
    }
}

/// A matching closer ends the fenced block at any depth: once every
/// open container has matched the line, a remainder with the same fence
/// character, a run at least as long as the opener and only whitespace
/// after it closes the block and clears the fence state.
pub proof fn lemma_fenced_close_nested(st: StateM, line: Seq<char>, pos: int, rem: int)
    requires
        st.fence is Some,
        cur_of(st) is Code,
        0 <= pos,
        crate::parser::phase1(st, line) == (st, st.depth, pos, rem),
        !all_ws_from(line, pos),
        fence_match(line.skip(pos)) is Some,
        fence_match(line.skip(pos))->Some_0.1 == st.fence->Some_0.0,
        fence_match(line.skip(pos))->Some_0.2 >= st.fence->Some_0.1,
        trim_s(fence_match(line.skip(pos))->Some_0.3).len() == 0,
    ensures
        step_line(st, line) == (StateM {
            fence: Option::None,
            last_blank: false,
            ..crate::parser::pop1(st)
        }),
{
    let (st1, m, p, r) = crate::parser::phase1(st, line);
    assert(st1 == st && m == st.depth && p == pos && r == rem);
    assert(crate::parser::close_spec(st1, m) == st1);
    let (st3, pos2, rem2, lazy) = crate::parser::open_spec(st1, line, pos, rem, true);
    assert(st3 == st1 && pos2 == pos);
    let st4 = StateM { last_blank: false, ..st };
    assert(cur_of(st4) == cur_of(st));
    assert(step_line(st, line) == crate::parser::leaf_spec(st4, line, pos, rem2, lazy, 0));
    assert(crate::parser::leaf_spec(st4, line, pos, rem2, lazy, 0) == fenced_step(st4, line, pos));
}

/// A matching closer ends the fenced block: the same fence character, a
/// run at least as long as the opener, and nothing but whitespace after
/// it.
pub proof fn lemma_fenced_close(st: StateM, line: Seq<char>)
    requires
        st.fence is Some,
        cur_of(st) is Code,
        st.depth == 1,
        st.root is Root,
        !all_ws_from(line, 0),
        fence_match(line) is Some,
        fence_match(line)->Some_0.1 == st.fence->Some_0.0,
        fence_match(line)->Some_0.2 >= st.fence->Some_0.1,
        trim_s(fence_match(line)->Some_0.3).len() == 0,
    ensures
        step_line(st, line) == (StateM {
            fence: Option::None,
            depth: 0,
            last_blank: false,
            ..st
        }),
{
    let w = crate::parser::walk(st.root, st.depth, line, st.last_blank, 0, 0, 0, false, Option::None);
    assert(spine_node(st.root, 1) == cur_of(st));
    assert(w == crate::parser::walk(
        st.root,
        st.depth,
        line,
        st.last_blank,
        1,
        0,
        0,
        false,
        Option::None,
    ));
    assert(w.m == 1 && w.pos == 0 && w.rem == 0 && w.fix is None && w.last_l is None);
    assert(crate::parser::phase1(st, line) == (st, st.depth, 0int, 0int));
    assert(line.skip(0) =~= line);
    lemma_fenced_close_nested(st, line, 0, 0);
}

/// A blank line between two items makes the list loose at any depth:
/// when the walk has matched the open containers down to a list after a
/// line that ended blank, and the remainder carries a marker of the
/// same list without reaching the open item's indentation, matching the
/// containers marks that list loose.
pub proof fn lemma_blank_between_items_nested(
    st: StateM,
    line: Seq<char>,
    d: int,
    pos: int,
    rem: int,
)
    requires
        st.root is Root,
        crate::model::spine_ok(st.root, d),
        0 < d < st.depth,
        st.last_blank,
        0 <= pos,
        crate::parser::walk(st.root, st.depth, line, st.last_blank, 0, 0, 0, false, Option::None)
            == crate::parser::walk(
            st.root,
            st.depth,
            line,
            st.last_blank,
            d - 1,
            pos,
            rem,
            false,
            Option::None,
        ),
        spine_node(st.root, d) is List,
        !all_ws_from(line, pos),
        li_match(line.skip(pos)) is Some,
        ({
            let list = spine_node(st.root, d);
            let li = li_match(line.skip(pos))->Some_0;
            &&& spine_node(st.root, d + 1) matches NodeM::ListItem { indent, children } && indent
                > 0 && ({
                let count0 = if rem >= indent {
                    indent
                } else {
                    rem
                };
                crate::parser::li_chars(line, pos, count0, indent, 0).0 < indent
            })
            &&& (match list->List_list_type {
                crate::model::ListTypeM::Unordered(c) => !li.ordered && li.delim == c,
                crate::model::ListTypeM::Ordered(c, _) => li.ordered && li.delim == c,
            })
        }),
    ensures
        ({
            let list = spine_node(st.root, d);
            spine_node(crate::parser::phase1(st, line).0.root, d) == (NodeM::List {
                list_type: list->List_list_type,
                proximity: crate::ast::ListProximity::Loose,
                children: children_of(list),
            })
        }),
{
    let list = spine_node(st.root, d);
    let w0 = crate::parser::walk(st.root, st.depth, line, st.last_blank, 0, 0, 0, false, Option::None);
    let w1 = crate::parser::walk(
        st.root,
        st.depth,
        line,
        st.last_blank,
        d - 1,
        pos,
        rem,
        false,
        Option::None,
    );
    let w2 = crate::parser::walk(st.root, st.depth, line, st.last_blank, d, pos, rem, true, Option::None);
    assert(w1 == w2);
    assert(w2.m == d && w2.fix == Option::Some(d) && w2.last_l is None);
    let loosened = crate::parser::phase1(st, line).0.root;
    assert(loosened == crate::tree::st_loosen(st.root, d));
    crate::model::lemma_spine_set_get(
        st.root,
        d,
        NodeM::List {
            list_type: list->List_list_type,
            proximity: crate::ast::ListProximity::Loose,
            children: children_of(list),
        },
    );
}

/// A blank line between two items makes the list loose: when the last
/// line ended blank and the next line carries a marker of the same list
/// without reaching the open item's indentation, matching the containers
/// marks that list loose.
pub proof fn lemma_blank_between_items(st: StateM, line: Seq<char>)
    requires
        st.root is Root,
        children_of(st.root).len() > 0,
        children_of(st.root).last() is List,
        st.depth == 2,
        st.last_blank,
        !all_ws_from(line, 0),
        li_match(line) is Some,
        ({
            let list = children_of(st.root).last();
            let li = li_match(line)->Some_0;
            &&& children_of(list).len() > 0
            &&& children_of(list).last() matches NodeM::ListItem { indent, children } && indent
                > 0 && crate::parser::li_chars(line, 0, 0, indent, 0).0 < indent
            &&& (match list->List_list_type {
                crate::model::ListTypeM::Unordered(c) => !li.ordered && li.delim == c,
                crate::model::ListTypeM::Ordered(c, _) => li.ordered && li.delim == c,
            })
        }),
    ensures
        ({
            let list = children_of(st.root).last();
            spine_node(crate::parser::phase1(st, line).0.root, 1) == (NodeM::List {
                list_type: list->List_list_type,
                proximity: crate::ast::ListProximity::Loose,
                children: children_of(list),
            })
        }),
{
    let list = children_of(st.root).last();
    let item = children_of(list).last();
    assert(spine_node(children_of(st.root).last(), 0) == list);
    assert(spine_node(st.root, 1) == list);
    assert(spine_node(st.root, 2) == spine_node(children_of(st.root).last(), 1));
    assert(spine_node(list, 1) == spine_node(children_of(list).last(), 0));
    assert(spine_node(st.root, 2) == item);
    assert(line.skip(0) =~= line);
    assert(crate::model::spine_ok(children_of(st.root).last(), 0));
    assert(crate::model::spine_ok(st.root, 1));
    lemma_blank_between_items_nested(st, line, 1, 0, 0);
}

/// A blank remainder inside an open fenced block is kept too at any
/// depth, unstripped: once every open container has matched the line,
/// the remainder and a newline join the code text.
pub proof fn lemma_fenced_blank_nested(st: StateM, line: Seq<char>, pos: int, rem: int)
    requires
        st.fence is Some,
        cur_of(st) is Code,
        0 <= pos,
        crate::parser::phase1(st, line) == (st, st.depth, pos, rem),
        all_ws_from(line, pos),
        crate::model::spine_ok(st.root, st.depth),
    ensures
        step_line(st, line) == (StateM {
            last_blank: false,
            ..set_cur_st(
                st,
                NodeM::Code {
                    text: cur_of(st)->Code_text + line.skip(pos) + "\n"@,
                    info: cur_of(st)->Code_info,
                },
            )
        }),
{
    let (st1, m, p, r) = crate::parser::phase1(st, line);
    assert(st1 == st && m == st.depth && p == pos && r == rem);
    assert(crate::parser::close_spec(st1, m) == st1);
    let (st3, pos2, rem2, lazy) = crate::parser::open_spec(st1, line, pos, rem, true);
    assert(st3 == st1 && pos2 == pos);
    assert(step_line(st, line) == crate::parser::blank_spec(st, line, pos));
    let stc = set_cur_st(
        st,
        NodeM::Code {
            text: cur_of(st)->Code_text + line.skip(pos) + "\n"@,
            info: cur_of(st)->Code_info,
        },
    );
    assert(cur_of(stc) is Code) by {
        crate::model::lemma_spine_set_get(
            st.root,
            st.depth,
            NodeM::Code {
                text: cur_of(st)->Code_text + line.skip(pos) + "\n"@,
                info: cur_of(st)->Code_info,
            },
        );
    }
}

/// A blank line inside an open fenced block is kept too, unstripped.
pub proof fn lemma_fenced_blank(st: StateM, line: Seq<char>)
    requires
        st.fence is Some,
        cur_of(st) is Code,
        st.depth == 1,
        st.root is Root,
        children_of(st.root).len() > 0,
        all_ws_from(line, 0),
    ensures
        step_line(st, line) == (StateM {
            last_blank: false,
            ..set_cur_st(
                st,
                NodeM::Code {
                    text: cur_of(st)->Code_text + line + "\n"@,
                    info: cur_of(st)->Code_info,
                },
            )
        }),
{
    let w = crate::parser::walk(st.root, st.depth, line, st.last_blank, 0, 0, 0, false, Option::None);
    assert(spine_node(st.root, 1) == cur_of(st));
    assert(w == crate::parser::walk(
        st.root,
        st.depth,
        line,
        st.last_blank,
        1,
        0,
        0,
        false,
        Option::None,
    ));
    assert(w.m == 1 && w.pos == 0 && w.rem == 0 && w.fix is None && w.last_l is None);
    assert(crate::parser::phase1(st, line) == (st, st.depth, 0int, 0int));
    assert(crate::model::spine_ok(children_of(st.root).last(), 0));
    assert(crate::model::spine_ok(st.root, 1));
    assert(line.skip(0) =~= line);
    lemma_fenced_blank_nested(st, line, 0, 0);
}

} // verus!
