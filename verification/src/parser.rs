//! The block parser: a per-line driver over the open-container stack.
//!
//! Each physical line is matched against the open containers (consuming
//! block-quote markers and list-item indentation), may open new
//! containers, and then either continues or opens a leaf block.  The
//! whole driver is specified by `step_line` over the model state, and
//! `to_html` is proved to return exactly the rendering of the parsed and
//! tightened tree.

use vstd::prelude::*;
use vstd::string::*;
use crate::ast::{Node, Html, HtmlType, ListProximity, ListType, view_node, view_nodes};
use crate::chars::{
    all_ws_from, ch_fn, run_len, lemma_run_len, trim_start_s, ws_fn, blank_from, count_char,
    sub_string,
};
use crate::matchers::{
    LiM, LiMarker, atx_match, bq_marker, end_condition_m, fence_match, html15_kind, html6_match,
    html7_match, is_indented_code, is_thematic_break, li_match, not_ch_fn, scan_upto, setext_level,
    tab_to, atx_heading, blockquote_marker, end_condition_met, fence, html_1_5, html_6, html_7,
    list_item_marker, scan_indented_code, scan_space_upto, setext, thematic_break, tab_to_exec,
};
use crate::model::{
    NodeM, ListTypeM, children_of, is_parent_m, spine_node, spine_ok, spine_set, with_children,
    lemma_spine_ok_node,
};
use crate::render::{render_m, tighten_m, render_node, tighten};
use crate::tree::{Tree, st_push, st_loosen, lemma_spine_set_twice, lemma_st_push_pos};

verus! {

/// The parser state: the tree with its open path, the open fence if a
/// fenced code block is being read (fence character, fence length, and
/// captured leading spaces), the blank lines buffered inside an indented
/// code block, and whether the previous line ended blank.
#[verifier::ext_equal]
pub ghost struct StateM {
    pub root: NodeM,
    pub depth: int,
    pub fence: Option<(char, int, int)>,
    pub seps: Seq<Seq<char>>,
    pub last_blank: bool,
}

/// The state before any line is read.
pub open spec fn init_state() -> StateM {
    StateM {
        root: NodeM::Root { children: Seq::empty() },
        depth: 0,
        fence: Option::None,
        seps: Seq::empty(),
        last_blank: false,
    }
}

/// Close one block (total: at the root nothing closes).
pub open spec fn pop1(st: StateM) -> StateM {
    StateM {
        depth: if st.depth > 0 {
            st.depth - 1
        } else {
            0
        },
        ..st
    }
}

/// Append a block to the current one and descend into it.
pub open spec fn push_st(st: StateM, m: NodeM) -> StateM {
    let (root, depth) = st_push(st.root, st.depth, m);
    StateM { root, depth, ..st }
}

/// Replace the current block.
pub open spec fn set_cur_st(st: StateM, m: NodeM) -> StateM {
    StateM { root: spine_set(st.root, st.depth, m), ..st }
}

/// The current block.
pub open spec fn cur_of(st: StateM) -> NodeM {
    spine_node(st.root, st.depth)
}

/// The result of matching a line against the open containers.
pub ghost struct WalkRes {
    /// How many open containers matched.
    pub m: int,
    /// The line position after the consumed prefixes.
    pub pos: int,
    /// Leftover columns of a partially consumed tab.
    pub rem: int,
    /// A list to mark loose, found above a matched or newly failing item.
    pub fix: Option<int>,
    /// A list to mark loose because a sibling marker follows a blank.
    pub last_l: Option<int>,
}

/// The indentation-consumption loop of a list item: virtual tab credit
/// first, then spaces and tabs until `indent` columns are reached.
/// Returns the columns counted and the characters consumed.
pub open spec fn li_chars(line: Seq<char>, pos: int, count: int, indent: int, used: int) -> (
    int,
    int,
)
    decreases line.len() - (pos + used),
{
    if pos + used < 0 || pos + used >= line.len() {
        (count, used)
    } else {
        let ch = line[pos + used];
        if ch == ' ' {
            if count + 1 >= indent {
                (
                    if count >= usize::MAX as int {
                        count
                    } else {
                        count + 1
                    },
                    used + 1,
                )
            } else {
                li_chars(line, pos, count + 1, indent, used + 1)
            }
        } else if ch == '\t' {
            if tab_to(count) >= indent {
                (tab_to(count), used + 1)
            } else {
                li_chars(line, pos, tab_to(count), indent, used + 1)
            }
        } else {
            (count, used)
        }
    }
}

/// Phase one: walk the open containers from the top, consuming marker
/// prefixes.  `k` counts the containers already matched; the node under
/// consideration is `k + 1` steps down the spine.
pub open spec fn walk(
    root: NodeM,
    depth: int,
    line: Seq<char>,
    last_blank: bool,
    k: int,
    pos: int,
    rem: int,
    mni: bool,
    fix: Option<int>,
) -> WalkRes
    decreases depth - k,
{
    if k >= depth {
        WalkRes { m: k, pos, rem, fix, last_l: Option::None }
    } else {
        let nd = spine_node(root, k + 1);
        match nd {
            NodeM::BlockQuote { .. } => {
                match bq_marker(line.skip(pos)) {
                    Option::Some((len, credit)) => walk(
                        root,
                        depth,
                        line,
                        last_blank,
                        k + 1,
                        pos + len,
                        credit,
                        mni,
                        fix,
                    ),
                    Option::None => WalkRes { m: k, pos, rem, fix, last_l: Option::None },
                }
            },
            NodeM::List { list_type, .. } => {
                match li_match(line.skip(pos)) {
                    Option::Some(li) => {
                        let agree = match list_type {
                            ListTypeM::Unordered(c) => !li.ordered && li.delim == c,
                            ListTypeM::Ordered(c, _) => li.ordered && li.delim == c,
                        };
                        if !agree {
                            WalkRes { m: k, pos, rem, fix, last_l: Option::None }
                        } else if k == depth - 1 && last_blank {
                            WalkRes { m: depth, pos, rem, fix, last_l: Option::Some(k + 1) }
                        } else {
                            walk(root, depth, line, last_blank, k + 1, pos, rem, true, fix)
                        }
                    },
                    Option::None => walk(root, depth, line, last_blank, k + 1, pos, rem, mni, fix),
                }
            },
            NodeM::ListItem { indent, children } => {
                if all_ws_from(line, pos) {
                    if children.len() == 0 {
                        WalkRes { m: k, pos, rem, fix, last_l: Option::None }
                    } else {
                        walk(root, depth, line, last_blank, k + 1, pos, rem, mni, fix)
                    }
                } else {
                    let count0 = if rem >= indent {
                        indent
                    } else {
                        rem
                    };
                    let rem0 = if rem >= indent {
                        rem - indent
                    } else {
                        0
                    };
                    let (count, used) = li_chars(line, pos, count0, indent, 0);
                    if count < indent {
                        if mni {
                            WalkRes {
                                m: k,
                                pos,
                                rem: rem0,
                                fix: if last_blank {
                                    Option::Some(k)
                                } else {
                                    fix
                                },
                                last_l: Option::None,
                            }
                        } else {
                            WalkRes {
                                m: if k > 0 {
                                    k - 1
                                } else {
                                    0
                                },
                                pos,
                                rem: rem0,
                                fix,
                                last_l: Option::None,
                            }
                        }
                    } else {
                        let rem2 = scan_upto(line, indent, pos, 0).1;
                        let fix2 = if last_blank && children.len() > 0 {
                            Option::Some(k)
                        } else {
                            fix
                        };
                        walk(root, depth, line, last_blank, k + 1, pos + used, rem2, false, fix2)
                    }
                }
            },
            _ => walk(root, depth, line, last_blank, k + 1, pos, rem, mni, fix),
        }
    }
}

/// Phase one with its loosening applied.
pub open spec fn phase1(st: StateM, line: Seq<char>) -> (StateM, int, int, int) {
    let w = walk(st.root, st.depth, line, st.last_blank, 0, 0, 0, false, Option::None);
    let r1 = match w.fix {
        Option::Some(d) => st_loosen(st.root, d),
        Option::None => st.root,
    };
    let r2 = match w.last_l {
        Option::Some(d) => st_loosen(r1, d),
        Option::None => r1,
    };
    (StateM { root: r2, ..st }, w.m, w.pos, w.rem)
}

/// Close every container below the matched prefix; closing an open
/// fenced code block clears the fence state.
pub open spec fn close_spec(st: StateM, m: int) -> StateM
    decreases st.depth - m,
{
    if st.depth <= m {
        st
    } else {
        let cur = cur_of(st);
        let fence = if cur is Code && st.fence is Some {
            Option::None
        } else {
            st.fence
        };
        close_spec(StateM { depth: st.depth - 1, fence, ..st }, m)
    }
}

/// Phase two: open new block quotes and list items at the cursor.
pub open spec fn open_spec(st: StateM, line: Seq<char>, pos: int, rem: int, lazy: bool) -> (
    StateM,
    int,
    int,
    bool,
)
    decreases line.len() - pos, 1int
        via open_spec_dec
{
    let cur = cur_of(st);
    if pos < 0 || pos >= line.len() {
        (st, pos, rem, lazy)
    } else if (cur is Code && st.fence is Some) || cur is Html {
        (st, pos, rem, lazy)
    } else {
        match bq_marker(line.skip(pos)) {
            Option::Some((len, credit)) => {
                let st1 = if cur_of(st) is Paragraph {
                    pop1(st)
                } else {
                    st
                };
                let st2 = if cur_of(st1) is Code && st1.fence is None {
                    pop1(st1)
                } else {
                    st1
                };
                let st3 = push_st(st2, NodeM::BlockQuote { children: Seq::empty() });
                open_spec(st3, line, pos + len, credit, lazy)
            },
            Option::None => {
                match li_match(line.skip(pos)) {
                    Option::Some(li) => {
                        if is_thematic_break(line.skip(pos)) {
                            let st1 = if cur_of(st) is List {
                                pop1(st)
                            } else {
                                st
                            };
                            (st1, pos, rem, lazy)
                        } else {
                            open_li(st, line, pos, rem, lazy, li)
                        }
                    },
                    Option::None => (st, pos, rem, lazy),
                }
            },
        }
    }
}

/// Phase two, the list-item arm.
pub open spec fn open_li(
    st: StateM,
    line: Seq<char>,
    pos: int,
    rem: int,
    lazy: bool,
    li: LiM,
) -> (StateM, int, int, bool)
    decreases line.len() - pos, 0int,
{
    let cur = cur_of(st);
    let after_marker = pos + li.lead + li.marker_len;
    let stop_para = cur is Paragraph && (li.trail_len == 0 || all_ws_from(line, after_marker) || !(
    !li.ordered || li.start == 1));
    if pos < 0 || pos >= line.len() {
        (st, pos, rem, lazy)
    } else if stop_para {
        (st, pos, rem, lazy)
    } else {
        let st1 = if cur is Paragraph {
            pop1(st)
        } else {
            st
        };
        let st2 = if cur_of(st1) is Code && st1.fence is None {
            pop1(st1)
        } else {
            st1
        };
        let lt = if li.ordered {
            ListTypeM::Ordered(li.delim, li.start)
        } else {
            ListTypeM::Unordered(li.delim)
        };
        let st3 = if !(cur_of(st2) is List) {
            push_st(
                st2,
                NodeM::List {
                    list_type: lt,
                    proximity: ListProximity::Tight,
                    children: Seq::empty(),
                },
            )
        } else {
            st2
        };
        let delim0 = li.lead + li.marker_len + li.trail_len;
        let indent0 = if li.trail_len == 0 {
            delim0
        } else if is_indented_code(line.skip(after_marker + 1)) {
            li.lead + li.marker_len + 1
        } else if all_ws_from(line, after_marker) {
            li.lead + li.marker_len + 1
        } else {
            delim0
        };
        let indent1 = if indent0 >= 2 {
            indent0
        } else {
            2
        };
        let credit: int = if li.tab_credit {
            2
        } else {
            0
        };
        let st4 = push_st(st3, NodeM::ListItem { indent: indent1, children: Seq::empty() });
        let adv = if indent0 < 1 {
            1
        } else if indent0 > line.len() - pos {
            line.len() - pos
        } else {
            indent0
        };
        open_spec(st4, line, pos + adv, credit, false)
    }
}

#[via_fn]
proof fn open_spec_dec(st: StateM, line: Seq<char>, pos: int, rem: int, lazy: bool) {
    if 0 <= pos < line.len() {
        lemma_run_len(line.skip(pos), ch_fn(' '));
    }
}

/// A run of up to four virtual spaces of tab credit.
pub open spec fn credit_spaces(rem: int) -> Seq<char> {
    Seq::new(
        if rem < 0 {
            0nat
        } else if rem > 4 {
            4nat
        } else {
            rem as nat
        },
        |i: int| ' ',
    )
}

/// Phase three: the line is blank after container matching.
pub open spec fn blank_spec(st: StateM, line: Seq<char>, pos: int) -> StateM {
    let cur = cur_of(st);
    let st1 = match cur {
        NodeM::Paragraph { .. } => pop1(st),
        NodeM::Code { text, info } => {
            if st.fence is Some {
                set_cur_st(st, NodeM::Code { text: text + line.skip(pos) + "\n"@, info })
            } else {
                let newpos = scan_upto(line, 4, pos, 0).0;
                StateM { seps: st.seps.push(line.skip(newpos) + "\n"@), ..st }
            }
        },
        NodeM::Html { text, html_type } => {
            if html_type is Simple || html_type is Custom {
                pop1(st)
            } else {
                set_cur_st(st, NodeM::Html { text: text + line.skip(pos) + "\n"@, html_type })
            }
        },
        _ => st,
    };
    let cur1 = cur_of(st1);
    let lb = !(cur1 is BlockQuote || cur1 is Code);
    let lb2 = if cur1 is ListItem && children_of(cur1).len() == 0 {
        false
    } else {
        lb
    };
    StateM { last_blank: lb2, ..st1 }
}

/// The buffered blank lines of an indented code block, flushed newest
/// first.
pub open spec fn rev_concat(seps: Seq<Seq<char>>) -> Seq<char>
    decreases seps,
{
    if seps.len() == 0 {
        Seq::empty()
    } else {
        seps.last() + rev_concat(seps.drop_last())
    }
}

/// The fenced-code step: a matching closer closes the block, anything
/// else is appended, stripped of up to the opener's captured leading
/// spaces.
pub open spec fn fenced_step(st: StateM, line: Seq<char>, pos: int) -> StateM {
    let cur = cur_of(st);
    let fp = st.fence->Some_0;
    match cur {
        NodeM::Code { text, info } => {
            match fence_match(line.skip(pos)) {
                Option::Some(f) => {
                    if f.1 == fp.0 && f.2 >= fp.1 && crate::chars::trim_s(f.3).len() == 0 {
                        StateM { fence: Option::None, ..pop1(st) }
                    } else {
                        set_cur_st(st, NodeM::Code { text: text + line.skip(pos) + "\n"@, info })
                    }
                },
                Option::None => {
                    let lead = fp.2;
                    let sp = run_len(line.skip(pos), ch_fn(' '));
                    let strip = if lead >= sp {
                        sp
                    } else {
                        lead
                    };
                    set_cur_st(
                        st,
                        NodeM::Code { text: text + line.skip(pos + strip) + "\n"@, info },
                    )
                },
            }
        },
        _ => st,
    }
}

/// Append a raw line to an open HTML block and close it if its end
/// condition shows on this line.
pub open spec fn html_cont(st: StateM, line: Seq<char>, pos: int) -> StateM {
    let cur = cur_of(st);
    match cur {
        NodeM::Html { text, html_type } => {
            let st1 = set_cur_st(st, NodeM::Html { text: text + line.skip(pos) + "\n"@, html_type });
            if end_condition_m(html_type, line.skip(pos)) {
                pop1(st1)
            } else {
                st1
            }
        },
        _ => st,
    }
}

/// Open an HTML block of the given kind.
pub open spec fn open_html(st: StateM, line: Seq<char>, pos: int, kind: HtmlType) -> StateM {
    let st3 = push_st(
        close_para_code(st),
        NodeM::Html { text: line.skip(pos) + "\n"@, html_type: kind },
    );
    if end_condition_m(kind, line.skip(pos)) {
        pop1(st3)
    } else {
        st3
    }
}

/// Push a node and seal it at once.
pub open spec fn push_sealed(st: StateM, m: NodeM) -> StateM {
    pop1(push_st(st, m))
}

/// Whether `n` successive descents into last children stay on sound
/// ground.
pub open spec fn advance_ok(root: NodeM, depth: int, n: int) -> bool
    decreases n,
{
    n <= 0 || (is_parent_m(spine_node(root, depth)) && children_of(spine_node(root, depth)).len()
        > 0 && depth < usize::MAX as int && advance_ok(root, depth + 1, n - 1))
}

/// Append a text run to the children of the block at `d`.
pub open spec fn append_text_at(st: StateM, d: int, text: Seq<char>) -> StateM {
    let nd = spine_node(st.root, d);
    StateM {
        root: spine_set(st.root, d, with_children(nd, children_of(nd).push(NodeM::Text { text }))),
        ..st
    }
}

/// Close an open paragraph and an open indented code block, then push a
/// sealed heading.
pub open spec fn atx_step(st: StateM, level: int, content: Seq<char>) -> StateM {
    push_sealed(
        close_para_code(st),
        NodeM::Heading { level: level as u8, children: seq![NodeM::Text { text: content }] },
    )
}

/// Promote the current paragraph to a setext heading.
pub open spec fn setext_step(st: StateM, level: int) -> StateM {
    let cur = cur_of(st);
    let children = children_of(cur);
    let lvl: u8 = if level == 1 {
        1
    } else {
        2
    };
    let parent = spine_node(st.root, st.depth - 1);
    let st1 = StateM {
        root: spine_set(
            st.root,
            st.depth - 1,
            with_children(parent, children_of(parent).drop_last()),
        ),
        depth: if st.depth > 0 {
            st.depth - 1
        } else {
            0
        },
        ..st
    };
    push_sealed(st1, NodeM::Heading { level: lvl, children })
}

/// Close an open paragraph or code block and emit a thematic break.
pub open spec fn break_step(st: StateM) -> StateM {
    push_sealed(close_para_code(st), NodeM::ThematicBreak)
}

/// Open a fenced code block.
pub open spec fn fence_open_step(st: StateM, f: (int, char, int, Seq<char>)) -> StateM {
    let st2 = close_para_code(st);
    let info = if f.3.len() > 0 {
        Option::Some(f.3)
    } else {
        Option::None
    };
    let st3 = push_st(st2, NodeM::Code { text: Seq::empty(), info });
    StateM { fence: Option::Some((f.1, f.2, f.0)), ..st3 }
}

/// Whether the lazy-continuation fallback applies.
pub open spec fn lazy_applies(st: StateM, dropped: int, lazy: bool) -> bool {
    dropped > 0 && lazy && advance_ok(st.root, st.depth, dropped) && spine_node(
        st.root,
        st.depth + dropped,
    ) is Paragraph
}

/// Append a lazy continuation line to the paragraph the drop closed.
pub open spec fn lazy_step(st: StateM, l: Seq<char>, dropped: int) -> StateM {
    StateM {
        depth: st.depth + dropped,
        ..append_text_at(st, st.depth + dropped, "\n"@ + trim_start_s(l))
    }
}

/// Continue an open indented code block: flush buffered blank lines,
/// newest first, then append the line past four columns of indent.
pub open spec fn icode_cont_step(st: StateM, line: Seq<char>, pos: int) -> StateM {
    let cur = cur_of(st);
    let flushed = cur->Code_text + rev_concat(st.seps);
    let newpos = scan_upto(line, 4, pos, 0).0;
    let st1 = set_cur_st(
        st,
        NodeM::Code { text: flushed + line.skip(newpos) + "\n"@, info: cur->Code_info },
    );
    StateM { seps: Seq::empty(), ..st1 }
}

/// Open a new indented code block, honouring leftover tab credit.
pub open spec fn icode_new_step(st: StateM, line: Seq<char>, pos: int, rem: int) -> StateM {
    let newpos = scan_upto(line, 4, pos, 0).0;
    let content = credit_spaces(rem) + line.skip(newpos) + "\n"@;
    let st1 = StateM { seps: Seq::empty(), ..st };
    push_st(st1, NodeM::Code { text: content, info: Option::None })
}

/// Nothing else matched: close a code block or list and open a
/// paragraph holding the trimmed line.
pub open spec fn para_open_step(st: StateM, l: Seq<char>) -> StateM {
    let st1 = if cur_of(st) is Code && st.fence is None {
        pop1(st)
    } else {
        st
    };
    let st2 = if cur_of(st1) is List {
        pop1(st1)
    } else {
        st1
    };
    push_st(st2, NodeM::Paragraph { children: seq![NodeM::Text { text: trim_start_s(l) }] })
}

/// Phases four and five: leaf handling of a non-blank line.
pub open spec fn leaf_spec(st: StateM, line: Seq<char>, pos: int, rem: int, lazy: bool, dropped: int) -> StateM {
    let l = line.skip(pos);
    let cur = cur_of(st);
    if st.fence is Some && cur is Code {
        fenced_step(st, line, pos)
    } else if cur is Html {
        html_cont(st, line, pos)
    } else if html15_kind(l) is Some {
        open_html(st, line, pos, html15_kind(l)->Some_0)
    } else if html6_match(l) {
        open_html(st, line, pos, HtmlType::Simple)
    } else if html7_match(l) && !(cur is Paragraph) {
        push_st(st, NodeM::Html { text: l + "\n"@, html_type: HtmlType::Custom })
    } else if atx_match(l) is Some {
        atx_step(st, atx_match(l)->Some_0.0, atx_match(l)->Some_0.1)
    } else if setext_level(l) > 0 && cur is Paragraph {
        setext_step(st, setext_level(l))
    } else if is_thematic_break(l) {
        break_step(st)
    } else if fence_match(l) is Some && st.fence is None {
        fence_open_step(st, fence_match(l)->Some_0)
    } else if cur is Paragraph {
        append_text_at(st, st.depth, "\n"@ + trim_start_s(l))
    } else if lazy_applies(st, dropped, lazy) {
        lazy_step(st, l, dropped)
    } else if is_indented_code(l) {
        if cur is Code {
            icode_cont_step(st, line, pos)
        } else {
            icode_new_step(st, line, pos, rem)
        }
    } else {
        para_open_step(st, l)
    }
}


/// One full line of parsing.
pub open spec fn step_line(st: StateM, line: Seq<char>) -> StateM {
    let (st1, m, pos, rem) = phase1(st, line);
    let dropped = st.depth - m;
    let st2 = close_spec(st1, m);
    let (st3, pos2, rem2, lazy) = open_spec(st2, line, pos, rem, true);
    if all_ws_from(line, pos2) {
        blank_spec(st3, line, pos2)
    } else {
        let st4 = StateM { last_blank: false, ..st3 };
        leaf_spec(st4, line, pos2, rem2, lazy, dropped)
    }
}

/// The physical lines of the input: split at `\n`, with a carriage
/// return before the newline removed; a final line without a newline is
/// kept as it stands.
pub open spec fn lines_of(s: Seq<char>) -> Seq<Seq<char>>
    decreases s.len()
        via lines_of_dec
{
    if s.len() == 0 {
        Seq::empty()
    } else {
        let k = run_len(s, not_ch_fn('\n'));
        if k == s.len() {
            seq![s]
        } else {
            seq![strip_cr(s.take(k))] + lines_of(s.skip(k + 1))
        }
    }
}

#[via_fn]
proof fn lines_of_dec(s: Seq<char>) {
    if s.len() > 0 {
        lemma_run_len(s, not_ch_fn('\n'));
    }
}

/// Remove one trailing carriage return.
pub open spec fn strip_cr(t: Seq<char>) -> Seq<char> {
    if t.len() > 0 && t.last() == '\r' {
        t.drop_last()
    } else {
        t
    }
}

/// The state after parsing a sequence of lines.
pub open spec fn parse_lines(lines: Seq<Seq<char>>) -> StateM
    decreases lines,
{
    if lines.len() == 0 {
        init_state()
    } else {
        step_line(parse_lines(lines.drop_last()), lines.last())
    }
}

/// What `to_html` returns: the input split into lines, parsed, the tree
/// tightened, and the tree rendered.
pub open spec fn html_of(s: Seq<char>) -> Seq<char> {
    render_m(tighten_m(parse_lines(lines_of(s)).root))
}

/// The character sequences of a vector of lines.
pub open spec fn seq_views(v: Seq<String>) -> Seq<Seq<char>> {
    Seq::new(v.len(), |i: int| v[i]@)
}

/// Map an executable option of positions into the model's.
pub open spec fn opt_int(o: Option<usize>) -> Option<int> {
    match o {
        Option::Some(v) => Option::Some(v as int),
        Option::None => Option::None,
    }
}

/// The open fence of a fenced code block: its character, its length,
/// and the leading spaces captured before it.
#[derive(Clone, Copy)]
pub struct FenceSt {
    pub ch: char,
    pub len: usize,
    pub lead: usize,
}

/// The parser over one document.
pub struct Parser {
    pub tree: Tree,
    pub fence: Option<FenceSt>,
    pub seps: Vec<String>,
    pub last_blank: bool,
}

impl View for Parser {
    type V = StateM;

    open spec fn view(&self) -> StateM {
        StateM {
            root: self.tree.root@,
            depth: self.tree.depth as int,
            fence: match self.fence {
                Option::Some(f) => Option::Some((f.ch, f.len as int, f.lead as int)),
                Option::None => Option::None,
            },
            seps: Seq::new(self.seps@.len(), |i: int| self.seps@[i]@),
            last_blank: self.last_blank,
        }
    }
}

impl Parser {
    /// The tree is well formed.
    pub open spec fn wf(&self) -> bool {
        self.tree.wf()
    }

    pub fn new() -> (p: Parser)
        ensures
            p.wf(),
            p@ == init_state(),
    {
        let p = Parser {
            tree: Tree::new(),
            fence: Option::None,
            seps: Vec::new(),
            last_blank: false,
        };
        proof {
            assert(p@.seps =~= Seq::<Seq<char>>::empty());
        }
        p
    }
}

/// Phase one, executable: walk the remaining open containers.
fn walk_exec(
    t: &Tree,
    line: &str,
    last_blank: bool,
    k: usize,
    pos: usize,
    rem: usize,
    mni: bool,
    fix: Option<usize>,
) -> (r: (usize, usize, usize, Option<usize>, Option<usize>))
    requires
        t.wf(),
        k <= t.depth,
        pos <= line@.len(),
        fix is Some ==> fix->0 <= t.depth,
    ensures
        walk(t.root@, t.depth as int, line@, last_blank, k as int, pos as int, rem as int, mni, opt_int(fix))
            == (WalkRes {
            m: r.0 as int,
            pos: r.1 as int,
            rem: r.2 as int,
            fix: opt_int(r.3),
            last_l: opt_int(r.4),
        }),
        r.0 <= t.depth,
        r.1 <= line@.len(),
        r.3 is Some ==> r.3->0 <= t.depth,
        r.4 is Some ==> r.4->0 <= t.depth,
    decreases t.depth - k,
{
    let n = line.unicode_len();
    if k == t.depth {
        return (k, pos, rem, fix, Option::None);
    }
    let nd = t.at_ref(k + 1);
    match nd {
        Node::BlockQuote(_) => {
            match blockquote_marker(line, pos) {
                Option::Some((len, credit)) => walk_exec(
                    t,
                    line,
                    last_blank,
                    k + 1,
                    pos + len,
                    credit,
                    mni,
                    fix,
                ),
                Option::None => (k, pos, rem, fix, Option::None),
            }
        },
        Node::List(x) => {
            match list_item_marker(line, pos) {
                Option::Some(mk) => {
                    let agree = match &x.list_type {
                        ListType::Unordered(c) => !mk.ordered && mk.delim == *c,
                        ListType::Ordered(c, _) => mk.ordered && mk.delim == *c,
                    };
                    if !agree {
                        (k, pos, rem, fix, Option::None)
                    } else if k + 1 == t.depth && last_blank {
                        (t.depth, pos, rem, fix, Option::Some(k + 1))
                    } else {
                        walk_exec(t, line, last_blank, k + 1, pos, rem, true, fix)
                    }
                },
                Option::None => walk_exec(t, line, last_blank, k + 1, pos, rem, mni, fix),
            }
        },
        Node::ListItem(x) => {
            proof {
                crate::ast::lemma_view_nodes(x.children@);
            }
            if blank_from(line, pos) {
                if x.children.len() == 0 {
                    (k, pos, rem, fix, Option::None)
                } else {
                    walk_exec(t, line, last_blank, k + 1, pos, rem, mni, fix)
                }
            } else {
                let indent = x.indent;
                let count0 = if rem >= indent {
                    indent
                } else {
                    rem
                };
                let rem0 = if rem >= indent {
                    rem - indent
                } else {
                    0
                };
                let (count, used) = li_chars_exec(line, pos, count0, indent);
                if count < indent {
                    if mni {
                        (
                            k,
                            pos,
                            rem0,
                            if last_blank {
                                Option::Some(k)
                            } else {
                                fix
                            },
                            Option::None,
                        )
                    } else {
                        (
                            if k > 0 {
                                k - 1
                            } else {
                                0
                            },
                            pos,
                            rem0,
                            fix,
                            Option::None,
                        )
                    }
                } else {
                    let rem2 = scan_space_upto(line, pos, indent).1;
                    let fix2 = if last_blank && x.children.len() > 0 {
                        Option::Some(k)
                    } else {
                        fix
                    };
                    walk_exec(t, line, last_blank, k + 1, pos + used, rem2, false, fix2)
                }
            }
        },
        _ => walk_exec(t, line, last_blank, k + 1, pos, rem, mni, fix),
    }
}

/// The indentation-consumption loop of one list item.
#[verifier::loop_isolation(false)]
fn li_chars_exec(line: &str, pos: usize, count0: usize, indent: usize) -> (r: (usize, usize))
    requires
        pos <= line@.len(),
        count0 <= indent,
    ensures
        (r.0 as int, r.1 as int) == li_chars(line@, pos as int, count0 as int, indent as int, 0),
        pos + r.1 <= line@.len(),
    decreases line@.len() - pos,
{
    let n = line.unicode_len();
    let mut count = count0;
    let mut used: usize = 0;
    loop
        invariant
            pos + used <= n,
            count <= usize::MAX,
            li_chars(line@, pos as int, count0 as int, indent as int, 0) == li_chars(
                line@,
                pos as int,
                count as int,
                indent as int,
                used as int,
            ),
        decreases n - pos - used,
    {
        if pos + used == n {
            return (count, used);
        }
        let ch = line.get_char(pos + used);
        if ch == ' ' {
            let hit = if indent == 0 {
                true
            } else {
                count >= indent - 1
            };
            if hit {
                let c2 = if count == usize::MAX {
                    count
                } else {
                    count + 1
                };
                return (c2, used + 1);
            }
            count = count + 1;
            used = used + 1;
        } else if ch == '\t' {
            let c2 = tab_to_exec(count);
            if c2 >= indent {
                return (c2, used + 1);
            }
            count = c2;
            used = used + 1;
        } else {
            return (count, used);
        }
    }
}

/// Phase one with its loosening applied, executable.
fn match_containers(p: &mut Parser, line: &str) -> (r: (usize, usize, usize))
    requires
        old(p).wf(),
    ensures
        final(p).wf(),
        ({
            let (st1, m, pos, rem) = phase1(old(p)@, line@);
            &&& final(p)@ == st1
            &&& r.0 as int == m
            &&& r.1 as int == pos
            &&& r.2 as int == rem
        }),
        r.0 <= old(p).tree.depth,
        r.1 <= line@.len(),
        final(p).tree.depth == old(p).tree.depth,
{
    let (m, pos, rem, fix, last_l) = walk_exec(&p.tree, line, p.last_blank, 0, 0, 0, false, Option::None);
    match fix {
        Option::Some(d) => {
            p.tree.set_loose(d);
        },
        Option::None => {},
    }
    match last_l {
        Option::Some(d) => {
            p.tree.set_loose(d);
        },
        Option::None => {},
    }
    (m, pos, rem)
}

/// Close every container below the matched prefix.
#[verifier::loop_isolation(false)]
fn close_unmatched(p: &mut Parser, m: usize)
    requires
        old(p).wf(),
        m <= old(p).tree.depth,
    ensures
        final(p).wf(),
        final(p)@ == close_spec(old(p)@, m as int),
        final(p).tree.depth == m,
        final(p).tree.root == old(p).tree.root,
{
    loop
        invariant
            p.wf(),
            m <= p.tree.depth,
            p.tree.root == old(p).tree.root,
            close_spec(old(p)@, m as int) == close_spec(p@, m as int),
        decreases p.tree.depth - m,
    {
        if p.tree.depth == m {
            return ;
        }
        let is_fenced_code = match (p.tree.cur_ref(), &p.fence) {
            (Node::Code(_), Option::Some(_)) => true,
            _ => false,
        };
        let ghost st_before = p@;
        if is_fenced_code {
            p.fence = Option::None;
        }
        p.tree.pop();
        proof {
            assert(p@ == (StateM {
                depth: st_before.depth - 1,
                fence: if cur_of(st_before) is Code && st_before.fence is Some {
                    Option::<(char, int, int)>::None
                } else {
                    st_before.fence
                },
                ..st_before
            }));
        }
    }
}

/// Phase two, executable: open new block quotes and list items.
#[verifier::rlimit(100)]
fn open_exec(p: &mut Parser, line: &str, pos: usize, rem: usize, lazy: bool) -> (r: (
    usize,
    usize,
    bool,
))
    requires
        old(p).wf(),
        pos <= line@.len(),
    ensures
        final(p).wf(),
        (final(p)@, r.0 as int, r.1 as int, r.2) == open_spec(
            old(p)@,
            line@,
            pos as int,
            rem as int,
            lazy,
        ),
        r.0 <= line@.len(),
    decreases line@.len() - pos,
{
    let n = line.unicode_len();
    if pos == n {
        return (pos, rem, lazy);
    }
    let ghost st0 = p@;
    let (cur_para, cur_code, cur_html, cur_list) = {
        let cur = p.tree.cur_ref();
        (
            match cur {
                Node::Paragraph(_) => true,
                _ => false,
            },
            match cur {
                Node::Code(_) => true,
                _ => false,
            },
            match cur {
                Node::Html(_) => true,
                _ => false,
            },
            match cur {
                Node::List(_) => true,
                _ => false,
            },
        )
    };
    if (cur_code && p.fence.is_some()) || cur_html {
        return (pos, rem, lazy);
    }
    match blockquote_marker(line, pos) {
        Option::Some((len, credit)) => {
            if cur_para {
                proof {
                    assert(p.tree.depth > 0);
                }
                p.tree.pop();
            }
            let cur2_code = match p.tree.cur_ref() {
                Node::Code(_) => true,
                _ => false,
            };
            if cur2_code && p.fence.is_none() {
                proof {
                    assert(p.tree.depth > 0);
                }
                p.tree.pop();
            }
            p.tree.push(Node::BlockQuote(crate::ast::BlockQuote::new()));
            proof {
                assert(view_nodes(Seq::<Node>::empty()) =~= Seq::<NodeM>::empty());
                lemma_run_len(line@.skip(pos as int), ch_fn(' '));
                let st1 = if cur_of(st0) is Paragraph {
                    pop1(st0)
                } else {
                    st0
                };
                let st2 = if cur_of(st1) is Code && st1.fence is None {
                    pop1(st1)
                } else {
                    st1
                };
                let st3 = push_st(st2, NodeM::BlockQuote { children: Seq::empty() });
                assert(p@ == st3);
            }
            let rr = open_exec(p, line, pos + len, credit, lazy);
            proof {
                let st1 = if cur_of(st0) is Paragraph {
                    pop1(st0)
                } else {
                    st0
                };
                let st2 = if cur_of(st1) is Code && st1.fence is None {
                    pop1(st1)
                } else {
                    st1
                };
                let st3 = push_st(st2, NodeM::BlockQuote { children: Seq::empty() });
                assert(open_spec(st0, line@, pos as int, rem as int, lazy) == open_spec(
                    st3,
                    line@,
                    pos + len,
                    credit as int,
                    lazy,
                ));
            }
            rr
        },
        Option::None => {
            match list_item_marker(line, pos) {
                Option::Some(mk) => {
                    if thematic_break(line, pos) {
                        if cur_list {
                            proof {
                                assert(p.tree.depth > 0);
                            }
                            p.tree.pop();
                        }
                        return (pos, rem, lazy);
                    }
                    let after_marker = pos + mk.lead + mk.marker_len;
                    let empty_after = blank_from(line, after_marker);
                    if cur_para {
                        let interrupts = if mk.trail_len == 0 || empty_after {
                            false
                        } else if !mk.ordered {
                            true
                        } else {
                            mk.start == 1
                        };
                        if !interrupts {
                            proof {
                                assert(li_match(line@.skip(pos as int)) == Option::Some(mk@));
                                assert(cur_of(st0) is Paragraph);
                                assert(open_li(st0, line@, pos as int, rem as int, lazy, mk@)
                                    == (st0, pos as int, rem as int, lazy));
                                assert(open_spec(st0, line@, pos as int, rem as int, lazy) == (
                                st0,
                                pos as int,
                                rem as int,
                                lazy,
                                ));
                            }
                            return (pos, rem, lazy);
                        }
                        proof {
                            assert(p.tree.depth > 0);
                        }
                        p.tree.pop();
                    }
                    let cur2_code = match p.tree.cur_ref() {
                        Node::Code(_) => true,
                        _ => false,
                    };
                    if cur2_code && p.fence.is_none() {
                        proof {
                            assert(p.tree.depth > 0);
                        }
                        p.tree.pop();
                    }
                    let cur3_list = match p.tree.cur_ref() {
                        Node::List(_) => true,
                        _ => false,
                    };
                    if !cur3_list {
                        let lt = if mk.ordered {
                            ListType::Ordered(mk.delim, mk.start)
                        } else {
                            ListType::Unordered(mk.delim)
                        };
                        p.tree.push(Node::List(crate::ast::List::new(lt)));
                        proof {
                            assert(view_nodes(Seq::<Node>::empty()) =~= Seq::<NodeM>::empty());
                        }
                    }
                    let delim0 = mk.lead + mk.marker_len + mk.trail_len;
                    let indent0 = if mk.trail_len == 0 {
                        delim0
                    } else if scan_indented_code(line, after_marker + 1) {
                        mk.lead + mk.marker_len + 1
                    } else if empty_after {
                        mk.lead + mk.marker_len + 1
                    } else {
                        delim0
                    };
                    let indent1 = if indent0 >= 2 {
                        indent0
                    } else {
                        2
                    };
                    let credit: usize = if mk.tab_credit {
                        2
                    } else {
                        0
                    };
                    p.tree.push(Node::ListItem(crate::ast::ListItem::new(indent1)));
                    proof {
                        assert(view_nodes(Seq::<Node>::empty()) =~= Seq::<NodeM>::empty());
                    }
                    let adv = if indent0 < 1 {
                        1
                    } else if indent0 > n - pos {
                        n - pos
                    } else {
                        indent0
                    };
                    proof {
                        let li = mk@;
                        let st1 = if cur_of(st0) is Paragraph {
                            pop1(st0)
                        } else {
                            st0
                        };
                        let st2 = if cur_of(st1) is Code && st1.fence is None {
                            pop1(st1)
                        } else {
                            st1
                        };
                        let lt = if li.ordered {
                            ListTypeM::Ordered(li.delim, li.start)
                        } else {
                            ListTypeM::Unordered(li.delim)
                        };
                        let st3 = if !(cur_of(st2) is List) {
                            push_st(
                                st2,
                                NodeM::List {
                                    list_type: lt,
                                    proximity: ListProximity::Tight,
                                    children: Seq::empty(),
                                },
                            )
                        } else {
                            st2
                        };
                        let st4 = push_st(
                            st3,
                            NodeM::ListItem { indent: indent1 as int, children: Seq::empty() },
                        );
                        assert(p@ == st4);
                    }
                    let rr = open_exec(p, line, pos + adv, credit, false);
                    proof {
                        assert(open_spec(st0, line@, pos as int, rem as int, lazy) == open_li(
                            st0,
                            line@,
                            pos as int,
                            rem as int,
                            lazy,
                            mk@,
                        ));
                    }
                    rr
                },
                Option::None => (pos, rem, lazy),
            }
        },
    }
}

/// Setting the spine end and then writing its parent overwrites the
/// earlier change; the parent seen between the two writes is the old
/// parent with its last child exchanged.
pub proof fn lemma_set_then_parent(r: NodeM, d: int, m: NodeM)
    requires
        d >= 1,
        spine_ok(r, d),
    ensures
        forall|x: NodeM| #[trigger] spine_set(spine_set(r, d, m), d - 1, x) == spine_set(r, d - 1, x),
        spine_node(spine_set(r, d, m), d - 1) == with_children(
            spine_node(r, d - 1),
            children_of(spine_node(r, d - 1)).update(
                children_of(spine_node(r, d - 1)).len() - 1,
                m,
            ),
        ),
        spine_ok(spine_set(r, d, m), d - 1),
    decreases d,
{
    let cs = children_of(r);
    let r1 = spine_set(r, d, m);
    if d == 1 {
        assert(r1 == with_children(r, cs.update(cs.len() - 1, m)));
        assert forall|x: NodeM| #[trigger] spine_set(r1, 0, x) == spine_set(r, 0, x) by {}
    } else {
        lemma_set_then_parent(cs.last(), d - 1, m);
        let inner = spine_set(cs.last(), d - 1, m);
        let cs1 = cs.update(cs.len() - 1, inner);
        assert(r1 == with_children(r, cs1));
        assert(cs1.last() == inner);
        assert(cs1.len() == cs.len());
        assert forall|x: NodeM| #[trigger] spine_set(r1, d - 1, x) == spine_set(r, d - 1, x) by {
            let lhs_cs = children_of(r1);
            assert(lhs_cs == cs1);
            assert(spine_set(cs1.last(), d - 2, x) == spine_set(cs.last(), d - 2, x));
            assert(cs1.update(cs1.len() - 1, spine_set(cs1.last(), d - 2, x)) =~= cs.update(
                cs.len() - 1,
                spine_set(cs.last(), d - 2, x),
            ));
        }
        assert(spine_node(r1, d - 1) == spine_node(cs1.last(), d - 2));
        assert(spine_node(r, d - 1) == spine_node(cs.last(), d - 2));
    }
}

/// Close an open paragraph, then an open (indented) code block.
pub open spec fn close_para_code(st: StateM) -> StateM {
    let st1 = if cur_of(st) is Paragraph {
        pop1(st)
    } else {
        st
    };
    if cur_of(st1) is Code && st1.fence is None {
        pop1(st1)
    } else {
        st1
    }
}

/// Close an open paragraph and an open indented code block, executable.
fn pop_para_code(p: &mut Parser)
    requires
        old(p).wf(),
    ensures
        final(p).wf(),
        final(p)@ == close_para_code(old(p)@),
        final(p).tree.root == old(p).tree.root,
        final(p).tree.depth <= old(p).tree.depth,
{
    let cur_para = match p.tree.cur_ref() {
        Node::Paragraph(_) => true,
        _ => false,
    };
    if cur_para {
        proof {
            assert(p.tree.depth > 0);
        }
        p.tree.pop();
    }
    let cur_code = match p.tree.cur_ref() {
        Node::Code(_) => true,
        _ => false,
    };
    if cur_code && p.fence.is_none() {
        proof {
            assert(p.tree.depth > 0);
        }
        p.tree.pop();
    }
}

/// Append a piece of text to the current code block.
fn append_to_code(p: &mut Parser, piece: &str)
    requires
        old(p).wf(),
        cur_of(old(p)@) is Code,
    ensures
        final(p).wf(),
        final(p)@ == set_cur_st(
            old(p)@,
            NodeM::Code {
                text: cur_of(old(p)@)->Code_text + piece@,
                info: cur_of(old(p)@)->Code_info,
            },
        ),
{
    let ghost st0 = p@;
    let ghost d = p.tree.depth as int;
    proof {
        assert(p.tree.depth > 0);
    }
    let nd = p.tree.swap_cur(Node::ThematicBreak);
    match nd {
        Node::Code(mut c) => {
            c.text.append(piece);
            let c2 = Node::Code(c);
            let ghost newv = c2@;
            proof {
                assert(p.tree.wf());
            }
            let _ = p.tree.swap_cur(c2);
            proof {
                lemma_spine_set_twice(st0.root, d, view_node(Node::ThematicBreak), newv);
                assert(p@ == set_cur_st(st0, newv));
            }
        },
        _ => {
            proof {
                assert(false);
            }
        },
    }
}

/// Append a piece of text to the current HTML block.
fn append_to_html(p: &mut Parser, piece: &str)
    requires
        old(p).wf(),
        cur_of(old(p)@) is Html,
    ensures
        final(p).wf(),
        final(p)@ == set_cur_st(
            old(p)@,
            NodeM::Html {
                text: cur_of(old(p)@)->Html_text + piece@,
                html_type: cur_of(old(p)@)->Html_html_type,
            },
        ),
{
    let ghost st0 = p@;
    let ghost d = p.tree.depth as int;
    proof {
        assert(p.tree.depth > 0);
    }
    let nd = p.tree.swap_cur(Node::ThematicBreak);
    match nd {
        Node::Html(mut h) => {
            h.text.append(piece);
            let h2 = Node::Html(h);
            let ghost newv = h2@;
            proof {
                assert(p.tree.wf());
            }
            let _ = p.tree.swap_cur(h2);
            proof {
                lemma_spine_set_twice(st0.root, d, view_node(Node::ThematicBreak), newv);
                assert(p@ == set_cur_st(st0, newv));
            }
        },
        _ => {
            proof {
                assert(false);
            }
        },
    }
}

/// Append a text run to the children of the current block.
fn append_text_child(p: &mut Parser, piece: String)
    requires
        old(p).wf(),
        is_parent_m(cur_of(old(p)@)),
        old(p).tree.depth > 0,
    ensures
        final(p).wf(),
        final(p)@ == append_text_at(old(p)@, old(p).tree.depth as int, piece@),
        final(p).tree.depth == old(p).tree.depth,
{
    let ghost st0 = p@;
    let ghost d = p.tree.depth as int;
    let nd = p.tree.swap_cur(Node::ThematicBreak);
    let node2 = match nd {
        Node::Root(mut x) => {
            let ghost cs0 = x.children@;
            x.children.push(Node::Text(piece));
            proof {
                crate::ast::lemma_view_nodes_push(cs0, x.children@.last());
            }
            Node::Root(x)
        },
        Node::BlockQuote(mut x) => {
            let ghost cs0 = x.children@;
            x.children.push(Node::Text(piece));
            proof {
                crate::ast::lemma_view_nodes_push(cs0, x.children@.last());
            }
            Node::BlockQuote(x)
        },
        Node::List(mut x) => {
            let ghost cs0 = x.children@;
            x.children.push(Node::Text(piece));
            proof {
                crate::ast::lemma_view_nodes_push(cs0, x.children@.last());
            }
            Node::List(x)
        },
        Node::ListItem(mut x) => {
            let ghost cs0 = x.children@;
            x.children.push(Node::Text(piece));
            proof {
                crate::ast::lemma_view_nodes_push(cs0, x.children@.last());
            }
            Node::ListItem(x)
        },
        Node::Paragraph(mut x) => {
            let ghost cs0 = x.children@;
            x.children.push(Node::Text(piece));
            proof {
                crate::ast::lemma_view_nodes_push(cs0, x.children@.last());
            }
            Node::Paragraph(x)
        },
        _ => {
            proof {
                assert(false);
            }
            vstd::pervasive::unreached()
        },
    };
    let ghost newv = node2@;
    proof {
        assert(newv == with_children(
            cur_of(st0),
            children_of(cur_of(st0)).push(NodeM::Text { text: piece@ }),
        ));
        assert(p.tree.wf());
    }
    let _ = p.tree.swap_cur(node2);
    proof {
        lemma_spine_set_twice(st0.root, d, view_node(Node::ThematicBreak), newv);
        assert(p@ == (StateM {
            root: spine_set(
                st0.root,
                d,
                with_children(
                    cur_of(st0),
                    children_of(cur_of(st0)).push(NodeM::Text { text: piece@ }),
                ),
            ),
            ..st0
        }));
    }
}

/// Phase three, executable: the line is blank after container matching.
fn blank_exec(p: &mut Parser, line: &str, pos: usize)
    requires
        old(p).wf(),
        pos <= line@.len(),
    ensures
        final(p).wf(),
        final(p)@ == blank_spec(old(p)@, line@, pos as int),
{
    let ghost st0 = p@;
    let n = line.unicode_len();
    let (cur_para, cur_code, cur_html) = {
        let cur = p.tree.cur_ref();
        (
            match cur {
                Node::Paragraph(_) => true,
                _ => false,
            },
            match cur {
                Node::Code(_) => true,
                _ => false,
            },
            match cur {
                Node::Html(_) => true,
                _ => false,
            },
        )
    };
    if cur_para {
        proof {
            assert(p.tree.depth > 0);
        }
        p.tree.pop();
    } else if cur_code {
        if p.fence.is_some() {
            let mut piece = sub_string(line, pos, n);
            piece.append("\n");
            proof {
                assert(piece@ =~= line@.skip(pos as int) + "\n"@);
            }
            append_to_code(p, piece.as_str());
            proof {
                assert(cur_of(st0)->Code_text + (line@.skip(pos as int) + "\n"@) =~= cur_of(st0)->Code_text
                    + line@.skip(pos as int) + "\n"@);
            }
        } else {
            let (newpos, _) = scan_space_upto(line, pos, 4);
            let mut s = sub_string(line, newpos, n);
            s.append("\n");
            let ghost seps0 = p@.seps;
            proof {
                assert(line@.subrange(newpos as int, n as int) =~= line@.skip(newpos as int));
            }
            p.seps.push(s);
            proof {
                assert(p@.seps =~= seps0.push(line@.skip(newpos as int) + "\n"@));
            }
        }
    } else if cur_html {
        let close = match p.tree.cur_ref() {
            Node::Html(h) => match h.html_type {
                HtmlType::Simple => true,
                HtmlType::Custom => true,
                _ => false,
            },
            _ => false,
        };
        if close {
            proof {
                assert(p.tree.depth > 0);
            }
            p.tree.pop();
        } else {
            let mut piece = sub_string(line, pos, n);
            piece.append("\n");
            proof {
                assert(piece@ =~= line@.skip(pos as int) + "\n"@);
            }
            append_to_html(p, piece.as_str());
            proof {
                assert(cur_of(st0)->Html_text + (line@.skip(pos as int) + "\n"@) =~= cur_of(st0)->Html_text
                    + line@.skip(pos as int) + "\n"@);
            }
        }
    }
    let (is_bq_code, is_empty_item) = {
        let cur1 = p.tree.cur_ref();
        (
            match cur1 {
                Node::BlockQuote(_) => true,
                Node::Code(_) => true,
                _ => false,
            },
            match cur1 {
                Node::ListItem(x) => {
                    proof {
                        crate::ast::lemma_view_nodes(x.children@);
                    }
                    x.children.len() == 0
                },
                _ => false,
            },
        )
    };
    p.last_blank = if is_empty_item {
        false
    } else {
        !is_bq_code
    };
}

/// The fenced-code step, executable.
fn fenced_exec(p: &mut Parser, line: &str, pos: usize)
    requires
        old(p).wf(),
        pos <= line@.len(),
        old(p).fence is Some,
        cur_of(old(p)@) is Code,
    ensures
        final(p).wf(),
        final(p)@ == fenced_step(old(p)@, line@, pos as int),
{
    let ghost st0 = p@;
    let n = line.unicode_len();
    let fs = match &p.fence {
        Option::Some(f) => FenceSt { ch: f.ch, len: f.len, lead: f.lead },
        Option::None => FenceSt { ch: ' ', len: 0, lead: 0 },
    };
    match fence(line, pos) {
        Option::Some((lead2, c2, m2, info_start)) => {
            let (a, b) = crate::chars::trim_range(line, info_start, n);
            proof {
                assert(line@.subrange(info_start as int, n as int) =~= line@.skip(
                    info_start as int,
                ));
            }
            if c2 == fs.ch && m2 >= fs.len && a == b {
                proof {
                    assert(crate::chars::trim_s(line@.skip(info_start as int)).len() == 0);
                    assert(p.tree.depth > 0);
                }
                p.tree.pop();
                p.fence = Option::None;
            } else {
                proof {
                    if a != b {
                        assert(crate::chars::trim_s(line@.skip(info_start as int)).len() != 0);
                    }
                }
                let mut piece = sub_string(line, pos, n);
                piece.append("\n");
                proof {
                    assert(piece@ =~= line@.skip(pos as int) + "\n"@);
                }
                append_to_code(p, piece.as_str());
                proof {
                    assert(cur_of(st0)->Code_text + (line@.skip(pos as int) + "\n"@) =~= cur_of(
                        st0,
                    )->Code_text + line@.skip(pos as int) + "\n"@);
                }
            }
        },
        Option::None => {
            let sp = count_char(line, pos, ' ');
            let strip = if fs.lead >= sp {
                sp
            } else {
                fs.lead
            };
            let mut piece = sub_string(line, pos + strip, n);
            piece.append("\n");
            proof {
                assert(piece@ =~= line@.skip(pos + strip) + "\n"@);
            }
            append_to_code(p, piece.as_str());
            proof {
                assert(cur_of(st0)->Code_text + (line@.skip(pos + strip) + "\n"@) =~= cur_of(
                    st0,
                )->Code_text + line@.skip(pos + strip) + "\n"@);
            }
        },
    }
}

/// HTML continuation, executable.
fn html_cont_exec(p: &mut Parser, line: &str, pos: usize)
    requires
        old(p).wf(),
        pos <= line@.len(),
        cur_of(old(p)@) is Html,
    ensures
        final(p).wf(),
        final(p)@ == html_cont(old(p)@, line@, pos as int),
{
    let ghost st0 = p@;
    let n = line.unicode_len();
    let rest = line.substring_char(pos, n);
    proof {
        assert(rest@ =~= line@.skip(pos as int));
    }
    let ended = match p.tree.cur_ref() {
        Node::Html(h) => end_condition_met(h, rest),
        _ => false,
    };
    let mut piece = sub_string(line, pos, n);
    piece.append("\n");
    proof {
        assert(piece@ =~= line@.skip(pos as int) + "\n"@);
    }
    append_to_html(p, piece.as_str());
    proof {
        assert(cur_of(st0)->Html_text + (line@.skip(pos as int) + "\n"@) =~= cur_of(st0)->Html_text
            + line@.skip(pos as int) + "\n"@);
    }
    if ended {
        proof {
            assert(p.tree.depth > 0);
        }
        p.tree.pop();
    }
}

/// Open an HTML block, executable.
fn open_html_exec(p: &mut Parser, line: &str, pos: usize, kind: HtmlType)
    requires
        old(p).wf(),
        pos <= line@.len(),
    ensures
        final(p).wf(),
        final(p)@ == open_html(old(p)@, line@, pos as int, kind),
{
    let ghost st0 = p@;
    let n = line.unicode_len();
    pop_para_code(p);
    let mut content = sub_string(line, pos, n);
    content.append("\n");
    proof {
        assert(content@ =~= line@.skip(pos as int) + "\n"@);
    }
    let rest = line.substring_char(pos, n);
    proof {
        assert(rest@ =~= line@.skip(pos as int));
    }
    let h = Html::new(content, kind);
    let ended = end_condition_met(&h, rest);
    let ghost st2 = p@;
    p.tree.push(Node::Html(h));
    proof {
        lemma_st_push_pos(st2.root, st2.depth, NodeM::Html { text: content@, html_type: kind });
    }
    if ended {
        proof {
            assert(p.tree.depth > 0);
        }
        p.tree.pop();
    }
}

/// Re-descend the given number of levels for a lazy continuation; on any
/// failure the cursor is restored.
#[verifier::loop_isolation(false)]
fn try_descend(p: &mut Parser, dropped: usize) -> (ok: bool)
    requires
        old(p).wf(),
    ensures
        final(p).wf(),
        final(p).tree.root == old(p).tree.root,
        final(p).fence == old(p).fence,
        final(p).seps == old(p).seps,
        final(p).last_blank == old(p).last_blank,
        ok == advance_ok(old(p).tree.root@, old(p).tree.depth as int, dropped as int),
        ok ==> final(p).tree.depth == old(p).tree.depth + dropped,
        !ok ==> final(p).tree.depth == old(p).tree.depth,
    decreases dropped,
{
    let ghost root = old(p).tree.root@;
    let d0 = p.tree.depth;
    let mut i: usize = 0;
    loop
        invariant
            p.wf(),
            p.tree.root == old(p).tree.root,
            p.fence == old(p).fence,
            p.seps == old(p).seps,
            p.last_blank == old(p).last_blank,
            0 <= i <= dropped,
            p.tree.depth == d0 + i,
            advance_ok(root, d0 as int, dropped as int) == advance_ok(
                root,
                d0 + i,
                dropped - i,
            ),
        decreases dropped - i,
    {
        if i == dropped {
            proof {
                assert(advance_ok(root, d0 + i, 0));
            }
            return true;
        }
        let a = p.tree.advance();
        if !a {
            proof {
                assert(!advance_ok(root, d0 + i, dropped - i));
            }
            loop
                invariant
                    p.wf(),
                    p.tree.root == old(p).tree.root,
                    p.fence == old(p).fence,
                    p.seps == old(p).seps,
                    p.last_blank == old(p).last_blank,
                    d0 <= p.tree.depth,
                decreases p.tree.depth,
            {
                if p.tree.depth == d0 {
                    return false;
                }
                p.tree.pop();
            }
        }
        proof {
            assert(advance_ok(root, d0 + i, dropped - i) == advance_ok(
                root,
                d0 + i + 1,
                dropped - i - 1,
            ));
        }
        i = i + 1;
    }
}

/// An ATX heading line, executable.
fn atx_exec(p: &mut Parser, level: u8, content: String)
    requires
        old(p).wf(),
    ensures
        final(p).wf(),
        final(p)@ == atx_step(old(p)@, level as int, content@),
{
    pop_para_code(p);
    let ghost st2 = p@;
    let children = vec![Node::Text(content)];
    proof {
        assert(children@.drop_last().len() == 0);
        assert(view_nodes(children@.drop_last()) =~= Seq::<NodeM>::empty());
        assert(view_nodes(children@) =~= seq![view_node(children@[0])]);
    }
    let hnode = Node::Heading(crate::ast::Heading::new(level, children));
    let ghost hv = hnode@;
    p.tree.push(hnode);
    proof {
        lemma_st_push_pos(st2.root, st2.depth, hv);
        assert(p.tree.depth > 0);
    }
    p.tree.pop();
}

/// A setext underline under a paragraph, executable.
fn setext_exec(p: &mut Parser, level: u8)
    requires
        old(p).wf(),
        cur_of(old(p)@) is Paragraph,
        1 <= level <= 2,
    ensures
        final(p).wf(),
        final(p)@ == setext_step(old(p)@, level as int),
{
    let ghost st0 = p@;
    proof {
        assert(p.tree.depth > 0);
        lemma_spine_ok_node(st0.root, p.tree.depth as int, p.tree.depth - 1);
    }
    let ghost d = p.tree.depth as int;
    let nd = p.tree.swap_cur(Node::ThematicBreak);
    let children = match nd {
        Node::Paragraph(x) => x.children,
        _ => {
            proof {
                assert(false);
            }
            vstd::pervasive::unreached()
        },
    };
    proof {
        lemma_set_then_parent(st0.root, d, view_node(Node::ThematicBreak));
        assert(p.tree.wf());
    }
    p.tree.remove();
    proof {
        let parent = spine_node(st0.root, d - 1);
        let cs = children_of(parent);
        assert(cs.update(cs.len() - 1, view_node(Node::ThematicBreak)).drop_last() =~= cs.drop_last());
        assert(with_children(
            with_children(parent, cs.update(cs.len() - 1, view_node(Node::ThematicBreak))),
            cs.update(cs.len() - 1, view_node(Node::ThematicBreak)).drop_last(),
        ) == with_children(parent, cs.drop_last()));
        assert(p.tree.root@ == spine_set(
            st0.root,
            d - 1,
            with_children(parent, cs.drop_last()),
        ));
    }
    let ghost st2 = p@;
    let hnode = Node::Heading(crate::ast::Heading::new(level, children));
    let ghost hv = hnode@;
    p.tree.push(hnode);
    proof {
        lemma_st_push_pos(st2.root, st2.depth, hv);
        assert(p.tree.depth > 0);
    }
    p.tree.pop();
}

/// A thematic break line, executable.
fn break_exec(p: &mut Parser)
    requires
        old(p).wf(),
    ensures
        final(p).wf(),
        final(p)@ == break_step(old(p)@),
{
    pop_para_code(p);
    let ghost st2 = p@;
    p.tree.push(Node::ThematicBreak);
    proof {
        lemma_st_push_pos(st2.root, st2.depth, view_node(Node::ThematicBreak));
        assert(p.tree.depth > 0);
    }
    p.tree.pop();
}

/// A fence opener, executable.
fn fence_open_exec(p: &mut Parser, line: &str, pos: usize, lead: usize, fch: char, flen: usize, info_start: usize)
    requires
        old(p).wf(),
        pos <= line@.len(),
        info_start <= line@.len(),
        fence_match(line@.skip(pos as int)) == Option::Some(
            (lead as int, fch, flen as int, line@.skip(info_start as int)),
        ),
    ensures
        final(p).wf(),
        final(p)@ == fence_open_step(old(p)@, fence_match(line@.skip(pos as int))->Some_0),
{
    let n = line.unicode_len();
    pop_para_code(p);
    let mut code = crate::ast::Code::new();
    if info_start < n {
        code.info = Option::Some(sub_string(line, info_start, n));
        proof {
            assert(line@.subrange(info_start as int, n as int) =~= line@.skip(info_start as int));
        }
    }
    proof {
        assert(code.text@ =~= Seq::<char>::empty());
        if info_start >= n {
            assert(line@.skip(info_start as int).len() == 0);
        }
    }
    p.tree.push(Node::Code(code));
    p.fence = Option::Some(FenceSt { ch: fch, len: flen, lead });
}

/// Continue an open indented code block, executable.
#[verifier::rlimit(100)]
fn icode_cont_exec(p: &mut Parser, line: &str, pos: usize)
    requires
        old(p).wf(),
        pos <= line@.len(),
        cur_of(old(p)@) is Code,
    ensures
        final(p).wf(),
        final(p)@ == icode_cont_step(old(p)@, line@, pos as int),
{
    let ghost stc = p@;
    let n = line.unicode_len();
    proof {
        assert(p.tree.depth > 0);
    }
    let nd = p.tree.swap_cur(Node::ThematicBreak);
    let ghost tree1 = p.tree;
    let ghost fence1 = p.fence;
    let ghost lb1 = p.last_blank;
    match nd {
        Node::Code(mut c) => {
            let ghost text0 = c.text@;
            let ghost info0 = c.info;
            let ghost seps0 = p@.seps;
            loop
                invariant
                    p.tree == tree1,
                    p.fence == fence1,
                    p.last_blank == lb1,
                    c.info == info0,
                    text0 + rev_concat(seps0) == c.text@ + rev_concat(
                        Seq::new(p.seps@.len(), |i: int| p.seps@[i]@),
                    ),
                ensures
                    p.tree == tree1,
                    p.fence == fence1,
                    p.last_blank == lb1,
                    p.seps@.len() == 0,
                    c.info == info0,
                    c.text@ == text0 + rev_concat(seps0),
                decreases p.seps@.len(),
            {
                let ghost prepop = Seq::new(p.seps@.len(), |i: int| p.seps@[i]@);
                let ghost text_pre = c.text@;
                let sep = p.seps.pop();
                match sep {
                    Option::Some(s) => {
                        c.text.append(s.as_str());
                        proof {
                            let now = Seq::new(p.seps@.len(), |i: int| p.seps@[i]@);
                            assert(prepop.drop_last() =~= now);
                            assert(prepop.last() == s@);
                            assert(rev_concat(prepop) == s@ + rev_concat(now));
                            assert(text_pre + (s@ + rev_concat(now)) =~= (text_pre + s@)
                                + rev_concat(now));
                        }
                    },
                    Option::None => {
                        proof {
                            assert(prepop.len() == 0);
                            assert(rev_concat(prepop) =~= Seq::<char>::empty());
                            assert(c.text@ + rev_concat(prepop) =~= c.text@);
                            assert(c.text@ =~= text0 + rev_concat(seps0));
                        }
                        break;
                    },
                }
            }
            let newpos = scan_space_upto(line, pos, 4).0;
            proof {
                assert(line@.subrange(newpos as int, n as int) =~= line@.skip(newpos as int));
            }
            let tail = sub_string(line, newpos, n);
            c.text.append(tail.as_str());
            c.text.append("\n");
            let c2 = Node::Code(c);
            let ghost newv = c2@;
            proof {
                assert(p.tree.wf());
            }
            let _ = p.tree.swap_cur(c2);
            proof {
                lemma_spine_set_twice(stc.root, stc.depth, view_node(Node::ThematicBreak), newv);
                assert(newv->Code_text =~= (cur_of(stc)->Code_text + rev_concat(stc.seps))
                    + line@.skip(newpos as int) + "\n"@);
                assert(scan_upto(line@, 4, pos as int, 0).0 == newpos as int);
                assert(newv =~= (NodeM::Code {
                    text: cur_of(stc)->Code_text + rev_concat(stc.seps) + line@.skip(
                        scan_upto(line@, 4, pos as int, 0).0,
                    ) + "\n"@,
                    info: cur_of(stc)->Code_info,
                }));
                assert(p@.root == spine_set(stc.root, stc.depth, newv));
                assert(Seq::new(p.seps@.len(), |i: int| p.seps@[i]@) =~= Seq::<Seq<char>>::empty());
                assert(p@ =~= icode_cont_step(stc, line@, pos as int));
            }
        },
        _ => {
            proof {
                assert(false);
            }
        },
    }
}

/// Open a new indented code block, executable.
fn icode_new_exec(p: &mut Parser, line: &str, pos: usize, rem: usize)
    requires
        old(p).wf(),
        pos <= line@.len(),
    ensures
        final(p).wf(),
        final(p)@ == icode_new_step(old(p)@, line@, pos as int, rem as int),
{
    let n = line.unicode_len();
    p.seps = Vec::new();
    proof {
        assert(Seq::new(p.seps@.len(), |i: int| p.seps@[i]@) =~= Seq::<Seq<char>>::empty());
    }
    let newpos = scan_space_upto(line, pos, 4).0;
    proof {
        assert(line@.subrange(newpos as int, n as int) =~= line@.skip(newpos as int));
    }
    let prefix: &str = if rem == 0 {
        ""
    } else if rem == 1 {
        " "
    } else if rem == 2 {
        "  "
    } else if rem == 3 {
        "   "
    } else {
        "    "
    };
    proof {
        reveal_strlit("");
        reveal_strlit(" ");
        reveal_strlit("  ");
        reveal_strlit("   ");
        reveal_strlit("    ");
        assert(prefix@ =~= credit_spaces(rem as int));
    }
    let mut content = prefix.to_owned();
    let tail = sub_string(line, newpos, n);
    content.append(tail.as_str());
    content.append("\n");
    let mut code = crate::ast::Code::new();
    code.text = content;
    proof {
        assert(code.text@ =~= credit_spaces(rem as int) + line@.skip(newpos as int) + "\n"@);
    }
    p.tree.push(Node::Code(code));
}

/// Open a paragraph for a line nothing else claimed, executable.
fn para_open_exec(p: &mut Parser, line: &str, pos: usize)
    requires
        old(p).wf(),
        pos <= line@.len(),
    ensures
        final(p).wf(),
        final(p)@ == para_open_step(old(p)@, line@.skip(pos as int)),
{
    let ghost l = line@.skip(pos as int);
    let n = line.unicode_len();
    let cur3_code = match p.tree.cur_ref() {
        Node::Code(_) => true,
        _ => false,
    };
    if cur3_code && p.fence.is_none() {
        proof {
            assert(p.tree.depth > 0);
        }
        p.tree.pop();
    }
    let cur4_list = match p.tree.cur_ref() {
        Node::List(_) => true,
        _ => false,
    };
    if cur4_list {
        proof {
            assert(p.tree.depth > 0);
        }
        p.tree.pop();
    }
    let aw = pos + crate::chars::count_ws(line, pos);
    let piece = sub_string(line, aw, n);
    proof {
        assert(l.skip(run_len(l, ws_fn())) =~= line@.subrange(aw as int, n as int));
        assert(piece@ == trim_start_s(l));
    }
    let mut para = crate::ast::Paragraph::new();
    para.children.push(Node::Text(piece));
    proof {
        assert(para.children@.drop_last().len() == 0);
        assert(view_nodes(para.children@.drop_last()) =~= Seq::<NodeM>::empty());
        assert(view_nodes(para.children@) =~= seq![view_node(para.children@[0])]);
    }
    p.tree.push(Node::Paragraph(para));
}

/// Build the continuation text `"\n"` + the trimmed line suffix.
fn cont_text(line: &str, pos: usize) -> (r: String)
    requires
        pos <= line@.len(),
    ensures
        r@ == "\n"@ + trim_start_s(line@.skip(pos as int)),
{
    let ghost l = line@.skip(pos as int);
    let n = line.unicode_len();
    let aw = pos + crate::chars::count_ws(line, pos);
    let mut piece = String::new();
    piece.append("\n");
    let tail = sub_string(line, aw, n);
    piece.append(tail.as_str());
    proof {
        assert(l.skip(run_len(l, ws_fn())) =~= line@.subrange(aw as int, n as int));
        assert(piece@ =~= "\n"@ + trim_start_s(l));
    }
    piece
}

/// Phases four and five, executable: leaf handling of a non-blank line.
#[verifier::rlimit(100)]
fn leaf_exec(p: &mut Parser, line: &str, pos: usize, rem: usize, lazy: bool, dropped: usize)
    requires
        old(p).wf(),
        pos <= line@.len(),
    ensures
        final(p).wf(),
        final(p)@ == leaf_spec(old(p)@, line@, pos as int, rem as int, lazy, dropped as int),
{
    let ghost st0 = p@;
    let ghost l = line@.skip(pos as int);
    let n = line.unicode_len();
    let (cur_para, cur_code, cur_html) = {
        let cur = p.tree.cur_ref();
        (
            match cur {
                Node::Paragraph(_) => true,
                _ => false,
            },
            match cur {
                Node::Code(_) => true,
                _ => false,
            },
            match cur {
                Node::Html(_) => true,
                _ => false,
            },
        )
    };
    if p.fence.is_some() && cur_code {
        fenced_exec(p, line, pos);
        return ;
    }
    if cur_html {
        html_cont_exec(p, line, pos);
        return ;
    }
    match html_1_5(line, pos) {
        Option::Some(kind) => {
            open_html_exec(p, line, pos, kind);
            return ;
        },
        Option::None => {},
    }
    if html_6(line, pos) {
        open_html_exec(p, line, pos, HtmlType::Simple);
        return ;
    }
    if html_7(line, pos) && !cur_para {
        let mut content = sub_string(line, pos, n);
        content.append("\n");
        proof {
            assert(content@ =~= line@.skip(pos as int) + "\n"@);
        }
        p.tree.push(Node::Html(Html::new(content, HtmlType::Custom)));
        return ;
    }
    match atx_heading(line, pos) {
        Option::Some((level, content)) => {
            atx_exec(p, level, content);
            return ;
        },
        Option::None => {},
    }
    let se = setext(line, pos);
    if se > 0 && cur_para {
        let level: u8 = if se == 1 {
            1
        } else {
            2
        };
        setext_exec(p, level);
        return ;
    }
    if thematic_break(line, pos) {
        break_exec(p);
        return ;
    }
    if p.fence.is_none() {
        match fence(line, pos) {
            Option::Some((lead, fch, flen, info_start)) => {
                fence_open_exec(p, line, pos, lead, fch, flen, info_start);
                return ;
            },
            Option::None => {},
        }
    }
    if cur_para {
        proof {
            assert(p.tree.depth > 0);
        }
        let piece = cont_text(line, pos);
        append_text_child(p, piece);
        return ;
    }
    if dropped > 0 && lazy {
        let ok = try_descend(p, dropped);
        if ok {
            let is_para = match p.tree.cur_ref() {
                Node::Paragraph(_) => true,
                _ => false,
            };
            if is_para {
                proof {
                    assert(lazy_applies(st0, dropped as int, lazy));
                    assert(p.tree.depth > 0);
                }
                let piece = cont_text(line, pos);
                append_text_child(p, piece);
                return ;
            }
            let d0 = p.tree.depth - dropped;
            loop
                invariant
                    p.wf(),
                    p.tree.root == old(p).tree.root,
                    p.fence == old(p).fence,
                    p.seps == old(p).seps,
                    p.last_blank == old(p).last_blank,
                    d0 <= p.tree.depth,
                ensures
                    p.wf(),
                    p.tree.root == old(p).tree.root,
                    p.fence == old(p).fence,
                    p.seps == old(p).seps,
                    p.last_blank == old(p).last_blank,
                    p.tree.depth == d0,
                decreases p.tree.depth,
            {
                if p.tree.depth == d0 {
                    break;
                }
                p.tree.pop();
            }
            proof {
                assert(p@ == st0);
                assert(!lazy_applies(st0, dropped as int, lazy));
            }
        } else {
            proof {
                assert(!lazy_applies(st0, dropped as int, lazy));
            }
        }
    }
    if scan_indented_code(line, pos) {
        let cur2_code = match p.tree.cur_ref() {
            Node::Code(_) => true,
            _ => false,
        };
        if cur2_code {
            icode_cont_exec(p, line, pos);
        } else {
            icode_new_exec(p, line, pos, rem);
        }
        return ;
    }
    para_open_exec(p, line, pos);
}


/// Parse one physical line.
fn process_line(p: &mut Parser, line: &str)
    requires
        old(p).wf(),
    ensures
        final(p).wf(),
        final(p)@ == step_line(old(p)@, line@),
{
    let ghost st0 = p@;
    let d0 = p.tree.depth;
    let (m, pos, rem) = match_containers(p, line);
    let dropped = d0 - m;
    close_unmatched(p, m);
    let (pos2, rem2, lazy) = open_exec(p, line, pos, rem, true);
    if blank_from(line, pos2) {
        blank_exec(p, line, pos2);
    } else {
        p.last_blank = false;
        leaf_exec(p, line, pos2, rem2, lazy, dropped);
    }
}

/// Split the input into physical lines.
#[verifier::loop_isolation(false)]
fn split_lines(s: &str) -> (r: Vec<String>)
    ensures
        seq_views(r@) == lines_of(s@),
{
    let n = s.unicode_len();
    let mut out: Vec<String> = Vec::new();
    let mut i: usize = 0;
    proof {
        assert(seq_views(out@) =~= Seq::<Seq<char>>::empty());
        assert(s@.skip(0) =~= s@);
        assert(Seq::<Seq<char>>::empty() + lines_of(s@) =~= lines_of(s@));
    }
    loop
        invariant
            0 <= i <= n,
            lines_of(s@) == seq_views(out@) + lines_of(s@.skip(i as int)),
        decreases n - i,
    {
        if i == n {
            proof {
                assert(lines_of(s@.skip(i as int)) =~= Seq::<Seq<char>>::empty());
                assert(seq_views(out@) + Seq::<Seq<char>>::empty() =~= seq_views(out@));
            }
            return out;
        }
        let ghost rest = s@.skip(i as int);
        let k = crate::matchers::count_not(s, i, '\n');
        proof {
            assert(rest =~= s@.subrange(i as int, n as int));
            crate::chars::lemma_run_len(rest, not_ch_fn('\n'));
        }
        let ghost pre = seq_views(out@);
        if i + k == n {
            let piece = sub_string(s, i, n);
            proof {
                assert(piece@ =~= rest);
            }
            out.push(piece);
            proof {
                assert(seq_views(out@) =~= pre.push(rest));
                assert(lines_of(rest) =~= seq![rest]);
                assert(pre.push(rest) + lines_of(s@.skip(n as int)) =~= pre + lines_of(rest));
            }
            i = n;
        } else {
            let cut = if k > 0 {
                let endc = s.get_char(i + k - 1);
                if endc == '\r' {
                    i + k - 1
                } else {
                    i + k
                }
            } else {
                i + k
            };
            let piece = sub_string(s, i, cut);
            proof {
                assert(rest.take(k as int) =~= s@.subrange(i as int, i + k));
                if k > 0 {
                    assert(rest[k - 1] == s@[i + k - 1]);
                    if s@[i + k - 1] == '\r' {
                        assert(rest.take(k as int).drop_last() =~= s@.subrange(i as int, i + k - 1));
                    }
                }
                assert(piece@ == strip_cr(rest.take(k as int)));
            }
            out.push(piece);
            proof {
                assert(seq_views(out@) =~= pre.push(strip_cr(rest.take(k as int))));
                assert(rest.skip(k + 1) =~= s@.skip(i + k + 1));
                assert(lines_of(rest) == seq![strip_cr(rest.take(k as int))] + lines_of(
                    s@.skip(i + k + 1),
                ));
                assert(pre.push(strip_cr(rest.take(k as int))) + lines_of(s@.skip(i + k + 1))
                    =~= pre + lines_of(rest));
            }
            i = i + k + 1;
        }
    }
}

/// Parses an input Markdown text into HTML.
///
/// The result is exactly `html_of` of the input: the text split into
/// physical lines, parsed into a block tree, tightened, and rendered.
#[verifier::rlimit(100)]
pub fn to_html(text: &str) -> (res: String)
    ensures
        res@ == html_of(text@),
{
    let lines = split_lines(text);
    let mut p = Parser::new();
    let ghost lviews = seq_views(lines@);
    let mut i: usize = 0;
    proof {
        assert(lviews.take(0) =~= Seq::<Seq<char>>::empty());
    }
    while i < lines.len()
        invariant
            p.wf(),
            0 <= i <= lines@.len(),
            lviews == seq_views(lines@),
            p@ == parse_lines(lviews.take(i as int)),
        decreases lines@.len() - i,
    {
        process_line(&mut p, lines[i].as_str());
        i = i + 1;
        proof {
            assert(lviews.take(i as int).drop_last() =~= lviews.take(i as int - 1));
            assert(lviews.take(i as int).last() == lviews[i as int - 1]);
        }
    }
    proof {
        assert(i == lines@.len());
        assert(p@ == parse_lines(lviews.take(i as int)));
        assert(lviews.take(lines@.len() as int) =~= lviews);
        assert(lviews.take(i as int) == lviews);
        assert(lviews == lines_of(text@));
        assert(p@ == parse_lines(lines_of(text@)));
    }
    let ghost stf = p@;
    let Parser { tree, fence: _, seps: _, last_blank: _ } = p;
    let Tree { root, depth: _ } = tree;
    proof {
        assert(root@ == stf.root);
    }
    let tightened = tighten(root);
    proof {
        assert(tightened@ == tighten_m(parse_lines(lines_of(text@)).root));
    }
    let mut out = String::new();
    render_node(&tightened, &mut out);
    proof {
        assert(Seq::<char>::empty() + render_m(tightened@) =~= render_m(tightened@));
        assert(out@ == render_m(tighten_m(parse_lines(lines_of(text@)).root)));
    }
    out
}

} // verus!
