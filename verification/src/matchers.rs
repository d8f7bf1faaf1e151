//! Block matchers: recognisers for the line shapes that open or continue
//! blocks.  Each matcher has a specification over the character sequence
//! of the line suffix and an executable recogniser proved equal to it.
//! Matchers take the line and an absolute position, and speak about
//! `line@.skip(pos)`.

use vstd::prelude::*;
use vstd::string::*;
use crate::chars::{
    is_ws, ws_fn, ch_fn, is_space_tab, space_tab_fn, is_digit, digit_fn, run_len, run_len_end,
    lemma_run_len, lemma_run_len_end, trim_s, trim_end_s, trim_start_s, count_eq, digits_val,
    count_ws, count_char, count_space_tab, count_digits, count_occurrences, count_ws_end_range,
    count_char_end_range, count_ws_range, contains_char_range, trim_range, parse_digits,
    sub_string,
};

use crate::ast::{Html, HtmlType};
use crate::chars::{occurs_at, contains_s, contains_sub, is_alpha, begins_at};

verus! {

/// A character that can form a thematic break.
pub open spec fn tb_char(c: char) -> bool {
    c == '*' || c == '-' || c == '_'
}

/// Thematic break: up to three leading spaces, then three or more of one
/// of `*`, `-`, `_`, with only whitespace in between, and nothing else.
pub open spec fn is_thematic_break(l: Seq<char>) -> bool {
    let sp = run_len(l, ch_fn(' '));
    &&& sp <= 3
    &&& sp < l.len()
    &&& tb_char(l[sp])
    &&& (forall|i: int| sp <= i < l.len() ==> l[i] == l[sp] || is_ws(l[i]))
    &&& count_eq(l.skip(sp), l[sp]) >= 3
}

#[verifier::loop_isolation(false)]
pub fn thematic_break(s: &str, pos: usize) -> (r: bool)
    requires
        pos <= s@.len(),
    ensures
        r == is_thematic_break(s@.skip(pos as int)),
{
    let ghost l = s@.skip(pos as int);
    let n = s.unicode_len();
    let sp = count_char(s, pos, ' ');
    if sp > 3 || pos + sp == n {
        return false;
    }
    let c = s.get_char(pos + sp);
    proof {
        assert(l[sp as int] == s@[pos + sp]);
    }
    if !(c == '*' || c == '-' || c == '_') {
        return false;
    }
    let cnt = count_occurrences(s, pos + sp, c);
    proof {
        assert(l.skip(sp as int) =~= s@.skip(pos + sp));
    }
    if cnt < 3 {
        return false;
    }
    let mut i: usize = pos + sp;
    loop
        invariant
            pos + sp <= i <= n,
            n == s@.len(),
            l == s@.skip(pos as int),
            c == l[sp as int],
            forall|j: int| pos + sp <= j < i ==> s@[j] == c || is_ws(s@[j]),
        decreases n - i,
    {
        if i == n {
            proof {
                assert forall|j: int| sp <= j < l.len() implies l[j] == l[sp as int] || is_ws(
                    l[j],
                ) by {
                    assert(l[j] == s@[pos + j]);
                }
            }
            return true;
        }
        let ch = s.get_char(i);
        if !(ch == c || ch == ' ' || ch == '\t' || ch == '\n' || ch == '\r') {
            proof {
                assert(l[i - pos] == s@[i as int]);
            }
            return false;
        }
        i = i + 1;
    }
}

/// Setext underline: up to three leading spaces, a run of `=` (level 1)
/// or `-` (level 2), then only spaces.  Zero means no match.
pub open spec fn setext_level(l: Seq<char>) -> int {
    let sp = run_len(l, ch_fn(' '));
    if sp <= 3 && sp < l.len() && (l[sp] == '=' || l[sp] == '-') {
        let c = l[sp];
        let m = run_len(l.skip(sp), ch_fn(c));
        let rest = l.skip(sp + m);
        if run_len(rest, ch_fn(' ')) == rest.len() {
            if c == '=' {
                1
            } else {
                2
            }
        } else {
            0
        }
    } else {
        0
    }
}

pub fn setext(s: &str, pos: usize) -> (r: usize)
    requires
        pos <= s@.len(),
    ensures
        r == setext_level(s@.skip(pos as int)),
{
    let ghost l = s@.skip(pos as int);
    let n = s.unicode_len();
    let sp = count_char(s, pos, ' ');
    if sp > 3 || pos + sp == n {
        return 0;
    }
    let c = s.get_char(pos + sp);
    proof {
        assert(l[sp as int] == s@[pos + sp]);
    }
    if !(c == '=' || c == '-') {
        return 0;
    }
    let m = count_char(s, pos + sp, c);
    proof {
        assert(l.skip(sp as int) =~= s@.skip(pos + sp));
    }
    let tail = count_char(s, pos + sp + m, ' ');
    proof {
        assert(l.skip(sp + m) =~= s@.skip(pos + sp + m));
    }
    if pos + sp + m + tail == n {
        if c == '=' {
            1
        } else {
            2
        }
    } else {
        proof {
            lemma_run_len(l.skip(sp + m), ch_fn(' '));
        }
        0
    }
}

/// Fence opener shape: up to three captured leading spaces, a run of at
/// least three backticks or tildes, then the info string to the end.
/// The result carries (lead, fence char, fence length, info string).
pub open spec fn fence_match(l: Seq<char>) -> Option<(int, char, int, Seq<char>)> {
    let sp = run_len(l, ch_fn(' '));
    if sp <= 3 && sp < l.len() && (l[sp] == '`' || l[sp] == '~') {
        let c = l[sp];
        let m = run_len(l.skip(sp), ch_fn(c));
        if m >= 3 {
            Some((sp, c, m, l.skip(sp + m)))
        } else {
            None
        }
    } else {
        None
    }
}

/// Executable fence recogniser; the info string is returned as the
/// position where it starts.
pub fn fence(s: &str, pos: usize) -> (r: Option<(usize, char, usize, usize)>)
    requires
        pos <= s@.len(),
    ensures
        match r {
            Some(f) => {
                &&& fence_match(s@.skip(pos as int)) == Some(
                    (f.0 as int, f.1, f.2 as int, s@.skip(f.3 as int)),
                )
                &&& pos <= f.3 <= s@.len()
                &&& f.3 == pos + f.0 + f.2
            },
            None => fence_match(s@.skip(pos as int)) is None,
        },
{
    let ghost l = s@.skip(pos as int);
    let n = s.unicode_len();
    let sp = count_char(s, pos, ' ');
    if sp > 3 || pos + sp == n {
        return None;
    }
    let c = s.get_char(pos + sp);
    proof {
        assert(l[sp as int] == s@[pos + sp]);
    }
    if !(c == '`' || c == '~') {
        return None;
    }
    let m = count_char(s, pos + sp, c);
    proof {
        assert(l.skip(sp as int) =~= s@.skip(pos + sp));
    }
    if m < 3 {
        return None;
    }
    proof {
        assert(l.skip(sp + m) =~= s@.skip(pos + sp + m));
    }
    Some((sp, c, m, pos + sp + m))
}

/// Block-quote marker: up to three leading spaces, `>`, optionally one
/// space or tab.  The result carries (consumed length, tab credit).
pub open spec fn bq_marker(l: Seq<char>) -> Option<(int, int)> {
    let sp = run_len(l, ch_fn(' '));
    if sp <= 3 && sp < l.len() && l[sp] == '>' {
        if sp + 1 < l.len() && l[sp + 1] == '\t' {
            Some((sp + 2, 2))
        } else if sp + 1 < l.len() && l[sp + 1] == ' ' {
            Some((sp + 2, 0))
        } else {
            Some((sp + 1, 0))
        }
    } else {
        None
    }
}

pub fn blockquote_marker(s: &str, pos: usize) -> (r: Option<(usize, usize)>)
    requires
        pos <= s@.len(),
    ensures
        match r {
            Some(m) => {
                &&& bq_marker(s@.skip(pos as int)) == Some((m.0 as int, m.1 as int))
                &&& pos + m.0 <= s@.len()
            },
            None => bq_marker(s@.skip(pos as int)) is None,
        },
{
    let ghost l = s@.skip(pos as int);
    let n = s.unicode_len();
    let sp = count_char(s, pos, ' ');
    if sp > 3 || pos + sp == n {
        return None;
    }
    let c = s.get_char(pos + sp);
    proof {
        assert(l[sp as int] == s@[pos + sp]);
    }
    if c != '>' {
        return None;
    }
    if pos + sp + 1 < n {
        let c2 = s.get_char(pos + sp + 1);
        proof {
            assert(l[sp + 1] == s@[pos + sp + 1]);
        }
        if c2 == '\t' {
            return Some((sp + 2, 2));
        }
        if c2 == ' ' {
            return Some((sp + 2, 0));
        }
    }
    Some((sp + 1, 0))
}

/// Indentation columns before the first character that is not a space or
/// a tab, with tabs advancing to the next four-column stop.
pub open spec fn cols_from(l: Seq<char>, acc: int) -> int
    decreases l.len(),
{
    if l.len() == 0 || !(l[0] == ' ' || l[0] == '\t') {
        acc
    } else if l[0] == ' ' {
        cols_from(l.skip(1), acc + 1)
    } else {
        cols_from(l.skip(1), acc + (4 - (acc % 4)))
    }
}

pub proof fn lemma_cols_from_ge(l: Seq<char>, acc: int)
    requires
        acc >= 0,
    ensures
        cols_from(l, acc) >= acc,
    decreases l.len(),
{
    if l.len() > 0 && (l[0] == ' ' || l[0] == '\t') {
        if l[0] == ' ' {
            lemma_cols_from_ge(l.skip(1), acc + 1);
        } else {
            lemma_cols_from_ge(l.skip(1), acc + (4 - (acc % 4)));
        }
    }
}

/// Indented code: four or more columns of leading indentation followed
/// by at least one character that is not a space or a tab.
pub open spec fn is_indented_code(l: Seq<char>) -> bool {
    &&& cols_from(l, 0) >= 4
    &&& exists|i: int| 0 <= i < l.len() && !(l[i] == ' ' || l[i] == '\t')
}

pub fn scan_indented_code(s: &str, pos: usize) -> (r: bool)
    requires
        pos <= s@.len(),
    ensures
        r == is_indented_code(s@.skip(pos as int)),
{
    let ghost l = s@.skip(pos as int);
    let n = s.unicode_len();
    let mut i: usize = pos;
    let mut acc: usize = 0;
    loop
        invariant_except_break
            acc < 4,
        invariant
            pos <= i <= n,
            n == s@.len(),
            l == s@.skip(pos as int),
            cols_from(l, 0) == cols_from(s@.skip(i as int), acc as int),
            forall|j: int| pos <= j < i ==> s@[j] == ' ' || s@[j] == '\t',
        ensures
            acc >= 4,
        decreases n - i,
    {
        if i == n {
            proof {
                assert(s@.skip(i as int).len() == 0);
            }
            return false;
        }
        let c = s.get_char(i);
        proof {
            assert(s@.skip(i as int)[0] == s@[i as int]);
            assert(s@.skip(i as int).skip(1) =~= s@.skip(i as int + 1));
        }
        if c == ' ' {
            acc = acc + 1;
        } else if c == '\t' {
            acc = acc + (4 - acc % 4);
        } else {
            proof {
                assert(cols_from(s@.skip(i as int), acc as int) == acc);
            }
            return false;
        }
        i = i + 1;
        if acc >= 4 {
            break;
        }
    }
    proof {
        lemma_cols_from_ge(s@.skip(i as int), acc as int);
    }
    loop
        invariant
            pos <= i <= n,
            n == s@.len(),
            l == s@.skip(pos as int),
            cols_from(l, 0) >= 4,
            forall|j: int| pos <= j < i ==> s@[j] == ' ' || s@[j] == '\t',
        decreases n - i,
    {
        if i == n {
            proof {
                assert(forall|k: int| 0 <= k < l.len() ==> l[k] == s@[pos + k]);
            }
            return false;
        }
        let c = s.get_char(i);
        if c != ' ' && c != '\t' {
            proof {
                assert(l[i - pos] == s@[i as int]);
            }
            return true;
        }
        i = i + 1;
    }
}

/// One tab stop forward from `spaces`, capped at the machine limit so the
/// executable scanner cannot overflow.
pub open spec fn tab_to(spaces: int) -> int {
    if spaces + (4 - (spaces % 4)) > usize::MAX as int {
        usize::MAX as int
    } else {
        spaces + (4 - (spaces % 4))
    }
}

pub fn tab_to_exec(spaces: usize) -> (r: usize)
    ensures
        r as int == tab_to(spaces as int),
{
    let fill = 4 - spaces % 4;
    if spaces <= usize::MAX - fill {
        spaces + fill
    } else {
        usize::MAX
    }
}

/// Consume up to `n` columns of spaces and tabs starting at `pos`,
/// counting a tab as the distance to the next four-column stop.  Returns
/// the new position and the leftover columns of the tab that crossed `n`.
pub open spec fn scan_upto(l: Seq<char>, n: int, pos: int, spaces: int) -> (int, int)
    decreases l.len() - pos,
{
    if spaces >= n || pos < 0 || pos >= l.len() {
        (pos, if spaces > n {
            spaces - n
        } else {
            0
        })
    } else if l[pos] == ' ' {
        scan_upto(l, n, pos + 1, spaces + 1)
    } else if l[pos] == '\t' {
        scan_upto(l, n, pos + 1, tab_to(spaces))
    } else {
        (pos, if spaces > n {
            spaces - n
        } else {
            0
        })
    }
}

/// Scan up to the specified number of space columns.
pub fn scan_space_upto(s: &str, pos: usize, n: usize) -> (r: (usize, usize))
    requires
        pos <= s@.len(),
    ensures
        (r.0 as int, r.1 as int) == scan_upto(s@, n as int, pos as int, 0),
        pos <= r.0 <= s@.len(),
{
    let len = s.unicode_len();
    let mut i: usize = pos;
    let mut spaces: usize = 0;
    loop
        invariant
            pos <= i <= len,
            len == s@.len(),
            scan_upto(s@, n as int, pos as int, 0) == scan_upto(s@, n as int, i as int, spaces as int),
        decreases len - i,
    {
        if spaces >= n || i == len {
            return (i, if spaces > n {
                spaces - n
            } else {
                0
            });
        }
        let c = s.get_char(i);
        if c == ' ' {
            spaces = spaces + 1;
        } else if c == '\t' {
            spaces = tab_to_exec(spaces);
        } else {
            return (i, if spaces > n {
                spaces - n
            } else {
                0
            });
        }
        i = i + 1;
    }
}

/// The content of an ATX heading after its opening run, with an optional
/// closing sequence of `#` removed, trimmed.  `body` starts with the
/// separating space or tab.
pub open spec fn atx_content(body: Seq<char>) -> Seq<char> {
    let rest = body.skip(run_len(body, space_tab_fn()));
    let rest2 = trim_end_s(rest);
    if rest2.len() == 0 {
        Seq::empty()
    } else {
        let hr = run_len_end(rest2, ch_fn('#'));
        if hr == rest2.len() {
            Seq::empty()
        } else if hr > 0 && is_ws(rest2[rest2.len() - hr - 1]) && !(exists|i: int|
            0 <= i < rest2.len() - hr - 1 && rest2[i] == '#') {
            trim_s(rest2.take(rest2.len() - hr - 1))
        } else {
            trim_s(rest)
        }
    }
}

/// ATX heading: up to three leading spaces, one to six `#`, then either
/// the end of the line or a space or tab followed by the content.
pub open spec fn atx_match(l: Seq<char>) -> Option<(int, Seq<char>)> {
    let sp = run_len(l, ch_fn(' '));
    let h = run_len(l.skip(sp), ch_fn('#'));
    if sp <= 3 && 1 <= h <= 6 {
        let body = l.skip(sp + h);
        if body.len() == 0 {
            Some((h, Seq::empty()))
        } else if is_space_tab(body[0]) {
            Some((h, atx_content(body)))
        } else {
            None
        }
    } else {
        None
    }
}

#[verifier::rlimit(100)]
pub fn atx_heading(s: &str, pos: usize) -> (r: Option<(u8, String)>)
    requires
        pos <= s@.len(),
    ensures
        match r {
            Some(p) => atx_match(s@.skip(pos as int)) == Some((p.0 as int, p.1@)),
            None => atx_match(s@.skip(pos as int)) is None,
        },
{
    let ghost l = s@.skip(pos as int);
    let n = s.unicode_len();
    let sp = count_char(s, pos, ' ');
    let h = count_char(s, pos + sp, '#');
    proof {
        assert(l.skip(sp as int) =~= s@.skip(pos + sp));
    }
    if sp > 3 || h < 1 || h > 6 {
        return None;
    }
    let body0 = pos + sp + h;
    let ghost body = l.skip(sp + h);
    proof {
        assert(body =~= s@.skip(body0 as int));
    }
    if body0 == n {
        return Some((h as u8, String::new()));
    }
    let c0 = s.get_char(body0);
    proof {
        assert(body[0] == s@[body0 as int]);
    }
    if !(c0 == ' ' || c0 == '\t') {
        return None;
    }
    // Content extraction
    let stl = count_space_tab(s, body0);
    let p0 = body0 + stl;
    let ghost rest = body.skip(run_len(body, space_tab_fn()));
    proof {
        assert(run_len(body, space_tab_fn()) == stl as int);
        assert(rest =~= s@.subrange(p0 as int, n as int));
    }
    let we = count_ws_end_range(s, p0, n);
    let e = n - we;
    let ghost rest2 = trim_end_s(rest);
    proof {
        assert(rest.len() == n - p0);
        assert(rest2 =~= s@.subrange(p0 as int, e as int));
    }
    if e == p0 {
        proof {
            assert(rest2.len() == 0);
        }
        return Some((h as u8, String::new()));
    }
    let hr = count_char_end_range(s, p0, e, '#');
    proof {
        assert(run_len_end(rest2, ch_fn('#')) == hr as int);
    }
    if hr == e - p0 {
        return Some((h as u8, String::new()));
    }
    let wpos = e - hr - 1;
    let wc = s.get_char(wpos);
    proof {
        assert(rest2[rest2.len() - hr - 1] == s@[wpos as int]);
    }
    let wws = wc == ' ' || wc == '\t' || wc == '\n' || wc == '\r';
    let nohash = !contains_char_range(s, p0, wpos, '#');
    if hr > 0 && wws && nohash {
        proof {
            assert forall|i: int| 0 <= i < rest2.len() - hr - 1 implies rest2[i] != '#' by {
                assert(rest2[i] == s@[p0 + i]);
            }
        }
        let (a, b) = trim_range(s, p0, wpos);
        proof {
            assert(rest2.take(rest2.len() - hr - 1) =~= s@.subrange(p0 as int, wpos as int));
        }
        return Some((h as u8, sub_string(s, a, b)));
    }
    proof {
        if !nohash {
            let i = choose|i: int| p0 <= i < wpos && s@[i] == '#';
            assert(rest2[i - p0] == '#');
        }
    }
    let (a, b) = trim_range(s, p0, n);
    Some((h as u8, sub_string(s, a, b)))
}

/// The captured parts of a list-item marker.
pub ghost struct LiM {
    /// Leading spaces before the marker.
    pub lead: int,
    /// Length of the marker itself (`-`, or digits plus delimiter).
    pub marker_len: int,
    /// Length of the space-and-tab run after the marker.
    pub trail_len: int,
    /// Ordered or bullet list.
    pub ordered: bool,
    /// The bullet, or the ordered delimiter (`.` or `)`).
    pub delim: char,
    /// The start number of an ordered marker.
    pub start: int,
    /// Whether the separating run ends with a tab.
    pub tab_credit: bool,
}

/// The executable counterpart of `LiM`.
pub struct LiMarker {
    pub lead: usize,
    pub marker_len: usize,
    pub trail_len: usize,
    pub ordered: bool,
    pub delim: char,
    pub start: usize,
    pub tab_credit: bool,
}

impl View for LiMarker {
    type V = LiM;

    open spec fn view(&self) -> LiM {
        LiM {
            lead: self.lead as int,
            marker_len: self.marker_len as int,
            trail_len: self.trail_len as int,
            ordered: self.ordered,
            delim: self.delim,
            start: self.start as int,
            tab_credit: self.tab_credit,
        }
    }
}

/// The tail conditions of a list-item marker: the marker must stand at
/// the end of the line or be followed by at least one space or tab.
pub open spec fn li_after_marker(
    l: Seq<char>,
    sp: int,
    mlen: int,
    ordered: bool,
    delim: char,
    start: int,
) -> Option<LiM> {
    let rest = l.skip(sp);
    let trail = run_len(rest.skip(mlen), space_tab_fn());
    if sp + mlen == l.len() || trail >= 1 {
        Some(
            LiM {
                lead: sp,
                marker_len: mlen,
                trail_len: trail,
                ordered,
                delim,
                start,
                tab_credit: trail > 0 && rest[mlen + trail - 1] == '\t',
            },
        )
    } else {
        None
    }
}

/// List-item marker: up to three leading spaces, a bullet or one to nine
/// digits with `.` or `)`, then separation or the end of the line.
pub open spec fn li_match(l: Seq<char>) -> Option<LiM> {
    let sp = run_len(l, ch_fn(' '));
    if sp <= 3 && sp < l.len() {
        let rest = l.skip(sp);
        if rest[0] == '-' || rest[0] == '+' || rest[0] == '*' {
            li_after_marker(l, sp, 1, false, rest[0], 0)
        } else {
            let dg = run_len(rest, digit_fn());
            if 1 <= dg <= 9 && dg < rest.len() && (rest[dg] == '.' || rest[dg] == ')') {
                li_after_marker(l, sp, dg + 1, true, rest[dg], digits_val(rest.take(dg)))
            } else {
                None
            }
        }
    } else {
        None
    }
}

pub fn list_item_marker(s: &str, pos: usize) -> (r: Option<LiMarker>)
    requires
        pos <= s@.len(),
    ensures
        match r {
            Some(m) => {
                &&& li_match(s@.skip(pos as int)) == Some(m@)
                &&& pos + m.lead + m.marker_len + m.trail_len <= s@.len()
                &&& m.marker_len >= 1
            },
            None => li_match(s@.skip(pos as int)) is None,
        },
{
    let ghost l = s@.skip(pos as int);
    let n = s.unicode_len();
    let sp = count_char(s, pos, ' ');
    if sp > 3 || pos + sp == n {
        return None;
    }
    let ghost rest = l.skip(sp as int);
    proof {
        assert(rest =~= s@.skip(pos + sp));
    }
    let c = s.get_char(pos + sp);
    proof {
        assert(rest[0] == s@[pos + sp]);
    }
    let ordered: bool;
    let mlen: usize;
    let delim: char;
    let start: usize;
    if c == '-' || c == '+' || c == '*' {
        ordered = false;
        mlen = 1;
        delim = c;
        start = 0;
    } else {
        let dg = count_digits(s, pos + sp);
        if !(1 <= dg && dg <= 9 && pos + sp + dg < n) {
            proof {
                lemma_run_len(rest, digit_fn());
            }
            return None;
        }
        let d2 = s.get_char(pos + sp + dg);
        proof {
            assert(rest[dg as int] == s@[pos + sp + dg]);
        }
        if !(d2 == '.' || d2 == ')') {
            return None;
        }
        ordered = true;
        mlen = dg + 1;
        delim = d2;
        proof {
            lemma_run_len(rest, digit_fn());
            assert(rest.take(dg as int) =~= s@.subrange(pos + sp, pos + sp + dg));
            assert forall|i: int| pos + sp <= i < pos + sp + dg implies is_digit(s@[i]) by {
                assert(rest[i - pos - sp] == s@[i]);
            }
        }
        start = parse_digits(s, pos + sp, dg);
    }
    let trail = count_space_tab(s, pos + sp + mlen);
    proof {
        assert(rest.skip(mlen as int) =~= s@.skip(pos + sp + mlen));
    }
    if pos + sp + mlen == n || trail >= 1 {
        let tab_credit = if trail > 0 {
            let tc = s.get_char(pos + sp + mlen + trail - 1);
            proof {
                assert(rest[mlen + trail - 1] == s@[pos + sp + mlen + trail - 1]);
            }
            tc == '\t'
        } else {
            false
        };
        Some(
            LiMarker {
                lead: sp,
                marker_len: mlen,
                trail_len: trail,
                ordered,
                delim,
                start,
                tab_credit,
            },
        )
    } else {
        None
    }
}

/// Letters and digits, the characters of an HTML tag name from the
/// block-level list.
pub open spec fn is_alnum(c: char) -> bool {
    crate::chars::is_alpha(c) || is_digit(c)
}

pub open spec fn alnum_fn() -> spec_fn(char) -> bool {
    |c: char| is_alnum(c)
}

/// Lower-case an ASCII letter.
pub open spec fn lower_c(c: char) -> char {
    if 'A' <= c && c <= 'Z' {
        ((c as u32) + 32) as char
    } else {
        c
    }
}

pub open spec fn lower_seq(l: Seq<char>) -> Seq<char> {
    Seq::new(l.len(), |i: int| lower_c(l[i]))
}

pub fn lower_char(c: char) -> (r: char)
    ensures
        r == lower_c(c),
{
    match c {
        'A' => 'a',
        'B' => 'b',
        'C' => 'c',
        'D' => 'd',
        'E' => 'e',
        'F' => 'f',
        'G' => 'g',
        'H' => 'h',
        'I' => 'i',
        'J' => 'j',
        'K' => 'k',
        'L' => 'l',
        'M' => 'm',
        'N' => 'n',
        'O' => 'o',
        'P' => 'p',
        'Q' => 'q',
        'R' => 'r',
        'S' => 's',
        'T' => 't',
        'U' => 'u',
        'V' => 'v',
        'W' => 'w',
        'X' => 'x',
        'Y' => 'y',
        'Z' => 'z',
        _ => c,
    }
}

/// Case-insensitive comparison of the range `[from, to)` against a
/// lower-case pattern.
pub fn eq_ci(s: &str, from: usize, to: usize, lit: &str) -> (r: bool)
    requires
        from <= to <= s@.len(),
    ensures
        r == (lower_seq(s@.subrange(from as int, to as int)) == lit@),
{
    let ghost t = s@.subrange(from as int, to as int);
    let m = lit.unicode_len();
    if to - from != m {
        proof {
            assert(lower_seq(t).len() == t.len());
        }
        return false;
    }
    let mut i: usize = 0;
    loop
        invariant
            0 <= i <= m,
            m == lit@.len(),
            to - from == m,
            from <= to <= s@.len(),
            t == s@.subrange(from as int, to as int),
            forall|j: int| 0 <= j < i ==> lower_seq(t)[j] == lit@[j],
        decreases m - i,
    {
        if i == m {
            proof {
                assert(lower_seq(t) =~= lit@);
            }
            return true;
        }
        let c = lower_char(s.get_char(from + i));
        proof {
            assert(t[i as int] == s@[from + i]);
        }
        if c != lit.get_char(i) {
            proof {
                assert(lower_seq(t)[i as int] != lit@[i as int]);
            }
            return false;
        }
        i = i + 1;
    }
}

/// The CommonMark list of block-level tag names.
pub open spec fn is_block_tag(name: Seq<char>) -> bool {
    ||| name == "address"@
    ||| name == "article"@
    ||| name == "aside"@
    ||| name == "base"@
    ||| name == "basefont"@
    ||| name == "blockquote"@
    ||| name == "body"@
    ||| name == "caption"@
    ||| name == "center"@
    ||| name == "col"@
    ||| name == "colgroup"@
    ||| name == "dd"@
    ||| name == "details"@
    ||| name == "dialog"@
    ||| name == "dir"@
    ||| name == "div"@
    ||| name == "dl"@
    ||| name == "dt"@
    ||| name == "fieldset"@
    ||| name == "figcaption"@
    ||| name == "figure"@
    ||| name == "footer"@
    ||| name == "form"@
    ||| name == "frame"@
    ||| name == "frameset"@
    ||| name == "h1"@
    ||| name == "h2"@
    ||| name == "h3"@
    ||| name == "h4"@
    ||| name == "h5"@
    ||| name == "h6"@
    ||| name == "head"@
    ||| name == "header"@
    ||| name == "hr"@
    ||| name == "html"@
    ||| name == "iframe"@
    ||| name == "legend"@
    ||| name == "li"@
    ||| name == "link"@
    ||| name == "main"@
    ||| name == "menu"@
    ||| name == "menuitem"@
    ||| name == "nav"@
    ||| name == "noframes"@
    ||| name == "ol"@
    ||| name == "optgroup"@
    ||| name == "option"@
    ||| name == "p"@
    ||| name == "param"@
    ||| name == "section"@
    ||| name == "source"@
    ||| name == "summary"@
    ||| name == "table"@
    ||| name == "tbody"@
    ||| name == "td"@
    ||| name == "tfoot"@
    ||| name == "th"@
    ||| name == "thead"@
    ||| name == "title"@
    ||| name == "tr"@
    ||| name == "track"@
    ||| name == "ul"@
}

/// Executable membership test against the block-level tag list, on the
/// lower-cased name in the range `[from, to)`.
pub fn block_tag_in_range(s: &str, from: usize, to: usize) -> (r: bool)
    requires
        from <= to <= s@.len(),
    ensures
        r == is_block_tag(lower_seq(s@.subrange(from as int, to as int))),
{
    eq_ci(s, from, to, "address") || eq_ci(s, from, to, "article") || eq_ci(s, from, to, "aside")
        || eq_ci(s, from, to, "base") || eq_ci(s, from, to, "basefont") || eq_ci(
        s,
        from,
        to,
        "blockquote",
    ) || eq_ci(s, from, to, "body") || eq_ci(s, from, to, "caption") || eq_ci(s, from, to, "center")
        || eq_ci(s, from, to, "col") || eq_ci(s, from, to, "colgroup") || eq_ci(s, from, to, "dd")
        || eq_ci(s, from, to, "details") || eq_ci(s, from, to, "dialog") || eq_ci(s, from, to, "dir")
        || eq_ci(s, from, to, "div") || eq_ci(s, from, to, "dl") || eq_ci(s, from, to, "dt")
        || eq_ci(s, from, to, "fieldset") || eq_ci(s, from, to, "figcaption") || eq_ci(
        s,
        from,
        to,
        "figure",
    ) || eq_ci(s, from, to, "footer") || eq_ci(s, from, to, "form") || eq_ci(s, from, to, "frame")
        || eq_ci(s, from, to, "frameset") || eq_ci(s, from, to, "h1") || eq_ci(s, from, to, "h2")
        || eq_ci(s, from, to, "h3") || eq_ci(s, from, to, "h4") || eq_ci(s, from, to, "h5")
        || eq_ci(s, from, to, "h6") || eq_ci(s, from, to, "head") || eq_ci(s, from, to, "header")
        || eq_ci(s, from, to, "hr") || eq_ci(s, from, to, "html") || eq_ci(s, from, to, "iframe")
        || eq_ci(s, from, to, "legend") || eq_ci(s, from, to, "li") || eq_ci(s, from, to, "link")
        || eq_ci(s, from, to, "main") || eq_ci(s, from, to, "menu") || eq_ci(s, from, to, "menuitem")
        || eq_ci(s, from, to, "nav") || eq_ci(s, from, to, "noframes") || eq_ci(s, from, to, "ol")
        || eq_ci(s, from, to, "optgroup") || eq_ci(s, from, to, "option") || eq_ci(s, from, to, "p")
        || eq_ci(s, from, to, "param") || eq_ci(s, from, to, "section") || eq_ci(
        s,
        from,
        to,
        "source",
    ) || eq_ci(s, from, to, "summary") || eq_ci(s, from, to, "table") || eq_ci(s, from, to, "tbody")
        || eq_ci(s, from, to, "td") || eq_ci(s, from, to, "tfoot") || eq_ci(s, from, to, "th")
        || eq_ci(s, from, to, "thead") || eq_ci(s, from, to, "title") || eq_ci(s, from, to, "tr")
        || eq_ci(s, from, to, "track") || eq_ci(s, from, to, "ul")
}

/// Does the prefix open one of the four literal-kind tags, followed by a
/// space, `>`, or the end of the line?
pub open spec fn lit_tag_open(r: Seq<char>, pat: Seq<char>) -> bool {
    occurs_at(r, pat, 0) && (r.len() == pat.len() || r[pat.len() as int] == ' ' || r[pat.len() as int]
        == '>')
}

/// HTML block kinds one to five, matched in order on the line after up to
/// three leading spaces.
pub open spec fn html15_kind(l: Seq<char>) -> Option<HtmlType> {
    let sp = run_len(l, ch_fn(' '));
    if sp > 3 {
        None
    } else {
        let r = l.skip(sp);
        if lit_tag_open(r, "<pre"@) || lit_tag_open(r, "<script"@) || lit_tag_open(r, "<style"@)
            || lit_tag_open(r, "<textarea"@) {
            Some(HtmlType::Literal)
        } else if occurs_at(r, "<!--"@, 0) {
            Some(HtmlType::Comment)
        } else if occurs_at(r, "<?"@, 0) {
            Some(HtmlType::Processing)
        } else if r.len() >= 3 && occurs_at(r, "<!"@, 0) && is_alpha(r[2]) {
            Some(HtmlType::Declaration)
        } else if occurs_at(r, "<![CDATA["@, 0) {
            Some(HtmlType::Cdata)
        } else {
            None
        }
    }
}

/// One literal-kind opener test at `p`.
fn lit_tag_open_at(s: &str, p: usize, pat: &str) -> (r: bool)
    requires
        p <= s@.len(),
    ensures
        r == lit_tag_open(s@.skip(p as int), pat@),
{
    let ghost t = s@.skip(p as int);
    if !begins_at(s, p, pat) {
        proof {
            if occurs_at(t, pat@, 0) {
                assert(t.subrange(0, pat@.len() as int) =~= s@.subrange(
                    p as int,
                    p + pat@.len(),
                ));
            }
        }
        return false;
    }
    proof {
        assert(t.subrange(0, pat@.len() as int) =~= s@.subrange(p as int, p + pat@.len()));
    }
    let m = pat.unicode_len();
    let n = s.unicode_len();
    if p + m == n {
        return true;
    }
    let c = s.get_char(p + m);
    proof {
        assert(t[m as int] == s@[p + m]);
    }
    c == ' ' || c == '>'
}

pub fn html_1_5(s: &str, pos: usize) -> (r: Option<HtmlType>)
    requires
        pos <= s@.len(),
    ensures
        r == html15_kind(s@.skip(pos as int)),
{
    proof {
        reveal_strlit("<pre");
        reveal_strlit("<script");
        reveal_strlit("<style");
        reveal_strlit("<textarea");
        reveal_strlit("<!--");
        reveal_strlit("<?");
        reveal_strlit("<!");
        reveal_strlit("<![CDATA[");
    }
    let ghost l = s@.skip(pos as int);
    let n = s.unicode_len();
    let sp = count_char(s, pos, ' ');
    if sp > 3 {
        return None;
    }
    let p = pos + sp;
    let ghost t = l.skip(sp as int);
    proof {
        assert(t =~= s@.skip(p as int));
    }
    if lit_tag_open_at(s, p, "<pre") || lit_tag_open_at(s, p, "<script") || lit_tag_open_at(
        s,
        p,
        "<style",
    ) || lit_tag_open_at(s, p, "<textarea") {
        return Some(HtmlType::Literal);
    }
    if begins_at(s, p, "<!--") {
        proof {
            assert(t.subrange(0, 4) =~= s@.subrange(p as int, p + 4));
        }
        return Some(HtmlType::Comment);
    }
    proof {
        if occurs_at(t, "<!--"@, 0) {
            assert(t.subrange(0, "<!--"@.len() as int) =~= s@.subrange(
                p as int,
                p + "<!--"@.len(),
            ));
        }
    }
    if begins_at(s, p, "<?") {
        proof {
            assert(t.subrange(0, 2) =~= s@.subrange(p as int, p + 2));
        }
        return Some(HtmlType::Processing);
    }
    proof {
        if occurs_at(t, "<?"@, 0) {
            assert(t.subrange(0, "<?"@.len() as int) =~= s@.subrange(p as int, p + "<?"@.len()));
        }
    }
    if begins_at(s, p, "<!") && p + 2 < n {
        let c = s.get_char(p + 2);
        proof {
            assert(t.subrange(0, 2) =~= s@.subrange(p as int, p + 2));
            assert(t[2] == s@[p + 2]);
        }
        if ('a' <= c && c <= 'z') || ('A' <= c && c <= 'Z') {
            return Some(HtmlType::Declaration);
        }
    }
    proof {
        if occurs_at(t, "<!"@, 0) {
            assert(t.subrange(0, "<!"@.len() as int) =~= s@.subrange(p as int, p + "<!"@.len()));
        }
        if t.len() >= 3 {
        }
    }
    if begins_at(s, p, "<![CDATA[") {
        proof {
            assert(t.subrange(0, 9) =~= s@.subrange(p as int, p + 9));
        }
        return Some(HtmlType::Cdata);
    }
    proof {
        if occurs_at(t, "<![CDATA["@, 0) {
            assert(t.subrange(0, "<![CDATA["@.len() as int) =~= s@.subrange(
                p as int,
                p + "<![CDATA["@.len(),
            ));
        }
    }
    None
}

/// HTML block kind six: an opening or closing tag with a name from the
/// block-level list, followed by a space, `>`, `/>`, or the end of line.
pub open spec fn html6_match(l: Seq<char>) -> bool {
    let sp = run_len(l, ch_fn(' '));
    if sp <= 3 && sp < l.len() && l[sp] == '<' {
        let r = l.skip(sp);
        let j: int = if r.len() >= 2 && r[1] == '/' {
            2
        } else {
            1
        };
        let m = run_len(r.skip(j), alnum_fn());
        m >= 1 && is_block_tag(lower_seq(r.subrange(j, j + m))) && html6_follow(r, j + m)
    } else {
        false
    }
}

pub open spec fn html6_follow(r: Seq<char>, k: int) -> bool {
    ||| k == r.len()
    ||| r[k] == ' '
    ||| r[k] == '>'
    ||| (r[k] == '/' && k + 1 < r.len() && r[k + 1] == '>')
}

/// Executable run counter for tag-name characters.
pub fn count_alnum(s: &str, from: usize) -> (r: usize)
    requires
        from <= s@.len(),
    ensures
        r == run_len(s@.skip(from as int), alnum_fn()),
        from + r <= s@.len(),
{
    let ghost t = s@.skip(from as int);
    let n = s.unicode_len();
    let mut i: usize = from;
    loop
        invariant
            from <= i <= n,
            n == s@.len(),
            t == s@.skip(from as int),
            forall|j: int| 0 <= j < i - from ==> alnum_fn()(t[j]),
        decreases n - i,
    {
        if i == n {
            proof {
                crate::chars::lemma_run_len_unique(t, alnum_fn(), i - from);
            }
            return i - from;
        }
        let c = s.get_char(i);
        proof {
            assert(t[i - from] == s@[i as int]);
        }
        if !(('a' <= c && c <= 'z') || ('A' <= c && c <= 'Z') || ('0' <= c && c <= '9')) {
            proof {
                crate::chars::lemma_run_len_unique(t, alnum_fn(), i - from);
            }
            return i - from;
        }
        i = i + 1;
    }
}

#[verifier::rlimit(100)]
pub fn html_6(s: &str, pos: usize) -> (r: bool)
    requires
        pos <= s@.len(),
    ensures
        r == html6_match(s@.skip(pos as int)),
{
    let ghost l = s@.skip(pos as int);
    let n = s.unicode_len();
    let sp = count_char(s, pos, ' ');
    if sp > 3 || pos + sp == n {
        return false;
    }
    let p = pos + sp;
    let ghost rr = l.skip(sp as int);
    proof {
        assert(rr =~= s@.skip(p as int));
    }
    let c = s.get_char(p);
    proof {
        assert(rr[0] == s@[p as int]);
    }
    if c != '<' {
        return false;
    }
    let j: usize = if p + 1 < n {
        let c2 = s.get_char(p + 1);
        proof {
            assert(rr[1] == s@[p + 1]);
        }
        if c2 == '/' {
            2
        } else {
            1
        }
    } else {
        1
    };
    proof {
        if rr.len() < 2 {
            assert(run_len(rr.skip(1), alnum_fn()) == 0);
        }
    }
    let m = count_alnum(s, p + j);
    proof {
        assert(rr.skip(j as int) =~= s@.skip(p + j));
    }
    if m < 1 {
        return false;
    }
    let intag = block_tag_in_range(s, p + j, p + j + m);
    proof {
        assert(rr.subrange(j as int, j + m) =~= s@.subrange(p + j, p + j + m));
    }
    if !intag {
        return false;
    }
    let k = p + j + m;
    if k == n {
        return true;
    }
    let fc = s.get_char(k);
    proof {
        assert(rr[k - p] == s@[k as int]);
    }
    if fc == ' ' || fc == '>' {
        return true;
    }
    if fc == '/' && k + 1 < n {
        let fc2 = s.get_char(k + 1);
        proof {
            assert(rr[k + 1 - p] == s@[k + 1]);
        }
        if fc2 == '>' {
            return true;
        }
    }
    false
}


/// Characters of a tag name after its leading letter.
pub open spec fn name_char(c: char) -> bool {
    is_alnum(c) || c == '-'
}

pub open spec fn name_fn() -> spec_fn(char) -> bool {
    |c: char| name_char(c)
}

/// First character of an attribute name.
pub open spec fn attr_start_char(c: char) -> bool {
    is_alpha(c) || c == '_' || c == ':'
}

/// Later characters of an attribute name.
pub open spec fn attr_char(c: char) -> bool {
    attr_start_char(c) || is_digit(c) || c == '.' || c == '-'
}

pub open spec fn attr_fn() -> spec_fn(char) -> bool {
    |c: char| attr_char(c)
}

/// Characters allowed in an unquoted attribute value.
pub open spec fn uq_char(c: char) -> bool {
    !(c == ' ' || c == '"' || c == '\'' || c == '=' || c == '<' || c == '>' || c == '`')
}

pub open spec fn uq_fn() -> spec_fn(char) -> bool {
    |c: char| uq_char(c)
}

pub open spec fn not_ch_fn(q: char) -> spec_fn(char) -> bool {
    |c: char| c != q
}

/// Position after an attribute value starting at `i`, or -1 when no
/// well-formed value stands there.
pub open spec fn scan_value(l: Seq<char>, i: int) -> int {
    if i < 0 || i > l.len() {
        -1
    } else if i < l.len() && l[i] == '\'' {
        let q = run_len(l.skip(i + 1), not_ch_fn('\''));
        if i + 1 + q < l.len() {
            i + 2 + q
        } else {
            -1
        }
    } else if i < l.len() && l[i] == '"' {
        let q = run_len(l.skip(i + 1), not_ch_fn('"'));
        if i + 1 + q < l.len() {
            i + 2 + q
        } else {
            -1
        }
    } else {
        let u = run_len(l.skip(i), uq_fn());
        if u >= 1 {
            i + u
        } else {
            -1
        }
    }
}

pub proof fn lemma_scan_value_bounds(l: Seq<char>, i: int)
    requires
        0 <= i <= l.len(),
    ensures
        scan_value(l, i) == -1 || (i < scan_value(l, i) <= l.len()),
{
    if i < l.len() && l[i] == '\'' {
        lemma_run_len(l.skip(i + 1), not_ch_fn('\''));
    } else if i < l.len() && l[i] == '"' {
        lemma_run_len(l.skip(i + 1), not_ch_fn('"'));
    } else {
        lemma_run_len(l.skip(i), uq_fn());
    }
}

/// Position after the attribute list starting at `i`, or -1 when an
/// attribute begins but is malformed.  Spaces that do not lead into an
/// attribute are left unconsumed.
pub open spec fn scan_attrs(l: Seq<char>, i: int) -> int
    decreases l.len() - i
        via scan_attrs_dec
{
    if i < 0 || i > l.len() {
        -1
    } else {
        let j = i + run_len(l.skip(i), ch_fn(' '));
        if j < l.len() && attr_start_char(l[j]) {
            let k = j + 1 + run_len(l.skip(j + 1), attr_fn());
            let j2 = k + run_len(l.skip(k), ch_fn(' '));
            if j2 < l.len() && l[j2] == '=' {
                let j3 = j2 + 1 + run_len(l.skip(j2 + 1), ch_fn(' '));
                let v = scan_value(l, j3);
                if v == -1 {
                    -1
                } else {
                    scan_attrs(l, v)
                }
            } else {
                scan_attrs(l, k)
            }
        } else {
            i
        }
    }
}

#[via_fn]
proof fn scan_attrs_dec(l: Seq<char>, i: int) {
    if 0 <= i <= l.len() {
        lemma_run_len(l.skip(i), ch_fn(' '));
        let j = i + run_len(l.skip(i), ch_fn(' '));
        if j < l.len() && attr_start_char(l[j]) {
            lemma_run_len(l.skip(j + 1), attr_fn());
            let k = j + 1 + run_len(l.skip(j + 1), attr_fn());
            lemma_run_len(l.skip(k), ch_fn(' '));
            let j2 = k + run_len(l.skip(k), ch_fn(' '));
            if j2 < l.len() && l[j2] == '=' {
                lemma_run_len(l.skip(j2 + 1), ch_fn(' '));
                let j3 = j2 + 1 + run_len(l.skip(j2 + 1), ch_fn(' '));
                lemma_scan_value_bounds(l, j3);
            }
        }
    }
}

pub proof fn lemma_scan_attrs_bounds(l: Seq<char>, i: int)
    requires
        0 <= i <= l.len(),
    ensures
        scan_attrs(l, i) == -1 || (i <= scan_attrs(l, i) <= l.len()),
    decreases l.len() - i,
{
    lemma_run_len(l.skip(i), ch_fn(' '));
    let j = i + run_len(l.skip(i), ch_fn(' '));
    if j < l.len() && attr_start_char(l[j]) {
        lemma_run_len(l.skip(j + 1), attr_fn());
        let k = j + 1 + run_len(l.skip(j + 1), attr_fn());
        lemma_run_len(l.skip(k), ch_fn(' '));
        let j2 = k + run_len(l.skip(k), ch_fn(' '));
        if j2 < l.len() && l[j2] == '=' {
            lemma_run_len(l.skip(j2 + 1), ch_fn(' '));
            let j3 = j2 + 1 + run_len(l.skip(j2 + 1), ch_fn(' '));
            lemma_scan_value_bounds(l, j3);
            let v = scan_value(l, j3);
            if v != -1 {
                lemma_scan_attrs_bounds(l, v);
            }
        } else {
            lemma_scan_attrs_bounds(l, k);
        }
    }
}

/// Only spaces and tabs from `k` to the end.
pub open spec fn tail_st(l: Seq<char>, k: int) -> bool {
    forall|i: int| k <= i < l.len() ==> is_space_tab(l[i])
}

/// A complete closing tag, with optional trailing spaces and tabs.
pub open spec fn html7_close(l: Seq<char>) -> bool {
    l.len() >= 3 && is_alpha(l[2]) && {
        let j = 3 + run_len(l.skip(3), name_fn());
        let b = j + run_len(l.skip(j), ch_fn(' '));
        b < l.len() && l[b] == '>' && tail_st(l, b + 1)
    }
}

/// A complete opening tag with optional attributes, with optional
/// trailing spaces and tabs.
pub open spec fn html7_open_m(l: Seq<char>) -> bool {
    let j = 2 + run_len(l.skip(2), name_fn());
    let a = scan_attrs(l, j);
    a != -1 && {
        let b = a + run_len(l.skip(a), ch_fn(' '));
        let b2: int = if b < l.len() && l[b] == '/' {
            b + 1
        } else {
            b
        };
        b2 < l.len() && l[b2] == '>' && tail_st(l, b2 + 1)
    }
}

/// HTML block kind seven: the whole line is one well-formed open or
/// close tag, at the very start of the line.
pub open spec fn html7_match(l: Seq<char>) -> bool {
    if l.len() >= 2 && l[0] == '<' && l[1] == '/' {
        html7_close(l)
    } else if l.len() >= 2 && l[0] == '<' && is_alpha(l[1]) {
        html7_open_m(l)
    } else {
        false
    }
}

/// Executable run counter for tag-name characters with dashes.
pub fn count_name(s: &str, from: usize) -> (r: usize)
    requires
        from <= s@.len(),
    ensures
        r == run_len(s@.skip(from as int), name_fn()),
        from + r <= s@.len(),
{
    let ghost t = s@.skip(from as int);
    let n = s.unicode_len();
    let mut i: usize = from;
    loop
        invariant
            from <= i <= n,
            n == s@.len(),
            t == s@.skip(from as int),
            forall|j: int| 0 <= j < i - from ==> name_fn()(t[j]),
        decreases n - i,
    {
        if i == n {
            proof {
                crate::chars::lemma_run_len_unique(t, name_fn(), i - from);
            }
            return i - from;
        }
        let c = s.get_char(i);
        proof {
            assert(t[i - from] == s@[i as int]);
        }
        if !(('a' <= c && c <= 'z') || ('A' <= c && c <= 'Z') || ('0' <= c && c <= '9') || c == '-') {
            proof {
                crate::chars::lemma_run_len_unique(t, name_fn(), i - from);
            }
            return i - from;
        }
        i = i + 1;
    }
}

/// Executable run counter for attribute-name characters.
pub fn count_attr(s: &str, from: usize) -> (r: usize)
    requires
        from <= s@.len(),
    ensures
        r == run_len(s@.skip(from as int), attr_fn()),
        from + r <= s@.len(),
{
    let ghost t = s@.skip(from as int);
    let n = s.unicode_len();
    let mut i: usize = from;
    loop
        invariant
            from <= i <= n,
            n == s@.len(),
            t == s@.skip(from as int),
            forall|j: int| 0 <= j < i - from ==> attr_fn()(t[j]),
        decreases n - i,
    {
        if i == n {
            proof {
                crate::chars::lemma_run_len_unique(t, attr_fn(), i - from);
            }
            return i - from;
        }
        let c = s.get_char(i);
        proof {
            assert(t[i - from] == s@[i as int]);
        }
        if !(('a' <= c && c <= 'z') || ('A' <= c && c <= 'Z') || ('0' <= c && c <= '9') || c == '_'
            || c == ':' || c == '.' || c == '-') {
            proof {
                crate::chars::lemma_run_len_unique(t, attr_fn(), i - from);
            }
            return i - from;
        }
        i = i + 1;
    }
}

/// Executable run counter for unquoted-value characters.
pub fn count_uq(s: &str, from: usize) -> (r: usize)
    requires
        from <= s@.len(),
    ensures
        r == run_len(s@.skip(from as int), uq_fn()),
        from + r <= s@.len(),
{
    let ghost t = s@.skip(from as int);
    let n = s.unicode_len();
    let mut i: usize = from;
    loop
        invariant
            from <= i <= n,
            n == s@.len(),
            t == s@.skip(from as int),
            forall|j: int| 0 <= j < i - from ==> uq_fn()(t[j]),
        decreases n - i,
    {
        if i == n {
            proof {
                crate::chars::lemma_run_len_unique(t, uq_fn(), i - from);
            }
            return i - from;
        }
        let c = s.get_char(i);
        proof {
            assert(t[i - from] == s@[i as int]);
        }
        if c == ' ' || c == '"' || c == '\'' || c == '=' || c == '<' || c == '>' || c == '`' {
            proof {
                crate::chars::lemma_run_len_unique(t, uq_fn(), i - from);
            }
            return i - from;
        }
        i = i + 1;
    }
}

/// Executable run counter for characters other than `q`.
pub fn count_not(s: &str, from: usize, q: char) -> (r: usize)
    requires
        from <= s@.len(),
    ensures
        r == run_len(s@.skip(from as int), not_ch_fn(q)),
        from + r <= s@.len(),
{
    let ghost t = s@.skip(from as int);
    let n = s.unicode_len();
    let mut i: usize = from;
    loop
        invariant
            from <= i <= n,
            n == s@.len(),
            t == s@.skip(from as int),
            forall|j: int| 0 <= j < i - from ==> not_ch_fn(q)(t[j]),
        decreases n - i,
    {
        if i == n {
            proof {
                crate::chars::lemma_run_len_unique(t, not_ch_fn(q), i - from);
            }
            return i - from;
        }
        let c = s.get_char(i);
        proof {
            assert(t[i - from] == s@[i as int]);
        }
        if c == q {
            proof {
                crate::chars::lemma_run_len_unique(t, not_ch_fn(q), i - from);
            }
            return i - from;
        }
        i = i + 1;
    }
}

/// Only spaces and tabs from `k` (absolute) to the end of the line.
fn tail_st_exec(s: &str, k: usize, pos: usize) -> (r: bool)
    requires
        pos <= k <= s@.len(),
    ensures
        r == tail_st(s@.skip(pos as int), k - pos),
{
    let ghost l = s@.skip(pos as int);
    let n = s.unicode_len();
    let mut i: usize = k;
    loop
        invariant
            k <= i <= n,
            n == s@.len(),
            pos <= k,
            l == s@.skip(pos as int),
            forall|j: int| k - pos <= j < i - pos ==> is_space_tab(l[j]),
        decreases n - i,
    {
        if i == n {
            return true;
        }
        let c = s.get_char(i);
        proof {
            assert(l[i - pos] == s@[i as int]);
        }
        if !(c == ' ' || c == '\t') {
            return false;
        }
        i = i + 1;
    }
}

#[verifier::rlimit(100)]
pub fn html_7(s: &str, pos: usize) -> (r: bool)
    requires
        pos <= s@.len(),
    ensures
        r == html7_match(s@.skip(pos as int)),
{
    let ghost l = s@.skip(pos as int);
    let n = s.unicode_len();
    if n - pos < 2 {
        return false;
    }
    let c0 = s.get_char(pos);
    let c1 = s.get_char(pos + 1);
    proof {
        assert(l[0] == s@[pos as int]);
        assert(l[1] == s@[pos + 1]);
    }
    if c0 != '<' {
        return false;
    }
    if c1 == '/' {
        // closing tag
        if pos + 2 == n {
            return false;
        }
        let c2 = s.get_char(pos + 2);
        proof {
            assert(l[2] == s@[pos + 2]);
        }
        if !(('a' <= c2 && c2 <= 'z') || ('A' <= c2 && c2 <= 'Z')) {
            return false;
        }
        let m = count_name(s, pos + 3);
        proof {
            assert(l.skip(3) =~= s@.skip(pos + 3));
        }
        let j = pos + 3 + m;
        let sp = count_char(s, j, ' ');
        proof {
            assert(l.skip(j - pos) =~= s@.skip(j as int));
        }
        let b = j + sp;
        if b == n {
            return false;
        }
        let cb = s.get_char(b);
        proof {
            assert(l[b - pos] == s@[b as int]);
        }
        if cb != '>' {
            return false;
        }
        return tail_st_exec(s, b + 1, pos);
    }
    if !(('a' <= c1 && c1 <= 'z') || ('A' <= c1 && c1 <= 'Z')) {
        return false;
    }
    // opening tag
    let m = count_name(s, pos + 2);
    proof {
        assert(l.skip(2) =~= s@.skip(pos + 2));
    }
    let j0 = pos + 2 + m;
    let ghost ja = j0 - pos;
    let mut i: usize = j0;
    let a: usize;
    loop
        invariant
            pos <= j0 <= i <= n,
            n == s@.len(),
            l == s@.skip(pos as int),
            ja == j0 - pos,
            l.len() >= 2,
            l[0] == '<',
            l[1] != '/',
            crate::chars::is_alpha(l[1]),
            ja == 2 + run_len(l.skip(2), name_fn()),
            scan_attrs(l, ja) == scan_attrs(l, i - pos),
        ensures
            pos <= i <= n,
            n == s@.len(),
            l == s@.skip(pos as int),
            scan_attrs(l, ja) == scan_attrs(l, i - pos),
            ({
                let j = (i - pos) + run_len(l.skip(i - pos), ch_fn(' '));
                !(j < l.len() && attr_start_char(l[j]))
            }),
        decreases n - i,
    {
        let sp1 = count_char(s, i, ' ');
        proof {
            assert(l.skip(i - pos) =~= s@.skip(i as int));
        }
        let jj = i + sp1;
        if jj == n {
            break;
        }
        let ca = s.get_char(jj);
        proof {
            assert(l[jj - pos] == s@[jj as int]);
        }
        if !(('a' <= ca && ca <= 'z') || ('A' <= ca && ca <= 'Z') || ca == '_' || ca == ':') {
            break;
        }
        let an = count_attr(s, jj + 1);
        proof {
            assert(l.skip(jj + 1 - pos) =~= s@.skip(jj + 1));
        }
        let k = jj + 1 + an;
        let sp3 = count_char(s, k, ' ');
        proof {
            assert(l.skip(k - pos) =~= s@.skip(k as int));
        }
        let j2 = k + sp3;
        let mut has_eq = false;
        if j2 < n {
            let ce = s.get_char(j2);
            proof {
                assert(l[j2 - pos] == s@[j2 as int]);
            }
            has_eq = ce == '=';
        }
        if !has_eq {
            i = k;
            continue;
        }
        let sp4 = count_char(s, j2 + 1, ' ');
        proof {
            assert(l.skip(j2 + 1 - pos) =~= s@.skip(j2 + 1));
        }
        let j3 = j2 + 1 + sp4;
        if j3 == n {
            proof {
                assert(run_len(l.skip(j3 - pos), uq_fn()) == 0) by {
                    assert(l.skip(j3 - pos).len() == 0);
                }
            }
            return false;
        }
        let cq = s.get_char(j3);
        proof {
            assert(l[j3 - pos] == s@[j3 as int]);
        }
        if cq == '\'' {
            let qn = count_not(s, j3 + 1, '\'');
            proof {
                assert(l.skip(j3 + 1 - pos) =~= s@.skip(j3 + 1));
            }
            if j3 + 1 + qn == n {
                return false;
            }
            i = j3 + 2 + qn;
        } else if cq == '"' {
            let qn = count_not(s, j3 + 1, '"');
            proof {
                assert(l.skip(j3 + 1 - pos) =~= s@.skip(j3 + 1));
            }
            if j3 + 1 + qn == n {
                return false;
            }
            i = j3 + 2 + qn;
        } else {
            let un = count_uq(s, j3);
            proof {
                assert(l.skip(j3 - pos) =~= s@.skip(j3 as int));
            }
            if un == 0 {
                return false;
            }
            i = j3 + un;
        }
    }
    a = i;
    proof {
        assert(scan_attrs(l, ja) == a - pos);
    }
    let sp5 = count_char(s, a, ' ');
    proof {
        assert(l.skip(a - pos) =~= s@.skip(a as int));
    }
    let b = a + sp5;
    let mut b2 = b;
    if b < n {
        let cs2 = s.get_char(b);
        proof {
            assert(l[b - pos] == s@[b as int]);
        }
        if cs2 == '/' {
            b2 = b + 1;
        }
    }
    if b2 == n {
        return false;
    }
    let cgt = s.get_char(b2);
    proof {
        assert(l[b2 - pos] == s@[b2 as int]);
    }
    if cgt != '>' {
        return false;
    }
    tail_st_exec(s, b2 + 1, pos)
}

/// The text shapes on which each HTML block kind ends.
pub open spec fn end_condition_m(k: HtmlType, l: Seq<char>) -> bool {
    match k {
        HtmlType::Literal => contains_s(l, "</pre>"@) || contains_s(l, "</script>"@)
            || contains_s(l, "</style>"@) || contains_s(l, "</textarea>"@),
        HtmlType::Comment => contains_s(l, "-->"@),
        HtmlType::Processing => contains_s(l, "?>"@),
        HtmlType::Declaration => contains_s(l, ">"@),
        HtmlType::Cdata => contains_s(l, "]]>"@),
        HtmlType::Simple => l.len() == 0,
        HtmlType::Custom => l.len() == 0,
    }
}

pub fn end_condition_met(html: &Html, line: &str) -> (r: bool)
    ensures
        r == end_condition_m(html.html_type, line@),
{
    match html.html_type {
        HtmlType::Literal => contains_sub(line, "</pre>") || contains_sub(line, "</script>")
            || contains_sub(line, "</style>") || contains_sub(line, "</textarea>"),
        HtmlType::Comment => contains_sub(line, "-->"),
        HtmlType::Processing => contains_sub(line, "?>"),
        HtmlType::Declaration => contains_sub(line, ">"),
        HtmlType::Cdata => contains_sub(line, "]]>"),
        HtmlType::Simple => line.unicode_len() == 0,
        HtmlType::Custom => line.unicode_len() == 0,
    }
}

} // verus!
