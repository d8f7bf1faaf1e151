//! Character classification and run counting over lines of text.
//!
//! Every predicate is a spec function over `Seq<char>`, with an executable
//! counterpart proved equal to it.  Lines never contain `'\n'`, but the
//! helpers are total over arbitrary character sequences.

use vstd::prelude::*;
use vstd::string::*;

verus! {

/// Whitespace as the block grammar sees it: the four ASCII whitespace
/// characters.  Other Unicode whitespace (U+00A0, U+000C, ...) counts as
/// text, so a line made of it alone opens a paragraph rather than being
/// blank, and it survives trimming.
pub open spec fn is_ws(c: char) -> bool {
    c == ' ' || c == '\t' || c == '\n' || c == '\r'
}

/// The whitespace predicate as a named closure, so that all uses share one term.
pub open spec fn ws_fn() -> spec_fn(char) -> bool {
    |c: char| is_ws(c)
}

/// The predicate holding exactly on the character `ch`.
pub open spec fn ch_fn(ch: char) -> spec_fn(char) -> bool {
    |c: char| c == ch
}

/// Space or tab, the separators accepted inside block markers.
pub open spec fn is_space_tab(c: char) -> bool {
    c == ' ' || c == '\t'
}

pub open spec fn space_tab_fn() -> spec_fn(char) -> bool {
    |c: char| is_space_tab(c)
}

pub open spec fn is_digit(c: char) -> bool {
    '0' <= c && c <= '9'
}

pub open spec fn digit_fn() -> spec_fn(char) -> bool {
    |c: char| is_digit(c)
}

pub open spec fn is_alpha(c: char) -> bool {
    ('a' <= c && c <= 'z') || ('A' <= c && c <= 'Z')
}

/// Length of the longest prefix of `s` on which `p` holds everywhere.
pub open spec fn run_len(s: Seq<char>, p: spec_fn(char) -> bool) -> int
    decreases s.len(),
{
    if s.len() == 0 || !p(s[0]) {
        0
    } else {
        1 + run_len(s.skip(1), p)
    }
}

/// Length of the longest suffix of `s` on which `p` holds everywhere.
pub open spec fn run_len_end(s: Seq<char>, p: spec_fn(char) -> bool) -> int
    decreases s.len(),
{
    if s.len() == 0 || !p(s.last()) {
        0
    } else {
        1 + run_len_end(s.drop_last(), p)
    }
}

pub proof fn lemma_run_len(s: Seq<char>, p: spec_fn(char) -> bool)
    ensures
        0 <= run_len(s, p) <= s.len(),
        forall|i: int| 0 <= i < run_len(s, p) ==> p(s[i]),
        run_len(s, p) < s.len() ==> !p(s[run_len(s, p)]),
    decreases s.len(),
{
    if s.len() != 0 && p(s[0]) {
        lemma_run_len(s.skip(1), p);
        let r = run_len(s, p);
        assert forall|i: int| 0 <= i < r implies p(s[i]) by {
            if i > 0 {
                assert(s.skip(1)[i - 1] == s[i]);
            }
        }
        if r < s.len() {
            assert(s.skip(1)[r - 1] == s[r]);
        }
    }
}

/// A bound that satisfies the run characterisation is the run length.
pub proof fn lemma_run_len_unique(s: Seq<char>, p: spec_fn(char) -> bool, k: int)
    requires
        0 <= k <= s.len(),
        forall|i: int| 0 <= i < k ==> p(s[i]),
        k < s.len() ==> !p(s[k]),
    ensures
        k == run_len(s, p),
{
    lemma_run_len(s, p);
}

pub proof fn lemma_run_len_end(s: Seq<char>, p: spec_fn(char) -> bool)
    ensures
        0 <= run_len_end(s, p) <= s.len(),
        forall|i: int| s.len() - run_len_end(s, p) <= i < s.len() ==> p(s[i]),
        run_len_end(s, p) < s.len() ==> !p(s[s.len() - run_len_end(s, p) - 1]),
    decreases s.len(),
{
    if s.len() != 0 && p(s.last()) {
        lemma_run_len_end(s.drop_last(), p);
        let r = run_len_end(s, p);
        assert forall|i: int| s.len() - r <= i < s.len() implies p(s[i]) by {
            if i < s.len() - 1 {
                assert(s.drop_last()[i] == s[i]);
            }
        }
        if r < s.len() {
            assert(s.drop_last()[s.len() - r - 1] == s[s.len() - r - 1]);
        }
    }
}

pub proof fn lemma_run_len_end_unique(s: Seq<char>, p: spec_fn(char) -> bool, k: int)
    requires
        0 <= k <= s.len(),
        forall|i: int| s.len() - k <= i < s.len() ==> p(s[i]),
        k < s.len() ==> !p(s[s.len() - k - 1]),
    ensures
        k == run_len_end(s, p),
{
    lemma_run_len_end(s, p);
    let r = run_len_end(s, p);
    if k < r {
        assert(!p(s[s.len() - k - 1]));
        assert(p(s[s.len() - k - 1]));
    }
    if r < k {
        assert(!p(s[s.len() - r - 1]));
        assert(p(s[s.len() - r - 1]));
    }
}

/// The remainder of `s` from `from` on is entirely whitespace.
pub open spec fn all_ws_from(s: Seq<char>, from: int) -> bool {
    forall|i: int| from <= i < s.len() ==> is_ws(s[i])
}

/// `s` with leading whitespace removed.
pub open spec fn trim_start_s(s: Seq<char>) -> Seq<char> {
    s.skip(run_len(s, ws_fn()))
}

/// `s` with trailing whitespace removed.
pub open spec fn trim_end_s(s: Seq<char>) -> Seq<char> {
    s.take(s.len() - run_len_end(s, ws_fn()))
}

/// `s` with whitespace removed on both sides.
pub open spec fn trim_s(s: Seq<char>) -> Seq<char> {
    trim_end_s(trim_start_s(s))
}

/// Executable run counter for whitespace, from position `from`.
pub fn count_ws(s: &str, from: usize) -> (r: usize)
    requires
        from <= s@.len(),
    ensures
        r == run_len(s@.skip(from as int), ws_fn()),
        from + r <= s@.len(),
{
    let ghost t = s@.skip(from as int);
    let n = s.unicode_len();
    let mut i: usize = from;
    loop
        invariant
            from <= i <= n,
            n == s@.len(),
            t == s@.skip(from as int),
            forall|j: int| 0 <= j < i - from ==> ws_fn()(t[j]),
        decreases n - i,
    {
        if i == n {
            proof {
                lemma_run_len_unique(t, ws_fn(), i - from);
            }
            return i - from;
        }
        let c = s.get_char(i);
        proof {
            assert(t[i - from] == s@[i as int]);
        }
        if !(c == ' ' || c == '\t' || c == '\n' || c == '\r') {
            proof {
                lemma_run_len_unique(t, ws_fn(), i - from);
            }
            return i - from;
        }
        i = i + 1;
    }
}

/// Executable run counter for a single character, from position `from`.
pub fn count_char(s: &str, from: usize, ch: char) -> (r: usize)
    requires
        from <= s@.len(),
    ensures
        r == run_len(s@.skip(from as int), ch_fn(ch)),
        from + r <= s@.len(),
{
    let ghost t = s@.skip(from as int);
    let n = s.unicode_len();
    let mut i: usize = from;
    loop
        invariant
            from <= i <= n,
            n == s@.len(),
            t == s@.skip(from as int),
            forall|j: int| 0 <= j < i - from ==> ch_fn(ch)(t[j]),
        decreases n - i,
    {
        if i == n {
            proof {
                lemma_run_len_unique(t, ch_fn(ch), i - from);
            }
            return i - from;
        }
        let c = s.get_char(i);
        proof {
            assert(t[i - from] == s@[i as int]);
        }
        if c != ch {
            proof {
                lemma_run_len_unique(t, ch_fn(ch), i - from);
            }
            return i - from;
        }
        i = i + 1;
    }
}

/// Executable run counter for spaces and tabs, from position `from`.
pub fn count_space_tab(s: &str, from: usize) -> (r: usize)
    requires
        from <= s@.len(),
    ensures
        r == run_len(s@.skip(from as int), space_tab_fn()),
        from + r <= s@.len(),
{
    let ghost t = s@.skip(from as int);
    let n = s.unicode_len();
    let mut i: usize = from;
    loop
        invariant
            from <= i <= n,
            n == s@.len(),
            t == s@.skip(from as int),
            forall|j: int| 0 <= j < i - from ==> space_tab_fn()(t[j]),
        decreases n - i,
    {
        if i == n {
            proof {
                lemma_run_len_unique(t, space_tab_fn(), i - from);
            }
            return i - from;
        }
        let c = s.get_char(i);
        proof {
            assert(t[i - from] == s@[i as int]);
        }
        if !(c == ' ' || c == '\t') {
            proof {
                lemma_run_len_unique(t, space_tab_fn(), i - from);
            }
            return i - from;
        }
        i = i + 1;
    }
}

/// Executable run counter for decimal digits, from position `from`.
pub fn count_digits(s: &str, from: usize) -> (r: usize)
    requires
        from <= s@.len(),
    ensures
        r == run_len(s@.skip(from as int), digit_fn()),
        from + r <= s@.len(),
{
    let ghost t = s@.skip(from as int);
    let n = s.unicode_len();
    let mut i: usize = from;
    loop
        invariant
            from <= i <= n,
            n == s@.len(),
            t == s@.skip(from as int),
            forall|j: int| 0 <= j < i - from ==> digit_fn()(t[j]),
        decreases n - i,
    {
        if i == n {
            proof {
                lemma_run_len_unique(t, digit_fn(), i - from);
            }
            return i - from;
        }
        let c = s.get_char(i);
        proof {
            assert(t[i - from] == s@[i as int]);
        }
        if !('0' <= c && c <= '9') {
            proof {
                lemma_run_len_unique(t, digit_fn(), i - from);
            }
            return i - from;
        }
        i = i + 1;
    }
}

/// Does the whitespace-only remainder test hold from `from` on?
pub fn blank_from(s: &str, from: usize) -> (r: bool)
    requires
        from <= s@.len(),
    ensures
        r == all_ws_from(s@, from as int),
{
    let ghost t = s@.skip(from as int);
    let n = s.unicode_len();
    let k = count_ws(s, from);
    proof {
        lemma_run_len(t, ws_fn());
        if from + k == s@.len() {
            assert forall|i: int| from <= i < s@.len() implies is_ws(s@[i]) by {
                assert(t[i - from] == s@[i]);
            }
        } else {
            assert(!is_ws(t[k as int]));
            assert(t[k as int] == s@[from + k]);
        }
    }
    from + k == n
}

/// `pat` occurs in `s` starting at position `i`.
pub open spec fn occurs_at(s: Seq<char>, pat: Seq<char>, i: int) -> bool {
    0 <= i && i + pat.len() <= s.len() && s.subrange(i, i + pat.len()) == pat
}

/// `pat` occurs somewhere in `s`.
pub open spec fn contains_s(s: Seq<char>, pat: Seq<char>) -> bool {
    exists|i: int| occurs_at(s, pat, i)
}

/// Compare `s` at position `pos` with `pat` (prefix test).
pub fn begins_at(s: &str, pos: usize, pat: &str) -> (r: bool)
    requires
        pos <= s@.len(),
    ensures
        r == occurs_at(s@, pat@, pos as int),
{
    let m = pat.unicode_len();
    let n = s.unicode_len();
    if pos > n || m > n - pos {
        return false;
    }
    let mut i: usize = 0;
    loop
        invariant
            0 <= i <= m,
            m == pat@.len(),
            n == s@.len(),
            pos + m <= n,
            forall|j: int| 0 <= j < i ==> s@[pos + j] == pat@[j],
        decreases m - i,
    {
        if i == m {
            proof {
                assert(s@.subrange(pos as int, pos + m) =~= pat@);
            }
            return true;
        }
        if s.get_char(pos + i) != pat.get_char(i) {
            proof {
                if occurs_at(s@, pat@, pos as int) {
                    assert(s@.subrange(pos as int, pos + m)[i as int] == s@[pos + i]);
                }
            }
            return false;
        }
        i = i + 1;
    }
}

/// Substring search, used by the HTML block end conditions.
pub fn contains_sub(s: &str, pat: &str) -> (r: bool)
    ensures
        r == contains_s(s@, pat@),
{
    let n = s.unicode_len();
    let m = pat.unicode_len();
    if m > n {
        proof {
            assert forall|i: int| !occurs_at(s@, pat@, i) by {}
        }
        return false;
    }
    if m == 0 {
        proof {
            assert(s@.subrange(0, 0) =~= pat@);
            assert(occurs_at(s@, pat@, 0));
        }
        return true;
    }
    let mut i: usize = 0;
    loop
        invariant
            0 <= i <= n - m + 1,
            n == s@.len(),
            m == pat@.len(),
            1 <= m <= n,
            forall|j: int| 0 <= j < i ==> !occurs_at(s@, pat@, j),
        decreases n - m + 1 - i,
    {
        if i > n - m {
            proof {
                assert forall|j: int| !occurs_at(s@, pat@, j) by {
                    if 0 <= j < i {
                    }
                }
            }
            return false;
        }
        if begins_at(s, i, pat) {
            return true;
        }
        i = i + 1;
    }
}

/// Executable run counter for whitespace at the end of the range
/// `[from, to)`, scanning backwards.
pub fn count_ws_end_range(s: &str, from: usize, to: usize) -> (r: usize)
    requires
        from <= to <= s@.len(),
    ensures
        r == run_len_end(s@.subrange(from as int, to as int), ws_fn()),
        from + r <= to,
{
    let ghost t = s@.subrange(from as int, to as int);
    let mut i: usize = to;
    loop
        invariant
            from <= i <= to,
            to <= s@.len(),
            t == s@.subrange(from as int, to as int),
            forall|j: int| i - from <= j < t.len() ==> ws_fn()(t[j]),
        decreases i,
    {
        if i == from {
            proof {
                lemma_run_len_end_unique(t, ws_fn(), t.len() - (i - from));
            }
            return to - i;
        }
        let c = s.get_char(i - 1);
        proof {
            assert(t[i - 1 - from] == s@[i - 1]);
        }
        if !(c == ' ' || c == '\t' || c == '\n' || c == '\r') {
            proof {
                lemma_run_len_end_unique(t, ws_fn(), t.len() - (i - from));
            }
            return to - i;
        }
        i = i - 1;
    }
}

/// Executable run counter for one character at the end of the range
/// `[from, to)`.
pub fn count_char_end_range(s: &str, from: usize, to: usize, ch: char) -> (r: usize)
    requires
        from <= to <= s@.len(),
    ensures
        r == run_len_end(s@.subrange(from as int, to as int), ch_fn(ch)),
        from + r <= to,
{
    let ghost t = s@.subrange(from as int, to as int);
    let mut i: usize = to;
    loop
        invariant
            from <= i <= to,
            to <= s@.len(),
            t == s@.subrange(from as int, to as int),
            forall|j: int| i - from <= j < t.len() ==> ch_fn(ch)(t[j]),
        decreases i,
    {
        if i == from {
            proof {
                lemma_run_len_end_unique(t, ch_fn(ch), t.len() - (i - from));
            }
            return to - i;
        }
        let c = s.get_char(i - 1);
        proof {
            assert(t[i - 1 - from] == s@[i - 1]);
        }
        if c != ch {
            proof {
                lemma_run_len_end_unique(t, ch_fn(ch), t.len() - (i - from));
            }
            return to - i;
        }
        i = i - 1;
    }
}

/// Executable run counter for whitespace within the range `[from, to)`.
pub fn count_ws_range(s: &str, from: usize, to: usize) -> (r: usize)
    requires
        from <= to <= s@.len(),
    ensures
        r == run_len(s@.subrange(from as int, to as int), ws_fn()),
        from + r <= to,
{
    let ghost t = s@.subrange(from as int, to as int);
    let mut i: usize = from;
    loop
        invariant
            from <= i <= to,
            to <= s@.len(),
            t == s@.subrange(from as int, to as int),
            forall|j: int| 0 <= j < i - from ==> ws_fn()(t[j]),
        decreases to - i,
    {
        if i == to {
            proof {
                lemma_run_len_unique(t, ws_fn(), i - from);
            }
            return i - from;
        }
        let c = s.get_char(i);
        proof {
            assert(t[i - from] == s@[i as int]);
        }
        if !(c == ' ' || c == '\t' || c == '\n' || c == '\r') {
            proof {
                lemma_run_len_unique(t, ws_fn(), i - from);
            }
            return i - from;
        }
        i = i + 1;
    }
}

/// Is `ch` anywhere in the range `[from, to)` of `s`?
pub fn contains_char_range(s: &str, from: usize, to: usize, ch: char) -> (r: bool)
    requires
        from <= to <= s@.len(),
    ensures
        r == (exists|i: int| from <= i < to && s@[i] == ch),
{
    let mut i: usize = from;
    loop
        invariant
            from <= i <= to,
            to <= s@.len(),
            forall|j: int| from <= j < i ==> s@[j] != ch,
        decreases to - i,
    {
        if i == to {
            return false;
        }
        if s.get_char(i) == ch {
            return true;
        }
        i = i + 1;
    }
}

/// The bounds of the range `[from, to)` with whitespace trimmed on both
/// sides.
pub fn trim_range(s: &str, from: usize, to: usize) -> (r: (usize, usize))
    requires
        from <= to <= s@.len(),
    ensures
        from <= r.0 <= r.1 <= to,
        s@.subrange(r.0 as int, r.1 as int) == trim_s(s@.subrange(from as int, to as int)),
{
    let ghost t = s@.subrange(from as int, to as int);
    let lead = count_ws_range(s, from, to);
    let a = from + lead;
    proof {
        lemma_run_len(t, ws_fn());
        assert(trim_start_s(t) =~= s@.subrange(a as int, to as int));
    }
    let tail = count_ws_end_range(s, a, to);
    let b = to - tail;
    proof {
        let u = s@.subrange(a as int, to as int);
        lemma_run_len_end(u, ws_fn());
        assert(trim_end_s(u) =~= s@.subrange(a as int, b as int));
    }
    (a, b)
}

/// How many times `c` occurs in `s`.
pub open spec fn count_eq(s: Seq<char>, c: char) -> int
    decreases s.len(),
{
    if s.len() == 0 {
        0
    } else {
        (if s[0] == c {
            1int
        } else {
            0int
        }) + count_eq(s.skip(1), c)
    }
}

pub proof fn lemma_count_eq_bounds(s: Seq<char>, c: char)
    ensures
        0 <= count_eq(s, c) <= s.len(),
    decreases s.len(),
{
    if s.len() > 0 {
        lemma_count_eq_bounds(s.skip(1), c);
    }
}

/// Executable occurrence counter, from position `from` to the end.
pub fn count_occurrences(s: &str, from: usize, ch: char) -> (r: usize)
    requires
        from <= s@.len(),
    ensures
        r == count_eq(s@.skip(from as int), ch),
{
    let n = s.unicode_len();
    let mut i: usize = from;
    let mut acc: usize = 0;
    proof {
        lemma_count_eq_bounds(s@.skip(from as int), ch);
    }
    loop
        invariant
            from <= i <= n,
            n == s@.len(),
            acc <= i - from,
            acc + count_eq(s@.skip(i as int), ch) == count_eq(s@.skip(from as int), ch),
        decreases n - i,
    {
        if i == n {
            proof {
                assert(s@.skip(i as int).len() == 0);
            }
            return acc;
        }
        let c = s.get_char(i);
        proof {
            assert(s@.skip(i as int)[0] == s@[i as int]);
            assert(s@.skip(i as int).skip(1) =~= s@.skip(i as int + 1));
        }
        if c == ch {
            acc = acc + 1;
        }
        i = i + 1;
    }
}

/// The numeric value of a digit string.
pub open spec fn digits_val(s: Seq<char>) -> int
    decreases s.len(),
{
    if s.len() == 0 {
        0
    } else {
        digits_val(s.drop_last()) * 10 + (s.last() as int - '0' as int)
    }
}

/// Powers of ten, for bounding digit strings.
pub open spec fn p10(k: nat) -> int
    decreases k,
{
    if k == 0 {
        1
    } else {
        10 * p10((k - 1) as nat)
    }
}

pub proof fn lemma_digits_val_bound(s: Seq<char>)
    requires
        forall|i: int| 0 <= i < s.len() ==> is_digit(s[i]),
    ensures
        0 <= digits_val(s) < p10(s.len() as nat),
    decreases s.len(),
{
    if s.len() > 0 {
        lemma_digits_val_bound(s.drop_last());
        assert(is_digit(s.last()));
    }
}

/// Parse the digit run `s[from .. from + count]` as a number; at most nine
/// digits, so the value fits comfortably.
pub fn parse_digits(s: &str, from: usize, count: usize) -> (r: usize)
    requires
        from + count <= s@.len(),
        count <= 9,
        forall|i: int| from <= i < from + count ==> is_digit(s@[i]),
    ensures
        r == digits_val(s@.subrange(from as int, from + count)),
        r < 1000000000,
{
    proof {
        assert(p10(0) == 1);
        assert(p10(1) == 10);
        assert(p10(2) == 100);
        assert(p10(3) == 1000);
        assert(p10(4) == 10000);
        assert(p10(5) == 100000);
        assert(p10(6) == 1000000);
        assert(p10(7) == 10000000);
        assert(p10(8) == 100000000);
        assert(p10(9) == 1000000000);
    }
    let n = s.unicode_len();
    let mut i: usize = 0;
    let mut acc: usize = 0;
    loop
        invariant
            0 <= i <= count,
            count <= 9,
            n == s@.len(),
            from + count <= s@.len(),
            forall|j: int| from <= j < from + count ==> is_digit(s@[j]),
            acc == digits_val(s@.subrange(from as int, from + i)),
            acc < p10(i as nat),
            p10(0) == 1 && p10(1) == 10 && p10(2) == 100 && p10(3) == 1000 && p10(4) == 10000
                && p10(5) == 100000 && p10(6) == 1000000 && p10(7) == 10000000 && p10(8)
                == 100000000 && p10(9) == 1000000000,
        decreases count - i,
    {
        if i == count {
            proof {
                lemma_digits_val_bound(s@.subrange(from as int, from + count));
            }
            return acc;
        }
        let c = s.get_char(from + i);
        proof {
            assert(is_digit(s@[from + i]));
            assert(s@.subrange(from as int, from + i + 1).drop_last() =~= s@.subrange(
                from as int,
                from + i,
            ));
            assert(s@.subrange(from as int, from + i + 1).last() == s@[from + i]);
            assert(p10((i + 1) as nat) == 10 * p10(i as nat));
        }
        let d = (c as u32) - ('0' as u32);
        acc = acc * 10 + (d as usize);
        i = i + 1;
    }
}

/// Take a substring of `s` as an owned string.
pub fn sub_string(s: &str, from: usize, to: usize) -> (r: String)
    requires
        from <= to <= s@.len(),
    ensures
        r@ == s@.subrange(from as int, to as int),
{
    let piece = s.substring_char(from, to);
    piece.to_owned()
}

} // verus!
