//! Splitting a script file into its embedded configuration fragment and its
//! source text.  A leading shebang line is discarded.  The remaining lines
//! are scanned: the first divider line (whitespace and at least three
//! dashes) ends the fragment at once, with the source starting right after
//! the divider's text; otherwise the last line that looks like source code
//! starts the source, and the line itself belongs to the source.
use vstd::prelude::*;

use crate::errors::UserError;
use crate::text::{is_space, is_space_char};

verus! {

// --- line structure over character sequences ---

/// Index of the first newline at or after `i`, or the length.
pub open spec fn line_end(s: Seq<char>, i: int) -> int
    decreases s.len() - i,
{
    if i >= s.len() {
        s.len() as int
    } else if s[i] == '\n' {
        i
    } else {
        line_end(s, i + 1)
    }
}

/// End of the line's text: a carriage return before the newline is not text.
pub open spec fn text_end(s: Seq<char>, i: int) -> int {
    let e = line_end(s, i);
    if e < s.len() && e - 1 >= i && s[e - 1] == '\r' {
        e - 1
    } else {
        e
    }
}

/// Start of the next line: past the newline, or the end of the input.
pub open spec fn next_start(s: Seq<char>, i: int) -> int {
    if line_end(s, i) < s.len() {
        line_end(s, i) + 1
    } else {
        s.len() as int
    }
}

pub proof fn lemma_line_end_bounds(s: Seq<char>, i: int)
    requires
        0 <= i <= s.len(),
    ensures
        i <= line_end(s, i) <= s.len(),
        i <= text_end(s, i) <= s.len(),
        i <= next_start(s, i) <= s.len(),
        i < s.len() ==> i < next_start(s, i),
        text_end(s, i) <= next_start(s, i),
        line_end(s, i) < s.len() ==> s[line_end(s, i)] == '\n',
    decreases s.len() - i,
{
    if i < s.len() && s[i] != '\n' {
        lemma_line_end_bounds(s, i + 1);
    }
}

// --- the divider line: only whitespace and dashes, at least three dashes ---

pub open spec fn dash_count(t: Seq<char>) -> int
    decreases t,
{
    if t.len() == 0 {
        0
    } else {
        dash_count(t.drop_last()) + if t.last() == '-' {
            1int
        } else {
            0int
        }
    }
}

pub open spec fn all_ws_dash(t: Seq<char>) -> bool {
    forall|x: int| 0 <= x < t.len() ==> is_space_char(#[trigger] t[x]) || t[x] == '-'
}

pub open spec fn is_divider(t: Seq<char>) -> bool {
    all_ws_dash(t) && dash_count(t) >= 3
}

// --- marker lines: the left-trimmed text begins like source code ---

/// First index at or after `x` whose character is not whitespace.
pub open spec fn skip_ws(t: Seq<char>, x: int) -> int
    decreases t.len() - x,
{
    if x >= t.len() {
        t.len() as int
    } else if is_space_char(t[x]) {
        skip_ws(t, x + 1)
    } else {
        x
    }
}

pub proof fn lemma_skip_ws_bounds(t: Seq<char>, x: int)
    requires
        0 <= x <= t.len(),
    ensures
        x <= skip_ws(t, x) <= t.len(),
    decreases t.len() - x,
{
    if x < t.len() && is_space_char(t[x]) {
        lemma_skip_ws_bounds(t, x + 1);
    }
}

/// The character at `i`, if any, is `c`.
pub open spec fn at_is(u: Seq<char>, i: int, c: char) -> bool {
    i < u.len() && u[i] == c
}

/// The fixed set of source-code openings: comment openers, attribute
/// openers, and declaration keywords, each with its following delimiter.
pub open spec fn marker_prefix(u: Seq<char>) -> bool {
    (at_is(u, 0, '/') && at_is(u, 1, '/')) || (at_is(u, 0, '/') && at_is(u, 1, '*')) || (at_is(
        u,
        0,
        '#',
    ) && at_is(u, 1, '!') && at_is(u, 2, '[')) || (at_is(u, 0, '#') && at_is(u, 1, '[')) || (at_is(
        u,
        0,
        'p',
    ) && at_is(u, 1, 'u') && at_is(u, 2, 'b') && at_is(u, 3, ' ')) || (at_is(u, 0, 'e') && at_is(
        u,
        1,
        'x',
    ) && at_is(u, 2, 't') && at_is(u, 3, 'e') && at_is(u, 4, 'r') && at_is(u, 5, 'n') && at_is(
        u,
        6,
        ' ',
    )) || (at_is(u, 0, 'u') && at_is(u, 1, 's') && at_is(u, 2, 'e') && at_is(u, 3, ' ')) || (at_is(
        u,
        0,
        'm',
    ) && at_is(u, 1, 'o') && at_is(u, 2, 'd') && at_is(u, 3, ' ')) || (at_is(u, 0, 't') && at_is(
        u,
        1,
        'y',
    ) && at_is(u, 2, 'p') && at_is(u, 3, 'e') && at_is(u, 4, ' ')) || (at_is(u, 0, 's') && at_is(
        u,
        1,
        't',
    ) && at_is(u, 2, 'r') && at_is(u, 3, 'u') && at_is(u, 4, 'c') && at_is(u, 5, 't') && at_is(
        u,
        6,
        ' ',
    )) || (at_is(u, 0, 'e') && at_is(u, 1, 'n') && at_is(u, 2, 'u') && at_is(u, 3, 'm') && at_is(
        u,
        4,
        ' ',
    )) || (at_is(u, 0, 'f') && at_is(u, 1, 'n') && at_is(u, 2, ' ')) || (at_is(u, 0, 'i') && at_is(
        u,
        1,
        'm',
    ) && at_is(u, 2, 'p') && at_is(u, 3, 'l') && (at_is(u, 4, ' ') || at_is(u, 4, '<'))) || (at_is(
        u,
        0,
        's',
    ) && at_is(u, 1, 't') && at_is(u, 2, 'a') && at_is(u, 3, 't') && at_is(u, 4, 'i') && at_is(
        u,
        5,
        'c',
    ) && at_is(u, 6, ' ')) || (at_is(u, 0, 'c') && at_is(u, 1, 'o') && at_is(u, 2, 'n') && at_is(
        u,
        3,
        's',
    ) && at_is(u, 4, 't') && at_is(u, 5, ' '))
}

pub open spec fn is_marker_line(t: Seq<char>) -> bool {
    marker_prefix(t.skip(skip_ws(t, 0)))
}

/// A shebang line: `#!` not followed by `[`.
pub open spec fn is_shebang(t: Seq<char>) -> bool {
    at_is(t, 0, '#') && at_is(t, 1, '!') && !at_is(t, 2, '[')
}

/// Where the scanned part begins: after a shebang line, else at the start.
pub open spec fn body_start(s: Seq<char>) -> int {
    if is_shebang(s.subrange(0, text_end(s, 0))) {
        next_start(s, 0)
    } else {
        0
    }
}

/// The scan over lines from `i` on.  A divider ends it at once: the
/// fragment ends at the divider's line start and the source starts at the
/// end of its text.  Otherwise the last marker line, if any, is both the
/// fragment's end and the source's start.
pub open spec fn scan_from(s: Seq<char>, i: int, last: Option<int>) -> Option<(int, int)>
    decreases s.len() - i,
    via scan_from_dec
{
    if i < 0 {
        None
    } else if i >= s.len() {
        match last {
            Some(m) => Some((m, m)),
            None => None,
        }
    } else {
        let te = text_end(s, i);
        let line = s.subrange(i, te);
        if is_divider(line) {
            Some((i, te))
        } else if is_marker_line(line) {
            scan_from(s, next_start(s, i), Some(i))
        } else {
            scan_from(s, next_start(s, i), last)
        }
    }
}

#[via_fn]
proof fn scan_from_dec(s: Seq<char>, i: int, last: Option<int>) {
    if 0 <= i && i < s.len() {
        lemma_line_end_bounds(s, i);
    }
}

/// Where a file's content splits: the start of the kept part, the end of
/// the configuration fragment, and the start of the source text; `None`
/// when no line looks like source.
pub open spec fn spec_split_file(s: Seq<char>) -> Option<(int, int, int)> {
    match scan_from(s, body_start(s), None) {
        Some(p) => Some((body_start(s), p.0, p.1)),
        None => None,
    }
}

// --- executable helpers ---

/// Finds the end of the line's text and the start of the next line.
fn scan_line(s: &str, i: usize, n: usize) -> (r: (usize, usize))
    requires
        i <= n,
        n == s@.len(),
    ensures
        r.0 == text_end(s@, i as int),
        r.1 == next_start(s@, i as int),
        i <= r.0 <= n,
        r.1 <= n,
        i < n ==> i < r.1,
{
    let mut j = i;
    while j < n && s.get_char(j) != '\n'
        invariant
            i <= j <= n,
            n == s@.len(),
            line_end(s@, i as int) == line_end(s@, j as int),
        decreases n - j,
    {
        j = j + 1;
    }
    proof {
        assert(line_end(s@, i as int) == j);
        lemma_line_end_bounds(s@, i as int);
    }
    let te: usize = if j < n && j > i && s.get_char(j - 1) == '\r' {
        j - 1
    } else {
        j
    };
    let nx: usize = if j < n {
        j + 1
    } else {
        n
    };
    (te, nx)
}

/// Decides whether the line `[i, te)` is a divider.
fn check_divider(s: &str, i: usize, te: usize) -> (r: bool)
    requires
        i <= te <= s@.len(),
    ensures
        r == is_divider(s@.subrange(i as int, te as int)),
{
    let ghost t = s@.subrange(i as int, te as int);
    let mut k = i;
    let mut dashes: usize = 0;
    while k < te
        invariant
            i <= k <= te <= s@.len(),
            t == s@.subrange(i as int, te as int),
            dashes == dash_count(t.take(k - i)),
            dashes <= k - i,
            forall|x: int| 0 <= x < k - i ==> is_space_char(#[trigger] t[x]) || t[x] == '-',
        decreases te - k,
    {
        let c = s.get_char(k);
        proof {
            assert(t[k - i] == s@[k as int]);
        }
        if c == '-' {
            proof {
                assert(t.take(k - i + 1).drop_last() =~= t.take(k - i));
                assert(t.take(k - i + 1).last() == t[k - i]);
            }
            dashes = dashes + 1;
        } else if is_space(c) {
            proof {
                assert(t.take(k - i + 1).drop_last() =~= t.take(k - i));
                assert(t.take(k - i + 1).last() == t[k - i]);
            }
        } else {
            proof {
                assert(!(is_space_char(t[k - i]) || t[k - i] == '-'));
            }
            return false;
        }
        k = k + 1;
    }
    proof {
        assert(t.take(te - i) =~= t);
        assert(all_ws_dash(t));
    }
    dashes >= 3
}

/// The first non-whitespace position in `[i, te)`, or `te`.
fn find_trim(s: &str, i: usize, te: usize) -> (r: usize)
    requires
        i <= te <= s@.len(),
    ensures
        i <= r <= te,
        r - i == skip_ws(s@.subrange(i as int, te as int), 0),
{
    let ghost t = s@.subrange(i as int, te as int);
    let mut k = i;
    while k < te && is_space(s.get_char(k))
        invariant
            i <= k <= te <= s@.len(),
            t == s@.subrange(i as int, te as int),
            skip_ws(t, 0) == skip_ws(t, k - i),
        decreases te - k,
    {
        proof {
            assert(t[k - i] == s@[k as int]);
            assert(skip_ws(t, k - i) == skip_ws(t, k - i + 1));
        }
        k = k + 1;
    }
    proof {
        if k < te {
            assert(t[k - i] == s@[k as int]);
        }
        assert(skip_ws(t, k - i) == k - i);
    }
    k
}

/// Whether the character at offset `off` of `[j, te)` is `c`.
fn has_at(s: &str, j: usize, te: usize, off: usize, c: char) -> (r: bool)
    requires
        j <= te <= s@.len(),
    ensures
        r == at_is(s@.subrange(j as int, te as int), off as int, c),
{
    if off < te - j {
        proof {
            assert(s@.subrange(j as int, te as int)[off as int] == s@[j + off]);
        }
        s.get_char(j + off) == c
    } else {
        false
    }
}

/// Whether the text starting at `j` (already left-trimmed) opens like code.
fn marker_at(s: &str, j: usize, te: usize) -> (r: bool)
    requires
        j <= te <= s@.len(),
    ensures
        r == marker_prefix(s@.subrange(j as int, te as int)),
{
    (has_at(s, j, te, 0, '/') && has_at(s, j, te, 1, '/')) || (has_at(s, j, te, 0, '/') && has_at(
        s,
        j,
        te,
        1,
        '*',
    )) || (has_at(s, j, te, 0, '#') && has_at(s, j, te, 1, '!') && has_at(s, j, te, 2, '['))
        || (has_at(s, j, te, 0, '#') && has_at(s, j, te, 1, '[')) || (has_at(s, j, te, 0, 'p')
        && has_at(s, j, te, 1, 'u') && has_at(s, j, te, 2, 'b') && has_at(s, j, te, 3, ' ')) || (
    has_at(s, j, te, 0, 'e') && has_at(s, j, te, 1, 'x') && has_at(s, j, te, 2, 't') && has_at(
        s,
        j,
        te,
        3,
        'e',
    ) && has_at(s, j, te, 4, 'r') && has_at(s, j, te, 5, 'n') && has_at(s, j, te, 6, ' ')) || (
    has_at(s, j, te, 0, 'u') && has_at(s, j, te, 1, 's') && has_at(s, j, te, 2, 'e') && has_at(
        s,
        j,
        te,
        3,
        ' ',
    )) || (has_at(s, j, te, 0, 'm') && has_at(s, j, te, 1, 'o') && has_at(s, j, te, 2, 'd')
        && has_at(s, j, te, 3, ' ')) || (has_at(s, j, te, 0, 't') && has_at(s, j, te, 1, 'y')
        && has_at(s, j, te, 2, 'p') && has_at(s, j, te, 3, 'e') && has_at(s, j, te, 4, ' ')) || (
    has_at(s, j, te, 0, 's') && has_at(s, j, te, 1, 't') && has_at(s, j, te, 2, 'r') && has_at(
        s,
        j,
        te,
        3,
        'u',
    ) && has_at(s, j, te, 4, 'c') && has_at(s, j, te, 5, 't') && has_at(s, j, te, 6, ' ')) || (
    has_at(s, j, te, 0, 'e') && has_at(s, j, te, 1, 'n') && has_at(s, j, te, 2, 'u') && has_at(
        s,
        j,
        te,
        3,
        'm',
    ) && has_at(s, j, te, 4, ' ')) || (has_at(s, j, te, 0, 'f') && has_at(s, j, te, 1, 'n')
        && has_at(s, j, te, 2, ' ')) || (has_at(s, j, te, 0, 'i') && has_at(s, j, te, 1, 'm')
        && has_at(s, j, te, 2, 'p') && has_at(s, j, te, 3, 'l') && (has_at(s, j, te, 4, ' ')
        || has_at(s, j, te, 4, '<'))) || (has_at(s, j, te, 0, 's') && has_at(s, j, te, 1, 't')
        && has_at(s, j, te, 2, 'a') && has_at(s, j, te, 3, 't') && has_at(s, j, te, 4, 'i')
        && has_at(s, j, te, 5, 'c') && has_at(s, j, te, 6, ' ')) || (has_at(s, j, te, 0, 'c')
        && has_at(s, j, te, 1, 'o') && has_at(s, j, te, 2, 'n') && has_at(s, j, te, 3, 's')
        && has_at(s, j, te, 4, 't') && has_at(s, j, te, 5, ' '))
}

/// Splits a script file's content into the embedded configuration fragment
/// and the source text, as `spec_split_file` describes; fails when no line
/// looks like source.
pub fn split_file(content: &str) -> (r: Result<(String, String), UserError>)
    ensures
        match spec_split_file(content@) {
            Some(p) => r matches Ok(q) && q.0@ == content@.subrange(p.0, p.1) && q.1@
                == content@.subrange(p.2, content@.len() as int),
            None => r matches Err(e) && e is NoSourceFound,
        },
{
    let n = content.unicode_len();
    // Discard a shebang line, if present.
    let b: usize = if n > 0 {
        let (te0, nx0) = scan_line(content, 0, n);
        let sb = has_at(content, 0, te0, 0, '#') && has_at(content, 0, te0, 1, '!') && !has_at(
            content,
            0,
            te0,
            2,
            '[',
        );
        if sb {
            nx0
        } else {
            0
        }
    } else {
        0
    };
    proof {
        if n == 0 {
            assert(!is_shebang(content@.subrange(0, text_end(content@, 0))));
        }
        assert(b == body_start(content@));
        lemma_line_end_bounds(content@, 0);
    }
    let mut i = b;
    let mut last_marker: Option<usize> = None;
    let ghost mut lm: Option<int> = None;
    while i < n
        invariant
            b <= i <= n,
            n == content@.len(),
            b == body_start(content@),
            match last_marker {
                Some(m) => lm == Some(m as int) && b <= m && m <= n,
                None => lm is None,
            },
            scan_from(content@, b as int, None) == scan_from(content@, i as int, lm),
        decreases n - i,
    {
        let (te, nx) = scan_line(content, i, n);
        if check_divider(content, i, te) {
            proof {
                assert(scan_from(content@, i as int, lm) == Some((i as int, te as int)));
            }
            let frag = content.substring_char(b, i).to_owned();
            let src = content.substring_char(te, n).to_owned();
            return Ok((frag, src));
        }
        let tj = find_trim(content, i, te);
        let mk = marker_at(content, tj, te);
        proof {
            let line = content@.subrange(i as int, te as int);
            assert(line.skip(skip_ws(line, 0)) =~= content@.subrange(tj as int, te as int));
            assert(mk == is_marker_line(line));
            if mk {
                assert(scan_from(content@, i as int, lm) == scan_from(
                    content@,
                    nx as int,
                    Some(i as int),
                ));
            } else {
                assert(scan_from(content@, i as int, lm) == scan_from(content@, nx as int, lm));
            }
        }
        if mk {
            last_marker = Some(i);
            proof {
                lm = Some(i as int);
            }
        }
        proof {
            assert(scan_from(content@, b as int, None) == scan_from(content@, nx as int, lm));
        }
        i = nx;
    }
    match last_marker {
        Some(m) => {
            proof {
                assert(scan_from(content@, i as int, lm) == Some((m as int, m as int)));
            }
            let frag = content.substring_char(b, m).to_owned();
            let src = content.substring_char(m, n).to_owned();
            Ok((frag, src))
        },
        None => {
            proof {
                assert(scan_from(content@, i as int, lm) is None);
            }
            Err(UserError::NoSourceFound)
        },
    }
}

// --- the split is idempotent on its output ---

/// No line from `i` on is a divider or a marker line.
pub open spec fn tail_clean(s: Seq<char>, i: int) -> bool
    decreases s.len() - i,
    via tail_clean_dec
{
    if i < 0 {
        true
    } else if i >= s.len() {
        true
    } else {
        !is_divider(s.subrange(i, text_end(s, i))) && !is_marker_line(
            s.subrange(i, text_end(s, i)),
        ) && tail_clean(s, next_start(s, i))
    }
}

#[via_fn]
proof fn tail_clean_dec(s: Seq<char>, i: int) {
    if 0 <= i && i < s.len() {
        lemma_line_end_bounds(s, i);
    }
}

/// A clean tail scans to whatever marker is already remembered.
proof fn lemma_tail_clean_scan(s: Seq<char>, i: int, w: int)
    requires
        0 <= i <= s.len(),
        tail_clean(s, i),
    ensures
        scan_from(s, i, Some(w)) == Some((w, w)),
    decreases s.len() - i,
{
    if i < s.len() {
        lemma_line_end_bounds(s, i);
        lemma_tail_clean_scan(s, next_start(s, i), w);
    }
}

/// What a successful scan's positions say: equal positions name a marker
/// line, remembered or found, with nothing of note after it; unequal
/// positions name a divider line's start and its text's end.
proof fn lemma_scan_shape(s: Seq<char>, i: int, last: Option<int>)
    requires
        0 <= i <= s.len(),
    ensures
        match scan_from(s, i, last) {
            Some(p) => {
                &&& (p.0 == p.1 ==> ((last == Some(p.0) && tail_clean(s, i)) || (i <= p.0 < s.len()
                    && is_marker_line(s.subrange(p.0, text_end(s, p.0))) && tail_clean(
                    s,
                    next_start(s, p.0),
                ))))
                &&& (p.0 != p.1 ==> i <= p.0 < s.len() && p.1 == text_end(s, p.0))
            },
            None => true,
        },
    decreases s.len() - i,
{
    if i >= s.len() {
    } else {
        lemma_line_end_bounds(s, i);
        let te = text_end(s, i);
        let line = s.subrange(i, te);
        if is_divider(line) {
            if te == i {
                assert(line.len() == 0);
                assert(dash_count(line) == 0);
                assert(false);
            }
        } else if is_marker_line(line) {
            lemma_scan_shape(s, next_start(s, i), Some(i));
        } else {
            lemma_scan_shape(s, next_start(s, i), last);
            match scan_from(s, i, last) {
                Some(p) => {
                    if p.0 == p.1 && last == Some(p.0) && tail_clean(s, next_start(s, i)) {
                        assert(tail_clean(s, i));
                    }
                },
                None => {},
            }
        }
    }
}

/// Newlines are where they were: dropping a prefix shifts the line
/// structure and changes no line's text.
proof fn lemma_line_end_shift(s: Seq<char>, m: int, i: int)
    requires
        0 <= m <= s.len(),
        0 <= i,
        m + i <= s.len(),
    ensures
        line_end(s.skip(m), i) == line_end(s, m + i) - m,
    decreases s.len() - i - m,
{
    if m + i < s.len() {
        assert(s.skip(m)[i] == s[m + i]);
        if s[m + i] != '\n' {
            lemma_line_end_shift(s, m, i + 1);
        }
    }
}

proof fn lemma_line_shift(s: Seq<char>, m: int, i: int)
    requires
        0 <= m <= s.len(),
        0 <= i,
        m + i <= s.len(),
    ensures
        text_end(s.skip(m), i) == text_end(s, m + i) - m,
        next_start(s.skip(m), i) == next_start(s, m + i) - m,
        s.skip(m).subrange(i, text_end(s.skip(m), i)) =~= s.subrange(m + i, text_end(s, m + i)),
{
    lemma_line_end_shift(s, m, i);
    lemma_line_end_bounds(s, m + i);
    let e = line_end(s, m + i);
    if e < s.len() && e - 1 >= m + i {
        assert(s.skip(m)[e - m - 1] == s[e - 1]);
    }
    assert forall|t: int|
        0 <= t < text_end(s, m + i) - m - i implies s.skip(m).subrange(
        i,
        text_end(s.skip(m), i),
    )[t] == s.subrange(m + i, text_end(s, m + i))[t] by {
        assert(s.skip(m)[i + t] == s[m + i + t]);
    }
}

/// A clean tail stays clean when the prefix before it is dropped.
proof fn lemma_tail_clean_shift(s: Seq<char>, m: int, i: int)
    requires
        0 <= m <= s.len(),
        0 <= i,
        m + i <= s.len(),
        tail_clean(s, m + i),
    ensures
        tail_clean(s.skip(m), i),
    decreases s.len() - m - i,
{
    if m + i < s.len() {
        lemma_line_shift(s, m, i);
        lemma_line_end_bounds(s, m + i);
        lemma_tail_clean_shift(s, m, next_start(s, m + i) - m);
        assert(s.skip(m).subrange(i, text_end(s.skip(m), i)) == s.subrange(
            m + i,
            text_end(s, m + i),
        ));
        assert(tail_clean(s.skip(m), i));
    }
}

/// Skipping whitespace stops at the end or at a non-space character.
proof fn lemma_skip_ws_stop(t: Seq<char>, x: int)
    requires
        0 <= x <= t.len(),
    ensures
        skip_ws(t, x) == t.len() || (0 <= skip_ws(t, x) < t.len() && !is_space_char(
            t[skip_ws(t, x)],
        )),
    decreases t.len() - x,
{
    if x < t.len() && is_space_char(t[x]) {
        lemma_skip_ws_stop(t, x + 1);
    }
}

/// A marker line is not a divider, not a shebang, and not empty: its first
/// trimmed character opens source code, which is neither whitespace, nor a
/// dash, nor the head of a shebang.
proof fn lemma_marker_line_props(t: Seq<char>)
    requires
        is_marker_line(t),
    ensures
        !is_divider(t),
        !is_shebang(t),
        t.len() > 0,
{
    lemma_skip_ws_bounds(t, 0);
    lemma_skip_ws_stop(t, 0);
    let d = skip_ws(t, 0);
    let u = t.skip(d);
    assert(u.len() > 0);
    assert(d < t.len());
    assert(u[0] == t[d]);
    assert(!is_space_char(t[d]));
    assert(t[d] != '-');
    assert(!all_ws_dash(t));
    if is_shebang(t) {
        assert(t[0] == '#');
        assert(!is_space_char(t[0]));
        assert(skip_ws(t, 0) == 0);
        assert(u =~= t);
        assert(marker_prefix(t));
        assert(t[1] == '!');
        assert(false);
    }
}

/// Law: splitting is idempotent on its output.  When a split ends at a
/// marker line, the produced source text, taken whole as a fresh input
/// with an empty fragment, splits again into an empty fragment and the
/// very same source text.
pub proof fn lemma_split_idempotent_marker(s: Seq<char>, b: int, m: int)
    requires
        spec_split_file(s) == Some((b, m, m)),
    ensures
        0 <= m <= s.len(),
        spec_split_file(s.skip(m)) == Some((0int, 0int, 0int)),
{
    let b0 = body_start(s);
    lemma_line_end_bounds(s, 0);
    assert(0 <= b0 <= s.len());
    lemma_scan_shape(s, b0, None);
    assert(scan_from(s, b0, None) == Some((m, m)));
    assert(b0 <= m < s.len());
    assert(is_marker_line(s.subrange(m, text_end(s, m))));
    assert(tail_clean(s, next_start(s, m)));
    let src = s.skip(m);
    lemma_line_end_bounds(s, m);
    lemma_line_shift(s, m, 0);
    let te0 = text_end(src, 0);
    let line0 = src.subrange(0, te0);
    assert(line0 == s.subrange(m, text_end(s, m)));
    assert(is_marker_line(line0));
    lemma_marker_line_props(line0);
    assert(body_start(src) == 0);
    let nx0 = next_start(src, 0);
    assert(nx0 == next_start(s, m) - m);
    lemma_line_end_bounds(s, m);
    lemma_tail_clean_shift(s, m, nx0);
    assert(0 <= nx0 <= src.len()) by {
        lemma_line_end_shift(s, m, 0);
        lemma_line_end_bounds(s, m);
    }
    lemma_tail_clean_scan(src, nx0, 0);
    assert(scan_from(src, 0, None) == Some((0int, 0int)));
    assert(spec_split_file(src) == Some((0int, 0int, 0int)));
}

/// Law: splitting is idempotent on its output.  When a split ends at a
/// divider line, a fresh divider prepended to the produced source text
/// makes an input that splits into an empty fragment and that same
/// source text.
pub proof fn lemma_split_idempotent_divider(s: Seq<char>, b: int, fe: int, ss: int)
    requires
        spec_split_file(s) == Some((b, fe, ss)),
        fe != ss,
    ensures
        0 <= ss <= s.len(),
        spec_split_file(seq!['-', '-', '-'] + s.skip(ss)) == Some((0int, 0int, 3int)),
        (seq!['-', '-', '-'] + s.skip(ss)).skip(3) =~= s.skip(ss),
{
    let b0 = body_start(s);
    lemma_line_end_bounds(s, 0);
    lemma_scan_shape(s, b0, None);
    assert(scan_from(s, b0, None) == Some((fe, ss)));
    assert(b0 <= fe < s.len() && ss == text_end(s, fe));
    lemma_line_end_bounds(s, fe);
    let e = line_end(s, fe);
    let src = s.skip(ss);
    let c2 = seq!['-', '-', '-'] + src;
    assert(c2.len() == 3 + src.len());
    assert(c2[0] == '-' && c2[1] == '-' && c2[2] == '-');
    assert(c2.skip(3) =~= src);
    // The source is empty or begins with the divider line's terminator.
    if src.len() > 0 {
        assert(ss < s.len());
        if ss == e {
            assert(s[ss] == '\n');
            assert(c2[3] == '\n');
        } else {
            assert(ss == e - 1 && s[ss] == '\r' && s[e] == '\n');
            assert(c2[3] == '\r');
            assert(src.len() >= 2 && c2[4] == '\n');
        }
    }
    // The first line of the new input is exactly the three dashes.
    assert(line_end(c2, 3) == 3 || (c2[3] == '\r' && line_end(c2, 3) == 4)) by {
        if src.len() == 0 {
        } else if c2[3] == '\n' {
        } else {
            assert(c2[3] == '\r' && c2[4] == '\n');
            assert(line_end(c2, 4) == 4);
        }
    }
    assert(line_end(c2, 2) == line_end(c2, 3));
    assert(line_end(c2, 1) == line_end(c2, 2));
    assert(line_end(c2, 0) == line_end(c2, 1));
    let te0 = text_end(c2, 0);
    assert(te0 == 3);
    let line0 = c2.subrange(0, 3);
    assert(line0 =~= seq!['-', '-', '-']);
    assert(is_divider(line0)) by {
        let l2 = seq!['-', '-'];
        let l1 = seq!['-'];
        let l0 = Seq::<char>::empty();
        assert(line0.drop_last() =~= l2);
        assert(l2.drop_last() =~= l1);
        assert(l1.drop_last() =~= l0);
        assert(dash_count(l0) == 0);
        assert(l1.last() == '-');
        assert(dash_count(l1) == 1);
        assert(l2.last() == '-');
        assert(dash_count(l2) == 2);
        assert(line0.last() == '-');
        assert(dash_count(line0) == 3);
        assert(forall|x: int| 0 <= x < line0.len() ==> #[trigger] line0[x] == '-');
    }
    assert(!is_shebang(line0));
    assert(body_start(c2) == 0);
    assert(scan_from(c2, 0, None) == Some((0int, 3int)));
    assert(spec_split_file(c2) == Some((0int, 0int, 3int)));
}

} // verus!
