//! What the remote server answers at attach time: its version, and its windows and panes.
use vstd::prelude::*;
use vstd::slice::*;
use vstd::utf8::*;

use crate::text::{chars_of, find_char, from_utf8, next_token, parse_number};
#[allow(unused_imports)]
use crate::text::{
    dec, digit_of, find, lemma_find, numbers_read_back, parse_uint, token_at, token_end, trim_start_at,
    white_space,
};

verus! {

/// Flow control needs at least this version.
pub const MIN_VERSION: (u32, u32) = (3, 2);

/// Whether a version is older than the one that flow control needs.
pub open spec fn too_old(v: (u32, u32)) -> bool {
    v.0 < 3 || (v.0 == 3 && v.1 < 2)
}

/// Whether a version lacks flow control.
pub fn is_too_old(v: (u32, u32)) -> (r: bool)
    ensures
        r == too_old(v),
{
    v.0 < MIN_VERSION.0 || (v.0 == MIN_VERSION.0 && v.1 < MIN_VERSION.1)
}

/// First index at or after `from` that holds an ASCII digit, or the end.
pub open spec fn first_digit(s: Seq<char>, from: int) -> int
    decreases s.len() - from,
{
    if 0 <= from < s.len() && digit_of(s[from], false) is None {
        first_digit(s, from + 1)
    } else {
        from
    }
}

/// End of the run of ASCII digits that starts at `from`.
pub open spec fn digit_run(s: Seq<char>, from: int) -> int
    decreases s.len() - from,
{
    if 0 <= from < s.len() && digit_of(s[from], false) is Some {
        digit_run(s, from + 1)
    } else {
        from
    }
}

/// The 32-bit number that the digits at `from` write.
pub open spec fn leading_number(s: Seq<char>, from: int) -> Option<u32> {
    match parse_uint(s.subrange(from, digit_run(s, from)), false, u32::MAX as nat) {
        Some(n) => Some(n as u32),
        None => None,
    }
}

/// The version that a text tells: what stands before the first digit is skipped; the leading
/// digits of the first two fields between dots count, and a missing minor number is 0.
pub open spec fn version_of(s: Seq<char>) -> Option<(u32, u32)> {
    let start = first_digit(s, 0);
    if start >= s.len() {
        None
    } else {
        match leading_number(s, start) {
            Some(major) => Some(
                (
                    major,
                    match find(s, '.', start) {
                        Some(dot) => match leading_number(s, dot + 1) {
                            Some(minor) => minor,
                            None => 0,
                        },
                        None => 0,
                    },
                ),
            ),
            None => None,
        }
    }
}

fn read_leading(s: &[char], from: usize) -> (r: Option<u32>)
    requires
        from <= s@.len(),
    ensures
        r == leading_number(s@, from as int),
{
    let mut end: usize = from;
    while end < s.len() && crate::text::digit_value(s[end], false).is_some()
        invariant
            from <= end <= s@.len(),
            digit_run(s@, from as int) == digit_run(s@, end as int),
        decreases s@.len() - end,
    {
        end = end + 1;
    }
    match parse_number(slice_subrange(s, from, end), false, 4294967295) {
        Some(n) => Some(n as u32),
        None => None,
    }
}

/// Reads a tmux version, such as `3.4`, `3.2a`, `next-3.5` or `openbsd-7.4`; none where there is no
/// number.
pub fn parse_version(raw: &str) -> (r: Option<(u32, u32)>)
    ensures
        r == version_of(raw@),
{
    let s = chars_of(raw);
    let s = s.as_slice();
    let mut start: usize = 0;
    while start < s.len() && crate::text::digit_value(s[start], false).is_none()
        invariant
            start <= s@.len(),
            first_digit(s@, 0) == first_digit(s@, start as int),
        decreases s@.len() - start,
    {
        start = start + 1;
    }
    if start >= s.len() {
        return None;
    }
    match read_leading(s, start) {
        Some(major) => {
            let minor: u32 = match find_char(s, '.', start) {
                Some(dot) => {
                    proof {
                        lemma_find(s@, '.', start as int);
                    }
                    match read_leading(s, dot + 1) {
                        Some(minor) => minor,
                        None => 0,
                    }
                },
                None => 0,
            };
            Some((major, minor))
        },
        None => None,
    }
}

/// A window, a pane and its size.
pub type Listed = (u64, u64, u16, u16);

/// The number of a token behind an optional sigil, and the position after the token.
pub open spec fn field_at(s: Seq<char>, from: int, sigil: Option<char>, max: nat) -> Option<
    (nat, int),
> {
    match token_at(s, from) {
        Some((a, b)) => {
            let t = s.subrange(a, b);
            let digits = match sigil {
                Some(c) => if t.len() > 0 && t[0] == c {
                    Some(t.skip(1))
                } else {
                    None
                },
                None => Some(t),
            };
            match digits {
                Some(d) => match parse_uint(d, false, max) {
                    Some(n) => Some((n, b)),
                    None => None,
                },
                None => None,
            }
        },
        None => None,
    }
}

/// What a line `@<window> %<pane> <cols> <rows>` lists.
pub open spec fn listed(line: Seq<u8>) -> Option<Listed> {
    if !valid_utf8(line) {
        None
    } else {
        let s = decode_utf8(line);
        match field_at(s, 0, Some('@'), u64::MAX as nat) {
            None => None,
            Some((window, p)) => match field_at(s, p, Some('%'), u64::MAX as nat) {
                None => None,
                Some((pane, q)) => match field_at(s, q, None, u16::MAX as nat) {
                    None => None,
                    Some((cols, r)) => match field_at(s, r, None, u16::MAX as nat) {
                        None => None,
                        Some((rows, _)) => Some(
                            (window as u64, pane as u64, cols as u16, rows as u16),
                        ),
                    },
                },
            },
        }
    }
}

fn read_field(s: &[char], from: usize, sigil: Option<char>, max: u64) -> (r: Option<(u64, usize)>)
    requires
        from <= s@.len(),
    ensures
        match r {
            Some((n, p)) => field_at(s@, from as int, sigil, max as nat) == Some(
                (n as nat, p as int),
            ) && p <= s@.len() && n <= max,
            None => field_at(s@, from as int, sigil, max as nat) is None,
        },
{
    let (a, b) = match next_token(s, from) {
        Some(bounds) => bounds,
        None => {
            return None;
        },
    };
    let t = slice_subrange(s, a, b);
    let digits = match sigil {
        Some(c) => {
            if t.len() == 0 || t[0] != c {
                return None;
            }
            let d = slice_subrange(t, 1, t.len());
            assert(d@ =~= t@.skip(1));
            d
        },
        None => t,
    };
    match parse_number(digits, false, max) {
        Some(n) => Some((n, b)),
        None => None,
    }
}

/// Reads one line of the listing; none for anything else.
pub fn parse_enum_line(line: &[u8]) -> (r: Option<Listed>)
    ensures
        r == listed(line@),
{
    let text = match from_utf8(line) {
        Some(t) => t,
        None => {
            return None;
        },
    };
    let s = chars_of(text.as_str());
    let s = s.as_slice();
    let (window, p) = match read_field(s, 0, Some('@'), 18446744073709551615) {
        Some(f) => f,
        None => {
            return None;
        },
    };
    let (pane, q) = match read_field(s, p, Some('%'), 18446744073709551615) {
        Some(f) => f,
        None => {
            return None;
        },
    };
    let (cols, r) = match read_field(s, q, None, 65535) {
        Some(f) => f,
        None => {
            return None;
        },
    };
    let (rows, _end) = match read_field(s, r, None, 65535) {
        Some(f) => f,
        None => {
            return None;
        },
    };
    Some((window, pane, cols as u16, rows as u16))
}

// ---------------------------------------------------------------------------
// Laws.
// ---------------------------------------------------------------------------

proof fn lemma_first_digit(s: Seq<char>, from: int, at: int)
    requires
        0 <= from <= at < s.len(),
        forall|i: int| from <= i < at ==> !('0' <= #[trigger] s[i] <= '9'),
        '0' <= s[at] <= '9',
    ensures
        first_digit(s, from) == at,
    decreases at - from,
{
    if from < at {
        lemma_first_digit(s, from + 1, at);
    }
}

proof fn lemma_digit_run(s: Seq<char>, from: int, to: int)
    requires
        0 <= from <= to <= s.len(),
        forall|i: int| from <= i < to ==> '0' <= #[trigger] s[i] <= '9',
        to < s.len() ==> !('0' <= s[to] <= '9'),
    ensures
        digit_run(s, from) == to,
    decreases to - from,
{
    if from < to {
        lemma_digit_run(s, from + 1, to);
    }
}

/// A version is told by its first number and the one behind the dot, whatever name stands before
/// and whatever letters stand behind; without a dot, the second number is 0.
pub proof fn versions_are_two_numbers(
    name: Seq<char>,
    major: u32,
    minor: u32,
    rest: Seq<char>,
)
    requires
        forall|i: int| 0 <= i < name.len() ==> !('0' <= #[trigger] name[i] <= '9'),
        rest.len() > 0 ==> !('0' <= rest[0] <= '9'),
    ensures
        version_of(name + dec(major as nat) + seq!['.'] + dec(minor as nat) + rest) == Some(
            (major, minor),
        ),
        (forall|i: int| 0 <= i < rest.len() ==> #[trigger] rest[i] != '.') ==> version_of(
            name + dec(major as nat) + rest,
        ) == Some((major, 0u32)),
{
    numbers_read_back(major as nat, u32::MAX as nat);
    numbers_read_back(minor as nat, u32::MAX as nat);
    let a = dec(major as nat);
    let b = dec(minor as nat);
    let s = name + a + seq!['.'] + b + rest;
    let start = name.len() as int;
    let dot = start + a.len();
    assert(forall|i: int| 0 <= i < start ==> s[i] == name[i]);
    assert forall|i: int| start <= i < dot implies '0' <= #[trigger] s[i] <= '9' by {
        assert(s[i] == a[i - start]);
    }
    assert(s[dot] == '.');
    assert forall|i: int| dot + 1 <= i < dot + 1 + b.len() implies '0' <= #[trigger] s[i] <= '9' by {
        assert(s[i] == b[i - dot - 1]);
    }
    if rest.len() > 0 {
        assert(s[dot + 1 + b.len()] == rest[0]);
    }
    lemma_first_digit(s, 0, start);
    lemma_digit_run(s, start, dot);
    lemma_digit_run(s, dot + 1, dot + 1 + b.len());
    assert(s.subrange(start, dot) =~= a);
    assert(s.subrange(dot + 1, dot + 1 + b.len()) =~= b);
    lemma_find(s, '.', start);
    assert(find(s, '.', start) == Some(dot));
    if forall|i: int| 0 <= i < rest.len() ==> #[trigger] rest[i] != '.' {
        let t = name + a + rest;
        assert(forall|i: int| 0 <= i < start ==> t[i] == name[i]);
        assert forall|i: int| start <= i < dot implies '0' <= #[trigger] t[i] <= '9' by {
            assert(t[i] == a[i - start]);
        }
        if rest.len() > 0 {
            assert(t[dot] == rest[0]);
        }
        lemma_first_digit(t, 0, start);
        lemma_digit_run(t, start, dot);
        assert(t.subrange(start, dot) =~= a);
        lemma_find(t, '.', start);
        assert forall|i: int| dot <= i < t.len() implies t[i] != '.' by {
            assert(t[i] == rest[i - dot]);
        }
        assert(find(t, '.', start) is None);
    }
}

/// A text without a digit tells no version.
pub proof fn no_digit_is_no_version(s: Seq<char>)
    requires
        forall|i: int| 0 <= i < s.len() ==> !('0' <= #[trigger] s[i] <= '9'),
    ensures
        version_of(s) is None,
{
    lemma_no_digit(s, 0);
}

proof fn lemma_no_digit(s: Seq<char>, from: int)
    requires
        0 <= from <= s.len(),
        forall|i: int| 0 <= i < s.len() ==> !('0' <= #[trigger] s[i] <= '9'),
    ensures
        first_digit(s, from) == s.len(),
    decreases s.len() - from,
{
    if from < s.len() {
        assert(!('0' <= s[from] <= '9'));
        lemma_no_digit(s, from + 1);
    }
}

proof fn lemma_token(s: Seq<char>, from: int, a: int, b: int)
    requires
        0 <= from <= a < b <= s.len(),
        from < a ==> a == from + 1 && s[from] == ' ',
        forall|i: int| a <= i < b ==> !white_space(#[trigger] s[i]),
        b < s.len() ==> s[b] == ' ',
    ensures
        token_at(s, from) == Some((a, b)),
{
    reveal_with_fuel(trim_start_at, 2);
    assert(!white_space(s[a]));
    assert(trim_start_at(s, from) == a);
    lemma_token_end(s, a, b);
}

proof fn lemma_token_end(s: Seq<char>, from: int, to: int)
    requires
        0 <= from <= to <= s.len(),
        forall|i: int| from <= i < to ==> !white_space(#[trigger] s[i]),
        to < s.len() ==> s[to] == ' ',
    ensures
        token_end(s, from) == to,
    decreases to - from,
{
    if from < to {
        lemma_token_end(s, from + 1, to);
    }
}

proof fn lemma_field_at(
    head: Seq<char>,
    gap: Seq<char>,
    sigil: Option<char>,
    n: nat,
    tail: Seq<char>,
    max: nat,
)
    requires
        n <= max,
        gap == Seq::<char>::empty() || gap == seq![' '],
        sigil matches Some(c) ==> c == '@' || c == '%',
        tail.len() > 0 ==> tail[0] == ' ',
    ensures
        ({
            let mark = match sigil {
                Some(c) => seq![c],
                None => Seq::empty(),
            };
            field_at(head + gap + mark + dec(n) + tail, head.len() as int, sigil, max) == Some(
                (n, (head.len() + gap.len() + mark.len() + dec(n).len()) as int),
            )
        }),
{
    let mark = match sigil {
        Some(c) => seq![c],
        None => Seq::empty(),
    };
    let d = dec(n);
    let s = head + gap + mark + d + tail;
    let from = head.len() as int;
    let a = from + gap.len();
    let m = a + mark.len();
    let b = m + d.len();
    numbers_read_back(n, max);
    assert forall|i: int| a <= i < b implies !white_space(#[trigger] s[i]) by {
        if i < m {
            assert(s[i] == mark[i - a]);
        } else {
            assert(s[i] == d[i - m]);
        }
    }
    if gap.len() > 0 {
        assert(s[from] == gap[0]);
    }
    if tail.len() > 0 {
        assert(s[b] == tail[0]);
    }
    lemma_token(s, from, a, b);
    let t = s.subrange(a, b);
    assert(t =~= mark + d);
    if sigil is Some {
        assert(t[0] == mark[0]);
        assert(t.skip(1) =~= d);
    } else {
        assert(t =~= d);
    }
}

/// A line of the listing tells the window behind `@`, the pane behind `%`, and the pane's columns
/// and rows, in that order.
pub proof fn listed_lines_tell_window_pane_and_size(window: u64, pane: u64, cols: u16, rows: u16)
    ensures
        listed(
            encode_utf8(
                seq!['@'] + dec(window as nat) + seq![' ', '%'] + dec(pane as nat) + seq![' '] + dec(
                    cols as nat,
                ) + seq![' '] + dec(rows as nat),
            ),
        ) == Some((window, pane, cols, rows)),
{
    let w = dec(window as nat);
    let p = dec(pane as nat);
    let c = dec(cols as nat);
    let r = dec(rows as nat);
    let none = Seq::<char>::empty();
    let s = seq!['@'] + w + seq![' ', '%'] + p + seq![' '] + c + seq![' '] + r;
    encode_utf8_valid_utf8(s);
    encode_utf8_decode_utf8(s);
    let e1 = 1 + w.len() as int;
    let e2 = e1 + 2 + p.len();
    let e3 = e2 + 1 + c.len();
    let e4 = e3 + 1 + r.len();
    let t1 = seq![' ', '%'] + p + seq![' '] + c + seq![' '] + r;
    let t2 = seq![' '] + c + seq![' '] + r;
    let t3 = seq![' '] + r;
    assert(none + none + seq!['@'] + w + t1 =~= s);
    assert(seq!['@'] + w + seq![' '] + seq!['%'] + p + t2 =~= s);
    assert(seq!['@'] + w + seq![' ', '%'] + p + seq![' '] + none + c + t3 =~= s);
    assert(seq!['@'] + w + seq![' ', '%'] + p + seq![' '] + c + seq![' '] + none + r + none =~= s);
    lemma_field_at(none, none, Some('@'), window as nat, t1, u64::MAX as nat);
    lemma_field_at(seq!['@'] + w, seq![' '], Some('%'), pane as nat, t2, u64::MAX as nat);
    lemma_field_at(
        seq!['@'] + w + seq![' ', '%'] + p,
        seq![' '],
        None,
        cols as nat,
        t3,
        u16::MAX as nat,
    );
    lemma_field_at(
        seq!['@'] + w + seq![' ', '%'] + p + seq![' '] + c,
        seq![' '],
        None,
        rows as nat,
        none,
        u16::MAX as nat,
    );
}

} // verus!
