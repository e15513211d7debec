//! What the lines of control mode say.
use vstd::prelude::*;
#[allow(unused_imports)]
use vstd::utf8::{decode_utf8, encode_utf8, valid_utf8};

#[allow(unused_imports)]
use crate::text::{
    after, before, dec, find, has_prefix, lemma_find, numbers_read_back, parse_uint, skip_spaces,
    utf8_lossy, word_at, word_end,
};
#[allow(unused_imports)]
use crate::tmux::layout::layout_of;
#[allow(unused_imports)]
use crate::tmux::parser::{
    first_id, first_word, guard_of, id_of, known_notification, known_text_notification,
    line_step, notification_of, EventView, Guard, NotificationView, ReplyView,
};
#[allow(unused_imports)]
use crate::tmux::unescape::{escape_at, unescaped};

verus! {

proof fn lemma_word_end(s: Seq<char>, from: int, b: int)
    requires
        0 <= from <= b <= s.len(),
        forall|i: int| from <= i < b ==> !crate::text::ascii_space(#[trigger] s[i]),
        b < s.len() ==> crate::text::ascii_space(s[b]),
    ensures
        word_end(s, from) == b,
    decreases b - from,
{
    if from < b {
        lemma_word_end(s, from + 1, b);
    }
}

/// A word that stands behind at most one blank.
proof fn lemma_word(s: Seq<char>, from: int, a: int, b: int)
    requires
        0 <= from <= a < b <= s.len(),
        a == from || (a == from + 1 && s[from] == ' '),
        forall|i: int| a <= i < b ==> !crate::text::ascii_space(#[trigger] s[i]),
        b < s.len() ==> s[b] == ' ',
    ensures
        word_at(s, from) == Some((a, b)),
{
    assert(!crate::text::ascii_space(s[a]));
    assert(skip_spaces(s, a) == a);
    assert(skip_spaces(s, from) == a);
    lemma_word_end(s, a, b);
}

proof fn lemma_digits(n: nat)
    requires
        n <= u64::MAX,
    ensures
        forall|i: int| 0 <= i < dec(n).len() ==> !crate::text::ascii_space(#[trigger] dec(n)[i]),
        dec(n).len() > 0,
        parse_uint(dec(n), false, u64::MAX as nat) == Some(n),
{
    numbers_read_back(n, u64::MAX as nat);
    assert forall|i: int| 0 <= i < dec(n).len() implies !crate::text::ascii_space(
        #[trigger] dec(n)[i],
    ) by {
        assert('0' <= dec(n)[i] <= '9');
    }
}

/// An id is its sigil and a number, and with another sigil it is none.
pub proof fn ids_are_numbers_behind_their_sigil(sigil: char, other: char, n: u64)
    requires
        !crate::text::ascii_space(sigil),
        other != sigil,
    ensures
        id_of(seq![sigil] + dec(n as nat), sigil) == Some(n),
        id_of(seq![sigil] + dec(n as nat), other) is None,
        first_id(seq![sigil] + dec(n as nat), sigil) == Some(n),
{
    lemma_digits(n as nat);
    let t = seq![sigil] + dec(n as nat);
    assert(t.skip(1) =~= dec(n as nat));
    assert forall|i: int| 0 <= i < t.len() implies !crate::text::ascii_space(#[trigger] t[i]) by {
        if i > 0 {
            assert(t[i] == dec(n as nat)[i - 1]);
        }
    }
    lemma_word(t, 0, 0, t.len() as int);
    assert(t.subrange(0, t.len() as int) =~= t);
}

proof fn lemma_id_and_name(id: Seq<char>, name: Seq<char>)
    requires
        forall|i: int| 0 <= i < id.len() ==> #[trigger] id[i] != ' ',
    ensures
        before(id + seq![' '] + name, ' ') == id,
        after(id + seq![' '] + name, ' ') == name,
        find(id + seq![' '] + name, ' ', 0) is Some,
{
    let s = id + seq![' '] + name;
    let n = id.len() as int;
    lemma_find(s, ' ', 0);
    assert(s[n] == ' ');
    assert forall|k: int| 0 <= k < n implies #[trigger] s[k] != ' ' by {
        assert(s[k] == id[k]);
    }
    assert(find(s, ' ', 0) == Some(n));
    assert(s.take(n) =~= id);
    assert(s.skip(n + 1) =~= name);
}

/// What each notification announces: the window, the pane or the session behind its sigil, and a
/// name behind that, with its blanks.
#[verifier::rlimit(60)]
pub proof fn notifications_name_their_subject(n: u64, name: Seq<char>)
    ensures
        ({
            let w = seq!['@'] + dec(n as nat);
            let p = seq!['%'] + dec(n as nat);
            let s = seq!['$'] + dec(n as nat);
            &&& known_text_notification("%window-add"@, w) == Some(
                NotificationView::WindowAdd { window: n },
            )
            &&& known_text_notification("%window-close"@, w) == Some(
                NotificationView::WindowClose { window: n },
            )
            &&& known_text_notification("%window-renamed"@, w + seq![' '] + name) == Some(
                NotificationView::WindowRenamed { window: n, name },
            )
            &&& known_text_notification("%session-changed"@, s + seq![' '] + name) == Some(
                NotificationView::SessionChanged { session: n, name },
            )
            &&& known_text_notification("%pause"@, p) == Some(NotificationView::Pause { pane: n })
            &&& known_text_notification("%continue"@, p) == Some(
                NotificationView::Continue { pane: n },
            )
            &&& known_text_notification("%pane-mode-changed"@, p) == Some(
                NotificationView::PaneModeChanged { pane: n },
            )
            &&& known_text_notification("%exit"@, Seq::empty()) == Some(
                NotificationView::Exit { reason: None },
            )
            &&& name.len() > 0 ==> known_text_notification("%exit"@, name) == Some(
                NotificationView::Exit { reason: Some(name) },
            )
        }),
{
    reveal_strlit("%layout-change");
    reveal_strlit("%window-add");
    reveal_strlit("%window-close");
    reveal_strlit("%window-renamed");
    reveal_strlit("%session-changed");
    reveal_strlit("%sessions-changed");
    reveal_strlit("%pane-mode-changed");
    reveal_strlit("%pause");
    reveal_strlit("%continue");
    reveal_strlit("%exit");
    assert("%layout-change"@.len() == 14 && "%window-add"@.len() == 11 && "%window-close"@.len()
        == 13 && "%window-renamed"@.len() == 15 && "%session-changed"@.len() == 16
        && "%sessions-changed"@.len() == 17 && "%pane-mode-changed"@.len() == 18 && "%pause"@.len()
        == 6 && "%continue"@.len() == 9 && "%exit"@.len() == 5);
    ids_are_numbers_behind_their_sigil('@', '%', n);
    ids_are_numbers_behind_their_sigil('%', '@', n);
    ids_are_numbers_behind_their_sigil('$', '@', n);
    lemma_digits(n as nat);
    let w = seq!['@'] + dec(n as nat);
    let s = seq!['$'] + dec(n as nat);
    assert forall|i: int| 0 <= i < w.len() implies #[trigger] w[i] != ' ' by {
        if i > 0 {
            assert(w[i] == dec(n as nat)[i - 1]);
        }
    }
    assert forall|i: int| 0 <= i < s.len() implies #[trigger] s[i] != ' ' by {
        if i > 0 {
            assert(s[i] == dec(n as nat)[i - 1]);
        }
    }
    lemma_id_and_name(w, name);
    lemma_id_and_name(s, name);
}

/// A new layout names its window, and then the layout; what follows that is not read.
pub proof fn layout_changes_carry_the_layout(
    n: u64,
    layout: Seq<char>,
    rest: Seq<char>,
)
    requires
        forall|i: int| 0 <= i < layout.len() ==> #[trigger] layout[i] != ' ',
        layout_of(layout) is Ok,
    ensures
        known_text_notification(
            "%layout-change"@,
            seq!['@'] + dec(n as nat) + seq![' '] + (layout + seq![' '] + rest),
        ) == Some(
            NotificationView::LayoutChange { window: n, layout: layout_of(layout)->Ok_0 },
        ),
{
    ids_are_numbers_behind_their_sigil('@', '%', n);
    lemma_digits(n as nat);
    let w = seq!['@'] + dec(n as nat);
    assert forall|i: int| 0 <= i < w.len() implies #[trigger] w[i] != ' ' by {
        if i > 0 {
            assert(w[i] == dec(n as nat)[i - 1]);
        }
    }
    lemma_id_and_name(w, layout + seq![' '] + rest);
    lemma_id_and_name(layout, rest);
}

/// Output names its pane, and then the bytes that the pane wrote, which are unescaped.
pub proof fn output_carries_the_bytes(id: Seq<u8>, pane: u64, data: Seq<u8>)
    requires
        valid_utf8(id),
        decode_utf8(id) == seq!['%'] + dec(pane as nat),
        forall|i: int| 0 <= i < id.len() ==> #[trigger] id[i] != 32,
    ensures
        notification_of(encode_utf8("%output "@) + id + seq![32u8] + data) == (
        NotificationView::Output { pane, data: unescaped(data) }),
{
    let head = encode_utf8("%output "@);
    let line = head + id + seq![32u8] + data;
    assert(line.take(head.len() as int) =~= head);
    let rest = line.skip(head.len() as int);
    assert(rest =~= id + seq![32u8] + data);
    lemma_find(rest, 32u8, 0);
    let n = id.len() as int;
    assert(rest[n] == 32);
    assert forall|k: int| 0 <= k < n implies #[trigger] rest[k] != 32 by {
        assert(rest[k] == id[k]);
    }
    assert(find(rest, 32u8, 0) == Some(n));
    assert(rest.take(n) =~= id);
    assert(rest.skip(n + 1) =~= data);
    ids_are_numbers_behind_their_sigil('%', '@', pane);
}

/// A backslash and three octal digits stand for one byte.
pub proof fn escapes_are_octal(a: u8, b: u8, c: u8, rest: Seq<u8>)
    requires
        a < 4,
        b < 8,
        c < 8,
    ensures
        unescaped(seq![92u8, (48 + a) as u8, (48 + b) as u8, (48 + c) as u8] + rest) == seq![
            (64 * a + 8 * b + c) as u8,
        ] + unescaped(rest),
{
    let d = seq![92u8, (48 + a) as u8, (48 + b) as u8, (48 + c) as u8] + rest;
    assert(d.skip(4) =~= rest);
    assert(d[0] == 92 && d[1] == 48 + a && d[2] == 48 + b && d[3] == 48 + c);
    assert(escape_at(d) == Some((64 * a + 8 * b + c) as u8));
}

/// A guard line opens or closes the block of its number, well or with an error.
pub proof fn guards_carry_their_number(line: Seq<u8>, t: u64, n: u64)
    requires
        valid_utf8(line),
    ensures
        ({
            let tail = seq![' '] + dec(t as nat) + seq![' '] + dec(n as nat);
            let s = decode_utf8(line);
            &&& s == "%begin"@ + tail ==> guard_of(line) == Some(Guard::Begin { num: n })
            &&& s == "%end"@ + tail ==> guard_of(line) == Some(
                Guard::End { num: n, error: false },
            )
            &&& s == "%error"@ + tail ==> guard_of(line) == Some(
                Guard::End { num: n, error: true },
            )
        }),
{
    reveal_strlit("%begin");
    reveal_strlit("%end");
    reveal_strlit("%error");
    assert("%begin"@.len() == 6 && "%end"@.len() == 4 && "%error"@.len() == 6);
    assert("%begin"@[1] != "%error"@[1]);
    let s = decode_utf8(line);
    let tail = seq![' '] + dec(t as nat) + seq![' '] + dec(n as nat);
    if s == "%begin"@ + tail {
        lemma_guard_words("%begin"@, t, n);
    }
    if s == "%end"@ + tail {
        lemma_guard_words("%end"@, t, n);
    }
    if s == "%error"@ + tail {
        lemma_guard_words("%error"@, t, n);
    }
}

proof fn lemma_guard_words(kind: Seq<char>, t: u64, n: u64)
    requires
        kind.len() > 0,
        forall|i: int| 0 <= i < kind.len() ==> !crate::text::ascii_space(#[trigger] kind[i]),
    ensures
        ({
            let s = kind + (seq![' '] + dec(t as nat) + seq![' '] + dec(n as nat));
            let a = kind.len() as int;
            let b = a + 1 + dec(t as nat).len();
            let c = b + 1 + dec(n as nat).len();
            &&& word_at(s, 0) == Some((0int, a))
            &&& s.subrange(0, a) == kind
            &&& word_at(s, a) == Some((a + 1, b))
            &&& word_at(s, b) == Some((b + 1, c))
            &&& s.subrange(b + 1, c) == dec(n as nat)
            &&& s.len() == c
            &&& s[0] == kind[0]
            &&& parse_uint(dec(n as nat), false, u64::MAX as nat) == Some(n as nat)
        }),
{
    lemma_digits(t as nat);
    lemma_digits(n as nat);
    let s = kind + (seq![' '] + dec(t as nat) + seq![' '] + dec(n as nat));
    let a = kind.len() as int;
    let b = a + 1 + dec(t as nat).len();
    let c = b + 1 + dec(n as nat).len();
    assert forall|i: int| 0 <= i < a implies !crate::text::ascii_space(#[trigger] s[i]) by {
        assert(s[i] == kind[i]);
    }
    assert forall|i: int| a + 1 <= i < b implies !crate::text::ascii_space(#[trigger] s[i]) by {
        assert(s[i] == dec(t as nat)[i - a - 1]);
    }
    assert forall|i: int| b + 1 <= i < c implies !crate::text::ascii_space(#[trigger] s[i]) by {
        assert(s[i] == dec(n as nat)[i - b - 1]);
    }
    assert(s[a] == ' ' && s[b] == ' ' && s.len() == c);
    lemma_word(s, 0, 0, a);
    lemma_word(s, a, a + 1, b);
    lemma_word(s, b, b + 1, c);
    assert(s.subrange(0, a) =~= kind);
    assert(s.subrange(b + 1, c) =~= dec(n as nat));
}

/// A line outside any block is a notification; a guard opens a block, whose reply comes with its
/// closing guard, under its number and with all lines between them.
pub proof fn lines_are_notifications_or_replies(open: ReplyView, line: Seq<u8>, n: u64, error: bool)
    ensures
        guard_of(line) is None ==> line_step(None, line) == (
            None::<ReplyView>,
            seq![EventView::Notification(notification_of(line))],
        ),
        guard_of(line) == Some(Guard::Begin { num: n }) ==> line_step(None, line) == (
            Some(ReplyView { num: n, body: Seq::empty() }),
            Seq::<EventView>::empty(),
        ),
        guard_of(line) == Some(Guard::End { num: open.num, error }) ==> line_step(Some(open), line)
            == (
            None::<ReplyView>,
            seq![EventView::Reply { num: open.num, body: open.body, error }],
        ),
{
    reveal(line_step);
}

} // verus!
