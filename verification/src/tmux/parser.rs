//! The control-mode stream: lines, command replies and notifications.
//!
//! - A command's reply stands between `%begin <ts> <num> <flags>` and the `%end` or `%error`
//!   with the same number. Lines between them are reply body, whatever they look like.
//! - Pane output arrives as `%output %<pane-id> <data>`, octal-escaped.
//! - Other `%` lines are notifications. Control mode adds notifications across tmux versions, so
//!   an unknown or malformed line is never an error: it becomes [`Notification::Unknown`].
use vstd::prelude::*;
use vstd::string::*;
use vstd::utf8::*;

use crate::text::{
    bytes_start_with, chars_of, find_byte, from_utf8, is_text, lossy, next_word, parse_number,
    split_once, string_of,
};
#[allow(unused_imports)]
use crate::text::{
    after, before, find, has_prefix, lemma_find, lines_view, parse_uint, utf8_lossy, word_at,
};
use crate::tmux::layout::{parse_layout, Layout};
#[allow(unused_imports)]
use crate::tmux::layout::{layout_of, LayoutView};
use crate::tmux::unescape::unescape;
#[allow(unused_imports)]
use crate::tmux::unescape::unescaped;

verus! {

/// An asynchronous control-mode notification. Ids are the numeric part of tmux's ids: pane `%5`
/// is `5`, window `@3` is `3`, session `$1` is `1`.
#[derive(Debug, PartialEq, Eq)]
pub enum Notification {
    /// `%output %<pane> <data>`: `data` is unescaped.
    Output { pane: u64, data: Vec<u8> },
    /// `%layout-change @<window> <layout> [...]`: further fields are ignored.
    LayoutChange { window: u64, layout: Layout },
    /// `%window-add @<window>`.
    WindowAdd { window: u64 },
    /// `%window-close @<window>`.
    WindowClose { window: u64 },
    /// `%window-renamed @<window> <name>`: the name may contain spaces.
    WindowRenamed { window: u64, name: String },
    /// `%session-changed $<session> <name>`.
    SessionChanged { session: u64, name: String },
    /// `%sessions-changed`.
    SessionsChanged,
    /// `%pane-mode-changed %<pane>`.
    PaneModeChanged { pane: u64 },
    /// `%pause %<pane>`.
    Pause { pane: u64 },
    /// `%continue %<pane>`.
    Continue { pane: u64 },
    /// `%exit [reason]`.
    Exit { reason: Option<String> },
    /// Any other line, as it came (lossy UTF-8).
    Unknown { line: String },
}

/// One control-mode event: a notification, or a fully assembled command reply.
#[derive(Debug, PartialEq, Eq)]
pub enum Event {
    Notification(Notification),
    /// A `%begin` … `%end`/`%error` block. `body` holds the bytes of each line between the
    /// guards; `error` says that the block closed with `%error`.
    Reply { num: u64, body: Vec<Vec<u8>>, error: bool },
}

/// The mathematical value of a [`Notification`].
pub enum NotificationView {
    Output { pane: u64, data: Seq<u8> },
    LayoutChange { window: u64, layout: LayoutView },
    WindowAdd { window: u64 },
    WindowClose { window: u64 },
    WindowRenamed { window: u64, name: Seq<char> },
    SessionChanged { session: u64, name: Seq<char> },
    SessionsChanged,
    PaneModeChanged { pane: u64 },
    Pause { pane: u64 },
    Continue { pane: u64 },
    Exit { reason: Option<Seq<char>> },
    Unknown { line: Seq<char> },
}

/// The mathematical value of an [`Event`].
pub enum EventView {
    Notification(NotificationView),
    Reply { num: u64, body: Seq<Seq<u8>>, error: bool },
}

impl Notification {
    pub open spec fn view(&self) -> NotificationView {
        match *self {
            Notification::Output { pane, data } => NotificationView::Output { pane, data: data@ },
            Notification::LayoutChange { window, layout } => NotificationView::LayoutChange {
                window,
                layout: layout@,
            },
            Notification::WindowAdd { window } => NotificationView::WindowAdd { window },
            Notification::WindowClose { window } => NotificationView::WindowClose { window },
            Notification::WindowRenamed { window, name } => NotificationView::WindowRenamed {
                window,
                name: name@,
            },
            Notification::SessionChanged { session, name } => NotificationView::SessionChanged {
                session,
                name: name@,
            },
            Notification::SessionsChanged => NotificationView::SessionsChanged,
            Notification::PaneModeChanged { pane } => NotificationView::PaneModeChanged { pane },
            Notification::Pause { pane } => NotificationView::Pause { pane },
            Notification::Continue { pane } => NotificationView::Continue { pane },
            Notification::Exit { reason } => NotificationView::Exit {
                reason: match reason {
                    Some(r) => Some(r@),
                    None => None,
                },
            },
            Notification::Unknown { line } => NotificationView::Unknown { line: line@ },
        }
    }
}

impl Event {
    pub open spec fn view(&self) -> EventView {
        match *self {
            Event::Notification(n) => EventView::Notification(n@),
            Event::Reply { num, body, error } => EventView::Reply {
                num,
                body: lines_view(body@),
                error,
            },
        }
    }
}

/// The mathematical values of a list of events.
pub open spec fn events_view(events: Seq<Event>) -> Seq<EventView> {
    Seq::new(events.len(), |i: int| events[i]@)
}

// ---------------------------------------------------------------------------
// Guard lines.
// ---------------------------------------------------------------------------

/// A guard line around a command reply.
#[derive(Debug, Clone, Copy, PartialEq, Eq, Structural)]
pub enum Guard {
    Begin { num: u64 },
    End { num: u64, error: bool },
}

/// Reads `%begin|%end|%error <timestamp> <command-number> [...]` at column 0.
pub open spec fn guard_of(line: Seq<u8>) -> Option<Guard> {
    let s = decode_utf8(line);
    if !valid_utf8(line) || s.len() == 0 || s[0] != '%' {
        None
    } else {
        match word_at(s, 0) {
            None => None,
            Some((a, b)) => {
                let kind = s.subrange(a, b);
                if kind != "%begin"@ && kind != "%end"@ && kind != "%error"@ {
                    None
                } else {
                    match word_at(s, b) {
                        None => None,
                        Some((_, c)) => match word_at(s, c) {
                            None => None,
                            Some((d, e)) => match parse_uint(
                                s.subrange(d, e),
                                false,
                                u64::MAX as nat,
                            ) {
                                None => None,
                                Some(num) => Some(
                                    if kind == "%begin"@ {
                                        Guard::Begin { num: num as u64 }
                                    } else {
                                        Guard::End { num: num as u64, error: kind != "%end"@ }
                                    },
                                ),
                            },
                        },
                    }
                }
            },
        }
    }
}

/// Parses a guard line. Anything else, a malformed guard too, is `None`.
pub fn parse_guard(line: &[u8]) -> (r: Option<Guard>)
    ensures
        r == guard_of(line@),
{
    let text = match from_utf8(line) {
        Some(s) => s,
        None => return None,
    };
    let s = chars_of(text.as_str());
    let s = s.as_slice();
    if s.len() == 0 || s[0] != '%' {
        return None;
    }
    let (a, b) = match next_word(s, 0) {
        Some(w) => w,
        None => return None,
    };
    let kind = vstd::slice::slice_subrange(s, a, b);
    let begin = is_text(kind, "%begin");
    let end = is_text(kind, "%end");
    if !begin && !end && !is_text(kind, "%error") {
        return None;
    }
    let (_, c) = match next_word(s, b) {
        Some(w) => w,
        None => return None,
    };
    let (d, e) = match next_word(s, c) {
        Some(w) => w,
        None => return None,
    };
    match parse_number(vstd::slice::slice_subrange(s, d, e), false, u64::MAX) {
        None => None,
        Some(num) => if begin {
            Some(Guard::Begin { num })
        } else {
            Some(Guard::End { num, error: !end })
        },
    }
}

// ---------------------------------------------------------------------------
// Notifications.
// ---------------------------------------------------------------------------

/// The first word of a text.
pub open spec fn first_word(s: Seq<char>) -> Option<Seq<char>> {
    match word_at(s, 0) {
        Some((a, b)) => Some(s.subrange(a, b)),
        None => None,
    }
}

/// The first word of a text.
pub fn first_token<'a>(rest: &'a [char]) -> (r: Option<&'a [char]>)
    ensures
        match r {
            Some(w) => first_word(rest@) == Some(w@),
            None => first_word(rest@) == None::<Seq<char>>,
        },
{
    match next_word(rest, 0) {
        Some((a, b)) => Some(vstd::slice::slice_subrange(rest, a, b)),
        None => None,
    }
}

/// The number behind an id's sigil.
pub open spec fn id_of(token: Seq<char>, sigil: char) -> Option<u64> {
    if token.len() > 0 && token[0] == sigil {
        match parse_uint(token.skip(1), false, u64::MAX as nat) {
            Some(n) => Some(n as u64),
            None => None,
        }
    } else {
        None
    }
}

/// Strips the sigil of a tmux id and reads the number. A missing or wrong sigil fails.
pub fn parse_id(token: &[char], sigil: char) -> (r: Option<u64>)
    ensures
        r == id_of(token@, sigil),
{
    if token.len() > 0 && token[0] == sigil {
        parse_number(vstd::slice::slice_subrange(token, 1, token.len()), false, u64::MAX)
    } else {
        None
    }
}

/// The id in the first word of a text.
pub open spec fn first_id(rest: Seq<char>, sigil: char) -> Option<u64> {
    match first_word(rest) {
        Some(w) => id_of(w, sigil),
        None => None,
    }
}

fn parse_first_id(rest: &[char], sigil: char) -> (r: Option<u64>)
    ensures
        r == first_id(rest@, sigil),
{
    match first_token(rest) {
        Some(w) => parse_id(w, sigil),
        None => None,
    }
}

/// The notification that a well-formed `%` line announces.
pub open spec fn known_notification(line: Seq<u8>) -> Option<NotificationView> {
    let output = encode_utf8("%output "@);
    if has_prefix(line, output) {
        let rest = line.skip(output.len() as int);
        let id = before(rest, 32u8);
        if !valid_utf8(id) {
            None
        } else {
            match id_of(decode_utf8(id), '%') {
                Some(pane) => Some(
                    NotificationView::Output { pane, data: unescaped(after(rest, 32u8)) },
                ),
                None => None,
            }
        }
    } else if !valid_utf8(line) {
        None
    } else {
        let s = decode_utf8(line);
        known_text_notification(before(s, ' '), after(s, ' '))
    }
}

/// The notification of a text line, by its first word and the rest of the line.
pub open spec fn known_text_notification(word: Seq<char>, rest: Seq<char>) -> Option<
    NotificationView,
> {
    if word == "%layout-change"@ {
        match (id_of(before(rest, ' '), '@'), find(rest, ' ', 0)) {
            (Some(window), Some(_)) => match layout_of(before(after(rest, ' '), ' ')) {
                Ok(layout) => Some(NotificationView::LayoutChange { window, layout }),
                Err(_) => None,
            },
            _ => None,
        }
    } else if word == "%window-add"@ {
        match first_id(rest, '@') {
            Some(window) => Some(NotificationView::WindowAdd { window }),
            None => None,
        }
    } else if word == "%window-close"@ {
        match first_id(rest, '@') {
            Some(window) => Some(NotificationView::WindowClose { window }),
            None => None,
        }
    } else if word == "%window-renamed"@ {
        match id_of(before(rest, ' '), '@') {
            Some(window) => Some(
                NotificationView::WindowRenamed { window, name: after(rest, ' ') },
            ),
            None => None,
        }
    } else if word == "%session-changed"@ {
        match id_of(before(rest, ' '), '$') {
            Some(session) => Some(
                NotificationView::SessionChanged { session, name: after(rest, ' ') },
            ),
            None => None,
        }
    } else if word == "%sessions-changed"@ {
        Some(NotificationView::SessionsChanged)
    } else if word == "%pane-mode-changed"@ {
        match first_id(rest, '%') {
            Some(pane) => Some(NotificationView::PaneModeChanged { pane }),
            None => None,
        }
    } else if word == "%pause"@ {
        match first_id(rest, '%') {
            Some(pane) => Some(NotificationView::Pause { pane }),
            None => None,
        }
    } else if word == "%continue"@ {
        match first_id(rest, '%') {
            Some(pane) => Some(NotificationView::Continue { pane }),
            None => None,
        }
    } else if word == "%exit"@ {
        Some(
            NotificationView::Exit {
                reason: if rest.len() == 0 {
                    None
                } else {
                    Some(rest)
                },
            },
        )
    } else {
        None
    }
}

/// The notification of a line outside any reply block.
pub open spec fn notification_of(line: Seq<u8>) -> NotificationView {
    match known_notification(line) {
        Some(n) => n,
        None => NotificationView::Unknown { line: utf8_lossy(line) },
    }
}

/// Parses a line outside any reply block. Unrecognized and malformed lines become `Unknown`.
pub fn parse_notification(line: &[u8]) -> (n: Notification)
    ensures
        n@ == notification_of(line@),
{
    match parse_known_notification(line) {
        Some(n) => n,
        None => Notification::Unknown { line: lossy(line) },
    }
}

/// Parses a well-formed notification line.
pub fn parse_known_notification(line: &[u8]) -> (r: Option<Notification>)
    ensures
        match r {
            Some(n) => known_notification(line@) == Some(n@),
            None => known_notification(line@) == None::<NotificationView>,
        },
{
    let output = "%output ".as_bytes();
    if bytes_start_with(line, output) {
        let rest = vstd::slice::slice_subrange(line, output.len(), line.len());
        let n: usize = rest.len();
        let (id, data) = match find_byte(rest, 32, 0) {
            Some(i) => (
                vstd::slice::slice_subrange(rest, 0, i),
                vstd::slice::slice_subrange(rest, i + 1, n),
            ),
            None => (rest, vstd::slice::slice_subrange(rest, n, n)),
        };
        assert(rest@ =~= line@.skip(output@.len() as int));
        assert(id@ =~= before(rest@, 32u8));
        assert(data@ =~= after(rest@, 32u8));
        let id = match from_utf8(id) {
            Some(s) => chars_of(s.as_str()),
            None => return None,
        };
        return match parse_id(id.as_slice(), '%') {
            Some(pane) => Some(Notification::Output { pane, data: unescape(data) }),
            None => None,
        };
    }
    let s = match from_utf8(line) {
        Some(s) => chars_of(s.as_str()),
        None => return None,
    };
    let (word, rest) = split_once(s.as_slice(), ' ');
    parse_text_notification(word, rest)
}

fn parse_text_notification(word: &[char], rest: &[char]) -> (r: Option<Notification>)
    ensures
        match r {
            Some(n) => known_text_notification(word@, rest@) == Some(n@),
            None => known_text_notification(word@, rest@) == None::<NotificationView>,
        },
{
    if is_text(word, "%layout-change") {
        let (id, more) = split_once(rest, ' ');
        let window = match parse_id(id, '@') {
            Some(w) => w,
            None => return None,
        };
        if crate::text::find_char(rest, ' ', 0).is_none() {
            return None;
        }
        let (token, _) = split_once(more, ' ');
        match parse_layout(string_of(token).as_str()) {
            Ok(layout) => Some(Notification::LayoutChange { window, layout }),
            Err(_) => None,
        }
    } else if is_text(word, "%window-add") {
        match parse_first_id(rest, '@') {
            Some(window) => Some(Notification::WindowAdd { window }),
            None => None,
        }
    } else if is_text(word, "%window-close") {
        match parse_first_id(rest, '@') {
            Some(window) => Some(Notification::WindowClose { window }),
            None => None,
        }
    } else if is_text(word, "%window-renamed") {
        let (id, name) = split_once(rest, ' ');
        match parse_id(id, '@') {
            Some(window) => Some(Notification::WindowRenamed { window, name: string_of(name) }),
            None => None,
        }
    } else if is_text(word, "%session-changed") {
        let (id, name) = split_once(rest, ' ');
        match parse_id(id, '$') {
            Some(session) => Some(Notification::SessionChanged { session, name: string_of(name) }),
            None => None,
        }
    } else if is_text(word, "%sessions-changed") {
        Some(Notification::SessionsChanged)
    } else if is_text(word, "%pane-mode-changed") {
        match parse_first_id(rest, '%') {
            Some(pane) => Some(Notification::PaneModeChanged { pane }),
            None => None,
        }
    } else if is_text(word, "%pause") {
        match parse_first_id(rest, '%') {
            Some(pane) => Some(Notification::Pause { pane }),
            None => None,
        }
    } else if is_text(word, "%continue") {
        match parse_first_id(rest, '%') {
            Some(pane) => Some(Notification::Continue { pane }),
            None => None,
        }
    } else if is_text(word, "%exit") {
        let reason = if rest.len() == 0 {
            None
        } else {
            Some(string_of(rest))
        };
        Some(Notification::Exit { reason })
    } else {
        None
    }
}

// ---------------------------------------------------------------------------
// The stream.
// ---------------------------------------------------------------------------

/// Longest unterminated line buffered before the parser starts discarding. The peer controls
/// line lengths, so without a cap a newline-free stream would grow the buffer without bound.
pub const MAX_LINE: usize = 1048576;

/// What stands in for an overlong line.
pub open spec fn overlong_note() -> Seq<char> {
    "<gmux-tmux: overlong line discarded>"@
}

/// The open `%begin` block.
#[derive(Debug)]
pub struct PendingReply {
    pub num: u64,
    pub body: Vec<Vec<u8>>,
}

/// Stateful control-mode parser. Feed it byte chunks as they arrive; it buffers partial lines
/// across calls (lines end in `\n`; `\r\n` is tolerated) and tracks the open `%begin` block. A line
/// over the cap is dropped, however it arrives.
#[derive(Debug)]
pub struct Parser {
    /// Bytes of the current, not yet terminated line.
    buf: Vec<u8>,
    /// The open `%begin` block, if any.
    reply: Option<PendingReply>,
    /// Whether an overlong line is being dropped.
    discarding: bool,
}

/// The mathematical value of an open reply block.
pub struct ReplyView {
    pub num: u64,
    pub body: Seq<Seq<u8>>,
}

/// The mathematical value of a [`Parser`].
pub struct ParserView {
    pub buf: Seq<u8>,
    pub reply: Option<ReplyView>,
    pub discarding: bool,
}

/// A line without its trailing carriage return.
pub open spec fn chomp(line: Seq<u8>) -> Seq<u8> {
    if line.len() > 0 && line.last() == 13 {
        line.drop_last()
    } else {
        line
    }
}

/// What one complete line (terminator stripped) does: the open block afterwards, and the event
/// that the line completes.
#[verifier::opaque]
pub open spec fn line_step(reply: Option<ReplyView>, line: Seq<u8>) -> (
    Option<ReplyView>,
    Seq<EventView>,
) {
    match reply {
        Some(open) => match guard_of(line) {
            Some(Guard::End { num, error }) if num == open.num => (
                None,
                seq![EventView::Reply { num: open.num, body: open.body, error }],
            ),
            _ => (
                Some(ReplyView { num: open.num, body: open.body.push(line) }),
                Seq::empty(),
            ),
        },
        None => match guard_of(line) {
            Some(Guard::Begin { num }) => (
                Some(ReplyView { num, body: Seq::empty() }),
                Seq::empty(),
            ),
            _ => (None, seq![EventView::Notification(notification_of(line))]),
        },
    }
}

/// What the end of a discarded overlong line does.
#[verifier::opaque]
pub open spec fn overlong_step(reply: Option<ReplyView>) -> (Option<ReplyView>, Seq<EventView>) {
    match reply {
        Some(open) => (
            Some(
                ReplyView { num: open.num, body: open.body.push(encode_utf8(overlong_note())) },
            ),
            Seq::empty(),
        ),
        None => (
            None,
            seq![
                EventView::Notification(NotificationView::Unknown { line: overlong_note() }),
            ],
        ),
    }
}

/// Processes `buf` line by line: the parser afterwards and the events, in order.
pub open spec fn run(reply: Option<ReplyView>, discarding: bool, buf: Seq<u8>) -> (
    ParserView,
    Seq<EventView>,
)
    decreases buf.len(),
{
    match find(buf, 10u8, 0) {
        Some(nl) => if 0 <= nl < buf.len() {
            let (next, now) = if discarding || nl > MAX_LINE {
                overlong_step(reply)
            } else {
                line_step(reply, chomp(buf.take(nl)))
            };
            let (p, later) = run(next, false, buf.skip(nl + 1));
            (p, now + later)
        } else {
            (ParserView { buf, reply, discarding }, Seq::empty())
        },
        None => if discarding || buf.len() > MAX_LINE {
            (ParserView { buf: Seq::empty(), reply, discarding: true }, Seq::empty())
        } else {
            (ParserView { buf, reply, discarding: false }, Seq::empty())
        },
    }
}

/// Feeding `bytes` to a parser: the parser afterwards and the events, in order.
pub open spec fn feed_of(p: ParserView, bytes: Seq<u8>) -> (ParserView, Seq<EventView>) {
    run(p.reply, p.discarding, p.buf + bytes)
}

impl ParserView {
    /// Between calls the buffer holds an unterminated line within the cap, and nothing while a
    /// line is being dropped.
    pub open spec fn wf(self) -> bool {
        &&& find(self.buf, 10u8, 0) is None
        &&& self.buf.len() <= MAX_LINE
        &&& self.discarding ==> self.buf.len() == 0
    }
}

impl Parser {
    pub closed spec fn view(&self) -> ParserView {
        ParserView {
            buf: self.buf@,
            reply: match self.reply {
                Some(r) => Some(ReplyView { num: r.num, body: lines_view(r.body@) }),
                None => None,
            },
            discarding: self.discarding,
        }
    }

    /// A parser at the start of a stream.
    pub fn new() -> (p: Self)
        ensures
            p@ == (ParserView { buf: Seq::empty(), reply: None, discarding: false }),
            p@.wf(),
    {
        Parser { buf: Vec::new(), reply: None, discarding: false }
    }

    /// Handles one complete line (terminator already stripped). Returns at most one event;
    /// `%begin` and reply-body lines return none until the block closes.
    fn process_line(&mut self, line: &[u8]) -> (r: Option<Event>)
        ensures
            final(self)@.buf == old(self)@.buf,
            final(self)@.discarding == old(self)@.discarding,
            (final(self)@.reply, match r {
                Some(e) => seq![e@],
                None => Seq::empty(),
            }) == line_step(old(self)@.reply, line@),
    {
        proof {
            reveal(line_step);
        }
        let guard = parse_guard(line);
        let mut slot: Option<PendingReply> = None;
        std::mem::swap(&mut slot, &mut self.reply);
        match slot {
            Some(open) => {
                if let Some(Guard::End { num, error }) = guard {
                    if num == open.num {
                        return Some(Event::Reply { num: open.num, body: open.body, error });
                    }
                }
                let PendingReply { num, mut body } = open;
                let ghost old_body = body@;
                body.push(vstd::slice::slice_to_vec(line));
                assert(lines_view(body@) =~= lines_view(old_body).push(line@));
                self.reply = Some(PendingReply { num, body });
                None
            },
            None => {
                if let Some(Guard::Begin { num }) = guard {
                    let body: Vec<Vec<u8>> = Vec::new();
                    assert(lines_view(body@) =~= Seq::empty());
                    self.reply = Some(PendingReply { num, body });
                    return None;
                }
                Some(Event::Notification(parse_notification(line)))
            },
        }
    }

    /// Ends a discarded overlong line: the loss is surfaced in place of the line.
    fn end_overlong(&mut self) -> (r: Option<Event>)
        ensures
            final(self)@.buf == old(self)@.buf,
            final(self)@.discarding == old(self)@.discarding,
            (final(self)@.reply, match r {
                Some(e) => seq![e@],
                None => Seq::empty(),
            }) == overlong_step(old(self)@.reply),
    {
        proof {
            reveal(overlong_step);
        }
        let note = "<gmux-tmux: overlong line discarded>";
        let mut slot: Option<PendingReply> = None;
        std::mem::swap(&mut slot, &mut self.reply);
        match slot {
            Some(open) => {
                let PendingReply { num, mut body } = open;
                let ghost old_body = body@;
                body.push(note.as_bytes_vec());
                assert(lines_view(body@) =~= lines_view(old_body).push(encode_utf8(note@)));
                self.reply = Some(PendingReply { num, body });
                None
            },
            None => Some(
                Event::Notification(Notification::Unknown { line: note.to_owned() }),
            ),
        }
    }

    /// Consumes a chunk of transport bytes, returning all events completed by this chunk.
    pub fn feed(&mut self, bytes: &[u8]) -> (events: Vec<Event>)
        ensures
            (final(self)@, events_view(events@)) == feed_of(old(self)@, bytes@),
            old(self)@.wf() ==> final(self)@.wf(),
    {
        let mut buf: Vec<u8> = Vec::new();
        std::mem::swap(&mut buf, &mut self.buf);
        buf.extend_from_slice(bytes);
        assert(buf@ =~= old(self)@.buf + bytes@);
        let buf = buf.as_slice();
        let n: usize = buf.len();
        let mut events: Vec<Event> = Vec::new();
        let mut start: usize = 0;
        assert(buf@.skip(0) =~= buf@);
        assert(events_view(events@) =~= Seq::empty());
        let ghost whole = run(self@.reply, self@.discarding, buf@);
        assert(whole.1 =~= Seq::empty() + whole.1);
        loop
            invariant
                start <= n,
                n == buf@.len(),
                self@.buf == Seq::<u8>::empty(),
                whole.0 == run(self@.reply, self@.discarding, buf@.skip(start as int)).0,
                whole.1 == events_view(events@) + run(
                    self@.reply,
                    self@.discarding,
                    buf@.skip(start as int),
                ).1,
            ensures
                start <= n,
                find(buf@.skip(start as int), 10u8, 0) is None,
            decreases n - start,
        {
            let rest = vstd::slice::slice_subrange(buf, start, n);
            assert(rest@ =~= buf@.skip(start as int));
            proof {
                lemma_find(rest@, 10u8, 0);
            }
            let nl = match find_byte(rest, 10, 0) {
                Some(i) => i,
                None => break,
            };
            let ghost before_events = events@;
            let ghost (reply, discarding) = (self@.reply, self@.discarding);
            let event = if self.discarding || nl > MAX_LINE {
                self.discarding = false;
                self.end_overlong()
            } else {
                let end: usize = if nl > 0 && rest[nl - 1] == 13 {
                    nl - 1
                } else {
                    nl
                };
                let line = vstd::slice::slice_subrange(rest, 0, end);
                assert(line@ =~= chomp(rest@.take(nl as int)));
                self.process_line(line)
            };
            proof {
                assert(rest@.skip(nl + 1) =~= buf@.skip(start + nl + 1));
            }
            match event {
                Some(e) => {
                    events.push(e);
                    assert(events_view(events@) =~= events_view(before_events) + seq![e@]);
                },
                None => {
                    assert(events_view(events@) =~= events_view(before_events) + Seq::empty());
                },
            }
            proof {
                let tail = run(self@.reply, false, rest@.skip(nl + 1));
                let step = if discarding || nl > MAX_LINE {
                    overlong_step(reply)
                } else {
                    line_step(reply, chomp(rest@.take(nl as int)))
                };
                assert(events_view(before_events) + (step.1 + tail.1) =~= (events_view(
                    before_events,
                ) + step.1) + tail.1);
            }
            start = start + nl + 1;
        }
        let rest = vstd::slice::slice_subrange(buf, start, n);
        assert(rest@ =~= buf@.skip(start as int));
        if self.discarding {
        } else if rest.len() > MAX_LINE {
            self.discarding = true;
        } else {
            self.buf = vstd::slice::slice_to_vec(rest);
        }
        assert(events_view(events@) + Seq::empty() =~= events_view(events@));
        proof {
            lemma_run_wf(old(self)@.reply, old(self)@.discarding, old(self)@.buf + bytes@);
        }
        events
    }
}

// ---------------------------------------------------------------------------
// Laws of the stream.
// ---------------------------------------------------------------------------

proof fn lemma_run_wf(reply: Option<ReplyView>, discarding: bool, buf: Seq<u8>)
    ensures
        run(reply, discarding, buf).0.wf(),
    decreases buf.len(),
{
    lemma_find(buf, 10u8, 0);
    lemma_find(Seq::<u8>::empty(), 10u8, 0);
    if let Some(nl) = find(buf, 10u8, 0) {
        let (next, now) = if discarding || nl > MAX_LINE {
            overlong_step(reply)
        } else {
            line_step(reply, chomp(buf.take(nl)))
        };
        lemma_run_wf(next, false, buf.skip(nl + 1));
    }
}

/// Between calls a parser never holds a terminated line or more than the cap.
pub proof fn feed_keeps_buffer_bounded(p: ParserView, bytes: Seq<u8>)
    ensures
        feed_of(p, bytes).0.wf(),
{
    lemma_run_wf(p.reply, p.discarding, p.buf + bytes);
}

proof fn lemma_find_append(a: Seq<u8>, b: Seq<u8>)
    ensures
        match find(a, 10u8, 0) {
            Some(i) => find(a + b, 10u8, 0) == Some(i),
            None => find(a + b, 10u8, 0) == (match find(b, 10u8, 0) {
                Some(j) => Some(a.len() + j),
                None => None,
            }),
        },
{
    lemma_find(a, 10u8, 0);
    lemma_find(b, 10u8, 0);
    lemma_find(a + b, 10u8, 0);
    let ab = a + b;
    if let Some(i) = find(a, 10u8, 0) {
        assert(ab[i] == 10);
        if let Some(k) = find(ab, 10u8, 0) {
            if k < i {
                assert(a[k] == ab[k]);
            }
        }
    } else {
        if let Some(j) = find(b, 10u8, 0) {
            assert(ab[a.len() + j] == b[j]);
            if let Some(k) = find(ab, 10u8, 0) {
                if k < a.len() {
                    assert(a[k] == ab[k]);
                } else if k < a.len() + j {
                    assert(b[k - a.len()] == ab[k]);
                } else if k > a.len() + j {
                    assert(ab[a.len() + j] != 10);
                }
            }
        } else {
            if let Some(k) = find(ab, 10u8, 0) {
                if k < a.len() {
                    assert(a[k] == ab[k]);
                } else {
                    assert(b[k - a.len()] == ab[k]);
                }
            }
        }
    }
}

proof fn lemma_run_append(reply: Option<ReplyView>, discarding: bool, a: Seq<u8>, b: Seq<u8>)
    ensures
        run(reply, discarding, a + b) == ({
            let (p, first) = run(reply, discarding, a);
            let (q, second) = run(p.reply, p.discarding, p.buf + b);
            (q, first + second)
        }),
    decreases a.len(),
{
    lemma_find(a, 10u8, 0);
    lemma_find_append(a, b);
    match find(a, 10u8, 0) {
        Some(nl) => {
            let (next, now) = if discarding || nl > MAX_LINE {
                overlong_step(reply)
            } else {
                line_step(reply, chomp(a.take(nl)))
            };
            assert((a + b).take(nl) =~= a.take(nl));
            assert((a + b).skip(nl + 1) =~= a.skip(nl + 1) + b);
            lemma_run_append(next, false, a.skip(nl + 1), b);
            let (p, first) = run(next, false, a.skip(nl + 1));
            let (q, second) = run(p.reply, p.discarding, p.buf + b);
            assert(now + (first + second) =~= (now + first) + second);
        },
        None => {
            let (p, first) = run(reply, discarding, a);
            let (q, second) = run(p.reply, p.discarding, p.buf + b);
            assert(first + second =~= second);
            if discarding || a.len() > MAX_LINE {
                // The dropped prefix only has to be free of newlines.
                assert(p.buf + b =~= b);
                lemma_find(b, 10u8, 0);
                if let Some(j) = find(b, 10u8, 0) {
                    assert((a + b).skip(a.len() + j + 1) =~= b.skip(j + 1));
                }
            }
        },
    }
}

/// Splitting the stream at any byte boundary yields the same events and the same parser.
pub proof fn feeding_in_chunks_is_feeding_at_once(p: ParserView, a: Seq<u8>, b: Seq<u8>)
    ensures
        feed_of(p, a + b) == ({
            let (q, first) = feed_of(p, a);
            let (r, second) = feed_of(q, b);
            (r, first + second)
        }),
{
    assert(p.buf + (a + b) =~= (p.buf + a) + b);
    lemma_run_append(p.reply, p.discarding, p.buf + a, b);
}

/// While a block is open, a line that is not its closing guard becomes reply body and no event,
/// whatever it looks like.
pub proof fn body_lines_are_never_notifications(open: ReplyView, line: Seq<u8>)
    requires
        !(guard_of(line) matches Some(Guard::End { num, error }) && num == open.num),
    ensures
        line_step(Some(open), line) == (
            Some(ReplyView { num: open.num, body: open.body.push(line) }),
            Seq::<EventView>::empty(),
        ),
{
    reveal(line_step);
}

/// A whole block gives exactly one event: a reply with the block's number and its lines.
pub proof fn a_block_is_one_reply(
    begin: Seq<u8>,
    body: Seq<Seq<u8>>,
    end: Seq<u8>,
    num: u64,
    error: bool,
)
    requires
        guard_of(begin) == Some(Guard::Begin { num }),
        guard_of(end) == Some(Guard::End { num, error }),
        forall|i: int|
            0 <= i < body.len() ==> !(guard_of(#[trigger] body[i]) matches Some(
                Guard::End { num: n, error: e },
            ) && n == num),
    ensures
        run_lines(None, seq![begin] + body + seq![end]) == (
            None::<ReplyView>,
            seq![EventView::Reply { num, body, error }],
        ),
{
    reveal(line_step);
    let lines = seq![begin] + body + seq![end];
    let opened = Some(ReplyView { num, body: Seq::empty() });
    lemma_run_lines_body(ReplyView { num, body: Seq::empty() }, body, end);
    assert(lines.skip(1) =~= body + seq![end]);
    assert(lines[0] == begin);
    let tail = run_lines(opened, body + seq![end]);
    assert(Seq::<EventView>::empty() + tail.1 =~= tail.1);
    assert(Seq::<Seq<u8>>::empty() + body =~= body);
    lemma_run_lines_end(ReplyView { num, body }, end);
}

/// Processes complete lines one after the other.
pub open spec fn run_lines(reply: Option<ReplyView>, lines: Seq<Seq<u8>>) -> (
    Option<ReplyView>,
    Seq<EventView>,
)
    decreases lines.len(),
{
    if lines.len() == 0 {
        (reply, Seq::empty())
    } else {
        let (next, now) = line_step(reply, lines[0]);
        let (last, later) = run_lines(next, lines.skip(1));
        (last, now + later)
    }
}

proof fn lemma_run_lines_end(open: ReplyView, end: Seq<u8>)
    requires
        guard_of(end) matches Some(Guard::End { num, error }) && num == open.num,
    ensures
        run_lines(Some(open), seq![end]) == line_step(Some(open), end),
{
    reveal(line_step);
    let lines = seq![end];
    assert(lines.skip(1) =~= Seq::empty());
    let (next, now) = line_step(Some(open), end);
    assert(run_lines(next, lines.skip(1)) == (next, Seq::<EventView>::empty()));
    assert(now + Seq::<EventView>::empty() =~= now);
}

proof fn lemma_run_lines_body(open: ReplyView, body: Seq<Seq<u8>>, end: Seq<u8>)
    requires
        forall|i: int|
            0 <= i < body.len() ==> !(guard_of(#[trigger] body[i]) matches Some(
                Guard::End { num: n, error: e },
            ) && n == open.num),
    ensures
        run_lines(Some(open), body + seq![end]) == run_lines(
            Some(ReplyView { num: open.num, body: open.body + body }),
            seq![end],
        ),
    decreases body.len(),
{
    reveal(line_step);
    if body.len() == 0 {
        assert(body + seq![end] =~= seq![end]);
        assert(open.body + body =~= open.body);
    } else {
        let lines = body + seq![end];
        let next = ReplyView { num: open.num, body: open.body.push(body[0]) };
        assert(lines[0] == body[0]);
        assert(lines.skip(1) =~= body.skip(1) + seq![end]);
        lemma_run_lines_body(next, body.skip(1), end);
        assert(open.body.push(body[0]) + body.skip(1) =~= open.body + body);
        let tail = run_lines(Some(next), lines.skip(1));
        assert(Seq::<EventView>::empty() + tail.1 =~= tail.1);
    }
}

} // verus!
