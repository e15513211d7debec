//! The control-mode transport: what a `tmux -CC` client reads and writes, without the process.
//!
//! The bytes that the peer writes go in by [`RemoteTmux::feed`], the commands for it come out by
//! [`RemoteTmux::take_commands`]. Replies are positional: control mode answers commands strictly
//! in the order in which they were sent, so the Nth reply drained answers the Nth command. The one
//! exception is the attach greeting, the reply to the command on the client's own command line: it
//! is the first block of the stream, and it is surfaced on its own and not counted.
use vstd::prelude::*;
use vstd::slice::*;
use vstd::string::*;

use crate::lists::reversed;
#[allow(unused_imports)]
use crate::mux::ids::after;
use crate::remote::dcs::DcsFilter;
#[allow(unused_imports)]
use crate::remote::dcs::{
    fed, filtering_in_chunks_is_filtering_at_once, intro, passed, stripped, undecided, DcsView,
};
use crate::text::{chars_of, next_token, push_char, push_decimal, string_of, trim};
#[allow(unused_imports)]
use crate::text::{dec, texts_view, token_at, trim_start_at, trimmed};
use crate::tmux::parser::{Event, Notification, Parser};
#[allow(unused_imports)]
use crate::tmux::parser::{
    events_view, feed_of, feeding_in_chunks_is_feeding_at_once, EventView, NotificationView,
    ParserView,
};

verus! {

/// One event drained from the transport.
#[derive(Debug, PartialEq, Eq)]
pub enum TransportEvent {
    /// The attach greeting: the first reply of the stream. It answers no command.
    Greeting(Event),
    /// A notification or a reply.
    Ctrl(Event),
    /// The peer's output ended. It comes once, after every other event.
    Eof,
}

/// The mathematical value of a [`TransportEvent`].
pub enum TransportEventView {
    Greeting(EventView),
    Ctrl(EventView),
    Eof,
}

impl TransportEvent {
    pub open spec fn view(&self) -> TransportEventView {
        match *self {
            TransportEvent::Greeting(e) => TransportEventView::Greeting(e@),
            TransportEvent::Ctrl(e) => TransportEventView::Ctrl(e@),
            TransportEvent::Eof => TransportEventView::Eof,
        }
    }
}

/// The mathematical values of a list of transport events.
pub open spec fn transport_events_view(events: Seq<TransportEvent>) -> Seq<TransportEventView> {
    Seq::new(events.len(), |i: int| events[i]@)
}

/// The mathematical value of a [`RemoteTmux`].
pub struct TransportView {
    pub filter: DcsView,
    pub parser: ParserView,
    /// Whether the greeting was seen.
    pub greeted: bool,
    /// Events that wait to be drained.
    pub queue: Seq<TransportEventView>,
    /// Commands that wait to be written.
    pub outbox: Seq<Seq<char>>,
    /// Commands sent so far.
    pub sent: u64,
    /// Replies seen so far, without the greeting.
    pub replies_seen: u64,
    /// Whether the peer's output ended.
    pub eof: bool,
    /// Whether `%exit` was seen: the remote side ended control mode on purpose.
    pub detached: bool,
    /// Whether commands still go out.
    pub open: bool,
}

/// A control-mode connection.
pub struct RemoteTmux {
    filter: DcsFilter,
    parser: Parser,
    greeted: bool,
    queue: Vec<TransportEvent>,
    outbox: Vec<String>,
    sent: u64,
    replies_seen: u64,
    eof: bool,
    detached: bool,
    open: bool,
}

/// A connection at the start of its stream.
pub open spec fn connected() -> TransportView {
    TransportView {
        filter: Some(Seq::empty()),
        parser: ParserView { buf: Seq::empty(), reply: None, discarding: false },
        greeted: false,
        queue: Seq::empty(),
        outbox: Seq::empty(),
        sent: 0,
        replies_seen: 0,
        eof: false,
        detached: false,
        open: true,
    }
}

/// What one parsed event does: `%exit` ends the conversation, the first reply is the greeting, and
/// later replies are counted.
pub open spec fn noted(t: TransportView, e: EventView) -> TransportView {
    match e {
        EventView::Notification(NotificationView::Exit { .. }) => TransportView {
            detached: true,
            queue: t.queue.push(TransportEventView::Ctrl(e)),
            ..t
        },
        EventView::Reply { .. } if !t.greeted => TransportView {
            greeted: true,
            queue: t.queue.push(TransportEventView::Greeting(e)),
            ..t
        },
        EventView::Reply { .. } => TransportView {
            replies_seen: after(t.replies_seen),
            queue: t.queue.push(TransportEventView::Ctrl(e)),
            ..t
        },
        _ => TransportView { queue: t.queue.push(TransportEventView::Ctrl(e)), ..t },
    }
}

/// What parsed events do, in order. What follows `%exit` is not protocol.
pub open spec fn noted_all(t: TransportView, es: Seq<EventView>) -> TransportView
    decreases es.len(),
{
    if es.len() == 0 || t.detached {
        t
    } else {
        noted_all(noted(t, es[0]), es.skip(1))
    }
}

/// What a chunk of the peer's output does.
pub open spec fn received(t: TransportView, bytes: Seq<u8>) -> TransportView {
    if t.eof || t.detached {
        t
    } else {
        let (parser, es) = feed_of(t.parser, passed(t.filter, bytes));
        noted_all(TransportView { filter: fed(t.filter, bytes), parser, ..t }, es)
    }
}

/// What the end of the peer's output does.
pub open spec fn ended(t: TransportView) -> TransportView {
    if t.eof {
        t
    } else {
        TransportView { eof: true, queue: t.queue.push(TransportEventView::Eof), ..t }
    }
}

/// What sending a command does. A command sent after the pipe was closed is counted and lost.
pub open spec fn commanded(t: TransportView, command: Seq<char>) -> TransportView {
    TransportView {
        sent: after(t.sent),
        outbox: if t.open {
            t.outbox.push(command)
        } else {
            t.outbox
        },
        ..t
    }
}

/// A hexadecimal digit.
pub open spec fn hex_char(n: int) -> char {
    if n < 10 {
        (48 + n) as char
    } else {
        (87 + n) as char
    }
}

/// Bytes as space-separated pairs of hexadecimal digits, a space before each.
pub open spec fn hex_list(bytes: Seq<u8>) -> Seq<char>
    decreases bytes.len(),
{
    if bytes.len() == 0 {
        Seq::empty()
    } else {
        hex_list(bytes.drop_last()) + seq![
            ' ',
            hex_char(bytes.last() as int / 16),
            hex_char(bytes.last() as int % 16),
        ]
    }
}

/// The command that types bytes into a pane. Hexadecimal, so that no byte needs quoting.
pub open spec fn keys_command(pane: u64, bytes: Seq<u8>) -> Seq<char> {
    "send-keys -t %"@ + dec(pane as nat) + " -H"@ + hex_list(bytes)
}

/// The command that tells the peer the client's size.
pub open spec fn size_command(w: u16, h: u16) -> Seq<char> {
    "refresh-client -C "@ + dec(w as nat) + seq!['x'] + dec(h as nat)
}

/// The command that splits a pane.
pub open spec fn split_command(pane: u64, horizontal: bool) -> Seq<char> {
    "split-window -t %"@ + dec(pane as nat) + (if horizontal {
        " -h"@
    } else {
        " -v"@
    })
}

/// The program and the arguments of a command line: the first token, and the rest as it stands.
pub open spec fn command_parts(line: Seq<char>) -> Option<(Seq<char>, Seq<char>)> {
    let t = trimmed(line);
    match token_at(t, 0) {
        Some((a, b)) => Some((t.subrange(a, b), t.skip(trim_start_at(t, b)))),
        None => None,
    }
}

/// Takes a command line apart; none where it is empty.
pub fn program_and_args(line: &str) -> (r: Option<(String, String)>)
    ensures
        match r {
            Some((program, args)) => command_parts(line@) == Some((program@, args@)),
            None => command_parts(line@) is None,
        },
{
    let all = chars_of(line);
    let t = trim(all.as_slice());
    match next_token(t, 0) {
        Some((a, b)) => {
            let program = string_of(slice_subrange(t, a, b));
            let mut k: usize = b;
            while k < t.len() && crate::text::is_white_space(t[k])
                invariant
                    b <= k <= t@.len(),
                    trim_start_at(t@, b as int) == trim_start_at(t@, k as int),
                decreases t@.len() - k,
            {
                k = k + 1;
            }
            let args = string_of(slice_subrange(t, k, t.len()));
            assert(t@.subrange(k as int, t@.len() as int) =~= t@.skip(k as int));
            Some((program, args))
        },
        None => None,
    }
}

fn hex_digit(n: u8) -> (c: char)
    requires
        n < 16,
    ensures
        c == hex_char(n as int),
{
    if n < 10 {
        (48 + n) as char
    } else {
        (87 + n) as char
    }
}

fn pane_command(head: &str, pane: u64, tail: &str) -> (s: String)
    ensures
        s@ == head@ + dec(pane as nat) + tail@,
{
    let mut s = String::from_str(head);
    push_decimal(&mut s, pane);
    s.append(tail);
    s
}

impl RemoteTmux {
    pub closed spec fn view(&self) -> TransportView {
        TransportView {
            filter: self.filter@,
            parser: self.parser@,
            greeted: self.greeted,
            queue: transport_events_view(self.queue@),
            outbox: texts_view(self.outbox@),
            sent: self.sent,
            replies_seen: self.replies_seen,
            eof: self.eof,
            detached: self.detached,
            open: self.open,
        }
    }

    pub closed spec fn wf(&self) -> bool {
        self.filter.wf()
    }

    /// A connection to a peer that was just started.
    pub fn new() -> (t: Self)
        ensures
            t@ == connected(),
            t.wf(),
    {
        let t = RemoteTmux {
            filter: DcsFilter::new(),
            parser: Parser::new(),
            greeted: false,
            queue: Vec::new(),
            outbox: Vec::new(),
            sent: 0,
            replies_seen: 0,
            eof: false,
            detached: false,
            open: true,
        };
        assert(t@.queue =~= Seq::empty());
        assert(t@.outbox =~= Seq::empty());
        t
    }

    fn push_event(&mut self, e: TransportEvent)
        ensures
            final(self)@ == (TransportView { queue: old(self)@.queue.push(e@), ..old(self)@ }),
            final(self).wf() == old(self).wf(),
    {
        self.queue.push(e);
        assert(transport_events_view(self.queue@) =~= transport_events_view(old(self).queue@).push(
            e@,
        ));
    }

    fn note(&mut self, e: Event)
        ensures
            final(self)@ == noted(old(self)@, e@),
            final(self).wf() == old(self).wf(),
    {
        let (exit, reply) = match &e {
            Event::Notification(Notification::Exit { .. }) => (true, false),
            Event::Reply { .. } => (false, true),
            _ => (false, false),
        };
        if exit {
            self.detached = true;
        } else if reply {
            if !self.greeted {
                self.greeted = true;
                self.push_event(TransportEvent::Greeting(e));
                return;
            }
            self.replies_seen = self.replies_seen.wrapping_add(1);
        }
        self.push_event(TransportEvent::Ctrl(e));
    }

    /// Takes a chunk of the peer's output. After `%exit`, output is dropped.
    pub fn feed(&mut self, bytes: &[u8])
        requires
            old(self).wf(),
        ensures
            final(self)@ == received(old(self)@, bytes@),
            final(self).wf(),
    {
        if self.eof || self.detached {
            return;
        }
        let clean = self.filter.feed(bytes);
        let events = self.parser.feed(clean.as_slice());
        let ghost all = events_view(events@);
        let ghost start = self@;
        let mut rest = reversed(events);
        let ghost mut done: int = 0;
        assert(all.skip(0) =~= all);
        while rest.len() > 0 && !self.detached
            invariant
                0 <= done,
                done + rest@.len() == all.len(),
                all == events_view(events@),
                rest@ =~= events@.reverse().take(rest@.len() as int),
                noted_all(start, all) == noted_all(self@, all.skip(done)),
                self.wf(),
            decreases rest@.len(),
        {
            assert(rest@[rest@.len() - 1] == events@[done]);
            if let Some(e) = rest.pop() {
                assert(all.skip(done)[0] == e@);
                assert(all.skip(done).skip(1) =~= all.skip(done + 1));
                self.note(e);
                proof {
                    done = done + 1;
                }
            }
        }
    }

    /// The peer's output ended.
    pub fn end(&mut self)
        ensures
            final(self)@ == ended(old(self)@),
            final(self).wf() == old(self).wf(),
    {
        if !self.eof {
            self.eof = true;
            self.push_event(TransportEvent::Eof);
        }
    }

    /// Takes all queued events.
    pub fn drain_events(&mut self) -> (events: Vec<TransportEvent>)
        ensures
            transport_events_view(events@) == old(self)@.queue,
            final(self)@ == (TransportView { queue: Seq::empty(), ..old(self)@ }),
            final(self).wf() == old(self).wf(),
    {
        let mut events: Vec<TransportEvent> = Vec::new();
        std::mem::swap(&mut events, &mut self.queue);
        assert(transport_events_view(self.queue@) =~= Seq::empty());
        events
    }

    /// Takes all commands that wait to be written, each without its line terminator.
    pub fn take_commands(&mut self) -> (commands: Vec<String>)
        ensures
            texts_view(commands@) == old(self)@.outbox,
            final(self)@ == (TransportView { outbox: Seq::empty(), ..old(self)@ }),
            final(self).wf() == old(self).wf(),
    {
        let mut commands: Vec<String> = Vec::new();
        std::mem::swap(&mut commands, &mut self.outbox);
        assert(texts_view(self.outbox@) =~= Seq::empty());
        commands
    }

    /// Sends a command and returns its sequence number (0, 1, 2, …).
    pub fn send_command(&mut self, cmd: &str) -> (seq: u64)
        ensures
            seq == old(self)@.sent,
            final(self)@ == commanded(old(self)@, cmd@),
            final(self).wf() == old(self).wf(),
    {
        let seq: u64 = self.sent;
        self.sent = self.sent.wrapping_add(1);
        if self.open {
            let line = String::from_str(cmd);
            self.outbox.push(line);
            assert(texts_view(self.outbox@) =~= texts_view(old(self).outbox@).push(cmd@));
        }
        seq
    }

    /// Commands whose reply has not been seen.
    pub fn pending_len(&self) -> (n: u64)
        ensures
            n == (if self@.sent >= self@.replies_seen {
                self@.sent - self@.replies_seen
            } else {
                0
            }),
    {
        if self.sent >= self.replies_seen {
            self.sent - self.replies_seen
        } else {
            0
        }
    }

    /// Types bytes into the remote pane `%pane`.
    pub fn send_keys(&mut self, pane: u64, bytes: &[u8]) -> (seq: u64)
        ensures
            seq == old(self)@.sent,
            final(self)@ == commanded(old(self)@, keys_command(pane, bytes@)),
            final(self).wf() == old(self).wf(),
    {
        let mut cmd = pane_command("send-keys -t %", pane, " -H");
        let ghost head = cmd@;
        let mut i: usize = 0;
        assert(bytes@.take(0) =~= Seq::empty());
        assert(head + Seq::<char>::empty() =~= head);
        while i < bytes.len()
            invariant
                i <= bytes@.len(),
                cmd@ == head + hex_list(bytes@.take(i as int)),
            decreases bytes@.len() - i,
        {
            let b: u8 = bytes[i];
            push_char(&mut cmd, ' ');
            push_char(&mut cmd, hex_digit(b / 16));
            push_char(&mut cmd, hex_digit(b % 16));
            assert(bytes@.take(i + 1).drop_last() =~= bytes@.take(i as int));
            assert(cmd@ =~= head + hex_list(bytes@.take(i + 1)));
            i = i + 1;
        }
        assert(bytes@.take(i as int) =~= bytes@);
        self.send_command(cmd.as_str())
    }

    /// Tells the remote tmux that this client is `w` by `h` cells.
    pub fn resize_client(&mut self, w: u16, h: u16) -> (seq: u64)
        ensures
            seq == old(self)@.sent,
            final(self)@ == commanded(old(self)@, size_command(w, h)),
            final(self).wf() == old(self).wf(),
    {
        let mut cmd = String::from_str("refresh-client -C ");
        push_decimal(&mut cmd, w as u64);
        push_char(&mut cmd, 'x');
        push_decimal(&mut cmd, h as u64);
        assert(cmd@ =~= size_command(w, h));
        self.send_command(cmd.as_str())
    }

    /// Splits the remote pane `%pane`, beside it or below it.
    pub fn split_pane(&mut self, pane: u64, horizontal: bool) -> (seq: u64)
        ensures
            seq == old(self)@.sent,
            final(self)@ == commanded(old(self)@, split_command(pane, horizontal)),
            final(self).wf() == old(self).wf(),
    {
        let flag = if horizontal {
            " -h"
        } else {
            " -v"
        };
        let cmd = pane_command("split-window -t %", pane, flag);
        self.send_command(cmd.as_str())
    }

    /// Kills the remote pane `%pane`.
    pub fn kill_pane(&mut self, pane: u64) -> (seq: u64)
        ensures
            seq == old(self)@.sent,
            final(self)@ == commanded(old(self)@, "kill-pane -t %"@ + dec(pane as nat)),
            final(self).wf() == old(self).wf(),
    {
        let mut cmd = String::from_str("kill-pane -t %");
        push_decimal(&mut cmd, pane);
        self.send_command(cmd.as_str())
    }

    /// Kills the remote window `@window`.
    pub fn kill_window(&mut self, window: u64) -> (seq: u64)
        ensures
            seq == old(self)@.sent,
            final(self)@ == commanded(old(self)@, "kill-window -t @"@ + dec(window as nat)),
            final(self).wf() == old(self).wf(),
    {
        let mut cmd = String::from_str("kill-window -t @");
        push_decimal(&mut cmd, window);
        self.send_command(cmd.as_str())
    }

    /// Lets a paused remote pane go on.
    pub fn continue_pane(&mut self, pane: u64) -> (seq: u64)
        ensures
            seq == old(self)@.sent,
            final(self)@ == commanded(
                old(self)@,
                "refresh-client -A %"@ + dec(pane as nat) + ":continue"@,
            ),
            final(self).wf() == old(self).wf(),
    {
        let cmd = pane_command("refresh-client -A %", pane, ":continue");
        self.send_command(cmd.as_str())
    }

    /// Creates a remote window.
    pub fn new_window(&mut self) -> (seq: u64)
        ensures
            seq == old(self)@.sent,
            final(self)@ == commanded(old(self)@, "new-window"@),
            final(self).wf() == old(self).wf(),
    {
        self.send_command("new-window")
    }

    /// Makes the remote pane `%pane` the active one of its window.
    pub fn select_pane(&mut self, pane: u64) -> (seq: u64)
        ensures
            seq == old(self)@.sent,
            final(self)@ == commanded(old(self)@, "select-pane -t %"@ + dec(pane as nat)),
            final(self).wf() == old(self).wf(),
    {
        let mut cmd = String::from_str("select-pane -t %");
        push_decimal(&mut cmd, pane);
        self.send_command(cmd.as_str())
    }

    /// Closes the command pipe: the graceful goodbye. No command goes out after it.
    pub fn close_stdin(&mut self)
        ensures
            final(self)@ == (TransportView { open: false, ..old(self)@ }),
            final(self).wf() == old(self).wf(),
    {
        self.open = false;
    }

    /// Whether commands still go out. When not, the pipe is to be closed once the waiting
    /// commands are written.
    pub fn is_open(&self) -> (b: bool)
        ensures
            b == self@.open,
    {
        self.open
    }

    /// Whether the peer's output still comes.
    pub fn is_alive(&self) -> (b: bool)
        ensures
            b == !self@.eof,
    {
        !self.eof
    }

    /// Whether the remote side ended control mode on purpose, and the pipe did not just break.
    pub fn detached(&self) -> (b: bool)
        ensures
            b == self@.detached,
    {
        self.detached
    }
}

// ---------------------------------------------------------------------------
// Laws.
// ---------------------------------------------------------------------------

/// How many replies answer commands among events.
pub open spec fn answers(es: Seq<TransportEventView>) -> nat
    decreases es.len(),
{
    if es.len() == 0 {
        0
    } else {
        answers(es.drop_last()) + (if es.last() matches TransportEventView::Ctrl(
            EventView::Reply { .. },
        ) {
            1nat
        } else {
            0
        })
    }
}

/// How many greetings are among events.
pub open spec fn greetings(es: Seq<TransportEventView>) -> nat
    decreases es.len(),
{
    if es.len() == 0 {
        0
    } else {
        greetings(es.drop_last()) + (if es.last() is Greeting {
            1nat
        } else {
            0
        })
    }
}

/// What holds of a stream of which nothing was drained: the counter counts the queued answers,
/// there is a greeting exactly where one was noted, and the end of output is the last event.
pub open spec fn counted(t: TransportView) -> bool {
    &&& t.replies_seen as nat == answers(t.queue) % 0x1_0000_0000_0000_0000
    &&& greetings(t.queue) == (if t.greeted {
        1nat
    } else {
        0
    })
    &&& forall|i: int|
        0 <= i < t.queue.len() ==> ((#[trigger] t.queue[i]) is Eof) == (t.eof && i
            == t.queue.len() - 1)
    &&& t.eof ==> t.queue.len() > 0
    &&& !t.greeted ==> answers(t.queue) == 0
}

/// A connection starts counted.
pub proof fn a_connection_starts_counted()
    ensures
        counted(connected()),
{
}

/// Replies are positional: whatever arrives, the counter counts exactly the replies that answer
/// commands, the first reply of the stream is the one greeting and answers none, and the end of
/// the peer's output comes once, behind all other events.
pub proof fn replies_stay_positional(t: TransportView, bytes: Seq<u8>)
    requires
        counted(t),
    ensures
        counted(received(t, bytes)),
        counted(ended(t)),
        received(ended(t), bytes) == ended(t),
        ended(ended(t)) == ended(t),
{
    if !(t.eof || t.detached) {
        let (parser, es) = feed_of(t.parser, passed(t.filter, bytes));
        let start = TransportView { filter: fed(t.filter, bytes), parser, ..t };
        assert(counted(start));
        lemma_counted(start, es);
    }
    if !t.eof {
        let q = ended(t).queue;
        assert(q.drop_last() =~= t.queue);
    }
}

proof fn lemma_counted(t: TransportView, es: Seq<EventView>)
    requires
        counted(t),
        !t.eof,
    ensures
        counted(noted_all(t, es)),
        noted_all(t, es).eof == t.eof,
    decreases es.len(),
{
    if es.len() > 0 && !t.detached {
        let n = noted(t, es[0]);
        assert(n.queue.drop_last() =~= t.queue);
        let (a, m) = (answers(t.queue), 0x1_0000_0000_0000_0000nat);
        assert((a + 1) % m == (if a % m == m - 1 {
            0
        } else {
            a % m + 1
        }));
        lemma_counted(n, es.skip(1));
    }
}

/// Once `%exit` was seen, nothing that still arrives changes the connection.
pub proof fn nothing_follows_the_goodbye(t: TransportView, bytes: Seq<u8>)
    requires
        t.detached,
    ensures
        received(t, bytes) == t,
{
}

// ---------------------------------------------------------------------------
// The whole life of a connection.
// ---------------------------------------------------------------------------

/// What is done with a connection.
pub enum LifeStep {
    /// The peer wrote something.
    Output(Seq<u8>),
    /// The peer's output ended.
    End,
    /// The queued events are drained.
    Drain,
    /// A command is sent.
    Command(Seq<char>),
    /// The waiting commands are taken.
    TakeCommands,
    /// The command pipe is closed.
    Close,
}

/// A connection after steps, and all events that were drained from it, in order.
pub open spec fn lived(steps: Seq<LifeStep>) -> (TransportView, Seq<TransportEventView>)
    decreases steps.len(),
{
    if steps.len() == 0 {
        (connected(), Seq::empty())
    } else {
        let (t, told) = lived(steps.drop_last());
        match steps.last() {
            LifeStep::Output(bytes) => (received(t, bytes), told),
            LifeStep::End => (ended(t), told),
            LifeStep::Drain => (
                TransportView { queue: Seq::empty(), ..t },
                told + t.queue,
            ),
            LifeStep::Command(command) => (commanded(t, command), told),
            LifeStep::TakeCommands => (TransportView { outbox: Seq::empty(), ..t }, told),
            LifeStep::Close => (TransportView { open: false, ..t }, told),
        }
    }
}

/// Whether the peer's output ended within steps.
pub open spec fn has_ended(steps: Seq<LifeStep>) -> bool
    decreases steps.len(),
{
    steps.len() > 0 && (steps.last() is End || has_ended(steps.drop_last()))
}

/// All that the peer wrote before its output ended.
pub open spec fn output_of(steps: Seq<LifeStep>) -> Seq<u8>
    decreases steps.len(),
{
    if steps.len() == 0 {
        Seq::empty()
    } else {
        let before = output_of(steps.drop_last());
        match steps.last() {
            LifeStep::Output(bytes) => if has_ended(steps.drop_last()) {
                before
            } else {
                before + bytes
            },
            _ => before,
        }
    }
}

/// The events of a whole stream: those of the parser, without the introducer of control mode.
pub open spec fn stream_events(stream: Seq<u8>) -> Seq<EventView> {
    feed_of(connected().parser, stripped(stream)).1
}

/// Whether an event is the peer's goodbye.
pub open spec fn is_exit(e: EventView) -> bool {
    e matches EventView::Notification(NotificationView::Exit { .. })
}

/// Whether an event is the first reply of a stream.
pub open spec fn is_first_reply(es: Seq<EventView>, i: int) -> bool {
    es[i] is Reply && forall|j: int| 0 <= j < i ==> !((#[trigger] es[j]) is Reply)
}

/// What is told of events: all up to the goodbye, the first reply as the greeting.
pub open spec fn told_of(es: Seq<EventView>, greeted: bool) -> Seq<TransportEventView>
    decreases es.len(),
{
    if es.len() == 0 {
        Seq::empty()
    } else if is_exit(es[0]) {
        seq![TransportEventView::Ctrl(es[0])]
    } else if es[0] is Reply && !greeted {
        seq![TransportEventView::Greeting(es[0])] + told_of(es.skip(1), true)
    } else {
        seq![TransportEventView::Ctrl(es[0])] + told_of(es.skip(1), greeted)
    }
}

/// Whether the goodbye is among events.
spec fn says_goodbye(es: Seq<EventView>) -> bool
    decreases es.len(),
{
    es.len() > 0 && (is_exit(es[0]) || says_goodbye(es.skip(1)))
}

/// Whether a reply comes before the goodbye.
spec fn replies(es: Seq<EventView>) -> bool
    decreases es.len(),
{
    es.len() > 0 && !is_exit(es[0]) && (es[0] is Reply || replies(es.skip(1)))
}

proof fn lemma_noted_all(t: TransportView, es: Seq<EventView>)
    requires
        !t.detached,
    ensures
        ({
            let n = noted_all(t, es);
            &&& n.queue == t.queue + told_of(es, t.greeted)
            &&& n.detached == says_goodbye(es)
            &&& n.greeted == (t.greeted || replies(es))
            &&& n.filter == t.filter && n.parser == t.parser && n.eof == t.eof
        }),
    decreases es.len(),
{
    if es.len() == 0 {
        assert(t.queue + told_of(es, t.greeted) =~= t.queue);
    } else {
        let n = noted(t, es[0]);
        if is_exit(es[0]) {
            assert(n.queue =~= t.queue + told_of(es, t.greeted));
        } else {
            lemma_noted_all(n, es.skip(1));
            assert(n.queue + told_of(es.skip(1), n.greeted) =~= t.queue + told_of(es, t.greeted));
        }
    }
}

proof fn lemma_told_append(a: Seq<EventView>, b: Seq<EventView>, greeted: bool)
    ensures
        told_of(a + b, greeted) == (if says_goodbye(a) {
            told_of(a, greeted)
        } else {
            told_of(a, greeted) + told_of(b, greeted || replies(a))
        }),
        says_goodbye(a + b) == (says_goodbye(a) || says_goodbye(b)),
        replies(a + b) == (replies(a) || (!says_goodbye(a) && replies(b))),
    decreases a.len(),
{
    if a.len() == 0 {
        assert(a + b =~= b);
        assert(told_of(a, greeted) + told_of(b, greeted) =~= told_of(b, greeted));
    } else {
        assert((a + b).skip(1) =~= a.skip(1) + b);
        assert((a + b)[0] == a[0]);
        if !is_exit(a[0]) {
            let g = greeted || a[0] is Reply;
            lemma_told_append(a.skip(1), b, g);
            lemma_told_append(a.skip(1), b, greeted);
            assert(told_of(a + b, greeted) =~= (if says_goodbye(a) {
                told_of(a, greeted)
            } else {
                told_of(a, greeted) + told_of(b, greeted || replies(a))
            }));
        }
    }
}

proof fn lemma_stream_append(a: Seq<u8>, b: Seq<u8>)
    ensures
        ({
            let f = fed(Some(Seq::empty()), a);
            let (p, es) = feed_of(connected().parser, stripped(a));
            let (q, more) = feed_of(p, passed(f, b));
            &&& fed(f, b) == fed(Some(Seq::empty()), a + b)
            &&& feed_of(connected().parser, stripped(a + b)) == (q, es + more)
        }),
{
    let start: DcsView = Some(Seq::empty());
    assert(undecided(Seq::empty())) by {
        assert(intro().take(0) =~= Seq::empty());
    }
    filtering_in_chunks_is_filtering_at_once(start, a, b);
    assert(Seq::<u8>::empty() + a =~= a);
    assert(Seq::<u8>::empty() + (a + b) =~= a + b);
    feeding_in_chunks_is_feeding_at_once(connected().parser, stripped(a), passed(fed(start, a), b));
}

/// What holds of a connection that has lived through steps.
spec fn consistent(steps: Seq<LifeStep>) -> bool {
    let (t, told) = lived(steps);
    let stream = output_of(steps);
    let (parser, es) = feed_of(connected().parser, stripped(stream));
    &&& told + t.queue == told_of(es, false) + (if t.eof {
        seq![TransportEventView::Eof]
    } else {
        Seq::empty()
    })
    &&& t.eof == has_ended(steps)
    &&& t.detached == says_goodbye(es)
    &&& t.greeted == replies(es)
    &&& !t.detached && !t.eof ==> t.parser == parser && t.filter == fed(Some(Seq::empty()), stream)
}

proof fn lemma_consistent(steps: Seq<LifeStep>)
    ensures
        consistent(steps),
    decreases steps.len(),
{
    if steps.len() == 0 {
        let none = Seq::<u8>::empty();
        assert(intro().take(0) =~= none);
        assert(undecided(none));
        assert(none + none =~= none);
        assert(connected().parser.buf + none =~= none);
        let (parser, es) = feed_of(connected().parser, stripped(none));
        assert(es =~= Seq::empty());
        let (t, told) = lived(steps);
        assert(told + t.queue =~= told_of(es, false) + Seq::empty());
    } else {
        let before = steps.drop_last();
        lemma_consistent(before);
        let (t, told) = lived(before);
        let stream = output_of(before);
        let es = feed_of(connected().parser, stripped(stream)).1;
        match steps.last() {
            LifeStep::Output(bytes) => {
                if !has_ended(before) {
                    lemma_stream_append(stream, bytes);
                    let (p, _) = feed_of(connected().parser, stripped(stream));
                    let f = fed(Some(Seq::empty()), stream);
                    let more = feed_of(p, passed(f, bytes)).1;
                    lemma_told_append(es, more, false);
                    if !t.detached {
                        let start = TransportView {
                            filter: fed(t.filter, bytes),
                            parser: feed_of(p, passed(f, bytes)).0,
                            ..t
                        };
                        lemma_noted_all(start, more);
                    }
                    let n = received(t, bytes);
                    assert(told + n.queue =~= told_of(es + more, false) + Seq::empty()) by {
                        assert(told_of(es, false) + Seq::empty() =~= told_of(es, false));
                        if !t.detached {
                            assert(told + (t.queue + told_of(more, t.greeted)) =~= (told + t.queue)
                                + told_of(more, t.greeted));
                        }
                    }
                }
            },
            LifeStep::End => {
                let n = ended(t);
                if !t.eof {
                    assert(told + n.queue =~= (told + t.queue) + seq![TransportEventView::Eof]);
                    assert(told_of(es, false) + Seq::empty() =~= told_of(es, false));
                }
            },
            LifeStep::Drain => {
                assert((told + t.queue) + Seq::empty() =~= told + t.queue);
            },
            _ => {},
        }
    }
}

/// Over a connection's whole life, whatever is done with it and in whatever chunks the peer writes:
/// what was drained and what still waits are the parser's events of the peer's output without the
/// introducer, in order, up to its goodbye; the first reply stands as the greeting and nothing else
/// does; and the end of the output stands once, behind all others, where the output ended.
pub proof fn a_life_is_told_in_order(steps: Seq<LifeStep>)
    ensures
        ({
            let (t, told) = lived(steps);
            let es = stream_events(output_of(steps));
            let told = told + t.queue;
            let n = told.len() - (if has_ended(steps) {
                1int
            } else {
                0
            });
            &&& 0 <= n <= es.len()
            &&& has_ended(steps) ==> told.last() is Eof
            &&& forall|i: int|
                0 <= i < n ==> (#[trigger] told[i]) == (if is_first_reply(es, i) {
                    TransportEventView::Greeting(es[i])
                } else {
                    TransportEventView::Ctrl(es[i])
                })
            &&& forall|i: int| 0 <= i < n - 1 ==> !is_exit(#[trigger] es[i])
            &&& n < es.len() ==> n > 0 && is_exit(es[n - 1])
        }),
{
    lemma_consistent(steps);
    let es = stream_events(output_of(steps));
    lemma_told(es, false);
    let (t, told) = lived(steps);
    assert forall|i: int| 0 <= i < told_of(es, false).len() implies (#[trigger] (told + t.queue)[i])
        == told_of(es, false)[i] by {}
}

proof fn lemma_told(es: Seq<EventView>, greeted: bool)
    ensures
        ({
            let told = told_of(es, greeted);
            &&& told.len() <= es.len()
            &&& forall|i: int|
                0 <= i < told.len() ==> (#[trigger] told[i]) == (if !greeted && is_first_reply(
                    es,
                    i,
                ) {
                    TransportEventView::Greeting(es[i])
                } else {
                    TransportEventView::Ctrl(es[i])
                })
            &&& forall|i: int| 0 <= i < told.len() - 1 ==> !is_exit(#[trigger] es[i])
            &&& told.len() < es.len() ==> told.len() > 0 && is_exit(es[told.len() - 1])
        }),
    decreases es.len(),
{
    if es.len() > 0 {
        let told = told_of(es, greeted);
        if !is_exit(es[0]) {
            let rest = es.skip(1);
            let g = greeted || es[0] is Reply;
            lemma_told(rest, g);
            let later = told_of(rest, g);
            assert forall|i: int| 0 <= i < told.len() implies (#[trigger] told[i]) == (if !greeted
                && is_first_reply(es, i) {
                TransportEventView::Greeting(es[i])
            } else {
                TransportEventView::Ctrl(es[i])
            }) by {
                if i > 0 {
                    assert(told[i] == later[i - 1]);
                    assert(es[i] == rest[i - 1]);
                    if is_first_reply(es, i) {
                        assert(!(es[0] is Reply));
                        assert forall|j: int| 0 <= j < i - 1 implies !((#[trigger] rest[j]) is Reply) by {
                            assert(rest[j] == es[j + 1]);
                        }
                    }
                    if !g && is_first_reply(rest, i - 1) {
                        assert forall|j: int| 0 <= j < i implies !((#[trigger] es[j]) is Reply) by {
                            if j > 0 {
                                assert(rest[j - 1] == es[j]);
                            }
                        }
                    }
                }
            }
            assert forall|i: int| 0 <= i < told.len() - 1 implies !is_exit(#[trigger] es[i]) by {
                if i > 0 {
                    assert(es[i] == rest[i - 1]);
                }
            }
            if told.len() < es.len() {
                assert(rest[later.len() - 1] == es[told.len() - 1]);
            }
        } else {
            assert(told =~= seq![TransportEventView::Ctrl(es[0])]);
        }
    }
}

} // verus!
