//! A pane: one terminal and what is known of the program that feeds it.
//!
//! A local pane's program runs in a pseudoconsole of this machine; a remote pane mirrors a pane of
//! a remote tmux server. Both kinds of output go through the same mapping from terminal events to
//! pane events, so a remote agent's notification counts like a local one's. What has to be done
//! outside (write to a program, resize a console) is returned to the caller.
use vstd::prelude::*;
use vstd::string::*;

use crate::mux::attention::Attention;
use crate::mux::ids::PaneId;
use crate::text::clone_opt;
#[allow(unused_imports)]
use crate::text::{opt_text, texts_view};
use crate::vt::color::Palette;
use crate::vt::osc::{Notification, NotifyKind, ProgressState, TermEvent, Urgency};
#[allow(unused_imports)]
use crate::vt::osc::{
    has_notification, notifies, osc_step, term_events_view, NotificationView, PartialView,
    TermEventView,
};
use crate::vt::terminal::{Cell, LinkSpan, Terminal};
#[allow(unused_imports)]
use crate::vt::terminal::{
    advanced, at_least, blank_terminal, clamped, cursor_cell, found_lines, links_from, mouse_bits,
    prompt_offsets_of, recognized, rows_view, scrollback, spans_view, stands_in, viewport,
    TerminalView,
};
#[allow(unused_imports)]
use crate::vt::emulator::{
    closes_osc, flat, modes_after, osc_params, Operation, SCROLLBACK,
};

verus! {

/// The size of a console, in cells.
#[derive(Clone, Copy, Debug, PartialEq, Eq, Structural)]
pub struct PtySize {
    pub cols: u16,
    pub rows: u16,
}

/// A notable event observed on a pane.
#[derive(Debug)]
pub enum PaneEvent {
    /// The grid changed.
    Output,
    /// An agent's notification.
    Notification(Notification),
    /// A bell.
    Bell,
    /// The title changed.
    Title(String),
    /// The working directory changed.
    Cwd(String),
    /// A progress update.
    Progress { state: ProgressState, pct: Option<u8> },
    /// New clipboard text.
    Clipboard(String),
    /// The program ended, or the remote pane is gone.
    Exited,
}

/// The mathematical value of a [`PaneEvent`].
pub enum PaneEventView {
    Output,
    Notification(NotificationView),
    Bell,
    Title(Seq<char>),
    Cwd(Seq<char>),
    Progress { state: ProgressState, pct: Option<u8> },
    Clipboard(Seq<char>),
    Exited,
}

impl PaneEvent {
    pub open spec fn view(&self) -> PaneEventView {
        match *self {
            PaneEvent::Output => PaneEventView::Output,
            PaneEvent::Notification(n) => PaneEventView::Notification(n@),
            PaneEvent::Bell => PaneEventView::Bell,
            PaneEvent::Title(s) => PaneEventView::Title(s@),
            PaneEvent::Cwd(s) => PaneEventView::Cwd(s@),
            PaneEvent::Progress { state, pct } => PaneEventView::Progress { state, pct },
            PaneEvent::Clipboard(s) => PaneEventView::Clipboard(s@),
            PaneEvent::Exited => PaneEventView::Exited,
        }
    }
}

/// The mathematical values of a list of pane events.
pub open spec fn pane_events_view(events: Seq<PaneEvent>) -> Seq<PaneEventView> {
    Seq::new(events.len(), |i: int| events[i]@)
}

/// A pane's grid at one moment.
pub struct PaneSnapshot {
    pub cells: Vec<Vec<Cell>>,
    pub cursor: (u16, u16),
    pub cols: u16,
    pub rows: u16,
}

/// What produces a pane's bytes.
#[derive(Clone, Copy, Debug, PartialEq, Eq, Structural)]
pub enum Backend {
    /// A program of this machine.
    Local,
    /// The remote tmux pane with this id.
    Remote(u64),
}

/// Where input to a pane has to go.
#[derive(Debug, PartialEq, Eq)]
pub enum Input {
    /// To the pane's program.
    Program(Vec<u8>),
    /// To this remote pane, through the transport.
    Remote(u64, Vec<u8>),
}

/// The mathematical value of a [`Pane`].
pub struct PaneView {
    pub id: PaneId,
    pub backend: Backend,
    pub terminal: TerminalView,
    pub events: Seq<PaneEventView>,
    pub attention: Attention,
    pub title: Seq<char>,
    pub cwd: Option<Seq<char>>,
    /// Notifications since the pane was last focused.
    pub unread: u32,
    /// Whether the program runs, or the remote pane exists.
    pub alive: bool,
    /// Whether the program has running children.
    pub busy: bool,
}

/// A live pane.
pub struct Pane {
    pub id: PaneId,
    backend: Backend,
    terminal: Terminal,
    events: Vec<PaneEvent>,
    attention: Attention,
    title: String,
    cwd: Option<String>,
    unread: u32,
    alive: bool,
    busy: bool,
}

/// One more, up to the largest number.
pub open spec fn bumped(n: u32) -> u32 {
    if n == u32::MAX {
        n
    } else {
        (n + 1) as u32
    }
}

impl PaneView {
    pub open spec fn wf(self) -> bool {
        self.terminal.wf()
    }

    /// The remote tmux pane behind this pane.
    pub open spec fn remote_id(self) -> Option<u64> {
        match self.backend {
            Backend::Local => None,
            Backend::Remote(r) => Some(r),
        }
    }
}

/// A pane after one event of its terminal. Notifications and bells ask for attention; only
/// notifications count as unread.
pub open spec fn noted(p: PaneView, e: TermEventView) -> PaneView {
    match e {
        TermEventView::Damage => p,
        TermEventView::Notification(n) => PaneView {
            attention: Attention::Pending,
            unread: bumped(p.unread),
            events: p.events.push(PaneEventView::Notification(n)),
            ..p
        },
        TermEventView::Bell => PaneView {
            attention: Attention::Pending,
            events: p.events.push(PaneEventView::Bell),
            ..p
        },
        TermEventView::Title(s) => PaneView {
            title: s,
            events: p.events.push(PaneEventView::Title(s)),
            ..p
        },
        TermEventView::Cwd(s) => PaneView {
            cwd: Some(s),
            events: p.events.push(PaneEventView::Cwd(s)),
            ..p
        },
        TermEventView::Progress { state, pct } => PaneView {
            events: p.events.push(PaneEventView::Progress { state, pct }),
            ..p
        },
        TermEventView::PromptMark(_) => p,
        TermEventView::Clipboard(s) => PaneView {
            events: p.events.push(PaneEventView::Clipboard(s)),
            ..p
        },
    }
}

/// The notification that is raised for a pane from outside: what an OSC 777 sequence with this
/// title and body raises.
pub open spec fn asked_notification(title: Seq<char>, body: Seq<char>) -> NotificationView {
    NotificationView {
        kind: NotifyKind::Osc777,
        title,
        body,
        urgency: Urgency::Normal,
        id: None,
    }
}

/// A pane after a list of events of its terminal.
pub open spec fn noted_all(p: PaneView, es: Seq<TermEventView>) -> PaneView
    decreases es.len(),
{
    if es.len() == 0 {
        p
    } else {
        noted(noted_all(p, es.drop_last()), es.last())
    }
}

/// A pane after output: the terminal consumes it, its events are noted, and one `Output` closes a
/// chunk that is not empty.
pub open spec fn pumped(p: PaneView, bytes: Seq<u8>) -> PaneView {
    let (terminal, es) = advanced(p.terminal, bytes);
    let q = noted_all(PaneView { terminal, ..p }, es);
    if bytes.len() > 0 {
        PaneView { events: q.events.push(PaneEventView::Output), ..q }
    } else {
        q
    }
}

/// Whether a notification ends within `bytes`, which follow what a terminal read before.
pub open spec fn notified(t: TerminalView, bytes: Seq<u8>) -> bool {
    exists|j: int, text: Seq<u8>|
        0 < j <= bytes.len() && #[trigger] closes_osc(flat(t.chunks) + bytes.take(j), text)
            && notifies(osc_params(text))
}

/// Output changes neither a pane's id nor what feeds it.
pub proof fn lemma_pumped_keeps_identity(p: PaneView, bytes: Seq<u8>)
    ensures
        pumped(p, bytes).id == p.id,
        pumped(p, bytes).backend == p.backend,
{
    let (terminal, es) = advanced(p.terminal, bytes);
    lemma_noted_keeps_identity(PaneView { terminal, ..p }, es);
}

proof fn lemma_noted_keeps_identity(p: PaneView, es: Seq<TermEventView>)
    ensures
        noted_all(p, es).id == p.id,
        noted_all(p, es).backend == p.backend,
    decreases es.len(),
{
    if es.len() > 0 {
        lemma_noted_keeps_identity(p, es.drop_last());
    }
}

/// A pane that is marked as ended: it reports so once.
pub open spec fn ended(p: PaneView) -> PaneView {
    if p.alive {
        PaneView { alive: false, events: p.events.push(PaneEventView::Exited), ..p }
    } else {
        p
    }
}

/// A remote pane that is marked as gone; a local one is left as it is.
pub open spec fn marked_exited(p: PaneView) -> PaneView {
    match p.backend {
        Backend::Local => p,
        Backend::Remote(_) => ended(p),
    }
}

/// A pane after a resize; nothing where the size stays.
pub open spec fn pane_resized(p: PaneView, size: PtySize) -> PaneView {
    if p.terminal.cols == size.cols && p.terminal.rows == size.rows {
        p
    } else {
        PaneView {
            terminal: TerminalView {
                ops: p.terminal.ops.push(
                    Operation::Resize {
                        cols: at_least(size.cols, 2) as nat,
                        rows: at_least(size.rows, 1) as nat,
                    },
                ),
                cols: at_least(size.cols, 1),
                rows: at_least(size.rows, 1),
                prompts: if at_least(size.cols, 1) == p.terminal.cols {
                    p.terminal.prompts
                } else {
                    Seq::empty()
                },
                ..p.terminal
            },
            ..p
        }
    }
}

/// A pane that has seen nothing, with a given terminal.
pub open spec fn pane_with(id: PaneId, backend: Backend, terminal: TerminalView) -> PaneView {
    PaneView {
        id,
        backend,
        terminal,
        events: Seq::empty(),
        attention: Attention::Quiet,
        title: Seq::empty(),
        cwd: None,
        unread: 0,
        alive: true,
        busy: false,
    }
}

/// A new mirror of a remote pane.
pub open spec fn remote_pane(id: PaneId, remote_id: u64, cols: u16, rows: u16) -> PaneView {
    pane_with(id, Backend::Remote(remote_id), blank_terminal(cols, rows))
}

/// A new local pane; its terminal has seen `replay`, if there is one.
pub open spec fn local_pane(id: PaneId, size: PtySize, replay: Option<Seq<char>>) -> PaneView {
    let blank = blank_terminal(size.cols, size.rows);
    pane_with(
        id,
        Backend::Local,
        match replay {
            Some(r) => advanced(blank, vstd::utf8::encode_utf8(r)).0,
            None => blank,
        },
    )
}

impl Pane {
    pub closed spec fn view(&self) -> PaneView {
        PaneView {
            id: self.id,
            backend: self.backend,
            terminal: self.terminal@,
            events: pane_events_view(self.events@),
            attention: self.attention,
            title: self.title@,
            cwd: opt_text(self.cwd),
            unread: self.unread,
            alive: self.alive,
            busy: self.busy,
        }
    }

    fn with(id: PaneId, backend: Backend, terminal: Terminal) -> (p: Pane)
        requires
            terminal@.wf(),
        ensures
            p@ == pane_with(id, backend, terminal@),
            p@.wf(),
    {
        let p = Pane {
            id,
            backend,
            terminal,
            events: Vec::new(),
            attention: Attention::Quiet,
            title: String::new(),
            cwd: None,
            unread: 0,
            alive: true,
            busy: false,
        };
        assert(p@.events =~= Seq::empty());
        p
    }

    /// A pane whose program has just been started in a console of `size`. `replay` is inert
    /// history that the terminal shows before the program's own output.
    pub fn local(id: PaneId, size: PtySize, replay: Option<&str>) -> (p: Pane)
        ensures
            p@ == local_pane(
                id,
                size,
                match replay {
                    Some(r) => Some(r@),
                    None => None,
                },
            ),
            p@.wf(),
    {
        let mut terminal = Terminal::new(size.cols, size.rows);
        let ghost blank = terminal@;
        if let Some(r) = replay {
            let _ = terminal.advance(r.as_bytes());
            proof {
                crate::vt::terminal::lemma_advance_keeps_size(blank, vstd::utf8::encode_utf8(r@));
            }
        }
        Pane::with(id, Backend::Local, terminal)
    }

    /// A pane that mirrors the remote tmux pane `%remote_id`.
    pub fn remote(id: PaneId, remote_id: u64, cols: u16, rows: u16) -> (p: Pane)
        ensures
            p@ == remote_pane(id, remote_id, cols, rows),
            p@.wf(),
    {
        Pane::with(id, Backend::Remote(remote_id), Terminal::new(cols, rows))
    }

    /// Feeds output of the pane's program or remote pane through the terminal. A notification that
    /// ends in this output leaves the pane pending, however the bytes were split into chunks.
    pub fn pump_bytes(&mut self, bytes: &[u8])
        requires
            old(self)@.wf(),
        ensures
            final(self)@ == pumped(old(self)@, bytes@),
            final(self)@.wf(),
            flat(final(self)@.terminal.chunks) == flat(old(self)@.terminal.chunks) + bytes@,
            notified(old(self)@.terminal, bytes@) ==> final(self)@.attention == Attention::Pending,
    {
        let evs = self.terminal.advance(bytes);
        let ghost start = self@;
        let ghost es = term_events_view(evs@);
        let mut i: usize = 0;
        assert(es.take(0) =~= Seq::empty());
        while i < evs.len()
            invariant
                i <= evs@.len(),
                es == term_events_view(evs@),
                start.wf(),
                self@ == noted_all(start, es.take(i as int)),
                self@.terminal == start.terminal,
            decreases evs@.len() - i,
        {
            assert(es.take(i + 1).drop_last() =~= es.take(i as int));
            assert(es.take(i + 1).last() == evs@[i as int]@);
            self.note(&evs[i]);
            i = i + 1;
        }
        assert(es.take(i as int) =~= es);
        proof {
            let t = old(self)@.terminal;
            if notified(t, bytes@) {
                let (j, text) = choose|j: int, text: Seq<u8>|
                    0 < j <= bytes@.len() && #[trigger] closes_osc(
                        flat(t.chunks) + bytes@.take(j),
                        text,
                    ) && notifies(osc_params(text));
                assert(recognized(text, es));
                lemma_recognized_is_noted(start, es, text);
            }
        }
        if bytes.len() > 0 {
            self.push_event(PaneEvent::Output);
        }
    }

    fn push_event(&mut self, e: PaneEvent)
        ensures
            final(self)@ == (PaneView { events: old(self)@.events.push(e@), ..old(self)@ }),
    {
        self.events.push(e);
        assert(pane_events_view(self.events@) =~= pane_events_view(old(self).events@).push(e@));
    }

    fn note(&mut self, e: &TermEvent)
        ensures
            final(self)@ == noted(old(self)@, e@),
            final(self)@.terminal == old(self)@.terminal,
    {
        match e {
            TermEvent::Damage => {},
            TermEvent::Notification(n) => {
                self.attention = Attention::Pending;
                if self.unread < u32::MAX {
                    self.unread = self.unread + 1;
                }
                let copy = n.copy();
                self.push_event(PaneEvent::Notification(copy));
            },
            TermEvent::Bell => {
                self.attention = Attention::Pending;
                self.push_event(PaneEvent::Bell);
            },
            TermEvent::Title(s) => {
                self.title = s.clone();
                self.push_event(PaneEvent::Title(s.clone()));
            },
            TermEvent::Cwd(s) => {
                self.cwd = Some(s.clone());
                self.push_event(PaneEvent::Cwd(s.clone()));
            },
            TermEvent::Progress { state, pct } => {
                self.push_event(PaneEvent::Progress { state: *state, pct: *pct });
            },
            TermEvent::PromptMark(_) => {},
            TermEvent::Clipboard(s) => {
                self.push_event(PaneEvent::Clipboard(s.clone()));
            },
        }
    }

    /// Feeds output of the remote pane. Nothing happens on a local pane.
    pub fn push_output(&mut self, bytes: &[u8])
        requires
            old(self)@.wf(),
        ensures
            final(self)@ == (match old(self)@.backend {
                Backend::Local => old(self)@,
                Backend::Remote(_) => pumped(old(self)@, bytes@),
            }),
            final(self)@.wf(),
            old(self)@.backend is Remote && notified(old(self)@.terminal, bytes@)
                ==> final(self)@.attention == Attention::Pending,
    {
        if let Backend::Remote(_) = self.backend {
            self.pump_bytes(bytes);
        }
    }

    /// The remote tmux pane behind this pane; none for a local pane.
    pub fn remote_id(&self) -> (r: Option<u64>)
        ensures
            r == self@.remote_id(),
    {
        match self.backend {
            Backend::Local => None,
            Backend::Remote(r) => Some(r),
        }
    }

    /// Marks a remote pane as gone, which it reports once. Nothing happens on a local pane.
    pub fn mark_exited(&mut self)
        ensures
            final(self)@ == marked_exited(old(self)@),
    {
        if let Backend::Remote(_) = self.backend {
            self.end();
        }
    }

    /// Marks that the pane's program ended, which the pane reports once.
    pub fn end(&mut self)
        ensures
            final(self)@ == ended(old(self)@),
    {
        if self.alive {
            self.alive = false;
            self.push_event(PaneEvent::Exited);
        }
    }

    /// Records whether the program has running children. A remote pane is never busy.
    pub fn set_busy(&mut self, busy: bool)
        ensures
            final(self)@ == (match old(self)@.backend {
                Backend::Local => PaneView { busy, ..old(self)@ },
                Backend::Remote(_) => old(self)@,
            }),
    {
        if let Backend::Local = self.backend {
            self.busy = busy;
        }
    }

    /// Where raw input (keystrokes, VT) has to go.
    pub fn write(&self, data: &[u8]) -> (r: Input)
        ensures
            match r {
                Input::Program(bytes) => self@.backend == Backend::Local && bytes@ == data@,
                Input::Remote(id, bytes) => self@.backend == Backend::Remote(id) && bytes@ == data@,
            },
    {
        match self.backend {
            Backend::Local => Input::Program(vstd::slice::slice_to_vec(data)),
            Backend::Remote(id) => Input::Remote(id, vstd::slice::slice_to_vec(data)),
        }
    }

    /// Resizes the grid. Returns the size that the program's console has to get; none where the
    /// size stays or the console is not on this machine.
    pub fn resize(&mut self, size: PtySize) -> (r: Option<PtySize>)
        requires
            old(self)@.wf(),
        ensures
            final(self)@ == pane_resized(old(self)@, size),
            final(self)@.wf(),
            r == (if old(self)@.backend == Backend::Local && (old(self)@.terminal.cols != size.cols
                || old(self)@.terminal.rows != size.rows) {
                Some(size)
            } else {
                None
            }),
    {
        if self.terminal.cols() == size.cols && self.terminal.rows() == size.rows {
            return None;
        }
        self.terminal.resize(size.cols, size.rows);
        match self.backend {
            Backend::Local => Some(size),
            Backend::Remote(_) => None,
        }
    }

    /// The screen.
    pub fn snapshot(&self) -> (s: PaneSnapshot)
        requires
            self@.wf(),
        ensures
            rows_view(s.cells@) == viewport(self@.terminal, 0),
            s.cursor == cursor_cell(self@.terminal),
            s.cols == self@.terminal.cols,
            s.rows == self@.terminal.rows,
    {
        self.snapshot_at(0)
    }

    /// The viewport scrolled `offset` lines up into the scrollback (clamped).
    pub fn snapshot_at(&self, offset: usize) -> (s: PaneSnapshot)
        requires
            self@.wf(),
        ensures
            rows_view(s.cells@) == viewport(self@.terminal, offset as nat),
            s.cursor == cursor_cell(self@.terminal),
            s.cols == self@.terminal.cols,
            s.rows == self@.terminal.rows,
    {
        self.snapshot_scrolled(offset).0
    }

    /// Like [`Pane::snapshot_at`], with the scrollback depth and the clamped offset.
    pub fn snapshot_scrolled(&self, offset: usize) -> (r: (PaneSnapshot, usize, usize))
        requires
            self@.wf(),
        ensures
            rows_view(r.0.cells@) == viewport(self@.terminal, offset as nat),
            r.0.cursor == cursor_cell(self@.terminal),
            r.0.cols == self@.terminal.cols,
            r.0.rows == self@.terminal.rows,
            r.1 == self@.terminal.history(),
            r.1 <= SCROLLBACK,
            r.2 == clamped(self@.terminal, offset as nat),
    {
        let history: usize = self.terminal.history_len();
        let offset: usize = if offset < history {
            offset
        } else {
            history
        };
        let snap = PaneSnapshot {
            cells: self.terminal.cells_at_offset(offset),
            cursor: self.terminal.cursor(),
            cols: self.terminal.cols(),
            rows: self.terminal.rows(),
        };
        (snap, history, offset)
    }

    /// Scrollback and screen as text lines, oldest first; at most the `max_lines` most recent ones
    /// (0: all).
    pub fn scrollback_text(&self, max_lines: usize) -> (lines: Vec<String>)
        requires
            self@.wf(),
        ensures
            texts_view(lines@) == scrollback(self@.terminal, max_lines as nat),
    {
        self.terminal.scrollback_text(max_lines)
    }

    /// Scrollback lines retained above the screen.
    pub fn history_len(&self) -> (n: usize)
        ensures
            n == self@.terminal.history(),
    {
        self.terminal.history_len()
    }

    /// Offsets of the lines that hold `query`, nearest to the bottom first.
    pub fn search(&self, query: &str) -> (offsets: Vec<u32>)
        requires
            self@.wf(),
        ensures
            offsets@ == found_lines(self@.terminal, query@),
    {
        self.terminal.search(query)
    }

    /// Offsets of the recorded prompt starts, nearest to the bottom first.
    pub fn prompt_offsets(&self) -> (offsets: Vec<u32>)
        requires
            self@.wf(),
        ensures
            offsets@ == prompt_offsets_of(self@.terminal),
    {
        self.terminal.prompt_offsets()
    }

    /// Hyperlink spans of the viewport scrolled `offset` lines up.
    pub fn links_at_offset(&self, offset: usize) -> (spans: Vec<LinkSpan>)
        requires
            self@.wf(),
        ensures
            spans_view(spans@) == links_from(self@.terminal, offset as nat, 0),
    {
        self.terminal.links_at_offset(offset)
    }

    /// Whether the application enabled bracketed paste.
    pub fn bracketed_paste(&self) -> (b: bool)
        ensures
            b == modes_after(self@.terminal.ops).bracketed_paste,
    {
        self.terminal.bracketed_paste()
    }

    /// The application's mouse mode as a bit field.
    pub fn mouse_mode(&self) -> (m: u8)
        ensures
            m == mouse_bits(self@.terminal),
    {
        self.terminal.mouse_mode()
    }

    /// The raw cursor shape.
    pub fn cursor_style(&self) -> (s: u8)
        ensures
            s == self@.terminal.cursor_style,
    {
        self.terminal.cursor_style()
    }

    /// Re-themes the pane's terminal.
    pub fn set_palette(&mut self, palette: Palette)
        ensures
            final(self)@ == (PaneView {
                terminal: TerminalView { palette, ..old(self)@.terminal },
                ..old(self)@
            }),
    {
        self.terminal.set_palette(palette);
    }

    /// Takes the pending events.
    pub fn drain_events(&mut self) -> (events: Vec<PaneEvent>)
        ensures
            pane_events_view(events@) == old(self)@.events,
            final(self)@ == (PaneView { events: Seq::empty(), ..old(self)@ }),
    {
        let mut events: Vec<PaneEvent> = Vec::new();
        std::mem::swap(&mut events, &mut self.events);
        assert(pane_events_view(self.events@) =~= Seq::empty());
        events
    }

    /// The pane's id.
    pub fn pane_id(&self) -> (id: PaneId)
        ensures
            id == self@.id,
    {
        self.id
    }

    /// Whether the pane waits for the user.
    pub fn attention(&self) -> (a: Attention)
        ensures
            a == self@.attention,
    {
        self.attention
    }

    /// Notifications since the pane was last focused.
    pub fn unread(&self) -> (n: u32)
        ensures
            n == self@.unread,
    {
        self.unread
    }

    /// The user looked at the pane: nothing is pending or unread.
    pub fn focus(&mut self)
        ensures
            final(self)@ == (PaneView { attention: Attention::Quiet, unread: 0, ..old(self)@ }),
    {
        self.attention.focus();
        self.unread = 0;
    }

    /// Asks for attention from outside.
    pub fn request_attention(&mut self)
        ensures
            final(self)@ == (PaneView { attention: Attention::Pending, ..old(self)@ }),
    {
        self.attention.set_pending();
    }

    /// Raises a notification from outside, as if the pane's program had emitted it.
    pub fn notify(&mut self, title: String, body: String)
        ensures
            final(self)@ == noted(
                old(self)@,
                TermEventView::Notification(asked_notification(title@, body@)),
            ),
    {
        self.note(
            &TermEvent::Notification(
                Notification {
                    kind: NotifyKind::Osc777,
                    title,
                    body,
                    urgency: Urgency::Normal,
                    id: None,
                },
            ),
        );
    }

    /// The pane's title.
    pub fn title(&self) -> (s: String)
        ensures
            s@ == self@.title,
    {
        self.title.clone()
    }

    /// The pane's working directory, if known.
    pub fn cwd(&self) -> (r: Option<String>)
        ensures
            opt_text(r) == self@.cwd,
    {
        clone_opt(&self.cwd)
    }

    /// Whether the program runs, or the remote pane exists.
    pub fn is_alive(&self) -> (b: bool)
        ensures
            b == self@.alive,
    {
        self.alive
    }

    /// Whether the program has running children.
    pub fn is_busy(&self) -> (b: bool)
        ensures
            b == self@.busy,
    {
        self.busy
    }
}

/// The environment that a pane's program gets: its own pane id, so that hooks can address the
/// pane, and what kind of terminal it runs in.
pub fn pane_env(id: PaneId) -> (env: Vec<(String, String)>)
    ensures
        env@.len() == 3,
        env@[0].0@ == "GMUX_PANE"@,
        env@[0].1@ == seq!['%'] + crate::text::dec(id.0 as nat),
        env@[1].0@ == "TERM_PROGRAM"@,
        env@[1].1@ == "gmux"@,
        env@[2].0@ == "COLORTERM"@,
        env@[2].1@ == "truecolor"@,
{
    let mut env: Vec<(String, String)> = Vec::new();
    env.push((String::from_str("GMUX_PANE"), id.label()));
    env.push((String::from_str("TERM_PROGRAM"), String::from_str("gmux")));
    env.push((String::from_str("COLORTERM"), String::from_str("truecolor")));
    env
}

/// A pane that ended stays ended and reports it no second time.
pub proof fn ending_is_reported_once(p: PaneView)
    ensures
        !ended(p).alive,
        ended(ended(p)) == ended(p),
        marked_exited(marked_exited(p)) == marked_exited(p),
{
}

/// A notification or bell anywhere in the output leaves the pane pending.
pub proof fn notifications_ask_for_attention(p: PaneView, es: Seq<TermEventView>, i: int)
    requires
        0 <= i < es.len(),
        es[i] is Notification || es[i] is Bell,
    ensures
        noted_all(p, es).attention == Attention::Pending,
    decreases es.len(),
{
    if i < es.len() - 1 {
        notifications_ask_for_attention(p, es.drop_last(), i);
    }
}

/// A notification anywhere in the output waits among the pane's events, word for word.
pub proof fn notifications_wait_to_be_drained(p: PaneView, es: Seq<TermEventView>, i: int)
    requires
        0 <= i < es.len(),
        es[i] is Notification,
    ensures
        noted_all(p, es).events.contains(PaneEventView::Notification(es[i]->Notification_0)),
    decreases es.len(),
{
    let front = noted_all(p, es.drop_last()).events;
    let all = noted_all(p, es).events;
    let want = PaneEventView::Notification(es[i]->Notification_0);
    if i < es.len() - 1 {
        notifications_wait_to_be_drained(p, es.drop_last(), i);
        let k = choose|k: int| 0 <= k < front.len() && front[k] == want;
        assert(all[k] == want);
    } else {
        assert(all.last() == want);
    }
}

proof fn lemma_recognized_is_noted(p: PaneView, es: Seq<TermEventView>, text: Seq<u8>)
    requires
        recognized(text, es),
        notifies(osc_params(text)),
    ensures
        noted_all(p, es).attention == Attention::Pending,
{
    let partials = choose|partials: Seq<(Seq<char>, PartialView)>|
        stands_in((#[trigger] osc_step(partials, osc_params(text))).1, es);
    let part = osc_step(partials, osc_params(text)).1;
    assert(has_notification(part));
    let i = choose|i: int| 0 <= i < part.len() && (#[trigger] part[i]) is Notification;
    let k = choose|k: int|
        0 <= k && k + part.len() <= es.len() && #[trigger] es.subrange(k, k + part.len()) == part;
    assert(es.subrange(k, k + part.len())[i] == es[k + i]);
    notifications_ask_for_attention(p, es, k + i);
}

} // verus!
