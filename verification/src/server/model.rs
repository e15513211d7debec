//! What the server is and does, as mathematics: its state, and the effect of every request.
use vstd::prelude::*;
#[allow(unused_imports)]
use vstd::utf8::encode_utf8;

#[allow(unused_imports)]
use crate::mux::attention::Attention;
#[allow(unused_imports)]
use crate::mux::ids::{after, Ids, PaneId, WindowId};
#[allow(unused_imports)]
use crate::mux::layout::{dragged, FocusDir, Node, Rect, SplitDir};
#[allow(unused_imports)]
use crate::mux::layout::{has_leaf, swapped};
#[allow(unused_imports)]
use crate::mux::pane::{
    asked_notification, local_pane, noted, pane_resized, Backend, PaneView, PtySize,
};
#[allow(unused_imports)]
use crate::mux::session::{
    added_window, focused, moved, pane_of, removed_pane, window_index, with_pane, without_window,
    SessionView,
};
#[allow(unused_imports)]
use crate::mux::window::{
    active_of, any_busy, focused_dir, pane_index, plain_window, setting, window_rects, with_split,
    without_active, WindowView,
};
#[allow(unused_imports)]
use crate::mux::workspace::{status_of, PrBadgeView};
#[allow(unused_imports)]
use crate::pairs::{key_of, without_key, Pairs};
#[allow(unused_imports)]
use crate::proto::{
    err_view, ok_view, CallView, NotifyWireView, ResponseView, ResultView, PROTOCOL_VERSION,
    SERVER_VERSION,
};
#[allow(unused_imports)]
use crate::remote::attachment::{attached, pumped, AttachmentView, Mirror};
#[allow(unused_imports)]
use crate::remote::transport::{commanded, size_command, split_command};
#[allow(unused_imports)]
use crate::server::drain::{
    drained_windows, nothing_drained, present, progressed, quieted, with_dead, DrainedView,
};
#[allow(unused_imports)]
use crate::server::render::{captured_text, grid_of, layout_of, listed_windows, Progress};
#[allow(unused_imports)]
use crate::server::wires::{exit_wire, output_wire};
#[allow(unused_imports)]
use crate::text::dec;
#[allow(unused_imports)]
use crate::vt::color::{themed, Palette, Rgb};
#[allow(unused_imports)]
use crate::vt::osc::TermEventView;
#[allow(unused_imports)]
use crate::vt::terminal::{found_lines, prompt_offsets_of, TerminalView};

verus! {

/// The size of a console before any client told its geometry.
pub const DEFAULT_COLS: u16 = 120;

/// The height of a console before any client told its geometry.
pub const DEFAULT_ROWS: u16 = 30;

/// The mathematical value of a server.
pub struct ServerView {
    pub session: SessionView,
    pub ids: Ids,
    /// The command line of the default shell.
    pub shell: Seq<char>,
    /// The area that a client last told.
    pub last_view: (u32, u32),
    /// Notifications that wait to be polled.
    pub notifications: Seq<NotifyWireView>,
    /// Pages that wait to be polled.
    pub browse_requests: Seq<Seq<char>>,
    pub ticks: u32,
    /// Attachments, each with its key.
    pub remotes: Seq<(u64, AttachmentView)>,
    /// The key of the next attachment.
    pub next_remote: u64,
    /// The latest progress of each pane.
    pub progress: Pairs<Progress>,
    pub palette: Palette,
    /// Whether snapshots keep screen text.
    pub persist_screen: bool,
    /// Ticks between two pull request probes; 0 is off.
    pub pr_refresh_ticks: u32,
    /// Where the next probe starts looking for a window.
    pub pr_cursor: nat,
}

/// Where a started pane goes.
pub enum PlaceView {
    /// Into a split of the active pane.
    Split(SplitDir),
    /// Into a new window, anchored to a directory.
    Window(Option<Seq<char>>),
}

/// What a request asks for next.
pub enum StepView {
    /// The answer.
    Reply(ResponseView),
    /// Write to a pane's program; the outcome makes the answer.
    Write { id: u64, pane: PaneId, bytes: Seq<u8> },
    /// Start a program for a pane; the outcome makes the answer.
    Start {
        id: u64,
        pane: PaneId,
        command: Seq<char>,
        cwd: Option<Seq<char>>,
        place: PlaceView,
    },
    /// Resize consoles, then answer.
    Resize { sizes: Seq<(PaneId, PtySize)>, reply: ResponseView },
    /// List a directory; its projects make an import.
    Scan { id: u64, dir: Seq<char>, all: bool },
    /// Start a transport; the outcome makes the answer.
    Attach { id: u64, command: Seq<char> },
    /// Find the git branches of directories; they complete the layout.
    Branches { id: u64, w: u32, h: u32, dirs: Seq<Option<Seq<char>>> },
}

/// What a request does.
pub type Outcome = (ServerView, StepView);

/// Nothing more, and the answer that it is done.
pub open spec fn done(v: ServerView, id: u64) -> Outcome {
    (v, StepView::Reply(ok_view(id, ResultView::Done)))
}

/// Nothing more, and an answer.
pub open spec fn answer(v: ServerView, id: u64, r: ResultView) -> Outcome {
    (v, StepView::Reply(ok_view(id, r)))
}

/// The answer that a pane is not there.
pub open spec fn no_pane(v: ServerView, id: u64, pane: u64) -> Outcome {
    (v, StepView::Reply(err_view(id, "no pane %"@ + dec(pane as nat))))
}

/// A session with the window of an id changed.
pub open spec fn at_window(
    s: SessionView,
    id: u64,
    change: spec_fn(WindowView) -> WindowView,
) -> SessionView {
    match window_index(s.windows, WindowId(id), 0) {
        Some(i) => SessionView { windows: s.windows.update(i, change(s.windows[i])), ..s },
        None => s,
    }
}

/// A session with the active window changed.
pub open spec fn at_active(
    s: SessionView,
    change: spec_fn(WindowView) -> WindowView,
) -> SessionView {
    if s.active < s.windows.len() {
        SessionView {
            windows: s.windows.update(s.active as int, change(s.windows[s.active as int])),
            ..s
        }
    } else {
        s
    }
}

/// The active pane of the active window.
pub open spec fn active_pane(s: SessionView) -> Option<PaneId> {
    if s.active < s.windows.len() {
        Some(s.windows[s.active as int].active)
    } else {
        None
    }
}

/// A session whose user looks at the active pane: nothing of it is pending or unread any more.
pub open spec fn attended(s: SessionView) -> SessionView {
    match active_pane(s) {
        Some(t) => match pane_of(s, t) {
            Some(p) => with_pane(
                s,
                t,
                PaneView { attention: Attention::Quiet, unread: 0, ..p },
            ),
            None => s,
        },
        None => s,
    }
}

/// The first attachment, from index `from` on, that mirrors a pane, and the remote pane.
pub open spec fn owner(remotes: Seq<(u64, AttachmentView)>, id: PaneId, from: int) -> Option<
    (int, u64),
>
    decreases remotes.len() - from,
{
    if from < 0 || from >= remotes.len() {
        None
    } else {
        match key_of(remotes[from].1.panes, id.0, 0) {
            Some(remote) => Some((from, remote)),
            None => owner(remotes, id, from + 1),
        }
    }
}

/// The first attachment, from index `from` on, that mirrors a window, and the remote window.
pub open spec fn window_owner(
    remotes: Seq<(u64, AttachmentView)>,
    id: WindowId,
    from: int,
) -> Option<(int, u64)>
    decreases remotes.len() - from,
{
    if from < 0 || from >= remotes.len() {
        None
    } else {
        match key_of(remotes[from].1.windows, id.0, 0) {
            Some(remote) => Some((from, remote)),
            None => window_owner(remotes, id, from + 1),
        }
    }
}

/// The attachment that mirrors the active pane.
pub open spec fn active_remote(v: ServerView) -> Option<(int, u64)> {
    match active_pane(v.session) {
        Some(id) => owner(v.remotes, id, 0),
        None => None,
    }
}

/// An attachment that sent a command.
pub open spec fn sending(a: AttachmentView, command: Seq<char>) -> AttachmentView {
    AttachmentView { transport: commanded(a.transport, command), ..a }
}

/// A server whose attachment at an index sent a command.
pub open spec fn sent(v: ServerView, i: int, command: Seq<char>) -> ServerView {
    ServerView {
        remotes: v.remotes.update(i, (v.remotes[i].0, sending(v.remotes[i].1, command))),
        ..v
    }
}

// ---------------------------------------------------------------------------
// Panes.
// ---------------------------------------------------------------------------

/// The bytes that keys make.
pub open spec fn key_bytes(text: Seq<char>, enter: bool) -> Seq<u8> {
    if enter {
        encode_utf8(text).push(13)
    } else {
        encode_utf8(text)
    }
}

/// Keystrokes for a mirror, queued with the attachment that it belongs to.
pub open spec fn keys_queued(v: ServerView, pane: PaneId, remote: u64, bytes: Seq<u8>) -> ServerView {
    match owner(v.remotes, pane, 0) {
        Some((i, _)) => {
            let (key, a) = v.remotes[i];
            ServerView {
                remotes: v.remotes.update(
                    i,
                    (key, AttachmentView { input: a.input.push((remote, bytes)), ..a }),
                ),
                ..v
            }
        },
        None => v,
    }
}

pub open spec fn do_send_keys(
    v: ServerView,
    id: u64,
    pane: u64,
    text: Seq<char>,
    enter: bool,
) -> Outcome {
    match pane_of(v.session, PaneId(pane)) {
        Some(p) => match p.backend {
            Backend::Local => (
                v,
                StepView::Write { id, pane: PaneId(pane), bytes: key_bytes(text, enter) },
            ),
            Backend::Remote(r) => done(
                keys_queued(v, PaneId(pane), r, key_bytes(text, enter)),
                id,
            ),
        },
        None => no_pane(v, id, pane),
    }
}

pub open spec fn do_capture(v: ServerView, id: u64, pane: u64, lines: Option<usize>) -> Outcome {
    match pane_of(v.session, PaneId(pane)) {
        Some(p) => answer(v, id, ResultView::Text(captured_text(p, lines))),
        None => no_pane(v, id, pane),
    }
}

pub open spec fn do_search(v: ServerView, id: u64, pane: u64, query: Seq<char>) -> Outcome {
    match pane_of(v.session, PaneId(pane)) {
        Some(p) => answer(v, id, ResultView::Matches(found_lines(p.terminal, query))),
        None => no_pane(v, id, pane),
    }
}

pub open spec fn do_prompt_offsets(v: ServerView, id: u64, pane: u64) -> Outcome {
    match pane_of(v.session, PaneId(pane)) {
        Some(p) => answer(v, id, ResultView::Matches(prompt_offsets_of(p.terminal))),
        None => no_pane(v, id, pane),
    }
}

pub open spec fn do_pane_busy(v: ServerView, id: u64, pane: u64) -> Outcome {
    match pane_of(v.session, PaneId(pane)) {
        Some(p) => answer(v, id, ResultView::Busy(p.busy)),
        None => no_pane(v, id, pane),
    }
}

pub open spec fn do_get_grid(v: ServerView, id: u64, pane: u64, offset: usize) -> Outcome {
    match pane_of(v.session, PaneId(pane)) {
        Some(p) => answer(v, id, ResultView::Grid(grid_of(p, offset as nat))),
        None => no_pane(v, id, pane),
    }
}

pub open spec fn do_window_busy(v: ServerView, id: u64, win: u64) -> Outcome {
    answer(
        v,
        id,
        ResultView::Busy(
            match window_index(v.session.windows, WindowId(win), 0) {
                Some(i) => any_busy(v.session.windows[i].panes),
                None => false,
            },
        ),
    )
}

/// A notification for a pane, or for the active one, as if that pane had emitted it.
pub open spec fn do_notify(
    v: ServerView,
    id: u64,
    pane: Option<u64>,
    title: Seq<char>,
    body: Seq<char>,
) -> Outcome {
    let target = match pane {
        Some(p) => Some(PaneId(p)),
        None => active_pane(v.session),
    };
    match target {
        Some(t) => match pane_of(v.session, t) {
            Some(p) => done(
                ServerView {
                    session: with_pane(
                        v.session,
                        t,
                        noted(p, TermEventView::Notification(asked_notification(title, body))),
                    ),
                    ..v
                },
                id,
            ),
            None => (v, StepView::Reply(err_view(id, "no target pane"@))),
        },
        None => (v, StepView::Reply(err_view(id, "no target pane"@))),
    }
}

// ---------------------------------------------------------------------------
// Starting panes.
// ---------------------------------------------------------------------------

/// The direction that a letter names.
pub open spec fn split_dir(dir: Seq<char>) -> Option<SplitDir> {
    if dir == "h"@ {
        Some(SplitDir::Horizontal)
    } else if dir == "v"@ {
        Some(SplitDir::Vertical)
    } else {
        None
    }
}

/// The directory that the active window is anchored to.
pub open spec fn active_dir(s: SessionView) -> Option<Seq<char>> {
    if s.active < s.windows.len() {
        s.windows[s.active as int].workspace_dir
    } else {
        None
    }
}

/// The start of a pane: its id is taken now, so that its program can be told.
pub open spec fn starting(
    v: ServerView,
    id: u64,
    command: Option<Seq<char>>,
    cwd: Option<Seq<char>>,
    place: PlaceView,
) -> Outcome {
    (
        ServerView { ids: Ids { pane: after(v.ids.pane), ..v.ids }, ..v },
        StepView::Start {
            id,
            pane: PaneId(v.ids.pane),
            command: match command {
                Some(c) => c,
                None => v.shell,
            },
            cwd,
            place,
        },
    )
}

pub open spec fn do_split(
    v: ServerView,
    id: u64,
    dir: Seq<char>,
    command: Option<Seq<char>>,
) -> Outcome {
    match split_dir(dir) {
        None => (v, StepView::Reply(err_view(id, "bad dir '"@ + dir + "' (h|v)"@))),
        Some(sd) => match active_remote(v) {
            Some((i, remote)) => done(
                sent(v, i, split_command(remote, sd == SplitDir::Horizontal)),
                id,
            ),
            None => starting(v, id, command, active_dir(v.session), PlaceView::Split(sd)),
        },
    }
}

/// A new local pane of the default size, in the server's colors.
pub open spec fn new_pane(v: ServerView, pane: PaneId) -> PaneView {
    let p = local_pane(pane, PtySize { cols: DEFAULT_COLS, rows: DEFAULT_ROWS }, None);
    PaneView { terminal: TerminalView { palette: v.palette, ..p.terminal }, ..p }
}

/// A session with a started pane in a new window.
pub open spec fn windowed(
    v: ServerView,
    pane: PaneId,
    cwd: Option<Seq<char>>,
) -> ServerView {
    let wid = WindowId(v.ids.window);
    let s = added_window(
        v.session,
        plain_window(wid, seq![new_pane(v, pane)], Node::Leaf(pane), pane),
    );
    ServerView {
        session: match cwd {
            Some(dir) => at_window(
                s,
                wid.0,
                |w: WindowView| WindowView { workspace_dir: setting(dir), ..w },
            ),
            None => s,
        },
        ids: Ids { window: after(v.ids.window), ..v.ids },
        ..v
    }
}

/// What a started pane does.
pub open spec fn pane_started(v: ServerView, pane: PaneId, place: PlaceView) -> ServerView {
    match place {
        PlaceView::Split(dir) => ServerView {
            session: at_active(
                v.session,
                |w: WindowView| with_split(w, dir, new_pane(v, pane)),
            ),
            ..v
        },
        PlaceView::Window(cwd) => windowed(v, pane, cwd),
    }
}

// ---------------------------------------------------------------------------
// Closing.
// ---------------------------------------------------------------------------

pub open spec fn do_close_pane(v: ServerView, id: u64) -> Outcome {
    match active_remote(v) {
        Some((i, remote)) => done(sent(v, i, "kill-pane -t %"@ + dec(remote as nat)), id),
        None => {
            let s = v.session;
            let session = if s.active < s.windows.len() && s.windows[s.active as int].panes.len()
                > 1 {
                at_active(s, |w: WindowView| without_active(w))
            } else if s.windows.len() > 1 {
                without_window(s, s.active as int)
            } else {
                s
            };
            done(ServerView { session, ..v }, id)
        },
    }
}

pub open spec fn do_close_pane_id(v: ServerView, id: u64, pane: u64) -> Outcome {
    let w = ServerView { session: focused(v.session, PaneId(pane)), ..v };
    if active_pane(w.session) == Some(PaneId(pane)) {
        do_close_pane(w, id)
    } else {
        done(w, id)
    }
}

pub open spec fn do_close_window(v: ServerView, id: u64, win: u64) -> Outcome {
    match window_index(v.session.windows, WindowId(win), 0) {
        None => done(v, id),
        Some(i) => if v.session.windows.len() <= 1 {
            done(v, id)
        } else {
            match window_owner(v.remotes, WindowId(win), 0) {
                Some((k, remote)) => done(
                    sent(v, k, "kill-window -t @"@ + dec(remote as nat)),
                    id,
                ),
                None => done(
                    ServerView { session: without_window(v.session, i), ..v },
                    id,
                ),
            }
        },
    }
}

// ---------------------------------------------------------------------------
// Layout.
// ---------------------------------------------------------------------------

/// The directory of each window's active pane.
pub open spec fn active_dirs(s: SessionView) -> Seq<Option<Seq<char>>> {
    Seq::new(s.windows.len(), |i: int| active_of(s.windows[i]).cwd)
}

pub open spec fn do_get_layout(v: ServerView, id: u64, w: u32, h: u32) -> Outcome {
    (
        ServerView { last_view: (w, h), ..v },
        StepView::Branches { id, w, h, dirs: active_dirs(v.session) },
    )
}

/// How many cells fit into pixels: at least one, and what fits 16 bits.
pub open spec fn cells_in(pixels: u32, chrome: u32, cell: u32) -> u16 {
    let left: int = if pixels >= chrome {
        pixels - chrome
    } else {
        0
    };
    let n = left / (if cell < 1 {
        1
    } else {
        cell as int
    });
    (if n < 1 {
        1
    } else {
        n as u32
    }) as u16
}

/// The size of a pane in a rectangle.
pub open spec fn size_in(r: Rect, cell: (u32, u32), chrome: (u32, u32)) -> PtySize {
    PtySize { cols: cells_in(r.w, chrome.0, cell.0), rows: cells_in(r.h, chrome.1, cell.1) }
}

/// A window with the panes of the first `n` rectangles resized, and the consoles to resize.
pub open spec fn fitted(
    w: WindowView,
    rs: Seq<(PaneId, Rect)>,
    cell: (u32, u32),
    chrome: (u32, u32),
    n: int,
) -> (WindowView, Seq<(PaneId, PtySize)>)
    decreases n,
{
    if n <= 0 {
        (w, Seq::empty())
    } else {
        let (x, sizes) = fitted(w, rs, cell, chrome, n - 1);
        let (id, r) = rs[n - 1];
        match pane_index(x.panes, id, 0) {
            Some(k) => {
                let p = x.panes[k];
                let size = size_in(r, cell, chrome);
                (
                    WindowView { panes: x.panes.update(k, pane_resized(p, size)), ..x },
                    if p.backend == Backend::Local && (p.terminal.cols != size.cols
                        || p.terminal.rows != size.rows) {
                        sizes.push((id, size))
                    } else {
                        sizes
                    },
                )
            },
            None => (x, sizes),
        }
    }
}

/// Attachments that were all told a size.
pub open spec fn all_resized(remotes: Seq<(u64, AttachmentView)>, cols: u16, rows: u16) -> Seq<
    (u64, AttachmentView),
> {
    Seq::new(
        remotes.len(),
        |i: int| (remotes[i].0, sending(remotes[i].1, size_command(cols, rows))),
    )
}

pub open spec fn do_resize_view(
    v: ServerView,
    id: u64,
    w: u32,
    h: u32,
    cell: (u32, u32),
    pane_chrome: u32,
    pane_chrome_y: u32,
    f: spec_fn(u32, u32) -> u32,
) -> Outcome {
    let chrome = (
        pane_chrome,
        if pane_chrome_y != 0 {
            pane_chrome_y
        } else {
            pane_chrome
        },
    );
    let s = v.session;
    let (session, sizes) = if s.active < s.windows.len() {
        let win = s.windows[s.active as int];
        let rs = window_rects(win, w, h, f);
        let (x, sizes) = fitted(win, rs, cell, chrome, rs.len() as int);
        (at_active(s, |_w: WindowView| x), sizes)
    } else {
        (s, Seq::empty())
    };
    (
        ServerView {
            session,
            last_view: (w, h),
            remotes: all_resized(
                v.remotes,
                cells_in(w, 0, cell.0),
                cells_in(h, 0, cell.1),
            ),
            ..v
        },
        StepView::Resize { sizes, reply: ok_view(id, ResultView::Done) },
    )
}

/// The direction that a word names.
pub open spec fn focus_dir(dir: Seq<char>) -> Option<FocusDir> {
    if dir == "left"@ {
        Some(FocusDir::Left)
    } else if dir == "right"@ {
        Some(FocusDir::Right)
    } else if dir == "up"@ {
        Some(FocusDir::Up)
    } else if dir == "down"@ {
        Some(FocusDir::Down)
    } else {
        None
    }
}

pub open spec fn do_focus(
    v: ServerView,
    id: u64,
    dir: Seq<char>,
    f: spec_fn(u32, u32) -> u32,
) -> Outcome {
    match focus_dir(dir) {
        Some(d) => done(
            ServerView {
                session: attended(
                    at_active(
                        v.session,
                        |w: WindowView| focused_dir(w, d, v.last_view.0, v.last_view.1, f),
                    ),
                ),
                ..v
            },
            id,
        ),
        None => (v, StepView::Reply(err_view(id, "bad dir '"@ + dir + "'"@))),
    }
}

pub open spec fn do_swap(v: ServerView, id: u64, a: u64, b: u64) -> Outcome {
    done(
        ServerView {
            session: at_active(
                v.session,
                |w: WindowView|
                    if has_leaf(w.root, PaneId(a)) && has_leaf(w.root, PaneId(b)) {
                        WindowView { root: swapped(w.root, PaneId(a), PaneId(b)), ..w }
                    } else {
                        w
                    },
            ),
            ..v
        },
        id,
    )
}

pub open spec fn do_resize_split(
    v: ServerView,
    id: u64,
    pane: u64,
    dx: u32,
    dy: u32,
    g: spec_fn(u32, u32) -> u32,
) -> Outcome {
    if owner(v.remotes, PaneId(pane), 0) is Some {
        done(v, id)
    } else {
        done(
            ServerView {
                session: at_active(
                    v.session,
                    |w: WindowView|
                        WindowView { root: dragged(w.root, PaneId(pane), dx, dy, g).0, ..w },
                ),
                ..v
            },
            id,
        )
    }
}

/// The window next to the active one, in either direction, around the end.
pub open spec fn switched(s: SessionView, next: bool) -> SessionView {
    if s.windows.len() == 0 {
        s
    } else if next {
        SessionView { active: (s.active + 1) % s.windows.len(), ..s }
    } else {
        SessionView {
            active: ((s.active + s.windows.len() - 1) % (s.windows.len() as int)) as nat,
            ..s
        }
    }
}

// ---------------------------------------------------------------------------
// Palettes.
// ---------------------------------------------------------------------------

/// The color of three bytes.
pub open spec fn color(c: Seq<u8>) -> Rgb {
    Rgb { r: c[0], g: c[1], b: c[2] }
}

/// The palette that a request describes.
pub open spec fn asked_palette(fg: Seq<u8>, bg: Seq<u8>, ansi: Seq<Seq<u8>>) -> Palette {
    themed(color(fg), color(bg), Seq::new(ansi.len(), |i: int| color(ansi[i])))
}

/// A pane in other colors.
pub open spec fn repainted_pane(p: PaneView, palette: Palette) -> PaneView {
    PaneView { terminal: TerminalView { palette, ..p.terminal }, ..p }
}

/// A window whose first `n` panes are in other colors.
pub open spec fn repainted_window(w: WindowView, palette: Palette, n: int) -> WindowView {
    WindowView {
        panes: Seq::new(
            w.panes.len(),
            |i: int|
                if i < n {
                    repainted_pane(w.panes[i], palette)
                } else {
                    w.panes[i]
                },
        ),
        ..w
    }
}

/// A session whose first `n` windows are in other colors.
pub open spec fn repainted(s: SessionView, palette: Palette, n: int) -> SessionView {
    SessionView {
        windows: Seq::new(
            s.windows.len(),
            |i: int|
                if i < n {
                    repainted_window(s.windows[i], palette, s.windows[i].panes.len() as int)
                } else {
                    s.windows[i]
                },
        ),
        ..s
    }
}

pub open spec fn do_set_palette(
    v: ServerView,
    id: u64,
    fg: Seq<u8>,
    bg: Seq<u8>,
    ansi: Seq<Seq<u8>>,
) -> Outcome {
    let palette = asked_palette(fg, bg, ansi);
    done(
        ServerView {
            palette,
            session: repainted(v.session, palette, v.session.windows.len() as int),
            ..v
        },
        id,
    )
}

// ---------------------------------------------------------------------------
// Windows.
// ---------------------------------------------------------------------------

/// A badge that a request describes; a status that is not known clears it.
pub open spec fn asked_badge(number: u32, status: Seq<char>, url: Option<Seq<char>>) -> Option<
    PrBadgeView,
> {
    match status_of(status) {
        Some(status) => Some(PrBadgeView { number, status, url }),
        None => None,
    }
}

/// A server with the window of an id changed, and the answer that it is done.
pub open spec fn window_set(
    v: ServerView,
    id: u64,
    win: u64,
    change: spec_fn(WindowView) -> WindowView,
) -> Outcome {
    done(ServerView { session: at_window(v.session, win, change), ..v }, id)
}

pub open spec fn do_select(v: ServerView, id: u64, index: usize) -> Outcome {
    if index < v.session.windows.len() {
        done(
            ServerView {
                session: attended(SessionView { active: index as nat, ..v.session }),
                ..v
            },
            id,
        )
    } else {
        done(v, id)
    }
}

/// The command line of a transport.
pub open spec fn transport_line(target: Seq<char>, command: Option<Seq<char>>) -> Seq<char> {
    match command {
        Some(c) => c,
        None => "ssh -tt "@ + target + " -- tmux -CC new -As gmux"@,
    }
}

/// What a request does. `f` cuts the share of a ratio off an extent, `g` adds a delta to a ratio.
pub open spec fn handled(
    v: ServerView,
    id: u64,
    call: CallView,
    f: spec_fn(u32, u32) -> u32,
    g: spec_fn(u32, u32) -> u32,
) -> Outcome {
    match call {
        CallView::Hello { .. } => answer(
            v,
            id,
            ResultView::Hello { server_version: SERVER_VERSION@, protocol: PROTOCOL_VERSION },
        ),
        CallView::ListPanes => answer(
            v,
            id,
            ResultView::Panes(listed_windows(v.session, v.session.windows.len() as int)),
        ),
        CallView::SendKeys { pane, text, enter } => do_send_keys(v, id, pane, text, enter),
        CallView::CapturePane { pane, scrollback } => do_capture(v, id, pane, scrollback),
        CallView::SearchPane { pane, query } => do_search(v, id, pane, query),
        CallView::PromptOffsets { pane } => do_prompt_offsets(v, id, pane),
        CallView::PaneBusy { pane } => do_pane_busy(v, id, pane),
        CallView::WindowBusy { id: win } => do_window_busy(v, id, win),
        CallView::SplitPane { dir, command } => do_split(v, id, dir, command),
        CallView::NewWindow { command, cwd } => starting(
            v,
            id,
            command,
            cwd,
            PlaceView::Window(cwd),
        ),
        CallView::SetWorkspaceDir { id: win, dir } => window_set(
            v,
            id,
            win,
            |w: WindowView| WindowView { workspace_dir: setting(dir), ..w },
        ),
        CallView::ImportWorkspaces { dir, all } => (v, StepView::Scan { id, dir, all }),
        CallView::Notify { pane, title, body } => do_notify(v, id, pane, title, body),
        CallView::GetLayout { w, h } => do_get_layout(v, id, w, h),
        CallView::GetGrid { pane, offset } => do_get_grid(v, id, pane, offset),
        CallView::ResizeView { w, h, cell_w, cell_h, pane_chrome, pane_chrome_y } =>
            do_resize_view(v, id, w, h, (cell_w, cell_h), pane_chrome, pane_chrome_y, f),
        CallView::FocusPane { dir } => do_focus(v, id, dir, f),
        CallView::ClosePane => do_close_pane(v, id),
        CallView::SwapPanes { a, b } => do_swap(v, id, a, b),
        CallView::ClosePaneId { pane } => do_close_pane_id(v, id, pane),
        CallView::ToggleZoom => done(
            ServerView {
                session: at_active(v.session, |w: WindowView| WindowView { zoom: !w.zoom, ..w }),
                ..v
            },
            id,
        ),
        CallView::ResizeSplit { pane, dx, dy } => do_resize_split(v, id, pane, dx, dy, g),
        CallView::SwitchWindow { next } => done(
            ServerView { session: attended(switched(v.session, next)), ..v },
            id,
        ),
        CallView::CloseWindow { id: win } => do_close_window(v, id, win),
        CallView::SelectWindow { index } => do_select(v, id, index),
        CallView::RenameWindow { id: win, name } => window_set(
            v,
            id,
            win,
            |w: WindowView| WindowView { name: setting(name), ..w },
        ),
        CallView::GroupWindow { id: win, group } => window_set(
            v,
            id,
            win,
            |w: WindowView| WindowView { group: setting(group), ..w },
        ),
        CallView::ColorWindow { id: win, color } => window_set(
            v,
            id,
            win,
            |w: WindowView| WindowView { color: setting(color), ..w },
        ),
        CallView::SetPr { id: win, number, status, url } => window_set(
            v,
            id,
            win,
            |w: WindowView| WindowView { pr: asked_badge(number, status, url), ..w },
        ),
        CallView::FocusPaneId { pane } => if pane_of(v.session, PaneId(pane)) is Some {
            done(
                ServerView { session: attended(focused(v.session, PaneId(pane))), ..v },
                id,
            )
        } else {
            done(v, id)
        },
        CallView::MoveWindow { from, to } => done(
            ServerView { session: moved(v.session, from as nat, to as nat), ..v },
            id,
        ),
        CallView::PollNotifications => answer(
            ServerView { notifications: Seq::empty(), ..v },
            id,
            ResultView::Notifications(v.notifications),
        ),
        CallView::Subscribe { .. } => done(v, id),
        CallView::SetPalette { fg, bg, ansi } => do_set_palette(v, id, fg, bg, ansi),
        CallView::Browse { url } => done(
            ServerView { browse_requests: v.browse_requests.push(url), ..v },
            id,
        ),
        CallView::PollBrowse => answer(
            ServerView { browse_requests: Seq::empty(), ..v },
            id,
            ResultView::Browses(v.browse_requests),
        ),
        CallView::SshTmux { target, command } => (
            v,
            StepView::Attach { id, command: transport_line(target, command) },
        ),
    }
}

/// What a transport that was started does.
pub open spec fn remote_attached(v: ServerView) -> ServerView {
    ServerView {
        remotes: v.remotes.push((v.next_remote, attached())),
        next_remote: after(v.next_remote),
        ..v
    }
}

/// The layout answer, completed by branches.
pub open spec fn layout_answer(
    v: ServerView,
    id: u64,
    w: u32,
    h: u32,
    branches: Seq<Option<Seq<char>>>,
    f: spec_fn(u32, u32) -> u32,
) -> ResponseView {
    ok_view(
        id,
        ResultView::Layout(layout_of(v.session, w, h, branches, v.progress, f)),
    )
}

// ---------------------------------------------------------------------------
// Ticks.
// ---------------------------------------------------------------------------

/// What a tick gives.
pub struct TickView {
    /// What subscribers are told.
    pub batch: Seq<NotifyWireView>,
    /// Whether the session is to be saved.
    pub save: bool,
    /// A window whose pull request is to be looked up, and the directory to do it in.
    pub probe: Option<(u64, Seq<char>)>,
    /// What the attachments have to tell the user.
    pub warnings: Seq<Seq<char>>,
}

/// The session and the counters after the first `n` attachments were pumped, and the attachments
/// that go on.
pub open spec fn pumped_remotes(
    s: SessionView,
    ids: Ids,
    remotes: Seq<(u64, AttachmentView)>,
    n: int,
    f: spec_fn(u64, u64) -> u32,
    g: spec_fn(u64, u64) -> u32,
) -> (SessionView, Ids, Seq<(u64, AttachmentView)>)
    decreases n,
{
    if n <= 0 {
        (s, ids, Seq::empty())
    } else {
        let (t, i, kept) = pumped_remotes(s, ids, remotes, n - 1, f, g);
        let (key, att) = remotes[n - 1];
        let (m, live) = pumped(Mirror { att, session: t, ids: i }, f, g);
        (
            m.session,
            m.ids,
            if live {
                kept.push((key, m.att))
            } else {
                kept
            },
        )
    }
}

/// What the first `n` attachments have to tell the user once they were pumped.
pub open spec fn remote_warnings(
    s: SessionView,
    ids: Ids,
    remotes: Seq<(u64, AttachmentView)>,
    n: int,
    f: spec_fn(u64, u64) -> u32,
    g: spec_fn(u64, u64) -> u32,
) -> Seq<Seq<char>>
    decreases n,
{
    if n <= 0 {
        Seq::empty()
    } else {
        let (t, i, kept) = pumped_remotes(s, ids, remotes, n - 1, f, g);
        let m = pumped(Mirror { att: remotes[n - 1].1, session: t, ids: i }, f, g).0;
        let before = remote_warnings(s, ids, remotes, n - 1, f, g);
        match m.att.warning {
            Some(w) => before.push(w),
            None => before,
        }
    }
}

/// What subscribers are told: notifications, exits, damage, and new clipboard text.
pub open spec fn batch_of(d: DrainedView, exited: Seq<PaneId>) -> Seq<NotifyWireView> {
    d.notes + Seq::new(exited.len(), |i: int| exit_wire(exited[i].0)) + Seq::new(
        d.damaged.len(),
        |i: int| output_wire(d.damaged[i].0),
    ) + d.clipboards
}

/// A session without the first `n` panes of a list.
pub open spec fn without_panes(s: SessionView, ids: Seq<PaneId>, n: int) -> SessionView
    decreases n,
{
    if n <= 0 {
        s
    } else {
        removed_pane(without_panes(s, ids, n - 1), ids[n - 1])
    }
}

/// Progress without that of the first `n` panes of a list.
pub open spec fn without_progress(
    progress: Pairs<Progress>,
    ids: Seq<PaneId>,
    n: int,
) -> Pairs<Progress>
    decreases n,
{
    if n <= 0 {
        progress
    } else {
        without_key(without_progress(progress, ids, n - 1), ids[n - 1].0)
    }
}

/// A session with the first `n` looked-up badges set.
pub open spec fn badged(
    s: SessionView,
    found: Seq<(u64, Option<PrBadgeView>)>,
    n: int,
) -> SessionView
    decreases n,
{
    if n <= 0 {
        s
    } else {
        let (id, badge) = found[n - 1];
        at_window(
            badged(s, found, n - 1),
            id,
            |w: WindowView| WindowView { pr: badge, ..w },
        )
    }
}

/// The first window, from `cursor` plus `step` on and around the end, whose active pane has a
/// directory.
pub open spec fn probe_from(s: SessionView, cursor: nat, step: nat) -> Option<int>
    decreases s.windows.len() - step,
{
    if step >= s.windows.len() {
        None
    } else {
        let i = ((cursor + step) % s.windows.len()) as int;
        if active_of(s.windows[i]).cwd is Some {
            Some(i)
        } else {
            probe_from(s, cursor, step + 1)
        }
    }
}

/// Whether a tick looks up a pull request.
pub open spec fn probes_now(ticks: u32, every: u32) -> bool {
    every != 0 && ticks % every == 0
}

/// How often the session is saved, in ticks.
pub const SAVE_TICKS: u32 = 20;

/// What a tick does: attachments are pumped, panes are drained, dead panes leave, looked-up badges
/// are set, and now and then the session is saved and a badge is looked up.
pub open spec fn ticked(
    v: ServerView,
    found: Seq<(u64, Option<PrBadgeView>)>,
    f: spec_fn(u64, u64) -> u32,
    g: spec_fn(u64, u64) -> u32,
) -> (ServerView, TickView) {
    let (s0, ids, remotes) = pumped_remotes(
        v.session,
        v.ids,
        v.remotes,
        v.remotes.len() as int,
        f,
        g,
    );
    let d = drained_windows(nothing_drained(), s0.windows, s0.windows.len() as int);
    let s1 = quieted(s0, s0.windows.len() as int);
    let exited = with_dead(d.exited, s1.windows, s1.windows.len() as int);
    let s2 = without_panes(s1, exited, exited.len() as int);
    let p1 = progressed(v.progress, d.progress, d.progress.len() as int);
    let p2 = without_progress(p1, exited, exited.len() as int);
    let progress = present(p2, s2, p2.len() as int);
    let ticks = after32(v.ticks);
    let session = badged(s2, found, found.len() as int);
    let probe = if probes_now(ticks, v.pr_refresh_ticks) {
        probe_from(session, v.pr_cursor, 0)
    } else {
        None
    };
    (
        ServerView {
            session,
            ids,
            remotes,
            progress,
            ticks,
            notifications: v.notifications + d.notes,
            pr_cursor: match probe {
                Some(i) => ((i + 1) % (session.windows.len() as int)) as nat,
                None => v.pr_cursor,
            },
            ..v
        },
        TickView {
            batch: batch_of(d, exited),
            save: ticks % SAVE_TICKS == 0,
            warnings: remote_warnings(
                v.session,
                v.ids,
                v.remotes,
                v.remotes.len() as int,
                f,
                g,
            ),
            probe: match probe {
                Some(i) => Some(
                    (session.windows[i].id.0, active_of(session.windows[i]).cwd->0),
                ),
                None => None,
            },
        },
    )
}

/// The tick after a tick.
pub open spec fn after32(n: u32) -> u32 {
    if n == u32::MAX {
        0
    } else {
        (n + 1) as u32
    }
}

/// Whether no pane of any window is alive.
pub open spec fn all_dead(s: SessionView) -> bool {
    forall|i: int, k: int|
        0 <= i < s.windows.len() && 0 <= k < s.windows[i].panes.len() ==> !(
        #[trigger] s.windows[i].panes[k]).alive
}

} // verus!
