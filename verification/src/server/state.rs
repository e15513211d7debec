//! The server: one session, the attachments that mirror remote sessions into it, and the requests
//! of its clients.
//!
//! A request is handled in steps. [`Server::handle`] changes the state and returns the answer, or
//! what has to be done outside before there is one: start a program, write to one, resize consoles,
//! list a directory, find git branches. The caller does it and hands the outcome back.
use vstd::prelude::*;
use vstd::string::*;

#[allow(unused_imports)]
use crate::mux::attention::Attention;
#[allow(unused_imports)]
use crate::mux::ids::after;
use crate::mux::ids::{Ids, PaneId, WindowId};
#[allow(unused_imports)]
use crate::mux::layout::{cutting, function_of, has_leaf, is_function, lemma_function, total};
use crate::mux::layout::{FocusDir, SplitDir};
#[allow(unused_imports)]
use crate::mux::pane::{
    asked_notification, lemma_pumped_keeps_identity, noted, pane_resized, pumped as pane_pumped,
    PaneView,
};
use crate::mux::pane::{Input, Pane, PtySize};
use crate::mux::persist::SessionSnapshot;
#[allow(unused_imports)]
use crate::mux::persist::captured;
use crate::mux::session::Session;
#[allow(unused_imports)]
use crate::mux::session::{
    lemma_pane_of, lemma_with_pane, lemma_window_index, pane_of, tidy, windows_view, with_pane,
    SessionView,
};
#[allow(unused_imports)]
use crate::mux::window::{
    active_of, holds, lemma_holds, lemma_pane_index, lemma_updated, pane_index, panes_view,
    WindowView,
};
use crate::mux::window::Window;
use crate::mux::workspace::{PrBadge, PrStatus};
#[allow(unused_imports)]
use crate::mux::workspace::{opt_badge, PrBadgeView};
use crate::proto::{
    Call, NotifyWire, Request, Response, ResultBody, PROTOCOL_VERSION, SERVER_VERSION,
};
#[allow(unused_imports)]
use crate::proto::{err_view, ok_view, triples_view, wires_view, ResultView};
use crate::remote::attachment::RemoteAttachment;
#[allow(unused_imports)]
use crate::remote::attachment::{pumped, AttachmentView};
#[allow(unused_imports)]
use crate::remote::convert::{is_share, share_of};
#[allow(unused_imports)]
use crate::remote::laws::{ids_below, windows_below};
#[allow(unused_imports)]
use crate::remote::transport::{ended, received, TransportView};
#[allow(unused_imports)]
use crate::server::apart::{
    all_told_once, has_room, programs_keep_panes_apart, requests_keep_panes_apart, sound,
    started_panes_stay_apart, taken_ids_are_free, ticks_keep_panes_apart,
};
use crate::server::drain::{drain, note_progress, sweep_dead, sweep_progress};
use crate::server::import::Import;
#[allow(unused_imports)]
use crate::server::import::ImportView;
use crate::server::model::{DEFAULT_COLS, DEFAULT_ROWS, SAVE_TICKS};
#[allow(unused_imports)]
use crate::server::model::{
    active_dirs, active_pane, active_remote, all_dead, all_resized, answer, attended, badged,
    batch_of, cells_in, color, do_close_pane, do_close_pane_id, do_close_window, do_focus,
    do_get_layout, do_notify, do_resize_split, do_resize_view, do_send_keys, do_set_palette,
    do_split, done, fitted, focus_dir, handled, layout_answer, new_pane, owner, pane_started,
    probe_from, pumped_remotes, remote_attached, remote_warnings, repainted, repainted_pane, repainted_window, sent,
    size_in, starting, ticked, transport_line, window_owner, windowed, without_panes,
    without_progress, PlaceView, ServerView, StepView, TickView,
};
use crate::server::render::{capture, grid_wire, layout, list_panes, Progress};
#[allow(unused_imports)]
use crate::server::render::opts_view;
use crate::server::wires::{exit_notify, output_notify};
use crate::text::{clone_opt, push_decimal, str_eq, to_lowercase};
#[allow(unused_imports)]
use crate::text::{dec, lowercase, opt_text, texts_view};
use crate::vt::color::{Palette, Rgb};
#[allow(unused_imports)]
use crate::vt::osc::TermEventView;

verus! {

/// Where a started pane goes.
#[derive(Debug, PartialEq, Eq)]
pub enum Place {
    /// Into a split of the active pane.
    Split(SplitDir),
    /// Into a new window, anchored to a directory.
    Window(Option<String>),
}

impl Place {
    pub open spec fn view(&self) -> PlaceView {
        match *self {
            Place::Split(d) => PlaceView::Split(d),
            Place::Window(dir) => PlaceView::Window(opt_text(dir)),
        }
    }
}

/// What a request asks for next.
#[derive(Debug, PartialEq, Eq)]
pub enum Step {
    /// The answer.
    Reply(Response),
    /// Write `bytes` to a pane's program, then answer with [`written`].
    Write { id: u64, pane: PaneId, bytes: Vec<u8> },
    /// Start `command` in `cwd` for a pane, then answer with [`Server::started`] or
    /// [`start_failed`].
    Start { id: u64, pane: PaneId, command: String, cwd: Option<String>, place: Place },
    /// Resize consoles, then answer with `reply`.
    Resize { sizes: Vec<(PaneId, PtySize)>, reply: Response },
    /// List `dir`, then import its projects with [`Server::begin_import`].
    Scan { id: u64, dir: String, all: bool },
    /// Start a transport, then answer with [`Server::attached`] or [`attach_failed`].
    Attach { id: u64, command: String },
    /// Find the git branches of `dirs`, then answer with [`Server::layout_reply`].
    Branches { id: u64, w: u32, h: u32, dirs: Vec<Option<String>> },
}

impl Step {
    pub open spec fn view(&self) -> StepView {
        match *self {
            Step::Reply(r) => StepView::Reply(r@),
            Step::Write { id, pane, bytes } => StepView::Write { id, pane, bytes: bytes@ },
            Step::Start { id, pane, command, cwd, place } => StepView::Start {
                id,
                pane,
                command: command@,
                cwd: opt_text(cwd),
                place: place@,
            },
            Step::Resize { sizes, reply } => StepView::Resize { sizes: sizes@, reply: reply@ },
            Step::Scan { id, dir, all } => StepView::Scan { id, dir: dir@, all },
            Step::Attach { id, command } => StepView::Attach { id, command: command@ },
            Step::Branches { id, w, h, dirs } => StepView::Branches {
                id,
                w,
                h,
                dirs: opts_view(dirs@),
            },
        }
    }
}

/// What a tick gives.
#[derive(Debug, PartialEq, Eq)]
pub struct Tick {
    /// What subscribers are told.
    pub batch: Vec<NotifyWire>,
    /// Whether the session is to be saved.
    pub save: bool,
    /// A window whose pull request is to be looked up, and the directory to do it in.
    pub probe: Option<(u64, String)>,
    /// What the attachments have to tell the user.
    pub warnings: Vec<String>,
}

impl Tick {
    pub open spec fn view(&self) -> TickView {
        TickView {
            batch: wires_view(self.batch@),
            save: self.save,
            probe: match self.probe {
                Some((id, dir)) => Some((id, dir@)),
                None => None,
            },
            warnings: texts_view(self.warnings@),
        }
    }
}

/// The mathematical values of attachments with their keys.
pub open spec fn remotes_view(remotes: Seq<(u64, RemoteAttachment)>) -> Seq<(u64, AttachmentView)> {
    Seq::new(remotes.len(), |i: int| (remotes[i].0, remotes[i].1@))
}

/// The multiplexer state that a daemon serves.
pub struct Server {
    pub session: Session,
    pub ids: Ids,
    shell: String,
    last_view: (u32, u32),
    notifications: Vec<NotifyWire>,
    browse_requests: Vec<String>,
    ticks: u32,
    remotes: Vec<(u64, RemoteAttachment)>,
    next_remote: u64,
    progress: Vec<(u64, Progress)>,
    palette: Palette,
    persist_screen: bool,
    pr_refresh_ticks: u32,
    pr_cursor: usize,
}

/// A server that has just been started.
pub open spec fn fresh_server(
    session: SessionView,
    ids: Ids,
    shell: Seq<char>,
    persist_screen: bool,
    pr_refresh_ticks: u32,
    palette: Palette,
) -> ServerView {
    ServerView {
        session,
        ids,
        shell,
        last_view: (1200, 720),
        notifications: Seq::empty(),
        browse_requests: Seq::empty(),
        ticks: 0,
        remotes: Seq::empty(),
        next_remote: 0,
        progress: Seq::empty(),
        palette,
        persist_screen,
        pr_refresh_ticks,
        pr_cursor: 0,
    }
}

/// The error that something failed.
pub open spec fn failure(what: Seq<char>, e: Seq<char>) -> Seq<char> {
    what + ": "@ + e
}

fn failed(id: u64, what: &str, e: &str) -> (r: Response)
    ensures
        r@ == err_view(id, failure(what@, e@)),
{
    let mut s = String::from_str(what);
    s.append(": ");
    s.append(e);
    Response::err(id, s)
}

/// The answer after a write to a pane's program.
pub fn written(id: u64, error: Option<&str>) -> (r: Response)
    ensures
        r@ == (match error {
            Some(e) => err_view(id, failure("write failed"@, e@)),
            None => ok_view(id, ResultView::Done),
        }),
{
    match error {
        Some(e) => failed(id, "write failed", e),
        None => Response::ok(id, ResultBody::Done),
    }
}

/// The answer where a program could not be started.
pub fn start_failed(id: u64, e: &str) -> (r: Response)
    ensures
        r@ == err_view(id, failure("spawn failed"@, e@)),
{
    failed(id, "spawn failed", e)
}

/// The answer where a transport could not be started.
pub fn attach_failed(id: u64, e: &str) -> (r: Response)
    ensures
        r@ == err_view(id, failure("ssh-tmux spawn failed"@, e@)),
{
    failed(id, "ssh-tmux spawn failed", e)
}

fn reply(id: u64, r: ResultBody) -> (s: Step)
    ensures
        s@ == StepView::Reply(ok_view(id, r@)),
{
    Step::Reply(Response::ok(id, r))
}

fn refused(id: u64, msg: String) -> (s: Step)
    ensures
        s@ == StepView::Reply(err_view(id, msg@)),
{
    Step::Reply(Response::err(id, msg))
}

fn missing_pane(id: u64, pane: u64) -> (s: Step)
    ensures
        s@ == StepView::Reply(err_view(id, "no pane %"@ + dec(pane as nat))),
{
    let mut msg = String::from_str("no pane %");
    push_decimal(&mut msg, pane);
    refused(id, msg)
}

fn attach_step(id: u64, target: &str, command: &Option<String>) -> (s: Step)
    ensures
        s@ == (StepView::Attach { id, command: transport_line(target@, opt_text(*command)) }),
{
    let command = match command {
        Some(c) => c.clone(),
        None => {
            let mut line = String::from_str("ssh -tt ");
            line.append(target);
            line.append(" -- tmux -CC new -As gmux");
            line
        },
    };
    Step::Attach { id, command }
}

fn cells_of(pixels: u32, chrome: u32, cell: u32) -> (n: u16)
    ensures
        n == cells_in(pixels, chrome, cell),
{
    let left: u32 = if pixels >= chrome {
        pixels - chrome
    } else {
        0
    };
    let unit: u32 = if cell < 1 {
        1
    } else {
        cell
    };
    let n: u32 = left / unit;
    let n: u32 = if n < 1 {
        1
    } else {
        n
    };
    #[verifier::truncate]
    (n as u16)
}

/// The consoles to resize, and the window with its panes resized.
fn fit(
    win: &mut Window,
    rs: &Vec<(PaneId, crate::mux::layout::Rect)>,
    cell: (u32, u32),
    chrome: (u32, u32),
) -> (sizes: Vec<(PaneId, PtySize)>)
    requires
        old(win)@.complete(),
    ensures
        (final(win)@, sizes@) == fitted(old(win)@, rs@, cell, chrome, rs@.len() as int),
        final(win)@.complete(),
{
    let mut sizes: Vec<(PaneId, PtySize)> = Vec::new();
    assert(sizes@ =~= Seq::empty());
    let mut i: usize = 0;
    while i < rs.len()
        invariant
            i <= rs@.len(),
            win@.complete(),
            (win@, sizes@) == fitted(old(win)@, rs@, cell, chrome, i as int),
        decreases rs@.len() - i,
    {
        let (id, r) = rs[i];
        let size = PtySize {
            cols: cells_of(r.w, chrome.0, cell.0),
            rows: cells_of(r.h, chrome.1, cell.1),
        };
        assert(size == size_in(r, cell, chrome));
        let ghost w = win@;
        proof {
            lemma_pane_index(w.panes, id, 0);
        }
        if let Some(p) = win.pane_mut(id) {
            if let Some(s) = p.resize(size) {
                sizes.push((id, s));
            }
        }
        proof {
            if let Some(k) = pane_index(w.panes, id, 0) {
                lemma_same_ids(w, k, pane_resized(w.panes[k], size));
            }
        }
        i = i + 1;
    }
    sizes
}

/// Changing a pane without changing its id keeps a window complete.
proof fn lemma_same_ids(w: WindowView, k: int, p: PaneView)
    requires
        0 <= k < w.panes.len(),
        p.id == w.panes[k].id,
        p.wf(),
        w.complete(),
    ensures
        (WindowView { panes: w.panes.update(k, p), ..w }).complete(),
{
    lemma_updated(w.panes, k, p);
    let v = WindowView { panes: w.panes.update(k, p), ..w };
    assert forall|x: PaneId| #[trigger] has_leaf(v.root, x) == holds(v.panes, x) by {
        assert(has_leaf(w.root, x) == holds(w.panes, x));
    }
}

proof fn lemma_repainted_window(w: WindowView, palette: Palette, n: int)
    ensures
        w.complete() ==> repainted_window(w, palette, n).complete(),
{
    let q = repainted_window(w, palette, n);
    assert forall|x: PaneId| #[trigger] holds(q.panes, x) == holds(w.panes, x) by {
        lemma_holds(q.panes, x);
        lemma_holds(w.panes, x);
        if holds(w.panes, x) {
            let i = choose|i: int| 0 <= i < w.panes.len() && (#[trigger] w.panes[i]).id == x;
            assert(q.panes[i].id == x);
        }
        if holds(q.panes, x) {
            let i = choose|i: int| 0 <= i < q.panes.len() && (#[trigger] q.panes[i]).id == x;
            assert(w.panes[i].id == x);
        }
    }
    if w.complete() {
        assert forall|i: int, j: int| 0 <= i < j < q.panes.len() implies (
        #[trigger] q.panes[i]).id != (#[trigger] q.panes[j]).id by {
            assert(w.panes[i].id != w.panes[j].id);
        }
        assert forall|i: int| 0 <= i < q.panes.len() implies (#[trigger] q.panes[i]).wf() by {
            assert(w.panes[i].wf());
        }
        assert forall|x: PaneId| #[trigger] has_leaf(q.root, x) == holds(q.panes, x) by {
            assert(has_leaf(w.root, x) == holds(w.panes, x));
        }
    }
}

/// Puts all panes of a session in other colors.
fn repaint(session: &mut Session, palette: Palette)
    requires
        old(session)@.complete(),
    ensures
        final(session)@ == repainted(
            old(session)@,
            palette,
            old(session)@.windows.len() as int,
        ),
        final(session)@.complete(),
{
    let ghost s = session@;
    let mut wi: usize = 0;
    assert(repainted(s, palette, 0).windows =~= s.windows);
    while wi < session.window_count()
        invariant
            wi <= s.windows.len(),
            session@ == repainted(s, palette, wi as int),
        decreases s.windows.len() - wi,
    {
        let ghost w = s.windows[wi as int];
        assert(session@.windows[wi as int] == w);
        if let Some(win) = session.window_at_mut(wi) {
            let n: usize = win.pane_count();
            let mut i: usize = 0;
            assert(repainted_window(w, palette, 0).panes =~= w.panes);
            while i < n
                invariant
                    i <= n,
                    n == w.panes.len(),
                    win@ == repainted_window(w, palette, i as int),
                decreases n - i,
            {
                let ghost now = win@;
                assert(now.panes[i as int] == w.panes[i as int]);
                let panes = win.panes_mut();
                assert(panes_view(panes@).len() == now.panes.len());
                let p = &mut panes[i];
                p.set_palette(palette);
                assert(panes_view(panes@) =~= now.panes.update(
                    i as int,
                    repainted_pane(w.panes[i as int], palette),
                ));
                assert(win@.panes =~= repainted_window(w, palette, i + 1).panes);
                i = i + 1;
            }
        }
        assert(session@.windows =~= repainted(s, palette, wi + 1).windows);
        wi = wi + 1;
    }
    proof {
        assert forall|i: int| 0 <= i < s.windows.len() implies (
        #[trigger] session@.windows[i]).complete() by {
            lemma_repainted_window(s.windows[i], palette, s.windows[i].panes.len() as int);
            assert(s.windows[i].complete());
        }
    }
}

impl Server {
    pub closed spec fn view(&self) -> ServerView {
        ServerView {
            session: self.session@,
            ids: self.ids,
            shell: self.shell@,
            last_view: self.last_view,
            notifications: wires_view(self.notifications@),
            browse_requests: texts_view(self.browse_requests@),
            ticks: self.ticks,
            remotes: remotes_view(self.remotes@),
            next_remote: self.next_remote,
            progress: self.progress@,
            palette: self.palette,
            persist_screen: self.persist_screen,
            pr_refresh_ticks: self.pr_refresh_ticks,
            pr_cursor: self.pr_cursor as nat,
        }
    }

    /// The attachments are well formed, and every window's panes are its leaves.
    pub closed spec fn wf(&self) -> bool {
        &&& forall|i: int| 0 <= i < self.remotes@.len() ==> (#[trigger] self.remotes@[i]).1.wf()
        &&& self.session@.complete()
    }

    /// A server of a session: one that was restored, or one whose first pane was just started.
    pub fn new(
        session: Session,
        ids: Ids,
        shell: String,
        persist_screen: bool,
        pr_refresh_ticks: u32,
    ) -> (s: Server)
        requires
            session@.complete(),
        ensures
            s@ == fresh_server(
                session@,
                ids,
                shell@,
                persist_screen,
                pr_refresh_ticks,
                crate::vt::color::default_palette(),
            ),
            s.wf(),
            sound(s@) == (tidy(session@) && ids_below(session@, ids.pane) && windows_below(
                session@,
                ids.window,
            ) && all_told_once(session@)),
    {
        let s = Server {
            session,
            ids,
            shell,
            last_view: (1200, 720),
            notifications: Vec::new(),
            browse_requests: Vec::new(),
            ticks: 0,
            remotes: Vec::new(),
            next_remote: 0,
            progress: Vec::new(),
            palette: Palette::default(),
            persist_screen,
            pr_refresh_ticks,
            pr_cursor: 0,
        };
        assert(s@.notifications =~= Seq::empty());
        assert(s@.browse_requests =~= Seq::empty());
        assert(s@.remotes =~= Seq::empty());
        s
    }

    fn owner_of(&self, id: PaneId) -> (r: Option<(usize, u64)>)
        ensures
            match r {
                Some((i, remote)) => owner(self@.remotes, id, 0) == Some((i as int, remote)) && i
                    < self.remotes@.len(),
                None => owner(self@.remotes, id, 0) is None,
            },
    {
        let mut i: usize = 0;
        while i < self.remotes.len()
            invariant
                i <= self.remotes@.len(),
                owner(self@.remotes, id, 0) == owner(self@.remotes, id, i as int),
            decreases self.remotes@.len() - i,
        {
            if let Some(remote) = self.remotes[i].1.remote_id_of(id) {
                return Some((i, remote));
            }
            i = i + 1;
        }
        None
    }

    fn window_owner_of(&self, id: WindowId) -> (r: Option<(usize, u64)>)
        ensures
            match r {
                Some((i, remote)) => window_owner(self@.remotes, id, 0) == Some((i as int, remote))
                    && i < self.remotes@.len(),
                None => window_owner(self@.remotes, id, 0) is None,
            },
    {
        let mut i: usize = 0;
        while i < self.remotes.len()
            invariant
                i <= self.remotes@.len(),
                window_owner(self@.remotes, id, 0) == window_owner(self@.remotes, id, i as int),
            decreases self.remotes@.len() - i,
        {
            if let Some(remote) = self.remotes[i].1.remote_window_for(id) {
                return Some((i, remote));
            }
            i = i + 1;
        }
        None
    }

    /// The attachment that mirrors the active pane, and the remote pane.
    fn active_mirror(&self) -> (r: Option<(usize, u64)>)
        ensures
            match r {
                Some((i, remote)) => active_remote(self@) == Some((i as int, remote)) && i
                    < self.remotes@.len(),
                None => active_remote(self@) is None,
            },
    {
        match self.session.active_window() {
            Some(w) => self.owner_of(w.active_id()),
            None => None,
        }
    }

    fn send_keys(&mut self, id: u64, pane: u64, text: &str, enter: bool) -> (step: Step)
        requires
            old(self).wf(),
        ensures
            (final(self)@, step@) == do_send_keys(old(self)@, id, pane, text@, enter),
            final(self).wf(),
    {
        let mut bytes = vstd::slice::slice_to_vec(text.as_bytes());
        if enter {
            bytes.push(13);
        }
        let input = match self.session.pane(PaneId(pane)) {
            Some(p) => p.write(bytes.as_slice()),
            None => {
                return missing_pane(id, pane);
            },
        };
        match input {
            Input::Program(bytes) => Step::Write { id, pane: PaneId(pane), bytes },
            Input::Remote(remote, bytes) => {
                if let Some((i, _known)) = self.owner_of(PaneId(pane)) {
                    let ghost before = self.remotes@;
                    let r = &mut self.remotes[i];
                    r.1.queue_input(remote, bytes);
                    assert(remotes_view(self.remotes@) =~= remotes_view(before).update(
                        i as int,
                        (before[i as int].0, self.remotes@[i as int].1@),
                    ));
                }
                reply(id, ResultBody::Done)
            },
        }
    }

    /// Sends a command through the attachment at an index.
    fn send_split(&mut self, i: usize, remote: u64, horizontal: bool)
        requires
            old(self).wf(),
            i < old(self)@.remotes.len(),
        ensures
            final(self)@ == sent(
                old(self)@,
                i as int,
                crate::remote::transport::split_command(remote, horizontal),
            ),
            final(self).wf(),
    {
        let ghost before = self.remotes@;
        let r = &mut self.remotes[i];
        r.1.split_remote(remote, horizontal);
        assert(remotes_view(self.remotes@) =~= remotes_view(before).update(
            i as int,
            (before[i as int].0, self.remotes@[i as int].1@),
        ));
    }

    fn send_kill(&mut self, i: usize, remote: u64)
        requires
            old(self).wf(),
            i < old(self)@.remotes.len(),
        ensures
            final(self)@ == sent(old(self)@, i as int, "kill-pane -t %"@ + dec(remote as nat)),
            final(self).wf(),
    {
        let ghost before = self.remotes@;
        let r = &mut self.remotes[i];
        r.1.kill_remote(remote);
        assert(remotes_view(self.remotes@) =~= remotes_view(before).update(
            i as int,
            (before[i as int].0, self.remotes@[i as int].1@),
        ));
    }

    fn send_kill_window(&mut self, i: usize, remote: u64)
        requires
            old(self).wf(),
            i < old(self)@.remotes.len(),
        ensures
            final(self)@ == sent(old(self)@, i as int, "kill-window -t @"@ + dec(remote as nat)),
            final(self).wf(),
    {
        let ghost before = self.remotes@;
        let r = &mut self.remotes[i];
        r.1.kill_remote_window(remote);
        assert(remotes_view(self.remotes@) =~= remotes_view(before).update(
            i as int,
            (before[i as int].0, self.remotes@[i as int].1@),
        ));
    }

    fn start(&mut self, id: u64, command: &Option<String>, cwd: Option<String>, place: Place) -> (step:
        Step)
        requires
            old(self).wf(),
        ensures
            (final(self)@, step@) == starting(
                old(self)@,
                id,
                opt_text(*command),
                opt_text(cwd),
                place@,
            ),
            final(self).wf(),
    {
        let pane = PaneId::allocate(&mut self.ids);
        let command = match command {
            Some(c) => c.clone(),
            None => self.shell.clone(),
        };
        Step::Start { id, pane, command, cwd, place }
    }

    fn split(&mut self, id: u64, dir: &str, command: &Option<String>) -> (step: Step)
        requires
            old(self).wf(),
        ensures
            (final(self)@, step@) == do_split(old(self)@, id, dir@, opt_text(*command)),
            final(self).wf(),
    {
        let sd = if str_eq(dir, "h") {
            SplitDir::Horizontal
        } else if str_eq(dir, "v") {
            SplitDir::Vertical
        } else {
            let mut msg = String::from_str("bad dir '");
            msg.append(dir);
            msg.append("' (h|v)");
            return refused(id, msg);
        };
        match self.active_mirror() {
            Some((i, remote)) => {
                self.send_split(i, remote, sd == SplitDir::Horizontal);
                reply(id, ResultBody::Done)
            },
            None => {
                let cwd = match self.session.active_window() {
                    Some(w) => w.workspace_dir(),
                    None => None,
                };
                self.start(id, command, cwd, Place::Split(sd))
            },
        }
    }

    /// A new local pane of the default size, in the server's colors.
    fn make_pane(&self, pane: PaneId) -> (p: Pane)
        ensures
            p@ == new_pane(self@, pane),
            p@.wf(),
    {
        let size = PtySize { cols: DEFAULT_COLS, rows: DEFAULT_ROWS };
        let mut p = Pane::local(pane, size, None);
        p.set_palette(self.palette);
        p
    }

    /// Places a pane whose program was started in a new window, anchored to a directory.
    pub fn add_window(&mut self, pane: PaneId, dir: Option<String>)
        requires
            old(self).wf(),
            pane_of(old(self)@.session, pane) is None,
        ensures
            final(self)@ == windowed(old(self)@, pane, opt_text(dir)),
            final(self).wf(),
            sound(old(self)@) && pane.0 < old(self)@.ids.pane && old(self)@.ids.window < u64::MAX
                ==> sound(final(self)@),
    {
        proof {
            if sound(self@) && pane.0 < self@.ids.pane && self@.ids.window < u64::MAX {
                started_panes_stay_apart(self@, pane, PlaceView::Window(opt_text(dir)));
            }
        }
        let p = self.make_pane(pane);
        let wid = self.session.add_window(&mut self.ids, p);
        let ghost s = self.session@;
        if let Some(dir) = dir {
            if let Some(w) = self.session.window_mut(wid) {
                w.set_workspace_dir(dir);
            }
            proof {
                lemma_window_index(s.windows, wid, 0);
            }
        }
    }

    /// A pane's program was started: the pane goes to its place, and that is the answer.
    pub fn started(&mut self, id: u64, pane: PaneId, place: Place) -> (r: Response)
        requires
            old(self).wf(),
            pane_of(old(self)@.session, pane) is None,
        ensures
            final(self)@ == pane_started(old(self)@, pane, place@),
            r@ == ok_view(id, ResultView::PaneId(pane.0)),
            final(self).wf(),
            sound(old(self)@) && pane.0 < old(self)@.ids.pane && old(self)@.ids.window < u64::MAX
                ==> sound(final(self)@),
    {
        proof {
            if sound(self@) && pane.0 < self@.ids.pane && self@.ids.window < u64::MAX {
                started_panes_stay_apart(self@, pane, place@);
            }
        }
        match place {
            Place::Split(dir) => {
                let p = self.make_pane(pane);
                let ghost s = self.session@;
                if let Some(w) = self.session.active_window_mut() {
                    let _id = w.split(dir, p);
                }
            },
            Place::Window(dir) => {
                self.add_window(pane, dir);
            },
        }
        Response::ok(id, ResultBody::PaneId(pane.0))
    }

    fn notify(&mut self, id: u64, pane: Option<u64>, title: &str, body: &str) -> (step: Step)
        requires
            old(self).wf(),
        ensures
            (final(self)@, step@) == do_notify(old(self)@, id, pane, title@, body@),
            final(self).wf(),
    {
        let target = match pane {
            Some(p) => Some(PaneId(p)),
            None => match self.session.active_window() {
                Some(w) => Some(w.active_id()),
                None => None,
            },
        };
        let ghost s = self.session@;
        let found = match target {
            Some(t) => {
                proof {
                    lemma_pane_of(s, t);
                    if let Some(p) = pane_of(s, t) {
                        lemma_with_pane(
                            s,
                            t,
                            noted(
                                p,
                                TermEventView::Notification(asked_notification(title@, body@)),
                            ),
                        );
                    }
                }
                match self.session.pane_mut(t) {
                    Some(p) => {
                        p.notify(title.to_owned(), body.to_owned());
                        true
                    },
                    None => false,
                }
            },
            None => false,
        };
        if found {
            reply(id, ResultBody::Done)
        } else {
            refused(id, String::from_str("no target pane"))
        }
    }

    fn get_layout(&mut self, id: u64, w: u32, h: u32) -> (step: Step)
        requires
            old(self).wf(),
        ensures
            (final(self)@, step@) == do_get_layout(old(self)@, id, w, h),
            final(self).wf(),
    {
        self.last_view = (w, h);
        let windows = self.session.windows();
        let ghost want = active_dirs(self.session@);
        let mut dirs: Vec<Option<String>> = Vec::new();
        let mut i: usize = 0;
        while i < windows.len()
            invariant
                i <= windows@.len(),
                windows_view(windows@) == self.session@.windows,
                self.session@.complete(),
                want == active_dirs(self.session@),
                dirs@.len() == i,
                forall|j: int| 0 <= j < i ==> (#[trigger] opts_view(dirs@)[j]) == want[j],
            decreases windows@.len() - i,
        {
            assert(self.session@.windows[i as int] == windows@[i as int]@);
            let ghost before = dirs@;
            let d = windows[i].active_pane().cwd();
            dirs.push(d);
            assert forall|j: int| 0 <= j < i + 1 implies (#[trigger] opts_view(dirs@)[j])
                == want[j] by {
                if j < i {
                    assert(opts_view(dirs@)[j] == opts_view(before)[j]);
                }
            }
            i = i + 1;
        }
        assert(opts_view(dirs@) =~= want);
        Step::Branches { id, w, h, dirs }
    }

    /// The answer to a layout request, completed by the git branches of the windows' directories.
    /// `cut` cuts the share of a ratio off an extent.
    pub fn layout_reply<C: Fn(u32, u32) -> u32>(
        &self,
        id: u64,
        w: u32,
        h: u32,
        branches: &Vec<Option<String>>,
        cut: &C,
    ) -> (r: Response)
        requires
            self.wf(),
            cutting(*cut),
            is_function(*cut),
        ensures
            r@ == layout_answer(self@, id, w, h, opts_view(branches@), function_of(*cut)),
    {
        Response::ok(
            id,
            ResultBody::Layout(layout(&self.session, &self.progress, w, h, branches, cut)),
        )
    }

    /// Tells every attachment the client's size.
    fn resize_remotes(&mut self, cols: u16, rows: u16)
        requires
            old(self).wf(),
        ensures
            final(self)@ == (ServerView {
                remotes: all_resized(old(self)@.remotes, cols, rows),
                ..old(self)@
            }),
            final(self).wf(),
    {
        let ghost view = self@.remotes;
        let ghost want = all_resized(view, cols, rows);
        let mut i: usize = 0;
        while i < self.remotes.len()
            invariant
                i <= self.remotes@.len(),
                self.remotes@.len() == view.len(),
                want == all_resized(view, cols, rows),
                self.wf(),
                self@ == (ServerView { remotes: self@.remotes, ..old(self)@ }),
                forall|j: int| 0 <= j < i ==> (#[trigger] self@.remotes[j]) == want[j],
                forall|j: int| i <= j < view.len() ==> (#[trigger] self@.remotes[j]) == view[j],
            decreases self.remotes@.len() - i,
        {
            let ghost now = self.remotes@;
            let ghost before = self@.remotes;
            assert(before[i as int] == view[i as int]);
            let r = &mut self.remotes[i];
            r.1.resize_client(cols, rows);
            assert(self.remotes@ =~= now.update(i as int, self.remotes@[i as int]));
            assert(self@.remotes =~= before.update(i as int, want[i as int]));
            i = i + 1;
        }
        assert(self@.remotes =~= want);
    }

    fn resize_view<C: Fn(u32, u32) -> u32>(
        &mut self,
        id: u64,
        w: u32,
        h: u32,
        cell: (u32, u32),
        pane_chrome: u32,
        pane_chrome_y: u32,
        cut: &C,
    ) -> (step: Step)
        requires
            old(self).wf(),
            cutting(*cut),
            is_function(*cut),
        ensures
            (final(self)@, step@) == do_resize_view(
                old(self)@,
                id,
                w,
                h,
                cell,
                pane_chrome,
                pane_chrome_y,
                function_of(*cut),
            ),
            final(self).wf(),
    {
        self.last_view = (w, h);
        let chrome_y: u32 = if pane_chrome_y != 0 {
            pane_chrome_y
        } else {
            pane_chrome
        };
        let chrome = (pane_chrome, chrome_y);
        proof {
            lemma_function(*cut);
        }
        let ghost s = self.session@;
        let sizes: Vec<(PaneId, PtySize)> = match self.session.active_window_mut() {
            Some(win) => {
                let rs = win.layout_rects(w, h, cut);
                fit(win, &rs, cell, chrome)
            },
            None => Vec::new(),
        };
        assert(s.active >= s.windows.len() ==> sizes@ =~= Seq::empty());
        let cols: u16 = cells_of(w, 0, cell.0);
        let rows: u16 = cells_of(h, 0, cell.1);
        self.resize_remotes(cols, rows);
        Step::Resize { sizes, reply: Response::ok(id, ResultBody::Done) }
    }
}

impl Server {
    /// The user looks at the active pane.
    fn attend(&mut self)
        requires
            old(self).wf(),
        ensures
            final(self)@ == (ServerView { session: attended(old(self)@.session), ..old(self)@ }),
            final(self).wf(),
    {
        let target = match self.session.active_window() {
            Some(w) => w.active_id(),
            None => {
                return ;
            },
        };
        let ghost s = self.session@;
        proof {
            lemma_pane_of(s, target);
            if let Some(p) = pane_of(s, target) {
                lemma_with_pane(
                    s,
                    target,
                    PaneView { attention: Attention::Quiet, unread: 0, ..p },
                );
            }
        }
        if let Some(p) = self.session.pane_mut(target) {
            p.focus();
        }
    }

    fn focus<C: Fn(u32, u32) -> u32>(&mut self, id: u64, dir: &str, cut: &C) -> (step: Step)
        requires
            old(self).wf(),
            cutting(*cut),
            is_function(*cut),
        ensures
            (final(self)@, step@) == do_focus(old(self)@, id, dir@, function_of(*cut)),
            final(self).wf(),
    {
        let d = if str_eq(dir, "left") {
            FocusDir::Left
        } else if str_eq(dir, "right") {
            FocusDir::Right
        } else if str_eq(dir, "up") {
            FocusDir::Up
        } else if str_eq(dir, "down") {
            FocusDir::Down
        } else {
            let mut msg = String::from_str("bad dir '");
            msg.append(dir);
            msg.append("'");
            return refused(id, msg);
        };
        proof {
            lemma_function(*cut);
        }
        let (w, h) = self.last_view;
        if let Some(win) = self.session.active_window_mut() {
            win.focus_dir(d, w, h, cut);
        }
        self.attend();
        reply(id, ResultBody::Done)
    }

    fn close_pane(&mut self, id: u64) -> (step: Step)
        requires
            old(self).wf(),
        ensures
            (final(self)@, step@) == do_close_pane(old(self)@, id),
            final(self).wf(),
    {
        match self.active_mirror() {
            Some((i, remote)) => {
                self.send_kill(i, remote);
            },
            None => {
                let ghost s = self.session@;
                let closed = match self.session.active_window_mut() {
                    Some(w) => w.close_active().is_some(),
                    None => false,
                };
                if !closed {
                    assert(self.session@.windows =~= s.windows);
                    let _done = self.session.close_active_window();
                }
            },
        }
        reply(id, ResultBody::Done)
    }

    fn close_pane_id(&mut self, id: u64, pane: u64) -> (step: Step)
        requires
            old(self).wf(),
        ensures
            (final(self)@, step@) == do_close_pane_id(old(self)@, id, pane),
            final(self).wf(),
    {
        let _found = self.session.focus_pane(PaneId(pane));
        let active = match self.session.active_window() {
            Some(w) => w.active_id() == PaneId(pane),
            None => false,
        };
        if active {
            self.close_pane(id)
        } else {
            reply(id, ResultBody::Done)
        }
    }

    fn close_window(&mut self, id: u64, win: u64) -> (step: Step)
        requires
            old(self).wf(),
        ensures
            (final(self)@, step@) == do_close_window(old(self)@, id, win),
            final(self).wf(),
    {
        let wid = WindowId(win);
        if self.session.window_position(wid).is_some() && self.session.window_count() > 1 {
            match self.window_owner_of(wid) {
                Some((i, remote)) => {
                    self.send_kill_window(i, remote);
                },
                None => {
                    let _closed = self.session.remove_window(wid);
                },
            }
        }
        reply(id, ResultBody::Done)
    }

    fn swap(&mut self, id: u64, a: u64, b: u64) -> (step: Step)
        requires
            old(self).wf(),
        ensures
            (final(self)@, step@) == crate::server::model::do_swap(old(self)@, id, a, b),
            final(self).wf(),
    {
        if let Some(w) = self.session.active_window_mut() {
            let _done = w.swap_panes(PaneId(a), PaneId(b));
        }
        reply(id, ResultBody::Done)
    }

    fn resize_split<A: Fn(u32, u32) -> u32>(
        &mut self,
        id: u64,
        pane: u64,
        dx: u32,
        dy: u32,
        adjust: &A,
    ) -> (step: Step)
        requires
            old(self).wf(),
            total(*adjust),
            is_function(*adjust),
        ensures
            (final(self)@, step@) == do_resize_split(
                old(self)@,
                id,
                pane,
                dx,
                dy,
                function_of(*adjust),
            ),
            final(self).wf(),
    {
        proof {
            lemma_function(*adjust);
        }
        if self.owner_of(PaneId(pane)).is_none() {
            if let Some(w) = self.session.active_window_mut() {
                w.resize_pane(PaneId(pane), dx, dy, adjust);
            }
        }
        reply(id, ResultBody::Done)
    }

    fn set_palette(&mut self, id: u64, fg: &[u8; 3], bg: &[u8; 3], ansi: &Vec<[u8; 3]>) -> (step:
        Step)
        requires
            old(self).wf(),
        ensures
            (final(self)@, step@) == do_set_palette(
                old(self)@,
                id,
                fg@,
                bg@,
                triples_view(ansi@),
            ),
            final(self).wf(),
    {
        let mut colors: Vec<Rgb> = Vec::new();
        let mut i: usize = 0;
        while i < ansi.len()
            invariant
                i <= ansi@.len(),
                colors@.len() == i,
                forall|j: int| 0 <= j < i ==> #[trigger] colors@[j] == color(ansi@[j]@),
            decreases ansi@.len() - i,
        {
            let c = &ansi[i];
            colors.push(Rgb { r: c[0], g: c[1], b: c[2] });
            i = i + 1;
        }
        assert(colors@ =~= Seq::new(
            triples_view(ansi@).len(),
            |k: int| color(triples_view(ansi@)[k]),
        ));
        let palette = Palette::with_colors(
            Rgb { r: fg[0], g: fg[1], b: fg[2] },
            Rgb { r: bg[0], g: bg[1], b: bg[2] },
            colors.as_slice(),
        );
        self.palette = palette;
        repaint(&mut self.session, palette);
        reply(id, ResultBody::Done)
    }

    fn window_busy(&self, id: u64, win: u64) -> (step: Step)
        requires
            self.wf(),
        ensures
            (self@, step@) == crate::server::model::do_window_busy(self@, id, win),
    {
        let busy = match self.session.window_position(WindowId(win)) {
            Some(i) => self.session.windows()[i].is_busy(),
            None => false,
        };
        reply(id, ResultBody::Busy(busy))
    }

    /// What is read of a pane.
    fn read_pane(&self, id: u64, call: &Call) -> (step: Step)
        requires
            self.wf(),
            call is CapturePane || call is SearchPane || call is PromptOffsets || call is PaneBusy
                || call is GetGrid,
        ensures
            forall|f: spec_fn(u32, u32) -> u32, g: spec_fn(u32, u32) -> u32| #[trigger]
                handled(self@, id, call@, f, g) == (self@, step@),
    {
        let pane: u64 = match call {
            Call::CapturePane { pane, .. } => *pane,
            Call::SearchPane { pane, .. } => *pane,
            Call::PromptOffsets { pane } => *pane,
            Call::PaneBusy { pane } => *pane,
            Call::GetGrid { pane, .. } => *pane,
            _ => 0,
        };
        let ghost s = self.session@;
        proof {
            lemma_pane_of(s, PaneId(pane));
        }
        let p = match self.session.pane(PaneId(pane)) {
            Some(p) => p,
            None => {
                return missing_pane(id, pane);
            },
        };
        match call {
            Call::CapturePane { scrollback, .. } => reply(
                id,
                ResultBody::Text(capture(p, *scrollback)),
            ),
            Call::SearchPane { query, .. } => reply(
                id,
                ResultBody::Matches(p.search(query.as_str())),
            ),
            Call::PromptOffsets { .. } => reply(id, ResultBody::Matches(p.prompt_offsets())),
            Call::GetGrid { offset, .. } => reply(id, ResultBody::Grid(grid_wire(p, *offset))),
            _ => reply(id, ResultBody::Busy(p.is_busy())),
        }
    }

    /// What is set on a window.
    fn set_window(&mut self, id: u64, call: &Call) -> (step: Step)
        requires
            old(self).wf(),
            call is SetWorkspaceDir || call is RenameWindow || call is GroupWindow
                || call is ColorWindow || call is SetPr,
        ensures
            forall|f: spec_fn(u32, u32) -> u32, g: spec_fn(u32, u32) -> u32| #[trigger]
                handled(old(self)@, id, call@, f, g) == (final(self)@, step@),
            final(self).wf(),
    {
        let win: u64 = match call {
            Call::SetWorkspaceDir { id: win, .. } => *win,
            Call::RenameWindow { id: win, .. } => *win,
            Call::GroupWindow { id: win, .. } => *win,
            Call::ColorWindow { id: win, .. } => *win,
            Call::SetPr { id: win, .. } => *win,
            _ => 0,
        };
        let ghost s = self.session@;
        proof {
            lemma_window_index(s.windows, WindowId(win), 0);
        }
        if let Some(w) = self.session.window_mut(WindowId(win)) {
            assert(w@.complete());
            match call {
                Call::SetWorkspaceDir { dir, .. } => w.set_workspace_dir(dir.clone()),
                Call::RenameWindow { name, .. } => w.set_name(name.clone()),
                Call::GroupWindow { group, .. } => w.set_group(group.clone()),
                Call::ColorWindow { color, .. } => w.set_color(color.clone()),
                Call::SetPr { number, status, url, .. } => {
                    let badge = match PrStatus::parse(status.as_str()) {
                        Some(status) => Some(
                            PrBadge { number: *number, status, url: clone_opt(url) },
                        ),
                        None => None,
                    };
                    w.set_pr(badge)
                },
                _ => {},
            }
        }
        reply(id, ResultBody::Done)
    }

    /// What turns to another window or pane.
    fn turn(&mut self, id: u64, call: &Call) -> (step: Step)
        requires
            old(self).wf(),
            call is ToggleZoom || call is SwitchWindow || call is SelectWindow
                || call is FocusPaneId || call is MoveWindow,
        ensures
            forall|f: spec_fn(u32, u32) -> u32, g: spec_fn(u32, u32) -> u32| #[trigger]
                handled(old(self)@, id, call@, f, g) == (final(self)@, step@),
            final(self).wf(),
    {
        match call {
            Call::ToggleZoom => {
                if let Some(w) = self.session.active_window_mut() {
                    w.toggle_zoom();
                }
            },
            Call::SwitchWindow { next } => {
                if *next {
                    self.session.next_window();
                } else {
                    self.session.prev_window();
                }
                self.attend();
            },
            Call::SelectWindow { index } => {
                if self.session.select_window(*index) {
                    self.attend();
                }
            },
            Call::FocusPaneId { pane } => {
                if self.session.focus_pane(PaneId(*pane)) {
                    self.attend();
                }
            },
            Call::MoveWindow { from, to } => {
                self.session.move_window(*from, *to);
            },
            _ => {},
        }
        reply(id, ResultBody::Done)
    }

    /// What puts into queues and takes out of them.
    fn queues(&mut self, id: u64, call: &Call) -> (step: Step)
        requires
            old(self).wf(),
            call is PollNotifications || call is Browse || call is PollBrowse,
        ensures
            forall|f: spec_fn(u32, u32) -> u32, g: spec_fn(u32, u32) -> u32| #[trigger]
                handled(old(self)@, id, call@, f, g) == (final(self)@, step@),
            final(self).wf(),
    {
        match call {
            Call::PollNotifications => {
                let mut waiting: Vec<NotifyWire> = Vec::new();
                std::mem::swap(&mut waiting, &mut self.notifications);
                assert(self@.notifications =~= Seq::empty());
                reply(id, ResultBody::Notifications(waiting))
            },
            Call::Browse { url } => {
                self.browse_requests.push(url.clone());
                assert(self@.browse_requests =~= old(self)@.browse_requests.push(url@));
                reply(id, ResultBody::Done)
            },
            _ => {
                let mut waiting: Vec<String> = Vec::new();
                std::mem::swap(&mut waiting, &mut self.browse_requests);
                assert(self@.browse_requests =~= Seq::empty());
                reply(id, ResultBody::Browses(waiting))
            },
        }
    }

    /// Handles one request: the state changes, and the answer comes back, or what has to be done
    /// outside before there is one. `cut` cuts the share of a ratio off an extent; `adjust` adds a
    /// delta to a ratio.
    #[verifier::rlimit(50)]
    pub fn handle<C: Fn(u32, u32) -> u32, A: Fn(u32, u32) -> u32>(
        &mut self,
        req: &Request,
        cut: &C,
        adjust: &A,
    ) -> (step: Step)
        requires
            old(self).wf(),
            cutting(*cut),
            is_function(*cut),
            total(*adjust),
            is_function(*adjust),
        ensures
            (final(self)@, step@) == handled(
                old(self)@,
                req.id,
                req.call@,
                function_of(*cut),
                function_of(*adjust),
            ),
            final(self).wf(),
            sound(old(self)@) && old(self)@.ids.pane < u64::MAX ==> sound(final(self)@),
    {
        proof {
            if sound(self@) && self@.ids.pane < u64::MAX {
                requests_keep_panes_apart(
                    self@,
                    req.id,
                    req.call@,
                    function_of(*cut),
                    function_of(*adjust),
                );
            }
        }
        let id: u64 = req.id;
        match &req.call {
            Call::Hello { .. } => reply(
                id,
                ResultBody::Hello {
                    server_version: String::from_str(SERVER_VERSION),
                    protocol: PROTOCOL_VERSION,
                },
            ),
            Call::ListPanes => reply(id, ResultBody::Panes(list_panes(&self.session))),
            Call::SendKeys { pane, text, enter } => self.send_keys(
                id,
                *pane,
                text.as_str(),
                *enter,
            ),
            Call::CapturePane { .. } => self.read_pane(id, &req.call),
            Call::SearchPane { .. } => self.read_pane(id, &req.call),
            Call::PromptOffsets { .. } => self.read_pane(id, &req.call),
            Call::PaneBusy { .. } => self.read_pane(id, &req.call),
            Call::GetGrid { .. } => self.read_pane(id, &req.call),
            Call::WindowBusy { id: win } => self.window_busy(id, *win),
            Call::SplitPane { dir, command } => self.split(id, dir.as_str(), command),
            Call::NewWindow { command, cwd } => {
                let dir = clone_opt(cwd);
                let anchor = clone_opt(cwd);
                self.start(id, command, dir, Place::Window(anchor))
            },
            Call::SetWorkspaceDir { .. } => self.set_window(id, &req.call),
            Call::RenameWindow { .. } => self.set_window(id, &req.call),
            Call::GroupWindow { .. } => self.set_window(id, &req.call),
            Call::ColorWindow { .. } => self.set_window(id, &req.call),
            Call::SetPr { .. } => self.set_window(id, &req.call),
            Call::ImportWorkspaces { dir, all } => Step::Scan { id, dir: dir.clone(), all: *all },
            Call::Notify { pane, title, body } => {
                self.notify(id, *pane, title.as_str(), body.as_str())
            },
            Call::GetLayout { w, h } => self.get_layout(id, *w, *h),
            Call::ResizeView { w, h, cell_w, cell_h, pane_chrome, pane_chrome_y } =>
                self.resize_view(
                id,
                *w,
                *h,
                (*cell_w, *cell_h),
                *pane_chrome,
                *pane_chrome_y,
                cut,
            ),
            Call::FocusPane { dir } => self.focus(id, dir.as_str(), cut),
            Call::ClosePane => self.close_pane(id),
            Call::SwapPanes { a, b } => self.swap(id, *a, *b),
            Call::ClosePaneId { pane } => self.close_pane_id(id, *pane),
            Call::ToggleZoom => self.turn(id, &req.call),
            Call::ResizeSplit { pane, dx, dy } => self.resize_split(id, *pane, *dx, *dy, adjust),
            Call::SwitchWindow { .. } => self.turn(id, &req.call),
            Call::CloseWindow { id: win } => self.close_window(id, *win),
            Call::SelectWindow { .. } => self.turn(id, &req.call),
            Call::FocusPaneId { .. } => self.turn(id, &req.call),
            Call::MoveWindow { .. } => self.turn(id, &req.call),
            Call::PollNotifications => self.queues(id, &req.call),
            Call::Subscribe { .. } => reply(id, ResultBody::Done),
            Call::SetPalette { fg, bg, ansi } => self.set_palette(id, fg, bg, ansi),
            Call::Browse { .. } => self.queues(id, &req.call),
            Call::PollBrowse => self.queues(id, &req.call),
            Call::SshTmux { target, command } => attach_step(id, target.as_str(), command),
        }
    }
}

// ---------------------------------------------------------------------------
// Ticks.
// ---------------------------------------------------------------------------

/// The mathematical values of looked-up badges.
pub open spec fn found_view(found: Seq<(u64, Option<PrBadge>)>) -> Seq<(u64, Option<PrBadgeView>)> {
    Seq::new(found.len(), |i: int| (found[i].0, opt_badge(found[i].1)))
}

impl Server {
    /// Pumps all attachments; those that are over leave.
    fn pump_remotes<S: Fn(u64, u64) -> u32, E: Fn(u64, u64) -> u32>(
        &mut self,
        share: &S,
        even: &E,
    ) -> (warnings: Vec<String>)
        requires
            old(self).wf(),
            is_share(*share),
            is_share(*even),
        ensures
            ({
                let (session, ids, remotes) = pumped_remotes(
                    old(self)@.session,
                    old(self)@.ids,
                    old(self)@.remotes,
                    old(self)@.remotes.len() as int,
                    share_of(*share),
                    share_of(*even),
                );
                final(self)@ == (ServerView { session, ids, remotes, ..old(self)@ })
            }),
            texts_view(warnings@) == remote_warnings(
                old(self)@.session,
                old(self)@.ids,
                old(self)@.remotes,
                old(self)@.remotes.len() as int,
                share_of(*share),
                share_of(*even),
            ),
            final(self).wf(),
    {
        let mut warnings: Vec<String> = Vec::new();
        assert(texts_view(warnings@) =~= Seq::empty());
        let mut all: Vec<(u64, RemoteAttachment)> = Vec::new();
        std::mem::swap(&mut all, &mut self.remotes);
        let ghost view = remotes_view(all@);
        let ghost n = all@.len();
        let mut rest = crate::lists::reversed(all);
        let ghost mut done: int = 0;
        assert(remotes_view(self.remotes@) =~= Seq::empty());
        while rest.len() > 0
            invariant
                0 <= done,
                done + rest@.len() == n,
                n == all@.len(),
                view == remotes_view(all@),
                rest@ =~= all@.reverse().take(rest@.len() as int),
                forall|i: int| 0 <= i < all@.len() ==> (#[trigger] all@[i]).1.wf(),
                self.wf(),
                is_share(*share),
                is_share(*even),
                self@ == (ServerView {
                    session: self@.session,
                    ids: self@.ids,
                    remotes: self@.remotes,
                    ..old(self)@
                }),
                (self@.session, self@.ids, self@.remotes) == pumped_remotes(
                    old(self)@.session,
                    old(self)@.ids,
                    view,
                    done,
                    share_of(*share),
                    share_of(*even),
                ),
                texts_view(warnings@) == remote_warnings(
                    old(self)@.session,
                    old(self)@.ids,
                    view,
                    done,
                    share_of(*share),
                    share_of(*even),
                ),
            decreases rest@.len(),
        {
            assert(rest@[rest@.len() - 1] == all@[done]);
            if let Some((key, a)) = rest.pop() {
                assert(view[done] == (key, a@));
                let mut att = a;
                let live = att.pump(&mut self.session, &mut self.ids, share, even);
                if let Some(w) = att.warning() {
                    let ghost told = texts_view(warnings@);
                    warnings.push(w);
                    assert(texts_view(warnings@) =~= told.push(w@));
                }
                if live {
                    let ghost before = self.remotes@;
                    self.remotes.push((key, att));
                    assert(remotes_view(self.remotes@) =~= remotes_view(before).push((key, att@)));
                }
                proof {
                    done = done + 1;
                }
            }
        }
        warnings
    }

    /// Removes panes, and what is remembered of their progress.
    fn remove_panes(&mut self, exited: &Vec<PaneId>)
        requires
            old(self).wf(),
        ensures
            final(self)@ == (ServerView {
                session: without_panes(old(self)@.session, exited@, exited@.len() as int),
                progress: without_progress(old(self)@.progress, exited@, exited@.len() as int),
                ..old(self)@
            }),
            final(self).wf(),
    {
        let mut i: usize = 0;
        while i < exited.len()
            invariant
                i <= exited@.len(),
                self.wf(),
                self@ == (ServerView {
                    session: without_panes(old(self)@.session, exited@, i as int),
                    progress: without_progress(old(self)@.progress, exited@, i as int),
                    ..old(self)@
                }),
            decreases exited@.len() - i,
        {
            let id = exited[i];
            let _old = crate::pairs::remove(&mut self.progress, id.0);
            let _found = self.session.remove_pane(id);
            i = i + 1;
        }
    }

    /// Sets looked-up badges.
    fn set_badges(&mut self, found: Vec<(u64, Option<PrBadge>)>)
        requires
            old(self).wf(),
        ensures
            final(self)@ == (ServerView {
                session: badged(old(self)@.session, found_view(found@), found@.len() as int),
                ..old(self)@
            }),
            final(self).wf(),
    {
        let ghost view = found_view(found@);
        let ghost n = found@.len();
        let mut rest = crate::lists::reversed(found);
        let ghost mut done: int = 0;
        while rest.len() > 0
            invariant
                0 <= done,
                done + rest@.len() == n,
                n == found@.len(),
                view == found_view(found@),
                rest@ =~= found@.reverse().take(rest@.len() as int),
                self.wf(),
                self@ == (ServerView {
                    session: badged(old(self)@.session, view, done),
                    ..old(self)@
                }),
            decreases rest@.len(),
        {
            assert(rest@[rest@.len() - 1] == found@[done]);
            if let Some((win, badge)) = rest.pop() {
                assert(view[done] == (win, opt_badge(badge)));
                let ghost s = self.session@;
                proof {
                    lemma_window_index(s.windows, WindowId(win), 0);
                }
                if let Some(w) = self.session.window_mut(WindowId(win)) {
                    assert(w@.complete());
                    w.set_pr(badge);
                }
                proof {
                    done = done + 1;
                }
            }
        }
    }

    /// The next window whose pull request is to be looked up.
    fn next_probe(&mut self) -> (r: Option<(u64, String)>)
        requires
            old(self).wf(),
        ensures
            ({
                let s = old(self)@.session;
                let probe = probe_from(s, old(self)@.pr_cursor, 0);
                &&& final(self)@ == (ServerView {
                    pr_cursor: match probe {
                        Some(i) => ((i + 1) % (s.windows.len() as int)) as nat,
                        None => old(self)@.pr_cursor,
                    },
                    ..old(self)@
                })
                &&& match r {
                    Some((id, dir)) => probe is Some && id == s.windows[probe->0].id.0 && Some(dir@)
                        == active_of(s.windows[probe->0]).cwd,
                    None => probe is None,
                }
            }),
            final(self).wf(),
    {
        let windows = self.session.windows();
        let n: usize = windows.len();
        if n == 0 {
            return None;
        }
        let ghost s = self.session@;
        let mut at: usize = self.pr_cursor % n;
        let mut step: usize = 0;
        while step < n
            invariant
                step <= n,
                0 < n,
                n == windows@.len(),
                windows_view(windows@) == s.windows,
                s == self.session@,
                s.complete(),
                self@ == old(self)@,
                self.wf(),
                at == ((self.pr_cursor + step) % (n as int)),
                probe_from(s, self@.pr_cursor, 0) == probe_from(
                    s,
                    self@.pr_cursor,
                    step as nat,
                ),
            decreases n - step,
        {
            assert(0 <= at < n);
            assert(s.windows[at as int] == windows@[at as int]@);
            let found = windows[at].active_pane().cwd();
            let id = windows[at].window_id();
            proof {
                lemma_next_mod(self.pr_cursor + step, n as int);
            }
            if let Some(dir) = found {
                proof {
                    lemma_next_mod(at as int, n as int);
                    vstd::arithmetic::div_mod::lemma_small_mod(at as nat, n as nat);
                }
                self.pr_cursor = if at + 1 == n {
                    0
                } else {
                    at + 1
                };
                return Some((id.0, dir));
            }
            at = if at + 1 == n {
                0
            } else {
                at + 1
            };
            step = step + 1;
        }
        None
    }

    /// One tick: attachments are pumped, the events of all panes are drained, panes whose program
    /// is gone leave, and the badges that were looked up are set. `share` and `even` give the bits
    /// of a first child's share of a span and of one part of several.
    pub fn tick<S: Fn(u64, u64) -> u32, E: Fn(u64, u64) -> u32>(
        &mut self,
        found: Vec<(u64, Option<PrBadge>)>,
        share: &S,
        even: &E,
    ) -> (t: Tick)
        requires
            old(self).wf(),
            is_share(*share),
            is_share(*even),
        ensures
            (final(self)@, t@) == ticked(
                old(self)@,
                found_view(found@),
                share_of(*share),
                share_of(*even),
            ),
            final(self).wf(),
            sound(old(self)@) && has_room(old(self)@) ==> sound(final(self)@),
    {
        proof {
            if sound(self@) && has_room(self@) {
                ticks_keep_panes_apart(
                    self@,
                    found_view(found@),
                    share_of(*share),
                    share_of(*even),
                );
            }
        }
        let warnings = self.pump_remotes(share, even);
        let d = drain(&mut self.session);
        let ghost dv = d@;
        let mut exited: Vec<PaneId> = Vec::new();
        exited.extend_from_slice(d.exited.as_slice());
        assert(exited@ =~= d.exited@);
        sweep_dead(&self.session, &mut exited);
        let batch = make_batch(&d, &exited);
        let ghost waiting = self.notifications@;
        let mut notes = d.notes;
        self.notifications.append(&mut notes);
        assert(wires_view(self.notifications@) =~= wires_view(waiting) + dv.notes);
        note_progress(&mut self.progress, &d.progress);
        self.remove_panes(&exited);
        sweep_progress(&mut self.progress, &self.session);
        self.ticks = self.ticks.wrapping_add(1);
        let save = self.ticks % SAVE_TICKS == 0;
        self.set_badges(found);
        let probe = if self.pr_refresh_ticks != 0 && self.ticks % self.pr_refresh_ticks == 0 {
            self.next_probe()
        } else {
            None
        };
        Tick { batch, save, probe, warnings }
    }

    /// Whether every pane's program is gone, so that the daemon may end.
    pub fn all_exited(&self) -> (b: bool)
        requires
            self.wf(),
        ensures
            b == all_dead(self@.session),
    {
        let windows = self.session.windows();
        let ghost s = self.session@;
        let mut wi: usize = 0;
        while wi < windows.len()
            invariant
                wi <= windows@.len(),
                windows_view(windows@) == s.windows,
                s == self@.session,
                forall|i: int, k: int|
                    0 <= i < wi && 0 <= k < s.windows[i].panes.len() ==> !(
                    #[trigger] s.windows[i].panes[k]).alive,
            decreases windows@.len() - wi,
        {
            assert(s.windows[wi as int] == windows@[wi as int]@);
            let panes = windows[wi].panes();
            let mut k: usize = 0;
            while k < panes.len()
                invariant
                    k <= panes@.len(),
                    wi < s.windows.len(),
                    s == self@.session,
                    panes_view(panes@) == s.windows[wi as int].panes,
                    forall|j: int|
                        0 <= j < k ==> !(#[trigger] s.windows[wi as int].panes[j]).alive,
                decreases panes@.len() - k,
            {
                assert(s.windows[wi as int].panes[k as int] == panes@[k as int]@);
                if panes[k].is_alive() {
                    assert(s.windows[wi as int].panes[k as int].alive);
                    return false;
                }
                k = k + 1;
            }
            wi = wi + 1;
        }
        true
    }

    /// What is saved of the session.
    pub fn snapshot(&self) -> (s: SessionSnapshot)
        requires
            self.wf(),
        ensures
            s@ == captured(self@.session, self@.persist_screen),
    {
        SessionSnapshot::capture_with(&self.session, self.persist_screen)
    }

    /// Takes the id of a pane that is about to be started.
    pub fn reserve_pane(&mut self) -> (pane: PaneId)
        requires
            old(self).wf(),
        ensures
            pane == PaneId(old(self)@.ids.pane),
            final(self)@ == (ServerView {
                ids: Ids { pane: after(old(self)@.ids.pane), ..old(self)@.ids },
                ..old(self)@
            }),
            final(self).wf(),
            sound(old(self)@) && old(self)@.ids.pane < u64::MAX ==> sound(final(self)@) && pane_of(
                final(self)@.session,
                pane,
            ) is None && pane.0 < final(self)@.ids.pane,
    {
        proof {
            if sound(self@) && self@.ids.pane < u64::MAX {
                taken_ids_are_free(self@);
            }
        }
        PaneId::allocate(&mut self.ids)
    }

    /// Begins an import of candidates; folders that a window is anchored to are open.
    pub fn begin_import(&self, id: u64, candidates: Vec<String>) -> (m: Import)
        requires
            self.wf(),
        ensures
            m@ == (ImportView {
                id,
                open: open_dirs(self@.session, self@.session.windows.len() as int),
                rest: texts_view(candidates@),
                created: 0,
                already_open: 0,
                capped: 0,
            }),
            m@.wf(),
    {
        let windows = self.session.windows();
        let mut open: Vec<String> = Vec::new();
        assert(texts_view(open@) =~= Seq::empty());
        let mut i: usize = 0;
        while i < windows.len()
            invariant
                i <= windows@.len(),
                windows_view(windows@) == self@.session.windows,
                texts_view(open@) == open_dirs(self@.session, i as int),
            decreases windows@.len() - i,
        {
            assert(self@.session.windows[i as int] == windows@[i as int]@);
            if let Some(dir) = windows[i].workspace_dir() {
                let ghost before = open@;
                let low = to_lowercase(dir.as_str());
                open.push(low);
                assert(texts_view(open@) =~= texts_view(before).push(low@));
            }
            i = i + 1;
        }
        Import::new(id, open, candidates)
    }

    // What happens outside.

    /// The program of a local pane wrote.
    pub fn feed_pane(&mut self, pane: PaneId, bytes: &[u8])
        requires
            old(self).wf(),
        ensures
            final(self)@ == (ServerView {
                session: match pane_of(old(self)@.session, pane) {
                    Some(p) => with_pane(old(self)@.session, pane, pane_pumped(p, bytes@)),
                    None => old(self)@.session,
                },
                ..old(self)@
            }),
            final(self).wf(),
            sound(old(self)@) ==> sound(final(self)@),
    {
        let ghost s = self.session@;
        proof {
            if sound(self@) && pane_of(s, pane) is Some {
                programs_keep_panes_apart(self@, pane, bytes@, false);
            }
            lemma_pane_of(s, pane);
        }
        if let Some(p) = self.session.pane_mut(pane) {
            p.pump_bytes(bytes);
        }
        proof {
            if let Some(p) = pane_of(s, pane) {
                lemma_pumped_keeps_identity(p, bytes@);
                lemma_with_pane(s, pane, pane_pumped(p, bytes@));
            }
        }
    }

    /// The program of a pane ended.
    pub fn end_pane(&mut self, pane: PaneId)
        requires
            old(self).wf(),
        ensures
            final(self)@ == (ServerView {
                session: match pane_of(old(self)@.session, pane) {
                    Some(p) => with_pane(
                        old(self)@.session,
                        pane,
                        crate::mux::pane::ended(p),
                    ),
                    None => old(self)@.session,
                },
                ..old(self)@
            }),
            final(self).wf(),
            sound(old(self)@) ==> sound(final(self)@),
    {
        let ghost s = self.session@;
        proof {
            if sound(self@) && pane_of(s, pane) is Some {
                programs_keep_panes_apart(self@, pane, Seq::empty(), false);
            }
            lemma_pane_of(s, pane);
            if let Some(p) = pane_of(s, pane) {
                lemma_with_pane(s, pane, crate::mux::pane::ended(p));
            }
        }
        if let Some(p) = self.session.pane_mut(pane) {
            p.end();
        }
    }

    /// Whether the program of a pane has running children, as far as is known.
    pub fn set_busy(&mut self, pane: PaneId, busy: bool)
        requires
            old(self).wf(),
        ensures
            final(self)@ == (ServerView {
                session: match pane_of(old(self)@.session, pane) {
                    Some(p) => with_pane(old(self)@.session, pane, busied(p, busy)),
                    None => old(self)@.session,
                },
                ..old(self)@
            }),
            final(self).wf(),
            sound(old(self)@) ==> sound(final(self)@),
    {
        let ghost s = self.session@;
        proof {
            if sound(self@) && pane_of(s, pane) is Some {
                programs_keep_panes_apart(self@, pane, Seq::empty(), busy);
            }
            lemma_pane_of(s, pane);
            if let Some(p) = pane_of(s, pane) {
                lemma_with_pane(s, pane, busied(p, busy));
            }
        }
        if let Some(p) = self.session.pane_mut(pane) {
            p.set_busy(busy);
        }
    }

    /// A transport was started: its key, and the answer.
    pub fn attached(&mut self, id: u64) -> (r: (u64, Response))
        requires
            old(self).wf(),
        ensures
            r.0 == old(self)@.next_remote,
            r.1@ == ok_view(id, ResultView::Done),
            final(self)@ == remote_attached(old(self)@),
            final(self).wf(),
            sound(old(self)@) ==> sound(final(self)@),
    {
        let key: u64 = self.next_remote;
        self.next_remote = self.next_remote.wrapping_add(1);
        let a = RemoteAttachment::attach();
        let ghost before = self.remotes@;
        self.remotes.push((key, a));
        assert(remotes_view(self.remotes@) =~= remotes_view(before).push((key, a@)));
        (key, Response::ok(id, ResultBody::Done))
    }

    fn remote_position(&self, key: u64) -> (r: Option<usize>)
        ensures
            match r {
                Some(i) => remote_index(self@.remotes, key, 0) == Some(i as int) && i
                    < self.remotes@.len(),
                None => remote_index(self@.remotes, key, 0) is None,
            },
    {
        let mut i: usize = 0;
        while i < self.remotes.len()
            invariant
                i <= self.remotes@.len(),
                remote_index(self@.remotes, key, 0) == remote_index(
                    self@.remotes,
                    key,
                    i as int,
                ),
            decreases self.remotes@.len() - i,
        {
            if self.remotes[i].0 == key {
                return Some(i);
            }
            i = i + 1;
        }
        None
    }

    /// A transport's peer wrote.
    pub fn feed_remote(&mut self, key: u64, bytes: &[u8])
        requires
            old(self).wf(),
        ensures
            final(self)@ == at_remote(
                old(self)@,
                key,
                |a: AttachmentView|
                    AttachmentView { transport: received(a.transport, bytes@), ..a },
            ),
            final(self).wf(),
            sound(old(self)@) ==> sound(final(self)@),
    {
        if let Some(i) = self.remote_position(key) {
            let ghost before = self.remotes@;
            let r = &mut self.remotes[i];
            r.1.feed(bytes);
            assert(remotes_view(self.remotes@) =~= remotes_view(before).update(
                i as int,
                (before[i as int].0, self.remotes@[i as int].1@),
            ));
        }
    }

    /// The output of a transport's peer ended.
    pub fn end_remote(&mut self, key: u64)
        requires
            old(self).wf(),
        ensures
            final(self)@ == at_remote(
                old(self)@,
                key,
                |a: AttachmentView| AttachmentView { transport: ended(a.transport), ..a },
            ),
            final(self).wf(),
            sound(old(self)@) ==> sound(final(self)@),
    {
        if let Some(i) = self.remote_position(key) {
            let ghost before = self.remotes@;
            let r = &mut self.remotes[i];
            r.1.end();
            assert(remotes_view(self.remotes@) =~= remotes_view(before).update(
                i as int,
                (before[i as int].0, self.remotes@[i as int].1@),
            ));
        }
    }

    /// The command line of a new pane that asks for none.
    pub fn shell(&self) -> (s: String)
        ensures
            s@ == self@.shell,
    {
        self.shell.clone()
    }

    /// Takes the commands that wait for a transport's peer; none where the attachment is over.
    pub fn take_remote_commands(&mut self, key: u64) -> (r: Option<Vec<String>>)
        requires
            old(self).wf(),
        ensures
            match remote_index(old(self)@.remotes, key, 0) {
                Some(i) => r is Some && texts_view(r->0@)
                    == old(self)@.remotes[i].1.transport.outbox,
                None => r is None,
            },
            final(self)@ == at_remote(
                old(self)@,
                key,
                |a: AttachmentView|
                    AttachmentView {
                        transport: TransportView { outbox: Seq::empty(), ..a.transport },
                        ..a
                    },
            ),
            final(self).wf(),
            sound(old(self)@) ==> sound(final(self)@),
    {
        match self.remote_position(key) {
            Some(i) => {
                let ghost before = self.remotes@;
                let r = &mut self.remotes[i];
                let commands = r.1.take_commands();
                assert(remotes_view(self.remotes@) =~= remotes_view(before).update(
                    i as int,
                    (before[i as int].0, self.remotes@[i as int].1@),
                ));
                Some(commands)
            },
            None => None,
        }
    }
}

/// The next number modulo `n`.
proof fn lemma_next_mod(a: int, n: int)
    requires
        0 <= a,
        0 < n,
    ensures
        (a + 1) % n == (if a % n + 1 == n {
            0
        } else {
            a % n + 1
        }),
        0 <= a % n < n,
{
    vstd::arithmetic::div_mod::lemma_mod_bound(a, n);
    vstd::arithmetic::div_mod::lemma_add_mod_noop(a, 1, n);
    if n == 1 {
        vstd::arithmetic::div_mod::lemma_mod_bound(a + 1, n);
    } else {
        vstd::arithmetic::div_mod::lemma_small_mod(1, n as nat);
        if a % n + 1 == n {
            vstd::arithmetic::div_mod::lemma_mod_self_0(n);
        } else {
            vstd::arithmetic::div_mod::lemma_small_mod((a % n + 1) as nat, n as nat);
        }
    }
}

/// Directories that the first `n` windows are anchored to, in lower case.
pub open spec fn open_dirs(s: SessionView, n: int) -> Seq<Seq<char>>
    decreases n,
{
    if n <= 0 {
        Seq::empty()
    } else {
        match s.windows[n - 1].workspace_dir {
            Some(dir) => open_dirs(s, n - 1).push(lowercase(dir)),
            None => open_dirs(s, n - 1),
        }
    }
}

/// A pane that is told whether its program is busy; a mirror never is.
pub open spec fn busied(p: PaneView, busy: bool) -> PaneView {
    match p.backend {
        crate::mux::pane::Backend::Local => PaneView { busy, ..p },
        crate::mux::pane::Backend::Remote(_) => p,
    }
}

/// Index of the attachment with a key, at or after `from`.
pub open spec fn remote_index(remotes: Seq<(u64, AttachmentView)>, key: u64, from: int) -> Option<int>
    decreases remotes.len() - from,
{
    if from < 0 || from >= remotes.len() {
        None
    } else if remotes[from].0 == key {
        Some(from)
    } else {
        remote_index(remotes, key, from + 1)
    }
}

/// A server with the attachment of a key changed.
pub open spec fn at_remote(
    v: ServerView,
    key: u64,
    change: spec_fn(AttachmentView) -> AttachmentView,
) -> ServerView {
    match remote_index(v.remotes, key, 0) {
        Some(i) => ServerView {
            remotes: v.remotes.update(i, (v.remotes[i].0, change(v.remotes[i].1))),
            ..v
        },
        None => v,
    }
}

fn make_batch(d: &crate::server::drain::Drained, exited: &Vec<PaneId>) -> (batch: Vec<NotifyWire>)
    ensures
        wires_view(batch@) == batch_of(d@, exited@),
{
    let mut batch: Vec<NotifyWire> = Vec::new();
    copy_wires(&d.notes, &mut batch);
    let ghost one = wires_view(batch@);
    assert(one =~= d@.notes);
    let ghost exits = Seq::new(
        exited@.len(),
        |i: int| crate::server::wires::exit_wire(exited@[i].0),
    );
    let mut i: usize = 0;
    assert(one + exits.take(0) =~= one);
    while i < exited.len()
        invariant
            i <= exited@.len(),
            exits == Seq::new(
                exited@.len(),
                |k: int| crate::server::wires::exit_wire(exited@[k].0),
            ),
            wires_view(batch@) == one + exits.take(i as int),
        decreases exited@.len() - i,
    {
        let ghost before = batch@;
        let n = exit_notify(exited[i].0);
        batch.push(n);
        assert(wires_view(batch@) =~= wires_view(before).push(n@));
        assert(one + exits.take(i + 1) =~= (one + exits.take(i as int)).push(n@));
        i = i + 1;
    }
    assert(exits.take(i as int) =~= exits);
    let ghost two = wires_view(batch@);
    let ghost damage = Seq::new(
        d.damaged@.len(),
        |k: int| crate::server::wires::output_wire(d.damaged@[k].0),
    );
    let mut k: usize = 0;
    assert(two + damage.take(0) =~= two);
    while k < d.damaged.len()
        invariant
            k <= d.damaged@.len(),
            damage == Seq::new(
                d.damaged@.len(),
                |j: int| crate::server::wires::output_wire(d.damaged@[j].0),
            ),
            wires_view(batch@) == two + damage.take(k as int),
        decreases d.damaged@.len() - k,
    {
        let ghost before = batch@;
        let n = output_notify(d.damaged[k].0);
        batch.push(n);
        assert(wires_view(batch@) =~= wires_view(before).push(n@));
        assert(two + damage.take(k + 1) =~= (two + damage.take(k as int)).push(n@));
        k = k + 1;
    }
    assert(damage.take(k as int) =~= damage);
    copy_wires(&d.clipboards, &mut batch);
    batch
}

fn copy_wires(from: &Vec<NotifyWire>, to: &mut Vec<NotifyWire>)
    ensures
        wires_view(final(to)@) == wires_view(old(to)@) + wires_view(from@),
{
    let ghost start = wires_view(to@);
    let ghost all = wires_view(from@);
    let mut i: usize = 0;
    assert(start + all.take(0) =~= start);
    while i < from.len()
        invariant
            i <= from@.len(),
            all == wires_view(from@),
            wires_view(to@) == start + all.take(i as int),
        decreases from@.len() - i,
    {
        let ghost before = to@;
        let n = from[i].copy();
        to.push(n);
        assert(wires_view(to@) =~= wires_view(before).push(n@));
        assert(start + all.take(i + 1) =~= (start + all.take(i as int)).push(n@));
        i = i + 1;
    }
    assert(all.take(i as int) =~= all);
}

} // verus!
