//! What each request does and answers, in terms of the session that it meets.
use vstd::prelude::*;
#[allow(unused_imports)]
use vstd::utf8::encode_utf8;

#[allow(unused_imports)]
use crate::mux::attention::Attention;
#[allow(unused_imports)]
use crate::mux::ids::{after, Ids, PaneId, WindowId};
#[allow(unused_imports)]
use crate::mux::layout::{dragged, has_leaf, swapped, FocusDir, Node, Rect, SplitDir};
#[allow(unused_imports)]
use crate::mux::pane::{pane_resized, Backend, PaneView, PtySize};
#[allow(unused_imports)]
use crate::mux::session::{
    added_window, focused, home_of, lemma_home, lemma_pane_of, lemma_window_index, moved, pane_of,
    window_index, with_pane, without_window, SessionView,
};
#[allow(unused_imports)]
use crate::mux::window::{
    active_of, any_busy, distinct, focused_dir, holds, lemma_pane_index, pane_index, window_info,
    window_rects, with_split, without_active, WindowView,
};
#[allow(unused_imports)]
use crate::mux::workspace::{status_of, PrBadgeView, PrStatus};
#[allow(unused_imports)]
use crate::pairs::key_of;
#[allow(unused_imports)]
use crate::proto::{CallView, ResponseView, ResultView};
#[allow(unused_imports)]
use crate::remote::attachment::{attached, AttachmentView};
#[allow(unused_imports)]
use crate::remote::transport::TransportView;
#[allow(unused_imports)]
use crate::server::model::{
    active_dir, active_pane, asked_badge, cells_in, fitted, handled, owner, pane_started,
    remote_attached, size_in, transport_line, window_owner, PlaceView, ServerView, StepView,
};
#[allow(unused_imports)]
use crate::text::dec;
#[allow(unused_imports)]
use crate::vt::color::{is_themed, Palette, Rgb};
#[allow(unused_imports)]
use crate::vt::terminal::{found_lines, prompt_offsets_of};

verus! {

/// An answer without an error.
pub open spec fn answers(step: StepView, id: u64, r: ResultView) -> bool {
    step matches StepView::Reply(a) && a.id == id && a.result == Some(r) && a.error is None
}

/// An answer that tells an error.
pub open spec fn refuses(step: StepView, id: u64, why: Seq<char>) -> bool {
    step matches StepView::Reply(a) && a.id == id && a.result is None && a.error == Some(why)
}

// ---------------------------------------------------------------------------
// Mirrors.
// ---------------------------------------------------------------------------

/// Whether a pair is the first with a value.
pub open spec fn first_with(pairs: Seq<(u64, u64)>, key: u64, value: u64) -> bool {
    exists|j: int|
        0 <= j < pairs.len() && #[trigger] pairs[j] == (key, value) && forall|k: int|
            0 <= k < j ==> (#[trigger] pairs[k]).1 != value
}

/// Whether no pair has a value.
pub open spec fn none_with(pairs: Seq<(u64, u64)>, value: u64) -> bool {
    forall|k: int| 0 <= k < pairs.len() ==> (#[trigger] pairs[k]).1 != value
}

/// Whether a pane mirrors a remote one, through the attachment at an index.
pub open spec fn mirrors(v: ServerView, pane: PaneId, i: int, remote: u64) -> bool {
    &&& 0 <= i < v.remotes.len()
    &&& first_with(v.remotes[i].1.panes, remote, pane.0)
    &&& forall|k: int| 0 <= k < i ==> none_with((#[trigger] v.remotes[k]).1.panes, pane.0)
}

/// Whether a window mirrors a remote one, through the attachment at an index.
pub open spec fn mirrors_window(v: ServerView, window: WindowId, i: int, remote: u64) -> bool {
    &&& 0 <= i < v.remotes.len()
    &&& first_with(v.remotes[i].1.windows, remote, window.0)
    &&& forall|k: int| 0 <= k < i ==> none_with((#[trigger] v.remotes[k]).1.windows, window.0)
}

/// Whether a pane is no mirror.
pub open spec fn mirrors_nothing(v: ServerView, pane: PaneId) -> bool {
    forall|k: int| 0 <= k < v.remotes.len() ==> none_with((#[trigger] v.remotes[k]).1.panes, pane.0)
}

/// Whether all that happened is that an attachment was given a command for its peer, which goes out
/// while the connection takes commands.
pub open spec fn told(v: ServerView, w: ServerView, i: int, command: Seq<char>) -> bool {
    let (key, a) = v.remotes[i];
    let b = w.remotes[i].1;
    &&& w == (ServerView { remotes: v.remotes.update(i, (key, b)), ..v })
    &&& b == (AttachmentView { transport: b.transport, ..a })
    &&& b.transport == (TransportView {
        outbox: b.transport.outbox,
        sent: b.transport.sent,
        ..a.transport
    })
    &&& a.transport.open ==> b.transport.outbox == a.transport.outbox.push(command)
    &&& !a.transport.open ==> b.transport.outbox == a.transport.outbox
    &&& a.transport.sent < u64::MAX ==> b.transport.sent == a.transport.sent + 1
}

proof fn lemma_first_with(pairs: Seq<(u64, u64)>, key: u64, value: u64, from: int, j: int)
    requires
        0 <= from <= j < pairs.len(),
        pairs[j] == (key, value),
        forall|k: int| 0 <= k < j ==> (#[trigger] pairs[k]).1 != value,
    ensures
        key_of(pairs, value, from) == Some(key),
    decreases j - from,
{
    if from < j {
        assert(pairs[from].1 != value);
        lemma_first_with(pairs, key, value, from + 1, j);
    }
}

proof fn lemma_none_with(pairs: Seq<(u64, u64)>, value: u64, from: int)
    requires
        none_with(pairs, value),
        0 <= from <= pairs.len(),
    ensures
        key_of(pairs, value, from) is None,
    decreases pairs.len() - from,
{
    if from < pairs.len() {
        assert(pairs[from].1 != value);
        lemma_none_with(pairs, value, from + 1);
    }
}

proof fn lemma_owner(v: ServerView, pane: PaneId, i: int, remote: u64, from: int)
    requires
        mirrors(v, pane, i, remote),
        0 <= from <= i,
    ensures
        owner(v.remotes, pane, from) == Some((i, remote)),
    decreases i - from,
{
    let pairs = v.remotes[from].1.panes;
    if from < i {
        lemma_none_with(pairs, pane.0, 0);
        lemma_owner(v, pane, i, remote, from + 1);
    } else {
        let j = choose|j: int|
            0 <= j < pairs.len() && #[trigger] pairs[j] == (remote, pane.0) && forall|k: int|
                0 <= k < j ==> (#[trigger] pairs[k]).1 != pane.0;
        lemma_first_with(pairs, remote, pane.0, 0, j);
    }
}

proof fn lemma_no_owner(v: ServerView, pane: PaneId, from: int)
    requires
        mirrors_nothing(v, pane),
        0 <= from <= v.remotes.len(),
    ensures
        owner(v.remotes, pane, from) is None,
    decreases v.remotes.len() - from,
{
    if from < v.remotes.len() {
        lemma_none_with(v.remotes[from].1.panes, pane.0, 0);
        lemma_no_owner(v, pane, from + 1);
    }
}

proof fn lemma_window_owner(v: ServerView, window: WindowId, i: int, remote: u64, from: int)
    requires
        mirrors_window(v, window, i, remote),
        0 <= from <= i,
    ensures
        window_owner(v.remotes, window, from) == Some((i, remote)),
    decreases i - from,
{
    let pairs = v.remotes[from].1.windows;
    if from < i {
        lemma_none_with(pairs, window.0, 0);
        lemma_window_owner(v, window, i, remote, from + 1);
    } else {
        let j = choose|j: int|
            0 <= j < pairs.len() && #[trigger] pairs[j] == (remote, window.0) && forall|k: int|
                0 <= k < j ==> (#[trigger] pairs[k]).1 != window.0;
        lemma_first_with(pairs, remote, window.0, 0, j);
    }
}

/// Splitting a mirror splits the remote pane: where the active pane mirrors remote pane r, `h` sends
/// exactly `split-window -t %r -h` and `v` sends exactly `split-window -t %r -v`. Nothing is started
/// here, and the answer is that it is done.
pub proof fn splitting_a_mirror_splits_the_remote_pane(
    v: ServerView,
    id: u64,
    command: Option<Seq<char>>,
    i: int,
    remote: u64,
    f: spec_fn(u32, u32) -> u32,
    g: spec_fn(u32, u32) -> u32,
)
    requires
        v.session.active < v.session.windows.len(),
        mirrors(v, v.session.windows[v.session.active as int].active, i, remote),
    ensures
        ({
            let (w, step) = handled(v, id, CallView::SplitPane { dir: "h"@, command }, f, g);
            &&& told(v, w, i, "split-window -t %"@ + dec(remote as nat) + " -h"@)
            &&& answers(step, id, ResultView::Done)
        }),
        ({
            let (w, step) = handled(v, id, CallView::SplitPane { dir: "v"@, command }, f, g);
            &&& told(v, w, i, "split-window -t %"@ + dec(remote as nat) + " -v"@)
            &&& answers(step, id, ResultView::Done)
        }),
{
    lemma_owner(v, v.session.windows[v.session.active as int].active, i, remote, 0);
    reveal_strlit("h");
    reveal_strlit("v");
    assert("h"@[0] != "v"@[0]);
}

/// Closing a mirror kills the remote pane, and closing a mirrored window kills the remote window;
/// here nothing changes before the peer says so.
pub proof fn closing_a_mirror_kills_the_remote_pane(
    v: ServerView,
    id: u64,
    i: int,
    remote: u64,
    k: int,
    j: int,
    window: u64,
    f: spec_fn(u32, u32) -> u32,
    g: spec_fn(u32, u32) -> u32,
)
    requires
        v.session.active < v.session.windows.len(),
        mirrors(v, v.session.windows[v.session.active as int].active, i, remote),
    ensures
        ({
            let (w, step) = handled(v, id, CallView::ClosePane, f, g);
            &&& told(v, w, i, "kill-pane -t %"@ + dec(remote as nat))
            &&& answers(step, id, ResultView::Done)
        }),
        0 <= k < v.session.windows.len() && v.session.windows.len() > 1 && mirrors_window(
            v,
            v.session.windows[k].id,
            j,
            window,
        ) ==> ({
            let win = v.session.windows[k].id.0;
            let (w, step) = handled(v, id, CallView::CloseWindow { id: win }, f, g);
            &&& told(v, w, j, "kill-window -t @"@ + dec(window as nat))
            &&& answers(step, id, ResultView::Done)
        }),
{
    lemma_owner(v, v.session.windows[v.session.active as int].active, i, remote, 0);
    if 0 <= k < v.session.windows.len() && v.session.windows.len() > 1 && mirrors_window(
        v,
        v.session.windows[k].id,
        j,
        window,
    ) {
        lemma_window_owner(v, v.session.windows[k].id, j, window, 0);
        lemma_window_index(v.session.windows, v.session.windows[k].id, 0);
    }
}

// ---------------------------------------------------------------------------
// Input.
// ---------------------------------------------------------------------------

/// Keys go to the pane that is named, as the bytes of their text, with a carriage return behind
/// them where one is asked for: to the program of a local pane, or into the queue of the attachment
/// that a mirror belongs to, for its remote pane.
pub proof fn keys_go_to_their_pane(
    v: ServerView,
    id: u64,
    pane: u64,
    text: Seq<char>,
    enter: bool,
    i: int,
    f: spec_fn(u32, u32) -> u32,
    g: spec_fn(u32, u32) -> u32,
)
    requires
        pane_of(v.session, PaneId(pane)) is Some,
    ensures
        ({
            let p = pane_of(v.session, PaneId(pane))->0;
            let bytes = encode_utf8(text) + (if enter {
                seq![13u8]
            } else {
                Seq::empty()
            });
            let (w, step) = handled(v, id, CallView::SendKeys { pane, text, enter }, f, g);
            &&& p.backend is Local ==> w == v && step == (StepView::Write {
                id,
                pane: PaneId(pane),
                bytes,
            })
            &&& p.backend matches Backend::Remote(r) ==> mirrors(v, PaneId(pane), i, r) ==> ({
                let (key, a) = v.remotes[i];
                &&& w == (ServerView {
                    remotes: v.remotes.update(
                        i,
                        (key, AttachmentView { input: a.input.push((r, bytes)), ..a }),
                    ),
                    ..v
                })
                &&& answers(step, id, ResultView::Done)
            })
        }),
{
    let bytes = encode_utf8(text) + (if enter {
        seq![13u8]
    } else {
        Seq::empty()
    });
    assert(crate::server::model::key_bytes(text, enter) =~= bytes);
    if let Backend::Remote(r) = pane_of(v.session, PaneId(pane))->0.backend {
        if mirrors(v, PaneId(pane), i, r) {
            lemma_owner(v, PaneId(pane), i, r, 0);
        }
    }
}

// ---------------------------------------------------------------------------
// Reading.
// ---------------------------------------------------------------------------

/// What is asked of a pane is answered of that pane: the lines of a search, the prompts, whether it
/// is busy; of a window, whether any of its panes is. A pane that is not there is named in the
/// error.
pub proof fn questions_are_answered_of_the_pane(
    v: ServerView,
    id: u64,
    pane: u64,
    query: Seq<char>,
    k: int,
    f: spec_fn(u32, u32) -> u32,
    g: spec_fn(u32, u32) -> u32,
)
    ensures
        pane_of(v.session, PaneId(pane)) matches Some(p) ==> {
            &&& answers(
                handled(v, id, CallView::SearchPane { pane, query }, f, g).1,
                id,
                ResultView::Matches(found_lines(p.terminal, query)),
            )
            &&& answers(
                handled(v, id, CallView::PromptOffsets { pane }, f, g).1,
                id,
                ResultView::Matches(prompt_offsets_of(p.terminal)),
            )
            &&& answers(
                handled(v, id, CallView::PaneBusy { pane }, f, g).1,
                id,
                ResultView::Busy(p.busy),
            )
        },
        pane_of(v.session, PaneId(pane)) is None ==> {
            let why = "no pane %"@ + dec(pane as nat);
            &&& refuses(handled(v, id, CallView::SearchPane { pane, query }, f, g).1, id, why)
            &&& refuses(handled(v, id, CallView::PromptOffsets { pane }, f, g).1, id, why)
            &&& refuses(handled(v, id, CallView::PaneBusy { pane }, f, g).1, id, why)
            &&& refuses(
                handled(v, id, CallView::CapturePane { pane, scrollback: None }, f, g).1,
                id,
                why,
            )
            &&& refuses(handled(v, id, CallView::GetGrid { pane, offset: 0 }, f, g).1, id, why)
            &&& refuses(
                handled(v, id, CallView::SendKeys { pane, text: query, enter: true }, f, g).1,
                id,
                why,
            )
        },
        0 <= k < v.session.windows.len() && (forall|j: int|
            0 <= j < k ==> (#[trigger] v.session.windows[j]).id != v.session.windows[k].id)
            ==> answers(
            handled(v, id, CallView::WindowBusy { id: v.session.windows[k].id.0 }, f, g).1,
            id,
            ResultView::Busy(
                exists|j: int|
                    0 <= j < v.session.windows[k].panes.len() && (
                    #[trigger] v.session.windows[k].panes[j]).busy,
            ),
        ),
{
    if 0 <= k < v.session.windows.len() && (forall|j: int|
        0 <= j < k ==> (#[trigger] v.session.windows[j]).id != v.session.windows[k].id) {
        lemma_first_window(v.session.windows, k);
    }
}

proof fn lemma_first_window(windows: Seq<WindowView>, k: int)
    requires
        0 <= k < windows.len(),
        forall|j: int| 0 <= j < k ==> (#[trigger] windows[j]).id != windows[k].id,
    ensures
        window_index(windows, windows[k].id, 0) == Some(k),
{
    lemma_window_index(windows, windows[k].id, 0);
}

// ---------------------------------------------------------------------------
// Starting.
// ---------------------------------------------------------------------------

/// A new pane is started with the command that is asked for, or the shell; a new window in the
/// directory that is asked for, to which it is anchored, and a split in that of its window. `h` puts
/// it beside the active pane and `v` below it; any other direction is refused. The pane's id is the
/// next one.
pub proof fn new_panes_are_started_where_they_belong(
    v: ServerView,
    id: u64,
    dir: Seq<char>,
    command: Option<Seq<char>>,
    cwd: Option<Seq<char>>,
    f: spec_fn(u32, u32) -> u32,
    g: spec_fn(u32, u32) -> u32,
)
    requires
        v.session.active < v.session.windows.len(),
        mirrors_nothing(v, v.session.windows[v.session.active as int].active),
        v.ids.pane < u64::MAX,
    ensures
        ({
            let line = match command {
                Some(c) => c,
                None => v.shell,
            };
            let w = ServerView { ids: Ids { pane: (v.ids.pane + 1) as u64, ..v.ids }, ..v };
            let pane = PaneId(v.ids.pane);
            let home = v.session.windows[v.session.active as int].workspace_dir;
            let beside = StepView::Start {
                id,
                pane,
                command: line,
                cwd: home,
                place: PlaceView::Split(SplitDir::Horizontal),
            };
            let below = StepView::Start {
                id,
                pane,
                command: line,
                cwd: home,
                place: PlaceView::Split(SplitDir::Vertical),
            };
            let window = StepView::Start {
                id,
                pane,
                command: line,
                cwd,
                place: PlaceView::Window(cwd),
            };
            &&& handled(v, id, CallView::SplitPane { dir: "h"@, command }, f, g) == (w, beside)
            &&& handled(v, id, CallView::SplitPane { dir: "v"@, command }, f, g) == (w, below)
            &&& handled(v, id, CallView::NewWindow { command, cwd }, f, g) == (w, window)
            &&& dir != "h"@ && dir != "v"@ ==> ({
                let (u, step) = handled(v, id, CallView::SplitPane { dir, command }, f, g);
                u == v && refuses(step, id, "bad dir '"@ + dir + "' (h|v)"@)
            })
        }),
{
    lemma_no_owner(v, v.session.windows[v.session.active as int].active, 0);
    reveal_strlit("h");
    reveal_strlit("v");
    assert("h"@[0] != "v"@[0]);
}

/// A started pane that goes to a window of its own stands in the last window, alone, which has the
/// focus and the directory; one that goes to a split splits the active window.
pub proof fn started_panes_come_to_their_place(
    v: ServerView,
    pane: PaneId,
    dir: SplitDir,
    cwd: Option<Seq<char>>,
)
    requires
        v.session.active < v.session.windows.len(),
        v.ids.window < u64::MAX,
        forall|k: int|
            0 <= k < v.session.windows.len() ==> (#[trigger] v.session.windows[k]).id.0
                < v.ids.window,
    ensures
        ({
            let w = pane_started(v, pane, PlaceView::Window(cwd));
            let s = w.session;
            let last = s.windows.last();
            &&& s.windows.len() == v.session.windows.len() + 1
            &&& s.windows.drop_last() == v.session.windows
            &&& s.active == v.session.windows.len()
            &&& last.id.0 == v.ids.window
            &&& w.ids.window == v.ids.window + 1
            &&& last.panes.len() == 1
            &&& last.panes[0].id == pane
            &&& last.panes[0].backend is Local
            &&& last.panes[0].terminal.palette == v.palette
            &&& last.root == Node::Leaf(pane)
            &&& last.active == pane
            &&& last.name is None
            &&& last.group is None
            &&& cwd is None ==> last.workspace_dir is None
            &&& cwd matches Some(d) ==> d.len() > 0 ==> last.workspace_dir == Some(d)
        }),
        ({
            let w = pane_started(v, pane, PlaceView::Split(dir));
            let i = v.session.active as int;
            let p = crate::server::model::new_pane(v, pane);
            &&& p.id == pane
            &&& p.backend is Local
            &&& p.terminal.palette == v.palette
            &&& w.session.windows == v.session.windows.update(
                i,
                with_split(v.session.windows[i], dir, p),
            )
            &&& w.session.active == v.session.active
        }),
{
    let w = pane_started(v, pane, PlaceView::Window(cwd));
    let n = v.session.windows.len() as int;
    let wid = WindowId(v.ids.window);
    let fresh = crate::mux::window::plain_window(
        wid,
        seq![crate::server::model::new_pane(v, pane)],
        Node::Leaf(pane),
        pane,
    );
    let mid = added_window(v.session, fresh);
    assert(mid.windows[n].id == wid);
    lemma_first_window(mid.windows, n);
    assert(w.session.windows.drop_last() =~= v.session.windows);
}

// ---------------------------------------------------------------------------
// Windows.
// ---------------------------------------------------------------------------

/// Whether a session is another one with the window at an index changed.
pub open spec fn only_window(s: SessionView, t: SessionView, k: int, w: WindowView) -> bool {
    t == SessionView { windows: s.windows.update(k, w), ..s }
}

/// What a user sets on a window is set on that window and on nothing else: its name, its group, its
/// color, its directory, each cleared by an empty text, and its pull request badge, cleared by a
/// status that is none.
pub proof fn settings_are_set_on_their_window(
    v: ServerView,
    id: u64,
    k: int,
    text: Seq<char>,
    number: u32,
    status: Seq<char>,
    url: Option<Seq<char>>,
    f: spec_fn(u32, u32) -> u32,
    g: spec_fn(u32, u32) -> u32,
)
    requires
        0 <= k < v.session.windows.len(),
        forall|j: int|
            0 <= j < k ==> (#[trigger] v.session.windows[j]).id != v.session.windows[k].id,
    ensures
        ({
            let w = v.session.windows[k];
            let win = w.id.0;
            let set = if text.len() == 0 {
                None
            } else {
                Some(text)
            };
            let badge = match status_of(status) {
                Some(s) => Some(PrBadgeView { number, status: s, url }),
                None => None,
            };
            let named = handled(v, id, CallView::RenameWindow { id: win, name: text }, f, g);
            let grouped = handled(v, id, CallView::GroupWindow { id: win, group: text }, f, g);
            let colored = handled(v, id, CallView::ColorWindow { id: win, color: text }, f, g);
            let anchored = handled(v, id, CallView::SetWorkspaceDir { id: win, dir: text }, f, g);
            let badged = handled(v, id, CallView::SetPr { id: win, number, status, url }, f, g);
            &&& named.0 == (ServerView { session: named.0.session, ..v })
            &&& grouped.0 == (ServerView { session: grouped.0.session, ..v })
            &&& colored.0 == (ServerView { session: colored.0.session, ..v })
            &&& anchored.0 == (ServerView { session: anchored.0.session, ..v })
            &&& badged.0 == (ServerView { session: badged.0.session, ..v })
            &&& only_window(v.session, named.0.session, k, WindowView { name: set, ..w })
            &&& only_window(v.session, grouped.0.session, k, WindowView { group: set, ..w })
            &&& only_window(v.session, colored.0.session, k, WindowView { color: set, ..w })
            &&& only_window(
                v.session,
                anchored.0.session,
                k,
                WindowView { workspace_dir: set, ..w },
            )
            &&& only_window(v.session, badged.0.session, k, WindowView { pr: badge, ..w })
            &&& answers(named.1, id, ResultView::Done)
            &&& answers(grouped.1, id, ResultView::Done)
            &&& answers(colored.1, id, ResultView::Done)
            &&& answers(anchored.1, id, ResultView::Done)
            &&& answers(badged.1, id, ResultView::Done)
        }),
{
    lemma_first_window(v.session.windows, k);
}

/// Closing a window that is no mirror takes it away, unless it is the last one; the others stay in
/// order.
pub proof fn closing_a_window_takes_it_away(
    v: ServerView,
    id: u64,
    k: int,
    f: spec_fn(u32, u32) -> u32,
    g: spec_fn(u32, u32) -> u32,
)
    requires
        0 <= k < v.session.windows.len(),
        forall|j: int|
            0 <= j < k ==> (#[trigger] v.session.windows[j]).id != v.session.windows[k].id,
        forall|i: int|
            0 <= i < v.remotes.len() ==> none_with(
                (#[trigger] v.remotes[i]).1.windows,
                v.session.windows[k].id.0,
            ),
    ensures
        ({
            let win = v.session.windows[k].id.0;
            let (w, step) = handled(v, id, CallView::CloseWindow { id: win }, f, g);
            &&& answers(step, id, ResultView::Done)
            &&& v.session.windows.len() == 1 ==> w == v
            &&& v.session.windows.len() > 1 ==> w == (ServerView {
                session: without_window(v.session, k),
                ..v
            }) && w.session.windows == v.session.windows.remove(k)
        }),
{
    lemma_first_window(v.session.windows, k);
    lemma_no_window_owner(v, v.session.windows[k].id, 0);
}

proof fn lemma_no_window_owner(v: ServerView, window: WindowId, from: int)
    requires
        forall|i: int|
            0 <= i < v.remotes.len() ==> none_with(
                (#[trigger] v.remotes[i]).1.windows,
                window.0,
            ),
        0 <= from <= v.remotes.len(),
    ensures
        window_owner(v.remotes, window, from) is None,
    decreases v.remotes.len() - from,
{
    if from < v.remotes.len() {
        lemma_none_with(v.remotes[from].1.windows, window.0, 0);
        lemma_no_window_owner(v, window, from + 1);
    }
}

/// Closing a local pane takes it out of the active window where others are left in it, takes the
/// window where it is the last in it and other windows are left, and does nothing for the very last
/// pane.
pub proof fn closing_a_pane_takes_it_away(
    v: ServerView,
    id: u64,
    f: spec_fn(u32, u32) -> u32,
    g: spec_fn(u32, u32) -> u32,
)
    requires
        v.session.active < v.session.windows.len(),
        mirrors_nothing(v, v.session.windows[v.session.active as int].active),
    ensures
        ({
            let s = v.session;
            let i = s.active as int;
            let (w, step) = handled(v, id, CallView::ClosePane, f, g);
            &&& answers(step, id, ResultView::Done)
            &&& w == (ServerView { session: w.session, ..v })
            &&& s.windows[i].panes.len() > 1 ==> only_window(
                s,
                w.session,
                i,
                without_active(s.windows[i]),
            )
            &&& s.windows[i].panes.len() <= 1 && s.windows.len() > 1 ==> w.session
                == without_window(s, i)
            &&& s.windows[i].panes.len() <= 1 && s.windows.len() == 1 ==> w.session == s
        }),
{
    lemma_no_owner(v, v.session.windows[v.session.active as int].active, 0);
}

/// The focus goes where it is told: to the window at an index, to the next or the previous one
/// around the end, to a pane by its id, which makes its window active too.
pub proof fn the_focus_goes_where_it_is_told(
    v: ServerView,
    id: u64,
    index: usize,
    pane: u64,
    f: spec_fn(u32, u32) -> u32,
    g: spec_fn(u32, u32) -> u32,
)
    requires
        v.session.wf(),
        v.session.windows.len() > 0,
    ensures
        ({
            let s = v.session;
            let n = s.windows.len() as int;
            let at = |call: CallView| handled(v, id, call, f, g).0.session;
            let picked = at(CallView::SelectWindow { index });
            let next = at(CallView::SwitchWindow { next: true });
            let back = at(CallView::SwitchWindow { next: false });
            let there = at(CallView::FocusPaneId { pane });
            &&& index < n ==> picked.active == index
            &&& index >= n ==> picked == s
            &&& s.active + 1 < n ==> next.active == s.active + 1
            &&& s.active + 1 == n ==> next.active == 0
            &&& s.active > 0 ==> back.active == s.active - 1
            &&& s.active == 0 ==> back.active == n - 1
            &&& pane_of(s, PaneId(pane)) is Some ==> active_pane(there) == Some(PaneId(pane))
            &&& pane_of(s, PaneId(pane)) is None ==> there == s
        }),
{
    let s = v.session;
    let n = s.windows.len() as int;
    let t: int = s.active + 1int;
    assert(t == n ==> t % n == 0) by (nonlinear_arith)
        requires
            n > 0,
    ;
    assert(t < n ==> t % n == t) by (nonlinear_arith)
        requires
            n > 0,
            t >= 0,
    ;
    let b = s.active + n - 1;
    assert(s.active == 0 ==> b % n == n - 1) by (nonlinear_arith)
        requires
            n > 0,
            b == s.active + n - 1,
    ;
    assert(s.active > 0 && s.active < n ==> b % n == s.active - 1) by (nonlinear_arith)
        requires
            n > 0,
            b == s.active + n - 1,
    ;
    lemma_attended_keeps_focus(SessionView { active: index as nat, ..s });
    lemma_attended_keeps_focus(crate::server::model::switched(s, true));
    lemma_attended_keeps_focus(crate::server::model::switched(s, false));
    lemma_attended_keeps_focus(focused(s, PaneId(pane)));
    lemma_home(s.windows, PaneId(pane), 0);
}

proof fn lemma_attended_keeps_focus(s: SessionView)
    ensures
        crate::server::model::attended(s).active == s.active,
        active_pane(crate::server::model::attended(s)) == active_pane(s),
{
    if let Some(t) = active_pane(s) {
        lemma_home(s.windows, t, 0);
    }
}

/// The four words move the focus in the four directions, in the area that a client last told; any
/// other word is refused.
pub proof fn the_focus_moves_by_words(
    v: ServerView,
    id: u64,
    dir: Seq<char>,
    f: spec_fn(u32, u32) -> u32,
    g: spec_fn(u32, u32) -> u32,
)
    requires
        v.session.wf(),
        v.session.windows.len() > 0,
    ensures
        ({
            let w = v.session.windows[v.session.active as int];
            let (x, y) = v.last_view;
            let at = |word: Seq<char>|
                active_pane(handled(v, id, CallView::FocusPane { dir: word }, f, g).0.session);
            &&& at("left"@) == Some(focused_dir(w, FocusDir::Left, x, y, f).active)
            &&& at("right"@) == Some(focused_dir(w, FocusDir::Right, x, y, f).active)
            &&& at("up"@) == Some(focused_dir(w, FocusDir::Up, x, y, f).active)
            &&& at("down"@) == Some(focused_dir(w, FocusDir::Down, x, y, f).active)
            &&& dir != "left"@ && dir != "right"@ && dir != "up"@ && dir != "down"@ ==> refuses(
                handled(v, id, CallView::FocusPane { dir }, f, g).1,
                id,
                "bad dir '"@ + dir + "'"@,
            )
        }),
{
    reveal_strlit("left");
    reveal_strlit("right");
    reveal_strlit("up");
    reveal_strlit("down");
    assert("left"@.len() == 4 && "right"@.len() == 5 && "up"@.len() == 2 && "down"@.len() == 4);
    assert("left"@[0] != "down"@[0]);
    let (x, y) = v.last_view;
    lemma_attended_keeps_focus(
        crate::server::model::at_active(
            v.session,
            |w: WindowView| focused_dir(w, FocusDir::Left, x, y, f),
        ),
    );
    lemma_attended_keeps_focus(
        crate::server::model::at_active(
            v.session,
            |w: WindowView| focused_dir(w, FocusDir::Right, x, y, f),
        ),
    );
    lemma_attended_keeps_focus(
        crate::server::model::at_active(
            v.session,
            |w: WindowView| focused_dir(w, FocusDir::Up, x, y, f),
        ),
    );
    lemma_attended_keeps_focus(
        crate::server::model::at_active(
            v.session,
            |w: WindowView| focused_dir(w, FocusDir::Down, x, y, f),
        ),
    );
}

/// What is asked of the layout is done to the active window alone: two panes change places where
/// both are in it, the zoom is turned, a divider is dragged.
pub proof fn the_layout_changes_in_the_active_window(
    v: ServerView,
    id: u64,
    a: u64,
    b: u64,
    dx: u32,
    dy: u32,
    f: spec_fn(u32, u32) -> u32,
    g: spec_fn(u32, u32) -> u32,
)
    requires
        v.session.active < v.session.windows.len(),
        mirrors_nothing(v, PaneId(a)),
    ensures
        ({
            let s = v.session;
            let i = s.active as int;
            let w = s.windows[i];
            let swap = handled(v, id, CallView::SwapPanes { a, b }, f, g);
            let zoom = handled(v, id, CallView::ToggleZoom, f, g);
            let drag = handled(v, id, CallView::ResizeSplit { pane: a, dx, dy }, f, g);
            &&& has_leaf(w.root, PaneId(a)) && has_leaf(w.root, PaneId(b)) ==> only_window(
                s,
                swap.0.session,
                i,
                WindowView { root: swapped(w.root, PaneId(a), PaneId(b)), ..w },
            )
            &&& !(has_leaf(w.root, PaneId(a)) && has_leaf(w.root, PaneId(b)))
                ==> swap.0.session.windows =~= s.windows
            &&& only_window(s, zoom.0.session, i, WindowView { zoom: !w.zoom, ..w })
            &&& only_window(
                s,
                drag.0.session,
                i,
                WindowView { root: dragged(w.root, PaneId(a), dx, dy, g).0, ..w },
            )
            &&& answers(swap.1, id, ResultView::Done)
            &&& answers(zoom.1, id, ResultView::Done)
            &&& answers(drag.1, id, ResultView::Done)
        }),
{
    lemma_no_owner(v, PaneId(a), 0);
}

/// Moving a window moves it in the list.
pub proof fn windows_are_moved_in_the_list(
    v: ServerView,
    id: u64,
    from: usize,
    to: usize,
    f: spec_fn(u32, u32) -> u32,
    g: spec_fn(u32, u32) -> u32,
)
    requires
        from < v.session.windows.len(),
        to < v.session.windows.len(),
    ensures
        ({
            let s = handled(v, id, CallView::MoveWindow { from, to }, f, g).0.session;
            &&& s.windows.len() == v.session.windows.len()
            &&& s.windows[to as int] == v.session.windows[from as int]
            &&& s.windows.remove(to as int) =~= v.session.windows.remove(from as int)
        }),
{
}

// ---------------------------------------------------------------------------
// Sizes and colors.
// ---------------------------------------------------------------------------

/// As many cells as fit beside the chrome, and at least one, as long as the number fits 16 bits.
pub proof fn as_many_cells_as_fit(pixels: u32, chrome: u32, cell: u32)
    requires
        cell > 0,
    ensures
        ({
            let n = cells_in(pixels, chrome, cell) as int;
            let room = pixels - chrome;
            &&& room < 65536 * cell ==> n >= 1
            &&& cell <= room < 65536 * cell ==> n * cell <= room < (n + 1) * cell
            &&& room < cell ==> n == 1
        }),
{
    let room: int = pixels - chrome;
    if cell <= room < 65536 * cell {
        let q = room / (cell as int);
        assert(q * cell <= room < (q + 1) * cell && 1 <= q < 65536) by (nonlinear_arith)
            requires
                cell > 0,
                q == room / (cell as int),
                cell <= room < 65536 * cell,
        ;
        assert(cells_in(pixels, chrome, cell) == q);
    } else if room < cell {
        let left: int = if room >= 0 {
            room
        } else {
            0
        };
        assert(left / (cell as int) == 0) by (nonlinear_arith)
            requires
                0 <= left < cell,
        ;
    }
}

/// A pane gets as many columns as fit its rectangle's width, and as many rows as fit its height.
pub proof fn panes_are_as_large_as_their_rectangle(r: Rect, cell: (u32, u32), chrome: (u32, u32))
    ensures
        size_in(r, cell, chrome).cols == cells_in(r.w, chrome.0, cell.0),
        size_in(r, cell, chrome).rows == cells_in(r.h, chrome.1, cell.1),
{
}

/// Every pane that is shown is given the size of its rectangle, and only then its console too where
/// it is local and the size is new; a pane that is not shown stays as it is.
pub proof fn shown_panes_are_resized(
    w: WindowView,
    rs: Seq<(PaneId, Rect)>,
    cell: (u32, u32),
    chrome: (u32, u32),
    n: int,
    k: int,
)
    requires
        distinct(w.panes),
        0 <= n <= rs.len(),
        0 <= k < w.panes.len(),
        forall|i: int, j: int| 0 <= i < j < n ==> (#[trigger] rs[i]).0 != (#[trigger] rs[j]).0,
    ensures
        ({
            let (x, sizes) = fitted(w, rs, cell, chrome, n);
            let p = w.panes[k];
            &&& x == (WindowView { panes: x.panes, ..w })
            &&& x.panes.len() == w.panes.len()
            &&& forall|i: int|
                0 <= i < n && (#[trigger] rs[i]).0 == p.id ==> x.panes[k] == pane_resized(
                    p,
                    PtySize {
                        cols: cells_in(rs[i].1.w, chrome.0, cell.0),
                        rows: cells_in(rs[i].1.h, chrome.1, cell.1),
                    },
                )
            &&& (forall|i: int| 0 <= i < n ==> (#[trigger] rs[i]).0 != p.id) ==> x.panes[k] == p
            &&& x.panes[k].id == p.id
            &&& x.panes[k].backend == p.backend
        }),
    decreases n,
{
    if n > 0 {
        shown_panes_are_resized(w, rs, cell, chrome, n - 1, k);
        let (x, sizes) = fitted(w, rs, cell, chrome, n - 1);
        let (id, r) = rs[n - 1];
        lemma_pane_index(x.panes, id, 0);
        if let Some(j) = pane_index(x.panes, id, 0) {
            shown_panes_are_resized(w, rs, cell, chrome, n - 1, j);
            let p = w.panes[k];
            if j != k {
                if j < k {
                    assert(w.panes[j].id != w.panes[k].id);
                } else {
                    assert(w.panes[k].id != w.panes[j].id);
                }
                assert(rs[n - 1].0 != p.id);
            } else {
                assert forall|i: int| 0 <= i < n - 1 implies (#[trigger] rs[i]).0 != p.id by {
                    assert(rs[i].0 != rs[n - 1].0);
                }
                assert(x.panes[k] == p);
            }
            let y = fitted(w, rs, cell, chrome, n).0;
            assert forall|i: int| 0 <= i < n && (#[trigger] rs[i]).0 == p.id implies y.panes[k]
                == pane_resized(
                p,
                PtySize {
                    cols: cells_in(rs[i].1.w, chrome.0, cell.0),
                    rows: cells_in(rs[i].1.h, chrome.1, cell.1),
                },
            ) by {
                if i == n - 1 {
                    assert(j == k);
                } else {
                    assert(rs[i].0 != rs[n - 1].0);
                    assert(j != k);
                }
            }
            if forall|i: int| 0 <= i < n ==> (#[trigger] rs[i]).0 != p.id {
                assert(rs[n - 1].0 != p.id);
            }
        } else {
            let p = w.panes[k];
            assert(x.panes[k].id == p.id);
            assert(rs[n - 1].0 != p.id);
        }
    }
}

/// A new size goes to every attachment, as columns and rows, and is remembered.
pub proof fn new_sizes_reach_every_peer(
    v: ServerView,
    id: u64,
    w: u32,
    h: u32,
    cell_w: u32,
    cell_h: u32,
    pane_chrome: u32,
    pane_chrome_y: u32,
    k: int,
    f: spec_fn(u32, u32) -> u32,
    g: spec_fn(u32, u32) -> u32,
)
    requires
        0 <= k < v.remotes.len(),
    ensures
        ({
            let call = CallView::ResizeView { w, h, cell_w, cell_h, pane_chrome, pane_chrome_y };
            let u = handled(v, id, call, f, g).0;
            let (a, b) = (v.remotes[k].1.transport, u.remotes[k].1.transport);
            let command = "refresh-client -C "@ + dec(cells_in(w, 0, cell_w) as nat) + seq!['x']
                + dec(cells_in(h, 0, cell_h) as nat);
            &&& u.last_view == (w, h)
            &&& u.remotes.len() == v.remotes.len()
            &&& u.remotes[k].0 == v.remotes[k].0
            &&& a.open ==> b.outbox == a.outbox.push(command)
            &&& u.remotes[k].1.panes == v.remotes[k].1.panes
            &&& u.remotes[k].1.input == v.remotes[k].1.input
        }),
{
}

/// New colors reach every pane, and later ones too: the palette has the colors that are given, red,
/// green and blue, and the built-in ones where none is; nothing else of a pane changes.
pub proof fn new_colors_reach_every_pane(
    v: ServerView,
    id: u64,
    fg: Seq<u8>,
    bg: Seq<u8>,
    ansi: Seq<Seq<u8>>,
    i: int,
    k: int,
    p: Palette,
    f: spec_fn(u32, u32) -> u32,
    g: spec_fn(u32, u32) -> u32,
)
    requires
        0 <= i < v.session.windows.len(),
        0 <= k < v.session.windows[i].panes.len(),
        is_themed(
            p,
            Rgb { r: fg[0], g: fg[1], b: fg[2] },
            Rgb { r: bg[0], g: bg[1], b: bg[2] },
            Seq::new(
                ansi.len(),
                |j: int| Rgb { r: ansi[j][0], g: ansi[j][1], b: ansi[j][2] },
            ),
        ),
    ensures
        ({
            let u = handled(v, id, CallView::SetPalette { fg, bg, ansi }, f, g).0;
            let (a, b) = (v.session.windows[i].panes[k], u.session.windows[i].panes[k]);
            &&& u.palette == p
            &&& b.terminal.palette == p
            &&& b == (PaneView { terminal: b.terminal, ..a })
            &&& b.terminal == (crate::vt::terminal::TerminalView {
                palette: b.terminal.palette,
                ..a.terminal
            })
            &&& u.session.windows.len() == v.session.windows.len()
            &&& u.session.windows[i].panes.len() == v.session.windows[i].panes.len()
            &&& u.session.windows[i].root == v.session.windows[i].root
            &&& u.session.active == v.session.active
        }),
{
    let colors = Seq::new(
        ansi.len(),
        |j: int| Rgb { r: ansi[j][0], g: ansi[j][1], b: ansi[j][2] },
    );
    assert(Seq::new(ansi.len(), |j: int| crate::server::model::color(ansi[j])) =~= colors);
    crate::vt::color::lemma_themed(
        p,
        Rgb { r: fg[0], g: fg[1], b: fg[2] },
        Rgb { r: bg[0], g: bg[1], b: bg[2] },
        colors,
    );
}

// ---------------------------------------------------------------------------
// Remote sessions and imports.
// ---------------------------------------------------------------------------

/// A remote session is reached by ssh, or by the command that is given; an import lists its
/// directory; a page to browse waits behind those that wait.
pub proof fn what_happens_outside_is_asked_for(
    v: ServerView,
    id: u64,
    target: Seq<char>,
    command: Seq<char>,
    dir: Seq<char>,
    all: bool,
    f: spec_fn(u32, u32) -> u32,
    g: spec_fn(u32, u32) -> u32,
)
    ensures
        handled(v, id, CallView::SshTmux { target, command: None }, f, g) == (
            v,
            StepView::Attach {
                id,
                command: "ssh -tt "@ + target + " -- tmux -CC new -As gmux"@,
            },
        ),
        handled(v, id, CallView::SshTmux { target, command: Some(command) }, f, g) == (
            v,
            StepView::Attach { id, command },
        ),
        handled(v, id, CallView::ImportWorkspaces { dir, all }, f, g) == (
            v,
            StepView::Scan { id, dir, all },
        ),
        handled(v, id, CallView::Browse { url: dir }, f, g).0 == (ServerView {
            browse_requests: v.browse_requests.push(dir),
            ..v
        }),
{
}

/// A new attachment stands behind the others, under a key of its own, and has asked its peer for its
/// version and then for its panes.
pub proof fn a_new_attachment_asks_for_version_and_panes(v: ServerView)
    requires
        v.next_remote < u64::MAX,
    ensures
        ({
            let w = remote_attached(v);
            let (key, a) = w.remotes.last();
            &&& w.remotes.drop_last() == v.remotes
            &&& key == v.next_remote
            &&& w.next_remote == v.next_remote + 1
            &&& w.session == v.session
            &&& a.transport.outbox == seq![
                "display-message -p '#{version}'"@,
                "list-panes -a -F '#{window_id} #{pane_id} #{pane_width} #{pane_height}'"@,
            ]
            &&& a.transport.open
            &&& a.version_cmd == Some(0u64)
            &&& a.enumeration == Some(1u64)
            &&& a.panes.len() == 0
            &&& a.windows.len() == 0
            &&& !a.finished
        }),
{
    assert(remote_attached(v).remotes.drop_last() =~= v.remotes);
    let a = attached();
    assert(a.transport.outbox =~= seq![
        "display-message -p '#{version}'"@,
        "list-panes -a -F '#{window_id} #{pane_id} #{pane_width} #{pane_height}'"@,
    ]);
}

/// The console of a pane is resized exactly where the pane is local, is shown, and its rectangle
/// holds another number of cells than it had.
pub proof fn consoles_are_told_new_sizes(
    w: WindowView,
    rs: Seq<(PaneId, Rect)>,
    cell: (u32, u32),
    chrome: (u32, u32),
    n: int,
    k: int,
    z: PtySize,
)
    requires
        distinct(w.panes),
        0 <= n <= rs.len(),
        0 <= k < w.panes.len(),
        forall|i: int, j: int| 0 <= i < j < n ==> (#[trigger] rs[i]).0 != (#[trigger] rs[j]).0,
    ensures
        fitted(w, rs, cell, chrome, n).1.contains((w.panes[k].id, z)) == (w.panes[k].backend
            == Backend::Local && (w.panes[k].terminal.cols != z.cols || w.panes[k].terminal.rows
            != z.rows) && exists|i: int|
            0 <= i < n && (#[trigger] rs[i]).0 == w.panes[k].id && z == (PtySize {
                cols: cells_in(rs[i].1.w, chrome.0, cell.0),
                rows: cells_in(rs[i].1.h, chrome.1, cell.1),
            })),
    decreases n,
{
    if n > 0 {
        consoles_are_told_new_sizes(w, rs, cell, chrome, n - 1, k, z);
        let (x, sizes) = fitted(w, rs, cell, chrome, n - 1);
        let (id, r) = rs[n - 1];
        let p = w.panes[k];
        let size = size_in(r, cell, chrome);
        shown_panes_are_resized(w, rs, cell, chrome, n - 1, k);
        lemma_pane_index(x.panes, id, 0);
        if id == p.id {
            assert(x.panes[k].id == id);
            assert(pane_index(x.panes, id, 0) is Some);
            let j = pane_index(x.panes, id, 0)->0;
            shown_panes_are_resized(w, rs, cell, chrome, n - 1, j);
            if j < k {
                assert(w.panes[j].id != w.panes[k].id);
            } else if k < j {
                assert(w.panes[k].id != w.panes[j].id);
            }
            assert(forall|i: int| 0 <= i < n - 1 ==> (#[trigger] rs[i]).0 != p.id);
            assert(x.panes[k] == p);
            assert(!(exists|i: int|
                0 <= i < n - 1 && (#[trigger] rs[i]).0 == w.panes[k].id && z == (PtySize {
                    cols: cells_in(rs[i].1.w, chrome.0, cell.0),
                    rows: cells_in(rs[i].1.h, chrome.1, cell.1),
                })));
            let more = sizes.push((id, size));
            assert(more[sizes.len() as int] == (id, size));
            if more.contains((p.id, z)) && z != size {
                let a = choose|a: int| 0 <= a < more.len() && more[a] == (p.id, z);
                assert(sizes[a] == (p.id, z));
            }
            assert(rs[n - 1].0 == p.id);
        } else {
            let more = sizes.push((id, size));
            if sizes.contains((p.id, z)) {
                let a = choose|a: int| 0 <= a < sizes.len() && sizes[a] == (p.id, z);
                assert(more[a] == (p.id, z));
            }
            if more.contains((p.id, z)) {
                let a = choose|a: int| 0 <= a < more.len() && more[a] == (p.id, z);
                assert(sizes[a] == (p.id, z));
            }
        }
    }
}

} // verus!
