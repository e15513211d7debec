//! Session persistence: the layout and each pane's directory as a snapshot of plain values, and
//! the session that a snapshot describes.
//!
//! Restoring starts fresh shells in the saved directories, a window's own before its panes'; it
//! never runs a pane's command again. The caller starts one pane per record and hands the
//! panes in.
use vstd::prelude::*;
use vstd::string::*;

#[allow(unused_imports)]
use crate::mux::ids::{after, after_n, WindowId};
use crate::mux::ids::{Ids, PaneId, SessionId};
use crate::mux::layout::{Node, SplitDir};
#[allow(unused_imports)]
use crate::mux::layout::{has_leaf, leaves_of, lemma_has_leaf, same_shape};
use crate::mux::pane::Pane;
#[allow(unused_imports)]
use crate::mux::pane::PaneView;
use crate::mux::session::Session;
#[allow(unused_imports)]
use crate::mux::session::{clamp_index, windows_view, SessionView};
use crate::mux::window::Window;
#[allow(unused_imports)]
use crate::mux::window::{
    all_wf, distinct, holds, inserted_all, lemma_holds, lemma_inserted_all, pane_index, panes_view,
    plain_window, setting, WindowView,
};
use crate::mux::workspace::PrBadge;
#[allow(unused_imports)]
use crate::mux::workspace::{opt_badge, PrBadgeView};
use crate::text::clone_opt;
#[allow(unused_imports)]
use crate::text::{opt_text, texts_view};
#[allow(unused_imports)]
use crate::vt::terminal::scrollback;

verus! {

/// Format version of snapshots.
pub const SNAPSHOT_VERSION: u32 = 1;

/// How many lines of scrollback and screen are kept per pane.
pub const SCREEN_CAPTURE_LINES: usize = 200;

/// A saved session.
#[derive(Debug, PartialEq, Eq)]
pub struct SessionSnapshot {
    pub version: u32,
    pub active: usize,
    pub windows: Vec<WindowSnapshot>,
}

/// A saved window.
#[derive(Debug, PartialEq, Eq)]
pub struct WindowSnapshot {
    /// Panes in leaf order; `layout` refers to them by index.
    pub panes: Vec<PaneRecord>,
    pub layout: NodeSnapshot,
    /// Index of the active pane.
    pub active: usize,
    /// Name that the user gave.
    pub name: Option<String>,
    /// Sidebar group.
    pub group: Option<String>,
    /// Tag color.
    pub color: Option<String>,
    /// Pull request badge.
    pub pr: Option<PrBadge>,
    /// Directory in which every pane of the window starts.
    pub workspace_dir: Option<String>,
}

/// A saved pane.
#[derive(Debug, PartialEq, Eq)]
pub struct PaneRecord {
    pub cwd: Option<String>,
    /// Recent output, shown as inert history after a restore.
    pub screen: Vec<String>,
}

/// A saved split tree; a ratio is kept as the bits of a single-precision number.
#[derive(Debug, PartialEq, Eq)]
pub enum NodeSnapshot {
    Leaf(usize),
    Split { horizontal: bool, ratio: u32, a: Box<NodeSnapshot>, b: Box<NodeSnapshot> },
}

/// The mathematical value of a [`PaneRecord`].
pub struct PaneRecordView {
    pub cwd: Option<Seq<char>>,
    pub screen: Seq<Seq<char>>,
}

impl PaneRecord {
    pub open spec fn view(&self) -> PaneRecordView {
        PaneRecordView { cwd: opt_text(self.cwd), screen: texts_view(self.screen@) }
    }
}

/// The mathematical values of a list of records.
pub open spec fn records_view(records: Seq<PaneRecord>) -> Seq<PaneRecordView> {
    Seq::new(records.len(), |i: int| records[i]@)
}

/// The mathematical value of a [`WindowSnapshot`].
pub struct WindowSnapshotView {
    pub panes: Seq<PaneRecordView>,
    pub layout: NodeSnapshot,
    pub active: nat,
    pub name: Option<Seq<char>>,
    pub group: Option<Seq<char>>,
    pub color: Option<Seq<char>>,
    pub pr: Option<PrBadgeView>,
    pub workspace_dir: Option<Seq<char>>,
}

impl WindowSnapshot {
    pub open spec fn view(&self) -> WindowSnapshotView {
        WindowSnapshotView {
            panes: records_view(self.panes@),
            layout: self.layout,
            active: self.active as nat,
            name: opt_text(self.name),
            group: opt_text(self.group),
            color: opt_text(self.color),
            pr: opt_badge(self.pr),
            workspace_dir: opt_text(self.workspace_dir),
        }
    }
}

/// The mathematical values of a list of saved windows.
pub open spec fn saved_windows(windows: Seq<WindowSnapshot>) -> Seq<WindowSnapshotView> {
    Seq::new(windows.len(), |i: int| windows[i]@)
}

/// The mathematical value of a [`SessionSnapshot`].
pub struct SessionSnapshotView {
    pub version: u32,
    pub active: nat,
    pub windows: Seq<WindowSnapshotView>,
}

impl SessionSnapshot {
    pub open spec fn view(&self) -> SessionSnapshotView {
        SessionSnapshotView {
            version: self.version,
            active: self.active as nat,
            windows: saved_windows(self.windows@),
        }
    }
}

// ---------------------------------------------------------------------------
// Capturing.
// ---------------------------------------------------------------------------

/// Whether a leaf is saved: it is not the mirror of a remote pane, whose program belongs to the
/// remote server.
pub open spec fn is_local(w: WindowView, id: PaneId) -> bool {
    match pane_index(w.panes, id, 0) {
        Some(i) => w.panes[i].remote_id() is None,
        None => true,
    }
}

/// A tree without its remote leaves; none where nothing is left.
pub open spec fn local_tree(w: WindowView, n: Node) -> Option<Node>
    decreases n,
{
    match n {
        Node::Leaf(id) => if is_local(w, id) {
            Some(n)
        } else {
            None
        },
        Node::Split { dir, ratio, a, b } => match (local_tree(w, *a), local_tree(w, *b)) {
            (Some(x), Some(y)) => Some(
                Node::Split { dir, ratio, a: Box::new(x), b: Box::new(y) },
            ),
            (Some(x), None) => Some(x),
            (None, Some(y)) => Some(y),
            (None, None) => None,
        },
    }
}

/// The last index of an id within the first `n` of a list; 0 where it is not there.
pub open spec fn last_index(ids: Seq<PaneId>, id: PaneId, n: int) -> nat
    decreases n,
{
    if n <= 0 {
        0
    } else if ids[n - 1] == id {
        (n - 1) as nat
    } else {
        last_index(ids, id, n - 1)
    }
}

/// A tree with each pane replaced by its index in a list.
pub open spec fn indexed(n: Node, ids: Seq<PaneId>) -> NodeSnapshot
    decreases n,
{
    match n {
        Node::Leaf(id) => NodeSnapshot::Leaf(last_index(ids, id, ids.len() as int) as usize),
        Node::Split { dir, ratio, a, b } => NodeSnapshot::Split {
            horizontal: dir == SplitDir::Horizontal,
            ratio,
            a: Box::new(indexed(*a, ids)),
            b: Box::new(indexed(*b, ids)),
        },
    }
}

/// Lines without the empty ones at the end.
pub open spec fn without_blank_tail(lines: Seq<Seq<char>>) -> Seq<Seq<char>>
    decreases lines.len(),
{
    if lines.len() > 0 && lines.last().len() == 0 {
        without_blank_tail(lines.drop_last())
    } else {
        lines
    }
}

/// What is kept of a pane's recent output.
pub open spec fn screen_of(p: PaneView) -> Seq<Seq<char>> {
    without_blank_tail(scrollback(p.terminal, SCREEN_CAPTURE_LINES as nat))
}

/// What is saved of a leaf.
pub open spec fn record_of(w: WindowView, id: PaneId, include_screen: bool) -> PaneRecordView {
    match pane_index(w.panes, id, 0) {
        Some(i) => PaneRecordView {
            cwd: w.panes[i].cwd,
            screen: if include_screen {
                screen_of(w.panes[i])
            } else {
                Seq::empty()
            },
        },
        None => PaneRecordView { cwd: None, screen: Seq::empty() },
    }
}

/// What is saved of a window; none where it has no local pane.
pub open spec fn captured_window(w: WindowView, include_screen: bool) -> Option<
    WindowSnapshotView,
> {
    match local_tree(w, w.root) {
        Some(tree) => {
            let ids = leaves_of(tree);
            Some(
                WindowSnapshotView {
                    panes: Seq::new(ids.len(), |i: int| record_of(w, ids[i], include_screen)),
                    layout: indexed(tree, ids),
                    active: last_index(ids, w.active, ids.len() as int),
                    name: w.name,
                    group: w.group,
                    color: w.color,
                    pr: w.pr,
                    workspace_dir: w.workspace_dir,
                },
            )
        },
        None => None,
    }
}

/// Where the pane of a window's `i`-th record starts again.
pub open spec fn start_dir_of(s: WindowSnapshotView, i: int) -> Option<Seq<char>> {
    match s.workspace_dir {
        Some(dir) => Some(dir),
        None => s.panes[i].cwd,
    }
}

/// What is saved of the first `n` windows.
pub open spec fn captured_windows(
    windows: Seq<WindowView>,
    include_screen: bool,
    n: int,
) -> Seq<WindowSnapshotView>
    decreases n,
{
    if n <= 0 {
        Seq::empty()
    } else {
        let front = captured_windows(windows, include_screen, n - 1);
        match captured_window(windows[n - 1], include_screen) {
            Some(w) => front.push(w),
            None => front,
        }
    }
}

/// What is saved of a session. The active index counts saved windows only; it is 0 where the
/// active window is not saved.
pub open spec fn captured(s: SessionView, include_screen: bool) -> SessionSnapshotView {
    SessionSnapshotView {
        version: SNAPSHOT_VERSION,
        active: if s.active < s.windows.len() && captured_window(
            s.windows[s.active as int],
            include_screen,
        ) is Some {
            captured_windows(s.windows, include_screen, s.active as int).len()
        } else {
            0
        },
        windows: captured_windows(s.windows, include_screen, s.windows.len() as int),
    }
}

fn local_part(w: &Window, n: &Node) -> (r: Option<Node>)
    ensures
        r == local_tree(w@, *n),
    decreases n,
{
    match n {
        Node::Leaf(id) => {
            let local = match w.pane(*id) {
                Some(p) => p.remote_id().is_none(),
                None => true,
            };
            if local {
                Some(Node::leaf(*id))
            } else {
                None
            }
        },
        Node::Split { dir, ratio, a, b } => match (local_part(w, a), local_part(w, b)) {
            (Some(x), Some(y)) => Some(
                Node::Split { dir: *dir, ratio: *ratio, a: Box::new(x), b: Box::new(y) },
            ),
            (Some(x), None) => Some(x),
            (None, Some(y)) => Some(y),
            (None, None) => None,
        },
    }
}

fn index_in(ids: &[PaneId], id: PaneId) -> (i: usize)
    ensures
        i == last_index(ids@, id, ids@.len() as int),
{
    let mut n: usize = ids.len();
    while n > 0
        invariant
            n <= ids@.len(),
            last_index(ids@, id, ids@.len() as int) == last_index(ids@, id, n as int),
        decreases n,
    {
        if ids[n - 1] == id {
            return n - 1;
        }
        n = n - 1;
    }
    0
}

/// The tree with each pane replaced by its index in `ids`; a pane that is not there counts as the
/// first.
pub fn node_to_snapshot(node: &Node, ids: &[PaneId]) -> (s: NodeSnapshot)
    ensures
        s == indexed(*node, ids@),
    decreases node,
{
    match node {
        Node::Leaf(id) => NodeSnapshot::Leaf(index_in(ids, *id)),
        Node::Split { dir, ratio, a, b } => NodeSnapshot::Split {
            horizontal: *dir == SplitDir::Horizontal,
            ratio: *ratio,
            a: Box::new(node_to_snapshot(a, ids)),
            b: Box::new(node_to_snapshot(b, ids)),
        },
    }
}

/// A pane's recent output as text lines, without the empty ones at the end.
pub fn screen_lines(p: &Pane) -> (lines: Vec<String>)
    requires
        p@.wf(),
    ensures
        texts_view(lines@) == screen_of(p@),
{
    let mut lines = p.scrollback_text(SCREEN_CAPTURE_LINES);
    let ghost all = texts_view(lines@);
    while lines.len() > 0 && lines[lines.len() - 1].as_str().is_empty()
        invariant
            without_blank_tail(all) == without_blank_tail(texts_view(lines@)),
        decreases lines@.len(),
    {
        let ghost before = texts_view(lines@);
        let _blank = lines.pop();
        assert(before.drop_last() =~= texts_view(lines@));
    }
    lines
}

impl WindowSnapshot {
    /// Saves a window; none where it has no local pane. `include_screen` says whether the
    /// records carry screen text.
    pub fn capture(window: &Window, include_screen: bool) -> (r: Option<WindowSnapshot>)
        requires
            window@.wf(),
        ensures
            match r {
                Some(s) => captured_window(window@, include_screen) == Some(s@),
                None => captured_window(window@, include_screen) is None,
            },
    {
        let tree = match local_part(window, window.root()) {
            Some(t) => t,
            None => {
                return None;
            },
        };
        let mut ids: Vec<PaneId> = Vec::new();
        tree.leaves(&mut ids);
        assert(ids@ =~= leaves_of(tree));
        let mut panes: Vec<PaneRecord> = Vec::new();
        let mut i: usize = 0;
        while i < ids.len()
            invariant
                i <= ids@.len(),
                window@.wf(),
                panes@.len() == i,
                forall|j: int|
                    0 <= j < i ==> (#[trigger] records_view(panes@)[j]) == record_of(
                        window@,
                        ids@[j],
                        include_screen,
                    ),
            decreases ids@.len() - i,
        {
            let record = match window.pane(ids[i]) {
                Some(p) => {
                    proof {
                        crate::mux::window::lemma_pane_index(window@.panes, ids@[i as int], 0);
                    }
                    let screen = if include_screen {
                        screen_lines(p)
                    } else {
                        let none: Vec<String> = Vec::new();
                        assert(texts_view(none@) =~= Seq::empty());
                        none
                    };
                    PaneRecord { cwd: p.cwd(), screen }
                },
                None => {
                    let none: Vec<String> = Vec::new();
                    assert(texts_view(none@) =~= Seq::empty());
                    PaneRecord { cwd: None, screen: none }
                },
            };
            let ghost before = panes@;
            panes.push(record);
            assert forall|j: int| 0 <= j < i + 1 implies (#[trigger] records_view(panes@)[j])
                == record_of(window@, ids@[j], include_screen) by {
                if j < i {
                    assert(records_view(panes@)[j] == records_view(before)[j]);
                }
            }
            i = i + 1;
        }
        assert(records_view(panes@) =~= Seq::new(
            ids@.len(),
            |j: int| record_of(window@, ids@[j], include_screen),
        ));
        let layout = node_to_snapshot(&tree, ids.as_slice());
        let active: usize = index_in(ids.as_slice(), window.active_id());
        Some(
            WindowSnapshot {
                panes,
                layout,
                active,
                name: window.name(),
                group: window.group(),
                color: window.color(),
                pr: match window.pr() {
                    Some(badge) => Some(badge.copy()),
                    None => None,
                },
                workspace_dir: window.workspace_dir(),
            },
        )
    }

    /// The directory in which the pane of the `i`-th record starts again: the window's own where
    /// it has one, and the pane's last directory otherwise.
    pub fn start_dir(&self, i: usize) -> (dir: Option<String>)
        requires
            i < self.panes@.len(),
        ensures
            opt_text(dir) == start_dir_of(self@, i as int),
    {
        match &self.workspace_dir {
            Some(dir) => Some(dir.clone()),
            None => clone_opt(&self.panes[i].cwd),
        }
    }
}

impl SessionSnapshot {
    /// Saves a session, screen text included.
    pub fn capture(session: &Session) -> (r: SessionSnapshot)
        requires
            session@.wf(),
        ensures
            r@ == captured(session@, true),
    {
        SessionSnapshot::capture_with(session, true)
    }

    /// Saves a session. Remote panes are left out, and windows without local panes are dropped.
    /// `include_screen` says whether the records carry screen text.
    pub fn capture_with(session: &Session, include_screen: bool) -> (r: SessionSnapshot)
        requires
            session@.wf(),
        ensures
            r@ == captured(session@, include_screen),
    {
        let mut windows: Vec<WindowSnapshot> = Vec::new();
        let mut active: usize = 0;
        let all = session.windows();
        let at: usize = session.active_index();
        let ghost ws = session@.windows;
        assert(saved_windows(windows@) =~= Seq::empty());
        let mut i: usize = 0;
        while i < all.len()
            invariant
                i <= all@.len(),
                session@.wf(),
                ws == session@.windows,
                ws == windows_view(all@),
                at == session@.active,
                saved_windows(windows@) == captured_windows(ws, include_screen, i as int),
                active == (if at < i && captured_window(ws[at as int], include_screen) is Some {
                    captured_windows(ws, include_screen, at as int).len()
                } else {
                    0
                }),
            decreases all@.len() - i,
        {
            assert(ws[i as int].wf());
            if let Some(snap) = WindowSnapshot::capture(&all[i], include_screen) {
                if i == at {
                    active = windows.len();
                }
                let ghost before = windows@;
                windows.push(snap);
                assert(saved_windows(windows@) =~= saved_windows(before).push(snap@));
            }
            i = i + 1;
        }
        SessionSnapshot { version: SNAPSHOT_VERSION, active, windows }
    }
}

// ---------------------------------------------------------------------------
// Restoring.
// ---------------------------------------------------------------------------

/// Why a snapshot cannot be restored.
#[derive(Debug, Clone, Copy, PartialEq, Eq, Structural)]
pub enum RestoreError {
    /// A saved window holds no panes.
    NoPanes,
}

impl RestoreError {
    /// The error in words.
    pub fn message(&self) -> (s: String)
        ensures
            s@ == "window snapshot has no panes"@,
    {
        String::from_str("window snapshot has no panes")
    }
}

/// The pane of an index; the first one where there is none.
pub open spec fn id_at(ids: Seq<PaneId>, i: nat) -> PaneId {
    if i < ids.len() {
        ids[i as int]
    } else {
        ids[0]
    }
}

/// A saved tree over the panes of a list.
pub open spec fn rebuilt(s: NodeSnapshot, ids: Seq<PaneId>) -> Node
    decreases s,
{
    match s {
        NodeSnapshot::Leaf(i) => Node::Leaf(id_at(ids, i as nat)),
        NodeSnapshot::Split { horizontal, ratio, a, b } => Node::Split {
            dir: if horizontal {
                SplitDir::Horizontal
            } else {
                SplitDir::Vertical
            },
            ratio,
            a: Box::new(rebuilt(*a, ids)),
            b: Box::new(rebuilt(*b, ids)),
        },
    }
}

/// The ids of panes.
pub open spec fn ids_of(panes: Seq<PaneView>) -> Seq<PaneId> {
    Seq::new(panes.len(), |i: int| panes[i].id)
}

/// A saved setting, set again.
pub open spec fn set_again(s: Option<Seq<char>>) -> Option<Seq<char>> {
    match s {
        Some(t) => setting(t),
        None => None,
    }
}

/// The window that a snapshot and one pane per record make.
pub open spec fn restored_window(
    s: WindowSnapshotView,
    panes: Seq<PaneView>,
    id: WindowId,
) -> WindowView {
    let ids = ids_of(panes);
    WindowView {
        name: set_again(s.name),
        group: set_again(s.group),
        color: set_again(s.color),
        pr: s.pr,
        workspace_dir: set_again(s.workspace_dir),
        ..plain_window(
            id,
            inserted_all(Seq::empty(), panes),
            rebuilt(s.layout, ids),
            id_at(ids, s.active),
        )
    }
}

/// The mathematical values of panes by window.
pub open spec fn panes_by_window(panes: Seq<Vec<Pane>>) -> Seq<Seq<PaneView>> {
    Seq::new(panes.len(), |i: int| panes_view(panes[i]@))
}

/// The windows that saved windows and one pane per record make, with window ids from `start` on.
pub open spec fn restored_windows(
    saved: Seq<WindowSnapshotView>,
    panes: Seq<Seq<PaneView>>,
    start: u64,
) -> Seq<WindowView> {
    Seq::new(
        saved.len(),
        |i: int| restored_window(saved[i], panes[i], WindowId(after_n(start, i as nat))),
    )
}

/// The saved tree over the panes of `ids`.
pub fn snapshot_to_node(snap: &NodeSnapshot, ids: &[PaneId]) -> (n: Node)
    requires
        ids@.len() > 0,
    ensures
        n == rebuilt(*snap, ids@),
    decreases snap,
{
    match snap {
        NodeSnapshot::Leaf(i) => Node::Leaf(
            if *i < ids.len() {
                ids[*i]
            } else {
                ids[0]
            },
        ),
        NodeSnapshot::Split { horizontal, ratio, a, b } => Node::Split {
            dir: if *horizontal {
                SplitDir::Horizontal
            } else {
                SplitDir::Vertical
            },
            ratio: *ratio,
            a: Box::new(snapshot_to_node(a, ids)),
            b: Box::new(snapshot_to_node(b, ids)),
        },
    }
}

impl WindowSnapshot {
    /// The window that this snapshot describes, with one started pane per record.
    pub fn restore(&self, ids: &mut Ids, panes: Vec<Pane>) -> (r: Result<Window, RestoreError>)
        requires
            all_wf(panes_view(panes@)),
        ensures
            panes@.len() == 0 ==> r == Err::<Window, RestoreError>(RestoreError::NoPanes)
                && *final(ids) == *old(ids),
            panes@.len() > 0 ==> {
                &&& r is Ok
                &&& r->Ok_0@ == restored_window(
                    self@,
                    panes_view(panes@),
                    WindowId(old(ids).window),
                )
                &&& r->Ok_0@.wf()
                &&& *final(ids) == (Ids { window: after(old(ids).window), ..*old(ids) })
            },
    {
        if panes.len() == 0 {
            return Err(RestoreError::NoPanes);
        }
        let mut pane_ids: Vec<PaneId> = Vec::new();
        let mut i: usize = 0;
        while i < panes.len()
            invariant
                i <= panes@.len(),
                pane_ids@.len() == i,
                forall|j: int| 0 <= j < i ==> #[trigger] pane_ids@[j] == panes@[j]@.id,
            decreases panes@.len() - i,
        {
            pane_ids.push(panes[i].pane_id());
            i = i + 1;
        }
        assert(pane_ids@ =~= ids_of(panes_view(panes@)));
        let root = snapshot_to_node(&self.layout, pane_ids.as_slice());
        let active = if self.active < pane_ids.len() {
            pane_ids[self.active]
        } else {
            pane_ids[0]
        };
        let mut window = Window::from_parts(ids, panes, root, active);
        if let Some(name) = &self.name {
            window.set_name(name.clone());
        }
        if let Some(group) = &self.group {
            window.set_group(group.clone());
        }
        if let Some(color) = &self.color {
            window.set_color(color.clone());
        }
        if let Some(badge) = &self.pr {
            window.set_pr(Some(badge.copy()));
        }
        if let Some(dir) = &self.workspace_dir {
            window.set_workspace_dir(dir.clone());
        }
        Ok(window)
    }
}

impl SessionSnapshot {
    /// The session that this snapshot describes, with one started pane per record of each window.
    /// It fails where a saved window has no panes.
    pub fn restore(&self, ids: &mut Ids, name: String, panes: Vec<Vec<Pane>>) -> (r: Result<
        Session,
        RestoreError,
    >)
        requires
            panes@.len() == self.windows@.len(),
            forall|i: int|
                0 <= i < panes@.len() ==> panes@[i]@.len()
                    == (#[trigger] self.windows@[i]).panes@.len(),
            forall|i: int| 0 <= i < panes@.len() ==> all_wf(panes_view((#[trigger] panes@[i])@)),
        ensures
            r is Err == exists|i: int|
                0 <= i < self@.windows.len() && (#[trigger] self@.windows[i]).panes.len() == 0,
            r matches Ok(s) ==> {
                &&& s@ == (SessionView {
                    id: SessionId(old(ids).session),
                    name: name@,
                    windows: restored_windows(
                        self@.windows,
                        panes_by_window(panes@),
                        old(ids).window,
                    ),
                    active: clamp_index(self@.active, self@.windows.len()),
                })
                &&& s@.wf()
                &&& *final(ids) == (Ids {
                    session: after(old(ids).session),
                    window: after_n(old(ids).window, self@.windows.len()),
                    ..*old(ids)
                })
            },
    {
        let ghost start = ids.window;
        let ghost given = panes_by_window(panes@);
        let ghost want = restored_windows(self@.windows, given, start);
        let mut rest = panes;
        let mut queue: Vec<Vec<Pane>> = Vec::new();
        let ghost n = panes@.len();
        while rest.len() > 0
            invariant
                rest@.len() + queue@.len() == n,
                n == panes@.len(),
                rest@ =~= panes@.take(rest@.len() as int),
                forall|i: int| 0 <= i < queue@.len() ==> #[trigger] queue@[i] == panes@[n - 1 - i],
            decreases rest@.len(),
        {
            let p = rest.pop().unwrap();
            queue.push(p);
        }
        let mut windows: Vec<Window> = Vec::new();
        let mut i: usize = 0;
        while i < self.windows.len()
            invariant
                i <= self.windows@.len(),
                n == panes@.len(),
                n == self.windows@.len(),
                given == panes_by_window(panes@),
                want == restored_windows(self@.windows, given, start),
                forall|j: int|
                    0 <= j < panes@.len() ==> panes@[j]@.len() == (
                    #[trigger] self.windows@[j]).panes@.len(),
                forall|j: int|
                    0 <= j < panes@.len() ==> all_wf(panes_view((#[trigger] panes@[j])@)),
                queue@.len() == n - i,
                forall|j: int| 0 <= j < queue@.len() ==> #[trigger] queue@[j] == panes@[n - 1 - j],
                windows@.len() == i,
                forall|j: int|
                    0 <= j < i ==> (#[trigger] windows_view(windows@)[j]) == want[j]
                        && want[j].wf(),
                forall|j: int| 0 <= j < i ==> (#[trigger] self@.windows[j]).panes.len() > 0,
                *ids == (Ids { window: after_n(start, i as nat), ..*old(ids) }),
            decreases self.windows@.len() - i,
        {
            let ghost last = queue@[queue@.len() - 1];
            let own = queue.pop().unwrap();
            assert(own == panes@[i as int]);
            assert(given[i as int] == panes_view(own@));
            assert(own@.len() == self.windows@[i as int].panes@.len());
            let w = match self.windows[i].restore(ids, own) {
                Ok(w) => w,
                Err(e) => {
                    assert(self@.windows[i as int].panes.len() == 0);
                    return Err(e);
                },
            };
            let ghost before = windows@;
            windows.push(w);
            assert(want[i as int] == w@);
            assert forall|j: int| 0 <= j < i + 1 implies (#[trigger] windows_view(windows@)[j])
                == want[j] && want[j].wf() by {
                if j < i {
                    assert(windows_view(windows@)[j] == windows_view(before)[j]);
                }
            }
            i = i + 1;
        }
        assert(windows_view(windows@) =~= want);
        Ok(Session::from_windows(ids, name, windows, self.active))
    }
}

// ---------------------------------------------------------------------------
// Laws.
// ---------------------------------------------------------------------------

/// Whether no pane occurs twice in a list.
pub open spec fn no_repeats(ids: Seq<PaneId>) -> bool {
    forall|i: int, j: int| 0 <= i < j < ids.len() ==> #[trigger] ids[i] != #[trigger] ids[j]
}

proof fn lemma_last_index(ids: Seq<PaneId>, i: int, n: int)
    requires
        no_repeats(ids),
        0 <= i < n <= ids.len(),
    ensures
        last_index(ids, ids[i], n) == i,
    decreases n,
{
    if i != n - 1 {
        assert(ids[i] != ids[n - 1]);
        lemma_last_index(ids, i, n - 1);
    }
}

/// A saved tree, rebuilt over new panes, has the shape and the ratios from before, and the new
/// panes stand where the old ones stood.
pub proof fn rebuilding_keeps_the_layout(n: Node, new: Seq<PaneId>)
    requires
        no_repeats(leaves_of(n)),
        new.len() == leaves_of(n).len(),
        new.len() <= usize::MAX,
    ensures
        same_shape(rebuilt(indexed(n, leaves_of(n)), new), n),
        leaves_of(rebuilt(indexed(n, leaves_of(n)), new)) == new,
{
    let ids = leaves_of(n);
    assert(ids.subrange(0, ids.len() as int) =~= ids);
    lemma_rebuilt(n, ids, new, 0);
    assert(new.subrange(0, new.len() as int) =~= new);
}

proof fn lemma_rebuilt(n: Node, ids: Seq<PaneId>, new: Seq<PaneId>, at: int)
    requires
        no_repeats(ids),
        new.len() == ids.len(),
        new.len() <= usize::MAX,
        0 <= at,
        at + leaves_of(n).len() <= ids.len(),
        ids.subrange(at, at + leaves_of(n).len()) == leaves_of(n),
    ensures
        same_shape(rebuilt(indexed(n, ids), new), n),
        leaves_of(rebuilt(indexed(n, ids), new)) == new.subrange(at, at + leaves_of(n).len()),
    decreases n,
{
    let l = leaves_of(n);
    match n {
        Node::Leaf(id) => {
            assert(ids.subrange(at, at + l.len())[0] == id);
            lemma_last_index(ids, at, ids.len() as int);
            assert(seq![new[at]] =~= new.subrange(at, at + 1));
        },
        Node::Split { dir, ratio, a, b } => {
            let (la, lb) = (leaves_of(*a), leaves_of(*b));
            assert(ids.subrange(at, at + la.len()) =~= la) by {
                assert forall|i: int| 0 <= i < la.len() implies ids.subrange(at, at + la.len())[i]
                    == la[i] by {
                    assert(ids.subrange(at, at + l.len())[i] == l[i]);
                }
            }
            let mid = at + la.len();
            assert(ids.subrange(mid, mid + lb.len()) =~= lb) by {
                assert forall|i: int| 0 <= i < lb.len() implies ids.subrange(
                    mid,
                    mid + lb.len(),
                )[i] == lb[i] by {
                    assert(ids.subrange(at, at + l.len())[la.len() + i] == l[la.len() + i]);
                }
            }
            lemma_rebuilt(*a, ids, new, at);
            lemma_rebuilt(*b, ids, new, mid);
            assert(new.subrange(at, mid) + new.subrange(mid, mid + lb.len()) =~= new.subrange(
                at,
                at + l.len(),
            ));
        },
    }
}

proof fn lemma_local_leaves(w: WindowView, n: Node)
    requires
        no_repeats(leaves_of(n)),
    ensures
        local_tree(w, n) matches Some(t) ==> {
            &&& leaves_of(t).len() > 0
            &&& no_repeats(leaves_of(t))
            &&& forall|i: int|
                0 <= i < leaves_of(t).len() ==> leaves_of(n).contains(#[trigger] leaves_of(t)[i])
        },
    decreases n,
{
    match n {
        Node::Leaf(id) => {
            assert(leaves_of(n)[0] == id);
        },
        Node::Split { dir, ratio, a, b } => {
            let (la, lb) = (leaves_of(*a), leaves_of(*b));
            let all = la + lb;
            assert(leaves_of(n) == all);
            assert forall|i: int, j: int| 0 <= i < j < la.len() implies #[trigger] la[i]
                != #[trigger] la[j] by {
                assert(all[i] == la[i] && all[j] == la[j]);
            }
            assert forall|i: int, j: int| 0 <= i < j < lb.len() implies #[trigger] lb[i]
                != #[trigger] lb[j] by {
                assert(all[la.len() + i] == lb[i] && all[la.len() + j] == lb[j]);
            }
            lemma_local_leaves(w, *a);
            lemma_local_leaves(w, *b);
            assert forall|x: PaneId| la.contains(x) implies all.contains(x) by {
                let i = choose|i: int| 0 <= i < la.len() && la[i] == x;
                assert(all[i] == x);
            }
            assert forall|x: PaneId| lb.contains(x) implies all.contains(x) by {
                let i = choose|i: int| 0 <= i < lb.len() && lb[i] == x;
                assert(all[la.len() + i] == x);
            }
            if let (Some(x), Some(y)) = (local_tree(w, *a), local_tree(w, *b)) {
                let (lx, ly) = (leaves_of(x), leaves_of(y));
                let t = lx + ly;
                assert(leaves_of(local_tree(w, n)->0) == t);
                assert forall|i: int, j: int| 0 <= i < j < t.len() implies #[trigger] t[i]
                    != #[trigger] t[j] by {
                    if i < lx.len() && j >= lx.len() {
                        let (p, q) = (lx[i], ly[j - lx.len()]);
                        let k = choose|k: int| 0 <= k < la.len() && la[k] == p;
                        let m = choose|m: int| 0 <= m < lb.len() && lb[m] == q;
                        assert(all[k] == p && all[la.len() + m] == q);
                    } else if i < lx.len() {
                        assert(t[i] == lx[i] && t[j] == lx[j]);
                    } else {
                        assert(t[i] == ly[i - lx.len()] && t[j] == ly[j - lx.len()]);
                    }
                }
            }
        },
    }
}

/// A window that was saved comes back whole over panes of its own: its tree has the shape of what
/// was local, the panes stand in its leaves in order, and the pane that was active is so again.
pub proof fn a_saved_window_comes_back_whole(
    w: WindowView,
    include_screen: bool,
    panes: Seq<PaneView>,
    id: WindowId,
)
    requires
        no_repeats(leaves_of(w.root)),
        captured_window(w, include_screen) is Some,
        panes.len() == captured_window(w, include_screen)->0.panes.len(),
        panes.len() <= usize::MAX,
        distinct(panes),
        all_wf(panes),
    ensures
        ({
            let r = restored_window(captured_window(w, include_screen)->0, panes, id);
            let tree = local_tree(w, w.root)->0;
            &&& r.complete()
            &&& same_shape(r.root, tree)
            &&& leaves_of(r.root) == ids_of(panes)
            &&& forall|i: int|
                0 <= i < panes.len() && (#[trigger] leaves_of(tree)[i]) == w.active ==> r.active
                    == panes[i].id
        }),
{
    let c = captured_window(w, include_screen)->0;
    let r = restored_window(c, panes, id);
    let tree = local_tree(w, w.root)->0;
    let ids = leaves_of(tree);
    let new = ids_of(panes);
    lemma_local_leaves(w, w.root);
    rebuilding_keeps_the_layout(tree, new);
    lemma_inserted_all(Seq::empty(), panes);
    assert(!holds(Seq::empty(), r.active));
    assert forall|x: PaneId| #[trigger] has_leaf(r.root, x) == holds(r.panes, x) by {
        lemma_has_leaf(r.root, x);
        lemma_holds(panes, x);
        assert(!holds(Seq::empty(), x));
        if new.contains(x) {
            let i = choose|i: int| 0 <= i < new.len() && new[i] == x;
            assert(panes[i].id == x);
        }
        if holds(panes, x) {
            let i = choose|i: int| 0 <= i < panes.len() && (#[trigger] panes[i]).id == x;
            assert(new[i] == x);
        }
    }
    assert(r.active == id_at(new, c.active));
    assert(new.contains(r.active)) by {
        if c.active < new.len() {
            assert(new[c.active as int] == r.active);
        } else {
            assert(new[0] == r.active);
        }
    }
    lemma_has_leaf(r.root, r.active);
    assert(has_leaf(r.root, r.active) == holds(r.panes, r.active));
    assert forall|i: int| 0 <= i < panes.len() && (#[trigger] ids[i]) == w.active implies r.active
        == panes[i].id by {
        lemma_last_index(ids, i, ids.len() as int);
    }
}

/// Saving keeps the order of the windows that it keeps: each stands behind all that stood before
/// it. The active window is saved as the active one.
pub proof fn saved_windows_keep_order_and_focus(s: SessionView, include_screen: bool, i: int)
    requires
        0 <= i < s.windows.len(),
        captured_window(s.windows[i], include_screen) is Some,
    ensures
        ({
            let saved = captured(s, include_screen);
            let at = captured_windows(s.windows, include_screen, i).len();
            &&& at < saved.windows.len()
            &&& saved.windows[at as int] == captured_window(s.windows[i], include_screen)->0
            &&& saved.windows.take(at as int) == captured_windows(s.windows, include_screen, i)
            &&& i == s.active ==> saved.active == at
        }),
{
    lemma_captured_prefix(s.windows, include_screen, i + 1, s.windows.len() as int);
    let front = captured_windows(s.windows, include_screen, i);
    let next = captured_windows(s.windows, include_screen, i + 1);
    let all = captured(s, include_screen).windows;
    assert(next == front.push(captured_window(s.windows[i], include_screen)->0));
    assert(all.take(next.len() as int)[front.len() as int] == next[front.len() as int]);
    assert(all.take(front.len() as int) =~= next.take(front.len() as int));
    assert(next.take(front.len() as int) =~= front);
}

proof fn lemma_captured_prefix(windows: Seq<WindowView>, include_screen: bool, i: int, n: int)
    requires
        0 <= i <= n,
    ensures
        captured_windows(windows, include_screen, i).len() <= captured_windows(
            windows,
            include_screen,
            n,
        ).len(),
        captured_windows(windows, include_screen, n).take(
            captured_windows(windows, include_screen, i).len() as int,
        ) == captured_windows(windows, include_screen, i),
    decreases n,
{
    let front = captured_windows(windows, include_screen, i);
    let all = captured_windows(windows, include_screen, n);
    if i < n {
        lemma_captured_prefix(windows, include_screen, i, n - 1);
        let most = captured_windows(windows, include_screen, n - 1);
        assert(all.take(front.len() as int) =~= most.take(front.len() as int));
    } else {
        assert(all.take(front.len() as int) =~= front);
    }
}

/// What a user set on a window (its name, group, color, pull request badge and directory) survives
/// saving and restoring.
pub proof fn settings_survive_saving(
    w: WindowView,
    include_screen: bool,
    panes: Seq<PaneView>,
    id: WindowId,
)
    requires
        w.wf(),
        captured_window(w, include_screen) is Some,
    ensures
        ({
            let r = restored_window(captured_window(w, include_screen)->0, panes, id);
            &&& r.name == w.name
            &&& r.group == w.group
            &&& r.color == w.color
            &&& r.pr == w.pr
            &&& r.workspace_dir == w.workspace_dir
        }),
{
}

/// Every pane of a window with a directory starts there again.
pub proof fn restored_panes_start_in_the_workspace(w: WindowView, include_screen: bool, i: int)
    requires
        w.workspace_dir is Some,
        captured_window(w, include_screen) is Some,
        0 <= i < captured_window(w, include_screen)->0.panes.len(),
    ensures
        start_dir_of(captured_window(w, include_screen)->0, i) == w.workspace_dir,
{
}

/// A snapshot taken without screen text holds no line of any pane's screen.
pub proof fn no_screen_text_is_saved_unasked(w: WindowView, i: int)
    requires
        captured_window(w, false) is Some,
        0 <= i < captured_window(w, false)->0.panes.len(),
    ensures
        captured_window(w, false)->0.panes[i].screen.len() == 0,
{
}

/// No remote pane is saved: every leaf of what is saved is local, in the order of the tree.
pub proof fn remote_panes_are_not_saved(w: WindowView, n: Node, i: int)
    requires
        local_tree(w, n) is Some,
        0 <= i < leaves_of(local_tree(w, n)->0).len(),
    ensures
        is_local(w, leaves_of(local_tree(w, n)->0)[i]),
    decreases n,
{
    match n {
        Node::Leaf(_) => {},
        Node::Split { dir, ratio, a, b } => {
            match (local_tree(w, *a), local_tree(w, *b)) {
                (Some(x), Some(y)) => {
                    if i < leaves_of(x).len() {
                        remote_panes_are_not_saved(w, *a, i);
                    } else {
                        remote_panes_are_not_saved(w, *b, i - leaves_of(x).len());
                    }
                },
                (Some(x), None) => remote_panes_are_not_saved(w, *a, i),
                (None, Some(y)) => remote_panes_are_not_saved(w, *b, i),
                (None, None) => {},
            }
        },
    }
}

} // verus!
