//! One remote tmux session mirrored into a local session: one local window per remote window, one
//! remote-backed pane per remote pane.
//!
//! [`RemoteAttachment::pump`] forwards queued keystrokes, builds the first windows from the listing
//! that attaching asks for, mirrors output into panes, rebuilds a window's split tree when its
//! layout changes (the remote layout is authoritative), and tears everything down when the peer
//! says goodbye or its output ends.
use vstd::prelude::*;
use vstd::string::*;

use crate::lists::reversed;
#[allow(unused_imports)]
use crate::mux::ids::after;
use crate::mux::ids::{Ids, PaneId, WindowId};
use crate::mux::layout::{Node, SplitDir};
#[allow(unused_imports)]
use crate::mux::layout::{first_of, has_leaf, leaves_of, lemma_first_is_leaf, lemma_has_leaf};
use crate::mux::pane::Pane;
#[allow(unused_imports)]
use crate::mux::pane::{
    lemma_pumped_keeps_identity, marked_exited, pumped as pane_pumped, remote_pane, Backend,
    PaneView,
};
#[allow(unused_imports)]
use crate::mux::persist::ids_of;
use crate::mux::session::Session;
#[allow(unused_imports)]
use crate::mux::session::{
    extracted, lemma_pane_of, lemma_with_pane, pane_of, pushed_window, window_index, with_pane,
    without_window, SessionView,
};
use crate::mux::window::Window;
#[allow(unused_imports)]
use crate::mux::window::{
    all_wf, holds, inserted_all, lemma_holds, lemma_inserted_all, lemma_pushed, panes_view,
    plain_window, pruned, with_tree,
};
use crate::remote::convert::{is_divided, layout_to_node, leaf_sizes, LeafSize};
#[allow(unused_imports)]
use crate::remote::convert::{divided, is_share, leaves, lemma_share, share_of, tree_of};
use crate::pairs::{find_key, get, insert, remove};
#[allow(unused_imports)]
use crate::pairs::{key_index, key_of, lemma_key_index, lookup, put, without_key, Pairs};
use crate::remote::replies::{is_too_old, parse_enum_line, parse_version, Listed};
#[allow(unused_imports)]
use crate::remote::replies::{listed, too_old, version_of};
use crate::remote::transport::{RemoteTmux, TransportEvent};
#[allow(unused_imports)]
use crate::remote::transport::{
    commanded, connected, ended, keys_command, received, size_command, split_command,
    transport_events_view, TransportEventView, TransportView,
};
use crate::text::{clone_opt, lossy};
#[allow(unused_imports)]
use crate::text::{dec, lines_view, opt_text, texts_view, utf8_lossy};
use crate::tmux::layout::Layout;
#[allow(unused_imports)]
use crate::tmux::layout::LayoutView;
use crate::tmux::parser::{Event, Notification};
#[allow(unused_imports)]
use crate::tmux::parser::{EventView, NotificationView};
#[allow(unused_imports)]
use crate::vt::terminal::at_least;

verus! {

/// Asks for one `@window %pane cols rows` line per remote pane. Only the first inventory comes from
/// this; the layouts that tmux sends right after attaching say how panes are laid out.
pub const ENUMERATE: &'static str = "list-panes -a -F '#{window_id} #{pane_id} #{pane_width} #{pane_height}'";

/// Asks for the remote server's version.
pub const VERSION: &'static str = "display-message -p '#{version}'";

/// The mathematical value of a [`RemoteAttachment`].
pub struct AttachmentView {
    pub transport: TransportView,
    /// Keystrokes that wait to be forwarded, with the remote pane they go to.
    pub input: Seq<(u64, Seq<u8>)>,
    /// The local pane that mirrors each remote pane.
    pub panes: Pairs<u64>,
    /// The local window that mirrors each remote window. Window ids are not reused, so a stale
    /// entry can only miss.
    pub windows: Pairs<u64>,
    /// Sequence number of the listing, until it is answered.
    pub enumeration: Option<u64>,
    /// Sequence number of the version query, until it is answered.
    pub version_cmd: Option<u64>,
    /// The remote version, once it is known.
    pub version: Option<(u32, u32)>,
    /// Whether flow control is off: the version is unknown or too old.
    pub degraded: bool,
    /// Replies applied so far.
    pub replies_seen: u64,
    /// Whether the conversation is over.
    pub finished: bool,
    /// What the last pump has to tell the user.
    pub warning: Option<Seq<char>>,
}

/// An attachment, the session that it mirrors into, and the id counters.
pub struct Mirror {
    pub att: AttachmentView,
    pub session: SessionView,
    pub ids: Ids,
}

/// One live remote session.
pub struct RemoteAttachment {
    transport: RemoteTmux,
    input: Vec<(u64, Vec<u8>)>,
    panes: Vec<(u64, u64)>,
    windows: Vec<(u64, u64)>,
    enumeration: Option<u64>,
    version_cmd: Option<u64>,
    version: Option<(u32, u32)>,
    degraded: bool,
    replies_seen: u64,
    finished: bool,
    warning: Option<String>,
}

/// The mathematical values of queued keystrokes.
pub open spec fn input_view(input: Seq<(u64, Vec<u8>)>) -> Seq<(u64, Seq<u8>)> {
    Seq::new(input.len(), |i: int| (input[i].0, input[i].1@))
}

/// A new attachment: it has asked for the version and for the listing.
pub open spec fn attached() -> AttachmentView {
    AttachmentView {
        transport: commanded(commanded(connected(), VERSION@), ENUMERATE@),
        input: Seq::empty(),
        panes: Seq::empty(),
        windows: Seq::empty(),
        enumeration: Some(1),
        version_cmd: Some(0),
        version: None,
        degraded: true,
        replies_seen: 0,
        finished: false,
        warning: None,
    }
}

// ---------------------------------------------------------------------------
// New panes and windows.
// ---------------------------------------------------------------------------

/// Panes under construction.
pub struct Build {
    pub ids: Ids,
    pub map: Pairs<u64>,
    pub panes: Seq<PaneView>,
}

/// One more mirror of a remote pane.
pub open spec fn made(b: Build, remote: u64, cols: u16, rows: u16) -> Build {
    Build {
        ids: Ids { pane: after(b.ids.pane), ..b.ids },
        map: put(b.map, remote, b.ids.pane),
        panes: b.panes.push(
            remote_pane(PaneId(b.ids.pane), remote, at_least(cols, 1), at_least(rows, 1)),
        ),
    }
}

/// A chain of side-by-side splits over the panes from index `at` on; `g` gives the bits of an equal
/// share.
pub open spec fn even_tree(ids: Seq<PaneId>, at: int, g: spec_fn(u64, u64) -> u32) -> Node
    decreases ids.len() - at,
{
    if at + 1 >= ids.len() {
        Node::Leaf(ids[at])
    } else {
        Node::Split {
            dir: SplitDir::Horizontal,
            ratio: g(1, (ids.len() - at) as u64),
            a: Box::new(Node::Leaf(ids[at])),
            b: Box::new(even_tree(ids, at + 1, g)),
        }
    }
}

/// The local window of a remote one, appended to the session.
pub open spec fn placed(m: Mirror, window: u64, panes: Seq<PaneView>, root: Node) -> Mirror {
    let id = WindowId(m.ids.window);
    Mirror {
        att: AttachmentView { windows: put(m.att.windows, window, id.0), ..m.att },
        session: pushed_window(
            m.session,
            plain_window(id, inserted_all(Seq::empty(), panes), root, first_of(root)),
        ),
        ids: Ids { window: after(m.ids.window), ..m.ids },
    }
}

// ---------------------------------------------------------------------------
// Replies.
// ---------------------------------------------------------------------------

/// The panes that the first `n` lines list. Other lines are skipped.
pub open spec fn listing(body: Seq<Seq<u8>>, n: int) -> Seq<Listed>
    decreases n,
{
    if n <= 0 {
        Seq::empty()
    } else {
        match listed(body[n - 1]) {
            Some(l) => listing(body, n - 1).push(l),
            None => listing(body, n - 1),
        }
    }
}

/// The panes of one window among the first `n` listed.
pub open spec fn built(b: Build, all: Seq<Listed>, window: u64, n: int) -> Build
    decreases n,
{
    if n <= 0 {
        b
    } else {
        let p = built(b, all, window, n - 1);
        if all[n - 1].0 == window {
            made(p, all[n - 1].1, all[n - 1].2, all[n - 1].3)
        } else {
            p
        }
    }
}

/// A window built from the listing, with panes of equal width.
pub open spec fn window_built(
    m: Mirror,
    all: Seq<Listed>,
    window: u64,
    g: spec_fn(u64, u64) -> u32,
) -> Mirror {
    let b = built(
        Build { ids: m.ids, map: m.att.panes, panes: Seq::empty() },
        all,
        window,
        all.len() as int,
    );
    if b.panes.len() == 0 {
        m
    } else {
        placed(
            Mirror { att: AttachmentView { panes: b.map, ..m.att }, ids: b.ids, ..m },
            window,
            b.panes,
            even_tree(ids_of(b.panes), 0, g),
        )
    }
}

/// The windows of the first `n` listed panes. A window that is already mirrored is left alone: its
/// layout came before the listing.
pub open spec fn enumerated(
    m: Mirror,
    all: Seq<Listed>,
    n: int,
    g: spec_fn(u64, u64) -> u32,
) -> Mirror
    decreases n,
{
    if n <= 0 {
        m
    } else {
        let p = enumerated(m, all, n - 1, g);
        let window = all[n - 1].0;
        if lookup(p.att.windows, window) is Some {
            p
        } else {
            window_built(p, all, window, g)
        }
    }
}

/// What a version reply says, as text.
pub open spec fn version_text(body: Seq<Seq<u8>>, error: bool) -> Option<Seq<char>> {
    if !error && body.len() > 0 {
        Some(utf8_lossy(body[0]))
    } else {
        None
    }
}

/// That a remote server lacks flow control, in words.
pub open spec fn flow_warning(text: Option<Seq<char>>) -> Seq<char> {
    "gmux: remote tmux version "@ + (match text {
        Some(t) => t,
        None => "<unknown>"@,
    }) + " lacks flow control (need 3.2); running degraded (no %pause auto-continue)"@
}

/// What the version reply does. An error, an unreadable version or an old one leaves flow control
/// off, of which the user is warned.
pub open spec fn versioned(a: AttachmentView, body: Seq<Seq<u8>>, error: bool) -> AttachmentView {
    let text = version_text(body, error);
    let version = match text {
        Some(t) => version_of(t),
        None => None,
    };
    let degraded = match version {
        Some(v) => too_old(v),
        None => true,
    };
    AttachmentView {
        version,
        degraded,
        warning: if degraded {
            Some(flow_warning(text))
        } else {
            a.warning
        },
        ..a
    }
}

/// What a reply does. Replies are positional; only those to the version query and to the listing
/// matter.
pub open spec fn replied(
    m: Mirror,
    body: Seq<Seq<u8>>,
    error: bool,
    g: spec_fn(u64, u64) -> u32,
) -> Mirror {
    let seq = m.att.replies_seen;
    let a = AttachmentView { replies_seen: after(seq), ..m.att };
    if a.version_cmd == Some(seq) {
        Mirror { att: versioned(AttachmentView { version_cmd: None, ..a }, body, error), ..m }
    } else if a.enumeration == Some(seq) {
        let n = Mirror { att: AttachmentView { enumeration: None, ..a }, ..m };
        if error {
            n
        } else {
            let all = listing(body, body.len() as int);
            enumerated(n, all, all.len() as int, g)
        }
    } else {
        Mirror { att: a, ..m }
    }
}

// ---------------------------------------------------------------------------
// Layouts.
// ---------------------------------------------------------------------------

/// Index of a window that may be gone.
pub open spec fn place_of(s: SessionView, target: Option<WindowId>) -> Option<int> {
    match target {
        Some(w) => window_index(s.windows, w, 0),
        None => None,
    }
}

/// Whether a window is there and holds a pane.
pub open spec fn in_window(s: SessionView, target: Option<WindowId>, id: PaneId) -> bool {
    match place_of(s, target) {
        Some(i) => holds(s.windows[i].panes, id),
        None => false,
    }
}

/// Takes the mirrors of the first `n` leaves out of the windows that they were moved away from:
/// the session afterwards, and the panes.
pub open spec fn rehomed(
    map: Pairs<u64>,
    target: Option<WindowId>,
    s: SessionView,
    ls: Seq<LeafSize>,
    n: int,
) -> (SessionView, Seq<PaneView>)
    decreases n,
{
    if n <= 0 {
        (s, Seq::empty())
    } else {
        let (t, out) = rehomed(map, target, s, ls, n - 1);
        match lookup(map, ls[n - 1].0) {
            Some(id) => if in_window(t, target, PaneId(id)) {
                (t, out)
            } else {
                match pane_of(t, PaneId(id)) {
                    Some(p) => (extracted(t, PaneId(id)), out.push(p)),
                    None => (t, out),
                }
            },
            None => (t, out),
        }
    }
}

/// The size of the last of the first `n` leaves that shows a pane.
pub open spec fn size_of(ls: Seq<LeafSize>, pane: u64, n: int) -> (u16, u16)
    decreases n,
{
    if n <= 0 {
        (80, 24)
    } else if ls[n - 1].0 == pane {
        (ls[n - 1].1, ls[n - 1].2)
    } else {
        size_of(ls, pane, n - 1)
    }
}

/// The local panes for the first `n` leaves: the mirror where there is one, else a new pane of the
/// leaf's size.
pub open spec fn picked(
    b: Build,
    s: SessionView,
    target: Option<WindowId>,
    moved: Seq<PaneView>,
    ls: Seq<LeafSize>,
    n: int,
) -> (Build, Seq<PaneId>)
    decreases n,
{
    if n <= 0 {
        (b, Seq::empty())
    } else {
        let (c, chosen) = picked(b, s, target, moved, ls, n - 1);
        let remote = ls[n - 1].0;
        match lookup(c.map, remote) {
            Some(id) if in_window(s, target, PaneId(id)) || holds(moved, PaneId(id)) => (
                c,
                chosen.push(PaneId(id)),
            ),
            _ => {
                let (cols, rows) = size_of(ls, remote, ls.len() as int);
                (made(c, remote, cols, rows), chosen.push(PaneId(c.ids.pane)))
            },
        }
    }
}

/// The pairs without those of the first `n` panes, which are gone.
pub open spec fn forgotten(map: Pairs<u64>, panes: Seq<PaneView>, n: int) -> Pairs<u64>
    decreases n,
{
    if n <= 0 {
        map
    } else {
        let rest = forgotten(map, panes, n - 1);
        match panes[n - 1].remote_id() {
            Some(r) if lookup(rest, r) == Some(panes[n - 1].id.0) => without_key(rest, r),
            _ => rest,
        }
    }
}

/// The local window of a remote one.
pub open spec fn target_of(a: AttachmentView, window: u64) -> Option<WindowId> {
    match lookup(a.windows, window) {
        Some(w) => Some(WindowId(w)),
        None => None,
    }
}

/// What a new layout does. Panes that the remote side moved into this window come out of their old
/// window; panes that are new are created; panes that the layout does not name are forgotten. A
/// window that is not mirrored, or no more, is created.
pub open spec fn laid_out(
    m: Mirror,
    window: u64,
    layout: LayoutView,
    f: spec_fn(u64, u64) -> u32,
) -> Mirror {
    if !divided(layout.root) {
        m
    } else {
        let ls = leaves(layout.root);
        let target = target_of(m.att, window);
        let (s, moved) = rehomed(m.att.panes, target, m.session, ls, ls.len() as int);
        let (b, chosen) = picked(
            Build { ids: m.ids, map: m.att.panes, panes: Seq::empty() },
            s,
            target,
            moved,
            ls,
            ls.len() as int,
        );
        let root = tree_of(layout.root, chosen, 0, f);
        let added = b.panes + moved;
        match place_of(s, target) {
            Some(i) => {
                let gone = pruned(inserted_all(s.windows[i].panes, added), root);
                Mirror {
                    att: AttachmentView {
                        panes: forgotten(b.map, gone, gone.len() as int),
                        ..m.att
                    },
                    session: SessionView {
                        windows: s.windows.update(i, with_tree(s.windows[i], root, added)),
                        ..s
                    },
                    ids: b.ids,
                }
            },
            None => placed(
                Mirror {
                    att: AttachmentView { panes: b.map, ..m.att },
                    session: s,
                    ids: b.ids,
                },
                window,
                added,
                root,
            ),
        }
    }
}

/// What the end of a remote window does.
pub open spec fn window_closed(m: Mirror, window: u64) -> Mirror {
    match lookup(m.att.windows, window) {
        None => m,
        Some(w) => {
            let a = AttachmentView { windows: without_key(m.att.windows, window), ..m.att };
            match window_index(m.session.windows, WindowId(w), 0) {
                None => Mirror { att: a, ..m },
                Some(i) => {
                    let panes = m.session.windows[i].panes;
                    Mirror {
                        att: AttachmentView {
                            panes: forgotten(a.panes, panes, panes.len() as int),
                            ..a
                        },
                        session: without_window(m.session, i),
                        ids: m.ids,
                    }
                },
            }
        },
    }
}

// ---------------------------------------------------------------------------
// Events.
// ---------------------------------------------------------------------------

/// A pane after output that a remote pane wrote; a local pane takes none.
pub open spec fn output_pushed(p: PaneView, bytes: Seq<u8>) -> PaneView {
    match p.backend {
        Backend::Local => p,
        Backend::Remote(_) => pane_pumped(p, bytes),
    }
}

/// What remote output does to a session.
pub open spec fn mirrored_output(s: SessionView, id: PaneId, data: Seq<u8>) -> SessionView {
    match pane_of(s, id) {
        Some(p) => with_pane(s, id, output_pushed(p, data)),
        None => s,
    }
}

/// What a notification does. A paused pane is let go on at once, where flow control is on.
pub open spec fn notified(m: Mirror, n: NotificationView, f: spec_fn(u64, u64) -> u32) -> Mirror {
    match n {
        NotificationView::Output { pane, data } => match lookup(m.att.panes, pane) {
            Some(id) => Mirror { session: mirrored_output(m.session, PaneId(id), data), ..m },
            None => m,
        },
        NotificationView::LayoutChange { window, layout } => laid_out(m, window, layout, f),
        NotificationView::WindowClose { window } => window_closed(m, window),
        NotificationView::Pause { pane } => if m.att.degraded {
            m
        } else {
            Mirror {
                att: AttachmentView {
                    transport: commanded(
                        m.att.transport,
                        "refresh-client -A %"@ + dec(pane as nat) + ":continue"@,
                    ),
                    ..m.att
                },
                ..m
            }
        },
        NotificationView::Exit { .. } => Mirror {
            att: AttachmentView { finished: true, ..m.att },
            ..m
        },
        _ => m,
    }
}

/// What one transport event does.
pub open spec fn applied(
    m: Mirror,
    e: TransportEventView,
    f: spec_fn(u64, u64) -> u32,
    g: spec_fn(u64, u64) -> u32,
) -> Mirror {
    match e {
        TransportEventView::Greeting(_) => m,
        TransportEventView::Eof => Mirror {
            att: AttachmentView { finished: true, ..m.att },
            ..m
        },
        TransportEventView::Ctrl(EventView::Reply { num, body, error }) => replied(
            m,
            body,
            error,
            g,
        ),
        TransportEventView::Ctrl(EventView::Notification(n)) => notified(m, n, f),
    }
}

/// What the first `n` transport events do.
pub open spec fn applied_all(
    m: Mirror,
    es: Seq<TransportEventView>,
    n: int,
    f: spec_fn(u64, u64) -> u32,
    g: spec_fn(u64, u64) -> u32,
) -> Mirror
    decreases n,
{
    if n <= 0 {
        m
    } else {
        applied(applied_all(m, es, n - 1, f, g), es[n - 1], f, g)
    }
}

/// The transport after the first `n` keystrokes were forwarded.
pub open spec fn forwarded(t: TransportView, input: Seq<(u64, Seq<u8>)>, n: int) -> TransportView
    decreases n,
{
    if n <= 0 {
        t
    } else {
        commanded(
            forwarded(t, input, n - 1),
            keys_command(input[n - 1].0, input[n - 1].1),
        )
    }
}

/// A session whose first `n` mirrors are marked as gone.
pub open spec fn all_marked(s: SessionView, map: Pairs<u64>, n: int) -> SessionView
    decreases n,
{
    if n <= 0 {
        s
    } else {
        let t = all_marked(s, map, n - 1);
        let id = PaneId(map[n - 1].1);
        match pane_of(t, id) {
            Some(p) => with_pane(t, id, marked_exited(p)),
            None => t,
        }
    }
}

/// What pumping does, and whether the attachment goes on. A finished attachment marks its mirrors
/// as gone and forgets them.
pub open spec fn pumped(
    m: Mirror,
    f: spec_fn(u64, u64) -> u32,
    g: spec_fn(u64, u64) -> u32,
) -> (Mirror, bool) {
    if m.att.finished {
        (m, false)
    } else {
        let t = forwarded(m.att.transport, m.att.input, m.att.input.len() as int);
        let start = Mirror {
            att: AttachmentView {
                transport: TransportView { queue: Seq::empty(), ..t },
                input: Seq::empty(),
                warning: None,
                ..m.att
            },
            ..m
        };
        let n = applied_all(start, t.queue, t.queue.len() as int, f, g);
        if n.att.finished {
            (
                Mirror {
                    att: AttachmentView { panes: Seq::empty(), windows: Seq::empty(), ..n.att },
                    session: all_marked(n.session, n.att.panes, n.att.panes.len() as int),
                    ids: n.ids,
                },
                false,
            )
        } else {
            (n, true)
        }
    }
}

// ---------------------------------------------------------------------------
// What keeps windows complete.
// ---------------------------------------------------------------------------

proof fn lemma_holds_concat(a: Seq<PaneView>, b: Seq<PaneView>, id: PaneId)
    ensures
        holds(a + b, id) == (holds(a, id) || holds(b, id)),
{
    let c = a + b;
    lemma_holds(a, id);
    lemma_holds(b, id);
    lemma_holds(c, id);
    if holds(a, id) {
        let i = choose|i: int| 0 <= i < a.len() && (#[trigger] a[i]).id == id;
        assert(c[i].id == id);
    }
    if holds(b, id) {
        let i = choose|i: int| 0 <= i < b.len() && (#[trigger] b[i]).id == id;
        assert(c[a.len() + i].id == id);
    }
    if holds(c, id) {
        let i = choose|i: int| 0 <= i < c.len() && (#[trigger] c[i]).id == id;
        if i < a.len() {
            assert(a[i].id == id);
        } else {
            assert(b[i - a.len()].id == id);
        }
    }
}

proof fn lemma_put(s: Pairs<u64>, k: u64, v: u64, other: u64)
    ensures
        other != k ==> lookup(put(s, k, v), other) == lookup(s, other),
{
    lemma_key_index(s, k, 0);
    lemma_key_index(s, other, 0);
    let p = put(s, k, v);
    lemma_key_index(p, other, 0);
    if other != k {
        if let Some(j) = key_index(s, other, 0) {
            assert(p[j].0 == other);
        }
        if let Some(j) = key_index(p, other, 0) {
            match key_index(s, k, 0) {
                Some(i) => {
                    assert(p[i].0 == k);
                    assert(s[j].0 == other);
                },
                None => {
                    assert(j < s.len());
                    assert(s[j].0 == other);
                },
            }
        }
    }
}

/// Every pane that was moved is the mirror of a leaf.
proof fn lemma_rehomed(
    map: Pairs<u64>,
    target: Option<WindowId>,
    s: SessionView,
    ls: Seq<LeafSize>,
    n: int,
    k: int,
)
    requires
        0 <= n <= ls.len(),
        0 <= k < rehomed(map, target, s, ls, n).1.len(),
    ensures
        exists|j: int|
            0 <= j < n && lookup(map, (#[trigger] ls[j]).0) == Some(
                rehomed(map, target, s, ls, n).1[k].id.0,
            ),
    decreases n,
{
    if n > 0 {
        let (t, out) = rehomed(map, target, s, ls, n - 1);
        if k < out.len() {
            lemma_rehomed(map, target, s, ls, n - 1, k);
            let j = choose|j: int|
                0 <= j < n - 1 && lookup(map, (#[trigger] ls[j]).0) == Some(out[k].id.0);
            assert(lookup(map, ls[j].0) == Some(out[k].id.0));
        } else {
            let id = lookup(map, ls[n - 1].0)->0;
            lemma_pane_of(t, PaneId(id));
            assert(lookup(map, ls[n - 1].0) == Some(id));
        }
    }
}

/// What is picked for leaves.
proof fn lemma_picked(
    b: Build,
    s: SessionView,
    target: Option<WindowId>,
    moved: Seq<PaneView>,
    ls: Seq<LeafSize>,
    n: int,
)
    requires
        0 <= n <= ls.len(),
        b.panes.len() == 0,
    ensures
        ({
            let (c, chosen) = picked(b, s, target, moved, ls, n);
            &&& chosen.len() == n
            &&& forall|k: int|
                0 <= k < n ==> in_window(s, target, #[trigger] chosen[k]) || holds(
                    moved,
                    chosen[k],
                ) || holds(c.panes, chosen[k])
            &&& forall|k: int|
                0 <= k < c.panes.len() ==> chosen.contains((#[trigger] c.panes[k]).id)
            &&& forall|r: u64|
                lookup(b.map, r) is Some && holds(moved, PaneId(lookup(b.map, r)->0))
                    ==> #[trigger] lookup(c.map, r) == lookup(b.map, r)
            &&& forall|j: int|
                0 <= j < n && lookup(b.map, (#[trigger] ls[j]).0) is Some && holds(
                    moved,
                    PaneId(lookup(b.map, ls[j].0)->0),
                ) ==> chosen[j] == PaneId(lookup(b.map, ls[j].0)->0)
        }),
    decreases n,
{
    if n > 0 {
        lemma_picked(b, s, target, moved, ls, n - 1);
        let (c0, chosen0) = picked(b, s, target, moved, ls, n - 1);
        let (c, chosen) = picked(b, s, target, moved, ls, n);
        let remote = ls[n - 1].0;
        assert forall|k: int| 0 <= k < n implies in_window(s, target, #[trigger] chosen[k])
            || holds(moved, chosen[k]) || holds(c.panes, chosen[k]) by {
            if c.panes.len() > c0.panes.len() {
                lemma_pushed(c0.panes, c.panes.last(), chosen[k]);
                assert(c0.panes.push(c.panes.last()) =~= c.panes);
            }
            if k < n - 1 {
                assert(chosen[k] == chosen0[k]);
            }
        }
        assert forall|k: int| 0 <= k < c.panes.len() implies chosen.contains(
            (#[trigger] c.panes[k]).id,
        ) by {
            if k < c0.panes.len() {
                assert(c.panes[k] == c0.panes[k]);
                let i = choose|i: int| 0 <= i < chosen0.len() && chosen0[i] == c0.panes[k].id;
                assert(chosen[i] == c.panes[k].id);
            } else {
                assert(chosen[n - 1] == c.panes[k].id);
            }
        }
        assert forall|r: u64|
            lookup(b.map, r) is Some && holds(
                moved,
                PaneId(lookup(b.map, r)->0),
            ) implies #[trigger] lookup(c.map, r) == lookup(b.map, r) by {
            assert(lookup(c0.map, r) == lookup(b.map, r));
            lemma_put(c0.map, remote, c0.ids.pane, r);
        }
        assert forall|j: int|
            0 <= j < n && lookup(b.map, (#[trigger] ls[j]).0) is Some && holds(
                moved,
                PaneId(lookup(b.map, ls[j].0)->0),
            ) implies chosen[j] == PaneId(lookup(b.map, ls[j].0)->0) by {
            assert(lookup(c0.map, ls[j].0) == lookup(b.map, ls[j].0));
            if j < n - 1 {
                assert(chosen[j] == chosen0[j]);
            }
        }
    }
}

/// The panes of a new window are its leaves.
proof fn lemma_new_window(
    map: Pairs<u64>,
    ids: Ids,
    target: Option<WindowId>,
    s: SessionView,
    ls: Seq<LeafSize>,
    x: PaneId,
)
    requires
        place_of(rehomed(map, target, s, ls, ls.len() as int).0, target) is None,
    ensures
        ({
            let (t, moved) = rehomed(map, target, s, ls, ls.len() as int);
            let b = Build { ids, map, panes: Seq::empty() };
            let (c, chosen) = picked(b, t, target, moved, ls, ls.len() as int);
            chosen.contains(x) == holds(c.panes + moved, x)
        }),
{
    let (t, moved) = rehomed(map, target, s, ls, ls.len() as int);
    let b = Build { ids, map, panes: Seq::empty() };
    let (c, chosen) = picked(b, t, target, moved, ls, ls.len() as int);
    lemma_picked(b, t, target, moved, ls, ls.len() as int);
    lemma_holds_concat(c.panes, moved, x);
    if chosen.contains(x) {
        let k = choose|k: int| 0 <= k < chosen.len() && chosen[k] == x;
        assert(!in_window(t, target, chosen[k]));
    }
    if holds(c.panes, x) {
        lemma_holds(c.panes, x);
        let k = choose|k: int| 0 <= k < c.panes.len() && (#[trigger] c.panes[k]).id == x;
        assert(chosen.contains(c.panes[k].id));
    }
    if holds(moved, x) {
        lemma_holds(moved, x);
        let k = choose|k: int| 0 <= k < moved.len() && (#[trigger] moved[k]).id == x;
        lemma_rehomed(map, target, s, ls, ls.len() as int, k);
        let j = choose|j: int|
            0 <= j < ls.len() && lookup(map, (#[trigger] ls[j]).0) == Some(moved[k].id.0);
        assert(chosen[j] == PaneId(lookup(map, ls[j].0)->0));
        assert(chosen[j] == x);
    }
}

/// Every leaf that is picked is in the window, or is added to it.
proof fn lemma_known_window(
    map: Pairs<u64>,
    ids: Ids,
    target: Option<WindowId>,
    t: SessionView,
    moved: Seq<PaneView>,
    ls: Seq<LeafSize>,
    x: PaneId,
)
    ensures
        ({
            let b = Build { ids, map, panes: Seq::empty() };
            let (c, chosen) = picked(b, t, target, moved, ls, ls.len() as int);
            chosen.contains(x) ==> in_window(t, target, x) || holds(c.panes + moved, x)
        }),
{
    let b = Build { ids, map, panes: Seq::empty() };
    let (c, chosen) = picked(b, t, target, moved, ls, ls.len() as int);
    lemma_picked(b, t, target, moved, ls, ls.len() as int);
    lemma_holds_concat(c.panes, moved, x);
    if chosen.contains(x) {
        let k = choose|k: int| 0 <= k < chosen.len() && chosen[k] == x;
        assert(in_window(t, target, chosen[k]) || holds(moved, chosen[k]) || holds(
            c.panes,
            chosen[k],
        ));
    }
}

// ---------------------------------------------------------------------------
// The attachment.
// ---------------------------------------------------------------------------

/// A local mirror of the remote pane `%remote`.
fn make_pane(ids: &mut Ids, map: &mut Vec<(u64, u64)>, remote: u64, cols: u16, rows: u16) -> (p: Pane)
    ensures
        forall|panes: Seq<PaneView>|
            #![trigger made(Build { ids: *old(ids), map: old(map)@, panes }, remote, cols, rows)]
            made(Build { ids: *old(ids), map: old(map)@, panes }, remote, cols, rows) == (Build {
                ids: *final(ids),
                map: final(map)@,
                panes: panes.push(p@),
            }),
        p@.wf(),
        p@.id.0 == old(ids).pane,
{
    let id = PaneId::allocate(ids);
    insert(map, remote, id.0);
    let cols: u16 = if cols < 1 {
        1
    } else {
        cols
    };
    let rows: u16 = if rows < 1 {
        1
    } else {
        rows
    };
    Pane::remote(id, remote, cols, rows)
}

/// A chain of side-by-side splits that gives panes equal widths: what a window shows until its
/// layout arrives. `even` gives the bits of one part of several. None where there are no panes.
pub fn even_split<E: Fn(u64, u64) -> u32>(ids: &[PaneId], even: &E) -> (r: Option<Node>)
    requires
        is_share(*even),
    ensures
        r is None == (ids@.len() == 0),
        r matches Some(n) ==> n == even_tree(ids@, 0, share_of(*even)) && leaves_of(n) == ids@,
{
    if ids.len() == 0 {
        return None;
    }
    let n = even_from(ids, 0, even);
    assert(ids@.skip(0) =~= ids@);
    Some(n)
}

fn even_from<E: Fn(u64, u64) -> u32>(ids: &[PaneId], at: usize, even: &E) -> (n: Node)
    requires
        is_share(*even),
        at < ids@.len(),
    ensures
        n == even_tree(ids@, at as int, share_of(*even)),
        leaves_of(n) == ids@.skip(at as int),
    decreases ids@.len() - at,
{
    proof {
        lemma_share(*even);
    }
    if at == ids.len() - 1 {
        assert(ids@.skip(at as int) =~= seq![ids@[at as int]]);
        return Node::Leaf(ids[at]);
    }
    let ratio: u32 = even(1, (ids.len() - at) as u64);
    let rest = even_from(ids, at + 1, even);
    assert(seq![ids@[at as int]] + ids@.skip(at + 1) =~= ids@.skip(at as int));
    assert(leaves_of(Node::Leaf(ids@[at as int])) =~= seq![ids@[at as int]]);
    Node::Split {
        dir: SplitDir::Horizontal,
        ratio,
        a: Box::new(Node::Leaf(ids[at])),
        b: Box::new(rest),
    }
}

fn pane_ids(panes: &Vec<Pane>) -> (ids: Vec<PaneId>)
    ensures
        ids@ == ids_of(panes_view(panes@)),
{
    let mut ids: Vec<PaneId> = Vec::new();
    let mut i: usize = 0;
    while i < panes.len()
        invariant
            i <= panes@.len(),
            ids@.len() == i,
            forall|j: int| 0 <= j < i ==> #[trigger] ids@[j] == panes@[j]@.id,
        decreases panes@.len() - i,
    {
        ids.push(panes[i].pane_id());
        i = i + 1;
    }
    assert(ids@ =~= ids_of(panes_view(panes@)));
    ids
}

fn among(panes: &Vec<Pane>, id: PaneId) -> (r: bool)
    ensures
        r == holds(panes_view(panes@), id),
{
    let mut i: usize = 0;
    let ghost v = panes_view(panes@);
    while i < panes.len()
        invariant
            i <= panes@.len(),
            v == panes_view(panes@),
            forall|j: int| 0 <= j < i ==> (#[trigger] v[j]).id != id,
        decreases panes@.len() - i,
    {
        if panes[i].pane_id() == id {
            proof {
                lemma_holds(v, id);
                assert(v[i as int].id == id);
            }
            return true;
        }
        i = i + 1;
    }
    proof {
        lemma_holds(v, id);
    }
    false
}

fn window_holds(session: &Session, target: Option<WindowId>, id: PaneId) -> (r: bool)
    ensures
        r == in_window(session@, target, id),
{
    match target {
        Some(w) => match session.window_position(w) {
            Some(i) => session.windows()[i].has_pane(id),
            None => false,
        },
        None => false,
    }
}

fn leaf_size(ls: &Vec<LeafSize>, pane: u64) -> (r: (u16, u16))
    ensures
        r == size_of(ls@, pane, ls@.len() as int),
{
    let mut n: usize = ls.len();
    while n > 0
        invariant
            n <= ls@.len(),
            size_of(ls@, pane, ls@.len() as int) == size_of(ls@, pane, n as int),
        decreases n,
    {
        let leaf = ls[n - 1];
        if leaf.0 == pane {
            return (leaf.1, leaf.2);
        }
        n = n - 1;
    }
    (80, 24)
}

/// The panes of a window with these panes and a tree over them are complete.
proof fn lemma_plain_complete(id: WindowId, panes: Seq<PaneView>, root: Node)
    requires
        all_wf(panes),
        forall|x: PaneId| #[trigger] has_leaf(root, x) == holds(panes, x),
    ensures
        plain_window(id, inserted_all(Seq::empty(), panes), root, first_of(root)).complete(),
{
    let own = inserted_all(Seq::empty(), panes);
    lemma_inserted_all(Seq::empty(), panes);
    lemma_first_is_leaf(root);
    assert forall|x: PaneId| #[trigger] has_leaf(root, x) == holds(own, x) by {
        lemma_holds(Seq::<PaneView>::empty(), x);
    }
    assert(has_leaf(root, first_of(root)));
}

impl RemoteAttachment {
    pub closed spec fn view(&self) -> AttachmentView {
        AttachmentView {
            transport: self.transport@,
            input: input_view(self.input@),
            panes: self.panes@,
            windows: self.windows@,
            enumeration: self.enumeration,
            version_cmd: self.version_cmd,
            version: self.version,
            degraded: self.degraded,
            replies_seen: self.replies_seen,
            finished: self.finished,
            warning: opt_text(self.warning),
        }
    }

    pub closed spec fn wf(&self) -> bool {
        self.transport.wf()
    }

    /// An attachment to a peer that was just started: it asks for the version and the listing.
    pub fn attach() -> (a: RemoteAttachment)
        ensures
            a@ == attached(),
            a.wf(),
    {
        let mut transport = RemoteTmux::new();
        let version_cmd: u64 = transport.send_command(VERSION);
        let enumeration: u64 = transport.send_command(ENUMERATE);
        let a = RemoteAttachment {
            transport,
            input: Vec::new(),
            panes: Vec::new(),
            windows: Vec::new(),
            enumeration: Some(enumeration),
            version_cmd: Some(version_cmd),
            version: None,
            degraded: true,
            replies_seen: 0,
            finished: false,
            warning: None,
        };
        assert(input_view(a.input@) =~= Seq::empty());
        a
    }

    /// Takes a chunk of the peer's output.
    pub fn feed(&mut self, bytes: &[u8])
        requires
            old(self).wf(),
        ensures
            final(self)@ == (AttachmentView {
                transport: received(old(self)@.transport, bytes@),
                ..old(self)@
            }),
            final(self).wf(),
    {
        self.transport.feed(bytes);
    }

    /// The peer's output ended.
    pub fn end(&mut self)
        requires
            old(self).wf(),
        ensures
            final(self)@ == (AttachmentView {
                transport: ended(old(self)@.transport),
                ..old(self)@
            }),
            final(self).wf(),
    {
        self.transport.end();
    }

    /// Takes the commands that wait to be written to the peer.
    pub fn take_commands(&mut self) -> (commands: Vec<String>)
        requires
            old(self).wf(),
        ensures
            texts_view(commands@) == old(self)@.transport.outbox,
            final(self)@ == (AttachmentView {
                transport: TransportView { outbox: Seq::empty(), ..old(self)@.transport },
                ..old(self)@
            }),
            final(self).wf(),
    {
        self.transport.take_commands()
    }

    /// Whether commands still go out.
    pub fn is_open(&self) -> (b: bool)
        ensures
            b == self@.transport.open,
    {
        self.transport.is_open()
    }

    /// Queues keystrokes for a remote pane; the next pump forwards them.
    pub fn queue_input(&mut self, remote: u64, bytes: Vec<u8>)
        requires
            old(self).wf(),
        ensures
            final(self)@ == (AttachmentView {
                input: old(self)@.input.push((remote, bytes@)),
                ..old(self)@
            }),
            final(self).wf(),
    {
        self.input.push((remote, bytes));
        assert(input_view(self.input@) =~= input_view(old(self).input@).push((remote, bytes@)));
    }

    /// Tells the remote tmux the client's size.
    pub fn resize_client(&mut self, cols: u16, rows: u16)
        requires
            old(self).wf(),
        ensures
            final(self)@ == (AttachmentView {
                transport: commanded(old(self)@.transport, size_command(cols, rows)),
                ..old(self)@
            }),
            final(self).wf(),
    {
        self.transport.resize_client(cols, rows);
    }

    /// Ends the session gracefully: the peer then ends control mode, and a later pump returns
    /// `false`.
    pub fn detach(&mut self)
        requires
            old(self).wf(),
        ensures
            final(self)@ == (AttachmentView {
                transport: TransportView { open: false, ..old(self)@.transport },
                ..old(self)@
            }),
            final(self).wf(),
    {
        self.transport.close_stdin();
    }

    /// The remote version; none until it is known.
    pub fn version(&self) -> (v: Option<(u32, u32)>)
        ensures
            v == self@.version,
    {
        self.version
    }

    /// Whether flow control is off, because the remote version is unknown or too old.
    pub fn degraded(&self) -> (b: bool)
        ensures
            b == self@.degraded,
    {
        self.degraded
    }

    /// What the last pump has to tell the user.
    pub fn warning(&self) -> (w: Option<String>)
        ensures
            opt_text(w) == self@.warning,
    {
        clone_opt(&self.warning)
    }

    /// Whether the conversation is over.
    pub fn finished(&self) -> (b: bool)
        ensures
            b == self@.finished,
    {
        self.finished
    }

    /// The remote pane that a local pane mirrors, if it is one of this attachment.
    pub fn remote_id_of(&self, id: PaneId) -> (r: Option<u64>)
        ensures
            r == key_of(self@.panes, id.0, 0),
    {
        find_key(&self.panes, id.0)
    }

    /// Asks the remote to split a pane. The new pane arrives with the next layout.
    pub fn split_remote(&mut self, remote: u64, horizontal: bool)
        requires
            old(self).wf(),
        ensures
            final(self)@ == (AttachmentView {
                transport: commanded(old(self)@.transport, split_command(remote, horizontal)),
                ..old(self)@
            }),
            final(self).wf(),
    {
        self.transport.split_pane(remote, horizontal);
    }

    /// Asks the remote to kill a pane. The mirror goes with the next layout.
    pub fn kill_remote(&mut self, remote: u64)
        requires
            old(self).wf(),
        ensures
            final(self)@ == (AttachmentView {
                transport: commanded(
                    old(self)@.transport,
                    "kill-pane -t %"@ + dec(remote as nat),
                ),
                ..old(self)@
            }),
            final(self).wf(),
    {
        self.transport.kill_pane(remote);
    }

    /// The remote window that a local window mirrors, if it is one of this attachment.
    pub fn remote_window_for(&self, id: WindowId) -> (r: Option<u64>)
        ensures
            r == key_of(self@.windows, id.0, 0),
    {
        find_key(&self.windows, id.0)
    }

    /// Asks the remote to kill a window. The mirror goes when the remote says that it is closed.
    pub fn kill_remote_window(&mut self, remote: u64)
        requires
            old(self).wf(),
        ensures
            final(self)@ == (AttachmentView {
                transport: commanded(
                    old(self)@.transport,
                    "kill-window -t @"@ + dec(remote as nat),
                ),
                ..old(self)@
            }),
            final(self).wf(),
    {
        self.transport.kill_window(remote);
    }

    /// Appends the local window of a remote one.
    fn place(
        &mut self,
        session: &mut Session,
        ids: &mut Ids,
        window: u64,
        panes: Vec<Pane>,
        root: Node,
    )
        requires
            old(self).wf(),
            old(session)@.complete(),
            all_wf(panes_view(panes@)),
            forall|x: PaneId| #[trigger] has_leaf(root, x) == holds(panes_view(panes@), x),
        ensures
            (Mirror { att: final(self)@, session: final(session)@, ids: *final(ids) }) == placed(
                Mirror { att: old(self)@, session: old(session)@, ids: *old(ids) },
                window,
                panes_view(panes@),
                root,
            ),
            final(session)@.complete(),
            final(self).wf(),
    {
        let active = root.first_leaf();
        proof {
            lemma_plain_complete(WindowId(ids.window), panes_view(panes@), root);
        }
        let win = Window::from_parts(ids, panes, root, active);
        let id = win.window_id();
        insert(&mut self.windows, window, id.0);
        let _id = session.push_window(win);
    }

    /// What the version reply does.
    fn apply_version(&mut self, body: &Vec<Vec<u8>>, error: bool)
        requires
            old(self).wf(),
        ensures
            final(self)@ == versioned(old(self)@, lines_view(body@), error),
            final(self).wf(),
    {
        let mut told = String::from_str("gmux: remote tmux version ");
        self.version = if !error && body.len() > 0 {
            let raw = lossy(body[0].as_slice());
            told.append(raw.as_str());
            parse_version(raw.as_str())
        } else {
            told.append("<unknown>");
            None
        };
        self.degraded = match self.version {
            Some(v) => is_too_old(v),
            None => true,
        };
        if self.degraded {
            told.append(
                " lacks flow control (need 3.2); running degraded (no %pause auto-continue)",
            );
            self.warning = Some(told);
        }
    }

    /// Builds one window per remote window from the listing. Lines that cannot be read are skipped:
    /// a partial mirror beats none.
    fn enumerate<E: Fn(u64, u64) -> u32>(
        &mut self,
        body: &Vec<Vec<u8>>,
        session: &mut Session,
        ids: &mut Ids,
        even: &E,
    )
        requires
            old(self).wf(),
            old(session)@.complete(),
            is_share(*even),
        ensures
            ({
                let all = listing(lines_view(body@), body@.len() as int);
                (Mirror { att: final(self)@, session: final(session)@, ids: *final(ids) })
                    == enumerated(
                    Mirror { att: old(self)@, session: old(session)@, ids: *old(ids) },
                    all,
                    all.len() as int,
                    share_of(*even),
                )
            }),
            final(session)@.complete(),
            final(self).wf(),
    {
        let mut all: Vec<Listed> = Vec::new();
        let mut i: usize = 0;
        while i < body.len()
            invariant
                i <= body@.len(),
                all@ == listing(lines_view(body@), i as int),
            decreases body@.len() - i,
        {
            if let Some(l) = parse_enum_line(body[i].as_slice()) {
                all.push(l);
            }
            i = i + 1;
        }
        let ghost start = Mirror { att: self@, session: session@, ids: *ids };
        let mut k: usize = 0;
        while k < all.len()
            invariant
                k <= all@.len(),
                self.wf(),
                session@.complete(),
                is_share(*even),
                (Mirror { att: self@, session: session@, ids: *ids }) == enumerated(
                    start,
                    all@,
                    k as int,
                    share_of(*even),
                ),
            decreases all@.len() - k,
        {
            let window: u64 = all[k].0;
            if get(&self.windows, window).is_none() {
                self.build_window(&all, window, session, ids, even);
            }
            k = k + 1;
        }
    }

    fn build_window<E: Fn(u64, u64) -> u32>(
        &mut self,
        all: &Vec<Listed>,
        window: u64,
        session: &mut Session,
        ids: &mut Ids,
        even: &E,
    )
        requires
            old(self).wf(),
            old(session)@.complete(),
            is_share(*even),
        ensures
            (Mirror { att: final(self)@, session: final(session)@, ids: *final(ids) })
                == window_built(
                Mirror { att: old(self)@, session: old(session)@, ids: *old(ids) },
                all@,
                window,
                share_of(*even),
            ),
            final(session)@.complete(),
            final(self).wf(),
    {
        let mut panes: Vec<Pane> = Vec::new();
        let ghost b = Build { ids: *ids, map: self.panes@, panes: Seq::empty() };
        assert(panes_view(panes@) =~= Seq::empty());
        let mut j: usize = 0;
        while j < all.len()
            invariant
                j <= all@.len(),
                self.wf(),
                session@ == old(session)@,
                self@ == (AttachmentView { panes: self.panes@, ..old(self)@ }),
                all_wf(panes_view(panes@)),
                (Build { ids: *ids, map: self.panes@, panes: panes_view(panes@) }) == built(
                    b,
                    all@,
                    window,
                    j as int,
                ),
            decreases all@.len() - j,
        {
            let l = all[j];
            if l.0 == window {
                let ghost before = panes@;
                let ghost at = Build { ids: *ids, map: self.panes@, panes: panes_view(before) };
                let p = make_pane(ids, &mut self.panes, l.1, l.2, l.3);
                panes.push(p);
                assert(panes_view(panes@) =~= panes_view(before).push(p@));
                assert(made(at, l.1, l.2, l.3).panes == panes_view(before).push(p@));
            }
            j = j + 1;
        }
        let leaf_ids = pane_ids(&panes);
        match even_split(leaf_ids.as_slice(), even) {
            Some(root) => {
                let ghost v = panes_view(panes@);
                assert forall|x: PaneId| #[trigger] has_leaf(root, x) == holds(v, x) by {
                    lemma_has_leaf(root, x);
                    lemma_holds(v, x);
                    if leaf_ids@.contains(x) {
                        let i = choose|i: int| 0 <= i < leaf_ids@.len() && leaf_ids@[i] == x;
                        assert(v[i].id == x);
                    }
                    if holds(v, x) {
                        let i = choose|i: int| 0 <= i < v.len() && (#[trigger] v[i]).id == x;
                        assert(leaf_ids@[i] == x);
                    }
                }
                self.place(session, ids, window, panes, root);
            },
            None => {
                proof {
                    lemma_built_nothing(b, all@, window, all@.len() as int);
                }
            },
        }
    }

    /// Mirrors a new layout: creates panes for leaves that are new, takes over panes that the
    /// remote side moved in from another window, and replaces the window's tree. A window that is
    /// not mirrored, or no more, is created. `share` gives the bits of a first child's share of a
    /// span.
    pub fn apply_layout<S: Fn(u64, u64) -> u32>(
        &mut self,
        window: u64,
        layout: &Layout,
        session: &mut Session,
        ids: &mut Ids,
        share: &S,
    )
        requires
            old(self).wf(),
            old(session)@.complete(),
            is_share(*share),
        ensures
            (Mirror { att: final(self)@, session: final(session)@, ids: *final(ids) }) == laid_out(
                Mirror { att: old(self)@, session: old(session)@, ids: *old(ids) },
                window,
                layout@,
                share_of(*share),
            ),
            final(session)@.complete(),
            final(self).wf(),
    {
        if !is_divided(&layout.root) {
            return;
        }
        let mut ls: Vec<LeafSize> = Vec::new();
        leaf_sizes(&layout.root, &mut ls);
        assert(ls@ =~= leaves(layout@.root));
        let target = match get(&self.windows, window) {
            Some(w) => Some(WindowId(w)),
            None => None,
        };
        let moved = self.rehome(target, &ls, session);
        let (created, chosen) = self.pick(target, &ls, session, ids, &moved);
        proof {
            lemma_picked(
                Build { ids: *old(ids), map: old(self)@.panes, panes: Seq::empty() },
                session@,
                target,
                panes_view(moved@),
                ls@,
                ls@.len() as int,
            );
            lemma_share(*share);
        }
        let (root, _order) = layout_to_node(layout, chosen.as_slice(), share);
        let ghost (c, m) = (panes_view(created@), panes_view(moved@));
        let mut added = created;
        let mut rest = moved;
        added.append(&mut rest);
        assert(panes_view(added@) =~= c + m);
        assert(all_wf(panes_view(added@)));
        let place = match target {
            Some(w) => session.window_position(w),
            None => None,
        };
        match place {
            Some(i) => {
                assert forall|x: PaneId| #[trigger] has_leaf(root, x) implies holds(
                    session@.windows[i as int].panes,
                    x,
                ) || holds(panes_view(added@), x) by {
                    lemma_has_leaf(root, x);
                    lemma_known_window(
                        old(self)@.panes,
                        *old(ids),
                        target,
                        session@,
                        m,
                        ls@,
                        x,
                    );
                }
                assert(session@.windows[i as int].complete());
                let ghost s = session@;
                let gone = match session.window_at_mut(i) {
                    Some(win) => win.replace_tree(root, added),
                    None => Vec::new(),
                };
                assert(s.windows[i as int].wf());
                self.forget(&gone);
            },
            None => {
                assert forall|x: PaneId| #[trigger] has_leaf(root, x) == holds(
                    panes_view(added@),
                    x,
                ) by {
                    lemma_has_leaf(root, x);
                    lemma_new_window(
                        old(self)@.panes,
                        *old(ids),
                        target,
                        old(session)@,
                        ls@,
                        x,
                    );
                }
                self.place(session, ids, window, added, root);
            },
        }
    }

    /// Takes the mirrors of a layout's panes out of other windows.
    fn rehome(&self, target: Option<WindowId>, ls: &Vec<LeafSize>, session: &mut Session) -> (moved:
        Vec<Pane>)
        requires
            old(session)@.complete(),
        ensures
            (final(session)@, panes_view(moved@)) == rehomed(
                self@.panes,
                target,
                old(session)@,
                ls@,
                ls@.len() as int,
            ),
            final(session)@.complete(),
            all_wf(panes_view(moved@)),
    {
        let mut moved: Vec<Pane> = Vec::new();
        assert(panes_view(moved@) =~= Seq::empty());
        let mut i: usize = 0;
        while i < ls.len()
            invariant
                i <= ls@.len(),
                session@.complete(),
                all_wf(panes_view(moved@)),
                (session@, panes_view(moved@)) == rehomed(
                    self@.panes,
                    target,
                    old(session)@,
                    ls@,
                    i as int,
                ),
            decreases ls@.len() - i,
        {
            if let Some(id) = get(&self.panes, ls[i].0) {
                if !window_holds(session, target, PaneId(id)) {
                    proof {
                        lemma_pane_of(session@, PaneId(id));
                    }
                    let ghost t = session@;
                    match session.extract_pane(PaneId(id)) {
                        Some(p) => {
                            let ghost before = moved@;
                            moved.push(p);
                            assert(panes_view(moved@) =~= panes_view(before).push(p@));
                        },
                        None => {
                            assert(extracted(t, PaneId(id)) == t);
                        },
                    }
                }
            }
            i = i + 1;
        }
        moved
    }

    /// Picks the local panes for a layout's leaves; new ones are created.
    fn pick(
        &mut self,
        target: Option<WindowId>,
        ls: &Vec<LeafSize>,
        session: &Session,
        ids: &mut Ids,
        moved: &Vec<Pane>,
    ) -> (r: (Vec<Pane>, Vec<PaneId>))
        requires
            old(self).wf(),
        ensures
            ({
                let (b, chosen) = picked(
                    Build { ids: *old(ids), map: old(self)@.panes, panes: Seq::empty() },
                    session@,
                    target,
                    panes_view(moved@),
                    ls@,
                    ls@.len() as int,
                );
                &&& b == (Build {
                    ids: *final(ids),
                    map: final(self)@.panes,
                    panes: panes_view(r.0@),
                })
                &&& r.1@ == chosen
            }),
            final(self)@ == (AttachmentView { panes: final(self)@.panes, ..old(self)@ }),
            all_wf(panes_view(r.0@)),
            final(self).wf(),
    {
        let mut created: Vec<Pane> = Vec::new();
        let mut chosen: Vec<PaneId> = Vec::new();
        let ghost b = Build { ids: *ids, map: self.panes@, panes: Seq::empty() };
        assert(panes_view(created@) =~= Seq::empty());
        let mut i: usize = 0;
        while i < ls.len()
            invariant
                i <= ls@.len(),
                self.wf(),
                self@ == (AttachmentView { panes: self@.panes, ..old(self)@ }),
                all_wf(panes_view(created@)),
                (
                    Build { ids: *ids, map: self.panes@, panes: panes_view(created@) },
                    chosen@,
                ) == picked(b, session@, target, panes_view(moved@), ls@, i as int),
            decreases ls@.len() - i,
        {
            let remote: u64 = ls[i].0;
            let known = match get(&self.panes, remote) {
                Some(id) => if window_holds(session, target, PaneId(id)) || among(
                    moved,
                    PaneId(id),
                ) {
                    Some(PaneId(id))
                } else {
                    None
                },
                None => None,
            };
            match known {
                Some(id) => {
                    chosen.push(id);
                },
                None => {
                    let (cols, rows) = leaf_size(ls, remote);
                    let ghost before = created@;
                    let ghost at = Build { ids: *ids, map: self.panes@, panes: panes_view(before) };
                    let p = make_pane(ids, &mut self.panes, remote, cols, rows);
                    let id = p.pane_id();
                    created.push(p);
                    chosen.push(id);
                    assert(panes_view(created@) =~= panes_view(before).push(p@));
                    assert(made(at, remote, cols, rows).panes == panes_view(before).push(p@));
                },
            }
            i = i + 1;
        }
        (created, chosen)
    }

    /// Forgets the mirrors that panes were.
    fn forget(&mut self, gone: &Vec<Pane>)
        requires
            old(self).wf(),
        ensures
            final(self)@ == (AttachmentView {
                panes: forgotten(old(self)@.panes, panes_view(gone@), gone@.len() as int),
                ..old(self)@
            }),
            final(self).wf(),
    {
        let mut i: usize = 0;
        while i < gone.len()
            invariant
                i <= gone@.len(),
                self.wf(),
                self@ == (AttachmentView {
                    panes: forgotten(old(self)@.panes, panes_view(gone@), i as int),
                    ..old(self)@
                }),
            decreases gone@.len() - i,
        {
            if let Some(r) = gone[i].remote_id() {
                let id = gone[i].pane_id();
                if let Some(known) = get(&self.panes, r) {
                    if known == id.0 {
                        let _id = remove(&mut self.panes, r);
                    }
                }
            }
            i = i + 1;
        }
    }

    /// Mirrors the end of a remote window.
    fn close_window(&mut self, window: u64, session: &mut Session)
        requires
            old(self).wf(),
            old(session)@.complete(),
        ensures
            forall|ids: Ids|
                #![trigger window_closed(
                    Mirror { att: old(self)@, session: old(session)@, ids },
                    window,
                )]
                window_closed(Mirror { att: old(self)@, session: old(session)@, ids }, window) == (
                Mirror { att: final(self)@, session: final(session)@, ids }),
            final(session)@.complete(),
            final(self).wf(),
    {
        if let Some(w) = remove(&mut self.windows, window) {
            if let Some(win) = session.remove_window(WindowId(w)) {
                self.forget(win.panes());
            }
        }
    }

    /// Marks the mirrors of a finished attachment as gone, and forgets them.
    fn finish(&mut self, session: &mut Session)
        requires
            old(self).wf(),
            old(session)@.complete(),
        ensures
            final(self)@ == (AttachmentView {
                panes: Seq::empty(),
                windows: Seq::empty(),
                ..old(self)@
            }),
            final(session)@ == all_marked(
                old(session)@,
                old(self)@.panes,
                old(self)@.panes.len() as int,
            ),
            final(session)@.complete(),
            final(self).wf(),
    {
        let mut i: usize = 0;
        while i < self.panes.len()
            invariant
                i <= self.panes@.len(),
                *self == *old(self),
                session@.complete(),
                session@ == all_marked(old(session)@, self@.panes, i as int),
            decreases self.panes@.len() - i,
        {
            let id = PaneId(self.panes[i].1);
            let ghost s = session@;
            if let Some(p) = session.pane_mut(id) {
                p.mark_exited();
            }
            proof {
                if let Some(p) = pane_of(s, id) {
                    lemma_pane_of(s, id);
                    lemma_with_pane(s, id, marked_exited(p));
                }
            }
            i = i + 1;
        }
        self.panes = Vec::new();
        self.windows = Vec::new();
    }

    fn notify<S: Fn(u64, u64) -> u32>(
        &mut self,
        n: Notification,
        session: &mut Session,
        ids: &mut Ids,
        share: &S,
    )
        requires
            old(self).wf(),
            old(session)@.complete(),
            is_share(*share),
        ensures
            (Mirror { att: final(self)@, session: final(session)@, ids: *final(ids) }) == notified(
                Mirror { att: old(self)@, session: old(session)@, ids: *old(ids) },
                n@,
                share_of(*share),
            ),
            final(session)@.complete(),
            final(self).wf(),
    {
        match n {
            Notification::Output { pane, data } => {
                if let Some(id) = get(&self.panes, pane) {
                    let id = PaneId(id);
                    let ghost s = session@;
                    proof {
                        lemma_pane_of(s, id);
                    }
                    if let Some(p) = session.pane_mut(id) {
                        p.push_output(data.as_slice());
                    }
                    proof {
                        if let Some(p) = pane_of(s, id) {
                            lemma_pumped_keeps_identity(p, data@);
                            lemma_with_pane(s, id, output_pushed(p, data@));
                        }
                    }
                }
            },
            Notification::LayoutChange { window, layout } => {
                self.apply_layout(window, &layout, session, ids, share);
            },
            Notification::WindowClose { window } => {
                self.close_window(window, session);
            },
            Notification::Pause { pane } => {
                if !self.degraded {
                    self.transport.continue_pane(pane);
                }
            },
            Notification::Exit { .. } => {
                self.finished = true;
            },
            _ => {},
        }
    }

    fn reply<E: Fn(u64, u64) -> u32>(
        &mut self,
        body: &Vec<Vec<u8>>,
        error: bool,
        session: &mut Session,
        ids: &mut Ids,
        even: &E,
    )
        requires
            old(self).wf(),
            old(session)@.complete(),
            is_share(*even),
        ensures
            (Mirror { att: final(self)@, session: final(session)@, ids: *final(ids) }) == replied(
                Mirror { att: old(self)@, session: old(session)@, ids: *old(ids) },
                lines_view(body@),
                error,
                share_of(*even),
            ),
            final(session)@.complete(),
            final(self).wf(),
    {
        let seq: u64 = self.replies_seen;
        self.replies_seen = self.replies_seen.wrapping_add(1);
        if self.version_cmd == Some(seq) {
            self.version_cmd = None;
            self.apply_version(body, error);
        } else if self.enumeration == Some(seq) {
            self.enumeration = None;
            if !error {
                self.enumerate(body, session, ids, even);
            }
        }
    }

    /// Forwards queued input and applies all pending events to `session`. Returns `false` once the
    /// conversation is over: its panes are then marked as gone, and the caller drops it.
    pub fn pump<S: Fn(u64, u64) -> u32, E: Fn(u64, u64) -> u32>(
        &mut self,
        session: &mut Session,
        ids: &mut Ids,
        share: &S,
        even: &E,
    ) -> (live: bool)
        requires
            old(self).wf(),
            old(session)@.complete(),
            is_share(*share),
            is_share(*even),
        ensures
            (Mirror { att: final(self)@, session: final(session)@, ids: *final(ids) }, live)
                == pumped(
                Mirror { att: old(self)@, session: old(session)@, ids: *old(ids) },
                share_of(*share),
                share_of(*even),
            ),
            final(session)@.complete(),
            final(self).wf(),
    {
        if self.finished {
            return false;
        }
        let mut input: Vec<(u64, Vec<u8>)> = Vec::new();
        std::mem::swap(&mut input, &mut self.input);
        assert(input_view(self.input@) =~= Seq::empty());
        self.warning = None;
        let ghost keys = input_view(input@);
        let ghost first = self@.transport;
        let mut i: usize = 0;
        while i < input.len()
            invariant
                i <= input@.len(),
                self.wf(),
                keys == input_view(input@),
                self@ == (AttachmentView {
                    transport: forwarded(first, keys, i as int),
                    input: Seq::empty(),
                    warning: None,
                    ..old(self)@
                }),
            decreases input@.len() - i,
        {
            assert(keys[i as int] == (input@[i as int].0, input@[i as int].1@));
            self.transport.send_keys(input[i].0, input[i].1.as_slice());
            i = i + 1;
        }
        let events = self.transport.drain_events();
        let ghost es = transport_events_view(events@);
        let ghost start = Mirror { att: self@, session: session@, ids: *ids };
        let mut rest = reversed(events);
        let ghost mut done: int = 0;
        while rest.len() > 0
            invariant
                0 <= done,
                done + rest@.len() == es.len(),
                es == transport_events_view(events@),
                rest@ =~= events@.reverse().take(rest@.len() as int),
                self.wf(),
                session@.complete(),
                is_share(*share),
                is_share(*even),
                (Mirror { att: self@, session: session@, ids: *ids }) == applied_all(
                    start,
                    es,
                    done,
                    share_of(*share),
                    share_of(*even),
                ),
            decreases rest@.len(),
        {
            assert(rest@[rest@.len() - 1] == events@[done]);
            if let Some(e) = rest.pop() {
                assert(es[done] == e@);
                match e {
                    TransportEvent::Greeting(_) => {},
                    TransportEvent::Eof => {
                        self.finished = true;
                    },
                    TransportEvent::Ctrl(Event::Reply { num: _, body, error }) => {
                        self.reply(&body, error, session, ids, even);
                    },
                    TransportEvent::Ctrl(Event::Notification(n)) => {
                        self.notify(n, session, ids, share);
                    },
                }
                proof {
                    done = done + 1;
                }
            }
        }
        if self.finished {
            self.finish(session);
            return false;
        }
        true
    }
}

/// Where no pane of a window is listed, nothing is made.
proof fn lemma_built_nothing(b: Build, all: Seq<Listed>, window: u64, n: int)
    requires
        b.panes.len() == 0,
        built(b, all, window, n).panes.len() == 0,
    ensures
        built(b, all, window, n) == b,
    decreases n,
{
    if n > 0 {
        lemma_built_nothing(b, all, window, n - 1);
    }
}

} // verus!
