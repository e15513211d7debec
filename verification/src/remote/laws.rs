//! What mirroring promises, whatever the remote side does.
use vstd::prelude::*;

#[allow(unused_imports)]
use crate::mux::ids::{after, Ids, PaneId, WindowId};
#[allow(unused_imports)]
use crate::mux::pane::{marked_exited, PaneView};
#[allow(unused_imports)]
use crate::mux::session::{
    home_of, homes_unique, lemma_home, lemma_lost_wf, lemma_pane_of, lemma_with_pane_found,
    lemma_with_pane_other, pane_of, taking_one_pane_leaves_the_others, SessionView,
};
#[allow(unused_imports)]
use crate::mux::window::{
    holds, inserted_all, kept, lemma_holds, lemma_inserted_all, lemma_kept, lemma_pushed,
};
#[allow(unused_imports)]
use crate::pairs::{lookup, Pairs};
#[allow(unused_imports)]
use crate::remote::attachment::{
    all_marked, applied, applied_all, attached, enumerated, forwarded, in_window, laid_out, listing,
    made, notified, picked, place_of, pumped, rehomed, size_of, target_of, version_text, versioned,
    AttachmentView, Build, Mirror,
};
#[allow(unused_imports)]
use crate::remote::convert::{divided, leaves, tree_of, LeafSize};
#[allow(unused_imports)]
use crate::remote::replies::{too_old, version_of, Listed};
#[allow(unused_imports)]
use crate::remote::transport::{
    commanded, ended, received, TransportEventView, TransportView,
};
#[allow(unused_imports)]
use crate::text::dec;
#[allow(unused_imports)]
use crate::tmux::layout::LayoutView;
#[allow(unused_imports)]
use crate::tmux::parser::{EventView, NotificationView};

verus! {

/// A paused pane is left alone while flow control is off, and flow control is off until the remote
/// server has told a version that has it.
pub proof fn no_flow_control_without_a_version(
    m: Mirror,
    pane: u64,
    body: Seq<Seq<u8>>,
    error: bool,
    f: spec_fn(u64, u64) -> u32,
)
    ensures
        m.att.degraded ==> notified(m, NotificationView::Pause { pane }, f) == m,
        crate::remote::attachment::attached().degraded,
        !versioned(m.att, body, error).degraded ==> !error && versioned(
            m.att,
            body,
            error,
        ).version is Some && !too_old(versioned(m.att, body, error).version->0),
{
}

/// A finished attachment stays finished: pumping it again changes nothing.
pub proof fn a_finished_attachment_stays_finished(
    m: Mirror,
    f: spec_fn(u64, u64) -> u32,
    g: spec_fn(u64, u64) -> u32,
)
    requires
        !pumped(m, f, g).1,
    ensures
        pumped(pumped(m, f, g).0, f, g) == (pumped(m, f, g).0, false),
{
}

/// Whether every pane that a session holds has an id below `n`.
pub open spec fn ids_below(s: SessionView, n: u64) -> bool {
    forall|i: int, id: PaneId|
        0 <= i < s.windows.len() && #[trigger] holds(s.windows[i].panes, id) ==> id.0 < n
}

/// Whether every window of a session has an id below `n`.
pub open spec fn windows_below(s: SessionView, n: u64) -> bool {
    forall|i: int| 0 <= i < s.windows.len() ==> (#[trigger] s.windows[i]).id.0 < n
}

proof fn lemma_found(s: SessionView, id: PaneId, i: int)
    requires
        0 <= i < s.windows.len(),
        holds(s.windows[i].panes, id),
    ensures
        pane_of(s, id) is Some,
{
    lemma_home(s.windows, id, 0);
}

/// Moving mirrors out of other windows keeps homes unique, and leaves no trace of what moved.
proof fn lemma_rehomed_unique(
    map: Pairs<u64>,
    target: Option<WindowId>,
    s: SessionView,
    ls: Seq<LeafSize>,
    n: int,
    x: PaneId,
)
    requires
        0 <= n <= ls.len(),
        s.wf(),
        homes_unique(s),
    ensures
        ({
            let (t, out) = rehomed(map, target, s, ls, n);
            &&& t.wf()
            &&& homes_unique(t)
            &&& pane_of(t, x) is Some ==> pane_of(s, x) is Some
            &&& holds(out, x) ==> pane_of(t, x) is None && pane_of(s, x) is Some
        }),
    decreases n,
{
    if n > 0 {
        lemma_rehomed_unique(map, target, s, ls, n - 1, x);
        let (t, out) = rehomed(map, target, s, ls, n - 1);
        if let Some(id) = lookup(map, ls[n - 1].0) {
            let id = PaneId(id);
            if !in_window(t, target, id) {
                if let Some(p) = pane_of(t, id) {
                    lemma_lost_wf(t, id);
                    taking_one_pane_leaves_the_others(t, id, x);
                    lemma_pane_of(t, id);
                    lemma_pushed(out, p, x);
                    if x == id {
                        lemma_rehomed_unique(map, target, s, ls, n - 1, id);
                    }
                }
            }
        }
    } else {
        lemma_holds(Seq::<PaneView>::empty(), x);
    }
}

/// New panes have ids from the counter on.
proof fn lemma_picked_fresh(
    b: Build,
    s: SessionView,
    target: Option<WindowId>,
    moved: Seq<PaneView>,
    ls: Seq<LeafSize>,
    n: int,
    x: PaneId,
)
    requires
        0 <= n <= ls.len(),
        b.panes.len() == 0,
        b.ids.pane + ls.len() <= u64::MAX,
    ensures
        ({
            let (c, chosen) = picked(b, s, target, moved, ls, n);
            &&& b.ids.pane <= c.ids.pane <= b.ids.pane + n
            &&& holds(c.panes, x) ==> b.ids.pane <= x.0 < c.ids.pane
        }),
    decreases n,
{
    if n > 0 {
        lemma_picked_fresh(b, s, target, moved, ls, n - 1, x);
        let (c, chosen) = picked(b, s, target, moved, ls, n - 1);
        let remote = ls[n - 1].0;
        let (cols, rows) = size_of(ls, remote, ls.len() as int);
        let m = made(c, remote, cols, rows);
        lemma_pushed(c.panes, m.panes.last(), x);
        assert(c.panes.push(m.panes.last()) =~= m.panes);
    } else {
        lemma_holds(b.panes, x);
    }
}

proof fn lemma_concat_held(a: Seq<PaneView>, b: Seq<PaneView>, x: PaneId)
    ensures
        holds(a + b, x) ==> holds(a, x) || holds(b, x),
{
    let c = a + b;
    lemma_holds(a, x);
    lemma_holds(b, x);
    lemma_holds(c, x);
    if holds(c, x) {
        let i = choose|i: int| 0 <= i < c.len() && (#[trigger] c[i]).id == x;
        if i < a.len() {
            assert(a[i].id == x);
        } else {
            assert(b[i - a.len()].id == x);
        }
    }
}

/// A pane lives in one window: when the remote side moves a pane to another window, its mirror
/// moves too, and is never left behind in the old one. New panes take fresh ids, so nothing else
/// can be held twice.
pub proof fn moved_panes_have_one_home(
    m: Mirror,
    window: u64,
    layout: LayoutView,
    f: spec_fn(u64, u64) -> u32,
)
    requires
        m.session.wf(),
        homes_unique(m.session),
        ids_below(m.session, m.ids.pane),
        m.ids.pane + leaves(layout.root).len() <= u64::MAX,
    ensures
        homes_unique(laid_out(m, window, layout, f).session),
{
    if divided(layout.root) {
        let ls = leaves(layout.root);
        let target = target_of(m.att, window);
        let (s, moved) = rehomed(m.att.panes, target, m.session, ls, ls.len() as int);
        let b0 = Build { ids: m.ids, map: m.att.panes, panes: Seq::empty() };
        let (b, chosen) = picked(b0, s, target, moved, ls, ls.len() as int);
        let root = tree_of(layout.root, chosen, 0, f);
        let added = b.panes + moved;
        lemma_rehomed_unique(
            m.att.panes,
            target,
            m.session,
            ls,
            ls.len() as int,
            PaneId(0),
        );
        // Nothing that is added is held by any window.
        assert forall|x: PaneId, j: int|
            0 <= j < s.windows.len() && #[trigger] holds(added, x) implies !(
        #[trigger] holds(s.windows[j].panes, x)) by {
            lemma_concat_held(b.panes, moved, x);
            lemma_rehomed_unique(m.att.panes, target, m.session, ls, ls.len() as int, x);
            lemma_picked_fresh(b0, s, target, moved, ls, ls.len() as int, x);
            if holds(s.windows[j].panes, x) {
                lemma_found(s, x, j);
                if holds(b.panes, x) {
                    lemma_home(m.session.windows, x, 0);
                    let h = home_of(m.session.windows, x, 0)->0;
                    assert(holds(m.session.windows[h].panes, x));
                }
            }
        }
        match place_of(s, target) {
            Some(i) => {
                crate::mux::session::lemma_window_index(s.windows, target->0, 0);
                let w = s.windows[i];
                assert(w.wf());
                let all = inserted_all(w.panes, added);
                lemma_inserted_all(w.panes, added);
                lemma_kept(all, root);
                let r = laid_out(m, window, layout, f).session;
                assert forall|j: int, k: int, x: PaneId|
                    0 <= j < k < r.windows.len() implies !(#[trigger] holds(r.windows[j].panes, x)
                    && #[trigger] holds(r.windows[k].panes, x)) by {
                    if holds(r.windows[j].panes, x) && holds(r.windows[k].panes, x) {
                        if j == i {
                            assert(r.windows[k] == s.windows[k]);
                            assert(holds(kept(all, root), x));
                            assert(holds(w.panes, x) || holds(added, x));
                            assert(!(holds(s.windows[j].panes, x) && holds(s.windows[k].panes, x)));
                        } else if k == i {
                            assert(r.windows[j] == s.windows[j]);
                            assert(holds(kept(all, root), x));
                            assert(holds(w.panes, x) || holds(added, x));
                            assert(!(holds(s.windows[j].panes, x) && holds(s.windows[k].panes, x)));
                        } else {
                            assert(!(holds(s.windows[j].panes, x) && holds(s.windows[k].panes, x)));
                        }
                    }
                }
            },
            None => {
                lemma_inserted_all(Seq::empty(), added);
                let r = laid_out(m, window, layout, f).session;
                let last = s.windows.len() as int;
                assert forall|j: int, k: int, x: PaneId|
                    0 <= j < k < r.windows.len() implies !(#[trigger] holds(r.windows[j].panes, x)
                    && #[trigger] holds(r.windows[k].panes, x)) by {
                    if holds(r.windows[j].panes, x) && holds(r.windows[k].panes, x) {
                        assert(r.windows[j] == s.windows[j]);
                        if k == last {
                            lemma_holds(Seq::<PaneView>::empty(), x);
                            assert(holds(inserted_all(Seq::empty(), added), x));
                            assert(holds(added, x));
                        } else {
                            assert(r.windows[k] == s.windows[k]);
                            assert(!(holds(s.windows[j].panes, x) && holds(s.windows[k].panes, x)));
                        }
                    }
                }
            },
        }
    }
}

// ---------------------------------------------------------------------------
// The whole life of an attachment.
// ---------------------------------------------------------------------------

/// What is done with an attachment.
pub enum AttachStep {
    /// The peer wrote something.
    Output(Seq<u8>),
    /// The peer's output ended.
    End,
    /// Keystrokes are queued for a remote pane.
    Keys(u64, Seq<u8>),
    /// A command is sent: a new size, or a pane to split or kill.
    Command(Seq<char>),
    /// The waiting commands are taken.
    TakeCommands,
    /// The session is ended gracefully.
    Detach,
    /// The attachment is pumped into a session.
    Pump(SessionView, Ids),
}

/// An attachment after steps, and all events that its pumps drained, in order.
pub open spec fn attached_after(
    steps: Seq<AttachStep>,
    f: spec_fn(u64, u64) -> u32,
    g: spec_fn(u64, u64) -> u32,
) -> (AttachmentView, Seq<TransportEventView>)
    decreases steps.len(),
{
    if steps.len() == 0 {
        (attached(), Seq::empty())
    } else {
        let (a, seen) = attached_after(steps.drop_last(), f, g);
        match steps.last() {
            AttachStep::Output(bytes) => (
                AttachmentView { transport: received(a.transport, bytes), ..a },
                seen,
            ),
            AttachStep::End => (AttachmentView { transport: ended(a.transport), ..a }, seen),
            AttachStep::Keys(remote, bytes) => (
                AttachmentView { input: a.input.push((remote, bytes)), ..a },
                seen,
            ),
            AttachStep::Command(command) => (
                AttachmentView { transport: commanded(a.transport, command), ..a },
                seen,
            ),
            AttachStep::TakeCommands => (
                AttachmentView {
                    transport: TransportView { outbox: Seq::empty(), ..a.transport },
                    ..a
                },
                seen,
            ),
            AttachStep::Detach => (
                AttachmentView { transport: TransportView { open: false, ..a.transport }, ..a },
                seen,
            ),
            AttachStep::Pump(session, ids) => (
                pumped(Mirror { att: a, session, ids }, f, g).0.att,
                seen + drained(a),
            ),
        }
    }
}

/// The events that a pump drains: all that wait, until the conversation is over.
pub open spec fn drained(a: AttachmentView) -> Seq<TransportEventView> {
    if a.finished {
        Seq::empty()
    } else {
        a.transport.queue
    }
}

/// A mirror as a pump starts it: the keystrokes are forwarded, and the events are taken.
pub open spec fn pumping(m: Mirror) -> Mirror {
    Mirror {
        att: AttachmentView {
            transport: TransportView {
                queue: Seq::empty(),
                ..forwarded(m.att.transport, m.att.input, m.att.input.len() as int)
            },
            input: Seq::empty(),
            warning: None,
            ..m.att
        },
        ..m
    }
}

/// Whether an event ends the conversation.
pub open spec fn is_goodbye(e: TransportEventView) -> bool {
    e is Eof || e matches TransportEventView::Ctrl(EventView::Notification(NotificationView::Exit {
        ..
    }))
}

/// Whether a reply tells a version that has flow control.
pub open spec fn has_flow_control(body: Seq<Seq<u8>>, error: bool) -> bool {
    version_text(body, error) matches Some(t) && version_of(t) matches Some(v) && !too_old(v)
}

/// What the version reply says of flow control, once it is among events: it is the first reply that
/// answers a command.
pub open spec fn flow_control(es: Seq<TransportEventView>) -> Option<bool>
    decreases es.len(),
{
    if es.len() == 0 {
        None
    } else {
        match flow_control(es.drop_last()) {
            Some(b) => Some(b),
            None => match es.last() {
                TransportEventView::Ctrl(EventView::Reply { num, body, error }) => Some(
                    has_flow_control(body, error),
                ),
                _ => None,
            },
        }
    }
}

/// What is known of an attachment by the events that were drained from it.
spec fn knows(a: AttachmentView, es: Seq<TransportEventView>) -> bool {
    &&& a.finished == exists|i: int| 0 <= i < es.len() && is_goodbye(#[trigger] es[i])
    &&& match flow_control(es) {
        None => a.version_cmd == Some(0u64) && a.replies_seen == 0 && a.degraded,
        Some(b) => a.version_cmd is None && a.degraded == !b,
    }
}

proof fn lemma_enumerated(m: Mirror, all: Seq<Listed>, n: int, g: spec_fn(u64, u64) -> u32)
    ensures
        ({
            let a = enumerated(m, all, n, g).att;
            a == (AttachmentView { panes: a.panes, windows: a.windows, ..m.att })
        }),
    decreases n,
{
    if n > 0 {
        lemma_enumerated(m, all, n - 1, g);
    }
}

proof fn lemma_applied(
    m: Mirror,
    es: Seq<TransportEventView>,
    e: TransportEventView,
    f: spec_fn(u64, u64) -> u32,
    g: spec_fn(u64, u64) -> u32,
)
    requires
        knows(m.att, es),
    ensures
        knows(applied(m, e, f, g).att, es.push(e)),
        applied(m, e, f, g).att.transport.queue == m.att.transport.queue,
        e matches TransportEventView::Ctrl(EventView::Notification(NotificationView::Pause {
            pane,
        })) ==> applied(m, e, f, g) == (if flow_control(es) == Some(true) {
            Mirror {
                att: AttachmentView {
                    transport: commanded(
                        m.att.transport,
                        "refresh-client -A %"@ + dec(pane as nat) + ":continue"@,
                    ),
                    ..m.att
                },
                ..m
            }
        } else {
            m
        }),
{
    let all = es.push(e);
    assert(all.drop_last() =~= es);
    let n = applied(m, e, f, g);
    assert(n.att.finished == (m.att.finished || is_goodbye(e))) by {
        lemma_keeps(m, e, f, g);
    }
    if m.att.finished {
        let i = choose|i: int| 0 <= i < es.len() && is_goodbye(#[trigger] es[i]);
        assert(all[i] == es[i]);
    }
    if is_goodbye(e) {
        assert(all[es.len() as int] == e);
    }
    if exists|i: int| 0 <= i < all.len() && is_goodbye(#[trigger] all[i]) {
        let i = choose|i: int| 0 <= i < all.len() && is_goodbye(#[trigger] all[i]);
        if i < es.len() {
            assert(es[i] == all[i]);
        }
    }
    lemma_keeps(m, e, f, g);
}

/// What an event leaves as it is.
proof fn lemma_keeps(
    m: Mirror,
    e: TransportEventView,
    f: spec_fn(u64, u64) -> u32,
    g: spec_fn(u64, u64) -> u32,
)
    ensures
        ({
            let a = applied(m, e, f, g).att;
            &&& a.finished == (m.att.finished || is_goodbye(e))
            &&& a.transport.queue == m.att.transport.queue
            &&& match e {
                TransportEventView::Ctrl(EventView::Reply { num, body, error }) => if m.att.version_cmd
                    == Some(m.att.replies_seen) {
                    a.version_cmd is None && a.degraded == !has_flow_control(body, error)
                } else {
                    a.version_cmd == m.att.version_cmd && a.degraded == m.att.degraded
                },
                _ => a.version_cmd == m.att.version_cmd && a.degraded == m.att.degraded
                    && a.replies_seen == m.att.replies_seen,
            }
        }),
{
    if let TransportEventView::Ctrl(EventView::Reply { num, body, error }) = e {
        let all = listing(body, body.len() as int);
        let seq = m.att.replies_seen;
        let n = Mirror {
            att: AttachmentView {
                replies_seen: after(seq),
                enumeration: None,
                ..m.att
            },
            ..m
        };
        lemma_enumerated(n, all, all.len() as int, g);
    }
}

proof fn lemma_applied_all(
    m: Mirror,
    seen: Seq<TransportEventView>,
    es: Seq<TransportEventView>,
    n: int,
    f: spec_fn(u64, u64) -> u32,
    g: spec_fn(u64, u64) -> u32,
)
    requires
        knows(m.att, seen),
        0 <= n <= es.len(),
    ensures
        knows(applied_all(m, es, n, f, g).att, seen + es.take(n)),
        applied_all(m, es, n, f, g).att.transport.queue == m.att.transport.queue,
    decreases n,
{
    if n > 0 {
        lemma_applied_all(m, seen, es, n - 1, f, g);
        lemma_applied(applied_all(m, es, n - 1, f, g), seen + es.take(n - 1), es[n - 1], f, g);
        assert((seen + es.take(n - 1)).push(es[n - 1]) =~= seen + es.take(n));
    } else {
        assert(seen + es.take(0) =~= seen);
    }
}

pub proof fn lemma_forwarded(t: TransportView, input: Seq<(u64, Seq<u8>)>, n: int)
    ensures
        forwarded(t, input, n).queue == t.queue,
    decreases n,
{
    if n > 0 {
        lemma_forwarded(t, input, n - 1);
    }
}

proof fn lemma_pumped_knows(
    m: Mirror,
    seen: Seq<TransportEventView>,
    f: spec_fn(u64, u64) -> u32,
    g: spec_fn(u64, u64) -> u32,
)
    requires
        knows(m.att, seen),
    ensures
        knows(pumped(m, f, g).0.att, seen + drained(m.att)),
        pumped(m, f, g).1 == !pumped(m, f, g).0.att.finished,
{
    let es = m.att.transport.queue;
    if m.att.finished {
        assert(seen + drained(m.att) =~= seen);
    } else {
        lemma_forwarded(m.att.transport, m.att.input, m.att.input.len() as int);
        lemma_applied_all(pumping(m), seen, es, es.len() as int, f, g);
        assert(es.take(es.len() as int) =~= es);
    }
}

proof fn lemma_life_knows(
    steps: Seq<AttachStep>,
    f: spec_fn(u64, u64) -> u32,
    g: spec_fn(u64, u64) -> u32,
)
    ensures
        knows(attached_after(steps, f, g).0, attached_after(steps, f, g).1),
    decreases steps.len(),
{
    if steps.len() > 0 {
        lemma_life_knows(steps.drop_last(), f, g);
        let (a, seen) = attached_after(steps.drop_last(), f, g);
        if let AttachStep::Pump(session, ids) = steps.last() {
            lemma_pumped_knows(Mirror { att: a, session, ids }, seen, f, g);
        }
    }
}

proof fn lemma_all_marked(s: SessionView, map: Pairs<u64>, n: int, k: int)
    requires
        0 <= k < n <= map.len(),
    ensures
        pane_of(all_marked(s, map, n), PaneId(map[k].1)) matches Some(p) ==> p.backend is Remote
            ==> !p.alive,
    decreases n,
{
    let t = all_marked(s, map, n - 1);
    let id = PaneId(map[n - 1].1);
    let x = PaneId(map[k].1);
    if k < n - 1 {
        lemma_all_marked(s, map, n - 1, k);
    }
    if let Some(p) = pane_of(t, id) {
        lemma_pane_of(t, id);
        if x == id {
            lemma_with_pane_found(t, id, marked_exited(p));
        } else {
            lemma_with_pane_other(t, id, marked_exited(p), x);
        }
    }
}

/// Over an attachment's whole life, whatever is done with it and whatever it is pumped into: a pump
/// tells that the conversation goes on exactly where no goodbye and no end of output was drained so
/// far, by it or before. Where it is over, every mirror that is still in the session is dead. And a
/// paused pane is let go on exactly where a version with flow control was told before.
pub proof fn a_pump_ends_with_the_conversation(
    steps: Seq<AttachStep>,
    session: SessionView,
    ids: Ids,
    f: spec_fn(u64, u64) -> u32,
    g: spec_fn(u64, u64) -> u32,
)
    ensures
        ({
            let (a, seen) = attached_after(steps, f, g);
            let m = Mirror { att: a, session, ids };
            let (after, live) = pumped(m, f, g);
            let es = drained(a);
            let all = seen + es;
            let mirrors = applied_all(pumping(m), es, es.len() as int, f, g).att.panes;
            &&& live == !exists|i: int| 0 <= i < all.len() && is_goodbye(#[trigger] all[i])
            &&& !live && !a.finished ==> forall|k: int|
                0 <= k < mirrors.len() ==> (pane_of(
                    after.session,
                    PaneId((#[trigger] mirrors[k]).1),
                ) matches Some(p) ==> p.backend is Remote ==> !p.alive)
            &&& !live ==> pumped(after, f, g) == (after, false)
            &&& forall|i: int, pane: u64|
                0 <= i < es.len() && #[trigger] es[i] == #[trigger] paused(pane) ==> applied_all(
                    pumping(m),
                    es,
                    i + 1,
                    f,
                    g,
                ) == (if flow_control(seen + es.take(i)) == Some(true) {
                    let_go_on(applied_all(pumping(m), es, i, f, g), pane)
                } else {
                    applied_all(pumping(m), es, i, f, g)
                })
        }),
{
    let (a, seen) = attached_after(steps, f, g);
    let m = Mirror { att: a, session, ids };
    lemma_life_knows(steps, f, g);
    lemma_pumped_knows(m, seen, f, g);
    let es = drained(a);
    lemma_forwarded(a.transport, a.input, a.input.len() as int);
    let n = applied_all(pumping(m), es, es.len() as int, f, g);
    if !pumped(m, f, g).1 && !a.finished {
        assert forall|k: int| 0 <= k < n.att.panes.len() implies (pane_of(
            pumped(m, f, g).0.session,
            PaneId((#[trigger] n.att.panes[k]).1),
        ) matches Some(p) ==> p.backend is Remote ==> !p.alive) by {
            lemma_all_marked(n.session, n.att.panes, n.att.panes.len() as int, k);
        }
    }
    assert forall|i: int, pane: u64|
        0 <= i < es.len() && #[trigger] es[i] == #[trigger] paused(pane) implies applied_all(
        pumping(m),
        es,
        i + 1,
        f,
        g,
    ) == (if flow_control(seen + es.take(i)) == Some(true) {
        let_go_on(applied_all(pumping(m), es, i, f, g), pane)
    } else {
        applied_all(pumping(m), es, i, f, g)
    }) by {
        lemma_applied_all(pumping(m), seen, es, i, f, g);
        lemma_applied(applied_all(pumping(m), es, i, f, g), seen + es.take(i), es[i], f, g);
    }
}

/// The event that a pane's output was paused.
pub open spec fn paused(pane: u64) -> TransportEventView {
    TransportEventView::Ctrl(EventView::Notification(NotificationView::Pause { pane }))
}

/// A mirror that has told the remote side to let a pane go on.
pub open spec fn let_go_on(m: Mirror, pane: u64) -> Mirror {
    Mirror {
        att: AttachmentView {
            transport: commanded(
                m.att.transport,
                "refresh-client -A %"@ + dec(pane as nat) + ":continue"@,
            ),
            ..m.att
        },
        ..m
    }
}

} // verus!
