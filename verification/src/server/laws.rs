//! What the server promises its clients, whatever they ask.
use vstd::prelude::*;

#[allow(unused_imports)]
use crate::mux::attention::Attention;
#[allow(unused_imports)]
use crate::mux::ids::{PaneId, WindowId};
#[allow(unused_imports)]
use crate::mux::pane::{asked_notification, bumped, noted, PaneEventView, PaneView};
#[allow(unused_imports)]
use crate::mux::session::{
    focused, home_of, home_window, lemma_home, lemma_pane_changed, lemma_pane_of,
    lemma_window_index, lemma_with_pane_found, pane_of, window_index, SessionView,
};
#[allow(unused_imports)]
use crate::mux::window::{focused_dir, WindowView};
#[allow(unused_imports)]
use crate::proto::{CallView, NotifyWireView, ResponseView, ResultView};
#[allow(unused_imports)]
use crate::remote::keeping::{clear_of, follows, grown, lemma_below, lemma_follows_itself};
#[allow(unused_imports)]
use crate::remote::laws::windows_below;
#[allow(unused_imports)]
use crate::server::apart::{has_room, lemma_remotes_pumped, lemma_remotes_spare, sound};
#[allow(unused_imports)]
use crate::server::drain::{
    drained_events, drained_panes, drained_windows, nothing_drained, urgency_number, DrainedView,
};
#[allow(unused_imports)]
use crate::server::model::{
    active_pane, at_active, attended, focus_dir, handled, pumped_remotes, switched, ticked,
    ServerView, StepView,
};
#[allow(unused_imports)]
use crate::vt::osc::{NotificationView, TermEventView};

verus! {

/// Whether a response carries exactly one of a result and an error, under a request's id.
pub open spec fn well_formed(r: ResponseView, id: u64) -> bool {
    r.id == id && (r.result is Some) != (r.error is Some)
}

/// Every answer carries the id of its request, and exactly one of a result and an error.
#[verifier::rlimit(40)]
pub proof fn answers_match_requests(
    v: ServerView,
    id: u64,
    call: CallView,
    f: spec_fn(u32, u32) -> u32,
    g: spec_fn(u32, u32) -> u32,
)
    ensures
        match handled(v, id, call, f, g).1 {
            StepView::Reply(r) => well_formed(r, id),
            StepView::Write { id: i, .. } => i == id,
            StepView::Start { id: i, .. } => i == id,
            StepView::Resize { sizes, reply } => well_formed(reply, id),
            StepView::Scan { id: i, .. } => i == id,
            StepView::Attach { id: i, .. } => i == id,
            StepView::Branches { id: i, .. } => i == id,
        },
{
    match call {
        CallView::Hello { .. } => {},
        CallView::ListPanes => {},
        CallView::SendKeys { .. } => {},
        CallView::CapturePane { .. } => {},
        CallView::SearchPane { .. } => {},
        CallView::PromptOffsets { .. } => {},
        CallView::PaneBusy { .. } => {},
        CallView::WindowBusy { .. } => {},
        CallView::SplitPane { .. } => {},
        CallView::NewWindow { .. } => {},
        CallView::SetWorkspaceDir { .. } => {},
        CallView::ImportWorkspaces { .. } => {},
        CallView::Notify { .. } => {},
        CallView::GetLayout { .. } => {},
        CallView::GetGrid { .. } => {},
        CallView::ResizeView { .. } => {},
        CallView::FocusPane { .. } => {},
        CallView::ClosePane => {},
        CallView::SwapPanes { .. } => {},
        CallView::ClosePaneId { .. } => {},
        CallView::ToggleZoom => {},
        CallView::ResizeSplit { .. } => {},
        CallView::SwitchWindow { .. } => {},
        CallView::CloseWindow { .. } => {},
        CallView::SelectWindow { .. } => {},
        CallView::RenameWindow { .. } => {},
        CallView::GroupWindow { .. } => {},
        CallView::ColorWindow { .. } => {},
        CallView::SetPr { .. } => {},
        CallView::FocusPaneId { .. } => {},
        CallView::MoveWindow { .. } => {},
        CallView::PollNotifications => {},
        CallView::Subscribe { .. } => {},
        CallView::SetPalette { .. } => {},
        CallView::Browse { .. } => {},
        CallView::PollBrowse => {},
        CallView::SshTmux { .. } => {},
    }
}

/// No request empties the session: the last window is never closed by one.
pub proof fn requests_never_empty_the_session(
    v: ServerView,
    id: u64,
    call: CallView,
    f: spec_fn(u32, u32) -> u32,
    g: spec_fn(u32, u32) -> u32,
)
    requires
        v.session.wf(),
        v.session.windows.len() > 0,
    ensures
        handled(v, id, call, f, g).0.session.windows.len() > 0,
{
    match call {
        CallView::Hello { .. } => {},
        CallView::ListPanes => {},
        CallView::SendKeys { .. } => {},
        CallView::CapturePane { .. } => {},
        CallView::SearchPane { .. } => {},
        CallView::PromptOffsets { .. } => {},
        CallView::PaneBusy { .. } => {},
        CallView::WindowBusy { .. } => {},
        CallView::SplitPane { .. } => {},
        CallView::NewWindow { .. } => {},
        CallView::SetWorkspaceDir { id: win, .. } => {
            lemma_window_index(v.session.windows, WindowId(win), 0);
        },
        CallView::ImportWorkspaces { .. } => {},
        CallView::Notify { pane, .. } => {
            let target = match pane {
                Some(p) => PaneId(p),
                None => active_pane(v.session)->0,
            };
            lemma_home(v.session.windows, target, 0);
        },
        CallView::GetLayout { .. } => {},
        CallView::GetGrid { .. } => {},
        CallView::ResizeView { .. } => {},
        CallView::FocusPane { dir } => {
            if let Some(d) = focus_dir(dir) {
                lemma_attended(
                    at_active(
                        v.session,
                        |w: WindowView| focused_dir(w, d, v.last_view.0, v.last_view.1, f),
                    ),
                );
            }
        },
        CallView::ClosePane => {},
        CallView::SwapPanes { .. } => {},
        CallView::ClosePaneId { pane } => {
            lemma_home(v.session.windows, PaneId(pane), 0);
        },
        CallView::ToggleZoom => {},
        CallView::ResizeSplit { .. } => {},
        CallView::SwitchWindow { next } => {
            lemma_attended(switched(v.session, next));
        },
        CallView::CloseWindow { id: win } => {
            lemma_window_index(v.session.windows, WindowId(win), 0);
        },
        CallView::SelectWindow { index } => {
            lemma_attended(SessionView { active: index as nat, ..v.session });
        },
        CallView::RenameWindow { id: win, .. } => {
            lemma_window_index(v.session.windows, WindowId(win), 0);
        },
        CallView::GroupWindow { id: win, .. } => {
            lemma_window_index(v.session.windows, WindowId(win), 0);
        },
        CallView::ColorWindow { id: win, .. } => {
            lemma_window_index(v.session.windows, WindowId(win), 0);
        },
        CallView::SetPr { id: win, .. } => {
            lemma_window_index(v.session.windows, WindowId(win), 0);
        },
        CallView::FocusPaneId { pane } => {
            lemma_home(v.session.windows, PaneId(pane), 0);
            lemma_attended(focused(v.session, PaneId(pane)));
        },
        CallView::MoveWindow { .. } => {},
        CallView::PollNotifications => {},
        CallView::Subscribe { .. } => {},
        CallView::SetPalette { .. } => {},
        CallView::Browse { .. } => {},
        CallView::PollBrowse => {},
        CallView::SshTmux { .. } => {},
    }
}

/// Whether a request moves the focus to a pane.
pub open spec fn turns(v: ServerView, call: CallView) -> bool {
    match call {
        CallView::FocusPane { dir } => focus_dir(dir) is Some,
        CallView::FocusPaneId { pane } => pane_of(v.session, PaneId(pane)) is Some,
        CallView::SelectWindow { index } => index < v.session.windows.len(),
        CallView::SwitchWindow { .. } => true,
        _ => false,
    }
}

proof fn lemma_attended(s: SessionView)
    ensures
        attended(s).windows.len() == s.windows.len(),
        active_pane(attended(s)) == active_pane(s),
        active_pane(s) matches Some(t) ==> (pane_of(attended(s), t) matches Some(p) ==> p.attention
            == Attention::Quiet && p.unread == 0),
{
    if let Some(t) = active_pane(s) {
        if let Some(p) = pane_of(s, t) {
            lemma_home(s.windows, t, 0);
            lemma_pane_of(s, t);
            lemma_with_pane_found(s, t, PaneView { attention: Attention::Quiet, unread: 0, ..p });
        }
    }
}

/// Attention clears when the user focuses a pane: behind a request that moves the focus, the
/// active pane is quiet and has nothing unread.
pub proof fn focusing_clears_attention(
    v: ServerView,
    id: u64,
    call: CallView,
    f: spec_fn(u32, u32) -> u32,
    g: spec_fn(u32, u32) -> u32,
)
    requires
        turns(v, call),
    ensures
        ({
            let s = handled(v, id, call, f, g).0.session;
            active_pane(s) matches Some(t) ==> (pane_of(s, t) matches Some(p) ==> p.attention
                == Attention::Quiet && p.unread == 0)
        }),
{
    match call {
        CallView::FocusPane { dir } => {
            let d = focus_dir(dir)->0;
            lemma_attended(
                at_active(
                    v.session,
                    |w: WindowView| focused_dir(w, d, v.last_view.0, v.last_view.1, f),
                ),
            );
        },
        CallView::FocusPaneId { pane } => {
            lemma_attended(focused(v.session, PaneId(pane)));
        },
        CallView::SelectWindow { index } => {
            lemma_attended(SessionView { active: index as nat, ..v.session });
        },
        CallView::SwitchWindow { next } => {
            lemma_attended(switched(v.session, next));
        },
        _ => {},
    }
}

/// Reading changes nothing.
pub proof fn reading_changes_nothing(
    v: ServerView,
    id: u64,
    call: CallView,
    f: spec_fn(u32, u32) -> u32,
    g: spec_fn(u32, u32) -> u32,
)
    requires
        call is Hello || call is ListPanes || call is CapturePane || call is SearchPane
            || call is PromptOffsets || call is PaneBusy || call is WindowBusy || call is GetGrid
            || call is Subscribe || call is ImportWorkspaces || call is SshTmux,
    ensures
        handled(v, id, call, f, g).0 == v,
{
}

/// The window that a request names, where it names one.
pub open spec fn named_window(call: CallView) -> Option<u64> {
    match call {
        CallView::SetWorkspaceDir { id, .. } => Some(id),
        CallView::CloseWindow { id } => Some(id),
        CallView::RenameWindow { id, .. } => Some(id),
        CallView::GroupWindow { id, .. } => Some(id),
        CallView::ColorWindow { id, .. } => Some(id),
        CallView::SetPr { id, .. } => Some(id),
        _ => None,
    }
}

/// A request that names a window which is gone is a harmless no-op, and no error.
pub proof fn gone_windows_are_harmless(
    v: ServerView,
    id: u64,
    call: CallView,
    f: spec_fn(u32, u32) -> u32,
    g: spec_fn(u32, u32) -> u32,
)
    requires
        named_window(call) matches Some(win) && window_index(
            v.session.windows,
            WindowId(win),
            0,
        ) is None,
    ensures
        handled(v, id, call, f, g).0 == v,
        handled(v, id, call, f, g).1 matches StepView::Reply(r) && r.result == Some(
            ResultView::Done,
        ),
{
}

/// The pane that a reading request names, where it names one.
pub open spec fn named_pane(call: CallView) -> Option<u64> {
    match call {
        CallView::SendKeys { pane, .. } => Some(pane),
        CallView::CapturePane { pane, .. } => Some(pane),
        CallView::SearchPane { pane, .. } => Some(pane),
        CallView::PromptOffsets { pane } => Some(pane),
        CallView::PaneBusy { pane } => Some(pane),
        CallView::GetGrid { pane, .. } => Some(pane),
        _ => None,
    }
}

/// A request that names a pane which is not there is refused, and changes nothing.
pub proof fn unknown_panes_are_refused(
    v: ServerView,
    id: u64,
    call: CallView,
    f: spec_fn(u32, u32) -> u32,
    g: spec_fn(u32, u32) -> u32,
)
    requires
        named_pane(call) matches Some(pane) && pane_of(v.session, PaneId(pane)) is None,
    ensures
        handled(v, id, call, f, g).0 == v,
        handled(v, id, call, f, g).1 matches StepView::Reply(r) && r.error is Some,
{
}

/// Polling takes everything that waits, in order, and takes it once.
pub proof fn polling_takes_everything_once(
    v: ServerView,
    a: u64,
    b: u64,
    f: spec_fn(u32, u32) -> u32,
    g: spec_fn(u32, u32) -> u32,
)
    ensures
        handled(v, a, CallView::PollNotifications, f, g).1 matches StepView::Reply(r) && r.result
            == Some(ResultView::Notifications(v.notifications)),
        handled(
            handled(v, a, CallView::PollNotifications, f, g).0,
            b,
            CallView::PollNotifications,
            f,
            g,
        ).1 matches StepView::Reply(r) && r.result == Some(
            ResultView::Notifications(Seq::empty()),
        ),
        handled(v, a, CallView::PollBrowse, f, g).1 matches StepView::Reply(r) && r.result == Some(
            ResultView::Browses(v.browse_requests),
        ),
        handled(
            handled(v, a, CallView::PollBrowse, f, g).0,
            b,
            CallView::PollBrowse,
            f,
            g,
        ).1 matches StepView::Reply(r) && r.result == Some(ResultView::Browses(Seq::empty())),
{
}

/// A page that was queued is what the next poll ends with.
pub proof fn queued_pages_are_polled(
    v: ServerView,
    a: u64,
    b: u64,
    url: Seq<char>,
    f: spec_fn(u32, u32) -> u32,
    g: spec_fn(u32, u32) -> u32,
)
    ensures
        handled(
            handled(v, a, CallView::Browse { url }, f, g).0,
            b,
            CallView::PollBrowse,
            f,
            g,
        ).1 matches StepView::Reply(r) && r.result == Some(
            ResultView::Browses(v.browse_requests.push(url)),
        ),
{
}

/// Only notifications wait to be polled: what a tick queues is the start of what it tells
/// subscribers, and exits, damage and clipboard text come behind it and are not queued.
pub proof fn only_notifications_are_queued(
    v: ServerView,
    found: Seq<(u64, Option<crate::mux::workspace::PrBadgeView>)>,
    f: spec_fn(u64, u64) -> u32,
    g: spec_fn(u64, u64) -> u32,
)
    ensures
        ({
            let (w, t) = ticked(v, found, f, g);
            let n = w.notifications.len() - v.notifications.len();
            &&& 0 <= n <= t.batch.len()
            &&& w.notifications == v.notifications + t.batch.take(n)
        }),
{
    let (w, t) = ticked(v, found, f, g);
    let n = w.notifications.len() - v.notifications.len();
    assert(w.notifications =~= v.notifications + t.batch.take(n));
}

/// The wire form of a pane's notification.
pub open spec fn wire_of(pane: PaneId, n: NotificationView) -> NotifyWireView {
    NotifyWireView {
        pane: pane.0,
        title: n.title,
        body: n.body,
        urgency: urgency_number(n.urgency),
    }
}

proof fn lemma_still_noted(a: Seq<NotifyWireView>, b: Seq<NotifyWireView>, x: NotifyWireView)
    requires
        a.contains(x),
        a.len() <= b.len(),
        b.take(a.len() as int) == a,
    ensures
        b.contains(x),
{
    let k = choose|k: int| 0 <= k < a.len() && a[k] == x;
    assert(b.take(a.len() as int)[k] == b[k]);
}

proof fn lemma_events_noted(d: DrainedView, id: PaneId, es: Seq<PaneEventView>, n: int)
    requires
        0 <= n <= es.len(),
    ensures
        ({
            let notes = drained_events(d, id, es, n).notes;
            &&& d.notes.len() <= notes.len()
            &&& notes.take(d.notes.len() as int) == d.notes
            &&& forall|m: int|
                0 <= m < n && (#[trigger] es[m]) is Notification ==> notes.contains(
                    wire_of(id, es[m]->Notification_0),
                )
        }),
    decreases n,
{
    let notes = drained_events(d, id, es, n).notes;
    if n > 0 {
        lemma_events_noted(d, id, es, n - 1);
        let front = drained_events(d, id, es, n - 1).notes;
        assert(notes.take(front.len() as int) =~= front);
        assert(notes.take(d.notes.len() as int) =~= front.take(d.notes.len() as int));
        assert forall|m: int| 0 <= m < n && (#[trigger] es[m]) is Notification implies
            notes.contains(wire_of(id, es[m]->Notification_0)) by {
            if m < n - 1 {
                lemma_still_noted(front, notes, wire_of(id, es[m]->Notification_0));
            } else {
                assert(notes.last() == wire_of(id, es[m]->Notification_0));
            }
        }
    } else {
        assert(notes.take(d.notes.len() as int) =~= d.notes);
    }
}

proof fn lemma_panes_noted(d: DrainedView, panes: Seq<PaneView>, n: int)
    requires
        0 <= n <= panes.len(),
    ensures
        ({
            let notes = drained_panes(d, panes, n).notes;
            &&& d.notes.len() <= notes.len()
            &&& notes.take(d.notes.len() as int) == d.notes
            &&& forall|k: int, m: int|
                0 <= k < n && 0 <= m < panes[k].events.len() && (
                #[trigger] panes[k].events[m]) is Notification ==> notes.contains(
                    wire_of(panes[k].id, panes[k].events[m]->Notification_0),
                )
        }),
    decreases n,
{
    let notes = drained_panes(d, panes, n).notes;
    if n > 0 {
        lemma_panes_noted(d, panes, n - 1);
        let front = drained_panes(d, panes, n - 1);
        let p = panes[n - 1];
        lemma_events_noted(front, p.id, p.events, p.events.len() as int);
        assert(notes.take(d.notes.len() as int) =~= front.notes.take(d.notes.len() as int)) by {
            assert(notes.take(front.notes.len() as int) == front.notes);
            assert forall|i: int| 0 <= i < d.notes.len() implies notes[i] == front.notes[i] by {
                assert(notes.take(front.notes.len() as int)[i] == notes[i]);
            }
        }
        assert forall|k: int, m: int|
            0 <= k < n && 0 <= m < panes[k].events.len() && (
            #[trigger] panes[k].events[m]) is Notification implies notes.contains(
            wire_of(panes[k].id, panes[k].events[m]->Notification_0),
        ) by {
            if k < n - 1 {
                lemma_still_noted(
                    front.notes,
                    notes,
                    wire_of(panes[k].id, panes[k].events[m]->Notification_0),
                );
            }
        }
    } else {
        assert(notes.take(d.notes.len() as int) =~= d.notes);
    }
}

proof fn lemma_windows_noted(windows: Seq<WindowView>, n: int, w: int, k: int, m: int)
    requires
        0 <= w < n <= windows.len(),
        0 <= k < windows[w].panes.len(),
        0 <= m < windows[w].panes[k].events.len(),
        windows[w].panes[k].events[m] is Notification,
    ensures
        drained_windows(nothing_drained(), windows, n).notes.contains(
            wire_of(
                windows[w].panes[k].id,
                windows[w].panes[k].events[m]->Notification_0,
            ),
        ),
    decreases n,
{
    let p = windows[w].panes[k];
    let front = drained_windows(nothing_drained(), windows, n - 1);
    let panes = windows[n - 1].panes;
    lemma_panes_noted(front, panes, panes.len() as int);
    if w < n - 1 {
        lemma_windows_noted(windows, n - 1, w, k, m);
        lemma_still_noted(
            front.notes,
            drained_windows(nothing_drained(), windows, n).notes,
            wire_of(p.id, p.events[m]->Notification_0),
        );
    } else {
        assert(panes[k].events[m] is Notification);
    }
}

/// No notification is lost: a tick queues every one that waits in a pane once the attachments
/// were pumped, and tells it to every subscriber.
pub proof fn waiting_notifications_are_delivered(
    v: ServerView,
    found: Seq<(u64, Option<crate::mux::workspace::PrBadgeView>)>,
    f: spec_fn(u64, u64) -> u32,
    g: spec_fn(u64, u64) -> u32,
    w: int,
    k: int,
    m: int,
)
    requires
        ({
            let s = pumped_remotes(v.session, v.ids, v.remotes, v.remotes.len() as int, f, g).0;
            &&& 0 <= w < s.windows.len()
            &&& 0 <= k < s.windows[w].panes.len()
            &&& 0 <= m < s.windows[w].panes[k].events.len()
            &&& s.windows[w].panes[k].events[m] is Notification
        }),
    ensures
        ({
            let s = pumped_remotes(v.session, v.ids, v.remotes, v.remotes.len() as int, f, g).0;
            let p = s.windows[w].panes[k];
            let wire = wire_of(p.id, p.events[m]->Notification_0);
            &&& ticked(v, found, f, g).0.notifications.contains(wire)
            &&& ticked(v, found, f, g).1.batch.contains(wire)
        }),
{
    let s = pumped_remotes(v.session, v.ids, v.remotes, v.remotes.len() as int, f, g).0;
    let p = s.windows[w].panes[k];
    let wire = wire_of(p.id, p.events[m]->Notification_0);
    let n = s.windows.len() as int;
    lemma_windows_noted(s.windows, n, w, k, m);
    let notes = drained_windows(nothing_drained(), s.windows, n).notes;
    let at = choose|at: int| 0 <= at < notes.len() && notes[at] == wire;
    let (after, tick) = ticked(v, found, f, g);
    assert(after.notifications[v.notifications.len() + at] == wire);
    assert(tick.batch[at] == wire);
}

/// A notification that a client raises for a pane is delivered as if the pane had emitted it: the
/// pane is pending and counts it as unread, and, unless an attachment takes the pane away before,
/// the next tick tells it to subscribers and the next poll holds it.
pub proof fn raised_notifications_are_delivered(
    v: ServerView,
    a: u64,
    b: u64,
    pane: u64,
    title: Seq<char>,
    body: Seq<char>,
    found: Seq<(u64, Option<crate::mux::workspace::PrBadgeView>)>,
    f: spec_fn(u32, u32) -> u32,
    g: spec_fn(u32, u32) -> u32,
    h: spec_fn(u64, u64) -> u32,
    e: spec_fn(u64, u64) -> u32,
)
    requires
        pane_of(v.session, PaneId(pane)) is Some,
        v.remotes.len() > 0 ==> sound(v) && has_room(v),
        ({
            let call = CallView::Notify { pane: Some(pane), title, body };
            let w = handled(v, a, call, f, g).0;
            let s = pumped_remotes(w.session, w.ids, w.remotes, w.remotes.len() as int, h, e).0;
            pane_of(s, PaneId(pane)) is Some
        }),
    ensures
        ({
            let call = CallView::Notify { pane: Some(pane), title, body };
            let asked = handled(v, a, call, f, g).0;
            let (after, tick) = ticked(asked, found, h, e);
            let wire = NotifyWireView { pane, title, body, urgency: 1 };
            let p = pane_of(asked.session, PaneId(pane))->0;
            &&& p.attention == Attention::Pending
            &&& p.unread == bumped(pane_of(v.session, PaneId(pane))->0.unread)
            &&& tick.batch.contains(wire)
            &&& handled(after, b, CallView::PollNotifications, f, g).1 matches StepView::Reply(r)
                && r.result matches Some(ResultView::Notifications(notes)) && notes.contains(wire)
        }),
{
    let call = CallView::Notify { pane: Some(pane), title, body };
    let asked = handled(v, a, call, f, g).0;
    let id = PaneId(pane);
    let p = pane_of(v.session, id)->0;
    let event = TermEventView::Notification(asked_notification(title, body));
    let q = noted(p, event);
    let n = v.remotes.len() as int;
    let (s, ids, rest) = pumped_remotes(asked.session, asked.ids, asked.remotes, n, h, e);
    lemma_pane_of(v.session, id);
    lemma_with_pane_found(v.session, id, q);
    let r = pane_of(s, id)->0;
    if n > 0 {
        lemma_pane_changed(v.session, id, q, id);
        lemma_below(v.session, v.ids.pane);
        assert forall|x: PaneId| #[trigger] pane_of(asked.session, x) is Some implies x.0
            < v.ids.pane by {
            lemma_pane_changed(v.session, id, q, x);
        }
        lemma_below(asked.session, v.ids.pane);
        lemma_home(v.session.windows, id, 0);
        assert(windows_below(asked.session, v.ids.window));
        lemma_remotes_pumped(asked.session, asked.ids, asked.remotes, n, h, e);
        assert(grown(asked.session, asked.ids.pane, s, ids.pane, id));
    } else {
        lemma_follows_itself(q);
    }
    assert(follows(q, r));
    let m = q.events.len() - 1;
    assert(q.events[m] == PaneEventView::Notification(asked_notification(title, body)));
    assert(r.events.take(q.events.len() as int)[m] == r.events[m]);
    lemma_home(s.windows, id, 0);
    let w = home_of(s.windows, id, 0)->0;
    crate::mux::window::lemma_pane_index(s.windows[w].panes, id, 0);
    let k = crate::mux::window::pane_index(s.windows[w].panes, id, 0)->0;
    assert(s.windows[w].panes[k] == r);
    waiting_notifications_are_delivered(asked, found, h, e, w, k, m);
}

/// A notification that a client raises for a local pane is delivered, whatever peers send: where no
/// attachment mirrors into the pane or into its window, the pane is still there when the next tick
/// has pumped the attachments, so the tick tells the notification to subscribers and the next poll
/// holds it.
pub proof fn raised_notifications_of_local_panes_are_delivered(
    v: ServerView,
    a: u64,
    b: u64,
    pane: u64,
    window: WindowId,
    title: Seq<char>,
    body: Seq<char>,
    found: Seq<(u64, Option<crate::mux::workspace::PrBadgeView>)>,
    f: spec_fn(u32, u32) -> u32,
    g: spec_fn(u32, u32) -> u32,
    h: spec_fn(u64, u64) -> u32,
    e: spec_fn(u64, u64) -> u32,
)
    requires
        sound(v),
        has_room(v),
        home_window(v.session, PaneId(pane)) == Some(window),
        forall|k: int|
            0 <= k < v.remotes.len() ==> clear_of(
                (#[trigger] v.remotes[k]).1,
                PaneId(pane),
                window,
            ),
    ensures
        ({
            let call = CallView::Notify { pane: Some(pane), title, body };
            let asked = handled(v, a, call, f, g).0;
            let (after, tick) = ticked(asked, found, h, e);
            let wire = NotifyWireView { pane, title, body, urgency: 1 };
            &&& tick.batch.contains(wire)
            &&& handled(after, b, CallView::PollNotifications, f, g).1 matches StepView::Reply(r)
                && r.result matches Some(ResultView::Notifications(notes)) && notes.contains(wire)
        }),
{
    let call = CallView::Notify { pane: Some(pane), title, body };
    let asked = handled(v, a, call, f, g).0;
    let id = PaneId(pane);
    lemma_home(v.session.windows, id, 0);
    let p = pane_of(v.session, id)->0;
    let q = noted(p, TermEventView::Notification(asked_notification(title, body)));
    lemma_pane_of(v.session, id);
    lemma_pane_changed(v.session, id, q, id);
    lemma_below(v.session, v.ids.pane);
    assert forall|x: PaneId| #[trigger] pane_of(asked.session, x) is Some implies x.0
        < v.ids.pane by {
        lemma_pane_changed(v.session, id, q, x);
    }
    lemma_below(asked.session, v.ids.pane);
    assert(windows_below(asked.session, v.ids.window));
    lemma_remotes_spare(
        asked.session,
        asked.ids,
        asked.remotes,
        v.remotes.len() as int,
        h,
        e,
        id,
        window,
    );
    raised_notifications_are_delivered(v, a, b, pane, title, body, found, f, g, h, e);
}

/// What waits in a pane is delivered, whatever peers send: a notification that waits before a tick
/// is told by it to subscribers and is held by the next poll, where the pane is still there once
/// the attachments were pumped.
pub proof fn notifications_that_wait_are_delivered(
    v: ServerView,
    b: u64,
    pane: PaneId,
    m: int,
    found: Seq<(u64, Option<crate::mux::workspace::PrBadgeView>)>,
    f: spec_fn(u32, u32) -> u32,
    g: spec_fn(u32, u32) -> u32,
    h: spec_fn(u64, u64) -> u32,
    e: spec_fn(u64, u64) -> u32,
)
    requires
        sound(v),
        has_room(v),
        pane_of(v.session, pane) matches Some(p) && 0 <= m < p.events.len() && p.events[m] is Notification,
        pane_of(
            pumped_remotes(v.session, v.ids, v.remotes, v.remotes.len() as int, h, e).0,
            pane,
        ) is Some,
    ensures
        ({
            let (after, tick) = ticked(v, found, h, e);
            let p = pane_of(v.session, pane)->0;
            let wire = wire_of(pane, p.events[m]->Notification_0);
            &&& tick.batch.contains(wire)
            &&& handled(after, b, CallView::PollNotifications, f, g).1 matches StepView::Reply(r)
                && r.result matches Some(ResultView::Notifications(notes)) && notes.contains(wire)
        }),
{
    let n = v.remotes.len() as int;
    let (s, ids, rest) = pumped_remotes(v.session, v.ids, v.remotes, n, h, e);
    let p = pane_of(v.session, pane)->0;
    let r = pane_of(s, pane)->0;
    lemma_remotes_pumped(v.session, v.ids, v.remotes, n, h, e);
    assert(grown(v.session, v.ids.pane, s, ids.pane, pane));
    assert(r.events.take(p.events.len() as int)[m] == r.events[m]);
    lemma_pane_of(s, pane);
    lemma_home(s.windows, pane, 0);
    let w = home_of(s.windows, pane, 0)->0;
    crate::mux::window::lemma_pane_index(s.windows[w].panes, pane, 0);
    let k = crate::mux::window::pane_index(s.windows[w].panes, pane, 0)->0;
    assert(s.windows[w].panes[k] == r);
    waiting_notifications_are_delivered(v, found, h, e, w, k, m);
}

} // verus!
