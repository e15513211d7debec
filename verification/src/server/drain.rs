//! One round of draining: what all panes reported since the last one, and the progress that is
//! remembered of them.
use vstd::prelude::*;

use crate::lists::reversed;
use crate::mux::ids::PaneId;
use crate::mux::pane::PaneEvent;
#[allow(unused_imports)]
use crate::mux::pane::{pane_events_view, PaneEventView, PaneView};
use crate::mux::session::Session;
#[allow(unused_imports)]
use crate::mux::session::{pane_of, windows_view, SessionView};
#[allow(unused_imports)]
use crate::mux::window::{all_wf, distinct, holds, lemma_holds, panes_view, WindowView};
use crate::pairs::{insert, remove};
#[allow(unused_imports)]
use crate::pairs::{put, without_key, Pairs};
use crate::proto::NotifyWire;
#[allow(unused_imports)]
use crate::proto::{wires_view, NotifyWireView};
use crate::server::render::Progress;
use crate::server::wires::clipboard_notify;
#[allow(unused_imports)]
use crate::server::wires::clipboard_wire;
use crate::vt::osc::{ProgressState, Urgency};

verus! {

/// The number of an urgency.
pub open spec fn urgency_number(u: Urgency) -> u8 {
    match u {
        Urgency::Low => 0,
        Urgency::Normal => 1,
        Urgency::Critical => 2,
    }
}

/// What was drained.
pub struct Drained {
    pub notes: Vec<NotifyWire>,
    pub exited: Vec<PaneId>,
    pub progress: Vec<(PaneId, ProgressState, Option<u8>)>,
    /// Panes whose grid changed, each once.
    pub damaged: Vec<PaneId>,
    pub clipboards: Vec<NotifyWire>,
}

/// The mathematical value of a [`Drained`].
pub struct DrainedView {
    pub notes: Seq<NotifyWireView>,
    pub exited: Seq<PaneId>,
    pub progress: Seq<(PaneId, ProgressState, Option<u8>)>,
    pub damaged: Seq<PaneId>,
    pub clipboards: Seq<NotifyWireView>,
}

impl Drained {
    pub open spec fn view(&self) -> DrainedView {
        DrainedView {
            notes: wires_view(self.notes@),
            exited: self.exited@,
            progress: self.progress@,
            damaged: self.damaged@,
            clipboards: wires_view(self.clipboards@),
        }
    }
}

/// Nothing drained.
pub open spec fn nothing_drained() -> DrainedView {
    DrainedView {
        notes: Seq::empty(),
        exited: Seq::empty(),
        progress: Seq::empty(),
        damaged: Seq::empty(),
        clipboards: Seq::empty(),
    }
}

/// What one event of a pane adds.
pub open spec fn drained_event(d: DrainedView, id: PaneId, e: PaneEventView) -> DrainedView {
    match e {
        PaneEventView::Notification(n) => DrainedView {
            notes: d.notes.push(
                NotifyWireView {
                    pane: id.0,
                    title: n.title,
                    body: n.body,
                    urgency: urgency_number(n.urgency),
                },
            ),
            ..d
        },
        PaneEventView::Exited => DrainedView { exited: d.exited.push(id), ..d },
        PaneEventView::Progress { state, pct } => DrainedView {
            progress: d.progress.push((id, state, pct)),
            ..d
        },
        PaneEventView::Output => if d.damaged.contains(id) {
            d
        } else {
            DrainedView { damaged: d.damaged.push(id), ..d }
        },
        PaneEventView::Clipboard(text) => DrainedView {
            clipboards: d.clipboards.push(clipboard_wire(id.0, text)),
            ..d
        },
        _ => d,
    }
}

/// What the first `n` events of a pane add.
pub open spec fn drained_events(d: DrainedView, id: PaneId, es: Seq<PaneEventView>, n: int) -> DrainedView
    decreases n,
{
    if n <= 0 {
        d
    } else {
        drained_event(drained_events(d, id, es, n - 1), id, es[n - 1])
    }
}

/// What the first `n` panes add.
pub open spec fn drained_panes(d: DrainedView, panes: Seq<PaneView>, n: int) -> DrainedView
    decreases n,
{
    if n <= 0 {
        d
    } else {
        let p = panes[n - 1];
        drained_events(drained_panes(d, panes, n - 1), p.id, p.events, p.events.len() as int)
    }
}

/// What the panes of the first `n` windows add.
pub open spec fn drained_windows(d: DrainedView, windows: Seq<WindowView>, n: int) -> DrainedView
    decreases n,
{
    if n <= 0 {
        d
    } else {
        let w = windows[n - 1];
        drained_panes(drained_windows(d, windows, n - 1), w.panes, w.panes.len() as int)
    }
}

/// A pane with no pending events.
pub open spec fn quieted_pane(p: PaneView) -> PaneView {
    PaneView { events: Seq::empty(), ..p }
}

/// A window whose first `n` panes have no pending events.
pub open spec fn quieted_window(w: WindowView, n: int) -> WindowView {
    WindowView {
        panes: Seq::new(
            w.panes.len(),
            |i: int|
                if i < n {
                    quieted_pane(w.panes[i])
                } else {
                    w.panes[i]
                },
        ),
        ..w
    }
}

/// A session whose first `n` windows have no pending events.
pub open spec fn quieted(s: SessionView, n: int) -> SessionView {
    SessionView {
        windows: Seq::new(
            s.windows.len(),
            |i: int|
                if i < n {
                    quieted_window(s.windows[i], s.windows[i].panes.len() as int)
                } else {
                    s.windows[i]
                },
        ),
        ..s
    }
}

proof fn lemma_quieted_window(w: WindowView, n: int)
    ensures
        w.complete() ==> quieted_window(w, n).complete(),
        w.wf() ==> quieted_window(w, n).wf(),
{
    let q = quieted_window(w, n);
    assert forall|x: PaneId| #[trigger] holds(q.panes, x) == holds(w.panes, x) by {
        lemma_holds(q.panes, x);
        lemma_holds(w.panes, x);
        if holds(w.panes, x) {
            let i = choose|i: int| 0 <= i < w.panes.len() && (#[trigger] w.panes[i]).id == x;
            assert(q.panes[i].id == x);
        }
        if holds(q.panes, x) {
            let i = choose|i: int| 0 <= i < q.panes.len() && (#[trigger] q.panes[i]).id == x;
            assert(w.panes[i].id == x);
        }
    }
    if w.wf() {
        assert(distinct(q.panes)) by {
            assert forall|i: int, j: int| 0 <= i < j < q.panes.len() implies (
            #[trigger] q.panes[i]).id != (#[trigger] q.panes[j]).id by {
                assert(w.panes[i].id != w.panes[j].id);
            }
        }
        assert(all_wf(q.panes)) by {
            assert forall|i: int| 0 <= i < q.panes.len() implies (#[trigger] q.panes[i]).wf() by {
                assert(w.panes[i].wf());
            }
        }
    }
}

fn has_id(ids: &Vec<PaneId>, id: PaneId) -> (r: bool)
    ensures
        r == ids@.contains(id),
{
    let mut i: usize = 0;
    while i < ids.len()
        invariant
            i <= ids@.len(),
            forall|j: int| 0 <= j < i ==> #[trigger] ids@[j] != id,
        decreases ids@.len() - i,
    {
        if ids[i] == id {
            assert(ids@[i as int] == id);
            return true;
        }
        i = i + 1;
    }
    false
}

fn push_wire(wires: &mut Vec<NotifyWire>, n: NotifyWire)
    ensures
        wires_view(final(wires)@) == wires_view(old(wires)@).push(n@),
{
    wires.push(n);
    assert(wires_view(wires@) =~= wires_view(old(wires)@).push(n@));
}

fn note_event(d: &mut Drained, id: PaneId, e: PaneEvent)
    ensures
        final(d)@ == drained_event(old(d)@, id, e@),
{
    match e {
        PaneEvent::Notification(n) => {
            let urgency: u8 = match n.urgency {
                Urgency::Low => 0,
                Urgency::Normal => 1,
                Urgency::Critical => 2,
            };
            push_wire(
                &mut d.notes,
                NotifyWire { pane: id.0, title: n.title, body: n.body, urgency },
            );
        },
        PaneEvent::Exited => {
            d.exited.push(id);
        },
        PaneEvent::Progress { state, pct } => {
            d.progress.push((id, state, pct));
        },
        PaneEvent::Output => {
            if !has_id(&d.damaged, id) {
                d.damaged.push(id);
            }
        },
        PaneEvent::Clipboard(text) => {
            push_wire(&mut d.clipboards, clipboard_notify(id.0, text));
        },
        _ => {},
    }
}

fn note_events(d: &mut Drained, id: PaneId, events: Vec<PaneEvent>)
    ensures
        final(d)@ == drained_events(
            old(d)@,
            id,
            pane_events_view(events@),
            events@.len() as int,
        ),
{
    let ghost es = pane_events_view(events@);
    let ghost n = events@.len();
    let mut rest = reversed(events);
    let ghost mut done: int = 0;
    while rest.len() > 0
        invariant
            0 <= done,
            done + rest@.len() == n,
            n == events@.len(),
            es == pane_events_view(events@),
            rest@ =~= events@.reverse().take(rest@.len() as int),
            d@ == drained_events(old(d)@, id, es, done),
        decreases rest@.len(),
    {
        assert(rest@[rest@.len() - 1] == events@[done]);
        if let Some(e) = rest.pop() {
            assert(es[done] == e@);
            note_event(d, id, e);
            proof {
                done = done + 1;
            }
        }
    }
}

/// Takes the pending events of all panes.
pub fn drain(session: &mut Session) -> (d: Drained)
    ensures
        d@ == drained_windows(
            nothing_drained(),
            old(session)@.windows,
            old(session)@.windows.len() as int,
        ),
        final(session)@ == quieted(old(session)@, old(session)@.windows.len() as int),
        old(session)@.complete() ==> final(session)@.complete(),
{
    let mut d = Drained {
        notes: Vec::new(),
        exited: Vec::new(),
        progress: Vec::new(),
        damaged: Vec::new(),
        clipboards: Vec::new(),
    };
    assert(wires_view(d.notes@) =~= Seq::empty());
    assert(wires_view(d.clipboards@) =~= Seq::empty());
    let ghost s = session@;
    let mut wi: usize = 0;
    assert(quieted(s, 0).windows =~= s.windows);
    while wi < session.window_count()
        invariant
            wi <= s.windows.len(),
            session@ == quieted(s, wi as int),
            d@ == drained_windows(nothing_drained(), s.windows, wi as int),
        decreases s.windows.len() - wi,
    {
        let ghost w = s.windows[wi as int];
        assert(session@.windows[wi as int] == w);
        if let Some(win) = session.window_at_mut(wi) {
            let ghost start = d@;
            let n: usize = win.pane_count();
            let mut i: usize = 0;
            assert(quieted_window(w, 0).panes =~= w.panes);
            while i < n
                invariant
                    i <= n,
                    n == w.panes.len(),
                    win@ == quieted_window(w, i as int),
                    d@ == drained_panes(start, w.panes, i as int),
                decreases n - i,
            {
                let ghost now = win@;
                assert(now.panes[i as int] == w.panes[i as int]);
                let panes = win.panes_mut();
                assert(panes_view(panes@).len() == now.panes.len());
                let p = &mut panes[i];
                let id = p.pane_id();
                let events = p.drain_events();
                assert(panes_view(panes@) =~= now.panes.update(
                    i as int,
                    quieted_pane(w.panes[i as int]),
                ));
                note_events(&mut d, id, events);
                assert(win@.panes =~= quieted_window(w, i + 1).panes);
                i = i + 1;
            }
        }
        assert(session@.windows =~= quieted(s, wi + 1).windows);
        wi = wi + 1;
    }
    proof {
        if s.complete() {
            assert forall|i: int| 0 <= i < s.windows.len() implies (
            #[trigger] session@.windows[i]).complete() by {
                lemma_quieted_window(s.windows[i], s.windows[i].panes.len() as int);
                assert(s.windows[i].complete());
            }
        }
    }
    d
}

// ---------------------------------------------------------------------------
// Dead panes.
// ---------------------------------------------------------------------------

/// The ids with those of the dead among the first `n` panes, each once.
pub open spec fn with_dead_panes(exited: Seq<PaneId>, panes: Seq<PaneView>, n: int) -> Seq<PaneId>
    decreases n,
{
    if n <= 0 {
        exited
    } else {
        let e = with_dead_panes(exited, panes, n - 1);
        if !panes[n - 1].alive && !e.contains(panes[n - 1].id) {
            e.push(panes[n - 1].id)
        } else {
            e
        }
    }
}

/// The ids with those of the dead panes of the first `n` windows.
pub open spec fn with_dead(exited: Seq<PaneId>, windows: Seq<WindowView>, n: int) -> Seq<PaneId>
    decreases n,
{
    if n <= 0 {
        exited
    } else {
        with_dead_panes(
            with_dead(exited, windows, n - 1),
            windows[n - 1].panes,
            windows[n - 1].panes.len() as int,
        )
    }
}

/// Adds the panes whose program is gone, whether or not they reported it.
pub fn sweep_dead(session: &Session, exited: &mut Vec<PaneId>)
    ensures
        final(exited)@ == with_dead(
            old(exited)@,
            session@.windows,
            session@.windows.len() as int,
        ),
{
    let windows = session.windows();
    let mut wi: usize = 0;
    while wi < windows.len()
        invariant
            wi <= windows@.len(),
            windows_view(windows@) == session@.windows,
            exited@ == with_dead(old(exited)@, session@.windows, wi as int),
        decreases windows@.len() - wi,
    {
        assert(session@.windows[wi as int] == windows@[wi as int]@);
        let panes = windows[wi].panes();
        let ghost start = exited@;
        let ghost ps = session@.windows[wi as int].panes;
        let mut i: usize = 0;
        while i < panes.len()
            invariant
                i <= panes@.len(),
                panes_view(panes@) == ps,
                exited@ == with_dead_panes(start, ps, i as int),
            decreases panes@.len() - i,
        {
            assert(ps[i as int] == panes@[i as int]@);
            if !panes[i].is_alive() && !has_id(exited, panes[i].pane_id()) {
                exited.push(panes[i].pane_id());
            }
            i = i + 1;
        }
        wi = wi + 1;
    }
}

// ---------------------------------------------------------------------------
// Progress.
// ---------------------------------------------------------------------------

/// What the first `n` progress reports leave: the latest of each pane; a removal clears it.
pub open spec fn progressed(
    progress: Pairs<Progress>,
    reports: Seq<(PaneId, ProgressState, Option<u8>)>,
    n: int,
) -> Pairs<Progress>
    decreases n,
{
    if n <= 0 {
        progress
    } else {
        let p = progressed(progress, reports, n - 1);
        let (id, state, pct) = reports[n - 1];
        match state {
            ProgressState::Remove => without_key(p, id.0),
            _ => put(p, id.0, (state, pct)),
        }
    }
}

/// Applies progress reports.
pub fn note_progress(
    progress: &mut Vec<(u64, Progress)>,
    reports: &Vec<(PaneId, ProgressState, Option<u8>)>,
)
    ensures
        final(progress)@ == progressed(old(progress)@, reports@, reports@.len() as int),
{
    let mut i: usize = 0;
    while i < reports.len()
        invariant
            i <= reports@.len(),
            progress@ == progressed(old(progress)@, reports@, i as int),
        decreases reports@.len() - i,
    {
        let (id, state, pct) = reports[i];
        match state {
            ProgressState::Remove => {
                let _old = remove(progress, id.0);
            },
            _ => {
                insert(progress, id.0, (state, pct));
            },
        }
        i = i + 1;
    }
}

/// The entries of panes that are there, among the first `n`.
pub open spec fn present(progress: Pairs<Progress>, s: SessionView, n: int) -> Pairs<Progress>
    decreases n,
{
    if n <= 0 {
        Seq::empty()
    } else if pane_of(s, PaneId(progress[n - 1].0)) is Some {
        present(progress, s, n - 1).push(progress[n - 1])
    } else {
        present(progress, s, n - 1)
    }
}

/// Drops the entries of panes that are gone.
pub fn sweep_progress(progress: &mut Vec<(u64, Progress)>, session: &Session)
    ensures
        final(progress)@ == present(old(progress)@, session@, old(progress)@.len() as int),
{
    let mut kept: Vec<(u64, Progress)> = Vec::new();
    let mut i: usize = 0;
    assert(kept@ =~= Seq::empty());
    while i < progress.len()
        invariant
            i <= progress@.len(),
            *progress == *old(progress),
            kept@ == present(progress@, session@, i as int),
        decreases progress@.len() - i,
    {
        let entry = progress[i];
        if session.pane(PaneId(entry.0)).is_some() {
            kept.push(entry);
        }
        i = i + 1;
    }
    *progress = kept;
}

/// No progress is remembered of a pane that is gone.
pub proof fn gone_panes_have_no_progress(progress: Pairs<Progress>, s: SessionView, n: int, i: int)
    requires
        0 <= i < present(progress, s, n).len(),
    ensures
        pane_of(s, PaneId(present(progress, s, n)[i].0)) is Some,
    decreases n,
{
    if n > 0 {
        if i < present(progress, s, n - 1).len() {
            gone_panes_have_no_progress(progress, s, n - 1, i);
        }
    }
}

} // verus!
