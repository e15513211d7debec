//! What keeps panes apart: no pane is held twice, new panes get ids that no pane has, and every
//! pane tells of its end once, whatever clients ask and whatever peers send.
use vstd::prelude::*;

#[allow(unused_imports)]
use crate::mux::ids::{after, ids_are_never_reused, Ids, PaneId, WindowId};
#[allow(unused_imports)]
use crate::mux::layout::Node;
#[allow(unused_imports)]
use crate::mux::pane::{ended, noted, pumped as pane_pumped, PaneEventView, PaneView};
#[allow(unused_imports)]
use crate::mux::session::{
    added_window, clamp_index, focused, home_of, home_window, lemma_held, lemma_home,
    lemma_pane_changed, lemma_pane_of, lemma_pane_taken, lemma_window_changed, lemma_window_dropped,
    lemma_window_index, lemma_window_pushed, moved, pane_of, tidy, window_index, with_pane,
    without_window, SessionView,
};
#[allow(unused_imports)]
use crate::mux::persist::{restored_windows, WindowSnapshotView};
#[allow(unused_imports)]
use crate::mux::window::{
    distinct, focused_dir, holds, lemma_holds, lemma_inserted_all, lemma_pane_index, lemma_pushed,
    lemma_removed, pane_index, plain_window, with_split, without_active, window_rects, WindowView,
};
#[allow(unused_imports)]
use crate::mux::workspace::PrBadgeView;
#[allow(unused_imports)]
use crate::proto::CallView;
#[allow(unused_imports)]
use crate::remote::attachment::{pumped, AttachmentView, Mirror};
#[allow(unused_imports)]
use crate::remote::keeping::{
    clear_of, comes_from, exits, grown, lemma_among_inserted, lemma_below, lemma_ended_follows,
    lemma_follows_itself, lemma_follows_on, lemma_noted_follows, lemma_output_follows,
    lemma_pumped_passes, lemma_taken_windows, panes_wanted, spared, told_once, windows_wanted,
};
#[allow(unused_imports)]
use crate::remote::laws::{ids_below, windows_below};
#[allow(unused_imports)]
use crate::server::drain::{
    drained_events, drained_panes, drained_windows, nothing_drained, quieted, quieted_pane,
    with_dead, with_dead_panes, DrainedView,
};
#[allow(unused_imports)]
use crate::server::model::{
    active_pane, at_active, attended, badged, batch_of, do_close_pane, fitted, handled, new_pane,
    pane_started, pumped_remotes, repainted, switched, ticked, without_panes, PlaceView, ServerView,
};

verus! {

/// Whether every pane of a session tells of its end at most once, and only where it ended.
pub open spec fn all_told_once(s: SessionView) -> bool {
    forall|x: PaneId| #[trigger] pane_of(s, x) matches Some(p) ==> told_once(p)
}

/// Whether no pane is held twice, new panes and windows get ids that none has, and every pane tells
/// of its end at most once.
pub open spec fn sound(v: ServerView) -> bool {
    &&& tidy(v.session)
    &&& ids_below(v.session, v.ids.pane)
    &&& windows_below(v.session, v.ids.window)
    &&& all_told_once(v.session)
}

/// How many panes the first `n` attachments can make at most, when they are pumped.
pub open spec fn panes_to_come(remotes: Seq<(u64, AttachmentView)>, n: int) -> nat
    decreases n,
{
    if n <= 0 {
        0
    } else {
        panes_to_come(remotes, n - 1) + panes_wanted(remotes[n - 1].1)
    }
}

/// How many windows the first `n` attachments can make at most, when they are pumped.
pub open spec fn windows_to_come(remotes: Seq<(u64, AttachmentView)>, n: int) -> nat
    decreases n,
{
    if n <= 0 {
        0
    } else {
        windows_to_come(remotes, n - 1) + windows_wanted(remotes[n - 1].1)
    }
}

/// Whether the counters do not run out when the attachments are pumped.
pub open spec fn has_room(v: ServerView) -> bool {
    &&& v.ids.pane + panes_to_come(v.remotes, v.remotes.len() as int) <= u64::MAX
    &&& v.ids.window + windows_to_come(v.remotes, v.remotes.len() as int) <= u64::MAX
}

/// Pumping attachments leaves panes apart, and every pane that is there is a new one or one that
/// was there before, with all that waited in it.
pub proof fn lemma_remotes_pumped(
    s: SessionView,
    ids: Ids,
    remotes: Seq<(u64, AttachmentView)>,
    n: int,
    f: spec_fn(u64, u64) -> u32,
    g: spec_fn(u64, u64) -> u32,
)
    requires
        0 <= n <= remotes.len(),
        tidy(s),
        ids_below(s, ids.pane),
        windows_below(s, ids.window),
        ids.pane + panes_to_come(remotes, n) <= u64::MAX,
        ids.window + windows_to_come(remotes, n) <= u64::MAX,
    ensures
        ({
            let (t, i, kept) = pumped_remotes(s, ids, remotes, n, f, g);
            &&& tidy(t)
            &&& ids_below(t, i.pane)
            &&& windows_below(t, i.window)
            &&& ids.pane <= i.pane <= ids.pane + panes_to_come(remotes, n)
            &&& ids.window <= i.window <= ids.window + windows_to_come(remotes, n)
            &&& forall|x: PaneId| #![trigger pane_of(t, x)] grown(s, ids.pane, t, i.pane, x)
        }),
    decreases n,
{
    let (t, i, kept) = pumped_remotes(s, ids, remotes, n, f, g);
    if n > 0 {
        lemma_remotes_pumped(s, ids, remotes, n - 1, f, g);
        let (t0, i0, kept0) = pumped_remotes(s, ids, remotes, n - 1, f, g);
        let m = Mirror { att: remotes[n - 1].1, session: t0, ids: i0 };
        lemma_pumped_passes(m, f, g);
        let o = pumped(m, f, g).0;
        lemma_below(s, ids.pane);
        assert forall|x: PaneId| #![trigger pane_of(t, x)] grown(s, ids.pane, t, i.pane, x) by {
            assert(pane_of(o.session, x) == pane_of(t, x));
            assert(comes_from(m, o, x));
            if let Some(r) = pane_of(t, x) {
                if let Some(q) = pane_of(t0, x) {
                    assert(grown(s, ids.pane, t0, i0.pane, x));
                    if let Some(p) = pane_of(s, x) {
                        lemma_follows_on(p, q, r);
                    }
                }
            }
        }
    } else {
        assert forall|x: PaneId| #![trigger pane_of(t, x)] grown(s, ids.pane, t, i.pane, x) by {
            if let Some(p) = pane_of(s, x) {
                lemma_follows_itself(p);
            }
        }
    }
}

/// Pumping attachments leaves a pane that none of them mirrors into, and its window.
pub proof fn lemma_remotes_spare(
    s: SessionView,
    ids: Ids,
    remotes: Seq<(u64, AttachmentView)>,
    n: int,
    f: spec_fn(u64, u64) -> u32,
    g: spec_fn(u64, u64) -> u32,
    x: PaneId,
    w: WindowId,
)
    requires
        0 <= n <= remotes.len(),
        tidy(s),
        ids_below(s, ids.pane),
        windows_below(s, ids.window),
        ids.pane + panes_to_come(remotes, n) <= u64::MAX,
        ids.window + windows_to_come(remotes, n) <= u64::MAX,
        home_window(s, x) == Some(w),
        forall|k: int| 0 <= k < n ==> clear_of((#[trigger] remotes[k]).1, x, w),
    ensures
        ({
            let (t, i, kept) = pumped_remotes(s, ids, remotes, n, f, g);
            &&& home_window(t, x) == Some(w)
            &&& pane_of(t, x) == pane_of(s, x)
        }),
    decreases n,
{
    if n > 0 {
        lemma_remotes_pumped(s, ids, remotes, n - 1, f, g);
        lemma_remotes_spare(s, ids, remotes, n - 1, f, g, x, w);
        let (t0, i0, kept0) = pumped_remotes(s, ids, remotes, n - 1, f, g);
        let m = Mirror { att: remotes[n - 1].1, session: t0, ids: i0 };
        lemma_pumped_passes(m, f, g);
        assert(spared(m, x, w));
        assert(spared(pumped(m, f, g).0, x, w));
    }
}

// ---------------------------------------------------------------------------
// Changes that add no pane.
// ---------------------------------------------------------------------------

/// Whether every window and every pane of a later session was in the session before, and every pane
/// tells of its end once if it did.
spec fn sheds(s: SessionView, t: SessionView) -> bool {
    &&& tidy(t)
    &&& forall|n: u64| windows_below(s, n) ==> #[trigger] windows_below(t, n)
    &&& forall|x: PaneId| #[trigger]
        pane_of(t, x) is Some ==> pane_of(s, x) is Some && (told_once(pane_of(s, x)->0)
            ==> told_once(pane_of(t, x)->0))
}

proof fn lemma_sheds_sound(v: ServerView, w: ServerView)
    requires
        sound(v),
        sheds(v.session, w.session),
        v.ids.pane <= w.ids.pane,
        v.ids.window <= w.ids.window,
    ensures
        sound(w),
{
    assert(windows_below(w.session, v.ids.window));
    lemma_below(v.session, v.ids.pane);
    lemma_below(w.session, w.ids.pane);
}

/// Whether two lists hold panes of the same ids, in the same order.
spec fn same_ids(a: Seq<PaneView>, b: Seq<PaneView>) -> bool {
    a.len() == b.len() && forall|k: int| 0 <= k < a.len() ==> (#[trigger] a[k]).id == b[k].id
}

proof fn lemma_same_index(a: Seq<PaneView>, b: Seq<PaneView>, x: PaneId, from: int)
    requires
        same_ids(a, b),
        0 <= from <= a.len(),
    ensures
        pane_index(a, x, from) == pane_index(b, x, from),
    decreases a.len() - from,
{
    if from < a.len() {
        assert(a[from].id == b[from].id);
        lemma_same_index(a, b, x, from + 1);
    }
}

proof fn lemma_same_home(s: Seq<WindowView>, t: Seq<WindowView>, x: PaneId, from: int)
    requires
        s.len() == t.len(),
        forall|i: int| 0 <= i < s.len() ==> same_ids((#[trigger] s[i]).panes, t[i].panes),
        0 <= from <= s.len(),
    ensures
        home_of(s, x, from) == home_of(t, x, from),
    decreases s.len() - from,
{
    if from < s.len() {
        assert(same_ids(s[from].panes, t[from].panes));
        lemma_same_index(s[from].panes, t[from].panes, x, 0);
        lemma_same_home(s, t, x, from + 1);
    }
}

/// Changes of panes where they are.
proof fn lemma_changed_in_place(s: SessionView, t: SessionView)
    requires
        tidy(s),
        s.windows.len() == t.windows.len(),
        forall|i: int| 0 <= i < s.windows.len() ==> (#[trigger] t.windows[i]).id == s.windows[i].id,
        forall|i: int|
            0 <= i < s.windows.len() ==> same_ids(
                (#[trigger] s.windows[i]).panes,
                t.windows[i].panes,
            ),
        forall|i: int, k: int|
            0 <= i < s.windows.len() && 0 <= k < s.windows[i].panes.len() && told_once(
                #[trigger] s.windows[i].panes[k],
            ) ==> told_once(t.windows[i].panes[k]),
    ensures
        sheds(s, t),
{
    assert forall|i: int| 0 <= i < t.windows.len() implies distinct(
        (#[trigger] t.windows[i]).panes,
    ) by {
        let (a, b) = (s.windows[i].panes, t.windows[i].panes);
        assert(distinct(a));
        assert forall|j: int, k: int| 0 <= j < k < b.len() implies (#[trigger] b[j]).id != (
        #[trigger] b[k]).id by {
            assert(a[j].id != a[k].id);
        }
    }
    assert forall|i: int, j: int, y: PaneId|
        0 <= i < j < t.windows.len() implies !(#[trigger] holds(t.windows[i].panes, y)
        && #[trigger] holds(t.windows[j].panes, y)) by {
        assert(same_ids(s.windows[i].panes, t.windows[i].panes));
        assert(same_ids(s.windows[j].panes, t.windows[j].panes));
        lemma_same_index(s.windows[i].panes, t.windows[i].panes, y, 0);
        lemma_same_index(s.windows[j].panes, t.windows[j].panes, y, 0);
        assert(!(holds(s.windows[i].panes, y) && holds(s.windows[j].panes, y)));
    }
    assert forall|x: PaneId| #[trigger] pane_of(t, x) is Some implies pane_of(s, x) is Some && (
    told_once(pane_of(s, x)->0) ==> told_once(pane_of(t, x)->0)) by {
        lemma_same_home(s.windows, t.windows, x, 0);
        lemma_home(s.windows, x, 0);
        let i = home_of(s.windows, x, 0)->0;
        lemma_same_index(s.windows[i].panes, t.windows[i].panes, x, 0);
        lemma_pane_index(s.windows[i].panes, x, 0);
        let k = pane_index(s.windows[i].panes, x, 0)->0;
        assert(pane_of(s, x) == Some(s.windows[i].panes[k]));
    }
}

/// Changes of windows that leave their panes.
proof fn lemma_same_panes(s: SessionView, t: SessionView)
    requires
        tidy(s),
        s.windows.len() == t.windows.len(),
        forall|i: int|
            0 <= i < s.windows.len() ==> (#[trigger] t.windows[i]).panes == s.windows[i].panes
                && t.windows[i].id == s.windows[i].id,
    ensures
        sheds(s, t),
{
    assert forall|i: int| 0 <= i < s.windows.len() implies same_ids(
        (#[trigger] s.windows[i]).panes,
        t.windows[i].panes,
    ) by {}
    assert forall|i: int, k: int|
        0 <= i < s.windows.len() && 0 <= k < s.windows[i].panes.len() && told_once(
            #[trigger] s.windows[i].panes[k],
        ) implies told_once(t.windows[i].panes[k]) by {
        assert(t.windows[i].panes == s.windows[i].panes);
    }
    lemma_changed_in_place(s, t);
}

proof fn lemma_sheds_on(s: SessionView, t: SessionView, u: SessionView)
    requires
        sheds(s, t),
        sheds(t, u),
    ensures
        sheds(s, u),
{
    assert forall|x: PaneId| #[trigger] pane_of(u, x) is Some implies pane_of(s, x) is Some && (
    told_once(pane_of(s, x)->0) ==> told_once(pane_of(u, x)->0)) by {
        assert(pane_of(t, x) is Some);
    }
}

/// A pane that changed.
proof fn lemma_pane_sheds(s: SessionView, id: PaneId, q: PaneView)
    requires
        tidy(s),
        pane_of(s, id) is Some,
        q.id == id,
        told_once(pane_of(s, id)->0) ==> told_once(q),
    ensures
        sheds(s, with_pane(s, id, q)),
{
    assert forall|x: PaneId| #[trigger] pane_of(with_pane(s, id, q), x) is Some implies pane_of(
        s,
        x,
    ) is Some && (told_once(pane_of(s, x)->0) ==> told_once(
        pane_of(with_pane(s, id, q), x)->0,
    )) by {
        lemma_pane_changed(s, id, q, x);
    }
    lemma_pane_changed(s, id, q, id);
    lemma_home(s.windows, id, 0);
}

proof fn lemma_attended_sheds(s: SessionView)
    requires
        tidy(s),
    ensures
        sheds(s, attended(s)),
{
    lemma_same_panes(s, s);
    if let Some(t) = active_pane(s) {
        if let Some(p) = pane_of(s, t) {
            lemma_pane_of(s, t);
            lemma_pane_sheds(
                s,
                t,
                PaneView { attention: crate::mux::attention::Attention::Quiet, unread: 0, ..p },
            );
        }
    }
}

proof fn lemma_window_sheds(s: SessionView, i: int)
    requires
        tidy(s),
        0 <= i < s.windows.len(),
    ensures
        sheds(s, without_window(s, i)),
{
    let t = without_window(s, i);
    assert forall|x: PaneId| #[trigger] pane_of(t, x) is Some implies pane_of(s, x) is Some && (
    told_once(pane_of(s, x)->0) ==> told_once(pane_of(t, x)->0)) by {
        lemma_window_dropped(s, t, i, x);
    }
    lemma_window_dropped(s, t, i, PaneId(0));
}

/// The active pane of a window, closed.
proof fn lemma_closed_sheds(s: SessionView, i: int, t: SessionView)
    requires
        tidy(s),
        0 <= i < s.windows.len(),
        t.windows == s.windows.update(i, without_active(s.windows[i])),
    ensures
        sheds(s, t),
{
    let w = s.windows[i];
    let v = without_active(w);
    lemma_pane_index(w.panes, w.active, 0);
    if let Some(k) = pane_index(w.panes, w.active, 0) {
        lemma_removed(w.panes, k);
        assert forall|y: PaneId, j: int|
            0 <= j < s.windows.len() && j != i && #[trigger] holds(v.panes, y) implies !(
        #[trigger] holds(s.windows[j].panes, y)) by {
            assert(holds(w.panes, y));
            if holds(s.windows[j].panes, y) {
                lemma_held(s, y, i);
                lemma_held(s, y, j);
            }
        }
        assert forall|x: PaneId| #[trigger] pane_of(t, x) is Some implies pane_of(s, x) is Some && (
        told_once(pane_of(s, x)->0) ==> told_once(pane_of(t, x)->0)) by {
            lemma_window_changed(s, t, i, v, x);
            if holds(v.panes, x) {
                assert(holds(w.panes, x));
                lemma_held(s, x, i);
                crate::mux::session::lemma_among_removed(w.panes, k, x);
            }
        }
        lemma_window_changed(s, t, i, v, PaneId(0));
    } else {
        lemma_same_panes(s, t);
    }
}

proof fn lemma_close_pane_sheds(v: ServerView, id: u64)
    requires
        tidy(v.session),
        v.session.windows.len() > 0 ==> v.session.active < v.session.windows.len(),
    ensures
        sheds(v.session, do_close_pane(v, id).0.session),
        do_close_pane(v, id).0.ids == v.ids,
{
    let s = v.session;
    let t = do_close_pane(v, id).0.session;
    lemma_same_panes(s, s);
    if crate::server::model::active_remote(v) is None {
        if s.active < s.windows.len() && s.windows[s.active as int].panes.len() > 1 {
            lemma_closed_sheds(s, s.active as int, t);
        } else if s.windows.len() > 1 {
            lemma_window_sheds(s, s.active as int);
        }
    }
}

/// Windows in another order.
proof fn lemma_moved_sheds(s: SessionView, from: nat, to: nat)
    requires
        tidy(s),
    ensures
        sheds(s, moved(s, from, to)),
{
    let n = s.windows.len();
    let f = clamp_index(from, n) as int;
    let t = clamp_index(to, n) as int;
    let m = moved(s, from, to);
    if n == 0 || f == t {
        lemma_same_panes(s, s);
    } else {
        let w = s.windows[f];
        let r = s.windows.remove(f);
        assert forall|j: int| 0 <= j < n implies #[trigger] m.windows[j] == s.windows[came(
            f,
            t,
            j,
        )] && 0 <= came(f, t, j) < n by {
            if j != t {
                let k = if j < t {
                    j
                } else {
                    j - 1
                };
                assert(m.windows[j] == r[k]);
            }
        }
        assert forall|i: int, j: int, y: PaneId|
            0 <= i < j < m.windows.len() implies !(#[trigger] holds(m.windows[i].panes, y)
            && #[trigger] holds(m.windows[j].panes, y)) by {
            let (a, b) = (came(f, t, i), came(f, t, j));
            assert(m.windows[i] == s.windows[a] && m.windows[j] == s.windows[b]);
            if a < b {
                assert(!(holds(s.windows[a].panes, y) && holds(s.windows[b].panes, y)));
            } else {
                assert(!(holds(s.windows[b].panes, y) && holds(s.windows[a].panes, y)));
            }
        }
        assert forall|j: int| 0 <= j < m.windows.len() implies distinct(
            (#[trigger] m.windows[j]).panes,
        ) by {
            assert(m.windows[j] == s.windows[came(f, t, j)]);
        }
        assert forall|x: PaneId| #[trigger] pane_of(m, x) is Some implies pane_of(s, x) is Some && (
        told_once(pane_of(s, x)->0) ==> told_once(pane_of(m, x)->0)) by {
            lemma_home(m.windows, x, 0);
            let j = home_of(m.windows, x, 0)->0;
            assert(m.windows[j] == s.windows[came(f, t, j)]);
            lemma_held(m, x, j);
            lemma_held(s, x, came(f, t, j));
        }
    }
}

/// Where the window at an index was before one moved.
spec fn came(from: int, to: int, j: int) -> int {
    if j == to {
        from
    } else {
        let k = if j < to {
            j
        } else {
            j - 1
        };
        if k < from {
            k
        } else {
            k + 1
        }
    }
}

/// Fitting panes into rectangles changes no id, no event and no end.
proof fn lemma_fitted(
    w: WindowView,
    rs: Seq<(PaneId, crate::mux::layout::Rect)>,
    cell: (u32, u32),
    chrome: (u32, u32),
    n: int,
)
    ensures
        ({
            let x = fitted(w, rs, cell, chrome, n).0;
            &&& x.id == w.id
            &&& same_ids(w.panes, x.panes)
            &&& forall|k: int|
                0 <= k < w.panes.len() ==> (#[trigger] w.panes[k]).events == x.panes[k].events
                    && w.panes[k].alive == x.panes[k].alive
        }),
    decreases n,
{
    if n > 0 {
        lemma_fitted(w, rs, cell, chrome, n - 1);
        let x = fitted(w, rs, cell, chrome, n - 1).0;
        let (id, r) = rs[n - 1];
        lemma_pane_index(x.panes, id, 0);
        let y = fitted(w, rs, cell, chrome, n).0;
        assert forall|k: int| 0 <= k < w.panes.len() implies (#[trigger] w.panes[k]).id
            == y.panes[k].id && w.panes[k].events == y.panes[k].events && w.panes[k].alive
            == y.panes[k].alive by {
            assert(w.panes[k].id == x.panes[k].id);
        }
    }
}

proof fn lemma_repainted_sheds(s: SessionView, palette: crate::vt::color::Palette)
    requires
        tidy(s),
    ensures
        sheds(s, repainted(s, palette, s.windows.len() as int)),
{
    lemma_changed_in_place(s, repainted(s, palette, s.windows.len() as int));
}

/// Requests keep panes apart: whatever a client asks, no pane is held twice afterwards, new panes
/// still get ids that no pane has, and every pane still tells of its end once.
#[verifier::rlimit(60)]
pub proof fn requests_keep_panes_apart(
    v: ServerView,
    id: u64,
    call: CallView,
    f: spec_fn(u32, u32) -> u32,
    g: spec_fn(u32, u32) -> u32,
)
    requires
        sound(v),
        v.session.wf(),
        v.ids.pane < u64::MAX,
    ensures
        sound(handled(v, id, call, f, g).0),
{
    let w = handled(v, id, call, f, g).0;
    let (s, t) = (v.session, w.session);
    lemma_same_panes(s, s);
    match call {
        CallView::Notify { pane, title, body } => {
            let target = match pane {
                Some(p) => Some(PaneId(p)),
                None => active_pane(s),
            };
            if let Some(x) = target {
                if let Some(p) = pane_of(s, x) {
                    let event = crate::vt::osc::TermEventView::Notification(
                        crate::mux::pane::asked_notification(title, body),
                    );
                    lemma_pane_of(s, x);
                    lemma_noted_follows(p, event);
                    lemma_pane_sheds(s, x, noted(p, event));
                }
            }
        },
        CallView::ResizeView { w: width, h, cell_w, cell_h, pane_chrome, pane_chrome_y } => {
            if s.active < s.windows.len() {
                let chrome = (
                    pane_chrome,
                    if pane_chrome_y != 0 {
                        pane_chrome_y
                    } else {
                        pane_chrome
                    },
                );
                let win = s.windows[s.active as int];
                let rs = window_rects(win, width, h, f);
                lemma_fitted(win, rs, (cell_w, cell_h), chrome, rs.len() as int);
                assert forall|i: int| 0 <= i < s.windows.len() implies same_ids(
                    (#[trigger] s.windows[i]).panes,
                    t.windows[i].panes,
                ) by {}
                assert forall|i: int, k: int|
                    0 <= i < s.windows.len() && 0 <= k < s.windows[i].panes.len() && told_once(
                        #[trigger] s.windows[i].panes[k],
                    ) implies told_once(t.windows[i].panes[k]) by {
                    if i == s.active {
                        assert(win.panes[k].events == t.windows[i].panes[k].events);
                    }
                }
                lemma_changed_in_place(s, t);
            }
        },
        CallView::FocusPane { dir } => {
            if let Some(d) = crate::server::model::focus_dir(dir) {
                let mid = at_active(
                    s,
                    |w: WindowView| focused_dir(w, d, v.last_view.0, v.last_view.1, f),
                );
                lemma_same_panes(s, mid);
                lemma_attended_sheds(mid);
                lemma_sheds_on(s, mid, attended(mid));
            }
        },
        CallView::ClosePane => {
            lemma_close_pane_sheds(v, id);
        },
        CallView::ClosePaneId { pane } => {
            let mid = focused(s, PaneId(pane));
            lemma_home(s.windows, PaneId(pane), 0);
            lemma_same_panes(s, mid);
            let u = ServerView { session: mid, ..v };
            lemma_close_pane_sheds(u, id);
            lemma_sheds_on(s, mid, do_close_pane(u, id).0.session);
        },
        CallView::SwitchWindow { next } => {
            let mid = switched(s, next);
            lemma_same_panes(s, mid);
            lemma_attended_sheds(mid);
            lemma_sheds_on(s, mid, attended(mid));
        },
        CallView::CloseWindow { id: win } => {
            lemma_window_index(s.windows, WindowId(win), 0);
            if let Some(i) = window_index(s.windows, WindowId(win), 0) {
                lemma_window_sheds(s, i);
            }
        },
        CallView::SelectWindow { index } => {
            let mid = SessionView { active: index as nat, ..s };
            lemma_same_panes(s, mid);
            lemma_attended_sheds(mid);
            lemma_sheds_on(s, mid, attended(mid));
        },
        CallView::FocusPaneId { pane } => {
            let mid = focused(s, PaneId(pane));
            lemma_home(s.windows, PaneId(pane), 0);
            lemma_same_panes(s, mid);
            lemma_attended_sheds(mid);
            lemma_sheds_on(s, mid, attended(mid));
        },
        CallView::MoveWindow { from, to } => {
            lemma_moved_sheds(s, from as nat, to as nat);
        },
        CallView::SetPalette { fg, bg, ansi } => {
            lemma_repainted_sheds(s, crate::server::model::asked_palette(fg, bg, ansi));
        },
        CallView::SetWorkspaceDir { id: win, .. } => {
            lemma_window_index(s.windows, WindowId(win), 0);
            lemma_same_panes(s, t);
        },
        CallView::RenameWindow { id: win, .. } => {
            lemma_window_index(s.windows, WindowId(win), 0);
            lemma_same_panes(s, t);
        },
        CallView::GroupWindow { id: win, .. } => {
            lemma_window_index(s.windows, WindowId(win), 0);
            lemma_same_panes(s, t);
        },
        CallView::ColorWindow { id: win, .. } => {
            lemma_window_index(s.windows, WindowId(win), 0);
            lemma_same_panes(s, t);
        },
        CallView::SetPr { id: win, .. } => {
            lemma_window_index(s.windows, WindowId(win), 0);
            lemma_same_panes(s, t);
        },
        CallView::SwapPanes { .. } => {
            lemma_same_panes(s, t);
        },
        CallView::ToggleZoom => {
            lemma_same_panes(s, t);
        },
        CallView::ResizeSplit { .. } => {
            lemma_same_panes(s, t);
        },
        _ => {},
    }
    lemma_sheds_sound(v, w);
}

/// A pane that was started keeps panes apart, where its id was taken for it and no window holds it.
pub proof fn started_panes_stay_apart(v: ServerView, pane: PaneId, place: PlaceView)
    requires
        sound(v),
        pane_of(v.session, pane) is None,
        pane.0 < v.ids.pane,
        v.ids.window < u64::MAX,
    ensures
        sound(pane_started(v, pane, place)),
        v.session.active < v.session.windows.len() || place is Window ==> pane_of(
            pane_started(v, pane, place).session,
            pane,
        ) == Some(new_pane(v, pane)),
        forall|x: PaneId|
            x != pane ==> #[trigger] pane_of(pane_started(v, pane, place).session, x) == pane_of(
                v.session,
                x,
            ),
{
    let s = v.session;
    let p = new_pane(v, pane);
    let w = pane_started(v, pane, place);
    lemma_below(s, v.ids.pane);
    assert(p.id == pane && p.events.len() == 0);
    assert forall|j: int| 0 <= j < s.windows.len() implies !holds(
        (#[trigger] s.windows[j]).panes,
        pane,
    ) by {
        if holds(s.windows[j].panes, pane) {
            lemma_held(s, pane, j);
        }
    }
    match place {
        PlaceView::Split(dir) => {
            if s.active < s.windows.len() {
                let i = s.active as int;
                let old = s.windows[i];
                let new = with_split(old, dir, p);
                assert(!holds(old.panes, pane));
                assert(new.panes == old.panes.push(p));
                crate::mux::window::lemma_inserted(old.panes, p);
                assert forall|y: PaneId, j: int|
                    0 <= j < s.windows.len() && j != i && #[trigger] holds(new.panes, y) implies !(
                #[trigger] holds(s.windows[j].panes, y)) by {
                    if holds(s.windows[j].panes, y) {
                        assert(y != pane);
                        lemma_held(s, y, i);
                        lemma_held(s, y, j);
                    }
                }
                assert forall|x: PaneId| #[trigger] pane_of(w.session, x) == (if x == pane {
                    Some(p)
                } else {
                    pane_of(s, x)
                }) by {
                    lemma_window_changed(s, w.session, i, new, x);
                    crate::remote::keeping::lemma_among_pushed(old.panes, p, x);
                    lemma_pushed(old.panes, p, x);
                    if holds(old.panes, x) {
                        lemma_held(s, x, i);
                    }
                }
                lemma_window_changed(s, w.session, i, new, pane);
            } else {
                lemma_same_panes(s, w.session);
            }
        },
        PlaceView::Window(cwd) => {
            let wid = WindowId(v.ids.window);
            let fresh = plain_window(wid, seq![p], Node::Leaf(pane), pane);
            let mid = added_window(s, fresh);
            assert forall|y: PaneId| #[trigger] holds(fresh.panes, y) implies y == pane by {
                lemma_holds(fresh.panes, y);
            }
            assert(holds(fresh.panes, pane)) by {
                lemma_holds(fresh.panes, pane);
                assert(fresh.panes[0].id == pane);
            }
            assert forall|x: PaneId| #[trigger] pane_of(mid, x) == (if x == pane {
                Some(p)
            } else {
                pane_of(s, x)
            }) by {
                lemma_window_pushed(s, mid, fresh, x);
                lemma_pane_index(fresh.panes, x, 0);
            }
            lemma_window_pushed(s, mid, fresh, pane);
            lemma_window_index(mid.windows, wid, 0);
            lemma_same_panes(mid, w.session);
            assert forall|x: PaneId| #[trigger] pane_of(w.session, x) == pane_of(mid, x) by {
                lemma_same_home(mid.windows, w.session.windows, x, 0);
                lemma_home(mid.windows, x, 0);
            }
        },
    }
    lemma_below(w.session, w.ids.pane);
}

// ---------------------------------------------------------------------------
// Ticks.
// ---------------------------------------------------------------------------

/// The panes whose end a tick tells: those that reported it, then the other dead ones.
pub open spec fn dead_of(s: SessionView) -> Seq<PaneId> {
    let n = s.windows.len() as int;
    with_dead(drained_windows(nothing_drained(), s.windows, n).exited, quieted(s, n).windows, n)
}

/// In a tidy session each pane is found under its id.
proof fn lemma_at(s: SessionView, i: int, k: int)
    requires
        tidy(s),
        0 <= i < s.windows.len(),
        0 <= k < s.windows[i].panes.len(),
    ensures
        pane_of(s, s.windows[i].panes[k].id) == Some(s.windows[i].panes[k]),
{
    let panes = s.windows[i].panes;
    let x = panes[k].id;
    lemma_holds(panes, x);
    lemma_held(s, x, i);
    lemma_pane_index(panes, x, 0);
    let j = pane_index(panes, x, 0)->0;
    assert(distinct(panes));
    if j < k {
        assert(panes[j].id != panes[k].id);
    } else if k < j {
        assert(panes[k].id != panes[j].id);
    }
}

proof fn lemma_events_exited(d: DrainedView, id: PaneId, es: Seq<PaneEventView>, n: int)
    requires
        0 <= n <= es.len(),
        exits(es.take(n)) <= 1,
    ensures
        drained_events(d, id, es, n).exited == (if exits(es.take(n)) == 0 {
            d.exited
        } else {
            d.exited.push(id)
        }),
    decreases n,
{
    if n > 0 {
        assert(es.take(n).drop_last() =~= es.take(n - 1));
        lemma_events_exited(d, id, es, n - 1);
    }
}

/// Whether a dead pane is among the first `n` of a list.
spec fn died_among(panes: Seq<PaneView>, n: int, x: PaneId) -> bool {
    exists|k: int| 0 <= k < n && (#[trigger] panes[k]).id == x && !panes[k].alive
}

/// Whether a dead pane is in one of the first `n` windows.
spec fn died_in(windows: Seq<WindowView>, n: int, x: PaneId) -> bool {
    exists|i: int|
        0 <= i < n && died_among((#[trigger] windows[i]).panes, windows[i].panes.len() as int, x)
}

proof fn lemma_pushed_once(e: Seq<PaneId>, id: PaneId)
    requires
        e.no_duplicates(),
        !e.contains(id),
    ensures
        e.push(id).no_duplicates(),
        forall|x: PaneId| #[trigger] e.push(id).contains(x) == (e.contains(x) || x == id),
{
    let r = e.push(id);
    assert forall|x: PaneId| #[trigger] r.contains(x) == (e.contains(x) || x == id) by {
        if e.contains(x) {
            let k = choose|k: int| 0 <= k < e.len() && e[k] == x;
            assert(r[k] == x);
        }
        if x == id {
            assert(r[e.len() as int] == x);
        }
        if r.contains(x) && x != id {
            let k = choose|k: int| 0 <= k < r.len() && r[k] == x;
            assert(e[k] == x);
        }
    }
    assert forall|i: int, j: int| 0 <= i < r.len() && 0 <= j < r.len() && i != j implies r[i]
        != r[j] by {
        if i < e.len() && j == e.len() {
            assert(e.contains(e[i]));
        }
        if j < e.len() && i == e.len() {
            assert(e.contains(e[j]));
        }
    }
}

proof fn lemma_panes_exited(d: DrainedView, panes: Seq<PaneView>, n: int)
    requires
        0 <= n <= panes.len(),
        distinct(panes),
        d.exited.no_duplicates(),
        forall|k: int|
            0 <= k < panes.len() ==> told_once(#[trigger] panes[k]) && !d.exited.contains(
                panes[k].id,
            ),
    ensures
        ({
            let e = drained_panes(d, panes, n).exited;
            &&& e.no_duplicates()
            &&& forall|x: PaneId| #[trigger]
                e.contains(x) ==> d.exited.contains(x) || died_among(panes, n, x)
        }),
    decreases n,
{
    if n > 0 {
        lemma_panes_exited(d, panes, n - 1);
        let c = drained_panes(d, panes, n - 1);
        let p = panes[n - 1];
        assert(p.events.take(p.events.len() as int) =~= p.events);
        lemma_events_exited(c, p.id, p.events, p.events.len() as int);
        assert(!c.exited.contains(p.id)) by {
            if c.exited.contains(p.id) {
                let k = choose|k: int|
                    0 <= k < n - 1 && (#[trigger] panes[k]).id == p.id && !panes[k].alive;
                assert(panes[k].id != panes[n - 1].id);
            }
        }
        lemma_pushed_once(c.exited, p.id);
        let e = drained_panes(d, panes, n).exited;
        assert forall|x: PaneId| #[trigger] e.contains(x) implies d.exited.contains(x)
            || died_among(panes, n, x) by {
            if c.exited.contains(x) {
                if died_among(panes, n - 1, x) {
                    let k = choose|k: int|
                        0 <= k < n - 1 && (#[trigger] panes[k]).id == x && !panes[k].alive;
                    assert(panes[k].id == x);
                }
            } else {
                assert(panes[n - 1].id == x);
            }
        }
    }
}

proof fn lemma_windows_exited(s: SessionView, n: int)
    requires
        0 <= n <= s.windows.len(),
        tidy(s),
        all_told_once(s),
    ensures
        ({
            let e = drained_windows(nothing_drained(), s.windows, n).exited;
            &&& e.no_duplicates()
            &&& forall|x: PaneId| #[trigger] e.contains(x) ==> died_in(s.windows, n, x)
        }),
    decreases n,
{
    if n > 0 {
        lemma_windows_exited(s, n - 1);
        let d = drained_windows(nothing_drained(), s.windows, n - 1);
        let panes = s.windows[n - 1].panes;
        assert forall|k: int| 0 <= k < panes.len() implies told_once(#[trigger] panes[k])
            && !d.exited.contains(panes[k].id) by {
            lemma_at(s, n - 1, k);
            let x = panes[k].id;
            if d.exited.contains(x) {
                let i = choose|i: int|
                    0 <= i < n - 1 && died_among(
                        (#[trigger] s.windows[i]).panes,
                        s.windows[i].panes.len() as int,
                        x,
                    );
                lemma_holds(s.windows[i].panes, x);
                lemma_holds(panes, x);
                assert(!(holds(s.windows[i].panes, x) && holds(s.windows[n - 1].panes, x)));
            }
        }
        lemma_panes_exited(d, panes, panes.len() as int);
        let e = drained_windows(nothing_drained(), s.windows, n).exited;
        assert forall|x: PaneId| #[trigger] e.contains(x) implies died_in(s.windows, n, x) by {
            if d.exited.contains(x) {
                let i = choose|i: int|
                    0 <= i < n - 1 && died_among(
                        (#[trigger] s.windows[i]).panes,
                        s.windows[i].panes.len() as int,
                        x,
                    );
                assert(died_among(s.windows[i].panes, s.windows[i].panes.len() as int, x));
            } else {
                assert(died_among(s.windows[n - 1].panes, panes.len() as int, x));
            }
        }
    }
}

proof fn lemma_dead_panes_once(e: Seq<PaneId>, panes: Seq<PaneView>, n: int)
    requires
        0 <= n <= panes.len(),
        e.no_duplicates(),
    ensures
        with_dead_panes(e, panes, n).no_duplicates(),
        forall|x: PaneId| #[trigger]
            with_dead_panes(e, panes, n).contains(x) == (e.contains(x) || died_among(panes, n, x)),
    decreases n,
{
    if n > 0 {
        lemma_dead_panes_once(e, panes, n - 1);
        let c = with_dead_panes(e, panes, n - 1);
        let r = with_dead_panes(e, panes, n);
        let p = panes[n - 1];
        if !c.contains(p.id) {
            lemma_pushed_once(c, p.id);
        }
        assert forall|x: PaneId| #[trigger] r.contains(x) == (e.contains(x) || died_among(
            panes,
            n,
            x,
        )) by {
            if died_among(panes, n - 1, x) {
                let k = choose|k: int|
                    0 <= k < n - 1 && (#[trigger] panes[k]).id == x && !panes[k].alive;
                assert(panes[k].id == x);
            }
            if died_among(panes, n, x) && !died_among(panes, n - 1, x) {
                let k = choose|k: int|
                    0 <= k < n && (#[trigger] panes[k]).id == x && !panes[k].alive;
                assert(k == n - 1);
            }
            if r.contains(x) && !c.contains(x) {
                assert(panes[n - 1].id == x && !panes[n - 1].alive);
            }
        }
    } else {
        assert forall|x: PaneId| !died_among(panes, n, x) by {}
    }
}

proof fn lemma_dead_once(e: Seq<PaneId>, windows: Seq<WindowView>, n: int)
    requires
        0 <= n <= windows.len(),
        e.no_duplicates(),
    ensures
        with_dead(e, windows, n).no_duplicates(),
        forall|x: PaneId| #[trigger]
            with_dead(e, windows, n).contains(x) == (e.contains(x) || died_in(windows, n, x)),
    decreases n,
{
    if n > 0 {
        lemma_dead_once(e, windows, n - 1);
        let c = with_dead(e, windows, n - 1);
        let panes = windows[n - 1].panes;
        lemma_dead_panes_once(c, panes, panes.len() as int);
        let r = with_dead(e, windows, n);
        assert forall|x: PaneId| #[trigger] r.contains(x) == (e.contains(x) || died_in(
            windows,
            n,
            x,
        )) by {
            if died_in(windows, n - 1, x) {
                let i = choose|i: int|
                    0 <= i < n - 1 && died_among(
                        (#[trigger] windows[i]).panes,
                        windows[i].panes.len() as int,
                        x,
                    );
                assert(died_among(windows[i].panes, windows[i].panes.len() as int, x));
            }
            if died_among(panes, panes.len() as int, x) {
                assert(died_among(windows[n - 1].panes, windows[n - 1].panes.len() as int, x));
            }
            if died_in(windows, n, x) && !died_in(windows, n - 1, x) {
                let i = choose|i: int|
                    0 <= i < n && died_among(
                        (#[trigger] windows[i]).panes,
                        windows[i].panes.len() as int,
                        x,
                    );
                assert(i == n - 1);
            }
        }
    } else {
        assert forall|x: PaneId| !died_in(windows, n, x) by {}
    }
}

/// A tick tells each end once: the ends that it tells are those of the dead panes, each once.
pub proof fn each_end_is_told_once(s: SessionView, x: PaneId)
    requires
        tidy(s),
        all_told_once(s),
    ensures
        dead_of(s).no_duplicates(),
        dead_of(s).contains(x) == (pane_of(s, x) matches Some(p) && !p.alive),
{
    let n = s.windows.len() as int;
    let q = quieted(s, n);
    let e = drained_windows(nothing_drained(), s.windows, n).exited;
    lemma_windows_exited(s, n);
    lemma_dead_once(e, q.windows, n);
    if died_in(s.windows, n, x) {
        let i = choose|i: int|
            0 <= i < n && died_among(
                (#[trigger] s.windows[i]).panes,
                s.windows[i].panes.len() as int,
                x,
            );
        let k = choose|k: int|
            0 <= k < s.windows[i].panes.len() && (#[trigger] s.windows[i].panes[k]).id == x
                && !s.windows[i].panes[k].alive;
        lemma_at(s, i, k);
    }
    if died_in(q.windows, n, x) {
        let i = choose|i: int|
            0 <= i < n && died_among(
                (#[trigger] q.windows[i]).panes,
                q.windows[i].panes.len() as int,
                x,
            );
        let k = choose|k: int|
            0 <= k < q.windows[i].panes.len() && (#[trigger] q.windows[i].panes[k]).id == x
                && !q.windows[i].panes[k].alive;
        lemma_at(s, i, k);
    }
    if let Some(p) = pane_of(s, x) {
        if !p.alive {
            lemma_home(s.windows, x, 0);
            let i = home_of(s.windows, x, 0)->0;
            lemma_pane_index(s.windows[i].panes, x, 0);
            let k = pane_index(s.windows[i].panes, x, 0)->0;
            assert(q.windows[i].panes[k].id == x);
            assert(died_among(q.windows[i].panes, q.windows[i].panes.len() as int, x));
        }
    }
}

proof fn lemma_quieted_sheds(s: SessionView, x: PaneId)
    requires
        tidy(s),
    ensures
        sheds(s, quieted(s, s.windows.len() as int)),
        pane_of(quieted(s, s.windows.len() as int), x) == (match pane_of(s, x) {
            Some(p) => Some(quieted_pane(p)),
            None => None,
        }),
{
    let q = quieted(s, s.windows.len() as int);
    lemma_changed_in_place(s, q);
    lemma_same_home(s.windows, q.windows, x, 0);
    lemma_home(s.windows, x, 0);
    if let Some(i) = home_of(s.windows, x, 0) {
        assert(same_ids(s.windows[i].panes, q.windows[i].panes));
        lemma_same_index(s.windows[i].panes, q.windows[i].panes, x, 0);
        lemma_pane_index(s.windows[i].panes, x, 0);
    }
}

proof fn lemma_without_panes(s: SessionView, ids: Seq<PaneId>, n: int, x: PaneId)
    requires
        0 <= n <= ids.len(),
        tidy(s),
    ensures
        tidy(without_panes(s, ids, n)),
        forall|k: u64| windows_below(s, k) ==> #[trigger] windows_below(without_panes(s, ids, n), k),
        pane_of(without_panes(s, ids, n), x) == (if ids.take(n).contains(x) {
            None
        } else {
            pane_of(s, x)
        }),
    decreases n,
{
    if n > 0 {
        lemma_without_panes(s, ids, n - 1, x);
        let t = without_panes(s, ids, n - 1);
        lemma_pane_taken(t, ids[n - 1], x);
        assert forall|k: u64| windows_below(s, k) implies #[trigger] windows_below(
            without_panes(s, ids, n),
            k,
        ) by {
            assert(windows_below(t, k));
            lemma_taken_windows(t, ids[n - 1], k);
        }
        let (a, b) = (ids.take(n - 1), ids.take(n));
        if a.contains(x) {
            let k = choose|k: int| 0 <= k < a.len() && a[k] == x;
            assert(b[k] == x);
        }
        if x == ids[n - 1] {
            assert(b[n - 1] == x);
        }
        if b.contains(x) && x != ids[n - 1] {
            let k = choose|k: int| 0 <= k < b.len() && b[k] == x;
            assert(a[k] == x);
        }
    }
}

proof fn lemma_badged(s: SessionView, found: Seq<(u64, Option<PrBadgeView>)>, n: int, x: PaneId)
    requires
        tidy(s),
    ensures
        tidy(badged(s, found, n)),
        forall|k: u64| windows_below(s, k) ==> #[trigger] windows_below(badged(s, found, n), k),
        pane_of(badged(s, found, n), x) == pane_of(s, x),
    decreases n,
{
    if n > 0 {
        lemma_badged(s, found, n - 1, x);
        let t = badged(s, found, n - 1);
        let u = badged(s, found, n);
        lemma_window_index(t.windows, WindowId(found[n - 1].0), 0);
        lemma_same_panes(t, u);
        lemma_same_home(t.windows, u.windows, x, 0);
        lemma_home(t.windows, x, 0);
    }
}

/// What a tick makes of the panes that are there once the attachments were pumped: the dead leave,
/// and the living stay, with no event waiting.
pub proof fn dead_panes_leave(
    v: ServerView,
    found: Seq<(u64, Option<PrBadgeView>)>,
    f: spec_fn(u64, u64) -> u32,
    g: spec_fn(u64, u64) -> u32,
    x: PaneId,
)
    requires
        sound(v),
        has_room(v),
    ensures
        ({
            let s = pumped_remotes(v.session, v.ids, v.remotes, v.remotes.len() as int, f, g).0;
            pane_of(ticked(v, found, f, g).0.session, x) == (match pane_of(s, x) {
                Some(p) => if p.alive {
                    Some(quieted_pane(p))
                } else {
                    None
                },
                None => None,
            })
        }),
{
    let (s0, ids, remotes) = pumped_remotes(
        v.session,
        v.ids,
        v.remotes,
        v.remotes.len() as int,
        f,
        g,
    );
    lemma_pumped_sound(v, f, g);
    let s1 = quieted(s0, s0.windows.len() as int);
    let gone = dead_of(s0);
    let s2 = without_panes(s1, gone, gone.len() as int);
    lemma_quieted_sheds(s0, x);
    each_end_is_told_once(s0, x);
    lemma_without_panes(s1, gone, gone.len() as int, x);
    assert(gone.take(gone.len() as int) =~= gone);
    lemma_badged(s2, found, found.len() as int, x);
}

proof fn lemma_pumped_sound(
    v: ServerView,
    f: spec_fn(u64, u64) -> u32,
    g: spec_fn(u64, u64) -> u32,
)
    requires
        sound(v),
        has_room(v),
    ensures
        ({
            let (s, ids, remotes) = pumped_remotes(
                v.session,
                v.ids,
                v.remotes,
                v.remotes.len() as int,
                f,
                g,
            );
            &&& tidy(s)
            &&& ids_below(s, ids.pane)
            &&& windows_below(s, ids.window)
            &&& all_told_once(s)
        }),
{
    let n = v.remotes.len() as int;
    lemma_remotes_pumped(v.session, v.ids, v.remotes, n, f, g);
    let (s, ids, remotes) = pumped_remotes(v.session, v.ids, v.remotes, n, f, g);
    assert forall|x: PaneId| #[trigger] pane_of(s, x) matches Some(p) implies told_once(
        pane_of(s, x)->0,
    ) by {
        assert(grown(v.session, v.ids.pane, s, ids.pane, x));
    }
}

/// A tick keeps panes apart, whatever peers sent, and leaves no dead pane and no event that waits.
/// It tells the end of every pane that is dead once the attachments were pumped, and tells it once:
/// the ends stand between the notifications and the damage.
pub proof fn ticks_keep_panes_apart(
    v: ServerView,
    found: Seq<(u64, Option<PrBadgeView>)>,
    f: spec_fn(u64, u64) -> u32,
    g: spec_fn(u64, u64) -> u32,
)
    requires
        sound(v),
        has_room(v),
    ensures
        ({
            let s = pumped_remotes(v.session, v.ids, v.remotes, v.remotes.len() as int, f, g).0;
            let d = drained_windows(nothing_drained(), s.windows, s.windows.len() as int);
            let (w, tick) = ticked(v, found, f, g);
            &&& sound(w)
            &&& forall|x: PaneId| #[trigger]
                pane_of(w.session, x) is Some ==> pane_of(w.session, x)->0.alive && pane_of(
                    w.session,
                    x,
                )->0.events.len() == 0
            &&& tick.batch == batch_of(d, dead_of(s))
            &&& dead_of(s).no_duplicates()
            &&& forall|x: PaneId| #[trigger]
                dead_of(s).contains(x) == (pane_of(s, x) is Some && !pane_of(s, x)->0.alive)
        }),
{
    let n = v.remotes.len() as int;
    let (s, ids, remotes) = pumped_remotes(v.session, v.ids, v.remotes, n, f, g);
    let w = ticked(v, found, f, g).0;
    lemma_pumped_sound(v, f, g);
    each_end_is_told_once(s, PaneId(0));
    assert forall|x: PaneId| #[trigger] dead_of(s).contains(x) == (pane_of(s, x) is Some
        && !pane_of(s, x)->0.alive) by {
        each_end_is_told_once(s, x);
    }
    lemma_below(s, ids.pane);
    assert forall|x: PaneId| #[trigger] pane_of(w.session, x) is Some implies pane_of(
        w.session,
        x,
    )->0.alive && pane_of(w.session, x)->0.events.len() == 0 && x.0 < w.ids.pane by {
        dead_panes_leave(v, found, f, g, x);
    }
    lemma_below(w.session, w.ids.pane);
    assert(tidy(w.session) && windows_below(w.session, w.ids.window)) by {
        let s1 = quieted(s, s.windows.len() as int);
        let gone = dead_of(s);
        lemma_quieted_sheds(s, PaneId(0));
        lemma_without_panes(s1, gone, gone.len() as int, PaneId(0));
        let s2 = without_panes(s1, gone, gone.len() as int);
        lemma_badged(s2, found, found.len() as int, PaneId(0));
        assert(windows_below(s1, ids.window));
        assert(windows_below(s2, ids.window));
    }
    assert(all_told_once(w.session));
}

// ---------------------------------------------------------------------------
// What happens outside.
// ---------------------------------------------------------------------------

/// What the programs of panes do keeps panes apart: what they write, that they end, and whether
/// they are busy.
pub proof fn programs_keep_panes_apart(v: ServerView, pane: PaneId, bytes: Seq<u8>, busy: bool)
    requires
        sound(v),
        pane_of(v.session, pane) is Some,
    ensures
        ({
            let p = pane_of(v.session, pane)->0;
            &&& sound(
                ServerView { session: with_pane(v.session, pane, pane_pumped(p, bytes)), ..v },
            )
            &&& sound(ServerView { session: with_pane(v.session, pane, ended(p)), ..v })
            &&& sound(
                ServerView {
                    session: with_pane(v.session, pane, crate::server::state::busied(p, busy)),
                    ..v
                },
            )
        }),
{
    let s = v.session;
    let p = pane_of(s, pane)->0;
    lemma_pane_of(s, pane);
    lemma_output_follows(p, bytes);
    lemma_ended_follows(p);
    lemma_pane_sheds(s, pane, pane_pumped(p, bytes));
    lemma_pane_sheds(s, pane, ended(p));
    let q = crate::server::state::busied(p, busy);
    lemma_pane_sheds(s, pane, q);
    lemma_sheds_sound(
        v,
        ServerView { session: with_pane(s, pane, pane_pumped(p, bytes)), ..v },
    );
    lemma_sheds_sound(v, ServerView { session: with_pane(s, pane, ended(p)), ..v });
    lemma_sheds_sound(v, ServerView { session: with_pane(s, pane, q), ..v });
}

/// Taking an id keeps panes apart, and no window holds the pane of that id.
pub proof fn taken_ids_are_free(v: ServerView)
    requires
        sound(v),
        v.ids.pane < u64::MAX,
    ensures
        pane_of(v.session, PaneId(v.ids.pane)) is None,
        sound(ServerView { ids: Ids { pane: after(v.ids.pane), ..v.ids }, ..v }),
{
    lemma_below(v.session, v.ids.pane);
    lemma_below(v.session, after(v.ids.pane));
}

// ---------------------------------------------------------------------------
// New servers.
// ---------------------------------------------------------------------------

/// A session of one new pane keeps panes apart.
pub proof fn started_sessions_are_apart(s: SessionView, window: u64, p: PaneView, ids: Ids)
    requires
        s.windows == seq![plain_window(WindowId(window), seq![p], Node::Leaf(p.id), p.id)],
        told_once(p),
        p.id.0 < ids.pane,
        window < ids.window,
    ensures
        tidy(s),
        ids_below(s, ids.pane),
        windows_below(s, ids.window),
        all_told_once(s),
{
    let panes = seq![p];
    assert(s.windows[0].panes == panes);
    assert forall|x: PaneId| #[trigger] pane_of(s, x) is Some implies pane_of(s, x) == Some(p) && x
        == p.id by {
        lemma_home(s.windows, x, 0);
        lemma_pane_index(panes, x, 0);
    }
    lemma_below(s, ids.pane);
}

/// A restored session keeps panes apart, where the panes that were started for it have ids of their
/// own.
pub proof fn restored_sessions_are_apart(
    s: SessionView,
    saved: Seq<WindowSnapshotView>,
    panes: Seq<Seq<PaneView>>,
    start: u64,
    ids: Ids,
)
    requires
        s.windows == restored_windows(saved, panes, start),
        panes.len() == saved.len(),
        start + saved.len() <= ids.window,
        forall|i: int, k: int|
            0 <= i < panes.len() && 0 <= k < panes[i].len() ==> (#[trigger] panes[i][k]).id.0
                < ids.pane && told_once(panes[i][k]),
        forall|i: int, k: int, j: int, l: int|
            0 <= i < panes.len() && 0 <= k < panes[i].len() && 0 <= j < panes.len() && 0 <= l
                < panes[j].len() && !(i == j && k == l) ==> (#[trigger] panes[i][k]).id != (
            #[trigger] panes[j][l]).id,
    ensures
        tidy(s),
        ids_below(s, ids.pane),
        windows_below(s, ids.window),
        all_told_once(s),
{
    let none = Seq::<PaneView>::empty();
    assert forall|y: PaneId| !holds(none, y) by {
        lemma_holds(none, y);
    }
    assert forall|i: int| 0 <= i < panes.len() implies distinct(#[trigger] panes[i]) by {
        assert forall|k: int, l: int| 0 <= k < l < panes[i].len() implies (
        #[trigger] panes[i][k]).id != (#[trigger] panes[i][l]).id by {}
    }
    assert forall|i: int| 0 <= i < s.windows.len() implies distinct(
        (#[trigger] s.windows[i]).panes,
    ) && s.windows[i].id.0 < ids.window by {
        assert(s.windows[i] == restored_windows(saved, panes, start)[i]);
        lemma_inserted_all(none, panes[i]);
        ids_are_never_reused(start, i as nat, saved.len());
    }
    assert forall|i: int, y: PaneId|
        0 <= i < s.windows.len() && #[trigger] holds(s.windows[i].panes, y) implies holds(
        panes[i],
        y,
    ) && y.0 < ids.pane by {
        assert(s.windows[i] == restored_windows(saved, panes, start)[i]);
        lemma_inserted_all(none, panes[i]);
        lemma_holds(panes[i], y);
        let k = choose|k: int| 0 <= k < panes[i].len() && (#[trigger] panes[i][k]).id == y;
        assert(panes[i][k].id == y);
    }
    assert forall|i: int, j: int, y: PaneId|
        0 <= i < j < s.windows.len() implies !(#[trigger] holds(s.windows[i].panes, y)
        && #[trigger] holds(s.windows[j].panes, y)) by {
        if holds(s.windows[i].panes, y) && holds(s.windows[j].panes, y) {
            lemma_holds(panes[i], y);
            lemma_holds(panes[j], y);
            let k = choose|k: int| 0 <= k < panes[i].len() && (#[trigger] panes[i][k]).id == y;
            let l = choose|l: int| 0 <= l < panes[j].len() && (#[trigger] panes[j][l]).id == y;
            assert(panes[i][k].id != panes[j][l].id);
        }
    }
    assert forall|x: PaneId| #[trigger] pane_of(s, x) matches Some(p) implies told_once(
        pane_of(s, x)->0,
    ) by {
        lemma_home(s.windows, x, 0);
        let i = home_of(s.windows, x, 0)->0;
        assert(s.windows[i] == restored_windows(saved, panes, start)[i]);
        lemma_held(s, x, i);
        lemma_among_inserted(none, panes[i], x);
        lemma_pane_index(panes[i], x, 0);
        let k = pane_index(panes[i], x, 0)->0;
        assert(told_once(panes[i][k]));
    }
}

} // verus!
