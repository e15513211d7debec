//! What pumping an attachment leaves as it is: the events that wait in panes, and the panes that the
//! attachment does not mirror.
use vstd::prelude::*;

#[allow(unused_imports)]
use crate::mux::ids::{after, Ids, PaneId, WindowId};
#[allow(unused_imports)]
use crate::mux::layout::{has_leaf, Node};
#[allow(unused_imports)]
use crate::mux::pane::{
    ended, marked_exited, noted, noted_all, pumped as pane_pumped, PaneEventView, PaneView,
};
#[allow(unused_imports)]
use crate::mux::session::{
    extracted, home_of, home_window, lemma_held, lemma_home, lemma_pane_changed, lemma_pane_of,
    lemma_pane_taken, lemma_window_changed, lemma_window_dropped, lemma_window_index,
    lemma_window_pushed, pane_among, pane_of, tidy, window_index, with_pane, SessionView,
};
#[allow(unused_imports)]
use crate::mux::window::{
    distinct, holds, inserted, inserted_all, kept, lemma_holds, lemma_inserted_all, lemma_kept,
    lemma_pane_index, lemma_pushed, pane_index, with_tree,
};
#[allow(unused_imports)]
use crate::pairs::{key_index, lemma_key_index, lookup, put, without_key, Pairs};
#[allow(unused_imports)]
use crate::remote::attachment::{
    all_marked, applied, applied_all, built, enumerated, forgotten, in_window, laid_out, listing,
    made, output_pushed, picked, place_of, placed, pumped, rehomed, size_of, target_of,
    window_built, window_closed, AttachmentView, Build, Mirror,
};
#[allow(unused_imports)]
use crate::remote::convert::{divided, leaves, tree_of, LeafSize};
#[allow(unused_imports)]
use crate::remote::laws::{drained, ids_below, lemma_forwarded, pumping, windows_below};
#[allow(unused_imports)]
use crate::remote::replies::Listed;
#[allow(unused_imports)]
use crate::remote::transport::TransportEventView;
#[allow(unused_imports)]
use crate::tmux::layout::LayoutView;
#[allow(unused_imports)]
use crate::tmux::parser::{EventView, NotificationView};
#[allow(unused_imports)]
use crate::vt::osc::TermEventView;

verus! {

// ---------------------------------------------------------------------------
// One pane.
// ---------------------------------------------------------------------------

/// How often events tell that a pane's program ended.
pub open spec fn exits(events: Seq<PaneEventView>) -> nat
    decreases events.len(),
{
    if events.len() == 0 {
        0
    } else {
        exits(events.drop_last()) + (if events.last() is Exited {
            1nat
        } else {
            0nat
        })
    }
}

/// Whether a pane tells at most once that its program ended, and only where it did.
pub open spec fn told_once(p: PaneView) -> bool {
    exits(p.events) <= (if p.alive {
        0nat
    } else {
        1nat
    })
}

/// Whether a pane is another one later: the same pane, with all events that waited in it, and more
/// behind them.
pub open spec fn carries(p: PaneView, q: PaneView) -> bool {
    &&& q.id == p.id
    &&& q.backend == p.backend
    &&& p.events.len() <= q.events.len()
    &&& q.events.take(p.events.len() as int) == p.events
}

/// Whether a pane is another one later, and tells of its end once if that one did.
pub open spec fn follows(p: PaneView, q: PaneView) -> bool {
    carries(p, q) && (told_once(p) ==> told_once(q))
}

pub proof fn lemma_follows_itself(p: PaneView)
    ensures
        follows(p, p),
{
    assert(p.events.take(p.events.len() as int) =~= p.events);
}

pub proof fn lemma_follows_on(p: PaneView, q: PaneView, r: PaneView)
    requires
        follows(p, q),
        follows(q, r),
    ensures
        follows(p, r),
{
    assert(r.events.take(p.events.len() as int) =~= q.events.take(p.events.len() as int)) by {
        assert forall|i: int| 0 <= i < p.events.len() implies r.events[i] == q.events[i] by {
            assert(r.events.take(q.events.len() as int)[i] == q.events[i]);
        }
    }
}

proof fn lemma_pushed_event(p: PaneView, q: PaneView, e: PaneEventView)
    requires
        q.id == p.id,
        q.backend == p.backend,
        q.alive == p.alive,
        q.events == p.events.push(e),
        !(e is Exited),
    ensures
        follows(p, q),
{
    assert(q.events.take(p.events.len() as int) =~= p.events);
    assert(q.events.drop_last() =~= p.events);
}

pub proof fn lemma_noted_follows(p: PaneView, e: TermEventView)
    ensures
        follows(p, noted(p, e)),
{
    let q = noted(p, e);
    if q.events == p.events {
        lemma_follows_itself(p);
        assert(q.events.take(p.events.len() as int) =~= p.events);
    } else {
        lemma_pushed_event(p, q, q.events.last());
    }
}

proof fn lemma_noted_all_follows(p: PaneView, es: Seq<TermEventView>)
    ensures
        follows(p, noted_all(p, es)),
    decreases es.len(),
{
    if es.len() == 0 {
        lemma_follows_itself(p);
    } else {
        let q = noted_all(p, es.drop_last());
        lemma_noted_all_follows(p, es.drop_last());
        lemma_noted_follows(q, es.last());
        lemma_follows_on(p, q, noted_all(p, es));
    }
}

/// Output leaves what waits in a pane, and tells of no end.
pub proof fn lemma_output_follows(p: PaneView, bytes: Seq<u8>)
    ensures
        follows(p, pane_pumped(p, bytes)),
{
    let (terminal, es) = crate::vt::terminal::advanced(p.terminal, bytes);
    let start = PaneView { terminal, ..p };
    let q = noted_all(start, es);
    lemma_noted_all_follows(start, es);
    let r = pane_pumped(p, bytes);
    if bytes.len() > 0 {
        lemma_pushed_event(q, r, PaneEventView::Output);
        lemma_follows_on(start, q, r);
    }
    assert(r.events.take(p.events.len() as int) == p.events);
}

/// Marking a pane as ended leaves what waits in it, and tells of the end once.
pub proof fn lemma_ended_follows(p: PaneView)
    ensures
        follows(p, ended(p)),
        follows(p, marked_exited(p)),
{
    lemma_follows_itself(p);
    let q = ended(p);
    if p.alive {
        assert(q.events.take(p.events.len() as int) =~= p.events);
        assert(q.events.drop_last() =~= p.events);
    }
}

// ---------------------------------------------------------------------------
// Panes among panes.
// ---------------------------------------------------------------------------

proof fn lemma_among(panes: Seq<PaneView>, x: PaneId)
    ensures
        pane_among(panes, x) is Some == holds(panes, x),
        pane_among(panes, x) matches Some(p) ==> p.id == x,
{
    lemma_pane_index(panes, x, 0);
}

/// Which pane is found behind a push.
pub proof fn lemma_among_pushed(panes: Seq<PaneView>, p: PaneView, x: PaneId)
    ensures
        pane_among(panes.push(p), x) == (if holds(panes, x) {
            pane_among(panes, x)
        } else if x == p.id {
            Some(p)
        } else {
            None
        }),
{
    let q = panes.push(p);
    lemma_pushed(panes, p, x);
    lemma_pane_index(panes, x, 0);
    lemma_pane_index(q, x, 0);
    if let Some(i) = pane_index(panes, x, 0) {
        assert(q[i].id == x);
        let j = pane_index(q, x, 0)->0;
        if j < i {
            assert(panes[j].id == x);
        }
    } else if x == p.id {
        let j = pane_index(q, x, 0)->0;
        if j < panes.len() {
            assert(panes[j].id == x);
        }
    }
}

proof fn lemma_distinct_pushed(panes: Seq<PaneView>, p: PaneView)
    requires
        distinct(panes),
        !holds(panes, p.id),
    ensures
        distinct(panes.push(p)),
{
    let q = panes.push(p);
    lemma_pane_index(panes, p.id, 0);
    assert forall|i: int, j: int| 0 <= i < j < q.len() implies (#[trigger] q[i]).id != (
    #[trigger] q[j]).id by {
        assert(q[i] == panes[i]);
        if j < panes.len() {
            assert(q[j] == panes[j]);
        }
    }
}

/// Panes of a list that none of others is among, inserted, are found as they are in either list.
pub proof fn lemma_among_inserted(panes: Seq<PaneView>, added: Seq<PaneView>, x: PaneId)
    requires
        distinct(panes),
        distinct(added),
        forall|y: PaneId| #[trigger] holds(added, y) ==> !holds(panes, y),
    ensures
        pane_among(inserted_all(panes, added), x) == (if holds(added, x) {
            pane_among(added, x)
        } else {
            pane_among(panes, x)
        }),
    decreases added.len(),
{
    if added.len() == 0 {
        lemma_holds(added, x);
    } else {
        let front = added.drop_last();
        let last = added.last();
        assert(added =~= front.push(last));
        assert forall|y: PaneId| #[trigger] holds(front, y) implies !holds(panes, y) by {
            lemma_pushed(front, last, y);
        }
        assert(distinct(front)) by {
            assert forall|i: int, j: int| 0 <= i < j < front.len() implies (#[trigger] front[i]).id
                != (#[trigger] front[j]).id by {
                assert(added[i] == front[i] && added[j] == front[j]);
            }
        }
        assert(!holds(front, last.id)) by {
            lemma_pane_index(front, last.id, 0);
            if let Some(i) = pane_index(front, last.id, 0) {
                assert(added[i].id != added[added.len() - 1].id);
            }
        }
        lemma_pushed(front, last, last.id);
        lemma_pushed(front, last, x);
        lemma_among_inserted(panes, front, x);
        lemma_inserted_all(panes, front);
        let q = inserted_all(panes, front);
        assert(!holds(q, last.id));
        lemma_among_pushed(q, last, x);
        lemma_among_pushed(front, last, x);
        lemma_among(q, x);
        lemma_among(panes, x);
    }
}

proof fn lemma_among_kept(panes: Seq<PaneView>, root: Node, x: PaneId)
    requires
        distinct(panes),
    ensures
        pane_among(kept(panes, root), x) == (if has_leaf(root, x) {
            pane_among(panes, x)
        } else {
            None
        }),
    decreases panes.len(),
{
    lemma_kept(panes, root);
    lemma_among(kept(panes, root), x);
    if panes.len() > 0 {
        let front = panes.drop_last();
        let last = panes.last();
        assert(panes =~= front.push(last));
        assert(distinct(front)) by {
            assert forall|i: int, j: int| 0 <= i < j < front.len() implies (#[trigger] front[i]).id
                != (#[trigger] front[j]).id by {
                assert(panes[i] == front[i] && panes[j] == front[j]);
            }
        }
        lemma_among_kept(front, root, x);
        lemma_kept(front, root);
        lemma_among_pushed(front, last, x);
        lemma_among_pushed(kept(front, root), last, x);
        lemma_among(front, x);
    } else {
        lemma_among(panes, x);
        lemma_holds(panes, x);
    }
}

// ---------------------------------------------------------------------------
// Numbers in pairs.
// ---------------------------------------------------------------------------

/// Whether a number is the value of no pair.
pub open spec fn absent(map: Pairs<u64>, v: u64) -> bool {
    forall|k: int| 0 <= k < map.len() ==> (#[trigger] map[k]).1 != v
}

proof fn lemma_absent_lookup(map: Pairs<u64>, v: u64, key: u64)
    requires
        absent(map, v),
    ensures
        lookup(map, key) != Some(v),
{
    lemma_key_index(map, key, 0);
}

proof fn lemma_absent_put(map: Pairs<u64>, v: u64, key: u64, new: u64)
    requires
        absent(map, v),
        new != v,
    ensures
        absent(put(map, key, new), v),
{
    lemma_key_index(map, key, 0);
    let p = put(map, key, new);
    assert forall|k: int| 0 <= k < p.len() implies (#[trigger] p[k]).1 != v by {
        if k < map.len() {
            assert(map[k].1 != v);
        }
    }
}

proof fn lemma_absent_removed(map: Pairs<u64>, v: u64, key: u64)
    requires
        absent(map, v),
    ensures
        absent(without_key(map, key), v),
{
    lemma_key_index(map, key, 0);
    let p = without_key(map, key);
    if let Some(i) = key_index(map, key, 0) {
        assert forall|k: int| 0 <= k < p.len() implies (#[trigger] p[k]).1 != v by {
            if k < i {
                assert(p[k] == map[k]);
            } else {
                assert(p[k] == map[k + 1]);
            }
        }
    }
}

proof fn lemma_absent_forgotten(map: Pairs<u64>, v: u64, panes: Seq<PaneView>, n: int)
    requires
        absent(map, v),
    ensures
        absent(forgotten(map, panes, n), v),
    decreases n,
{
    if n > 0 {
        lemma_absent_forgotten(map, v, panes, n - 1);
        let rest = forgotten(map, panes, n - 1);
        if let Some(r) = panes[n - 1].remote_id() {
            lemma_absent_removed(rest, v, r);
        }
    }
}

// ---------------------------------------------------------------------------
// One event.
// ---------------------------------------------------------------------------

/// Whether an attachment mirrors nothing into a pane, nor into a window.
pub open spec fn clear_of(a: AttachmentView, id: PaneId, window: WindowId) -> bool {
    absent(a.panes, id.0) && absent(a.windows, window.0)
}

/// Whether a pane is in a window, and the attachment mirrors into neither.
pub open spec fn spared(m: Mirror, id: PaneId, window: WindowId) -> bool {
    home_window(m.session, id) == Some(window) && clear_of(m.att, id, window)
}

/// Whether no pane is held twice, and new panes and windows get ids that none has.
pub open spec fn settled(m: Mirror) -> bool {
    &&& tidy(m.session)
    &&& ids_below(m.session, m.ids.pane)
    &&& windows_below(m.session, m.ids.window)
}

/// Whether a pane, if it is in a session later, is one that was in it before, or a new one with an
/// id from `lo` to below `hi`.
pub open spec fn grown(s: SessionView, lo: u64, t: SessionView, hi: u64, x: PaneId) -> bool {
    pane_of(t, x) matches Some(q) ==> (match pane_of(s, x) {
        Some(p) => follows(p, q),
        None => lo <= x.0 < hi && told_once(q),
    })
}

/// Whether a pane, if it is there, is a new one or follows one that was there before.
pub open spec fn comes_from(m: Mirror, n: Mirror, x: PaneId) -> bool {
    grown(m.session, m.ids.pane, n.session, n.ids.pane, x)
}

/// What lies between two moments of mirroring: at most so many ids were handed out, every pane that
/// is there is a new one or one that was there before, and what the attachment does not mirror is
/// as it was.
pub open spec fn passes(m: Mirror, n: Mirror, panes: nat, windows: nat) -> bool {
    &&& settled(n)
    &&& m.ids.pane <= n.ids.pane <= m.ids.pane + panes
    &&& m.ids.window <= n.ids.window <= m.ids.window + windows
    &&& forall|x: PaneId| #![trigger pane_of(n.session, x)] comes_from(m, n, x)
    &&& forall|x: PaneId, w: WindowId|
        spared(m, x, w) ==> #[trigger] spared(n, x, w) && pane_of(n.session, x) == pane_of(
            m.session,
            x,
        )
}

/// Ids are below a number exactly where those of all panes that are found are.
pub proof fn lemma_below(s: SessionView, n: u64)
    ensures
        ids_below(s, n) == forall|x: PaneId| #[trigger] pane_of(s, x) is Some ==> x.0 < n,
{
    if ids_below(s, n) {
        assert forall|x: PaneId| #[trigger] pane_of(s, x) is Some implies x.0 < n by {
            lemma_home(s.windows, x, 0);
            let h = home_of(s.windows, x, 0)->0;
            assert(holds(s.windows[h].panes, x));
        }
    }
    if forall|x: PaneId| #[trigger] pane_of(s, x) is Some ==> x.0 < n {
        assert forall|i: int, id: PaneId|
            0 <= i < s.windows.len() && #[trigger] holds(s.windows[i].panes, id) implies id.0
            < n by {
            lemma_home(s.windows, id, 0);
            assert(pane_of(s, id) is Some);
        }
    }
}

proof fn lemma_spared_found(s: SessionView, x: PaneId, n: u64)
    ensures
        home_window(s, x) is Some == pane_of(s, x) is Some,
        windows_below(s, n) ==> (home_window(s, x) matches Some(w) ==> w.0 < n),
{
    lemma_home(s.windows, x, 0);
}

/// Windows keep their ids when a pane is taken out.
pub proof fn lemma_taken_windows(s: SessionView, id: PaneId, n: u64)
    requires
        windows_below(s, n),
    ensures
        windows_below(extracted(s, id), n),
        windows_below(crate::mux::session::removed_pane(s, id), n),
{
    lemma_home(s.windows, id, 0);
}

proof fn lemma_passes_nothing(m: Mirror, n: Mirror)
    requires
        settled(m),
        n.session == m.session,
        n.ids == m.ids,
        n.att.panes == m.att.panes,
        n.att.windows == m.att.windows,
    ensures
        passes(m, n, 0, 0),
{
    assert forall|x: PaneId| #![trigger pane_of(n.session, x)] comes_from(m, n, x) by {
        lemma_follows_itself(pane_of(n.session, x)->0);
    }
}

proof fn lemma_passes_on(m: Mirror, n: Mirror, o: Mirror, a: nat, b: nat, c: nat, d: nat)
    requires
        settled(m),
        passes(m, n, a, b),
        passes(n, o, c, d),
    ensures
        passes(m, o, a + c, b + d),
{
    assert forall|x: PaneId| #![trigger pane_of(o.session, x)] comes_from(m, o, x) by {
        let r = pane_of(o.session, x)->0;
        if pane_of(o.session, x) is None {
        } else if let Some(q) = pane_of(n.session, x) {
            if let Some(p) = pane_of(m.session, x) {
                lemma_follows_on(p, q, r);
            }
        } else {
            lemma_below(m.session, m.ids.pane);
        }
    }
    assert forall|x: PaneId, w: WindowId| spared(m, x, w) implies #[trigger] spared(o, x, w)
        && pane_of(o.session, x) == pane_of(m.session, x) by {
        assert(spared(n, x, w));
    }
}

/// More room does no harm.
proof fn lemma_passes_wider(m: Mirror, n: Mirror, a: nat, b: nat, c: nat, d: nat)
    requires
        passes(m, n, a, b),
        a <= c,
        b <= d,
    ensures
        passes(m, n, c, d),
{
}

/// One pane that changed.
proof fn lemma_passes_pane(m: Mirror, n: Mirror, id: PaneId, q: PaneView)
    requires
        settled(m),
        pane_of(m.session, id) is Some,
        follows(pane_of(m.session, id)->0, q),
        n.session == with_pane(m.session, id, q),
        n.ids == m.ids,
        n.att.panes == m.att.panes,
        n.att.windows == m.att.windows,
        !absent(m.att.panes, id.0),
    ensures
        passes(m, n, 0, 0),
{
    lemma_pane_of(m.session, id);
    lemma_below(m.session, m.ids.pane);
    assert forall|x: PaneId|
        #![trigger pane_of(n.session, x)]
        comes_from(m, n, x) && (pane_of(n.session, x) is Some ==> x.0 < n.ids.pane) by {
        lemma_pane_changed(m.session, id, q, x);
        lemma_follows_itself(pane_of(n.session, x)->0);
    }
    lemma_below(n.session, n.ids.pane);
    assert forall|x: PaneId, w: WindowId| spared(m, x, w) implies #[trigger] spared(n, x, w)
        && pane_of(n.session, x) == pane_of(m.session, x) by {
        lemma_pane_changed(m.session, id, q, x);
    }
    lemma_pane_changed(m.session, id, q, id);
    lemma_home(m.session.windows, id, 0);
}

// ---------------------------------------------------------------------------
// Layouts and listings.
// ---------------------------------------------------------------------------

/// Where panes are when mirrors were taken out of other windows.
pub proof fn lemma_rehomed(
    map: Pairs<u64>,
    target: Option<WindowId>,
    s: SessionView,
    ls: Seq<LeafSize>,
    n: int,
    x: PaneId,
    high: u64,
)
    requires
        0 <= n <= ls.len(),
        tidy(s),
        windows_below(s, high),
    ensures
        ({
            let (t, out) = rehomed(map, target, s, ls, n);
            &&& tidy(t)
            &&& windows_below(t, high)
            &&& distinct(out)
            &&& holds(out, x) ==> pane_of(t, x) is None && pane_among(out, x) == pane_of(s, x)
                && pane_of(s, x) is Some
            &&& !holds(out, x) ==> pane_of(t, x) == pane_of(s, x) && home_window(t, x)
                == home_window(s, x)
            &&& absent(map, x.0) ==> !holds(out, x)
        }),
    decreases n,
{
    if n > 0 {
        lemma_rehomed(map, target, s, ls, n - 1, x, high);
        let (t, out) = rehomed(map, target, s, ls, n - 1);
        if let Some(id) = lookup(map, ls[n - 1].0) {
            if absent(map, x.0) {
                lemma_absent_lookup(map, x.0, ls[n - 1].0);
            }
            let id = PaneId(id);
            if !in_window(t, target, id) {
                if let Some(p) = pane_of(t, id) {
                    lemma_rehomed(map, target, s, ls, n - 1, id, high);
                    lemma_taken_windows(t, id, high);
                    lemma_pane_of(t, id);
                    lemma_pane_taken(t, id, x);
                    lemma_distinct_pushed(out, p);
                    lemma_among_pushed(out, p, x);
                    lemma_pushed(out, p, x);
                }
            }
        }
    } else {
        lemma_holds(Seq::<PaneView>::empty(), x);
    }
}

/// Whether panes under construction are new and distinct, at most `n` of them.
spec fn fresh(lo: Build, c: Build, n: int) -> bool {
    &&& distinct(c.panes)
    &&& lo.ids.pane <= c.ids.pane <= lo.ids.pane + n
    &&& c.ids.window == lo.ids.window
    &&& forall|y: PaneId| #[trigger]
        holds(c.panes, y) ==> lo.ids.pane <= y.0 < c.ids.pane && told_once(
            pane_among(c.panes, y)->0,
        )
    &&& forall|v: u64| absent(lo.map, v) && v < lo.ids.pane ==> #[trigger] absent(c.map, v)
}

proof fn lemma_fresh_start(b: Build)
    requires
        b.panes.len() == 0,
    ensures
        fresh(b, b, 0),
{
    assert forall|y: PaneId| !holds(b.panes, y) by {
        lemma_holds(b.panes, y);
    }
}

proof fn lemma_made(lo: Build, c: Build, n: int, remote: u64, cols: u16, rows: u16)
    requires
        fresh(lo, c, n),
        lo.ids.pane + n < u64::MAX,
    ensures
        fresh(lo, made(c, remote, cols, rows), n + 1),
{
    let d = made(c, remote, cols, rows);
    let p = d.panes.last();
    assert(d.panes == c.panes.push(p));
    assert(p.id == PaneId(c.ids.pane) && p.events.len() == 0);
    assert(!holds(c.panes, p.id));
    lemma_distinct_pushed(c.panes, p);
    assert forall|y: PaneId| #[trigger] holds(d.panes, y) implies lo.ids.pane <= y.0 < d.ids.pane
        && told_once(pane_among(d.panes, y)->0) by {
        lemma_pushed(c.panes, p, y);
        lemma_among_pushed(c.panes, p, y);
        lemma_among(c.panes, y);
    }
    assert forall|v: u64| absent(lo.map, v) && v < lo.ids.pane implies #[trigger] absent(
        d.map,
        v,
    ) by {
        assert(absent(c.map, v));
        lemma_absent_put(c.map, v, remote, c.ids.pane);
    }
}

proof fn lemma_picked(
    b: Build,
    s: SessionView,
    target: Option<WindowId>,
    moved: Seq<PaneView>,
    ls: Seq<LeafSize>,
    n: int,
)
    requires
        0 <= n <= ls.len(),
        b.panes.len() == 0,
        b.ids.pane + ls.len() <= u64::MAX,
    ensures
        fresh(b, picked(b, s, target, moved, ls, n).0, n),
    decreases n,
{
    if n > 0 {
        lemma_picked(b, s, target, moved, ls, n - 1);
        let (c, chosen) = picked(b, s, target, moved, ls, n - 1);
        let remote = ls[n - 1].0;
        let (cols, rows) = size_of(ls, remote, ls.len() as int);
        lemma_made(b, c, n - 1, remote, cols, rows);
    } else {
        lemma_fresh_start(b);
    }
}

proof fn lemma_built(b: Build, all: Seq<Listed>, window: u64, n: int)
    requires
        0 <= n <= all.len(),
        b.panes.len() == 0,
        b.ids.pane + all.len() <= u64::MAX,
    ensures
        fresh(b, built(b, all, window, n), n),
    decreases n,
{
    if n > 0 {
        lemma_built(b, all, window, n - 1);
        let c = built(b, all, window, n - 1);
        lemma_made(b, c, n - 1, all[n - 1].1, all[n - 1].2, all[n - 1].3);
    } else {
        lemma_fresh_start(b);
    }
}

/// Panes behind panes.
proof fn lemma_among_joined(a: Seq<PaneView>, b: Seq<PaneView>, x: PaneId)
    ensures
        holds(a + b, x) == (holds(a, x) || holds(b, x)),
        pane_among(a + b, x) == (if holds(a, x) {
            pane_among(a, x)
        } else {
            pane_among(b, x)
        }),
    decreases b.len(),
{
    if b.len() == 0 {
        assert(a + b =~= a);
        lemma_holds(b, x);
        lemma_among(b, x);
        lemma_among(a, x);
    } else {
        let front = b.drop_last();
        let last = b.last();
        lemma_among_joined(a, front, x);
        assert(b =~= front.push(last));
        assert(a + b =~= (a + front).push(last));
        lemma_among_pushed(a + front, last, x);
        lemma_pushed(a + front, last, x);
        lemma_among_pushed(front, last, x);
        lemma_pushed(front, last, x);
    }
}

proof fn lemma_distinct_joined(a: Seq<PaneView>, b: Seq<PaneView>)
    requires
        distinct(a),
        distinct(b),
        forall|y: PaneId| #[trigger] holds(a, y) ==> !holds(b, y),
    ensures
        distinct(a + b),
{
    let c = a + b;
    assert forall|i: int, j: int| 0 <= i < j < c.len() implies (#[trigger] c[i]).id != (
    #[trigger] c[j]).id by {
        if j < a.len() {
            assert(c[i] == a[i] && c[j] == a[j]);
        } else if i >= a.len() {
            assert(c[i] == b[i - a.len()] && c[j] == b[j - a.len()]);
        } else {
            assert(c[i] == a[i] && c[j] == b[j - a.len()]);
            lemma_holds(a, a[i].id);
            lemma_holds(b, b[j - a.len()].id);
        }
    }
}

/// Where a pane is when panes were gathered for a window: among those, or in the session as before.
spec fn gathered(m: Mirror, s: SessionView, added: Seq<PaneView>, b: Build, x: PaneId) -> bool {
    &&& holds(added, x) ==> pane_of(s, x) is None && pane_among(added, x) is Some && (match pane_of(
        m.session,
        x,
    ) {
        Some(p) => follows(p, pane_among(added, x)->0),
        None => m.ids.pane <= x.0 < b.ids.pane && told_once(pane_among(added, x)->0),
    })
    &&& !holds(added, x) ==> pane_of(s, x) == pane_of(m.session, x) && home_window(s, x)
        == home_window(m.session, x)
    &&& absent(m.att.panes, x.0) && x.0 < m.ids.pane ==> !holds(added, x) && absent(b.map, x.0)
}

/// What the leaves of a layout take from a session and make anew.
proof fn lemma_gathered(
    m: Mirror,
    target: Option<WindowId>,
    ls: Seq<LeafSize>,
    s: SessionView,
    moved: Seq<PaneView>,
    b: Build,
    x: PaneId,
)
    requires
        settled(m),
        m.ids.pane + ls.len() <= u64::MAX,
        (s, moved) == rehomed(m.att.panes, target, m.session, ls, ls.len() as int),
        b == picked(
            Build { ids: m.ids, map: m.att.panes, panes: Seq::empty() },
            s,
            target,
            moved,
            ls,
            ls.len() as int,
        ).0,
    ensures
        tidy(s),
        windows_below(s, m.ids.window),
        distinct(b.panes + moved),
        m.ids.pane <= b.ids.pane <= m.ids.pane + ls.len(),
        b.ids.window == m.ids.window,
        gathered(m, s, b.panes + moved, b, x),
{
    let b0 = Build { ids: m.ids, map: m.att.panes, panes: Seq::empty() };
    lemma_below(m.session, m.ids.pane);
    lemma_picked(b0, s, target, moved, ls, ls.len() as int);
    lemma_rehomed(m.att.panes, target, m.session, ls, ls.len() as int, x, m.ids.window);
    assert forall|y: PaneId| #[trigger] holds(b.panes, y) implies !holds(moved, y) by {
        lemma_rehomed(m.att.panes, target, m.session, ls, ls.len() as int, y, m.ids.window);
    }
    lemma_distinct_joined(b.panes, moved);
    lemma_among_joined(b.panes, moved, x);
    lemma_among(b.panes, x);
    lemma_among(moved, x);
    if holds(moved, x) {
        lemma_follows_itself(pane_of(m.session, x)->0);
    }
}

/// A window of gathered panes, appended.
proof fn lemma_placed(
    m: Mirror,
    s: SessionView,
    added: Seq<PaneView>,
    b: Build,
    window: u64,
    root: Node,
    k: nat,
)
    requires
        settled(m),
        tidy(s),
        windows_below(s, m.ids.window),
        distinct(added),
        m.ids.pane <= b.ids.pane <= m.ids.pane + k,
        b.ids.window == m.ids.window,
        m.ids.window < u64::MAX,
        forall|x: PaneId| #[trigger] gathered(m, s, added, b, x),
    ensures
        passes(
            m,
            placed(
                Mirror {
                    att: AttachmentView { panes: b.map, ..m.att },
                    session: s,
                    ids: b.ids,
                },
                window,
                added,
                root,
            ),
            k,
            1,
        ),
{
    let n = placed(
        Mirror { att: AttachmentView { panes: b.map, ..m.att }, session: s, ids: b.ids },
        window,
        added,
        root,
    );
    let none = Seq::<PaneView>::empty();
    let w = n.session.windows.last();
    assert(w.panes == inserted_all(none, added));
    assert(n.session.windows == s.windows.push(w));
    lemma_inserted_all(none, added);
    assert forall|y: PaneId| !holds(none, y) by {
        lemma_holds(none, y);
    }
    assert forall|y: PaneId, j: int|
        0 <= j < s.windows.len() && #[trigger] holds(w.panes, y) implies !(#[trigger] holds(
        s.windows[j].panes,
        y,
    )) by {
        assert(gathered(m, s, added, b, y));
        if holds(s.windows[j].panes, y) {
            lemma_held(s, y, j);
        }
    }
    lemma_below(m.session, m.ids.pane);
    assert forall|x: PaneId|
        #![trigger pane_of(n.session, x)]
        comes_from(m, n, x) && (pane_of(n.session, x) is Some ==> x.0 < n.ids.pane) by {
        assert(gathered(m, s, added, b, x));
        lemma_window_pushed(s, n.session, w, x);
        lemma_among_inserted(none, added, x);
        if pane_of(m.session, x) is Some {
            lemma_follows_itself(pane_of(m.session, x)->0);
        }
    }
    lemma_below(n.session, n.ids.pane);
    lemma_window_pushed(s, n.session, w, PaneId(0));
    assert forall|x: PaneId, v: WindowId| spared(m, x, v) implies #[trigger] spared(n, x, v)
        && pane_of(n.session, x) == pane_of(m.session, x) by {
        assert(gathered(m, s, added, b, x));
        lemma_spared_found(m.session, x, m.ids.window);
        lemma_window_pushed(s, n.session, w, x);
        lemma_absent_put(m.att.windows, v.0, window, m.ids.window);
    }
}

/// A new layout.
pub proof fn lemma_laid_out_passes(
    m: Mirror,
    window: u64,
    layout: LayoutView,
    f: spec_fn(u64, u64) -> u32,
)
    requires
        settled(m),
        m.ids.pane + leaves(layout.root).len() <= u64::MAX,
        m.ids.window < u64::MAX,
    ensures
        passes(m, laid_out(m, window, layout, f), leaves(layout.root).len(), 1),
{
    if !divided(layout.root) {
        lemma_passes_nothing(m, m);
    } else {
        let ls = leaves(layout.root);
        let target = target_of(m.att, window);
        let (s, moved) = rehomed(m.att.panes, target, m.session, ls, ls.len() as int);
        let b0 = Build { ids: m.ids, map: m.att.panes, panes: Seq::empty() };
        let (b, chosen) = picked(b0, s, target, moved, ls, ls.len() as int);
        let root = tree_of(layout.root, chosen, 0, f);
        let added = b.panes + moved;
        let n = laid_out(m, window, layout, f);
        assert forall|x: PaneId| #[trigger] gathered(m, s, added, b, x) by {
            lemma_gathered(m, target, ls, s, moved, b, x);
        }
        lemma_gathered(m, target, ls, s, moved, b, PaneId(0));
        match place_of(s, target) {
            Some(i) => {
                lemma_window_index(s.windows, target->0, 0);
                if absent(m.att.windows, s.windows[i].id.0) {
                    lemma_absent_lookup(m.att.windows, s.windows[i].id.0, window);
                }
                lemma_relaid(m, s, added, b, i, root, n, ls.len());
            },
            None => {
                lemma_placed(m, s, added, b, window, root, ls.len());
            },
        }
    }
}

/// A window with a new tree of gathered panes.
proof fn lemma_relaid(
    m: Mirror,
    s: SessionView,
    added: Seq<PaneView>,
    b: Build,
    i: int,
    root: Node,
    n: Mirror,
    k: nat,
)
    requires
        settled(m),
        tidy(s),
        windows_below(s, m.ids.window),
        distinct(added),
        m.ids.pane <= b.ids.pane <= m.ids.pane + k,
        b.ids.window == m.ids.window,
        forall|x: PaneId| #[trigger] gathered(m, s, added, b, x),
        0 <= i < s.windows.len(),
        !absent(m.att.windows, s.windows[i].id.0),
        n.session.windows == s.windows.update(i, with_tree(s.windows[i], root, added)),
        n.ids == b.ids,
        n.att.windows == m.att.windows,
        exists|gone: Seq<PaneView>| n.att.panes == forgotten(b.map, gone, gone.len() as int),
    ensures
        passes(m, n, k, 1),
{
    let w = s.windows[i];
    let v = with_tree(w, root, added);
    let all = inserted_all(w.panes, added);
    let gone = choose|gone: Seq<PaneView>|
        n.att.panes == forgotten(b.map, gone, gone.len() as int);
    lemma_inserted_all(w.panes, added);
    lemma_kept(all, root);
    assert(v.panes == kept(all, root));
    assert forall|y: PaneId| #[trigger] holds(added, y) implies !holds(w.panes, y) by {
        assert(gathered(m, s, added, b, y));
        if holds(w.panes, y) {
            lemma_held(s, y, i);
        }
    }
    assert forall|y: PaneId, j: int|
        0 <= j < s.windows.len() && j != i && #[trigger] holds(v.panes, y) implies !(
    #[trigger] holds(s.windows[j].panes, y)) by {
        assert(gathered(m, s, added, b, y));
        if holds(s.windows[j].panes, y) {
            lemma_held(s, y, j);
            if holds(w.panes, y) {
                lemma_held(s, y, i);
            }
        }
    }
    lemma_below(m.session, m.ids.pane);
    assert forall|x: PaneId|
        #![trigger pane_of(n.session, x)]
        comes_from(m, n, x) && (pane_of(n.session, x) is Some ==> x.0 < n.ids.pane) by {
        assert(gathered(m, s, added, b, x));
        lemma_window_changed(s, n.session, i, v, x);
        lemma_among_inserted(w.panes, added, x);
        lemma_among_kept(all, root, x);
        if holds(w.panes, x) {
            lemma_held(s, x, i);
        }
        if pane_of(m.session, x) is Some {
            lemma_follows_itself(pane_of(m.session, x)->0);
        }
    }
    lemma_below(n.session, n.ids.pane);
    lemma_window_changed(s, n.session, i, v, PaneId(0));
    assert forall|x: PaneId, u: WindowId| spared(m, x, u) implies #[trigger] spared(n, x, u)
        && pane_of(n.session, x) == pane_of(m.session, x) by {
        assert(gathered(m, s, added, b, x));
        lemma_spared_found(m.session, x, m.ids.window);
        lemma_window_changed(s, n.session, i, v, x);
        if holds(w.panes, x) {
            lemma_held(s, x, i);
        }
        lemma_absent_forgotten(b.map, x.0, gone, gone.len() as int);
    }
}

/// The end of a window.
pub proof fn lemma_closed_passes(m: Mirror, window: u64)
    requires
        settled(m),
    ensures
        passes(m, window_closed(m, window), 0, 0),
{
    let n = window_closed(m, window);
    if let Some(id) = lookup(m.att.windows, window) {
        lemma_key_index(m.att.windows, window, 0);
        lemma_below(m.session, m.ids.pane);
        lemma_window_index(m.session.windows, WindowId(id), 0);
        let at = window_index(m.session.windows, WindowId(id), 0);
        assert forall|x: PaneId|
            #![trigger pane_of(n.session, x)]
            comes_from(m, n, x) && (pane_of(n.session, x) is Some ==> x.0 < n.ids.pane) by {
            if let Some(i) = at {
                lemma_window_dropped(m.session, n.session, i, x);
            }
            if pane_of(m.session, x) is Some {
                lemma_follows_itself(pane_of(m.session, x)->0);
            }
        }
        lemma_below(n.session, n.ids.pane);
        if let Some(i) = at {
            lemma_window_dropped(m.session, n.session, i, PaneId(0));
        }
        assert forall|x: PaneId, u: WindowId| spared(m, x, u) implies #[trigger] spared(n, x, u)
            && pane_of(n.session, x) == pane_of(m.session, x) by {
            lemma_absent_removed(m.att.windows, u.0, window);
            if let Some(i) = at {
                let panes = m.session.windows[i].panes;
                lemma_absent_forgotten(m.att.panes, x.0, panes, panes.len() as int);
                lemma_window_dropped(m.session, n.session, i, x);
                if holds(panes, x) {
                    lemma_held(m.session, x, i);
                    lemma_absent_lookup(m.att.windows, u.0, window);
                }
            }
        }
    } else {
        lemma_passes_nothing(m, m);
    }
}

proof fn lemma_window_built_passes(
    m: Mirror,
    all: Seq<Listed>,
    window: u64,
    g: spec_fn(u64, u64) -> u32,
)
    requires
        settled(m),
        m.ids.pane + all.len() <= u64::MAX,
        m.ids.window < u64::MAX,
    ensures
        passes(m, window_built(m, all, window, g), all.len(), 1),
{
    let b0 = Build { ids: m.ids, map: m.att.panes, panes: Seq::empty() };
    let b = built(b0, all, window, all.len() as int);
    lemma_built(b0, all, window, all.len() as int);
    lemma_below(m.session, m.ids.pane);
    if b.panes.len() == 0 {
        lemma_passes_nothing(m, m);
    } else {
        assert forall|x: PaneId| #[trigger] gathered(m, m.session, b.panes, b, x) by {
            lemma_among(b.panes, x);
        }
        lemma_placed(
            m,
            m.session,
            b.panes,
            b,
            window,
            crate::remote::attachment::even_tree(crate::mux::persist::ids_of(b.panes), 0, g),
            all.len(),
        );
    }
}

proof fn lemma_enumerated_passes(
    m: Mirror,
    all: Seq<Listed>,
    n: int,
    g: spec_fn(u64, u64) -> u32,
)
    requires
        settled(m),
        0 <= n <= all.len(),
        m.ids.pane + n * all.len() <= u64::MAX,
        m.ids.window + n <= u64::MAX,
    ensures
        passes(m, enumerated(m, all, n, g), (n * all.len()) as nat, n as nat),
    decreases n,
{
    if n > 0 {
        assert(n * all.len() == (n - 1) * all.len() + all.len()) by (nonlinear_arith);
        assert((n - 1) * all.len() >= 0) by (nonlinear_arith)
            requires
                n > 0,
        ;
        lemma_enumerated_passes(m, all, n - 1, g);
        let p = enumerated(m, all, n - 1, g);
        let window = all[n - 1].0;
        let k = ((n - 1) * all.len()) as nat;
        if lookup(p.att.windows, window) is Some {
            lemma_passes_wider(m, p, k, (n - 1) as nat, (n * all.len()) as nat, n as nat);
        } else {
            lemma_window_built_passes(p, all, window, g);
            lemma_passes_on(
                m,
                p,
                window_built(p, all, window, g),
                k,
                (n - 1) as nat,
                all.len(),
                1,
            );
        }
    } else {
        lemma_passes_nothing(m, m);
    }
}

// ---------------------------------------------------------------------------
// A whole pump.
// ---------------------------------------------------------------------------

/// How many panes an event can make at most: one for each leaf of a layout; of a listing, one for
/// each line, at each window that it names.
pub open spec fn panes_asked(e: TransportEventView) -> nat {
    match e {
        TransportEventView::Ctrl(EventView::Notification(NotificationView::LayoutChange {
            window,
            layout,
        })) => leaves(layout.root).len(),
        TransportEventView::Ctrl(EventView::Reply { num, body, error }) => body.len() * body.len(),
        _ => 0,
    }
}

/// How many windows an event can make at most.
pub open spec fn windows_asked(e: TransportEventView) -> nat {
    match e {
        TransportEventView::Ctrl(EventView::Notification(NotificationView::LayoutChange {
            window,
            layout,
        })) => 1,
        TransportEventView::Ctrl(EventView::Reply { num, body, error }) => body.len(),
        _ => 0,
    }
}

/// How many panes the first `n` events can make at most.
pub open spec fn all_panes_asked(es: Seq<TransportEventView>, n: int) -> nat
    decreases n,
{
    if n <= 0 {
        0
    } else {
        all_panes_asked(es, n - 1) + panes_asked(es[n - 1])
    }
}

/// How many windows the first `n` events can make at most.
pub open spec fn all_windows_asked(es: Seq<TransportEventView>, n: int) -> nat
    decreases n,
{
    if n <= 0 {
        0
    } else {
        all_windows_asked(es, n - 1) + windows_asked(es[n - 1])
    }
}

proof fn lemma_listing(body: Seq<Seq<u8>>, n: int)
    requires
        0 <= n,
    ensures
        listing(body, n).len() <= n,
    decreases n,
{
    if n > 0 {
        lemma_listing(body, n - 1);
    }
}

proof fn lemma_applied_passes(
    m: Mirror,
    e: TransportEventView,
    f: spec_fn(u64, u64) -> u32,
    g: spec_fn(u64, u64) -> u32,
)
    requires
        settled(m),
        m.ids.pane + panes_asked(e) <= u64::MAX,
        m.ids.window + windows_asked(e) <= u64::MAX,
    ensures
        passes(m, applied(m, e, f, g), panes_asked(e), windows_asked(e)),
{
    let n = applied(m, e, f, g);
    match e {
        TransportEventView::Ctrl(EventView::Notification(k)) => match k {
            NotificationView::Output { pane, data } => {
                lemma_passes_nothing(m, m);
                if let Some(id) = lookup(m.att.panes, pane) {
                    if let Some(p) = pane_of(m.session, PaneId(id)) {
                        lemma_output_follows(p, data);
                        lemma_follows_itself(p);
                        if absent(m.att.panes, id) {
                            lemma_absent_lookup(m.att.panes, id, pane);
                        }
                        lemma_passes_pane(m, n, PaneId(id), output_pushed(p, data));
                    }
                }
            },
            NotificationView::LayoutChange { window, layout } => {
                lemma_laid_out_passes(m, window, layout, f);
            },
            NotificationView::WindowClose { window } => {
                lemma_closed_passes(m, window);
            },
            _ => {
                lemma_passes_nothing(m, n);
            },
        },
        TransportEventView::Ctrl(EventView::Reply { num, body, error }) => {
            let l = body.len();
            let seq = m.att.replies_seen;
            let start = Mirror {
                att: AttachmentView { replies_seen: after(seq), enumeration: None, ..m.att },
                ..m
            };
            if m.att.version_cmd != Some(seq) && m.att.enumeration == Some(seq) && !error {
                let all = listing(body, l as int);
                lemma_listing(body, l as int);
                let k = all.len();
                assert(k * k <= l * l) by (nonlinear_arith)
                    requires
                        k <= l,
                ;
                lemma_passes_nothing(m, start);
                lemma_enumerated_passes(start, all, k as int, g);
                lemma_passes_on(m, start, n, 0, 0, k * k, k);
                lemma_passes_wider(m, n, k * k, k, l * l, l);
            } else {
                lemma_passes_nothing(m, n);
                lemma_passes_wider(m, n, 0, 0, l * l, l);
            }
        },
        _ => {
            lemma_passes_nothing(m, n);
        },
    }
}

proof fn lemma_applied_all_passes(
    m: Mirror,
    es: Seq<TransportEventView>,
    n: int,
    f: spec_fn(u64, u64) -> u32,
    g: spec_fn(u64, u64) -> u32,
)
    requires
        settled(m),
        0 <= n <= es.len(),
        m.ids.pane + all_panes_asked(es, n) <= u64::MAX,
        m.ids.window + all_windows_asked(es, n) <= u64::MAX,
    ensures
        passes(m, applied_all(m, es, n, f, g), all_panes_asked(es, n), all_windows_asked(es, n)),
    decreases n,
{
    if n > 0 {
        lemma_applied_all_passes(m, es, n - 1, f, g);
        let p = applied_all(m, es, n - 1, f, g);
        lemma_applied_passes(p, es[n - 1], f, g);
        lemma_passes_on(
            m,
            p,
            applied(p, es[n - 1], f, g),
            all_panes_asked(es, n - 1),
            all_windows_asked(es, n - 1),
            panes_asked(es[n - 1]),
            windows_asked(es[n - 1]),
        );
    } else {
        lemma_passes_nothing(m, m);
    }
}

proof fn lemma_all_marked_passes(m: Mirror, n: int)
    requires
        settled(m),
        0 <= n <= m.att.panes.len(),
    ensures
        passes(m, Mirror { session: all_marked(m.session, m.att.panes, n), ..m }, 0, 0),
    decreases n,
{
    if n > 0 {
        lemma_all_marked_passes(m, n - 1);
        let t = all_marked(m.session, m.att.panes, n - 1);
        let p = Mirror { session: t, ..m };
        let id = PaneId(m.att.panes[n - 1].1);
        if let Some(q) = pane_of(t, id) {
            lemma_ended_follows(q);
            let r = Mirror { session: with_pane(t, id, marked_exited(q)), ..m };
            lemma_passes_pane(p, r, id, marked_exited(q));
            lemma_passes_on(m, p, r, 0, 0, 0, 0);
        }
    } else {
        lemma_passes_nothing(m, m);
    }
}

/// How many panes a pump can make at most.
pub open spec fn panes_wanted(a: AttachmentView) -> nat {
    all_panes_asked(drained(a), drained(a).len() as int)
}

/// How many windows a pump can make at most.
pub open spec fn windows_wanted(a: AttachmentView) -> nat {
    all_windows_asked(drained(a), drained(a).len() as int)
}

/// What a pump does to the panes of a session.
pub proof fn lemma_pumped_passes(
    m: Mirror,
    f: spec_fn(u64, u64) -> u32,
    g: spec_fn(u64, u64) -> u32,
)
    requires
        settled(m),
        m.ids.pane + panes_wanted(m.att) <= u64::MAX,
        m.ids.window + windows_wanted(m.att) <= u64::MAX,
    ensures
        passes(m, pumped(m, f, g).0, panes_wanted(m.att), windows_wanted(m.att)),
{
    if m.att.finished {
        lemma_passes_nothing(m, m);
    } else {
        let es = m.att.transport.queue;
        let start = pumping(m);
        let (a, b) = (panes_wanted(m.att), windows_wanted(m.att));
        lemma_forwarded(m.att.transport, m.att.input, m.att.input.len() as int);
        lemma_passes_nothing(m, start);
        lemma_applied_all_passes(start, es, es.len() as int, f, g);
        let n = applied_all(start, es, es.len() as int, f, g);
        lemma_passes_on(m, start, n, 0, 0, a, b);
        if n.att.finished {
            let t = Mirror {
                session: all_marked(n.session, n.att.panes, n.att.panes.len() as int),
                ..n
            };
            lemma_all_marked_passes(n, n.att.panes.len() as int);
            lemma_passes_on(m, n, t, a, b, 0, 0);
            let o = pumped(m, f, g).0;
            assert forall|x: PaneId| #![trigger pane_of(o.session, x)] comes_from(m, o, x) by {
                assert(comes_from(m, t, x)) by {
                    assert(pane_of(t.session, x) == pane_of(o.session, x));
                }
            }
            assert forall|x: PaneId, u: WindowId| spared(m, x, u) implies #[trigger] spared(o, x, u)
                && pane_of(o.session, x) == pane_of(m.session, x) by {
                assert(spared(t, x, u));
            }
        }
    }
}

/// Pumping keeps what waits: whatever a peer sends, a pane that is in the session before and after
/// a pump is the same pane, and the events that waited in it still do, in order, before any that
/// came. If it told at most once that its program ended, it still does.
pub proof fn pumping_keeps_what_waits(
    m: Mirror,
    id: PaneId,
    f: spec_fn(u64, u64) -> u32,
    g: spec_fn(u64, u64) -> u32,
)
    requires
        tidy(m.session),
        ids_below(m.session, m.ids.pane),
        windows_below(m.session, m.ids.window),
        m.ids.pane + panes_wanted(m.att) <= u64::MAX,
        m.ids.window + windows_wanted(m.att) <= u64::MAX,
    ensures
        (pane_of(m.session, id), pane_of(pumped(m, f, g).0.session, id)) matches (Some(p), Some(q))
            ==> q.id == p.id && q.backend == p.backend && p.events.len() <= q.events.len()
            && q.events.take(p.events.len() as int) == p.events && (told_once(p) ==> told_once(q)),
{
    lemma_pumped_passes(m, f, g);
    assert(comes_from(m, pumped(m, f, g).0, id)) by {
        assert(pane_of(pumped(m, f, g).0.session, id) == pane_of(pumped(m, f, g).0.session, id));
    }
}

/// Pumping leaves what it does not mirror: a pane stays in its window, as it is, where the
/// attachment maps nothing to the pane and nothing to the window; and it still maps nothing to
/// them.
pub proof fn pumping_leaves_other_panes(
    m: Mirror,
    id: PaneId,
    window: WindowId,
    f: spec_fn(u64, u64) -> u32,
    g: spec_fn(u64, u64) -> u32,
)
    requires
        tidy(m.session),
        ids_below(m.session, m.ids.pane),
        windows_below(m.session, m.ids.window),
        m.ids.pane + panes_wanted(m.att) <= u64::MAX,
        m.ids.window + windows_wanted(m.att) <= u64::MAX,
        home_window(m.session, id) == Some(window),
        clear_of(m.att, id, window),
    ensures
        home_window(pumped(m, f, g).0.session, id) == Some(window),
        pane_of(pumped(m, f, g).0.session, id) == pane_of(m.session, id),
        pane_of(m.session, id) is Some,
        clear_of(pumped(m, f, g).0.att, id, window),
{
    lemma_pumped_passes(m, f, g);
    lemma_spared_found(m.session, id, m.ids.window);
    assert(spared(m, id, window));
    assert(spared(pumped(m, f, g).0, id, window));
}

/// Pumping keeps panes apart: no pane is held twice afterwards, and new panes and windows still get
/// ids that none has.
pub proof fn pumping_keeps_panes_apart(
    m: Mirror,
    f: spec_fn(u64, u64) -> u32,
    g: spec_fn(u64, u64) -> u32,
)
    requires
        tidy(m.session),
        ids_below(m.session, m.ids.pane),
        windows_below(m.session, m.ids.window),
        m.ids.pane + panes_wanted(m.att) <= u64::MAX,
        m.ids.window + windows_wanted(m.att) <= u64::MAX,
    ensures
        tidy(pumped(m, f, g).0.session),
        ids_below(pumped(m, f, g).0.session, pumped(m, f, g).0.ids.pane),
        windows_below(pumped(m, f, g).0.session, pumped(m, f, g).0.ids.window),
        m.ids.pane <= pumped(m, f, g).0.ids.pane <= m.ids.pane + panes_wanted(m.att),
        m.ids.window <= pumped(m, f, g).0.ids.window <= m.ids.window + windows_wanted(m.att),
{
    lemma_pumped_passes(m, f, g);
}

} // verus!
