//! What imports, drained panes and finished programs are accounted for.
use vstd::prelude::*;

#[allow(unused_imports)]
use crate::mux::ids::PaneId;
#[allow(unused_imports)]
use crate::mux::pane::PaneView;
#[allow(unused_imports)]
use crate::mux::session::{pane_of, SessionView};
#[allow(unused_imports)]
use crate::mux::window::{active_of, WindowView};
#[allow(unused_imports)]
use crate::pairs::Pairs;
#[allow(unused_imports)]
use crate::proto::ResultView;
#[allow(unused_imports)]
use crate::server::drain::{present, quieted, with_dead, with_dead_panes};
#[allow(unused_imports)]
use crate::server::import::{outcome, placed_by_path, projects_of, EntryView, ImportView};
#[allow(unused_imports)]
use crate::server::model::{layout_answer, probe_from, ServerView};
#[allow(unused_imports)]
use crate::server::render::{layout_of, Progress};
#[allow(unused_imports)]
use crate::server::seen::layouts_show_the_active_window;
#[allow(unused_imports)]
use crate::server::state::open_dirs;
#[allow(unused_imports)]
use crate::text::{lowercase, text_before};

verus! {

// ---------------------------------------------------------------------------
// Imports.
// ---------------------------------------------------------------------------

/// An import answers its request with how many workspaces it opened, how many were open and how many
/// it left out.
pub proof fn imports_answer_with_their_counts(m: ImportView)
    ensures
        outcome(m).id == m.id,
        outcome(m).error is None,
        outcome(m).result matches Some(ResultView::Imported { created, already_open, capped })
            && created == m.created && already_open == m.already_open && capped == m.capped,
{
}

/// The directories that count as open are those of the windows that have one, whatever the case.
pub proof fn open_directories_are_those_of_the_windows(s: SessionView, n: int, x: Seq<char>)
    requires
        0 <= n <= s.windows.len(),
    ensures
        open_dirs(s, n).contains(x) == (exists|i: int|
            0 <= i < n && ((#[trigger] s.windows[i]).workspace_dir matches Some(d) && lowercase(d)
                == x)),
    decreases n,
{
    if n > 0 {
        let front = open_dirs(s, n - 1);
        open_directories_are_those_of_the_windows(s, n - 1, x);
        let w = s.windows[n - 1];
        if let Some(d) = w.workspace_dir {
            let all = front.push(lowercase(d));
            assert(all[front.len() as int] == lowercase(d));
            if front.contains(x) {
                let k = choose|k: int| 0 <= k < front.len() && front[k] == x;
                assert(all[k] == x);
            }
            if all.contains(x) && lowercase(d) != x {
                let k = choose|k: int| 0 <= k < all.len() && all[k] == x;
                assert(front[k] == x);
            }
        }
    }
}

/// One text comes before another where it is a part of the other's start, or where the first
/// character in which they differ is the lesser.
pub proof fn texts_are_ordered_as_in_a_dictionary(a: Seq<char>, b: Seq<char>, k: int)
    requires
        0 <= k <= a.len(),
        k <= b.len(),
        a.take(k) == b.take(k),
    ensures
        k == a.len() && k < b.len() ==> text_before(a, b, 0),
        k == b.len() ==> !text_before(a, b, 0),
        k < a.len() && k < b.len() && a[k] < b[k] ==> text_before(a, b, 0),
        k < a.len() && k < b.len() && a[k] > b[k] ==> !text_before(a, b, 0),
{
    assert forall|i: int| 0 <= i < k implies a[i] == b[i] by {
        assert(a[i] == a.take(k)[i]);
        assert(b[i] == b.take(k)[i]);
    }
    lemma_before_from(a, b, 0, k);
}

proof fn lemma_before_from(a: Seq<char>, b: Seq<char>, i: int, k: int)
    requires
        0 <= i <= k <= a.len(),
        k <= b.len(),
        forall|j: int| 0 <= j < k ==> a[j] == b[j],
    ensures
        text_before(a, b, i) == text_before(a, b, k),
    decreases k - i,
{
    if i < k {
        lemma_before_from(a, b, i + 1, k);
    }
}

proof fn lemma_before_one_way(a: Seq<char>, b: Seq<char>, i: int)
    requires
        text_before(a, b, i),
    ensures
        !text_before(b, a, i),
    decreases a.len() - i,
{
    if 0 <= i < a.len() && i < b.len() && a[i] == b[i] {
        lemma_before_one_way(a, b, i + 1);
    }
}

/// Whether no text of a list comes before the one in front of it.
pub open spec fn ascending(s: Seq<Seq<char>>) -> bool {
    forall|i: int| 0 < i < s.len() ==> !text_before(#[trigger] s[i], s[i - 1], 0)
}

proof fn lemma_placed_ascending(sorted: Seq<Seq<char>>, p: Seq<char>)
    requires
        ascending(sorted),
    ensures
        ascending(placed_by_path(sorted, p)),
        placed_by_path(sorted, p).len() == sorted.len() + 1,
        placed_by_path(sorted, p).last() == p || (sorted.len() > 0 && placed_by_path(
            sorted,
            p,
        ).last() == sorted.last()),
    decreases sorted.len(),
{
    if sorted.len() > 0 && text_before(p, sorted.last(), 0) {
        let front = sorted.drop_last();
        let last = sorted.last();
        assert(ascending(front)) by {
            assert forall|i: int| 0 < i < front.len() implies !text_before(
                #[trigger] front[i],
                front[i - 1],
                0,
            ) by {
                assert(sorted[i] == front[i]);
            }
        }
        lemma_placed_ascending(front, p);
        lemma_before_one_way(p, last, 0);
        let q = placed_by_path(front, p);
        let r = q.push(last);
        assert forall|i: int| 0 < i < r.len() implies !text_before(#[trigger] r[i], r[i - 1], 0) by {
            if i < q.len() {
                assert(r[i] == q[i]);
            } else {
                assert(r[i - 1] == q.last());
                if q.last() != p {
                    assert(sorted[front.len() as int] == last);
                    assert(front.last() == sorted[front.len() - 1]);
                }
            }
        }
    } else {
        let r = sorted.push(p);
        assert forall|i: int| 0 < i < r.len() implies !text_before(#[trigger] r[i], r[i - 1], 0) by {
            if i < sorted.len() {
                assert(r[i] == sorted[i]);
            } else {
                assert(r[i - 1] == sorted.last());
            }
        }
    }
}

/// An import takes the folders in the order of their paths.
pub proof fn projects_come_in_order(entries: Seq<EntryView>, all: bool)
    ensures
        ascending(projects_of(entries, all)),
    decreases entries.len(),
{
    if entries.len() > 0 {
        projects_come_in_order(entries.drop_last(), all);
        lemma_placed_ascending(projects_of(entries.drop_last(), all), entries.last().path);
    }
}

// ---------------------------------------------------------------------------
// Draining.
// ---------------------------------------------------------------------------

/// A drained session has no event left to tell, and is otherwise what it was.
pub proof fn drained_sessions_are_quiet(s: SessionView, i: int, k: int)
    requires
        0 <= i < s.windows.len(),
        0 <= k < s.windows[i].panes.len(),
    ensures
        ({
            let q = quieted(s, s.windows.len() as int);
            let p = q.windows[i].panes[k];
            &&& p.events.len() == 0
            &&& p == (PaneView { events: p.events, ..s.windows[i].panes[k] })
            &&& q.windows[i] == (WindowView { panes: q.windows[i].panes, ..s.windows[i] })
            &&& q.windows[i].panes.len() == s.windows[i].panes.len()
            &&& q == (SessionView { windows: q.windows, ..s })
            &&& q.windows.len() == s.windows.len()
        }),
{
}

/// Whether one of the first `n` windows holds a pane with an id whose program is gone.
pub open spec fn died(windows: Seq<WindowView>, n: int, id: PaneId) -> bool {
    exists|i: int, k: int|
        0 <= i < n && 0 <= k < windows[i].panes.len() && (#[trigger] windows[i].panes[k]).id == id
            && !windows[i].panes[k].alive
}

proof fn lemma_dead_panes(exited: Seq<PaneId>, panes: Seq<PaneView>, n: int, id: PaneId)
    requires
        0 <= n <= panes.len(),
    ensures
        exited.len() <= with_dead_panes(exited, panes, n).len(),
        with_dead_panes(exited, panes, n).take(exited.len() as int) == exited,
        with_dead_panes(exited, panes, n).contains(id) == (exited.contains(id) || exists|k: int|
            0 <= k < n && (#[trigger] panes[k]).id == id && !panes[k].alive),
        exited.no_duplicates() ==> with_dead_panes(exited, panes, n).no_duplicates(),
    decreases n,
{
    let e = with_dead_panes(exited, panes, n - 1);
    if n > 0 {
        lemma_dead_panes(exited, panes, n - 1, id);
        let p = panes[n - 1];
        if !p.alive && !e.contains(p.id) {
            let r = e.push(p.id);
            assert(r.take(exited.len() as int) =~= e.take(exited.len() as int));
            assert(r[e.len() as int] == p.id);
            if e.contains(id) {
                let j = choose|j: int| 0 <= j < e.len() && e[j] == id;
                assert(r[j] == id);
            }
            if r.contains(id) && id != p.id {
                let j = choose|j: int| 0 <= j < r.len() && r[j] == id;
                assert(e[j] == id);
            }
        } else if !p.alive && p.id == id {
            assert(e.contains(id));
        }
    } else {
        assert(exited.take(exited.len() as int) =~= exited);
    }
}

/// A sweep adds every pane whose program is gone, each once, behind those that had reported it, and
/// no other.
pub proof fn sweeps_find_the_dead(
    exited: Seq<PaneId>,
    windows: Seq<WindowView>,
    n: int,
    id: PaneId,
)
    requires
        0 <= n <= windows.len(),
    ensures
        exited.len() <= with_dead(exited, windows, n).len(),
        with_dead(exited, windows, n).take(exited.len() as int) == exited,
        with_dead(exited, windows, n).contains(id) == (exited.contains(id) || died(windows, n, id)),
        exited.no_duplicates() ==> with_dead(exited, windows, n).no_duplicates(),
    decreases n,
{
    if n > 0 {
        sweeps_find_the_dead(exited, windows, n - 1, id);
        let e = with_dead(exited, windows, n - 1);
        let panes = windows[n - 1].panes;
        lemma_dead_panes(e, panes, panes.len() as int, id);
        let r = with_dead(exited, windows, n);
        assert(r.take(exited.len() as int) =~= r.take(e.len() as int).take(exited.len() as int));
        if exists|k: int| 0 <= k < panes.len() && (#[trigger] panes[k]).id == id && !panes[k].alive {
            let k = choose|k: int|
                0 <= k < panes.len() && (#[trigger] panes[k]).id == id && !panes[k].alive;
            assert(windows[n - 1].panes[k].id == id);
            assert(died(windows, n, id));
        }
        if died(windows, n - 1, id) {
            let (i, k) = choose|i: int, k: int|
                0 <= i < n - 1 && 0 <= k < windows[i].panes.len() && (
                #[trigger] windows[i].panes[k]).id == id && !windows[i].panes[k].alive;
            assert(windows[i].panes[k].id == id);
            assert(died(windows, n, id));
        }
        if died(windows, n, id) && !died(windows, n - 1, id) {
            let (i, k) = choose|i: int, k: int|
                0 <= i < n && 0 <= k < windows[i].panes.len() && (#[trigger] windows[i].panes[k]).id
                    == id && !windows[i].panes[k].alive;
            assert(i == n - 1);
            assert(panes[k].id == id);
        }
    } else {
        assert(exited.take(exited.len() as int) =~= exited);
    }
}

/// Of the progress that is known, that of the panes that are there stays, in its order, and no
/// other.
pub proof fn progress_of_gone_panes_is_dropped(
    progress: Pairs<Progress>,
    s: SessionView,
    n: int,
    e: (u64, Progress),
)
    requires
        0 <= n <= progress.len(),
    ensures
        present(progress, s, n).contains(e) == (pane_of(s, PaneId(e.0)) is Some && exists|i: int|
            0 <= i < n && #[trigger] progress[i] == e),
        present(progress, s, n).len() <= n,
    decreases n,
{
    if n > 0 {
        progress_of_gone_panes_is_dropped(progress, s, n - 1, e);
        let front = present(progress, s, n - 1);
        let x = progress[n - 1];
        if pane_of(s, PaneId(x.0)) is Some {
            let r = front.push(x);
            assert(r[front.len() as int] == x);
            if front.contains(e) {
                let k = choose|k: int| 0 <= k < front.len() && front[k] == e;
                assert(r[k] == e);
            }
            if r.contains(e) && e != x {
                let k = choose|k: int| 0 <= k < r.len() && r[k] == e;
                assert(front[k] == e);
            }
        }
    }
}

// ---------------------------------------------------------------------------
// Layouts.
// ---------------------------------------------------------------------------

/// A request for the layout is answered with that of the session in the size that was asked for.
pub proof fn layouts_have_the_size_asked_for(
    v: ServerView,
    id: u64,
    w: u32,
    h: u32,
    branches: Seq<Option<Seq<char>>>,
    f: spec_fn(u32, u32) -> u32,
)
    requires
        v.session.complete(),
        v.session.active < v.session.windows.len(),
    ensures
        layout_answer(v, id, w, h, branches, f).id == id,
        layout_answer(v, id, w, h, branches, f).error is None,
        layout_answer(v, id, w, h, branches, f).result == Some(
            ResultView::Layout(layout_of(v.session, w, h, branches, v.progress, f)),
        ),
        v.session.windows[v.session.active as int].zoom ==> {
            let panes = layout_of(v.session, w, h, branches, v.progress, f).panes;
            panes.len() == 1 && panes[0].w == w && panes[0].h == h
        },
{
    layouts_show_the_active_window(v.session, w, h, branches, v.progress, f, 0);
}

// ---------------------------------------------------------------------------
// Lookups.
// ---------------------------------------------------------------------------

/// A lookup takes the window at the cursor where its active pane has a directory, and otherwise goes
/// on one by one, around the end, through all windows but no further.
pub proof fn lookups_go_around(s: SessionView, cursor: nat, step: nat, i: int)
    requires
        step < s.windows.len(),
        i == (cursor + step) % s.windows.len(),
    ensures
        active_of(s.windows[i]).cwd is Some ==> probe_from(s, cursor, step) == Some(i),
        active_of(s.windows[i]).cwd is None && step + 1 < s.windows.len() ==> probe_from(
            s,
            cursor,
            step,
        ) == probe_from(s, cursor, step + 1),
        active_of(s.windows[i]).cwd is None && step + 1 == s.windows.len() ==> probe_from(
            s,
            cursor,
            step,
        ) is None,
{
    reveal_with_fuel(probe_from, 2);
}

} // verus!
