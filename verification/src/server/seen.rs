//! What clients see of a session, and what ticks tell them.
use vstd::prelude::*;

#[allow(unused_imports)]
use crate::mux::attention::Attention;
#[allow(unused_imports)]
use crate::mux::ids::{PaneId, WindowId};
#[allow(unused_imports)]
use crate::mux::layout::{leaves_of, rects_of, Rect};
#[allow(unused_imports)]
use crate::mux::pane::{PaneEventView, PaneView};
#[allow(unused_imports)]
use crate::mux::persist::without_blank_tail;
#[allow(unused_imports)]
use crate::mux::session::{lemma_window_index, SessionView};
#[allow(unused_imports)]
use crate::mux::window::{
    active_of, any_busy, any_pending, distinct, holds, lemma_pane_index, pane_index, unread_sum,
    window_info, window_name, window_rects, WindowView,
};
#[allow(unused_imports)]
use crate::mux::workspace::{github_status, path_name, PrBadgeView, PrStatus};
#[allow(unused_imports)]
use crate::pairs::{lookup, pairs_are_a_map, put, unique_keys, without_key, Pairs};
#[allow(unused_imports)]
use crate::proto::{
    CellWireView, GridWireView, LinkWireView, NotifyWireView, PaneInfoView, PaneRectWireView,
    PrWireView, TabWireView,
};
#[allow(unused_imports)]
use crate::server::config::{badge_of, refresh_ticks, screen_persists};
#[allow(unused_imports)]
use crate::server::drain::{
    drained_event, drained_events, drained_panes, drained_windows, nothing_drained, progressed,
    urgency_number, DrainedView,
};
#[allow(unused_imports)]
use crate::server::import::{is_project, placed_by_path, projects_of, EntryView};
#[allow(unused_imports)]
use crate::server::model::{at_window, badged, batch_of, ticked, ServerView};
#[allow(unused_imports)]
use crate::server::render::{
    all_panes, any_error, captured_text, first_links, flat, grid_of, info_of, layout_of, least_pct,
    listed_windows, pane_lists_are_sorted, rect_wires, row_text, tab_of, tabs_of, title_of,
    wire_badge, wire_cell, with_panes, Progress,
};
#[allow(unused_imports)]
use crate::server::wires::{
    clipboard_wire, exit_wire, output_wire, pushed_to, replay_of, terminated, undamaged,
};
#[allow(unused_imports)]
use crate::text::{dec, joined, trim_spaces};
#[allow(unused_imports)]
use crate::vt::emulator::{glyph_after, modes_after};
#[allow(unused_imports)]
use crate::vt::osc::{ProgressState, Urgency};
#[allow(unused_imports)]
use crate::vt::terminal::{
    clamped, cursor_cell, line_text, links_from, mouse_bits, row_at, scrollback, viewport, Cell,
};

verus! {

// ---------------------------------------------------------------------------
// Grids and text.
// ---------------------------------------------------------------------------

proof fn lemma_flat(rows: Seq<Seq<Cell>>, cols: int, r: int, c: int)
    requires
        0 <= cols,
        forall|i: int| 0 <= i < rows.len() ==> (#[trigger] rows[i]).len() == cols,
        0 <= r < rows.len(),
        0 <= c < cols,
    ensures
        flat(rows).len() == rows.len() * cols,
        0 <= r * cols + c < flat(rows).len(),
        flat(rows)[r * cols + c] == wire_cell(rows[r][c]),
    decreases rows.len(),
{
    let front = rows.drop_last();
    let n = rows.len() as int;
    assert(n * cols == (n - 1) * cols + cols) by (nonlinear_arith);
    assert(r <= n - 1 ==> r * cols <= (n - 1) * cols) by (nonlinear_arith)
        requires
            0 <= cols,
    ;
    assert(r < n - 1 ==> r * cols + cols <= (n - 1) * cols) by (nonlinear_arith)
        requires
            0 <= cols,
    ;
    assert(0 <= r * cols) by (nonlinear_arith)
        requires
            0 <= r,
            0 <= cols,
    ;
    lemma_flat_len(front, cols);
    assert(rows.last() == rows[n - 1]);
    if r < n - 1 {
        lemma_flat(front, cols, r, c);
        assert(front[r] == rows[r]);
    }
}

proof fn lemma_flat_len(rows: Seq<Seq<Cell>>, cols: int)
    requires
        0 <= cols,
        forall|i: int| 0 <= i < rows.len() ==> (#[trigger] rows[i]).len() == cols,
    ensures
        flat(rows).len() == rows.len() * cols,
    decreases rows.len(),
{
    if rows.len() > 0 {
        let n = rows.len() as int;
        assert(n * cols == (n - 1) * cols + cols) by (nonlinear_arith);
        lemma_flat_len(rows.drop_last(), cols);
        assert(rows.last() == rows[n - 1]);
    }
}

/// A grid is the pane's viewport, row by row from the left: each cell has its character, its colors
/// as red, green and blue, and its attributes as bits (1 bold, 2 italic, 4 underlined, 8 inverse, 16
/// wide). It tells the size, the cursor, the scrollback, the modes and the first 256 links.
pub proof fn grids_are_the_viewport(p: PaneView, offset: nat, r: int, c: int)
    requires
        0 <= r < p.terminal.rows,
        0 <= c < p.terminal.cols,
        p.terminal.history() <= u32::MAX,
    ensures
        ({
            let g = grid_of(p, offset);
            let t = p.terminal;
            let cell = viewport(t, offset)[r][c];
            let w = g.cells[r * t.cols + c];
            &&& g.cells.len() == t.rows * t.cols
            &&& w.ch == cell.ch
            &&& w.fg == seq![cell.fg.r, cell.fg.g, cell.fg.b]
            &&& w.bg == seq![cell.bg.r, cell.bg.g, cell.bg.b]
            &&& w.flags < 32
            &&& (w.flags % 2 == 1) == cell.bold
            &&& (w.flags / 2 % 2 == 1) == cell.italic
            &&& (w.flags / 4 % 2 == 1) == cell.underline
            &&& (w.flags / 8 % 2 == 1) == cell.inverse
            &&& (w.flags / 16 % 2 == 1) == cell.wide
            &&& g.cols == t.cols
            &&& g.rows == t.rows
            &&& (g.cursor_col, g.cursor_row) == cursor_cell(t)
            &&& g.history == t.history()
            &&& offset <= t.history() ==> g.offset == offset
            &&& offset > t.history() ==> g.offset == t.history()
            &&& g.bracketed_paste == modes_after(t.ops).bracketed_paste
            &&& g.mouse_mode == mouse_bits(t)
            &&& g.cursor_style == t.cursor_style
        }),
{
    crate::vt::terminal::viewport_has_terminal_size(p.terminal, offset);
    lemma_flat(viewport(p.terminal, offset), p.terminal.cols as int, r, c);
}

/// The links of a grid are those of its viewport, the first 256 of them.
pub proof fn grids_carry_their_links(p: PaneView, offset: nat, i: int)
    requires
        offset <= p.terminal.history(),
    ensures
        ({
            let g = grid_of(p, offset);
            let ls = links_from(p.terminal, offset, 0);
            &&& ls.len() <= 256 ==> g.links.len() == ls.len()
            &&& ls.len() > 256 ==> g.links.len() == 256
            &&& 0 <= i < g.links.len() ==> g.links[i] == (LinkWireView {
                row: ls[i].row,
                start: ls[i].start,
                end: ls[i].end,
                uri: ls[i].uri,
            })
        }),
{
}

/// Joining puts the separator between two texts, and nowhere else.
pub proof fn joining_separates(lines: Seq<Seq<char>>, last: Seq<char>, sep: Seq<char>)
    ensures
        joined(Seq::empty(), sep).len() == 0,
        joined(seq![last], sep) == last,
        lines.len() > 0 ==> joined(lines.push(last), sep) == joined(lines, sep) + sep + last,
{
    assert(lines.push(last).drop_last() =~= lines);
}

proof fn lemma_tail(lines: Seq<Seq<char>>)
    ensures
        ({
            let s = without_blank_tail(lines);
            &&& s.len() <= lines.len()
            &&& s == lines.take(s.len() as int)
            &&& forall|i: int| s.len() <= i < lines.len() ==> (#[trigger] lines[i]).len() == 0
            &&& s.len() > 0 ==> s.last().len() > 0
        }),
    decreases lines.len(),
{
    let s = without_blank_tail(lines);
    if lines.len() > 0 && lines.last().len() == 0 {
        let front = lines.drop_last();
        lemma_tail(front);
        assert(front.take(s.len() as int) =~= lines.take(s.len() as int));
        assert forall|i: int| s.len() <= i < lines.len() implies (#[trigger] lines[i]).len() == 0 by {
            if i < front.len() {
                assert(front[i] == lines[i]);
            }
        }
    } else {
        assert(lines.take(lines.len() as int) =~= lines);
    }
}

/// The lines that a capture is made of: those of the screen, or as many of the newest as are asked
/// for.
pub open spec fn lines_asked(p: PaneView, lines: Option<usize>) -> Seq<Seq<char>> {
    match lines {
        Some(k) => scrollback(p.terminal, k as nat),
        None => Seq::new(p.terminal.rows as nat, |r: int| line_text(p.terminal, r)),
    }
}

/// A capture is the text of the screen, or of as many of the newest lines as are asked for, one
/// below the other, without the empty lines at its end.
pub proof fn captures_are_the_lines(p: PaneView, lines: Option<usize>)
    ensures
        exists|n: int|
            {
                &&& 0 <= n <= lines_asked(p, lines).len()
                &&& captured_text(p, lines) == joined(
                    #[trigger] lines_asked(p, lines).take(n),
                    "\n"@,
                )
                &&& n > 0 ==> lines_asked(p, lines)[n - 1].len() > 0
                &&& forall|i: int|
                    n <= i < lines_asked(p, lines).len() ==> (#[trigger] lines_asked(
                        p,
                        lines,
                    )[i]).len() == 0
            },
{
    let t = p.terminal;
    let all = match lines {
        Some(k) => scrollback(t, k as nat),
        None => Seq::new(t.rows as nat, |r: int| line_text(t, r)),
    };
    if lines is None {
        let rows = viewport(t, 0);
        let got = Seq::new(rows.len(), |i: int| row_text(rows[i]));
        assert forall|r: int| 0 <= r < t.rows implies #[trigger] got[r] == all[r] by {
            let row = rows[r];
            assert(Seq::new(row.len(), |i: int| row[i].ch) =~= Seq::new(
                t.cols as nat,
                |c: int| glyph_after(t.ops, r, c).ch,
            ));
        }
        assert(got =~= all);
    }
    lemma_tail(all);
    let n = without_blank_tail(all).len() as int;
    assert(all == lines_asked(p, lines));
    assert(captured_text(p, lines) == joined(lines_asked(p, lines).take(n), "\n"@));
}

// ---------------------------------------------------------------------------
// Layouts and lists.
// ---------------------------------------------------------------------------

/// A pane is called by the title that its program set, else by the name of its directory, else by
/// its id.
pub proof fn panes_are_called_by_their_title(p: PaneView, id: u64)
    ensures
        p.title.len() > 0 ==> title_of(p, id) == p.title,
        p.title.len() == 0 ==> (p.cwd matches Some(d) ==> path_name(d).len() > 0 ==> title_of(p, id)
            == path_name(d)),
        p.title.len() == 0 && p.cwd is None ==> title_of(p, id) == seq!['%'] + dec(id as nat),
        p.title.len() == 0 ==> (p.cwd matches Some(d) ==> path_name(d).len() == 0 ==> title_of(
            p,
            id,
        ) == seq!['%'] + dec(id as nat)),
{
}

/// A tab shows its window: its place, its id, its name, its branch, what waits and is unread, its
/// group, color and badge, whether anything runs in it, and whether it is the active one.
pub proof fn tabs_show_their_window(
    s: SessionView,
    branches: Seq<Option<Seq<char>>>,
    progress: Pairs<Progress>,
    i: int,
)
    requires
        0 <= i < s.windows.len(),
    ensures
        ({
            let w = s.windows[i];
            let t = tabs_of(s, branches, progress)[i];
            &&& tabs_of(s, branches, progress).len() == s.windows.len()
            &&& t.index == i
            &&& t.id == w.id.0
            &&& t.name == window_name(w)
            &&& i < branches.len() ==> t.branch == branches[i]
            &&& i >= branches.len() ==> t.branch is None
            &&& t.attention == (exists|k: int|
                0 <= k < w.panes.len() && (#[trigger] w.panes[k]).attention == Attention::Pending)
            &&& unread_sum(w.panes) <= u32::MAX ==> t.unread == unread_sum(w.panes)
            &&& t.group == w.group
            &&& t.color == w.color
            &&& t.busy == (exists|k: int| 0 <= k < w.panes.len() && (#[trigger] w.panes[k]).busy)
            &&& t.active == (i == s.active)
            &&& t.progress == least_pct(w.panes, progress, w.panes.len() as int)
            &&& t.progress_error == any_error(w.panes, progress)
            &&& w.pr is None ==> t.pr is None
            &&& w.pr matches Some(b) ==> (t.pr matches Some(c) && c.number == b.number && c.url
                == b.url && c.status == (match b.status {
                PrStatus::Open => "open"@,
                PrStatus::Draft => "draft"@,
                PrStatus::Merged => "merged"@,
                PrStatus::Closed => "closed"@,
            }))
        }),
{
}

proof fn lemma_rect_wires(w: WindowView, rs: Seq<(PaneId, Rect)>, i: int)
    requires
        forall|k: int| 0 <= k < rs.len() ==> holds(w.panes, (#[trigger] rs[k]).0),
    ensures
        rect_wires(w, rs).len() == rs.len(),
        0 <= i < rs.len() ==> ({
            let (id, r) = rs[i];
            let x = rect_wires(w, rs)[i];
            let p = w.panes[pane_index(w.panes, id, 0)->0];
            x == PaneRectWireView {
                id: id.0,
                x: r.x,
                y: r.y,
                w: r.w,
                h: r.h,
                active: id == w.active,
                attention: p.attention == Attention::Pending,
                title: title_of(p, id.0),
            }
        }),
    decreases rs.len(),
{
    if rs.len() > 0 {
        let front = rs.drop_last();
        assert forall|k: int| 0 <= k < front.len() implies holds(
            w.panes,
            (#[trigger] front[k]).0,
        ) by {
            assert(front[k] == rs[k]);
        }
        lemma_rect_wires(w, front, i);
        assert(holds(w.panes, rs[rs.len() - 1].0));
    }
}

proof fn lemma_listed_are_leaves(
    n: crate::mux::layout::Node,
    area: Rect,
    f: spec_fn(u32, u32) -> u32,
    i: int,
)
    requires
        0 <= i < rects_of(n, area, f).len(),
    ensures
        crate::mux::layout::has_leaf(n, rects_of(n, area, f)[i].0),
    decreases n,
{
    if let crate::mux::layout::Node::Split { dir, ratio, a, b } = n {
        let part = f(crate::mux::layout::extent(dir, area), ratio);
        let p = crate::mux::layout::first_part(dir, area, part);
        let q = crate::mux::layout::second_part(dir, area, part);
        if i < rects_of(*a, p, f).len() {
            lemma_listed_are_leaves(*a, p, f, i);
        } else {
            lemma_listed_are_leaves(*b, q, f, i - rects_of(*a, p, f).len());
        }
    }
}

/// A layout shows the panes of the active window in their rectangles, and which of them is active
/// and which waits; zoomed, it shows the active pane alone, on the whole area. The active pane is
/// always among those shown.
pub proof fn layouts_show_the_active_window(
    s: SessionView,
    width: u32,
    height: u32,
    branches: Seq<Option<Seq<char>>>,
    progress: Pairs<Progress>,
    f: spec_fn(u32, u32) -> u32,
    i: int,
)
    requires
        s.complete(),
        s.active < s.windows.len(),
    ensures
        ({
            let w = s.windows[s.active as int];
            let l = layout_of(s, width, height, branches, progress, f);
            let rs = rects_of(w.root, Rect { x: 0, y: 0, w: width, h: height }, f);
            &&& l.active_pane == w.active.0
            &&& l.zoomed == w.zoom
            &&& l.tabs.len() == s.windows.len()
            &&& w.zoom ==> l.panes.len() == 1 && l.panes[0].id == w.active.0 && l.panes[0].x == 0
                && l.panes[0].y == 0 && l.panes[0].w == width && l.panes[0].h == height
                && l.panes[0].active
            &&& !w.zoom ==> l.panes.len() == rs.len()
            &&& !w.zoom && 0 <= i < rs.len() ==> {
                let x = l.panes[i];
                let (id, r) = rs[i];
                let p = w.panes[pane_index(w.panes, id, 0)->0];
                &&& x.id == id.0
                &&& (x.x, x.y, x.w, x.h) == (r.x, r.y, r.w, r.h)
                &&& x.active == (id == w.active)
                &&& x.attention == (p.attention == Attention::Pending)
                &&& x.title == title_of(p, id.0)
            }
            &&& exists|k: int|
                0 <= k < l.panes.len() && (#[trigger] l.panes[k]).id == w.active.0
                    && l.panes[k].active
        }),
{
    let w = s.windows[s.active as int];
    assert(w.complete());
    let l = layout_of(s, width, height, branches, progress, f);
    let rs = window_rects(w, width, height, f);
    let area = Rect { x: 0, y: 0, w: width, h: height };
    assert forall|k: int| 0 <= k < rs.len() implies holds(w.panes, (#[trigger] rs[k]).0) by {
        if !w.zoom {
            lemma_listed_are_leaves(w.root, area, f, k);
            assert(crate::mux::layout::has_leaf(w.root, rs[k].0));
        }
    }
    lemma_rect_wires(w, rs, i);
    lemma_rect_wires(w, rs, 0);
    crate::mux::laws::the_active_pane_is_shown(w, width, height, f, w.active);
    let k = choose|k: int|
        0 <= k < window_rects(w, width, height, f).len() && (#[trigger] window_rects(
            w,
            width,
            height,
            f,
        )[k]).0 == w.active;
    lemma_rect_wires(w, rs, k);
    assert(l.panes[k].id == w.active.0 && l.panes[k].active);
}

proof fn lemma_with_panes(list: Seq<PaneInfoView>, s: SessionView, window: int, n: int, k: int)
    requires
        0 <= n,
    ensures
        with_panes(list, s, window, n).len() == list.len() + n,
        with_panes(list, s, window, n).take(list.len() as int) == list,
        0 <= k < n ==> ({
            let w = s.windows[window];
            let p = w.panes[k];
            with_panes(list, s, window, n)[list.len() + k] == info_of(
                p,
                w.id,
                window == s.active && p.id == w.active,
            )
        }),
    decreases n,
{
    if n > 0 {
        lemma_with_panes(list, s, window, n - 1, k);
        let front = with_panes(list, s, window, n - 1);
        assert(with_panes(list, s, window, n).take(list.len() as int) =~= front.take(
            list.len() as int,
        ));
    } else {
        assert(list.take(list.len() as int) =~= list);
    }
}

proof fn lemma_all_panes(s: SessionView, n: int, i: int, k: int)
    requires
        0 <= i < n <= s.windows.len(),
        0 <= k < s.windows[i].panes.len(),
    ensures
        ({
            let w = s.windows[i];
            let p = w.panes[k];
            all_panes(s, n).contains(info_of(p, w.id, i == s.active && p.id == w.active))
        }),
    decreases n,
{
    let front = all_panes(s, n - 1);
    let m = s.windows[n - 1].panes.len() as int;
    lemma_with_panes(front, s, n - 1, m, k);
    let all = all_panes(s, n);
    let w = s.windows[i];
    let p = w.panes[k];
    let info = info_of(p, w.id, i == s.active && p.id == w.active);
    if i < n - 1 {
        lemma_all_panes(s, n - 1, i, k);
        let j = choose|j: int| 0 <= j < front.len() && front[j] == info;
        assert(all.take(front.len() as int)[j] == all[j]);
    } else {
        assert(all[front.len() + k] == info);
    }
}

/// Every pane of a session is listed, with its id, its window, its title, its directory, its size
/// and whether it waits; active is the active pane of the active window.
pub proof fn every_pane_is_listed(s: SessionView, i: int, k: int)
    requires
        0 <= i < s.windows.len(),
        0 <= k < s.windows[i].panes.len(),
    ensures
        ({
            let w = s.windows[i];
            let p = w.panes[k];
            listed_windows(s, s.windows.len() as int).contains(
                PaneInfoView {
                    id: p.id.0,
                    window: w.id.0,
                    active: i == s.active && p.id == w.active,
                    title: p.title,
                    cwd: p.cwd,
                    cols: p.terminal.cols,
                    rows: p.terminal.rows,
                    attention: p.attention == Attention::Pending,
                },
            )
        }),
{
    broadcast use vstd::seq_lib::group_to_multiset_ensures;

    let n = s.windows.len() as int;
    pane_lists_are_sorted(s, n);
    lemma_all_panes(s, n, i, k);
    let w = s.windows[i];
    let p = w.panes[k];
    let info = info_of(p, w.id, i == s.active && p.id == w.active);
    assert(all_panes(s, n).to_multiset().count(info) > 0);
    assert(listed_windows(s, n).to_multiset().count(info) > 0);
}

/// The progress of a window is that of the pane that is least done, among those that report a
/// percentage; it shows an error while one of them reports one.
pub proof fn progress_is_that_of_the_least_done(
    panes: Seq<PaneView>,
    progress: Pairs<Progress>,
    n: int,
    k: int,
)
    requires
        0 <= n <= panes.len(),
    ensures
        ({
            let least = least_pct(panes, progress, n);
            &&& 0 <= k < n ==> (lookup(progress, panes[k].id.0) matches Some((
                ProgressState::Value,
                Some(v),
            )) ==> (least matches Some(m) && m <= v))
            &&& least matches Some(m) ==> exists|j: int|
                0 <= j < n && lookup(progress, (#[trigger] panes[j]).id.0) == Some(
                    (ProgressState::Value, Some(m)),
                )
        }),
        any_error(panes, progress) == (exists|j: int|
            0 <= j < panes.len() && (lookup(progress, (#[trigger] panes[j]).id.0) matches Some((
                state,
                _,
            )) && state == ProgressState::Error)),
    decreases n,
{
    if any_error(panes, progress) {
        let j = choose|j: int|
            0 <= j < panes.len() && (lookup(progress, (#[trigger] panes[j]).id.0) matches Some((
                ProgressState::Error,
                _,
            )));
        assert(lookup(progress, panes[j].id.0) matches Some((state, _)) && state
            == ProgressState::Error);
    }
    if n > 0 {
        progress_is_that_of_the_least_done(panes, progress, n - 1, k);
        let least = least_pct(panes, progress, n - 1);
        let p = panes[n - 1];
        if let Some(m) = least_pct(panes, progress, n) {
            if least == Some(m) {
                let j = choose|j: int|
                    0 <= j < n - 1 && lookup(progress, (#[trigger] panes[j]).id.0) == Some(
                        (ProgressState::Value, Some(m)),
                    );
                assert(lookup(progress, panes[j].id.0) == Some((ProgressState::Value, Some(m))));
            } else {
                assert(lookup(progress, panes[n - 1].id.0) == Some(
                    (ProgressState::Value, Some(m)),
                ));
            }
        }
    }
}

// ---------------------------------------------------------------------------
// What is told.
// ---------------------------------------------------------------------------

/// The reserved wires: a pane's end, its damage, and clipboard text, each under its own title.
pub proof fn reserved_wires_have_their_titles(pane: u64, text: Seq<char>)
    ensures
        exit_wire(pane) == (NotifyWireView {
            pane,
            title: "pane-exited"@,
            body: Seq::empty(),
            urgency: 1,
        }),
        output_wire(pane) == (NotifyWireView {
            pane,
            title: "pane-output"@,
            body: Seq::empty(),
            urgency: 0,
        }),
        clipboard_wire(pane, text) == (NotifyWireView {
            pane,
            title: "clipboard-set"@,
            body: text,
            urgency: 0,
        }),
        urgency_number(Urgency::Low) == 0,
        urgency_number(Urgency::Normal) == 1,
        urgency_number(Urgency::Critical) == 2,
{
}

/// A subscriber without output gets the wires that are no damage, in order; one with output gets
/// all; where nothing is left, nothing is sent.
pub proof fn subscribers_get_what_they_asked_for(batch: Seq<NotifyWireView>)
    ensures
        ({
            let rest = batch.filter(|w: NotifyWireView| w.title != "pane-output"@);
            &&& pushed_to(batch, true) == (if batch.len() > 0 {
                Some(batch)
            } else {
                None
            })
            &&& pushed_to(batch, false) == (if rest.len() > 0 {
                Some(rest)
            } else {
                None
            })
        }),
{
    lemma_undamaged(batch);
}

proof fn lemma_undamaged(batch: Seq<NotifyWireView>)
    ensures
        undamaged(batch) == batch.filter(|w: NotifyWireView| w.title != "pane-output"@),
    decreases batch.len(),
{
    reveal(Seq::filter);
    if batch.len() > 0 {
        lemma_undamaged(batch.drop_last());
    }
}

/// What one pane's events add to what is drained: each kind in its place, word for word.
pub proof fn events_are_drained_in_their_place(
    d: DrainedView,
    id: PaneId,
    text: Seq<char>,
    state: ProgressState,
    pct: Option<u8>,
)
    ensures
        drained_event(d, id, PaneEventView::Exited) == (DrainedView {
            exited: d.exited.push(id),
            ..d
        }),
        drained_event(d, id, PaneEventView::Progress { state, pct }) == (DrainedView {
            progress: d.progress.push((id, state, pct)),
            ..d
        }),
        drained_event(d, id, PaneEventView::Output).damaged.contains(id),
        drained_event(d, id, PaneEventView::Output) == (DrainedView {
            damaged: if d.damaged.contains(id) {
                d.damaged
            } else {
                d.damaged.push(id)
            },
            ..d
        }),
        drained_event(d, id, PaneEventView::Clipboard(text)) == (DrainedView {
            clipboards: d.clipboards.push(clipboard_wire(id.0, text)),
            ..d
        }),
        drained_event(d, id, PaneEventView::Bell) == d,
        drained_event(d, id, PaneEventView::Title(text)) == d,
        drained_event(d, id, PaneEventView::Cwd(text)) == d,
{
    if !d.damaged.contains(id) {
        let e = d.damaged.push(id);
        assert(e[d.damaged.len() as int] == id);
    }
}

/// Events are drained in order, pane by pane and window by window.
pub proof fn draining_goes_in_order(
    d: DrainedView,
    id: PaneId,
    es: Seq<PaneEventView>,
    panes: Seq<PaneView>,
    windows: Seq<WindowView>,
    n: int,
)
    ensures
        drained_events(d, id, es, 0) == d,
        0 <= n < es.len() ==> drained_events(d, id, es, n + 1) == drained_event(
            drained_events(d, id, es, n),
            id,
            es[n],
        ),
        drained_panes(d, panes, 0) == d,
        0 <= n < panes.len() ==> drained_panes(d, panes, n + 1) == drained_events(
            drained_panes(d, panes, n),
            panes[n].id,
            panes[n].events,
            panes[n].events.len() as int,
        ),
        drained_windows(d, windows, 0) == d,
        0 <= n < windows.len() ==> drained_windows(d, windows, n + 1) == drained_panes(
            drained_windows(d, windows, n),
            windows[n].panes,
            windows[n].panes.len() as int,
        ),
{
}

/// A batch holds the notifications, then the ends, then the damage, then the clipboard texts.
pub proof fn batches_are_in_order(d: DrainedView, exited: Seq<PaneId>, i: int)
    ensures
        ({
            let b = batch_of(d, exited);
            let (n, e, m) = (d.notes.len(), exited.len(), d.damaged.len());
            &&& b.len() == n + e + m + d.clipboards.len()
            &&& b.take(n as int) == d.notes
            &&& 0 <= i < e ==> b[n + i] == exit_wire(exited[i].0)
            &&& 0 <= i < m ==> b[n + e + i] == output_wire(d.damaged[i].0)
            &&& b.skip((n + e + m) as int) == d.clipboards
        }),
{
    let b = batch_of(d, exited);
    assert(b.take(d.notes.len() as int) =~= d.notes);
    assert(b.skip((d.notes.len() + exited.len() + d.damaged.len()) as int) =~= d.clipboards);
}

/// The progress that is remembered of a pane is the one that it reported last, and none once it
/// took it back; that of the others stays.
pub proof fn the_last_progress_counts(
    progress: Pairs<Progress>,
    reports: Seq<(PaneId, ProgressState, Option<u8>)>,
    n: int,
    other: u64,
)
    requires
        unique_keys(progress),
        0 < n <= reports.len(),
    ensures
        ({
            let (id, state, pct) = reports[n - 1];
            let (a, b) = (progressed(progress, reports, n - 1), progressed(progress, reports, n));
            &&& state == ProgressState::Remove ==> lookup(b, id.0) is None
            &&& state != ProgressState::Remove ==> lookup(b, id.0) == Some((state, pct))
            &&& other != id.0 ==> lookup(b, other) == lookup(a, other)
            &&& progressed(progress, reports, 0) == progress
        }),
{
    lemma_progress_unique(progress, reports, n - 1);
    let (id, state, pct) = reports[n - 1];
    let a = progressed(progress, reports, n - 1);
    pairs_are_a_map(a, id.0, (state, pct), id.0);
    pairs_are_a_map(a, id.0, (state, pct), other);
}

proof fn lemma_progress_unique(
    progress: Pairs<Progress>,
    reports: Seq<(PaneId, ProgressState, Option<u8>)>,
    n: int,
)
    requires
        unique_keys(progress),
        0 <= n <= reports.len(),
    ensures
        unique_keys(progressed(progress, reports, n)),
    decreases n,
{
    if n > 0 {
        lemma_progress_unique(progress, reports, n - 1);
        let (id, state, pct) = reports[n - 1];
        pairs_are_a_map(progressed(progress, reports, n - 1), id.0, (state, pct), 0);
    }
}

/// A tick counts, saves the session at every twentieth, and sets the badges that were looked up.
pub proof fn ticks_count_and_save(
    v: ServerView,
    found: Seq<(u64, Option<PrBadgeView>)>,
    f: spec_fn(u64, u64) -> u32,
    g: spec_fn(u64, u64) -> u32,
)
    requires
        v.ticks < u32::MAX,
    ensures
        ({
            let (w, t) = ticked(v, found, f, g);
            &&& w.ticks == v.ticks + 1
            &&& t.save == ((v.ticks + 1) % 20 == 0)
            &&& w.palette == v.palette
            &&& w.shell == v.shell
            &&& w.last_view == v.last_view
            &&& w.browse_requests == v.browse_requests
            &&& t.probe is Some ==> v.pr_refresh_ticks != 0 && (v.ticks + 1) % (
            v.pr_refresh_ticks as int) == 0
        }),
{
}

/// A badge that was looked up is set on its window, and on nothing else.
pub proof fn looked_up_badges_are_set(
    s: SessionView,
    found: Seq<(u64, Option<PrBadgeView>)>,
    n: int,
    k: int,
)
    requires
        0 < n <= found.len(),
        0 <= k < badged(s, found, n - 1).windows.len(),
        badged(s, found, n - 1).windows[k].id.0 == found[n - 1].0,
        forall|j: int|
            0 <= j < k ==> (#[trigger] badged(s, found, n - 1).windows[j]).id.0 != found[n - 1].0,
    ensures
        ({
            let (a, b) = (badged(s, found, n - 1), badged(s, found, n));
            &&& badged(s, found, 0) == s
            &&& b.windows == a.windows.update(
                k,
                WindowView { pr: found[n - 1].1, ..a.windows[k] },
            )
            &&& b.active == a.active
        }),
{
    let a = badged(s, found, n - 1);
    lemma_window_index(a.windows, WindowId(found[n - 1].0), 0);
}

/// What a restored pane shows: the saved lines, each on a line of its own, and a divider; nothing
/// where no line holds anything.
pub proof fn restored_screens_show_the_saved_lines(lines: Seq<Seq<char>>, last: Seq<char>, i: int)
    ensures
        terminated(Seq::empty()).len() == 0,
        terminated(lines.push(last)) == terminated(lines) + last + "\r\n"@,
        (forall|k: int| 0 <= k < lines.len() ==> (#[trigger] lines[k]).len() == 0) ==> replay_of(
            lines,
        ) is None,
        0 <= i < lines.len() && lines[i].len() > 0 ==> replay_of(lines) == Some(
            terminated(lines)
                + "\x1b[90m\u{2500}\u{2500}\u{2500} gmux: restored (process not running) \u{2500}\u{2500}\u{2500}\x1b[0m\r\n"@,
        ),
{
    assert(lines.push(last).drop_last() =~= lines);
}

// ---------------------------------------------------------------------------
// Configuration and imports.
// ---------------------------------------------------------------------------

/// Probes come as often as is asked for, ten ticks to the second, but not more often than every
/// half minute; zero and nothing turn them off.
pub proof fn probes_come_as_often_as_asked(s: u64)
    ensures
        refresh_ticks(None) == 0,
        refresh_ticks(Some(0)) == 0,
        0 < s < 30 ==> refresh_ticks(Some(s)) == 300,
        30 <= s && s * 10 <= u32::MAX ==> refresh_ticks(Some(s)) == s * 10,
        s * 10 > u32::MAX ==> refresh_ticks(Some(s)) == u32::MAX,
{
}

/// Screens are saved unless the configuration says no.
pub proof fn screens_are_saved_unless_told_otherwise(j: crate::json::JsonView)
    ensures
        screen_persists(None),
        crate::json::field(j, "persist_screen"@) == Some(crate::json::JsonView::Bool(false))
            ==> !screen_persists(Some(j)),
        crate::json::field(j, "persist_screen"@) != Some(crate::json::JsonView::Bool(false))
            ==> screen_persists(Some(j)),
{
}

proof fn lemma_placed_path(sorted: Seq<Seq<char>>, p: Seq<char>, x: Seq<char>)
    ensures
        placed_by_path(sorted, p).len() == sorted.len() + 1,
        placed_by_path(sorted, p).contains(x) == (sorted.contains(x) || x == p),
    decreases sorted.len(),
{
    let r = placed_by_path(sorted, p);
    if sorted.len() > 0 && crate::text::text_before(p, sorted.last(), 0) {
        let front = sorted.drop_last();
        let q = placed_by_path(front, p);
        lemma_placed_path(front, p, x);
        lemma_pushed_text(q, sorted.last(), x);
        lemma_pushed_text(front, sorted.last(), x);
        assert(front.push(sorted.last()) =~= sorted);
    } else {
        lemma_pushed_text(sorted, p, x);
    }
}

proof fn lemma_pushed_text(s: Seq<Seq<char>>, p: Seq<char>, x: Seq<char>)
    ensures
        s.push(p).contains(x) == (s.contains(x) || x == p),
{
    let r = s.push(p);
    if s.contains(x) {
        let k = choose|k: int| 0 <= k < s.len() && s[k] == x;
        assert(r[k] == x);
    }
    if x == p {
        assert(r[s.len() as int] == x);
    }
    if r.contains(x) && x != p {
        let k = choose|k: int| 0 <= k < r.len() && r[k] == x;
        assert(s[k] == x);
    }
}

/// An import finds the folders with a `.git`, or all folders where that is asked for, but none whose
/// name starts with a dot.
pub proof fn imports_find_the_projects(entries: Seq<EntryView>, all: bool, x: Seq<char>)
    ensures
        projects_of(entries, all).contains(x) == (exists|i: int|
            {
                let e = #[trigger] entries[i];
                &&& 0 <= i < entries.len()
                &&& e.path == x
                &&& e.is_dir
                &&& all || e.has_git
                &&& !(e.name matches Some(n) && n.len() > 0 && n[0] == '.')
            }),
    decreases entries.len(),
{
    if entries.len() > 0 {
        let front = entries.drop_last();
        let last = entries.last();
        imports_find_the_projects(front, all, x);
        lemma_placed_path(projects_of(front, all), last.path, x);
        if projects_of(front, all).contains(x) {
            let i = choose|i: int|
                {
                    let e = #[trigger] front[i];
                    &&& 0 <= i < front.len()
                    &&& e.path == x
                    &&& e.is_dir
                    &&& all || e.has_git
                    &&& !(e.name matches Some(n) && n.len() > 0 && n[0] == '.')
                };
            assert(entries[i] == front[i]);
        }
        if is_project(last, all) && last.path == x {
            assert(entries[entries.len() - 1] == last);
        }
        if exists|i: int|
            {
                let e = #[trigger] entries[i];
                &&& 0 <= i < entries.len()
                &&& e.path == x
                &&& e.is_dir
                &&& all || e.has_git
                &&& !(e.name matches Some(n) && n.len() > 0 && n[0] == '.')
            } {
            let i = choose|i: int|
                {
                    let e = #[trigger] entries[i];
                    &&& 0 <= i < entries.len()
                    &&& e.path == x
                    &&& e.is_dir
                    &&& all || e.has_git
                    &&& !(e.name matches Some(n) && n.len() > 0 && n[0] == '.')
                };
            if i < front.len() {
                assert(front[i] == entries[i]);
            }
        }
    }
}

/// The badge of a pull request is read from what `gh` tells: its number, its state, whether it is a
/// draft, and its page; without a number or a state there is none.
pub proof fn badges_are_read_from_the_answer(
    j: crate::json::JsonView,
    number: u64,
    state: Seq<char>,
    draft: bool,
)
    requires
        crate::json::unsigned_number(crate::json::field(j, "number"@)) == Some(number),
        number <= u32::MAX,
        crate::json::text_value(crate::json::field(j, "state"@)) == Some(state),
        crate::json::truth(crate::json::field(j, "isDraft"@)) == Some(draft),
    ensures
        match github_status(state, draft) {
            Some(s) => badge_of(Some(j)) matches Some(b) && b.number == number && b.status == s
                && b.url == crate::json::text_value(crate::json::field(j, "url"@)),
            None => badge_of(Some(j)) is None,
        },
{
}

} // verus!
