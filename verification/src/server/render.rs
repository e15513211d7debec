//! What clients are shown: grids, captured text, tabs, rectangles and pane lists.
use vstd::prelude::*;
use vstd::string::*;

use crate::mux::attention::Attention;
use crate::mux::ids::PaneId;
#[allow(unused_imports)]
use crate::mux::ids::WindowId;
#[allow(unused_imports)]
use crate::mux::layout::{cutting, function_of, is_function, lemma_function};
use crate::mux::layout::Rect;
use crate::mux::pane::Pane;
#[allow(unused_imports)]
use crate::mux::pane::PaneView;
#[allow(unused_imports)]
use crate::mux::persist::without_blank_tail;
use crate::mux::session::Session;
#[allow(unused_imports)]
use crate::mux::session::{tidy, windows_view, SessionView};
use crate::mux::window::Window;
#[allow(unused_imports)]
use crate::mux::window::{
    any_busy, distinct, holds, lemma_holds, pane_index, panes_view, window_info, window_rects,
    WindowView,
};
use crate::mux::workspace::cwd_name;
#[allow(unused_imports)]
use crate::mux::workspace::{path_name, status_token, PrBadgeView};
use crate::pairs::get;
#[allow(unused_imports)]
use crate::pairs::{lookup, Pairs};
use crate::proto::{
    CellWire, GridWire, LayoutWire, LinkWire, PaneInfo, PaneRectWire, PrWire, TabWire,
};
#[allow(unused_imports)]
use crate::proto::{
    cell_wires_view, infos_view, link_wires_view, rect_wires_view, tab_wires_view, CellWireView,
    GridWireView, LayoutWireView, LinkWireView, PaneInfoView, PaneRectWireView, PrWireView,
    TabWireView,
};
use crate::text::{
    clone_opt, drop_trailing_spaces, join_lines, push_char, push_decimal, string_of,
};
#[allow(unused_imports)]
use crate::text::{dec, joined, opt_text, texts_view, trim_spaces};
#[allow(unused_imports)]
use crate::vt::emulator::modes_after;
use crate::vt::osc::ProgressState;
use crate::vt::terminal::Cell;
#[allow(unused_imports)]
use crate::vt::terminal::{
    clamped, cursor_cell, links_from, mouse_bits, rows_view, scrollback, spans_view, viewport,
    LinkSpanView,
};

verus! {

// ---------------------------------------------------------------------------
// Grids.
// ---------------------------------------------------------------------------

/// A flag's bit.
pub open spec fn bit(on: bool, value: int) -> int {
    if on {
        value
    } else {
        0
    }
}

/// A cell on the wire: its flags are the sum of the bits 1 bold, 2 italic, 4 underline, 8 inverse,
/// 16 wide.
pub open spec fn wire_cell(c: Cell) -> CellWireView {
    CellWireView {
        ch: c.ch,
        fg: seq![c.fg.r, c.fg.g, c.fg.b],
        bg: seq![c.bg.r, c.bg.g, c.bg.b],
        flags: (bit(c.bold, 1) + bit(c.italic, 2) + bit(c.underline, 4) + bit(c.inverse, 8) + bit(
            c.wide,
            16,
        )) as u8,
    }
}

/// Rows of cells one after the other.
pub open spec fn flat(rows: Seq<Seq<Cell>>) -> Seq<CellWireView>
    decreases rows.len(),
{
    if rows.len() == 0 {
        Seq::empty()
    } else {
        flat(rows.drop_last()) + Seq::new(
            rows.last().len(),
            |i: int| wire_cell(rows.last()[i]),
        )
    }
}

/// Most links that a grid carries.
pub const MAX_LINKS: usize = 256;

/// A link on the wire.
pub open spec fn wire_link(l: LinkSpanView) -> LinkWireView {
    LinkWireView { row: l.row, start: l.start, end: l.end, uri: l.uri }
}

/// The first links of a list.
pub open spec fn first_links(links: Seq<LinkSpanView>) -> Seq<LinkWireView> {
    let n = if links.len() < MAX_LINKS {
        links.len()
    } else {
        MAX_LINKS as nat
    };
    Seq::new(n, |i: int| wire_link(links[i]))
}

/// A pane's grid, scrolled up.
pub open spec fn grid_of(p: PaneView, offset: nat) -> GridWireView {
    let t = p.terminal;
    GridWireView {
        cols: t.cols,
        rows: t.rows,
        cursor_col: cursor_cell(t).0,
        cursor_row: cursor_cell(t).1,
        cells: flat(viewport(t, offset)),
        history: t.history() as u32,
        offset: clamped(t, offset) as u32,
        bracketed_paste: modes_after(t.ops).bracketed_paste,
        mouse_mode: mouse_bits(t),
        cursor_style: t.cursor_style,
        links: first_links(links_from(t, clamped(t, offset), 0)),
    }
}

fn cell_wire(c: Cell) -> (w: CellWire)
    ensures
        w@ == wire_cell(c),
{
    let mut flags: u8 = 0;
    if c.bold {
        flags = flags + 1;
    }
    if c.italic {
        flags = flags + 2;
    }
    if c.underline {
        flags = flags + 4;
    }
    if c.inverse {
        flags = flags + 8;
    }
    if c.wide {
        flags = flags + 16;
    }
    let fg: [u8; 3] = [c.fg.r, c.fg.g, c.fg.b];
    let bg: [u8; 3] = [c.bg.r, c.bg.g, c.bg.b];
    assert(fg@ =~= seq![c.fg.r, c.fg.g, c.fg.b]);
    assert(bg@ =~= seq![c.bg.r, c.bg.g, c.bg.b]);
    CellWire { ch: c.ch, fg, bg, flags }
}

/// A pane's grid, scrolled `offset` lines up into the scrollback (clamped).
pub fn grid_wire(p: &Pane, offset: usize) -> (g: GridWire)
    requires
        p@.wf(),
    ensures
        g@ == grid_of(p@, offset as nat),
{
    let bracketed_paste = p.bracketed_paste();
    let mouse_mode: u8 = p.mouse_mode();
    let cursor_style: u8 = p.cursor_style();
    let (snap, history, shown) = p.snapshot_scrolled(offset);
    let spans = p.links_at_offset(shown);
    let ghost all_links = spans_view(spans@);
    let mut links: Vec<LinkWire> = Vec::new();
    let mut i: usize = 0;
    while i < spans.len() && i < MAX_LINKS
        invariant
            i <= spans@.len(),
            i <= MAX_LINKS,
            links@.len() == i,
            all_links == spans_view(spans@),
            forall|j: int|
                0 <= j < i ==> (#[trigger] link_wires_view(links@)[j]) == wire_link(all_links[j]),
        decreases spans@.len() - i,
    {
        let s = &spans[i];
        let ghost before = links@;
        links.push(LinkWire { row: s.row, start: s.start, end: s.end, uri: s.uri.clone() });
        assert forall|j: int| 0 <= j < i + 1 implies (#[trigger] link_wires_view(links@)[j])
            == wire_link(all_links[j]) by {
            if j < i {
                assert(link_wires_view(links@)[j] == link_wires_view(before)[j]);
            }
        }
        i = i + 1;
    }
    assert(link_wires_view(links@) =~= first_links(all_links));
    let mut cells: Vec<CellWire> = Vec::new();
    let ghost rows = rows_view(snap.cells@);
    let mut r: usize = 0;
    assert(rows.take(0) =~= Seq::empty());
    assert(cell_wires_view(cells@) =~= Seq::empty());
    while r < snap.cells.len()
        invariant
            r <= snap.cells@.len(),
            rows == rows_view(snap.cells@),
            cell_wires_view(cells@) == flat(rows.take(r as int)),
        decreases snap.cells@.len() - r,
    {
        let row = &snap.cells[r];
        let ghost start = cell_wires_view(cells@);
        let ghost want = Seq::new(row@.len(), |k: int| wire_cell(row@[k]));
        let mut c: usize = 0;
        assert(start + want.take(0) =~= start);
        while c < row.len()
            invariant
                c <= row@.len(),
                want == Seq::new(row@.len(), |k: int| wire_cell(row@[k])),
                cell_wires_view(cells@) == start + want.take(c as int),
            decreases row@.len() - c,
        {
            let ghost before = cells@;
            let w = cell_wire(row[c]);
            cells.push(w);
            assert(cell_wires_view(cells@) =~= cell_wires_view(before).push(w@));
            assert(want.take(c + 1) =~= want.take(c as int).push(w@));
            assert(start + want.take(c + 1) =~= (start + want.take(c as int)).push(w@));
            c = c + 1;
        }
        assert(want.take(c as int) =~= want);
        assert(rows.take(r + 1).drop_last() =~= rows.take(r as int));
        assert(rows.take(r + 1).last() == row@);
        assert(want =~= Seq::new(
            rows.take(r + 1).last().len(),
            |k: int| wire_cell(rows.take(r + 1).last()[k]),
        ));
        r = r + 1;
    }
    assert(rows.take(r as int) =~= rows);
    GridWire {
        cols: snap.cols,
        rows: snap.rows,
        cursor_col: snap.cursor.0,
        cursor_row: snap.cursor.1,
        cells,
        history: history as u32,
        offset: shown as u32,
        bracketed_paste,
        mouse_mode,
        cursor_style,
        links,
    }
}

// ---------------------------------------------------------------------------
// Captured text.
// ---------------------------------------------------------------------------

/// The characters of a row, without trailing spaces.
pub open spec fn row_text(row: Seq<Cell>) -> Seq<char> {
    trim_spaces(Seq::new(row.len(), |i: int| row[i].ch))
}

/// A pane's text: the screen, or with `scrollback` that many of the most recent lines (0: all);
/// without empty lines at the end.
pub open spec fn captured_text(p: PaneView, lines: Option<usize>) -> Seq<char> {
    let all = match lines {
        Some(n) => scrollback(p.terminal, n as nat),
        None => {
            let rows = viewport(p.terminal, 0);
            Seq::new(rows.len(), |i: int| row_text(rows[i]))
        },
    };
    joined(without_blank_tail(all), "\n"@)
}

/// A pane's text.
pub fn capture(p: &Pane, lines: Option<usize>) -> (s: String)
    requires
        p@.wf(),
    ensures
        s@ == captured_text(p@, lines),
{
    let mut all: Vec<String> = match lines {
        Some(n) => p.scrollback_text(n),
        None => {
            let snap = p.snapshot();
            let ghost rows = rows_view(snap.cells@);
            let ghost want = Seq::new(rows.len(), |i: int| row_text(rows[i]));
            let mut out: Vec<String> = Vec::new();
            let mut r: usize = 0;
            while r < snap.cells.len()
                invariant
                    r <= snap.cells@.len(),
                    rows == rows_view(snap.cells@),
                    want == Seq::new(rows.len(), |i: int| row_text(rows[i])),
                    out@.len() == r,
                    forall|j: int| 0 <= j < r ==> (#[trigger] texts_view(out@)[j]) == want[j],
                decreases snap.cells@.len() - r,
            {
                let row = &snap.cells[r];
                let mut chars: Vec<char> = Vec::new();
                let mut c: usize = 0;
                while c < row.len()
                    invariant
                        c <= row@.len(),
                        chars@.len() == c,
                        forall|k: int| 0 <= k < c ==> #[trigger] chars@[k] == row@[k].ch,
                    decreases row@.len() - c,
                {
                    chars.push(row[c].ch);
                    c = c + 1;
                }
                assert(chars@ =~= Seq::new(row@.len(), |k: int| row@[k].ch));
                let trimmed = drop_trailing_spaces(chars);
                let text = string_of(trimmed.as_slice());
                let ghost before = out@;
                out.push(text);
                assert(rows[r as int] == row@);
                assert forall|j: int| 0 <= j < r + 1 implies (#[trigger] texts_view(out@)[j])
                    == want[j] by {
                    if j < r {
                        assert(texts_view(out@)[j] == texts_view(before)[j]);
                    }
                }
                r = r + 1;
            }
            assert(texts_view(out@) =~= want);
            out
        },
    };
    let ghost start = texts_view(all@);
    while all.len() > 0 && all[all.len() - 1].as_str().is_empty()
        invariant
            without_blank_tail(start) == without_blank_tail(texts_view(all@)),
        decreases all@.len(),
    {
        let ghost before = texts_view(all@);
        let _blank = all.pop();
        assert(before.drop_last() =~= texts_view(all@));
    }
    join_lines(&all, "\n")
}

// ---------------------------------------------------------------------------
// Titles and progress.
// ---------------------------------------------------------------------------

/// A pane's short title: its terminal's, else the name of its directory, else its id.
pub open spec fn title_of(p: PaneView, id: u64) -> Seq<char> {
    if p.title.len() > 0 {
        p.title
    } else {
        match p.cwd {
            Some(cwd) => if path_name(cwd).len() > 0 {
                path_name(cwd)
            } else {
                seq!['%'] + dec(id as nat)
            },
            None => seq!['%'] + dec(id as nat),
        }
    }
}

/// A pane's short title, which is never empty.
pub fn pane_title(p: &Pane, id: u64) -> (s: String)
    ensures
        s@ == title_of(p@, id),
        s@.len() > 0,
{
    let title = p.title();
    if !title.as_str().is_empty() {
        return title;
    }
    if let Some(cwd) = p.cwd() {
        let name = cwd_name(cwd.as_str());
        if !name.as_str().is_empty() {
            return name;
        }
    }
    let mut s = String::new();
    push_char(&mut s, '%');
    push_decimal(&mut s, id);
    assert(s@ =~= seq!['%'] + dec(id as nat));
    s
}

/// A progress report: its state, and its percentage.
pub type Progress = (ProgressState, Option<u8>);

/// Whether any pane reported an error.
pub open spec fn any_error(panes: Seq<PaneView>, progress: Pairs<Progress>) -> bool {
    exists|i: int|
        0 <= i < panes.len() && (lookup(progress, (#[trigger] panes[i]).id.0) matches Some((
            ProgressState::Error,
            _,
        )))
}

/// The lowest percentage that the first `n` panes report.
pub open spec fn least_pct(panes: Seq<PaneView>, progress: Pairs<Progress>, n: int) -> Option<u8>
    decreases n,
{
    if n <= 0 {
        None
    } else {
        let least = least_pct(panes, progress, n - 1);
        match lookup(progress, panes[n - 1].id.0) {
            Some((ProgressState::Value, Some(v))) => match least {
                Some(m) => Some(
                    if v < m {
                        v
                    } else {
                        m
                    },
                ),
                None => Some(v),
            },
            _ => least,
        }
    }
}

/// A window's progress: the percentage of the agent that is least done, and whether any reported
/// an error.
pub fn window_progress(win: &Window, progress: &Vec<(u64, Progress)>) -> (r: (Option<u8>, bool))
    ensures
        r.0 == least_pct(win@.panes, progress@, win@.panes.len() as int),
        r.1 == any_error(win@.panes, progress@),
{
    let panes = win.panes();
    let ghost ps = win@.panes;
    let mut least: Option<u8> = None;
    let mut error = false;
    let mut i: usize = 0;
    while i < panes.len()
        invariant
            i <= panes@.len(),
            ps == panes_view(panes@),
            ps == win@.panes,
            least == least_pct(ps, progress@, i as int),
            error == exists|j: int|
                0 <= j < i && (lookup(progress@, (#[trigger] ps[j]).id.0) matches Some((
                    ProgressState::Error,
                    _,
                ))),
        decreases panes@.len() - i,
    {
        assert(ps[i as int] == panes@[i as int]@);
        let ghost was = error;
        match get(progress, panes[i].pane_id().0) {
            Some((ProgressState::Error, _)) => {
                error = true;
            },
            Some((ProgressState::Value, Some(v))) => {
                least = match least {
                    Some(m) => Some(
                        if v < m {
                            v
                        } else {
                            m
                        },
                    ),
                    None => Some(v),
                };
            },
            _ => {},
        }
        i = i + 1;
    }
    (least, error)
}

// ---------------------------------------------------------------------------
// Tabs and rectangles.
// ---------------------------------------------------------------------------

/// The mathematical values of optional texts.
pub open spec fn opts_view(s: Seq<Option<String>>) -> Seq<Option<Seq<char>>> {
    Seq::new(s.len(), |i: int| opt_text(s[i]))
}

/// The branch of the window at an index, as far as it is known.
pub open spec fn branch_at(branches: Seq<Option<Seq<char>>>, i: int) -> Option<Seq<char>> {
    if 0 <= i < branches.len() {
        branches[i]
    } else {
        None
    }
}

/// A badge on the wire.
pub open spec fn wire_badge(b: Option<PrBadgeView>) -> Option<PrWireView> {
    match b {
        Some(b) => Some(
            PrWireView { number: b.number, status: status_token(b.status), url: b.url },
        ),
        None => None,
    }
}

/// The tab of a window.
pub open spec fn tab_of(
    w: WindowView,
    index: int,
    active: bool,
    branch: Option<Seq<char>>,
    progress: Pairs<Progress>,
) -> TabWireView {
    let info = window_info(w, branch);
    TabWireView {
        index: index as nat,
        id: w.id.0,
        name: info.name,
        branch: info.branch,
        attention: info.attention,
        unread: info.unread,
        group: w.group,
        color: w.color,
        busy: any_busy(w.panes),
        pr: wire_badge(w.pr),
        active,
        progress: least_pct(w.panes, progress, w.panes.len() as int),
        progress_error: any_error(w.panes, progress),
    }
}

/// The tabs of a session.
pub open spec fn tabs_of(
    s: SessionView,
    branches: Seq<Option<Seq<char>>>,
    progress: Pairs<Progress>,
) -> Seq<TabWireView> {
    Seq::new(
        s.windows.len(),
        |i: int|
            tab_of(s.windows[i], i, i == s.active, branch_at(branches, i), progress),
    )
}

/// The rectangles of the panes that are there.
pub open spec fn rect_wires(w: WindowView, rs: Seq<(PaneId, Rect)>) -> Seq<PaneRectWireView>
    decreases rs.len(),
{
    if rs.len() == 0 {
        Seq::empty()
    } else {
        let front = rect_wires(w, rs.drop_last());
        let (id, r) = rs.last();
        match pane_index(w.panes, id, 0) {
            Some(i) => front.push(
                PaneRectWireView {
                    id: id.0,
                    x: r.x,
                    y: r.y,
                    w: r.w,
                    h: r.h,
                    active: id == w.active,
                    attention: w.panes[i].attention == Attention::Pending,
                    title: title_of(w.panes[i], id.0),
                },
            ),
            None => front,
        }
    }
}

/// The layout of a session in an area.
pub open spec fn layout_of(
    s: SessionView,
    width: u32,
    height: u32,
    branches: Seq<Option<Seq<char>>>,
    progress: Pairs<Progress>,
    f: spec_fn(u32, u32) -> u32,
) -> LayoutWireView {
    let tabs = tabs_of(s, branches, progress);
    if s.active < s.windows.len() {
        let w = s.windows[s.active as int];
        LayoutWireView {
            active_pane: w.active.0,
            tabs,
            panes: rect_wires(w, window_rects(w, width, height, f)),
            zoomed: w.zoom,
        }
    } else {
        LayoutWireView { active_pane: 0, tabs, panes: Seq::empty(), zoomed: false }
    }
}

fn tab_wire(
    win: &Window,
    index: usize,
    active: bool,
    branch: Option<String>,
    progress: &Vec<(u64, Progress)>,
) -> (t: TabWire)
    requires
        win@.complete(),
    ensures
        t@ == tab_of(win@, index as int, active, opt_text(branch), progress@),
{
    let info = win.workspace_info(branch);
    let (pct, error) = window_progress(win, progress);
    let pr = match win.pr() {
        Some(b) => Some(
            PrWire {
                number: b.number,
                status: String::from_str(b.status.as_str()),
                url: clone_opt(&b.url),
            },
        ),
        None => None,
    };
    TabWire {
        index,
        id: win.window_id().0,
        name: info.name,
        branch: info.branch,
        attention: info.attention,
        unread: info.unread,
        group: win.group(),
        color: win.color(),
        busy: win.is_busy(),
        pr,
        active,
        progress: pct,
        progress_error: error,
    }
}

fn rects_on_wire(win: &Window, rs: &Vec<(PaneId, Rect)>) -> (panes: Vec<PaneRectWire>)
    ensures
        rect_wires_view(panes@) == rect_wires(win@, rs@),
{
    let active = win.active_id();
    let mut panes: Vec<PaneRectWire> = Vec::new();
    let mut i: usize = 0;
    assert(rs@.take(0) =~= Seq::empty());
    assert(rect_wires_view(panes@) =~= Seq::empty());
    while i < rs.len()
        invariant
            i <= rs@.len(),
            active == win@.active,
            rect_wires_view(panes@) == rect_wires(win@, rs@.take(i as int)),
        decreases rs@.len() - i,
    {
        assert(rs@.take(i + 1).drop_last() =~= rs@.take(i as int));
        assert(rs@.take(i + 1).last() == rs@[i as int]);
        let (id, r) = rs[i];
        if let Some(p) = win.pane(id) {
            let ghost before = panes@;
            let wire = PaneRectWire {
                id: id.0,
                x: r.x,
                y: r.y,
                w: r.w,
                h: r.h,
                active: id == active,
                attention: p.attention().is_pending(),
                title: pane_title(p, id.0),
            };
            panes.push(wire);
            assert(rect_wires_view(panes@) =~= rect_wires_view(before).push(wire@));
        }
        i = i + 1;
    }
    assert(rs@.take(i as int) =~= rs@);
    panes
}

/// The layout of a session in an area of pixels. `branches` are the git branches of the windows'
/// directories, as far as they are known; `cut` cuts the share of a ratio off an extent.
pub fn layout<C: Fn(u32, u32) -> u32>(
    session: &Session,
    progress: &Vec<(u64, Progress)>,
    width: u32,
    height: u32,
    branches: &Vec<Option<String>>,
    cut: &C,
) -> (l: LayoutWire)
    requires
        session@.complete(),
        cutting(*cut),
        is_function(*cut),
    ensures
        l@ == layout_of(
            session@,
            width,
            height,
            opts_view(branches@),
            progress@,
            function_of(*cut),
        ),
{
    let at: usize = session.active_index();
    let windows = session.windows();
    let ghost want = tabs_of(session@, opts_view(branches@), progress@);
    let mut tabs: Vec<TabWire> = Vec::new();
    let mut i: usize = 0;
    while i < windows.len()
        invariant
            i <= windows@.len(),
            windows_view(windows@) == session@.windows,
            session@.complete(),
            at == session@.active,
            want == tabs_of(session@, opts_view(branches@), progress@),
            tabs@.len() == i,
            forall|j: int| 0 <= j < i ==> (#[trigger] tab_wires_view(tabs@)[j]) == want[j],
        decreases windows@.len() - i,
    {
        assert(session@.windows[i as int] == windows@[i as int]@);
        let branch = if i < branches.len() {
            assert(opts_view(branches@)[i as int] == opt_text(branches@[i as int]));
            clone_opt(&branches[i])
        } else {
            None
        };
        let ghost before = tabs@;
        let t = tab_wire(&windows[i], i, i == at, branch, progress);
        tabs.push(t);
        assert forall|j: int| 0 <= j < i + 1 implies (#[trigger] tab_wires_view(tabs@)[j])
            == want[j] by {
            if j < i {
                assert(tab_wires_view(tabs@)[j] == tab_wires_view(before)[j]);
            }
        }
        i = i + 1;
    }
    assert(tab_wires_view(tabs@) =~= want);
    proof {
        lemma_function(*cut);
    }
    match session.active_window() {
        Some(win) => {
            let rs = win.layout_rects(width, height, cut);
            LayoutWire {
                active_pane: win.active_id().0,
                tabs,
                panes: rects_on_wire(win, &rs),
                zoomed: win.zoomed(),
            }
        },
        None => {
            let panes: Vec<PaneRectWire> = Vec::new();
            assert(rect_wires_view(panes@) =~= Seq::empty());
            LayoutWire { active_pane: 0, tabs, panes, zoomed: false }
        },
    }
}

// ---------------------------------------------------------------------------
// Pane lists.
// ---------------------------------------------------------------------------

/// What is listed of a pane of a window.
pub open spec fn info_of(p: PaneView, window: WindowId, active: bool) -> PaneInfoView {
    PaneInfoView {
        id: p.id.0,
        window: window.0,
        active,
        title: p.title,
        cwd: p.cwd,
        cols: p.terminal.cols,
        rows: p.terminal.rows,
        attention: p.attention == Attention::Pending,
    }
}

/// A list with one more pane, in front of those with larger ids.
pub open spec fn placed_by_id(sorted: Seq<PaneInfoView>, p: PaneInfoView) -> Seq<PaneInfoView>
    decreases sorted.len(),
{
    if sorted.len() > 0 && sorted.last().id > p.id {
        placed_by_id(sorted.drop_last(), p).push(sorted.last())
    } else {
        sorted.push(p)
    }
}

/// A sorted list with the first `n` panes of a window.
pub open spec fn listed_panes(
    sorted: Seq<PaneInfoView>,
    s: SessionView,
    window: int,
    n: int,
) -> Seq<PaneInfoView>
    decreases n,
{
    if n <= 0 {
        sorted
    } else {
        let w = s.windows[window];
        let p = w.panes[n - 1];
        placed_by_id(
            listed_panes(sorted, s, window, n - 1),
            info_of(p, w.id, window == s.active && p.id == w.active),
        )
    }
}

/// All panes of the first `n` windows, by id.
pub open spec fn listed_windows(s: SessionView, n: int) -> Seq<PaneInfoView>
    decreases n,
{
    if n <= 0 {
        Seq::empty()
    } else {
        listed_panes(
            listed_windows(s, n - 1),
            s,
            n - 1,
            s.windows[n - 1].panes.len() as int,
        )
    }
}

fn place_by_id(sorted: &mut Vec<PaneInfo>, p: PaneInfo)
    ensures
        infos_view(final(sorted)@) == placed_by_id(infos_view(old(sorted)@), p@),
    decreases old(sorted)@.len(),
{
    let ghost before = infos_view(sorted@);
    if sorted.len() > 0 && sorted[sorted.len() - 1].id > p.id {
        if let Some(last) = sorted.pop() {
            assert(infos_view(sorted@) =~= before.drop_last());
            place_by_id(sorted, p);
            let ghost mid = infos_view(sorted@);
            sorted.push(last);
            assert(infos_view(sorted@) =~= mid.push(last@));
        }
    } else {
        sorted.push(p);
        assert(infos_view(sorted@) =~= before.push(p@));
    }
}

/// All panes of a session, by id.
pub fn list_panes(session: &Session) -> (panes: Vec<PaneInfo>)
    requires
        session@.wf(),
    ensures
        infos_view(panes@) == listed_windows(session@, session@.windows.len() as int),
{
    let at: usize = session.active_index();
    let windows = session.windows();
    let mut out: Vec<PaneInfo> = Vec::new();
    assert(infos_view(out@) =~= Seq::empty());
    let mut wi: usize = 0;
    while wi < windows.len()
        invariant
            wi <= windows@.len(),
            session@.wf(),
            windows_view(windows@) == session@.windows,
            at == session@.active,
            infos_view(out@) == listed_windows(session@, wi as int),
        decreases windows@.len() - wi,
    {
        let win = &windows[wi];
        assert(session@.windows[wi as int] == win@);
        let active = win.active_id();
        let panes = win.panes();
        let ghost start = infos_view(out@);
        let mut i: usize = 0;
        while i < panes.len()
            invariant
                i <= panes@.len(),
                wi < windows@.len(),
                session@.wf(),
                windows_view(windows@) == session@.windows,
                at == session@.active,
                active == win@.active,
                session@.windows[wi as int] == win@,
                panes_view(panes@) == win@.panes,
                infos_view(out@) == listed_panes(start, session@, wi as int, i as int),
            decreases panes@.len() - i,
        {
            let p = &panes[i];
            assert(win@.panes[i as int] == p@);
            assert(win@.wf());
            let snap = p.snapshot();
            let info = PaneInfo {
                id: p.pane_id().0,
                window: win.window_id().0,
                active: wi == at && p.pane_id() == active,
                title: p.title(),
                cwd: p.cwd(),
                cols: snap.cols,
                rows: snap.rows,
                attention: p.attention().is_pending(),
            };
            place_by_id(&mut out, info);
            i = i + 1;
        }
        wi = wi + 1;
    }
    out
}

// ---------------------------------------------------------------------------
// Laws.
// ---------------------------------------------------------------------------

/// Whether panes are listed by id.
pub open spec fn by_id(panes: Seq<PaneInfoView>) -> bool {
    forall|i: int, j: int|
        0 <= i < j < panes.len() ==> (#[trigger] panes[i]).id <= (#[trigger] panes[j]).id
}

proof fn lemma_placed(sorted: Seq<PaneInfoView>, p: PaneInfoView)
    requires
        by_id(sorted),
    ensures
        by_id(placed_by_id(sorted, p)),
        placed_by_id(sorted, p).to_multiset() == sorted.to_multiset().insert(p),
        placed_by_id(sorted, p).len() == sorted.len() + 1,
        forall|i: int|
            0 <= i < placed_by_id(sorted, p).len() ==> (#[trigger] placed_by_id(sorted, p)[i]).id
                <= (if sorted.len() > 0 && sorted.last().id > p.id {
                sorted.last().id
            } else {
                p.id
            }),
    decreases sorted.len(),
{
    broadcast use vstd::seq_lib::group_to_multiset_ensures;

    if sorted.len() > 0 && sorted.last().id > p.id {
        let front = sorted.drop_last();
        lemma_placed(front, p);
        let q = placed_by_id(front, p);
        assert(sorted =~= front.push(sorted.last()));
        assert(q.push(sorted.last()).to_multiset() =~= sorted.to_multiset().insert(p));
        if front.len() > 0 {
            assert(front.last() == sorted[sorted.len() - 2]);
            assert(sorted[sorted.len() - 2].id <= sorted[sorted.len() - 1].id);
        }
    } else {
        assert forall|i: int| 0 <= i < sorted.len() implies (#[trigger] sorted[i]).id <= p.id by {
            assert(sorted[i].id <= sorted[sorted.len() - 1].id);
        }
    }
}

/// The first `n` panes of a window behind a list, in the order of the window.
pub open spec fn with_panes(
    list: Seq<PaneInfoView>,
    s: SessionView,
    window: int,
    n: int,
) -> Seq<PaneInfoView>
    decreases n,
{
    if n <= 0 {
        list
    } else {
        let w = s.windows[window];
        let p = w.panes[n - 1];
        with_panes(list, s, window, n - 1).push(
            info_of(p, w.id, window == s.active && p.id == w.active),
        )
    }
}

/// All panes of the first `n` windows, in the order of the windows.
pub open spec fn all_panes(s: SessionView, n: int) -> Seq<PaneInfoView>
    decreases n,
{
    if n <= 0 {
        Seq::empty()
    } else {
        with_panes(all_panes(s, n - 1), s, n - 1, s.windows[n - 1].panes.len() as int)
    }
}

/// Pane lists are sorted by id, and hold the panes of every window, each as often as it is there.
pub proof fn pane_lists_are_sorted(s: SessionView, n: int)
    requires
        0 <= n <= s.windows.len(),
    ensures
        by_id(listed_windows(s, n)),
        listed_windows(s, n).to_multiset() == all_panes(s, n).to_multiset(),
        listed_windows(s, n).len() == crate::mux::session::pane_total(s.windows.take(n)),
    decreases n,
{
    if n > 0 {
        pane_lists_are_sorted(s, n - 1);
        assert(s.windows.take(n).drop_last() =~= s.windows.take(n - 1));
        lemma_listed(
            listed_windows(s, n - 1),
            all_panes(s, n - 1),
            s,
            n - 1,
            s.windows[n - 1].panes.len() as int,
        );
    } else {
        assert(s.windows.take(0) =~= Seq::empty());
    }
}

proof fn lemma_listed(
    sorted: Seq<PaneInfoView>,
    list: Seq<PaneInfoView>,
    s: SessionView,
    window: int,
    n: int,
)
    requires
        by_id(sorted),
        sorted.to_multiset() == list.to_multiset(),
        0 <= n,
    ensures
        by_id(listed_panes(sorted, s, window, n)),
        listed_panes(sorted, s, window, n).to_multiset() == with_panes(
            list,
            s,
            window,
            n,
        ).to_multiset(),
        listed_panes(sorted, s, window, n).len() == sorted.len() + n,
    decreases n,
{
    broadcast use vstd::seq_lib::group_to_multiset_ensures;

    if n > 0 {
        lemma_listed(sorted, list, s, window, n - 1);
        let w = s.windows[window];
        let p = w.panes[n - 1];
        lemma_placed(
            listed_panes(sorted, s, window, n - 1),
            info_of(p, w.id, window == s.active && p.id == w.active),
        );
    }
}

/// Each listed pane stands with the id of a window that holds it.
pub proof fn listed_panes_name_their_window(s: SessionView, n: int, i: int)
    requires
        0 <= n <= s.windows.len(),
        0 <= i < listed_windows(s, n).len(),
    ensures
        exists|w: int, k: int|
            0 <= w < n && 0 <= k < s.windows[w].panes.len() && (#[trigger] s.windows[w].panes[k]).id.0
                == listed_windows(s, n)[i].id && s.windows[w].id.0 == listed_windows(s, n)[i].window,
    decreases n,
{
    if n > 0 {
        let front = listed_windows(s, n - 1);
        assert forall|j: int| 0 <= j < front.len() implies placed_in(s, n, #[trigger] front[j]) by {
            listed_panes_name_their_window(s, n - 1, j);
            let (w, k) = choose|w: int, k: int|
                0 <= w < n - 1 && 0 <= k < s.windows[w].panes.len() && (
                #[trigger] s.windows[w].panes[k]).id.0 == front[j].id && s.windows[w].id.0
                    == front[j].window;
            assert(s.windows[w].panes[k].id.0 == front[j].id);
        }
        lemma_listed_in(s, front, n, s.windows[n - 1].panes.len() as int);
        assert(placed_in(s, n, listed_windows(s, n)[i]));
    }
}

/// Whether a listed pane is one of the first `n` windows, and names its window.
spec fn placed_in(s: SessionView, n: int, info: PaneInfoView) -> bool {
    exists|w: int, k: int|
        0 <= w < n && 0 <= k < s.windows[w].panes.len() && (#[trigger] s.windows[w].panes[k]).id.0
            == info.id && s.windows[w].id.0 == info.window
}

proof fn lemma_listed_in(s: SessionView, sorted: Seq<PaneInfoView>, n: int, m: int)
    requires
        0 < n <= s.windows.len(),
        0 <= m <= s.windows[n - 1].panes.len(),
        forall|j: int| 0 <= j < sorted.len() ==> placed_in(s, n, #[trigger] sorted[j]),
    ensures
        forall|j: int|
            0 <= j < listed_panes(sorted, s, n - 1, m).len() ==> placed_in(
                s,
                n,
                #[trigger] listed_panes(sorted, s, n - 1, m)[j],
            ),
    decreases m,
{
    if m > 0 {
        lemma_listed_in(s, sorted, n, m - 1);
        let w = s.windows[n - 1];
        let p = w.panes[m - 1];
        let info = info_of(p, w.id, n - 1 == s.active && p.id == w.active);
        assert(s.windows[n - 1].panes[m - 1].id.0 == info.id);
        assert(placed_in(s, n, info));
        lemma_placed_in(s, listed_panes(sorted, s, n - 1, m - 1), info, n);
    }
}

proof fn lemma_placed_in(s: SessionView, sorted: Seq<PaneInfoView>, p: PaneInfoView, n: int)
    requires
        placed_in(s, n, p),
        forall|j: int| 0 <= j < sorted.len() ==> placed_in(s, n, #[trigger] sorted[j]),
    ensures
        forall|j: int|
            0 <= j < placed_by_id(sorted, p).len() ==> placed_in(
                s,
                n,
                #[trigger] placed_by_id(sorted, p)[j],
            ),
    decreases sorted.len(),
{
    if sorted.len() > 0 && sorted.last().id > p.id {
        assert(sorted.last() == sorted[sorted.len() - 1]);
        assert forall|j: int| 0 <= j < sorted.drop_last().len() implies placed_in(
            s,
            n,
            #[trigger] sorted.drop_last()[j],
        ) by {
            assert(sorted.drop_last()[j] == sorted[j]);
        }
        lemma_placed_in(s, sorted.drop_last(), p, n);
        let front = placed_by_id(sorted.drop_last(), p);
        assert forall|j: int| 0 <= j < placed_by_id(sorted, p).len() implies placed_in(
            s,
            n,
            #[trigger] placed_by_id(sorted, p)[j],
        ) by {
            if j < front.len() {
                assert(placed_by_id(sorted, p)[j] == front[j]);
            }
        }
    } else {
        assert forall|j: int| 0 <= j < placed_by_id(sorted, p).len() implies placed_in(
            s,
            n,
            #[trigger] placed_by_id(sorted, p)[j],
        ) by {
            if j < sorted.len() {
                assert(placed_by_id(sorted, p)[j] == sorted[j]);
            }
        }
    }
}

/// Whether panes are listed by id, no id twice.
pub open spec fn strictly_by_id(panes: Seq<PaneInfoView>) -> bool {
    forall|i: int, j: int|
        0 <= i < j < panes.len() ==> (#[trigger] panes[i]).id < (#[trigger] panes[j]).id
}

/// Whether no listed pane has an id.
spec fn unlisted(panes: Seq<PaneInfoView>, id: u64) -> bool {
    forall|i: int| 0 <= i < panes.len() ==> (#[trigger] panes[i]).id != id
}

proof fn lemma_placed_once(sorted: Seq<PaneInfoView>, p: PaneInfoView)
    requires
        strictly_by_id(sorted),
        unlisted(sorted, p.id),
    ensures
        strictly_by_id(placed_by_id(sorted, p)),
        forall|id: u64|
            unlisted(sorted, id) && id != p.id ==> #[trigger] unlisted(placed_by_id(sorted, p), id),
        forall|i: int|
            0 <= i < placed_by_id(sorted, p).len() ==> (#[trigger] placed_by_id(sorted, p)[i]).id
                <= (if sorted.len() > 0 && sorted.last().id > p.id {
                sorted.last().id
            } else {
                p.id
            }),
    decreases sorted.len(),
{
    if sorted.len() > 0 && sorted.last().id > p.id {
        let front = sorted.drop_last();
        let last = sorted.last();
        assert(unlisted(front, p.id)) by {
            assert forall|i: int| 0 <= i < front.len() implies (#[trigger] front[i]).id != p.id by {
                assert(front[i] == sorted[i]);
            }
        }
        lemma_placed_once(front, p);
        let q = placed_by_id(front, p);
        let r = placed_by_id(sorted, p);
        assert(r == q.push(last));
        if front.len() > 0 {
            assert(front.last() == sorted[sorted.len() - 2]);
            assert(sorted[sorted.len() - 2].id < sorted[sorted.len() - 1].id);
        }
        assert forall|id: u64| unlisted(sorted, id) && id != p.id implies #[trigger] unlisted(
            r,
            id,
        ) by {
            assert forall|i: int| 0 <= i < front.len() implies (#[trigger] front[i]).id != id by {
                assert(front[i] == sorted[i]);
            }
            assert(unlisted(q, id));
            assert(sorted[sorted.len() - 1].id != id);
        }
    } else {
        let r = placed_by_id(sorted, p);
        assert forall|i: int| 0 <= i < sorted.len() implies (#[trigger] sorted[i]).id < p.id by {
            assert(sorted[i].id <= sorted[sorted.len() - 1].id);
        }
        assert forall|id: u64| unlisted(sorted, id) && id != p.id implies #[trigger] unlisted(
            r,
            id,
        ) by {
            assert forall|i: int| 0 <= i < r.len() implies (#[trigger] r[i]).id != id by {
                if i < sorted.len() {
                    assert(r[i] == sorted[i]);
                }
            }
        }
    }
}

proof fn lemma_listed_once(sorted: Seq<PaneInfoView>, s: SessionView, window: int, n: int)
    requires
        tidy(s),
        0 <= window < s.windows.len(),
        0 <= n <= s.windows[window].panes.len(),
        strictly_by_id(sorted),
        forall|k: int|
            0 <= k < s.windows[window].panes.len() ==> unlisted(
                sorted,
                (#[trigger] s.windows[window].panes[k]).id.0,
            ),
    ensures
        strictly_by_id(listed_panes(sorted, s, window, n)),
        forall|k: int|
            n <= k < s.windows[window].panes.len() ==> unlisted(
                listed_panes(sorted, s, window, n),
                (#[trigger] s.windows[window].panes[k]).id.0,
            ),
    decreases n,
{
    if n > 0 {
        lemma_listed_once(sorted, s, window, n - 1);
        let w = s.windows[window];
        let p = w.panes[n - 1];
        let front = listed_panes(sorted, s, window, n - 1);
        assert(unlisted(front, s.windows[window].panes[n - 1].id.0));
        lemma_placed_once(front, info_of(p, w.id, window == s.active && p.id == w.active));
        assert(distinct(w.panes));
        assert forall|k: int| n <= k < w.panes.len() implies unlisted(
            listed_panes(sorted, s, window, n),
            (#[trigger] s.windows[window].panes[k]).id.0,
        ) by {
            assert(unlisted(front, s.windows[window].panes[k].id.0));
            assert(w.panes[n - 1].id != w.panes[k].id);
        }
    }
}

/// Where no pane is held twice, pane lists ascend strictly: no id is listed twice.
pub proof fn pane_lists_name_each_pane_once(s: SessionView, n: int)
    requires
        0 <= n <= s.windows.len(),
        tidy(s),
    ensures
        strictly_by_id(listed_windows(s, n)),
    decreases n,
{
    if n > 0 {
        pane_lists_name_each_pane_once(s, n - 1);
        let front = listed_windows(s, n - 1);
        let panes = s.windows[n - 1].panes;
        assert forall|k: int| 0 <= k < panes.len() implies unlisted(
            front,
            (#[trigger] s.windows[n - 1].panes[k]).id.0,
        ) by {
            let id = panes[k].id;
            assert forall|i: int| 0 <= i < front.len() implies (#[trigger] front[i]).id != id.0 by {
                listed_panes_name_their_window(s, n - 1, i);
                let (w, j) = choose|w: int, j: int|
                    0 <= w < n - 1 && 0 <= j < s.windows[w].panes.len() && (
                    #[trigger] s.windows[w].panes[j]).id.0 == front[i].id && s.windows[w].id.0
                        == front[i].window;
                if front[i].id == id.0 {
                    lemma_holds(s.windows[w].panes, id);
                    lemma_holds(panes, id);
                    assert(s.windows[w].panes[j].id == id);
                    assert(panes[k].id == id);
                    assert(!(holds(s.windows[w].panes, id) && holds(s.windows[n - 1].panes, id)));
                }
            }
        }
        lemma_listed_once(front, s, n - 1, panes.len() as int);
    }
}

} // verus!
