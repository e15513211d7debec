//! What panes, windows and sessions do, in terms of what a user sees of them.
use vstd::prelude::*;
#[allow(unused_imports)]
use vstd::utf8::{
    encode_utf8, encode_utf8_decode_utf8, encode_utf8_valid_utf8, is_ascii_chars,
    is_ascii_chars_encode_utf8, is_char_boundary_iff_is_leading_byte,
    is_char_boundary_start_end_of_seq, utf8_byte_ranges_bitwise,
};

#[allow(unused_imports)]
use crate::mux::attention::Attention;
#[allow(unused_imports)]
use crate::mux::ids::{PaneId, SessionId, WindowId};
#[allow(unused_imports)]
use crate::mux::layout::{
    dragged, edge_resized, first_of, has_leaf, leaves_of, lemma_has_leaf, nearest, neighbor_of,
    rect_index, rects_of, resized, split_at, swapped, FocusDir, Node, Rect, SplitDir,
};
#[allow(unused_imports)]
use crate::mux::pane::{
    ended, marked_exited, noted, noted_all, pane_resized, pumped, remote_pane, local_pane, Backend,
    PaneEventView, PaneView, PtySize,
};
#[allow(unused_imports)]
use crate::mux::persist::{
    captured, captured_window, captured_windows, is_local, local_tree, record_of, screen_of,
    start_dir_of, without_blank_tail,
};
#[allow(unused_imports)]
use crate::mux::session::{
    added_window, extracted, focused, home_of, lemma_home, lemma_window_index, moved, mux_total,
    named_index, pane_in, pane_of, pane_total, removed_pane, session_index, window_index,
    without_window, SessionView,
};
#[allow(unused_imports)]
use crate::mux::window::{
    active_of, distinct, focused_dir, holds, lemma_pane_index, pane_index, unread_sum, window_info,
    window_name, window_rects, with_split, with_tree, without_active, WindowView,
};
#[allow(unused_imports)]
use crate::mux::workspace::{github_status, head_branch, path_name, status_of, PrStatus};
#[allow(unused_imports)]
use crate::text::{behind_slash, has_prefix, last_component, lemma_last_component, trim_seps, trimmed};
#[allow(unused_imports)]
use crate::vt::osc::{NotificationView, PromptMark, ProgressState, TermEventView};
#[allow(unused_imports)]
use crate::vt::terminal::{advanced, scrollback, TerminalView};

verus! {

// ---------------------------------------------------------------------------
// Trees and rectangles.
// ---------------------------------------------------------------------------

/// The two halves that a split makes of a rectangle, where the first gets `k` of its extent: side by
/// side, or one above the other.
pub open spec fn halves(dir: SplitDir, r: Rect, k: u32) -> (Rect, Rect) {
    match dir {
        SplitDir::Horizontal => (
            Rect { x: r.x, y: r.y, w: k, h: r.h },
            Rect { x: (r.x + k) as u32, y: r.y, w: (r.w - k) as u32, h: r.h },
        ),
        SplitDir::Vertical => (
            Rect { x: r.x, y: r.y, w: r.w, h: k },
            Rect { x: r.x, y: (r.y + k) as u32, w: r.w, h: (r.h - k) as u32 },
        ),
    }
}

/// A pane that is alone has the whole area. A split gives its first side the left or upper part,
/// and its second side the rest.
pub proof fn splits_divide_their_area(
    id: PaneId,
    dir: SplitDir,
    ratio: u32,
    a: Node,
    b: Node,
    area: Rect,
    f: spec_fn(u32, u32) -> u32,
)
    ensures
        rects_of(Node::Leaf(id), area, f) == seq![(id, area)],
        ({
            let n = Node::Split { dir, ratio, a: Box::new(a), b: Box::new(b) };
            let k = match dir {
                SplitDir::Horizontal => f(area.w, ratio),
                SplitDir::Vertical => f(area.h, ratio),
            };
            let (first, second) = halves(dir, area, k);
            rects_of(n, area, f) == rects_of(a, first, f) + rects_of(b, second, f)
        }),
{
}

/// Whether rectangles are others with the one at index `i`, of `target`, divided: `target` keeps the
/// left or upper half, `new` gets the right or lower one, and every other one stays.
pub open spec fn divided_at(
    rs: Seq<(PaneId, Rect)>,
    after: Seq<(PaneId, Rect)>,
    target: PaneId,
    dir: SplitDir,
    new: PaneId,
    f: spec_fn(u32, u32) -> u32,
    i: int,
) -> bool {
    let r = rs[i].1;
    let k = match dir {
        SplitDir::Horizontal => f(r.w, 0x3f00_0000),
        SplitDir::Vertical => f(r.h, 0x3f00_0000),
    };
    let (first, second) = halves(dir, r, k);
    &&& 0 <= i < rs.len()
    &&& rs[i].0 == target
    &&& after == rs.update(i, (target, first)).insert(i + 1, (new, second))
}

proof fn lemma_divided_beside(
    rs: Seq<(PaneId, Rect)>,
    after: Seq<(PaneId, Rect)>,
    front: Seq<(PaneId, Rect)>,
    back: Seq<(PaneId, Rect)>,
    target: PaneId,
    dir: SplitDir,
    new: PaneId,
    f: spec_fn(u32, u32) -> u32,
    i: int,
)
    requires
        divided_at(rs, after, target, dir, new, f, i),
    ensures
        divided_at(
            front + rs + back,
            front + after + back,
            target,
            dir,
            new,
            f,
            front.len() + i,
        ),
{
    let r = rs[i].1;
    let k = match dir {
        SplitDir::Horizontal => f(r.w, 0x3f00_0000),
        SplitDir::Vertical => f(r.h, 0x3f00_0000),
    };
    let (first, second) = halves(dir, r, k);
    let all = front + rs + back;
    let j = front.len() + i;
    assert(all[j] == rs[i]);
    assert(front + after + back =~= all.update(j, (target, first)).insert(j + 1, (new, second)));
}

/// Splitting a pane divides its rectangle in two: the pane keeps the left or upper half, the new
/// pane gets the right or lower one, and every other pane stays where it is.
pub proof fn splitting_divides_one_pane(
    n: Node,
    target: PaneId,
    dir: SplitDir,
    new: PaneId,
    area: Rect,
    f: spec_fn(u32, u32) -> u32,
)
    requires
        has_leaf(n, target),
    ensures
        split_at(n, target, dir, new) is Some,
        exists|i: int| #[trigger]
            divided_at(
                rects_of(n, area, f),
                rects_of(split_at(n, target, dir, new)->0, area, f),
                target,
                dir,
                new,
                f,
                i,
            ),
    decreases n,
{
    let rs = rects_of(n, area, f);
    crate::mux::layout::splitting_adds_one_leaf(n, target, dir, new);
    let m = split_at(n, target, dir, new)->0;
    let after = rects_of(m, area, f);
    match n {
        Node::Leaf(id) => {
            let k = match dir {
                SplitDir::Horizontal => f(area.w, 0x3f00_0000),
                SplitDir::Vertical => f(area.h, 0x3f00_0000),
            };
            let (first, second) = halves(dir, area, k);
            assert(rects_of(Node::Leaf(target), first, f) == seq![(target, first)]);
            assert(rects_of(Node::Leaf(new), second, f) == seq![(new, second)]);
            assert(after =~= rs.update(0, (target, first)).insert(1, (new, second)));
            assert(divided_at(rs, after, target, dir, new, f, 0));
        },
        Node::Split { dir: d, ratio, a, b } => {
            let part = f(crate::mux::layout::extent(d, area), ratio);
            let p = crate::mux::layout::first_part(d, area, part);
            let q = crate::mux::layout::second_part(d, area, part);
            let (ra, rb) = (rects_of(*a, p, f), rects_of(*b, q, f));
            crate::mux::layout::splitting_adds_one_leaf(*a, target, dir, new);
            if has_leaf(*a, target) {
                splitting_divides_one_pane(*a, target, dir, new, p, f);
                let below = rects_of(split_at(*a, target, dir, new)->0, p, f);
                let i = choose|i: int| #[trigger] divided_at(ra, below, target, dir, new, f, i);
                lemma_divided_beside(ra, below, Seq::empty(), rb, target, dir, new, f, i);
                assert(Seq::empty() + ra + rb =~= rs);
                assert(Seq::empty() + below + rb =~= after);
            } else {
                splitting_divides_one_pane(*b, target, dir, new, q, f);
                let below = rects_of(split_at(*b, target, dir, new)->0, q, f);
                let j = choose|j: int| #[trigger] divided_at(rb, below, target, dir, new, f, j);
                lemma_divided_beside(rb, below, ra, Seq::empty(), target, dir, new, f, j);
                assert(ra + rb + Seq::empty() =~= rs);
                assert(ra + below + Seq::empty() =~= after);
            }
        },
    }
}

/// Swapping puts each of two panes where the other was, and leaves every other one.
pub proof fn swapping_exchanges_two_places(n: Node, x: PaneId, y: PaneId, i: int)
    ensures
        leaves_of(swapped(n, x, y)).len() == leaves_of(n).len(),
        0 <= i < leaves_of(n).len() ==> leaves_of(swapped(n, x, y))[i] == (if leaves_of(n)[i] == x {
            y
        } else if leaves_of(n)[i] == y {
            x
        } else {
            leaves_of(n)[i]
        }),
    decreases n,
{
    if let Node::Split { dir, ratio, a, b } = n {
        swapping_exchanges_two_places(*a, x, y, i);
        swapping_exchanges_two_places(*b, x, y, i - leaves_of(*a).len());
        let s = swapped(n, x, y);
        assert(leaves_of(s) == leaves_of(swapped(*a, x, y)) + leaves_of(swapped(*b, x, y)));
    }
}

/// The first leaf is the first of the leaves.
pub proof fn the_first_leaf_is_first(n: Node)
    ensures
        leaves_of(n).len() > 0,
        first_of(n) == leaves_of(n)[0],
    decreases n,
{
    if let Node::Split { dir, ratio, a, b } = n {
        the_first_leaf_is_first(*a);
    }
}

/// Growing a pane changes the ratio of the split right above it, by the delta where it is the first
/// side and by the negated one where it is the second; in any other tree it is the same change
/// below.
pub proof fn growing_adjusts_the_split_above(
    dir: SplitDir,
    ratio: u32,
    a: Node,
    b: Node,
    t: PaneId,
    delta: u32,
    negated: u32,
    f: spec_fn(u32, u32) -> u32,
)
    ensures
        ({
            let split = |r: u32, x: Node, y: Node|
                Node::Split { dir, ratio: r, a: Box::new(x), b: Box::new(y) };
            let n = split(ratio, a, b);
            let got = resized(n, t, delta, negated, f);
            &&& a == Node::Leaf(t) ==> got == Some(split(f(ratio, delta), a, b))
            &&& a != Node::Leaf(t) && b == Node::Leaf(t) ==> got == Some(
                split(f(ratio, negated), a, b),
            )
            &&& a != Node::Leaf(t) && b != Node::Leaf(t) && resized(
                a,
                t,
                delta,
                negated,
                f,
            ) is Some ==> got == Some(split(ratio, resized(a, t, delta, negated, f)->0, b))
            &&& a != Node::Leaf(t) && b != Node::Leaf(t) && resized(
                a,
                t,
                delta,
                negated,
                f,
            ) is None && resized(b, t, delta, negated, f) is Some ==> got == Some(
                split(ratio, a, resized(b, t, delta, negated, f)->0),
            )
        }),
{
}

/// Dragging the divider behind a pane adjusts it: a side-by-side split whose first side is the pane
/// takes the horizontal delta, a stacked one the vertical delta; the other delta does nothing there,
/// and neither does a pane on the second side.
pub proof fn dragging_moves_the_divider_behind(
    ratio: u32,
    t: PaneId,
    b: Node,
    dh: u32,
    dv: u32,
    f: spec_fn(u32, u32) -> u32,
)
    requires
        dh != 0 && dh != 0x8000_0000,
        dv != 0 && dv != 0x8000_0000,
        !has_leaf(b, t),
    ensures
        ({
            let split = |d: SplitDir, r: u32, x: Node, y: Node|
                Node::Split { dir: d, ratio: r, a: Box::new(x), b: Box::new(y) };
            let leaf = Node::Leaf(t);
            let side = split(SplitDir::Horizontal, ratio, leaf, b);
            let stack = split(SplitDir::Vertical, ratio, leaf, b);
            let behind = split(SplitDir::Horizontal, ratio, b, leaf);
            &&& dragged(side, t, dh, 0, f) == (
                split(SplitDir::Horizontal, f(ratio, dh), leaf, b),
                true,
            )
            &&& dragged(side, t, 0, dv, f) == (side, false)
            &&& dragged(stack, t, 0, dv, f) == (
                split(SplitDir::Vertical, f(ratio, dv), leaf, b),
                true,
            )
            &&& dragged(stack, t, dh, 0, f) == (stack, false)
            &&& dragged(behind, t, dh, dv, f) == (behind, false)
            &&& dragged(side, t, 0, 0, f) == (side, false)
        }),
{
    let leaf = Node::Leaf(t);
    assert(edge_resized(leaf, t, SplitDir::Horizontal, dh, f) is None);
    assert(edge_resized(leaf, t, SplitDir::Vertical, dv, f) is None);
    assert(has_leaf(leaf, t));
}

/// A drag reaches the nearest divider: below a split whose first side holds the pane, the change is
/// made there if it can be, and at the split itself otherwise, if it runs that way; a split whose
/// second side holds the pane passes it down.
pub proof fn drags_reach_the_nearest_divider(
    dir: SplitDir,
    ratio: u32,
    a: Node,
    b: Node,
    t: PaneId,
    want: SplitDir,
    delta: u32,
    f: spec_fn(u32, u32) -> u32,
)
    ensures
        ({
            let split = |r: u32, x: Node, y: Node|
                Node::Split { dir, ratio: r, a: Box::new(x), b: Box::new(y) };
            let got = edge_resized(split(ratio, a, b), t, want, delta, f);
            let (below_a, below_b) = (
                edge_resized(a, t, want, delta, f),
                edge_resized(b, t, want, delta, f),
            );
            &&& has_leaf(a, t) && below_a is Some ==> got == Some(split(ratio, below_a->0, b))
            &&& has_leaf(a, t) && below_a is None && dir == want ==> got == Some(
                split(f(ratio, delta), a, b),
            )
            &&& has_leaf(a, t) && below_a is None && dir != want ==> got is None
            &&& !has_leaf(a, t) && below_b is Some ==> got == Some(split(ratio, a, below_b->0))
            &&& !has_leaf(a, t) && below_b is None ==> got is None
        }),
{
}

/// Whether the middle of one rectangle lies in a direction from that of another.
pub open spec fn in_direction(from: Rect, r: Rect, dir: FocusDir) -> bool {
    let (fx, fy) = (from.x + from.w / 2, from.y + from.h / 2);
    let (x, y) = (r.x + r.w / 2, r.y + r.h / 2);
    match dir {
        FocusDir::Left => x < fx,
        FocusDir::Right => x > fx,
        FocusDir::Up => y < fy,
        FocusDir::Down => y > fy,
    }
}

/// How far the middles of two rectangles are when moving in a direction: across it counts double.
pub open spec fn way(from: Rect, r: Rect, dir: FocusDir) -> int {
    let dx = (r.x + r.w / 2) - (from.x + from.w / 2);
    let dy = (r.y + r.h / 2) - (from.y + from.h / 2);
    let (ax, ay) = (
        if dx < 0 {
            -dx
        } else {
            dx
        },
        if dy < 0 {
            -dy
        } else {
            dy
        },
    );
    match dir {
        FocusDir::Left | FocusDir::Right => ax + 2 * ay,
        FocusDir::Up | FocusDir::Down => ay + 2 * ax,
    }
}

proof fn lemma_rect_index(rs: Seq<(PaneId, Rect)>, id: PaneId, from: int)
    requires
        0 <= from <= rs.len(),
    ensures
        match rect_index(rs, id, from) {
            Some(i) => from <= i < rs.len() && rs[i].0 == id && forall|j: int|
                from <= j < i ==> (#[trigger] rs[j]).0 != id,
            None => forall|j: int| from <= j < rs.len() ==> (#[trigger] rs[j]).0 != id,
        },
    decreases rs.len() - from,
{
    if from < rs.len() && rs[from].0 != id {
        lemma_rect_index(rs, id, from + 1);
    }
}

/// Focus moves left to a pane whose middle is further left, right to one further right, up to one
/// further up and down to one further down: to the nearest such pane, where a step across the
/// direction counts double. Where there is none, it stays.
pub proof fn focus_moves_in_its_direction(
    rs: Seq<(PaneId, Rect)>,
    active: PaneId,
    dir: FocusDir,
    at: int,
    i: int,
)
    requires
        0 <= at < rs.len(),
        rs[at].0 == active,
        forall|j: int| 0 <= j < at ==> (#[trigger] rs[j]).0 != active,
    ensures
        ({
            let cur = rs[at].1;
            let (cx, cy) = (cur.x + cur.w / 2, cur.y + cur.h / 2);
            match neighbor_of(rs, active, dir) {
                Some(p) => exists|k: int|
                    {
                        let r = (#[trigger] rs[k]).1;
                        let (x, y) = (r.x + r.w / 2, r.y + r.h / 2);
                        &&& 0 <= k < rs.len()
                        &&& rs[k].0 == p
                        &&& p != active
                        &&& match dir {
                            FocusDir::Left => x < cx,
                            FocusDir::Right => x > cx,
                            FocusDir::Up => y < cy,
                            FocusDir::Down => y > cy,
                        }
                        &&& 0 <= i < rs.len() && rs[i].0 != active && in_direction(
                            cur,
                            rs[i].1,
                            dir,
                        ) ==> way(cur, r, dir) <= way(cur, rs[i].1, dir)
                    },
                None => 0 <= i < rs.len() && rs[i].0 != active ==> {
                    let r = rs[i].1;
                    let (x, y) = (r.x + r.w / 2, r.y + r.h / 2);
                    match dir {
                        FocusDir::Left => x >= cx,
                        FocusDir::Right => x <= cx,
                        FocusDir::Up => y >= cy,
                        FocusDir::Down => y <= cy,
                    }
                },
            }
        }),
{
    lemma_rect_index(rs, active, 0);
    let cur = rs[at].1;
    assert(rect_index(rs, active, 0) == Some(at));
    crate::mux::layout::focus_moves_to_the_nearest(rs, active, cur, dir, rs.len() as int);
    if 0 <= i < rs.len() {
        assert(crate::mux::layout::lies(cur, rs[i].1, dir) == in_direction(cur, rs[i].1, dir));
        assert(crate::mux::layout::distance(cur, rs[i].1, dir) == way(cur, rs[i].1, dir));
        if rs[i].0 != active && in_direction(cur, rs[i].1, dir) {
            assert(crate::mux::layout::reachable(rs, active, cur, dir, i));
        }
    }
    if let Some(k) = nearest(rs, active, cur, dir, rs.len() as int) {
        assert(crate::mux::layout::distance(cur, rs[k].1, dir) == way(cur, rs[k].1, dir));
        assert(rs[k].0 == neighbor_of(rs, active, dir)->0);
    }
}

// ---------------------------------------------------------------------------
// Windows.
// ---------------------------------------------------------------------------

/// A zoomed window shows the active pane alone, on the whole area; otherwise the panes share it as
/// the tree says.
pub proof fn zooming_shows_the_active_pane_alone(
    w: WindowView,
    width: u32,
    height: u32,
    f: spec_fn(u32, u32) -> u32,
)
    ensures
        w.zoom ==> window_rects(w, width, height, f) == seq![
            (w.active, Rect { x: 0, y: 0, w: width, h: height }),
        ],
        !w.zoom ==> window_rects(w, width, height, f) == rects_of(
            w.root,
            Rect { x: 0, y: 0, w: width, h: height },
            f,
        ),
{
}

proof fn lemma_listed_leaf(n: Node, area: Rect, f: spec_fn(u32, u32) -> u32, id: PaneId)
    requires
        has_leaf(n, id),
    ensures
        exists|i: int|
            0 <= i < rects_of(n, area, f).len() && (#[trigger] rects_of(n, area, f)[i]).0 == id,
    decreases n,
{
    let rs = rects_of(n, area, f);
    match n {
        Node::Leaf(x) => {
            assert(rs[0].0 == id);
        },
        Node::Split { dir, ratio, a, b } => {
            let part = f(crate::mux::layout::extent(dir, area), ratio);
            let p = crate::mux::layout::first_part(dir, area, part);
            let q = crate::mux::layout::second_part(dir, area, part);
            let (ra, rb) = (rects_of(*a, p, f), rects_of(*b, q, f));
            if has_leaf(*a, id) {
                lemma_listed_leaf(*a, p, f, id);
                let i = choose|i: int| 0 <= i < ra.len() && (#[trigger] ra[i]).0 == id;
                assert(rs[i] == ra[i]);
            } else {
                lemma_listed_leaf(*b, q, f, id);
                let i = choose|i: int| 0 <= i < rb.len() && (#[trigger] rb[i]).0 == id;
                assert(rs[ra.len() + i] == rb[i]);
            }
        },
    }
}

/// The active pane is always shown, zoomed or not; unzoomed, so is every other pane.
pub proof fn the_active_pane_is_shown(
    w: WindowView,
    width: u32,
    height: u32,
    f: spec_fn(u32, u32) -> u32,
    id: PaneId,
)
    requires
        w.complete(),
        id == w.active || (!w.zoom && holds(w.panes, id)),
    ensures
        exists|i: int|
            0 <= i < window_rects(w, width, height, f).len() && (#[trigger] window_rects(
                w,
                width,
                height,
                f,
            )[i]).0 == id,
{
    let area = Rect { x: 0, y: 0, w: width, h: height };
    assert(has_leaf(w.root, id) == holds(w.panes, id));
    if w.zoom {
        assert(window_rects(w, width, height, f)[0].0 == id);
    } else {
        lemma_listed_leaf(w.root, area, f, id);
        let rs = rects_of(w.root, area, f);
        let i = choose|i: int| 0 <= i < rs.len() && (#[trigger] rs[i]).0 == id;
        assert(window_rects(w, width, height, f)[i].0 == id);
    }
}

/// Splitting a window splits its active pane, whose tree gets the new pane; the new pane joins the
/// others, takes the focus, and ends the zoom. What the user set stays.
pub proof fn splitting_a_window_splits_its_active_pane(w: WindowView, dir: SplitDir, p: PaneView)
    requires
        w.complete(),
        !holds(w.panes, p.id),
    ensures
        ({
            let s = with_split(w, dir, p);
            &&& Some(s.root) == split_at(w.root, w.active, dir, p.id)
            &&& s.panes == w.panes.push(p)
            &&& s.active == p.id
            &&& !s.zoom
            &&& s.id == w.id
            &&& s.name == w.name
            &&& s.group == w.group
            &&& s.color == w.color
            &&& s.pr == w.pr
            &&& s.workspace_dir == w.workspace_dir
        }),
{
    assert(has_leaf(w.root, w.active) == holds(w.panes, w.active));
    crate::mux::layout::splitting_adds_one_leaf(w.root, w.active, dir, p.id);
}

/// Closing the active pane takes exactly that pane away; the others keep their order, and the first
/// of them that the tree shows takes the focus.
pub proof fn closing_takes_the_active_pane(w: WindowView, k: int)
    requires
        w.wf(),
        0 <= k < w.panes.len(),
        w.panes[k].id == w.active,
        exists|id: PaneId| has_leaf(w.root, id) && id != w.active,
    ensures
        ({
            let s = without_active(w);
            &&& s.panes == w.panes.remove(k)
            &&& leaves_of(s.root) == leaves_of(w.root).filter(|id: PaneId| id != w.active)
            &&& s.active == leaves_of(s.root)[0]
            &&& !s.zoom
            &&& s.id == w.id
            &&& s.name == w.name
            &&& s.group == w.group
            &&& s.color == w.color
            &&& s.pr == w.pr
            &&& s.workspace_dir == w.workspace_dir
        }),
{
    lemma_pane_index(w.panes, w.active, 0);
    let i = pane_index(w.panes, w.active, 0)->0;
    if i < k {
        assert(w.panes[i].id != w.panes[k].id);
    } else if k < i {
        assert(w.panes[k].id != w.panes[i].id);
    }
    crate::mux::layout::removing_keeps_order(w.root, w.active);
    crate::mux::layout::removing_keeps_the_others(w.root, w.active);
    the_first_leaf_is_first(without_active(w).root);
}

/// Where the tree of a window is replaced, the focus stays on its pane if the tree still shows it,
/// and goes to the first pane of the tree otherwise; what the user set stays.
pub proof fn a_new_tree_keeps_the_focus(w: WindowView, root: Node, added: Seq<PaneView>)
    requires
        w.wf(),
    ensures
        ({
            let s = with_tree(w, root, added);
            &&& s.root == root
            &&& has_leaf(root, w.active) && (holds(w.panes, w.active) || holds(added, w.active))
                ==> s.active == w.active
            &&& !has_leaf(root, w.active) ==> s.active == leaves_of(root)[0]
            &&& s.zoom == w.zoom
            &&& s.id == w.id
            &&& s.name == w.name
            &&& s.group == w.group
            &&& s.color == w.color
            &&& s.pr == w.pr
            &&& s.workspace_dir == w.workspace_dir
        }),
{
    crate::mux::window::a_new_tree_decides_who_stays(w, root, added, w.active);
    the_first_leaf_is_first(root);
}

/// A window is called what the user called it; else by the last part of the directory of its active
/// pane; else "shell". It waits for the user while one of its panes does, and counts the unread
/// notifications of all of them.
pub proof fn windows_are_described_by_their_panes(w: WindowView, branch: Option<Seq<char>>, k: int)
    requires
        w.wf(),
        0 <= k < w.panes.len(),
        w.panes[k].id == w.active,
    ensures
        ({
            let info = window_info(w, branch);
            let p = w.panes[k];
            &&& w.name matches Some(n) ==> info.name == n
            &&& w.name is None && p.cwd is None ==> info.name == "shell"@
            &&& w.name is None ==> (p.cwd matches Some(d) ==> info.name == (if path_name(d).len()
                > 0 {
                path_name(d)
            } else {
                "shell"@
            }))
            &&& info.cwd == p.cwd
            &&& info.branch == branch
            &&& info.attention == exists|i: int|
                0 <= i < w.panes.len() && (#[trigger] w.panes[i]).attention == Attention::Pending
            &&& unread_sum(w.panes) <= u32::MAX ==> info.unread == unread_sum(w.panes)
        }),
{
    lemma_pane_index(w.panes, w.active, 0);
    let i = pane_index(w.panes, w.active, 0)->0;
    if i < k {
        assert(w.panes[i].id != w.panes[k].id);
    } else if k < i {
        assert(w.panes[k].id != w.panes[i].id);
    }
}

/// Unread notifications add up.
pub proof fn unread_notifications_add_up(panes: Seq<PaneView>, p: PaneView)
    ensures
        unread_sum(Seq::empty()) == 0,
        unread_sum(panes.push(p)) == unread_sum(panes) + p.unread,
{
    assert(panes.push(p).drop_last() =~= panes);
}

proof fn lemma_trim_seps(s: Seq<char>)
    ensures
        trim_seps(s).len() <= s.len(),
        trim_seps(s) == s.take(trim_seps(s).len() as int),
        forall|i: int|
            trim_seps(s).len() <= i < s.len() ==> #[trigger] s[i] == '/' || s[i] == '\\',
        trim_seps(s).len() > 0 ==> trim_seps(s).last() != '/' && trim_seps(s).last() != '\\',
    decreases s.len(),
{
    if s.len() > 0 && crate::text::path_sep(s.last()) {
        let front = s.drop_last();
        lemma_trim_seps(front);
        let n = trim_seps(s).len();
        assert(front.take(n as int) =~= s.take(n as int));
        assert forall|i: int| n <= i < s.len() implies #[trigger] s[i] == '/' || s[i] == '\\' by {
            if i < front.len() {
                assert(front[i] == s[i]);
            }
        }
    } else {
        assert(s.take(s.len() as int) =~= s);
    }
}

/// The name of a directory is its last part: behind the last slash or backslash that is not at the
/// end, and without those at the end.
pub proof fn directory_names_are_their_last_part(cwd: Seq<char>)
    ensures
        ({
            let name = path_name(cwd);
            let sep = |c: char| c == '/' || c == '\\';
            exists|from: int, to: int|
                {
                    &&& 0 <= from <= to <= cwd.len()
                    &&& name == #[trigger] cwd.subrange(from, to)
                    &&& forall|i: int| from <= i < to ==> !sep(#[trigger] cwd[i])
                    &&& forall|i: int| to <= i < cwd.len() ==> sep(#[trigger] cwd[i])
                    &&& from > 0 ==> sep(cwd[from - 1])
                }
        }),
{
    let s = trim_seps(cwd);
    lemma_trim_seps(cwd);
    lemma_last_component(s);
    let name = path_name(cwd);
    let to = s.len() as int;
    let from = to - name.len();
    assert(name =~= cwd.subrange(from, to));
    assert forall|i: int| from <= i < to implies !(#[trigger] cwd[i] == '/' || cwd[i] == '\\') by {
        assert(name[i - from] == cwd[i]);
    }
    if from > 0 {
        assert(s[from - 1] == cwd[from - 1]);
    }
}

// ---------------------------------------------------------------------------
// Panes.
// ---------------------------------------------------------------------------

/// What a pane makes of what its terminal reports: a notification is unread and asks for attention,
/// a bell asks for attention, a title and a directory are remembered, and all that is told waits in
/// order; nothing else changes.
pub proof fn panes_note_what_is_reported(
    p: PaneView,
    n: NotificationView,
    s: Seq<char>,
    state: ProgressState,
    pct: Option<u8>,
    mark: PromptMark,
)
    ensures
        noted(p, TermEventView::Notification(n)) == (PaneView {
            attention: Attention::Pending,
            unread: if p.unread < u32::MAX {
                (p.unread + 1) as u32
            } else {
                u32::MAX
            },
            events: p.events.push(PaneEventView::Notification(n)),
            ..p
        }),
        noted(p, TermEventView::Bell) == (PaneView {
            attention: Attention::Pending,
            events: p.events.push(PaneEventView::Bell),
            ..p
        }),
        noted(p, TermEventView::Title(s)) == (PaneView {
            title: s,
            events: p.events.push(PaneEventView::Title(s)),
            ..p
        }),
        noted(p, TermEventView::Cwd(s)) == (PaneView {
            cwd: Some(s),
            events: p.events.push(PaneEventView::Cwd(s)),
            ..p
        }),
        noted(p, TermEventView::Progress { state, pct }) == (PaneView {
            events: p.events.push(PaneEventView::Progress { state, pct }),
            ..p
        }),
        noted(p, TermEventView::Clipboard(s)) == (PaneView {
            events: p.events.push(PaneEventView::Clipboard(s)),
            ..p
        }),
        noted(p, TermEventView::Damage) == p,
        noted(p, TermEventView::PromptMark(mark)) == p,
{
}

/// A pane notes what is reported in order; output goes to its terminal, and ends with one event
/// that the grid changed.
pub proof fn panes_note_in_order(
    p: PaneView,
    es: Seq<TermEventView>,
    e: TermEventView,
    bytes: Seq<u8>,
)
    ensures
        noted_all(p, Seq::empty()) == p,
        noted_all(p, es.push(e)) == noted(noted_all(p, es), e),
        bytes.len() > 0 ==> ({
            let q = pumped(p, bytes);
            let (t, told) = advanced(p.terminal, bytes);
            let r = noted_all(PaneView { terminal: t, ..p }, told);
            &&& q.events == r.events.push(PaneEventView::Output)
            &&& q == (PaneView { events: q.events, ..r })
            &&& q.terminal == t
        }),
        bytes.len() == 0 ==> pumped(p, bytes) == p,
{
    assert(es.push(e).drop_last() =~= es);
    let (t, told) = advanced(p.terminal, bytes);
    lemma_noted_keeps_terminal(PaneView { terminal: t, ..p }, told);
    if bytes.len() == 0 {
        crate::vt::terminal::damage_marks_every_chunk(p.terminal, bytes);
    }
}

proof fn lemma_noted_keeps_terminal(p: PaneView, es: Seq<TermEventView>)
    ensures
        noted_all(p, es).terminal == p.terminal,
    decreases es.len(),
{
    if es.len() > 0 {
        lemma_noted_keeps_terminal(p, es.drop_last());
    }
}

/// A pane whose program ended is dead, and tells so if it was alive; nothing else changes. Only a
/// mirror can be marked as gone.
pub proof fn ended_panes_are_dead(p: PaneView)
    ensures
        p.alive ==> ended(p) == (PaneView {
            alive: false,
            events: p.events.push(PaneEventView::Exited),
            ..p
        }),
        !p.alive ==> ended(p) == p,
        p.backend is Local ==> marked_exited(p) == p,
        p.backend is Remote ==> marked_exited(p) == ended(p),
{
}

/// A new pane is alive, quiet and idle, with nothing read, said or waiting.
pub proof fn new_panes_are_quiet(
    id: PaneId,
    remote: u64,
    cols: u16,
    rows: u16,
    replay: Option<Seq<char>>,
)
    ensures
        ({
            let fresh = |p: PaneView|
                p.id == id && p.alive && !p.busy && p.attention == Attention::Quiet && p.unread == 0
                    && p.events.len() == 0 && p.title.len() == 0 && p.cwd is None;
            let mirror = remote_pane(id, remote, cols, rows);
            let local = local_pane(id, PtySize { cols, rows }, replay);
            &&& fresh(mirror)
            &&& fresh(local)
            &&& mirror.remote_id() == Some(remote)
            &&& local.remote_id() is None
            &&& cols > 0 ==> mirror.terminal.cols == cols && local.terminal.cols == cols
            &&& rows > 0 ==> mirror.terminal.rows == rows && local.terminal.rows == rows
        }),
{
    if let Some(r) = replay {
        crate::vt::terminal::lemma_advance_keeps_size(
            crate::vt::terminal::blank_terminal(cols, rows),
            vstd::utf8::encode_utf8(r),
        );
    }
}

/// A resized pane has the new size, at least one cell, and is the same pane otherwise; where the
/// size stays, nothing changes.
pub proof fn resized_panes_have_their_size(p: PaneView, size: PtySize)
    ensures
        ({
            let q = pane_resized(p, size);
            &&& q == (PaneView { terminal: q.terminal, ..p })
            &&& q.terminal.palette == p.terminal.palette
            &&& q.terminal.partials == p.terminal.partials
            &&& q.terminal.chunks == p.terminal.chunks
            &&& p.wf() && size.cols > 0 ==> q.terminal.cols == size.cols
            &&& p.wf() && size.rows > 0 ==> q.terminal.rows == size.rows
            &&& p.terminal.cols == size.cols && p.terminal.rows == size.rows ==> q == p
            &&& size.cols > 1 && size.rows > 0 && !(p.terminal.cols == size.cols
                && p.terminal.rows == size.rows) ==> q.terminal.ops == p.terminal.ops.push(
                crate::vt::emulator::Operation::Resize {
                    cols: size.cols as nat,
                    rows: size.rows as nat,
                },
            )
            &&& p.terminal.cols == size.cols && size.cols > 0 ==> q.terminal.prompts
                == p.terminal.prompts
            &&& p.terminal.cols != size.cols && size.cols > 0 ==> q.terminal.prompts.len() == 0
        }),
{
}

// ---------------------------------------------------------------------------
// Sessions.
// ---------------------------------------------------------------------------

/// A window that is moved stands where it was moved to, and the others keep their order; a place
/// behind the end counts as the end.
pub proof fn moving_a_window_keeps_the_others_in_order(s: SessionView, from: nat, to: nat)
    requires
        from < s.windows.len(),
    ensures
        ({
            let m = moved(s, from, to);
            let at = if to < s.windows.len() {
                to as int
            } else {
                s.windows.len() - 1
            };
            &&& m.windows.len() == s.windows.len()
            &&& m.windows[at] == s.windows[from as int]
            &&& m.windows.remove(at) =~= s.windows.remove(from as int)
        }),
{
}

/// A window that is added stands last and has the focus. One that is closed is gone, the others keep
/// their order, and the focus stays on its window, or on the one that takes its place.
pub proof fn windows_come_last_and_go(s: SessionView, w: WindowView, i: int)
    requires
        0 <= i < s.windows.len(),
        s.active < s.windows.len(),
    ensures
        added_window(s, w).windows == s.windows.push(w),
        added_window(s, w).active == s.windows.len(),
        without_window(s, i).windows == s.windows.remove(i),
        i != s.active ==> without_window(s, i).windows[without_window(s, i).active as int]
            == s.windows[s.active as int],
        i == s.active && i + 1 < s.windows.len() ==> without_window(s, i).active == i,
        i == s.active && i + 1 == s.windows.len() && i > 0 ==> without_window(s, i).active == i - 1,
{
}

// ---------------------------------------------------------------------------
// Saving.
// ---------------------------------------------------------------------------

/// Whether a pane of a window is the mirror of a remote one.
pub open spec fn is_mirror(w: WindowView, id: PaneId) -> bool {
    exists|k: int|
        0 <= k < w.panes.len() && (#[trigger] w.panes[k]).id == id && w.panes[k].backend is Remote
}

proof fn lemma_is_local(w: WindowView, id: PaneId)
    requires
        distinct(w.panes),
    ensures
        is_local(w, id) == !is_mirror(w, id),
{
    lemma_pane_index(w.panes, id, 0);
    if let Some(i) = pane_index(w.panes, id, 0) {
        if is_mirror(w, id) {
            let k = choose|k: int|
                0 <= k < w.panes.len() && (#[trigger] w.panes[k]).id == id
                    && w.panes[k].backend is Remote;
            if i < k {
                assert(w.panes[i].id != w.panes[k].id);
            }
        }
        assert(w.panes[i].id == id);
    }
}

proof fn lemma_local_leaves(w: WindowView, n: Node)
    requires
        distinct(w.panes),
    ensures
        (match local_tree(w, n) {
            Some(t) => leaves_of(t),
            None => Seq::empty(),
        }) == leaves_of(n).filter(|id: PaneId| !is_mirror(w, id)),
    decreases n,
{
    let keep = |id: PaneId| !is_mirror(w, id);
    match n {
        Node::Leaf(id) => {
            lemma_is_local(w, id);
            let s = seq![id];
            assert(s.drop_last() =~= Seq::empty());
            reveal(Seq::filter);
            assert(s.drop_last().filter(keep) =~= Seq::empty());
            assert(s.filter(keep) =~= (if keep(id) {
                seq![id]
            } else {
                Seq::empty()
            }));
        },
        Node::Split { dir, ratio, a, b } => {
            lemma_local_leaves(w, *a);
            lemma_local_leaves(w, *b);
            Seq::filter_distributes_over_add(leaves_of(*a), leaves_of(*b), keep);
            let (x, y) = (leaves_of(*a).filter(keep), leaves_of(*b).filter(keep));
            assert(x + Seq::empty() =~= x);
            assert(Seq::<PaneId>::empty() + y =~= y);
        },
    }
}

proof fn lemma_blank_tail(lines: Seq<Seq<char>>)
    ensures
        ({
            let s = without_blank_tail(lines);
            &&& s.len() <= lines.len()
            &&& s == lines.take(s.len() as int)
            &&& forall|i: int| s.len() <= i < lines.len() ==> (#[trigger] lines[i]).len() == 0
            &&& s.len() > 0 ==> s.last().len() > 0
        }),
    decreases lines.len(),
{
    let s = without_blank_tail(lines);
    if lines.len() > 0 && lines.last().len() == 0 {
        let front = lines.drop_last();
        lemma_blank_tail(front);
        assert(front.take(s.len() as int) =~= lines.take(s.len() as int));
        assert forall|i: int| s.len() <= i < lines.len() implies (#[trigger] lines[i]).len() == 0 by {
            if i < front.len() {
                assert(front[i] == lines[i]);
            }
        }
    } else {
        assert(lines.take(lines.len() as int) =~= lines);
    }
}

/// What is saved of a window is its local panes, in the order of its leaves; nothing where it has
/// none. Each record holds the directory that its pane last reported, so that a pane of a window
/// without a directory of its own starts there again. With screens, it holds the newest 200 lines
/// without empty ones at the end; the active pane is saved as the active one.
pub proof fn saved_panes_keep_their_directory(w: WindowView, include_screen: bool, i: int)
    requires
        w.complete(),
    ensures
        ({
            let local = leaves_of(w.root).filter(|id: PaneId| !is_mirror(w, id));
            match captured_window(w, include_screen) {
                None => local.len() == 0,
                Some(s) => {
                    &&& local.len() > 0
                    &&& s.panes.len() == local.len()
                    &&& 0 <= i < local.len() ==> exists|k: int|
                        {
                            let p = #[trigger] w.panes[k];
                            let lines = scrollback(p.terminal, 200);
                            let screen = s.panes[i].screen;
                            &&& 0 <= k < w.panes.len()
                            &&& p.id == local[i]
                            &&& s.panes[i].cwd == p.cwd
                            &&& w.workspace_dir is None ==> start_dir_of(s, i) == p.cwd
                            &&& w.workspace_dir is Some ==> start_dir_of(s, i) == w.workspace_dir
                            &&& include_screen ==> {
                                &&& screen.len() <= lines.len()
                                &&& screen == lines.take(screen.len() as int)
                                &&& forall|l: int|
                                    screen.len() <= l < lines.len() ==> (#[trigger] lines[l]).len()
                                        == 0
                                &&& screen.len() > 0 ==> screen.last().len() > 0
                            }
                            &&& !include_screen ==> screen.len() == 0
                        }
                    &&& local.contains(w.active) ==> s.active < local.len()
                        && local[s.active as int] == w.active
                },
            }
        }),
{
    let local = leaves_of(w.root).filter(|id: PaneId| !is_mirror(w, id));
    lemma_local_leaves(w, w.root);
    if let Some(s) = captured_window(w, include_screen) {
        let tree = local_tree(w, w.root)->0;
        let ids = leaves_of(tree);
        assert(ids == local);
        the_first_leaf_is_first(tree);
        if 0 <= i < ids.len() {
            assert(leaves_of(w.root).contains(local[i])) by {
                assert(local.contains(local[i]));
                leaves_of(w.root).lemma_filter_contains_rev(
                    |id: PaneId| !is_mirror(w, id),
                    local[i],
                );
            }
            lemma_has_leaf(w.root, local[i]);
            assert(has_leaf(w.root, local[i]));
            assert(holds(w.panes, local[i]));
            lemma_pane_index(w.panes, local[i], 0);
            let k = pane_index(w.panes, local[i], 0)->0;
            let p = w.panes[k];
            lemma_blank_tail(scrollback(p.terminal, 200));
            assert(s.panes[i] == record_of(w, ids[i], include_screen));
            assert(w.panes[k].id == local[i]);
        }
        lemma_last_at(ids, w.active, ids.len() as int);
    }
}

proof fn lemma_last_at(ids: Seq<PaneId>, id: PaneId, n: int)
    requires
        0 <= n <= ids.len(),
    ensures
        (exists|i: int| 0 <= i < n && #[trigger] ids[i] == id) ==> ({
            let at = crate::mux::persist::last_index(ids, id, n);
            at < n && ids[at as int] == id
        }),
    decreases n,
{
    if n > 0 && ids[n - 1] != id {
        lemma_last_at(ids, id, n - 1);
    }
}

/// A snapshot is of the current format, and the first window is the active one where the active
/// window is not saved.
pub proof fn snapshots_fall_back_to_the_first_window(s: SessionView, include_screen: bool)
    ensures
        captured(s, include_screen).version == 1,
        s.active < s.windows.len() && captured_window(
            s.windows[s.active as int],
            include_screen,
        ) is None ==> captured(s, include_screen).active == 0,
{
}

// ---------------------------------------------------------------------------
// Pull requests and branches.
// ---------------------------------------------------------------------------

/// What GitHub says of a pull request: open ones are open or drafts, and merged and closed ones are
/// what they are, draft or not.
pub proof fn pull_requests_have_their_state(draft: bool)
    ensures
        github_status("OPEN"@, false) == Some(PrStatus::Open),
        github_status("OPEN"@, true) == Some(PrStatus::Draft),
        github_status("MERGED"@, draft) == Some(PrStatus::Merged),
        github_status("CLOSED"@, draft) == Some(PrStatus::Closed),
{
    reveal_strlit("OPEN");
    reveal_strlit("MERGED");
    reveal_strlit("CLOSED");
    reveal_strlit("open");
    reveal_strlit("merged");
    reveal_strlit("closed");
    reveal_with_fuel(crate::text::trim_start_at, 2);
    reveal_with_fuel(crate::text::trim_end_at, 2);
    assert(trimmed("OPEN"@) =~= "OPEN"@);
    assert(trimmed("MERGED"@) =~= "MERGED"@);
    assert(trimmed("CLOSED"@) =~= "CLOSED"@);
    assert(crate::text::ascii_lower("OPEN"@) =~= "open"@);
    assert(crate::text::ascii_lower("MERGED"@) =~= "merged"@);
    assert(crate::text::ascii_lower("CLOSED"@) =~= "closed"@);
    assert("closed"@[0] != "merged"@[0]);
}

proof fn lemma_behind_slash(s: Seq<char>)
    ensures
        ({
            let b = behind_slash(s);
            &&& b.len() <= s.len()
            &&& b == s.skip(s.len() - b.len())
            &&& forall|i: int| 0 <= i < b.len() ==> #[trigger] b[i] != '/'
            &&& b.len() < s.len() ==> s[s.len() - b.len() - 1] == '/'
        }),
    decreases s.len(),
{
    if s.len() > 0 && s.last() != '/' {
        let front = s.drop_last();
        lemma_behind_slash(front);
        let b = behind_slash(s);
        assert(b =~= s.skip(s.len() - b.len()));
    } else {
        assert(behind_slash(s) =~= s.skip(s.len() as int));
    }
}

/// A branch is the last part of what a `HEAD` file refers to.
pub proof fn branches_are_the_last_part_of_the_ref(head: Seq<char>, path: Seq<char>)
    requires
        trimmed(head) == "ref: "@ + path,
    ensures
        head_branch(head) matches Some(b) && b.len() <= path.len() && b == path.skip(
            path.len() - b.len(),
        ) && (forall|i: int| 0 <= i < b.len() ==> #[trigger] b[i] != '/') && (b.len() < path.len()
            ==> path[path.len() - b.len() - 1] == '/'),
{
    let h = trimmed(head);
    assert(h.take("ref: "@.len() as int) =~= "ref: "@);
    assert(h.skip("ref: "@.len() as int) =~= path);
    lemma_behind_slash(path);
}

/// A detached `HEAD` is shown as the first seven characters of its commit, in parentheses.
pub proof fn detached_heads_are_shown_by_their_commit(head: Seq<char>)
    requires
        trimmed(head).len() >= 7,
        is_ascii_chars(trimmed(head)),
        !has_prefix(trimmed(head), "ref: "@),
    ensures
        head_branch(head) == Some(seq!['('] + trimmed(head).take(7) + seq![')']),
{
    let h = trimmed(head);
    let bytes = encode_utf8(h);
    is_ascii_chars_encode_utf8(h);
    encode_utf8_valid_utf8(h);
    let front = h.take(7);
    assert(is_ascii_chars(front)) by {
        assert forall|i: int| 0 <= i < front.len() implies '\0' <= #[trigger] front[i] <= '\u{7f}' by {
            assert(front[i] == h[i]);
        }
    }
    is_ascii_chars_encode_utf8(front);
    assert(encode_utf8(front) =~= bytes.take(7)) by {
        assert forall|i: int| 0 <= i < 7 implies #[trigger] encode_utf8(front)[i] == bytes[i] by {
            assert(front[i] == h[i]);
        }
    }
    encode_utf8_decode_utf8(front);
    if bytes.len() == 7 {
        is_char_boundary_start_end_of_seq(bytes);
    } else {
        assert(bytes[7] == h[7] as u8);
        assert('\0' <= h[7] <= '\u{7f}');
        assert(bytes[7] < 128);
        utf8_byte_ranges_bitwise(bytes[7]);
        is_char_boundary_iff_is_leading_byte(bytes, 7);
    }
}

// ---------------------------------------------------------------------------
// Sessions.
// ---------------------------------------------------------------------------

proof fn lemma_session_index(sessions: Seq<SessionView>, id: SessionId, from: int)
    requires
        0 <= from <= sessions.len(),
    ensures
        match session_index(sessions, id, from) {
            Some(i) => from <= i < sessions.len() && sessions[i].id == id && forall|j: int|
                from <= j < i ==> (#[trigger] sessions[j]).id != id,
            None => forall|j: int| from <= j < sessions.len() ==> (#[trigger] sessions[j]).id != id,
        },
    decreases sessions.len() - from,
{
    if from < sessions.len() {
        lemma_session_index(sessions, id, from + 1);
    }
}

proof fn lemma_named_index(sessions: Seq<SessionView>, name: Seq<char>, from: int)
    requires
        0 <= from <= sessions.len(),
    ensures
        match named_index(sessions, name, from) {
            Some(i) => from <= i < sessions.len() && sessions[i].name == name && forall|j: int|
                from <= j < i ==> (#[trigger] sessions[j]).name != name,
            None => forall|j: int|
                from <= j < sessions.len() ==> (#[trigger] sessions[j]).name != name,
        },
    decreases sessions.len() - from,
{
    if from < sessions.len() {
        lemma_named_index(sessions, name, from + 1);
    }
}

/// A session is found by its id and by its name: the first that has it, where one has.
pub proof fn sessions_are_found(sessions: Seq<SessionView>, id: SessionId, name: Seq<char>)
    ensures
        match session_index(sessions, id, 0) {
            Some(i) => 0 <= i < sessions.len() && sessions[i].id == id && forall|j: int|
                0 <= j < i ==> (#[trigger] sessions[j]).id != id,
            None => forall|j: int| 0 <= j < sessions.len() ==> (#[trigger] sessions[j]).id != id,
        },
        match named_index(sessions, name, 0) {
            Some(i) => 0 <= i < sessions.len() && sessions[i].name == name && forall|j: int|
                0 <= j < i ==> (#[trigger] sessions[j]).name != name,
            None => forall|j: int| 0 <= j < sessions.len() ==> (#[trigger] sessions[j]).name != name,
        },
{
    lemma_session_index(sessions, id, 0);
    lemma_named_index(sessions, name, 0);
}

proof fn lemma_home_of(windows: Seq<WindowView>, id: PaneId, from: int)
    requires
        0 <= from <= windows.len(),
    ensures
        match home_of(windows, id, from) {
            Some(i) => from <= i < windows.len() && holds(windows[i].panes, id) && forall|j: int|
                from <= j < i ==> !(#[trigger] holds(windows[j].panes, id)),
            None => forall|j: int|
                from <= j < windows.len() ==> !(#[trigger] holds(windows[j].panes, id)),
        },
    decreases windows.len() - from,
{
    if from < windows.len() {
        lemma_home_of(windows, id, from + 1);
    }
}

/// A pane is found in its session by its id, in whatever window it is; where none has the id, none
/// is found.
pub proof fn panes_are_found_by_id(s: SessionView, id: PaneId)
    ensures
        match pane_of(s, id) {
            Some(p) => p.id == id && exists|i: int|
                0 <= i < s.windows.len() && (#[trigger] s.windows[i]).panes.contains(p),
            None => forall|i: int, k: int|
                0 <= i < s.windows.len() && 0 <= k < s.windows[i].panes.len()
                    ==> (#[trigger] s.windows[i].panes[k]).id != id,
        },
{
    lemma_home_of(s.windows, id, 0);
    match home_of(s.windows, id, 0) {
        Some(i) => {
            let panes = s.windows[i].panes;
            lemma_pane_index(panes, id, 0);
            let k = pane_index(panes, id, 0)->0;
            assert(panes[k].id == id);
            assert(s.windows[i].panes.contains(panes[k]));
        },
        None => {
            assert forall|i: int, k: int|
                0 <= i < s.windows.len() && 0 <= k < s.windows[i].panes.len() implies (
            #[trigger] s.windows[i].panes[k]).id != id by {
                assert(!(holds(s.windows[i].panes, id)));
                lemma_pane_index(s.windows[i].panes, id, 0);
            }
        },
    }
}

/// Among all sessions a pane is found in the first that has it.
pub proof fn panes_are_found_in_every_session(sessions: Seq<SessionView>, id: PaneId, from: int)
    requires
        0 <= from <= sessions.len(),
    ensures
        match pane_in(sessions, id, from) {
            Some(p) => exists|i: int|
                from <= i < sessions.len() && #[trigger] pane_of(sessions[i], id) == Some(p)
                    && forall|j: int|
                    from <= j < i ==> (#[trigger] pane_of(sessions[j], id)) is None,
            None => forall|j: int|
                from <= j < sessions.len() ==> (#[trigger] pane_of(sessions[j], id)) is None,
        },
    decreases sessions.len() - from,
{
    if from < sessions.len() {
        if pane_of(sessions[from], id) is None {
            panes_are_found_in_every_session(sessions, id, from + 1);
            if let Some(p) = pane_in(sessions, id, from + 1) {
                let i = choose|i: int|
                    from + 1 <= i < sessions.len() && #[trigger] pane_of(sessions[i], id) == Some(p)
                        && forall|j: int|
                        from + 1 <= j < i ==> (#[trigger] pane_of(sessions[j], id)) is None;
                assert(pane_of(sessions[i], id) == Some(p));
            }
        } else {
            assert(pane_of(sessions[from], id) == Some(pane_of(sessions[from], id)->0));
        }
    }
}

/// The panes of windows are counted window by window, those of sessions session by session.
pub proof fn panes_are_counted(
    windows: Seq<WindowView>,
    w: WindowView,
    sessions: Seq<SessionView>,
    s: SessionView,
)
    ensures
        pane_total(Seq::empty()) == 0,
        pane_total(windows.push(w)) == pane_total(windows) + w.panes.len(),
        mux_total(Seq::empty()) == 0,
        mux_total(sessions.push(s)) == mux_total(sessions) + pane_total(s.windows),
{
    assert(windows.push(w).drop_last() =~= windows);
    assert(sessions.push(s).drop_last() =~= sessions);
}

/// Focusing a pane makes it the active one of its window and shows that window; no other window and
/// no pane changes.
pub proof fn focusing_changes_nothing_else(s: SessionView, id: PaneId, i: int)
    requires
        0 <= i < s.windows.len(),
    ensures
        focused(s, id).windows.len() == s.windows.len(),
        focused(s, id).windows[i].panes == s.windows[i].panes,
        focused(s, id).windows[i].root == s.windows[i].root,
        focused(s, id).windows[i].id == s.windows[i].id,
        focused(s, id).windows[i].active == id || focused(s, id).windows[i] == s.windows[i],
        pane_of(s, id) is Some ==> focused(s, id).windows[focused(s, id).active as int].active == id
            && holds(focused(s, id).windows[focused(s, id).active as int].panes, id),
        pane_of(s, id) is None ==> focused(s, id) == s,
{
    lemma_home_of(s.windows, id, 0);
}

/// A pane that ended leaves its window, and its window leaves with its last pane; the active index
/// stays, at most the last.
pub proof fn ended_panes_leave(s: SessionView, id: PaneId)
    requires
        s.wf(),
    ensures
        pane_of(s, id) is None ==> removed_pane(s, id) == s && extracted(s, id) == s,
        pane_of(s, id) is Some ==> exists|i: int|
            0 <= i < s.windows.len() && #[trigger] holds(s.windows[i].panes, id) && if s.windows[i].panes.len()
                == 1 {
                &&& removed_pane(s, id).windows == s.windows.remove(i)
                &&& extracted(s, id).windows == s.windows.remove(i)
                &&& s.active + 1 < s.windows.len() ==> removed_pane(s, id).active == s.active
            } else {
                &&& removed_pane(s, id).windows.len() == s.windows.len()
                &&& removed_pane(s, id).active == s.active
                &&& extracted(s, id) == removed_pane(s, id)
            },
{
    lemma_home_of(s.windows, id, 0);
    if let Some(i) = home_of(s.windows, id, 0) {
        assert(holds(s.windows[i].panes, id));
        lemma_pane_index(s.windows[i].panes, id, 0);
    }
}

/// A window is found by its id: the first that has it, where one has.
pub proof fn windows_are_found(windows: Seq<WindowView>, id: WindowId)
    ensures
        match window_index(windows, id, 0) {
            Some(i) => 0 <= i < windows.len() && windows[i].id == id && forall|j: int|
                0 <= j < i ==> (#[trigger] windows[j]).id != id,
            None => forall|j: int| 0 <= j < windows.len() ==> (#[trigger] windows[j]).id != id,
        },
{
    lemma_window_index(windows, id, 0);
}

/// Every window of which something can be saved is saved, in the order of the windows, and nothing
/// else; the window that was active is the active one again.
pub proof fn windows_are_saved_in_order(s: SessionView, include_screen: bool, i: int, j: int)
    requires
        0 <= i < j < s.windows.len(),
    ensures
        ({
            let all = captured(s, include_screen).windows;
            let at = |k: int| captured_windows(s.windows, include_screen, k).len() as int;
            let one = |k: int| captured_window(s.windows[k], include_screen);
            &&& all.len() <= s.windows.len()
            &&& one(i) is Some ==> at(i) < all.len() && all[at(i)] == one(i)->0 && at(i) < at(j)
            &&& one(i) is Some && s.active == i ==> captured(s, include_screen).active == at(i)
            &&& one(j) is Some ==> at(j) < all.len() && all[at(j)] == one(j)->0
            &&& at(0) == 0
            &&& at(i + 1) == at(i) + (if one(i) is Some {
                1int
            } else {
                0
            })
        }),
{
    let n = s.windows.len() as int;
    lemma_saved_before(s.windows, include_screen, i + 1, j);
    lemma_saved_before(s.windows, include_screen, i + 1, n);
    lemma_saved_before(s.windows, include_screen, j + 1, n);
    lemma_saved_count(s.windows, include_screen, n);
    let a = captured_windows(s.windows, include_screen, i);
    let b = captured_windows(s.windows, include_screen, j);
    if let Some(x) = captured_window(s.windows[i], include_screen) {
        assert(a.push(x)[a.len() as int] == x);
    }
    if let Some(x) = captured_window(s.windows[j], include_screen) {
        assert(b.push(x)[b.len() as int] == x);
    }
}

proof fn lemma_saved_count(windows: Seq<WindowView>, include_screen: bool, n: int)
    requires
        0 <= n,
    ensures
        captured_windows(windows, include_screen, n).len() <= n,
    decreases n,
{
    if n > 0 {
        lemma_saved_count(windows, include_screen, n - 1);
    }
}

proof fn lemma_saved_before(windows: Seq<WindowView>, include_screen: bool, m: int, n: int)
    requires
        0 <= m <= n,
    ensures
        captured_windows(windows, include_screen, m).len() <= captured_windows(
            windows,
            include_screen,
            n,
        ).len(),
        forall|k: int|
            0 <= k < captured_windows(windows, include_screen, m).len()
                ==> #[trigger] captured_windows(windows, include_screen, n)[k] == captured_windows(
                windows,
                include_screen,
                m,
            )[k],
    decreases n - m,
{
    if m < n {
        lemma_saved_before(windows, include_screen, m, n - 1);
        let front = captured_windows(windows, include_screen, n - 1);
        assert forall|k: int|
            0 <= k < captured_windows(windows, include_screen, m).len() implies #[trigger] captured_windows(
            windows,
            include_screen,
            n,
        )[k] == captured_windows(windows, include_screen, m)[k] by {
            assert(captured_windows(windows, include_screen, n)[k] == front[k]);
        }
    }
}

} // verus!
