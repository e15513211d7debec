//! The split tree of a window: a binary tree of panes with ratios, the rectangles that it gives
//! them, and spatial focus movement.
//!
//! A ratio is a share of the parent's extent in floating point. The tree only carries it around,
//! as the bits of an `f32`; whoever needs arithmetic on it hands in a function.
use vstd::prelude::*;

use crate::mux::ids::PaneId;

verus! {

/// How a split divides its area.
#[derive(Clone, Copy, Debug, PartialEq, Eq, Structural)]
pub enum SplitDir {
    /// Side by side (`a` left, `b` right); divides width.
    Horizontal,
    /// Stacked (`a` top, `b` bottom); divides height.
    Vertical,
}

/// A direction to move focus.
#[derive(Clone, Copy, Debug, PartialEq, Eq, Structural)]
pub enum FocusDir {
    Left,
    Right,
    Up,
    Down,
}

/// A pixel rectangle.
#[derive(Clone, Copy, Debug, PartialEq, Eq, Structural)]
pub struct Rect {
    pub x: u32,
    pub y: u32,
    pub w: u32,
    pub h: u32,
}

/// The split tree. `ratio` is the share of `a`, as the bits of an `f32`.
#[derive(Debug, PartialEq, Eq)]
pub enum Node {
    Leaf(PaneId),
    Split { dir: SplitDir, ratio: u32, a: Box<Node>, b: Box<Node> },
}

/// The bits of one half.
pub const HALF: u32 = 0x3f00_0000;

// ---------------------------------------------------------------------------
// The tree.
// ---------------------------------------------------------------------------

/// The panes of a tree, left to right.
pub open spec fn leaves_of(n: Node) -> Seq<PaneId>
    decreases n,
{
    match n {
        Node::Leaf(id) => seq![id],
        Node::Split { dir, ratio, a, b } => leaves_of(*a) + leaves_of(*b),
    }
}

/// Whether a pane is a leaf of a tree.
pub open spec fn has_leaf(n: Node, id: PaneId) -> bool
    decreases n,
{
    match n {
        Node::Leaf(x) => x == id,
        Node::Split { dir, ratio, a, b } => has_leaf(*a, id) || has_leaf(*b, id),
    }
}

/// The leftmost pane.
pub open spec fn first_of(n: Node) -> PaneId
    decreases n,
{
    match n {
        Node::Leaf(id) => id,
        Node::Split { dir, ratio, a, b } => first_of(*a),
    }
}

/// The tree with the first leaf `target` split evenly into `target` and `new`, if it is there.
pub open spec fn split_at(n: Node, target: PaneId, dir: SplitDir, new: PaneId) -> Option<Node>
    decreases n,
{
    match n {
        Node::Leaf(id) => if id == target {
            Some(
                Node::Split {
                    dir,
                    ratio: HALF,
                    a: Box::new(Node::Leaf(target)),
                    b: Box::new(Node::Leaf(new)),
                },
            )
        } else {
            None
        },
        Node::Split { dir: d, ratio, a, b } => match split_at(*a, target, dir, new) {
            Some(x) => Some(Node::Split { dir: d, ratio, a: Box::new(x), b }),
            None => match split_at(*b, target, dir, new) {
                Some(y) => Some(Node::Split { dir: d, ratio, a, b: Box::new(y) }),
                None => None,
            },
        },
    }
}

/// The tree with `target` taken out where it stands right below a split, which collapses into the
/// sibling; below a split that collapses, nothing else is touched.
pub open spec fn unhooked(n: Node, target: PaneId) -> Node
    decreases n,
{
    match n {
        Node::Leaf(_) => n,
        Node::Split { dir, ratio, a, b } => if *a == Node::Leaf(target) {
            *b
        } else if *b == Node::Leaf(target) {
            *a
        } else {
            Node::Split {
                dir,
                ratio,
                a: Box::new(unhooked(*a, target)),
                b: Box::new(unhooked(*b, target)),
            }
        },
    }
}

/// How often a pane stands in a tree.
pub open spec fn occurrences(n: Node, id: PaneId) -> nat
    decreases n,
{
    match n {
        Node::Leaf(x) => if x == id {
            1
        } else {
            0
        },
        Node::Split { dir, ratio, a, b } => occurrences(*a, id) + occurrences(*b, id),
    }
}

/// The tree without `target` wherever it stands, its splits collapsed into the siblings; nothing
/// where no other leaf is left.
pub open spec fn without(n: Node, target: PaneId) -> Option<Node>
    decreases n,
{
    match n {
        Node::Leaf(id) => if id == target {
            None
        } else {
            Some(n)
        },
        Node::Split { dir, ratio, a, b } => match (without(*a, target), without(*b, target)) {
            (Some(x), Some(y)) => Some(
                Node::Split { dir, ratio, a: Box::new(x), b: Box::new(y) },
            ),
            (Some(x), None) => Some(x),
            (None, Some(y)) => Some(y),
            (None, None) => None,
        },
    }
}

/// The tree with the places of two panes exchanged.
pub open spec fn swapped(n: Node, x: PaneId, y: PaneId) -> Node
    decreases n,
{
    match n {
        Node::Leaf(id) => Node::Leaf(
            if id == x {
                y
            } else if id == y {
                x
            } else {
                id
            },
        ),
        Node::Split { dir, ratio, a, b } => Node::Split {
            dir,
            ratio,
            a: Box::new(swapped(*a, x, y)),
            b: Box::new(swapped(*b, x, y)),
        },
    }
}

/// A function that executes `f`.
pub open spec fn computes<C: Fn(u32, u32) -> u32>(c: C, f: spec_fn(u32, u32) -> u32) -> bool {
    forall|x: u32, y: u32, v: u32| #[trigger] call_ensures(c, (x, y), v) ==> v == f(x, y)
}

/// Whether a closure gives the same result for the same arguments.
pub open spec fn is_function<C: Fn(u32, u32) -> u32>(c: C) -> bool {
    forall|a: u32, b: u32, r: u32, s: u32|
        #[trigger] call_ensures(c, (a, b), r) && #[trigger] call_ensures(c, (a, b), s) ==> r == s
}

/// The function that a closure computes.
pub open spec fn function_of<C: Fn(u32, u32) -> u32>(c: C) -> spec_fn(u32, u32) -> u32 {
    |a: u32, b: u32| choose|r: u32| call_ensures(c, (a, b), r)
}

/// A closure computes its function.
pub proof fn lemma_function<C: Fn(u32, u32) -> u32>(c: C)
    requires
        is_function(c),
    ensures
        computes(c, function_of(c)),
{
    let f = function_of(c);
    assert forall|a: u32, b: u32, r: u32| #[trigger] call_ensures(c, (a, b), r) implies r == f(
        a,
        b,
    ) by {
        let s = choose|s: u32| call_ensures(c, (a, b), s);
        assert(call_ensures(c, (a, b), s));
    }
}

/// A function that may be called with any arguments.
pub open spec fn total<C: Fn(u32, u32) -> u32>(c: C) -> bool {
    forall|x: u32, y: u32| #[trigger] call_requires(c, (x, y))
}

/// A function that cuts a part off an extent: the part is never larger.
pub open spec fn cutting<C: Fn(u32, u32) -> u32>(c: C) -> bool {
    &&& total(c)
    &&& forall|x: u32, y: u32, v: u32| #[trigger] call_ensures(c, (x, y), v) ==> v <= x
}

/// The tree with the ratio of the split right above `target` adjusted by `delta`, if there is such
/// a split. `f` adds a delta to a ratio; the delta is negated where `target` is on the `b` side.
pub open spec fn resized(
    n: Node,
    target: PaneId,
    delta: u32,
    negated: u32,
    f: spec_fn(u32, u32) -> u32,
) -> Option<Node>
    decreases n,
{
    match n {
        Node::Leaf(_) => None,
        Node::Split { dir, ratio, a, b } => if *a == Node::Leaf(target) {
            Some(Node::Split { dir, ratio: f(ratio, delta), a, b })
        } else if *b == Node::Leaf(target) {
            Some(Node::Split { dir, ratio: f(ratio, negated), a, b })
        } else {
            match resized(*a, target, delta, negated, f) {
                Some(x) => Some(Node::Split { dir, ratio, a: Box::new(x), b }),
                None => match resized(*b, target, delta, negated, f) {
                    Some(y) => Some(Node::Split { dir, ratio, a, b: Box::new(y) }),
                    None => None,
                },
            }
        },
    }
}

/// The tree with the deepest split of direction `want` adjusted that has `target` on its `a` side,
/// if there is such a split: the divider at the right or lower edge of `target`.
pub open spec fn edge_resized(
    n: Node,
    target: PaneId,
    want: SplitDir,
    delta: u32,
    f: spec_fn(u32, u32) -> u32,
) -> Option<Node>
    decreases n,
{
    match n {
        Node::Leaf(_) => None,
        Node::Split { dir, ratio, a, b } => if has_leaf(*a, target) {
            match edge_resized(*a, target, want, delta, f) {
                Some(x) => Some(Node::Split { dir, ratio, a: Box::new(x), b }),
                None => if dir == want {
                    Some(Node::Split { dir, ratio: f(ratio, delta), a, b })
                } else {
                    None
                },
            }
        } else {
            match edge_resized(*b, target, want, delta, f) {
                Some(y) => Some(Node::Split { dir, ratio, a, b: Box::new(y) }),
                None => None,
            }
        },
    }
}

/// Whether the bits of an `f32` are a zero of either sign.
pub open spec fn zero_bits(bits: u32) -> bool {
    bits == 0 || bits == 0x8000_0000
}

/// The tree after a divider drag: each nonzero delta adjusts at most one split. The flag says
/// whether any was adjusted.
pub open spec fn dragged(
    n: Node,
    target: PaneId,
    dh: u32,
    dv: u32,
    f: spec_fn(u32, u32) -> u32,
) -> (Node, bool) {
    let (n1, h) = if zero_bits(dh) {
        (n, false)
    } else {
        match edge_resized(n, target, SplitDir::Horizontal, dh, f) {
            Some(x) => (x, true),
            None => (n, false),
        }
    };
    let (n2, v) = if zero_bits(dv) {
        (n1, false)
    } else {
        match edge_resized(n1, target, SplitDir::Vertical, dv, f) {
            Some(x) => (x, true),
            None => (n1, false),
        }
    };
    (n2, h || v)
}

impl Node {
    pub fn leaf(id: PaneId) -> (n: Node)
        ensures
            n == Node::Leaf(id),
    {
        Node::Leaf(id)
    }

    /// A copy of the tree.
    pub fn copy(&self) -> (n: Node)
        ensures
            n == *self,
        decreases self,
    {
        match self {
            Node::Leaf(id) => Node::Leaf(*id),
            Node::Split { dir, ratio, a, b } => Node::Split {
                dir: *dir,
                ratio: *ratio,
                a: Box::new(a.copy()),
                b: Box::new(b.copy()),
            },
        }
    }

    /// Replaces the leaf `target` by an even split of `target` and `new`. Returns whether the
    /// target was found.
    pub fn split_leaf(&mut self, target: PaneId, dir: SplitDir, new: PaneId) -> (found: bool)
        ensures
            match split_at(*old(self), target, dir, new) {
                Some(n) => found && *final(self) == n,
                None => !found && *final(self) == *old(self),
            },
        decreases *old(self),
    {
        match self {
            Node::Leaf(id) => {
                if *id == target {
                    *self = Node::Split {
                        dir,
                        ratio: HALF,
                        a: Box::new(Node::Leaf(target)),
                        b: Box::new(Node::Leaf(new)),
                    };
                    true
                } else {
                    false
                }
            },
            Node::Split { a, b, .. } => {
                a.split_leaf(target, dir, new) || b.split_leaf(target, dir, new)
            },
        }
    }

    /// Removes `target`, collapsing its split into the sibling subtree. The caller makes sure that
    /// another leaf is left.
    pub fn remove_leaf(self, target: PaneId) -> (n: Node)
        ensures
            n == unhooked(self, target),
        decreases self,
    {
        match self {
            Node::Leaf(id) => Node::Leaf(id),
            Node::Split { dir, ratio, a, b } => {
                if a.is_leaf(target) {
                    return *b;
                }
                if b.is_leaf(target) {
                    return *a;
                }
                Node::Split {
                    dir,
                    ratio,
                    a: Box::new((*a).remove_leaf(target)),
                    b: Box::new((*b).remove_leaf(target)),
                }
            },
        }
    }

    /// Removes `target` wherever it stands, so that no leaf is left of a pane that goes. The caller
    /// makes sure that another leaf is left.
    pub(crate) fn clear_leaf(self, target: PaneId) -> (n: Node)
        ensures
            n == (match without(self, target) {
                Some(x) => x,
                None => Node::Leaf(target),
            }),
    {
        match self.removed(target) {
            Some(n) => n,
            None => Node::Leaf(target),
        }
    }

    fn removed(self, target: PaneId) -> (r: Option<Node>)
        ensures
            r == without(self, target),
        decreases self,
    {
        match self {
            Node::Leaf(id) => if id == target {
                None
            } else {
                Some(Node::Leaf(id))
            },
            Node::Split { dir, ratio, a, b } => match ((*a).removed(target), (*b).removed(target)) {
                (Some(x), Some(y)) => Some(
                    Node::Split { dir, ratio, a: Box::new(x), b: Box::new(y) },
                ),
                (Some(x), None) => Some(x),
                (None, Some(y)) => Some(y),
                (None, None) => None,
            },
        }
    }

    /// Exchanges the places of two panes. Returns whether both are there; where one is not,
    /// nothing changes.
    pub fn swap_leaves(&mut self, x: PaneId, y: PaneId) -> (done: bool)
        ensures
            done == (has_leaf(*old(self), x) && has_leaf(*old(self), y)),
            *final(self) == (if done {
                swapped(*old(self), x, y)
            } else {
                *old(self)
            }),
    {
        if self.contains(x) && self.contains(y) {
            self.exchange(x, y);
            true
        } else {
            false
        }
    }

    fn exchange(&mut self, x: PaneId, y: PaneId)
        ensures
            *final(self) == swapped(*old(self), x, y),
        decreases *old(self),
    {
        match self {
            Node::Leaf(id) => {
                if *id == x {
                    *id = y;
                } else if *id == y {
                    *id = x;
                }
            },
            Node::Split { a, b, .. } => {
                a.exchange(x, y);
                b.exchange(x, y);
            },
        }
    }

    /// Whether this tree is a leaf that holds `target`.
    fn is_leaf(&self, target: PaneId) -> (r: bool)
        ensures
            r == (*self == Node::Leaf(target)),
    {
        match self {
            Node::Leaf(id) => *id == target,
            Node::Split { .. } => false,
        }
    }

    /// Adjusts the ratio of the split right above `target`, which grows or shrinks that pane.
    /// `adjust` adds a delta to a ratio; `negated` is the delta with its sign changed, and is used
    /// where `target` is on the `b` side. Returns whether a split was adjusted.
    pub fn resize_leaf<A: Fn(u32, u32) -> u32>(
        &mut self,
        target: PaneId,
        delta: u32,
        negated: u32,
        adjust: &A,
    ) -> (done: bool)
        requires
            total(*adjust),
        ensures
            forall|f: spec_fn(u32, u32) -> u32| #[trigger]
                computes(*adjust, f) ==> match resized(*old(self), target, delta, negated, f) {
                    Some(n) => done && *final(self) == n,
                    None => !done && *final(self) == *old(self),
                },
            leaves_of(*final(self)) == leaves_of(*old(self)),
        decreases *old(self),
    {
        match self {
            Node::Leaf(_) => false,
            Node::Split { ratio, a, b, .. } => {
                if a.is_leaf(target) {
                    *ratio = adjust(*ratio, delta);
                    true
                } else if b.is_leaf(target) {
                    *ratio = adjust(*ratio, negated);
                    true
                } else {
                    a.resize_leaf(target, delta, negated, adjust) || b.resize_leaf(
                        target,
                        delta,
                        negated,
                        adjust,
                    )
                }
            },
        }
    }

    /// Grows `target` (the top or left pane of a dragged divider) by `dh` along a vertical divider
    /// and by `dv` along a horizontal one. Matches the split's direction to the drag's axis and
    /// adjusts at most one split per nonzero delta. Returns whether any was adjusted.
    pub fn resize_leaf_of<A: Fn(u32, u32) -> u32>(
        &mut self,
        target: PaneId,
        dh: u32,
        dv: u32,
        adjust: &A,
    ) -> (done: bool)
        requires
            total(*adjust),
        ensures
            forall|f: spec_fn(u32, u32) -> u32| #[trigger]
                computes(*adjust, f) ==> (*final(self), done) == dragged(
                    *old(self),
                    target,
                    dh,
                    dv,
                    f,
                ),
            leaves_of(*final(self)) == leaves_of(*old(self)),
    {
        let mut ok = false;
        if dh != 0 && dh != 0x8000_0000 {
            if self.resize_edge(target, SplitDir::Horizontal, dh, adjust) {
                ok = true;
            }
        }
        if dv != 0 && dv != 0x8000_0000 {
            if self.resize_edge(target, SplitDir::Vertical, dv, adjust) {
                ok = true;
            }
        }
        ok
    }

    /// Adjusts the deepest split of direction `want` that has `target` on its `a` side.
    fn resize_edge<A: Fn(u32, u32) -> u32>(
        &mut self,
        target: PaneId,
        want: SplitDir,
        delta: u32,
        adjust: &A,
    ) -> (done: bool)
        requires
            total(*adjust),
        ensures
            forall|f: spec_fn(u32, u32) -> u32| #[trigger]
                computes(*adjust, f) ==> match edge_resized(*old(self), target, want, delta, f) {
                    Some(n) => done && *final(self) == n,
                    None => !done && *final(self) == *old(self),
                },
            leaves_of(*final(self)) == leaves_of(*old(self)),
        decreases *old(self),
    {
        match self {
            Node::Leaf(_) => false,
            Node::Split { dir, ratio, a, b } => {
                if a.contains(target) {
                    if a.resize_edge(target, want, delta, adjust) {
                        true
                    } else if *dir == want {
                        *ratio = adjust(*ratio, delta);
                        true
                    } else {
                        false
                    }
                } else {
                    b.resize_edge(target, want, delta, adjust)
                }
            },
        }
    }

    /// Whether `target` is a leaf of this tree.
    pub fn contains(&self, target: PaneId) -> (r: bool)
        ensures
            r == has_leaf(*self, target),
        decreases self,
    {
        match self {
            Node::Leaf(id) => *id == target,
            Node::Split { a, b, .. } => a.contains(target) || b.contains(target),
        }
    }

    /// The leftmost pane.
    pub fn first_leaf(&self) -> (id: PaneId)
        ensures
            id == first_of(*self),
        decreases self,
    {
        match self {
            Node::Leaf(id) => *id,
            Node::Split { a, .. } => a.first_leaf(),
        }
    }

    /// Appends the panes of the tree, left to right.
    pub fn leaves(&self, out: &mut Vec<PaneId>)
        ensures
            final(out)@ == old(out)@ + leaves_of(*self),
        decreases self,
    {
        match self {
            Node::Leaf(id) => {
                out.push(*id);
                assert(out@ =~= old(out)@ + seq![*id]);
            },
            Node::Split { a, b, .. } => {
                a.leaves(out);
                b.leaves(out);
                assert(out@ =~= old(out)@ + (leaves_of(**a) + leaves_of(**b)));
            },
        }
    }

    /// How many leaves the tree has.
    pub fn leaf_count(&self) -> (n: usize)
        ensures
            n == leaves_of(*self).len(),
    {
        let mut v: Vec<PaneId> = Vec::new();
        self.leaves(&mut v);
        v.len()
    }
}

// ---------------------------------------------------------------------------
// Geometry.
// ---------------------------------------------------------------------------

/// The part of an area that the `a` side of a split gets, with extent `part`.
pub open spec fn first_part(dir: SplitDir, r: Rect, part: u32) -> Rect {
    match dir {
        SplitDir::Horizontal => Rect { x: r.x, y: r.y, w: part, h: r.h },
        SplitDir::Vertical => Rect { x: r.x, y: r.y, w: r.w, h: part },
    }
}

/// The part of an area that the `b` side of a split gets, where the `a` side has extent `part`.
pub open spec fn second_part(dir: SplitDir, r: Rect, part: u32) -> Rect {
    match dir {
        SplitDir::Horizontal => Rect {
            x: (r.x + part) as u32,
            y: r.y,
            w: (r.w - part) as u32,
            h: r.h,
        },
        SplitDir::Vertical => Rect {
            x: r.x,
            y: (r.y + part) as u32,
            w: r.w,
            h: (r.h - part) as u32,
        },
    }
}

/// The extent of an area that a split divides.
pub open spec fn extent(dir: SplitDir, r: Rect) -> u32 {
    match dir {
        SplitDir::Horizontal => r.w,
        SplitDir::Vertical => r.h,
    }
}

/// Each leaf's rectangle within `area`, left to right. `f` cuts the share of a ratio off an
/// extent.
pub open spec fn rects_of(n: Node, area: Rect, f: spec_fn(u32, u32) -> u32) -> Seq<(PaneId, Rect)>
    decreases n,
{
    match n {
        Node::Leaf(id) => seq![(id, area)],
        Node::Split { dir, ratio, a, b } => {
            let part = f(extent(dir, area), ratio);
            rects_of(*a, first_part(dir, area, part), f) + rects_of(
                *b,
                second_part(dir, area, part),
                f,
            )
        },
    }
}

/// Whether a rectangle's far edges have coordinates.
pub open spec fn fits(r: Rect) -> bool {
    r.x + r.w <= u32::MAX && r.y + r.h <= u32::MAX
}

/// The panes of a list of rectangles.
pub open spec fn panes_listed(rs: Seq<(PaneId, Rect)>) -> Seq<PaneId> {
    Seq::new(rs.len(), |i: int| rs[i].0)
}

/// Appends each leaf's rectangle within `area`. `cut` cuts the share of a ratio off an extent.
pub fn rects<C: Fn(u32, u32) -> u32>(
    node: &Node,
    area: Rect,
    cut: &C,
    out: &mut Vec<(PaneId, Rect)>,
)
    requires
        fits(area),
        cutting(*cut),
    ensures
        forall|f: spec_fn(u32, u32) -> u32| #[trigger]
            computes(*cut, f) ==> final(out)@ == old(out)@ + rects_of(*node, area, f),
        panes_listed(final(out)@) == panes_listed(old(out)@) + leaves_of(*node),
    decreases node,
{
    match node {
        Node::Leaf(id) => {
            out.push((*id, area));
            assert(out@ =~= old(out)@ + seq![(*id, area)]);
            assert(panes_listed(out@) =~= panes_listed(old(out)@) + leaves_of(*node));
        },
        Node::Split { dir, ratio, a, b } => {
            let (first, second) = match dir {
                SplitDir::Horizontal => {
                    let part: u32 = cut(area.w, *ratio);
                    (
                        Rect { x: area.x, y: area.y, w: part, h: area.h },
                        Rect { x: area.x + part, y: area.y, w: area.w - part, h: area.h },
                    )
                },
                SplitDir::Vertical => {
                    let part: u32 = cut(area.h, *ratio);
                    (
                        Rect { x: area.x, y: area.y, w: area.w, h: part },
                        Rect { x: area.x, y: area.y + part, w: area.w, h: area.h - part },
                    )
                },
            };
            rects(a, first, cut, out);
            rects(b, second, cut, out);
            assert(panes_listed(out@) =~= panes_listed(old(out)@) + leaves_of(*node));
            assert forall|f: spec_fn(u32, u32) -> u32| #[trigger] computes(*cut, f) implies out@
                == old(out)@ + rects_of(*node, area, f) by {
                assert(out@ =~= old(out)@ + (rects_of(**a, first, f) + rects_of(**b, second, f)));
            }
        },
    }
}

impl Rect {
    /// Center of a rectangle.
    pub open spec fn center(self) -> (int, int) {
        (self.x + self.w / 2, self.y + self.h / 2)
    }

    fn cx(&self) -> (c: i64)
        ensures
            c == self.center().0,
            0 <= c <= 0x1_8000_0000,
    {
        self.x as i64 + (self.w / 2) as i64
    }

    fn cy(&self) -> (c: i64)
        ensures
            c == self.center().1,
            0 <= c <= 0x1_8000_0000,
    {
        self.y as i64 + (self.h / 2) as i64
    }
}

/// Distance between two numbers.
pub open spec fn apart(a: int, b: int) -> int {
    if a < b {
        b - a
    } else {
        a - b
    }
}

/// Whether the center of `r` lies in direction `dir` from that of `from`.
pub open spec fn lies(from: Rect, r: Rect, dir: FocusDir) -> bool {
    match dir {
        FocusDir::Left => r.center().0 < from.center().0,
        FocusDir::Right => r.center().0 > from.center().0,
        FocusDir::Up => r.center().1 < from.center().1,
        FocusDir::Down => r.center().1 > from.center().1,
    }
}

/// How far `r` is when moving in direction `dir`: the perpendicular axis counts double.
pub open spec fn distance(from: Rect, r: Rect, dir: FocusDir) -> int {
    let dx = apart(from.center().0, r.center().0);
    let dy = apart(from.center().1, r.center().1);
    match dir {
        FocusDir::Left | FocusDir::Right => dx + 2 * dy,
        FocusDir::Up | FocusDir::Down => dy + 2 * dx,
    }
}

/// Index of the first rectangle of a pane, at or after `from`.
pub open spec fn rect_index(rs: Seq<(PaneId, Rect)>, id: PaneId, from: int) -> Option<int>
    decreases rs.len() - from,
{
    if from < 0 || from >= rs.len() {
        None
    } else if rs[from].0 == id {
        Some(from)
    } else {
        rect_index(rs, id, from + 1)
    }
}

/// Whether focus can move from `cur` (the rectangle of `active`) to rectangle `i`.
pub open spec fn reachable(
    rs: Seq<(PaneId, Rect)>,
    active: PaneId,
    cur: Rect,
    dir: FocusDir,
    i: int,
) -> bool {
    rs[i].0 != active && lies(cur, rs[i].1, dir)
}

/// Index of the nearest reachable rectangle among the first `n`; the first one where several are
/// equally near.
pub open spec fn nearest(
    rs: Seq<(PaneId, Rect)>,
    active: PaneId,
    cur: Rect,
    dir: FocusDir,
    n: int,
) -> Option<int>
    decreases n,
{
    if n <= 0 {
        None
    } else {
        let best = nearest(rs, active, cur, dir, n - 1);
        if reachable(rs, active, cur, dir, n - 1) && (best is None || distance(
            cur,
            rs[n - 1].1,
            dir,
        ) < distance(cur, rs[best->0].1, dir)) {
            Some(n - 1)
        } else {
            best
        }
    }
}

/// The pane that focus moves to from `active` in direction `dir`.
pub open spec fn neighbor_of(rs: Seq<(PaneId, Rect)>, active: PaneId, dir: FocusDir) -> Option<
    PaneId,
> {
    match rect_index(rs, active, 0) {
        None => None,
        Some(i) => match nearest(rs, active, rs[i].1, dir, rs.len() as int) {
            Some(j) => Some(rs[j].0),
            None => None,
        },
    }
}

fn apart_exec(a: i64, b: i64) -> (d: i64)
    requires
        0 <= a <= 0x1_8000_0000,
        0 <= b <= 0x1_8000_0000,
    ensures
        d == apart(a as int, b as int),
        0 <= d <= 0x1_8000_0000,
{
    if a < b {
        b - a
    } else {
        a - b
    }
}

/// The best pane to focus when moving `dir` from `active`: the nearest one whose center lies in
/// that direction, with a penalty on the perpendicular axis.
pub fn neighbor(rects: &[(PaneId, Rect)], active: PaneId, dir: FocusDir) -> (r: Option<PaneId>)
    ensures
        r == neighbor_of(rects@, active, dir),
{
    let n: usize = rects.len();
    let mut k: usize = 0;
    while k < n && rects[k].0 != active
        invariant
            k <= n,
            n == rects@.len(),
            rect_index(rects@, active, 0) == rect_index(rects@, active, k as int),
        decreases n - k,
    {
        k = k + 1;
    }
    if k == n {
        return None;
    }
    let cur = rects[k].1;
    let (ax, ay) = (cur.cx(), cur.cy());
    let mut best: Option<usize> = None;
    let mut best_distance: i64 = 0;
    let mut i: usize = 0;
    while i < n
        invariant
            i <= n,
            n == rects@.len(),
            ax == cur.center().0,
            ay == cur.center().1,
            0 <= ax <= 0x1_8000_0000,
            0 <= ay <= 0x1_8000_0000,
            match best {
                Some(j) => j < i && nearest(rects@, active, cur, dir, i as int) == Some(j as int)
                    && best_distance == distance(cur, rects@[j as int].1, dir),
                None => nearest(rects@, active, cur, dir, i as int) == None::<int>,
            },
        decreases n - i,
    {
        let (id, r) = rects[i];
        if id != active {
            let (cx, cy) = (r.cx(), r.cy());
            let in_dir = match dir {
                FocusDir::Left => cx < ax,
                FocusDir::Right => cx > ax,
                FocusDir::Up => cy < ay,
                FocusDir::Down => cy > ay,
            };
            if in_dir {
                let dx: i64 = apart_exec(ax, cx);
                let dy: i64 = apart_exec(ay, cy);
                let d: i64 = match dir {
                    FocusDir::Left => dx + 2 * dy,
                    FocusDir::Right => dx + 2 * dy,
                    FocusDir::Up => dy + 2 * dx,
                    FocusDir::Down => dy + 2 * dx,
                };
                if best.is_none() || d < best_distance {
                    best = Some(i);
                    best_distance = d;
                }
            }
        }
        i = i + 1;
    }
    match best {
        Some(j) => Some(rects[j].0),
        None => None,
    }
}

// ---------------------------------------------------------------------------
// Laws.
// ---------------------------------------------------------------------------

/// A pane is a leaf of a tree exactly where it occurs among its leaves.
pub proof fn lemma_has_leaf(n: Node, id: PaneId)
    ensures
        has_leaf(n, id) == leaves_of(n).contains(id),
    decreases n,
{
    match n {
        Node::Leaf(x) => {
            assert(seq![x][0] == x);
        },
        Node::Split { dir, ratio, a, b } => {
            lemma_has_leaf(*a, id);
            lemma_has_leaf(*b, id);
            let (l, r) = (leaves_of(*a), leaves_of(*b));
            if l.contains(id) {
                let i = choose|i: int| 0 <= i < l.len() && l[i] == id;
                assert((l + r)[i] == id);
            }
            if r.contains(id) {
                let i = choose|i: int| 0 <= i < r.len() && r[i] == id;
                assert((l + r)[l.len() + i] == id);
            }
            if (l + r).contains(id) {
                let i = choose|i: int| 0 <= i < (l + r).len() && (l + r)[i] == id;
                if i < l.len() {
                    assert(l[i] == id);
                } else {
                    assert(r[i - l.len()] == id);
                }
            }
        },
    }
}

/// The leftmost pane is a leaf.
pub proof fn lemma_first_is_leaf(n: Node)
    ensures
        has_leaf(n, first_of(n)),
        leaves_of(n).len() > 0,
        leaves_of(n)[0] == first_of(n),
    decreases n,
{
    match n {
        Node::Leaf(_) => {},
        Node::Split { dir, ratio, a, b } => {
            lemma_first_is_leaf(*a);
        },
    }
}

/// Splitting finds its target exactly where it is a leaf, and adds the new pane as the only new
/// leaf.
pub proof fn splitting_adds_one_leaf(n: Node, target: PaneId, dir: SplitDir, new: PaneId)
    ensures
        split_at(n, target, dir, new) is Some == has_leaf(n, target),
        split_at(n, target, dir, new) matches Some(m) ==> {
            &&& leaves_of(m).len() == leaves_of(n).len() + 1
            &&& forall|id: PaneId| has_leaf(m, id) == (has_leaf(n, id) || id == new)
        },
{
    lemma_split(n, target, dir, new, new);
    if let Some(m) = split_at(n, target, dir, new) {
        assert forall|id: PaneId| has_leaf(m, id) == (has_leaf(n, id) || id == new) by {
            lemma_split(n, target, dir, new, id);
        }
    }
}

proof fn lemma_split(n: Node, target: PaneId, dir: SplitDir, new: PaneId, id: PaneId)
    ensures
        split_at(n, target, dir, new) is Some == has_leaf(n, target),
        split_at(n, target, dir, new) matches Some(m) ==> leaves_of(m).len() == leaves_of(n).len()
            + 1 && has_leaf(m, id) == (has_leaf(n, id) || id == new),
    decreases n,
{
    reveal_with_fuel(has_leaf, 3);
    reveal_with_fuel(leaves_of, 3);
    match n {
        Node::Leaf(_) => {},
        Node::Split { dir: d, ratio, a, b } => {
            lemma_split(*a, target, dir, new, id);
            lemma_split(*b, target, dir, new, id);
        },
    }
}

/// The new leaf stands right behind the leaf that was split; the others keep their order.
pub proof fn splitting_inserts_behind_the_target(n: Node, target: PaneId, dir: SplitDir, new: PaneId)
    requires
        has_leaf(n, target),
    ensures
        exists|i: int|
            0 <= i < leaves_of(n).len() && #[trigger] leaves_of(n)[i] == target && leaves_of(
                split_at(n, target, dir, new)->0,
            ) == leaves_of(n).insert(i + 1, new),
    decreases n,
{
    splitting_adds_one_leaf(n, target, dir, new);
    let m = split_at(n, target, dir, new)->0;
    match n {
        Node::Leaf(id) => {
            assert(leaves_of(m) =~= leaves_of(n).insert(1, new)) by {
                reveal_with_fuel(leaves_of, 2);
            }
            assert(leaves_of(n)[0] == target);
        },
        Node::Split { dir: d, ratio, a, b } => {
            splitting_adds_one_leaf(*a, target, dir, new);
            let (l, r) = (leaves_of(*a), leaves_of(*b));
            if has_leaf(*a, target) {
                splitting_inserts_behind_the_target(*a, target, dir, new);
                let x = split_at(*a, target, dir, new)->0;
                let i = choose|i: int|
                    0 <= i < l.len() && #[trigger] l[i] == target && leaves_of(x) == l.insert(
                        i + 1,
                        new,
                    );
                assert(leaves_of(n)[i] == target);
                assert(l.insert(i + 1, new) + r =~= (l + r).insert(i + 1, new));
            } else {
                splitting_inserts_behind_the_target(*b, target, dir, new);
                let y = split_at(*b, target, dir, new)->0;
                let i = choose|i: int|
                    0 <= i < r.len() && #[trigger] r[i] == target && leaves_of(y) == r.insert(
                        i + 1,
                        new,
                    );
                let k = l.len() + i;
                assert(leaves_of(n)[k] == target);
                assert(l + r.insert(i + 1, new) =~= (l + r).insert(k + 1, new));
            }
        },
    }
}

/// Where a pane stands once, beside others, removing it leaves no leaf of it.
pub proof fn removing_a_single_leaf_clears_it(n: Node, target: PaneId)
    requires
        occurrences(n, target) <= 1,
        n != Node::Leaf(target),
    ensures
        without(n, target) == Some(unhooked(n, target)),
    decreases n,
{
    match n {
        Node::Leaf(_) => {},
        Node::Split { dir, ratio, a, b } => {
            assert(occurrences(Node::Leaf(target), target) == 1);
            assert(without(Node::Leaf(target), target) is None);
            if *a == Node::Leaf(target) {
                lemma_no_occurrence(*b, target);
            } else if *b == Node::Leaf(target) {
                lemma_no_occurrence(*a, target);
            } else {
                removing_a_single_leaf_clears_it(*a, target);
                removing_a_single_leaf_clears_it(*b, target);
            }
        },
    }
}

proof fn lemma_no_occurrence(n: Node, target: PaneId)
    requires
        occurrences(n, target) == 0,
    ensures
        without(n, target) == Some(n),
    decreases n,
{
    if let Node::Split { dir, ratio, a, b } = n {
        lemma_no_occurrence(*a, target);
        lemma_no_occurrence(*b, target);
    }
}

/// Removing takes away exactly the target; nothing is left exactly where it was the only pane.
pub proof fn removing_keeps_the_others(n: Node, target: PaneId)
    ensures
        without(n, target) matches Some(m) ==> forall|id: PaneId|
            has_leaf(m, id) == (has_leaf(n, id) && id != target),
        without(n, target) is None ==> forall|id: PaneId| has_leaf(n, id) ==> id == target,
        !has_leaf(n, target) ==> without(n, target) == Some(n),
{
    lemma_without(n, target, target);
    match without(n, target) {
        Some(m) => {
            assert forall|id: PaneId| has_leaf(m, id) == (has_leaf(n, id) && id != target) by {
                lemma_without(n, target, id);
            }
        },
        None => {
            assert forall|id: PaneId| has_leaf(n, id) implies id == target by {
                lemma_without(n, target, id);
            }
        },
    }
}

proof fn lemma_without(n: Node, target: PaneId, id: PaneId)
    ensures
        match without(n, target) {
            Some(m) => has_leaf(m, id) == (has_leaf(n, id) && id != target),
            None => has_leaf(n, id) ==> id == target,
        },
        !has_leaf(n, target) ==> without(n, target) == Some(n),
    decreases n,
{
    match n {
        Node::Leaf(_) => {},
        Node::Split { dir, ratio, a, b } => {
            lemma_without(*a, target, id);
            lemma_without(*b, target, id);
        },
    }
}

/// The leaves that are left keep their order.
pub proof fn removing_keeps_order(n: Node, target: PaneId)
    ensures
        (match without(n, target) {
            Some(m) => leaves_of(m),
            None => Seq::empty(),
        }) == leaves_of(n).filter(|id: PaneId| id != target),
    decreases n,
{
    let keep = |id: PaneId| id != target;
    reveal(Seq::filter);
    match n {
        Node::Leaf(id) => {
            let s = seq![id];
            assert(s.drop_last() =~= Seq::empty());
            assert(Seq::<PaneId>::empty().filter(keep) =~= Seq::empty());
            if id != target {
                assert(s.filter(keep) =~= s);
            } else {
                assert(s.filter(keep) =~= Seq::empty());
            }
        },
        Node::Split { dir, ratio, a, b } => {
            removing_keeps_order(*a, target);
            removing_keeps_order(*b, target);
            let (l, r) = (leaves_of(*a), leaves_of(*b));
            Seq::filter_distributes_over_add(l, r, keep);
            match (without(*a, target), without(*b, target)) {
                (Some(x), Some(y)) => {},
                (Some(x), None) => {
                    assert(leaves_of(x) + Seq::empty() =~= leaves_of(x));
                },
                (None, Some(y)) => {
                    assert(Seq::empty() + leaves_of(y) =~= leaves_of(y));
                },
                (None, None) => {
                    assert(Seq::<PaneId>::empty() + Seq::<PaneId>::empty() =~= Seq::empty());
                },
            }
        },
    }
}

/// Closing a freshly split pane gives back the tree from before the split.
pub proof fn removing_undoes_splitting(n: Node, target: PaneId, dir: SplitDir, new: PaneId)
    requires
        has_leaf(n, target),
        !has_leaf(n, new),
    ensures
        without(split_at(n, target, dir, new)->0, new) == Some(n),
    decreases n,
{
    splitting_adds_one_leaf(n, target, dir, new);
    removing_keeps_the_others(n, new);
    match n {
        Node::Leaf(_) => {
            reveal_with_fuel(without, 3);
        },
        Node::Split { dir: d, ratio, a, b } => {
            splitting_adds_one_leaf(*a, target, dir, new);
            removing_keeps_the_others(*a, new);
            removing_keeps_the_others(*b, new);
            if has_leaf(*a, target) {
                removing_undoes_splitting(*a, target, dir, new);
            } else {
                removing_undoes_splitting(*b, target, dir, new);
            }
        },
    }
}

/// The shape of a tree: its splits, without the panes.
pub open spec fn same_shape(m: Node, n: Node) -> bool
    decreases n,
{
    match (m, n) {
        (Node::Leaf(_), Node::Leaf(_)) => true,
        (Node::Split { dir: d1, ratio: r1, a: a1, b: b1 }, Node::Split { dir, ratio, a, b }) => d1
            == dir && r1 == ratio && same_shape(*a1, *a) && same_shape(*b1, *b),
        _ => false,
    }
}

/// Swapping two panes keeps the shape and the set of panes, and swapping them again undoes it.
pub proof fn swapping_keeps_shape_and_panes(n: Node, x: PaneId, y: PaneId)
    ensures
        same_shape(swapped(n, x, y), n),
        swapped(swapped(n, x, y), x, y) == n,
        has_leaf(n, x) && has_leaf(n, y) ==> forall|id: PaneId|
            has_leaf(swapped(n, x, y), id) == has_leaf(n, id),
{
    lemma_swap(n, x, y, x);
    lemma_swap(n, x, y, y);
    if has_leaf(n, x) && has_leaf(n, y) {
        assert forall|id: PaneId| has_leaf(swapped(n, x, y), id) == has_leaf(n, id) by {
            lemma_swap(n, x, y, id);
        }
    }
}

proof fn lemma_swap(n: Node, x: PaneId, y: PaneId, id: PaneId)
    ensures
        same_shape(swapped(n, x, y), n),
        swapped(swapped(n, x, y), x, y) == n,
        has_leaf(swapped(n, x, y), id) == has_leaf(
            n,
            if id == x {
                y
            } else if id == y {
                x
            } else {
                id
            },
        ),
    decreases n,
{
    match n {
        Node::Leaf(_) => {},
        Node::Split { dir, ratio, a, b } => {
            lemma_swap(*a, x, y, id);
            lemma_swap(*b, x, y, id);
        },
    }
}

/// Resizing changes ratios only: the leaves stay.
pub proof fn resizing_keeps_leaves(
    n: Node,
    target: PaneId,
    dh: u32,
    dv: u32,
    negated: u32,
    f: spec_fn(u32, u32) -> u32,
)
    ensures
        leaves_of(dragged(n, target, dh, dv, f).0) == leaves_of(n),
        resized(n, target, dh, negated, f) matches Some(m) ==> leaves_of(m) == leaves_of(n),
{
    lemma_edge_leaves(n, target, SplitDir::Horizontal, dh, f);
    lemma_edge_leaves(n, target, SplitDir::Vertical, dv, f);
    if let Some(m) = edge_resized(n, target, SplitDir::Horizontal, dh, f) {
        lemma_edge_leaves(m, target, SplitDir::Vertical, dv, f);
    }
    lemma_resized_leaves(n, target, dh, negated, f);
}

proof fn lemma_edge_leaves(
    n: Node,
    target: PaneId,
    want: SplitDir,
    delta: u32,
    f: spec_fn(u32, u32) -> u32,
)
    ensures
        edge_resized(n, target, want, delta, f) matches Some(m) ==> leaves_of(m) == leaves_of(n),
    decreases n,
{
    match n {
        Node::Leaf(_) => {},
        Node::Split { dir, ratio, a, b } => {
            lemma_edge_leaves(*a, target, want, delta, f);
            lemma_edge_leaves(*b, target, want, delta, f);
        },
    }
}

proof fn lemma_resized_leaves(
    n: Node,
    target: PaneId,
    delta: u32,
    negated: u32,
    f: spec_fn(u32, u32) -> u32,
)
    ensures
        resized(n, target, delta, negated, f) matches Some(m) ==> leaves_of(m) == leaves_of(n),
    decreases n,
{
    match n {
        Node::Leaf(_) => {},
        Node::Split { dir, ratio, a, b } => {
            lemma_resized_leaves(*a, target, delta, negated, f);
            lemma_resized_leaves(*b, target, delta, negated, f);
        },
    }
}

/// Whether a point lies inside a rectangle.
pub open spec fn covers(r: Rect, x: int, y: int) -> bool {
    r.x <= x < r.x + r.w && r.y <= y < r.y + r.h
}

/// How many of the rectangles cover a point.
pub open spec fn cover_count(rs: Seq<(PaneId, Rect)>, x: int, y: int) -> nat
    decreases rs.len(),
{
    if rs.len() == 0 {
        0
    } else {
        cover_count(rs.drop_last(), x, y) + (if covers(rs.last().1, x, y) {
            1nat
        } else {
            0
        })
    }
}

proof fn lemma_cover_concat(s: Seq<(PaneId, Rect)>, t: Seq<(PaneId, Rect)>, x: int, y: int)
    ensures
        cover_count(s + t, x, y) == cover_count(s, x, y) + cover_count(t, x, y),
    decreases t.len(),
{
    if t.len() == 0 {
        assert(s + t =~= s);
    } else {
        assert((s + t).drop_last() =~= s + t.drop_last());
        lemma_cover_concat(s, t.drop_last(), x, y);
    }
}

/// The rectangles tile the area: every point of it lies in exactly one of them, and no point
/// outside lies in any. They come in leaf order.
pub proof fn rectangles_tile_the_area(
    n: Node,
    area: Rect,
    f: spec_fn(u32, u32) -> u32,
    x: int,
    y: int,
)
    requires
        fits(area),
        forall|e: u32, r: u32| #[trigger] f(e, r) <= e,
    ensures
        cover_count(rects_of(n, area, f), x, y) == (if covers(area, x, y) {
            1nat
        } else {
            0
        }),
        rects_of(n, area, f).len() == leaves_of(n).len(),
        forall|i: int|
            0 <= i < leaves_of(n).len() ==> (#[trigger] rects_of(n, area, f)[i]).0 == leaves_of(
                n,
            )[i],
    decreases n,
{
    match n {
        Node::Leaf(id) => {
            let rs = seq![(id, area)];
            assert(rs.drop_last() =~= Seq::empty());
            assert(cover_count(rs.drop_last(), x, y) == 0);
        },
        Node::Split { dir, ratio, a, b } => {
            let part = f(extent(dir, area), ratio);
            let (p, q) = (first_part(dir, area, part), second_part(dir, area, part));
            rectangles_tile_the_area(*a, p, f, x, y);
            rectangles_tile_the_area(*b, q, f, x, y);
            lemma_cover_concat(rects_of(*a, p, f), rects_of(*b, q, f), x, y);
        },
    }
}

/// Focus moves to a pane that lies in the direction, and to none that is farther than another
/// such pane.
pub proof fn focus_moves_to_the_nearest(
    rs: Seq<(PaneId, Rect)>,
    active: PaneId,
    cur: Rect,
    dir: FocusDir,
    n: int,
)
    requires
        0 <= n <= rs.len(),
    ensures
        match nearest(rs, active, cur, dir, n) {
            Some(j) => {
                &&& 0 <= j < n
                &&& reachable(rs, active, cur, dir, j)
                &&& forall|i: int|
                    0 <= i < n && #[trigger] reachable(rs, active, cur, dir, i) ==> distance(
                        cur,
                        rs[j].1,
                        dir,
                    ) <= distance(cur, rs[i].1, dir)
            },
            None => forall|i: int| 0 <= i < n ==> !#[trigger] reachable(rs, active, cur, dir, i),
        },
    decreases n,
{
    if n > 0 {
        focus_moves_to_the_nearest(rs, active, cur, dir, n - 1);
    }
}

} // verus!
