//! tmux layouts as split trees.
//!
//! A tmux layout is a tree of cells with any number of children and absolute sizes; a split tree is
//! binary, with a ratio per split. A split with children `c1, c2, …, cn` becomes
//! `Split(c1, Split(c2, … Split(cn-1, cn)))`. The ratio of each level is the first child's share
//! of the span that is left: the split's own extent at first, less each child that was taken off.
//! A tmux size leaves out the line between siblings, so the last sibling takes those cells.
use vstd::prelude::*;

use crate::mux::ids::PaneId;
use crate::mux::layout::{Node, SplitDir, HALF};
#[allow(unused_imports)]
use crate::mux::layout::leaves_of;
use crate::tmux::layout::{Cell, Layout};
#[allow(unused_imports)]
use crate::tmux::layout::{
    cell_at, cell_views, cells_at, geometry_at, layout_of, CellView, MAX_DEPTH,
};
#[allow(unused_imports)]
use crate::text::find;
#[allow(unused_imports)]
use vstd::utf8::encode_utf8;

verus! {

/// A leaf of a layout: the remote pane and its size, cut to 16 bits.
pub type LeafSize = (u64, u16, u16);

/// A size cut to 16 bits.
pub open spec fn size16(n: u32) -> u16 {
    if n > u16::MAX {
        u16::MAX
    } else {
        n as u16
    }
}

/// The leaves of a cell, from left to right.
pub open spec fn leaves(c: CellView) -> Seq<LeafSize>
    decreases c, 0nat,
{
    match c {
        CellView::Leaf { w, h, x, y, pane } => seq![(pane, size16(w), size16(h))],
        CellView::Split { children, .. } => leaves_of_first(children, children.len()),
    }
}

/// The leaves of the first `n` cells.
pub open spec fn leaves_of_first(cells: Seq<CellView>, n: nat) -> Seq<LeafSize>
    decreases cells, n,
{
    if n == 0 || n > cells.len() {
        Seq::empty()
    } else {
        leaves_of_first(cells, (n - 1) as nat) + leaves(cells[n - 1])
    }
}

/// Whether every split has a child.
pub open spec fn divided(c: CellView) -> bool
    decreases c, 0nat,
{
    match c {
        CellView::Leaf { .. } => true,
        CellView::Split { children, .. } => children.len() > 0 && divided_first(
            children,
            children.len(),
        ),
    }
}

/// Whether every split within the first `n` cells has a child.
pub open spec fn divided_first(cells: Seq<CellView>, n: nat) -> bool
    decreases cells, n,
{
    n == 0 || n > cells.len() || (divided_first(cells, (n - 1) as nat) && divided(cells[n - 1]))
}

proof fn lemma_divided(cells: Seq<CellView>, n: nat, i: int)
    requires
        0 <= i < n <= cells.len(),
        divided_first(cells, n),
    ensures
        divided(cells[i]),
    decreases n,
{
    if i != n - 1 {
        lemma_divided(cells, (n - 1) as nat, i);
    }
}

proof fn lemma_undivided(cells: Seq<CellView>, n: nat, i: int)
    requires
        0 <= i < n <= cells.len(),
        !divided(cells[i]),
    ensures
        !divided_first(cells, n),
    decreases n,
{
    if i != n - 1 {
        lemma_undivided(cells, (n - 1) as nat, i);
    }
}

/// A cell's extent along a split's axis.
pub open spec fn extent_along(c: CellView, horizontal: bool) -> u32 {
    match c {
        CellView::Leaf { w, h, .. } => if horizontal {
            w
        } else {
            h
        },
        CellView::Split { w, h, .. } => if horizontal {
            w
        } else {
            h
        },
    }
}

/// What is left of a span.
pub open spec fn less(span: u64, n: u32) -> u64 {
    if span >= n {
        (span - n) as u64
    } else {
        0
    }
}

/// The ratio of a first child. A span of zero cannot be divided, and is cut in half.
pub open spec fn ratio_of(first: u32, span: u64, f: spec_fn(u64, u64) -> u32) -> u32 {
    if span == 0 {
        HALF
    } else {
        f(first as u64, span)
    }
}

/// The split tree of a cell, whose leaves take the panes of `ids` from index `at` on.
pub open spec fn tree_of(
    c: CellView,
    ids: Seq<PaneId>,
    at: int,
    f: spec_fn(u64, u64) -> u32,
) -> Node
    decreases c, 0nat,
{
    match c {
        CellView::Leaf { .. } => Node::Leaf(ids[at]),
        CellView::Split { w, h, x, y, horizontal, children } => nested(
            children,
            0,
            (if horizontal {
                w
            } else {
                h
            }) as u64,
            horizontal,
            ids,
            at,
            f,
        ),
    }
}

/// The split tree of the cells from index `i` on.
pub open spec fn nested(
    cells: Seq<CellView>,
    i: nat,
    span: u64,
    horizontal: bool,
    ids: Seq<PaneId>,
    at: int,
    f: spec_fn(u64, u64) -> u32,
) -> Node
    decreases cells, cells.len() - i,
{
    if i >= cells.len() {
        arbitrary()
    } else if i + 1 == cells.len() {
        tree_of(cells[i as int], ids, at, f)
    } else {
        let first = extent_along(cells[i as int], horizontal);
        Node::Split {
            dir: if horizontal {
                SplitDir::Horizontal
            } else {
                SplitDir::Vertical
            },
            ratio: ratio_of(first, span, f),
            a: Box::new(tree_of(cells[i as int], ids, at, f)),
            b: Box::new(
                nested(
                    cells,
                    i + 1,
                    less(span, first),
                    horizontal,
                    ids,
                    at + leaves(cells[i as int]).len(),
                    f,
                ),
            ),
        }
    }
}

/// Whether a function computes the bits of a first child's share of a span.
pub open spec fn gives<C: Fn(u64, u64) -> u32>(c: C, f: spec_fn(u64, u64) -> u32) -> bool {
    forall|a: u64, b: u64, r: u32| #[trigger] call_ensures(c, (a, b), r) ==> r == f(a, b)
}

/// Whether a closure computes a function of its arguments.
pub open spec fn is_share<C: Fn(u64, u64) -> u32>(c: C) -> bool {
    &&& callable(c)
    &&& forall|a: u64, b: u64, r: u32, s: u32|
        #[trigger] call_ensures(c, (a, b), r) && #[trigger] call_ensures(c, (a, b), s) ==> r == s
}

/// The function that a closure computes.
pub open spec fn share_of<C: Fn(u64, u64) -> u32>(c: C) -> spec_fn(u64, u64) -> u32 {
    |a: u64, b: u64| choose|r: u32| call_ensures(c, (a, b), r)
}

/// A closure gives what the function that it computes says.
pub proof fn lemma_share<C: Fn(u64, u64) -> u32>(c: C)
    requires
        is_share(c),
    ensures
        gives(c, share_of(c)),
{
    let f = share_of(c);
    assert forall|a: u64, b: u64, r: u32| #[trigger] call_ensures(c, (a, b), r) implies r == f(
        a,
        b,
    ) by {
        let s = choose|s: u32| call_ensures(c, (a, b), s);
        assert(call_ensures(c, (a, b), s));
    }
}

/// Whether a function can be called on everything.
pub open spec fn callable<C: Fn(u64, u64) -> u32>(c: C) -> bool {
    forall|a: u64, b: u64| #[trigger] call_requires(c, (a, b))
}

/// A cell's extent along a split's axis: its width, or its height.
pub fn size_along(cell: &Cell, horizontal: bool) -> (n: u32)
    ensures
        n == extent_along(cell@, horizontal),
{
    match cell {
        Cell::Leaf { w, h, .. } => if horizontal {
            *w
        } else {
            *h
        },
        Cell::Split { w, h, .. } => if horizontal {
            *w
        } else {
            *h
        },
    }
}

fn to16(n: u32) -> (r: u16)
    ensures
        r == size16(n),
{
    if n > 65535 {
        65535
    } else {
        n as u16
    }
}

/// Appends the leaves of a cell, from left to right: the sizes at which remote panes are created.
pub fn leaf_sizes(cell: &Cell, out: &mut Vec<LeafSize>)
    ensures
        final(out)@ == old(out)@ + leaves(cell@),
    decreases cell,
{
    match cell {
        Cell::Leaf { w, h, pane, .. } => {
            out.push((*pane, to16(*w), to16(*h)));
            assert(out@ =~= old(out)@ + leaves(cell@));
        },
        Cell::Split { children, .. } => {
            let ghost views = cell_views(children@);
            assert(views =~= cell@->children);
            let mut i: usize = 0;
            assert(out@ =~= old(out)@ + leaves_of_first(views, 0));
            while i < children.len()
                invariant
                    i <= children@.len(),
                    cell matches Cell::Split { children: c, .. } && c == children,
                    views == cell_views(children@),
                    out@ == old(out)@ + leaves_of_first(views, i as nat),
                decreases children@.len() - i,
            {
                leaf_sizes(&children[i], out);
                assert(out@ =~= old(out)@ + leaves_of_first(views, (i + 1) as nat));
                i = i + 1;
            }
        },
    }
}

/// Whether every split of a cell has a child.
pub fn is_divided(cell: &Cell) -> (r: bool)
    ensures
        r == divided(cell@),
    decreases cell,
{
    match cell {
        Cell::Leaf { .. } => true,
        Cell::Split { children, .. } => {
            let ghost views = cell_views(children@);
            assert(views =~= cell@->children);
            if children.len() == 0 {
                return false;
            }
            let mut i: usize = 0;
            while i < children.len()
                invariant
                    i <= children@.len(),
                    cell matches Cell::Split { children: c, .. } && c == children,
                    views == cell_views(children@),
                    views == cell@->children,
                    divided_first(views, i as nat),
                decreases children@.len() - i,
            {
                if !is_divided(&children[i]) {
                    proof {
                        lemma_undivided(views, children@.len(), i as int);
                    }
                    return false;
                }
                i = i + 1;
            }
            true
        },
    }
}

fn cell_to_node<S: Fn(u64, u64) -> u32>(
    cell: &Cell,
    ids: &[PaneId],
    at: &mut usize,
    share: &S,
) -> (n: Node)
    requires
        divided(cell@),
        *old(at) + leaves(cell@).len() <= ids@.len(),
        callable(*share),
    ensures
        *final(at) == *old(at) + leaves(cell@).len(),
        forall|f: spec_fn(u64, u64) -> u32| #[trigger]
            gives(*share, f) ==> n == tree_of(cell@, ids@, *old(at) as int, f),
        leaves_of(n) == ids@.subrange(*old(at) as int, *final(at) as int),
    decreases cell, 0nat,
{
    match cell {
        Cell::Leaf { .. } => {
            let id = ids[*at];
            *at = *at + 1;
            assert(leaves_of(Node::Leaf(id)) =~= ids@.subrange(*old(at) as int, *at as int));
            Node::Leaf(id)
        },
        Cell::Split { w, h, horizontal, children, .. } => {
            assert(cell_views(children@) =~= cell@->children);
            let span: u32 = if *horizontal {
                *w
            } else {
                *h
            };
            proof {
                lemma_leaves_suffix(cell_views(children@), 0);
            }
            nest(children, 0, span as u64, *horizontal, ids, at, share)
        },
    }
}

/// How many leaves the cells from index `i` on have.
pub open spec fn leaves_from(cells: Seq<CellView>, i: nat) -> nat
    decreases cells.len() - i,
{
    if i >= cells.len() {
        0
    } else {
        leaves(cells[i as int]).len() + leaves_from(cells, i + 1)
    }
}

proof fn lemma_leaves_suffix(cells: Seq<CellView>, i: nat)
    requires
        i <= cells.len(),
    ensures
        leaves_of_first(cells, i).len() + leaves_from(cells, i) == leaves_of_first(
            cells,
            cells.len(),
        ).len(),
    decreases cells.len() - i,
{
    if i < cells.len() {
        lemma_leaves_suffix(cells, i + 1);
    }
}

fn nest<S: Fn(u64, u64) -> u32>(
    children: &Vec<Cell>,
    i: usize,
    span: u64,
    horizontal: bool,
    ids: &[PaneId],
    at: &mut usize,
    share: &S,
) -> (n: Node)
    requires
        i < children@.len(),
        divided_first(cell_views(children@), children@.len()),
        *old(at) + leaves_from(cell_views(children@), i as nat) <= ids@.len(),
        callable(*share),
    ensures
        *final(at) == *old(at) + leaves_from(cell_views(children@), i as nat),
        forall|f: spec_fn(u64, u64) -> u32| #[trigger]
            gives(*share, f) ==> n == nested(
                cell_views(children@),
                i as nat,
                span,
                horizontal,
                ids@,
                *old(at) as int,
                f,
            ),
        leaves_of(n) == ids@.subrange(*old(at) as int, *final(at) as int),
    decreases children, children@.len() - i,
{
    let ghost views = cell_views(children@);
    proof {
        lemma_divided(views, children@.len(), i as int);
    }
    if i == children.len() - 1 {
        assert(leaves_from(views, (i + 1) as nat) == 0);
        return cell_to_node(&children[i], ids, at, share);
    }
    let first: u32 = size_along(&children[i], horizontal);
    let ratio: u32 = if span == 0 {
        HALF
    } else {
        share(first as u64, span)
    };
    let dir = if horizontal {
        SplitDir::Horizontal
    } else {
        SplitDir::Vertical
    };
    let a = cell_to_node(&children[i], ids, at, share);
    let ghost mid = *at as int;
    let rest: u64 = if span >= first as u64 {
        span - first as u64
    } else {
        0
    };
    let b = nest(children, i + 1, rest, horizontal, ids, at, share);
    assert(ids@.subrange(*old(at) as int, mid) + ids@.subrange(mid, *at as int)
        =~= ids@.subrange(*old(at) as int, *at as int));
    Node::Split { dir, ratio, a: Box::new(a), b: Box::new(b) }
}

/// The remote panes of leaves.
pub open spec fn panes_of_leaves(l: Seq<LeafSize>) -> Seq<u64> {
    Seq::new(l.len(), |i: int| l[i].0)
}

/// Converts a layout into a split tree. `ids` are the local panes for its leaves, from left to
/// right; the remote panes are returned in that order. `share` gives the bits of a first child's
/// share of a span.
pub fn layout_to_node<S: Fn(u64, u64) -> u32>(layout: &Layout, ids: &[PaneId], share: &S) -> (r: (
    Node,
    Vec<u64>,
))
    requires
        divided(layout@.root),
        ids@.len() == leaves(layout@.root).len(),
        callable(*share),
    ensures
        forall|f: spec_fn(u64, u64) -> u32| #[trigger]
            gives(*share, f) ==> r.0 == tree_of(layout@.root, ids@, 0, f),
        leaves_of(r.0) == ids@,
        r.1@ == panes_of_leaves(leaves(layout@.root)),
{
    let mut sizes: Vec<LeafSize> = Vec::new();
    leaf_sizes(&layout.root, &mut sizes);
    assert(sizes@ =~= leaves(layout@.root));
    let mut order: Vec<u64> = Vec::new();
    let mut i: usize = 0;
    while i < sizes.len()
        invariant
            i <= sizes@.len(),
            order@.len() == i,
            forall|j: int| 0 <= j < i ==> #[trigger] order@[j] == sizes@[j].0,
        decreases sizes@.len() - i,
    {
        order.push(sizes[i].0);
        i = i + 1;
    }
    assert(order@ =~= panes_of_leaves(leaves(layout@.root)));
    let mut at: usize = 0;
    let n = cell_to_node(&layout.root, ids, &mut at, share);
    assert(ids@.subrange(0, ids@.len() as int) =~= ids@);
    (n, order)
}

/// Every split of an accepted layout has a child, so every accepted layout has a split tree.
pub proof fn accepted_layouts_are_divided(s: Seq<char>)
    ensures
        layout_of(s) matches Ok(l) ==> divided(l.root),
{
    if let Some(i) = find(s, ',', 0) {
        lemma_cell_divided(encode_utf8(s), encode_utf8(s.take(i)).len() as int + 1, 0);
    }
}

proof fn lemma_divided_push(cells: Seq<CellView>, c: CellView, n: nat)
    requires
        n <= cells.len(),
    ensures
        divided_first(cells.push(c), n) == divided_first(cells, n),
    decreases n,
{
    if n > 0 {
        lemma_divided_push(cells, c, (n - 1) as nat);
    }
}

proof fn lemma_cell_divided(b: Seq<u8>, pos: int, depth: nat)
    ensures
        cell_at(b, pos, depth) matches Ok((c, q)) ==> divided(c),
    decreases MAX_DEPTH + 1 - depth, b.len() - pos, 0nat,
{
    if depth <= MAX_DEPTH {
        if let Ok((w, h, x, y, p)) = geometry_at(b, pos) {
            if 0 <= p < b.len() && (b[p] == 123 || b[p] == 91) && b[p] != 44 {
                let close: u8 = if b[p] == 123 {
                    125
                } else {
                    93
                };
                lemma_cell_divided(b, p + 1, depth + 1);
                if let Ok((first, q)) = cell_at(b, p + 1, depth + 1) {
                    assert(divided_first(seq![first], 0));
                    assert(divided_first(seq![first], 1));
                    lemma_cells_divided(b, q, depth + 1, close, seq![first]);
                }
            }
        }
    }
}

proof fn lemma_cells_divided(b: Seq<u8>, pos: int, depth: nat, close: u8, seen: Seq<CellView>)
    requires
        seen.len() > 0,
        divided_first(seen, seen.len()),
    ensures
        cells_at(b, pos, depth, close, seen) matches Ok((cs, q)) ==> cs.len() > 0
            && divided_first(cs, cs.len()),
    decreases MAX_DEPTH + 1 - depth, b.len() - pos, 1nat,
{
    if 0 <= pos < b.len() && b[pos] == 44 {
        lemma_cell_divided(b, pos + 1, depth);
        if let Ok((c, q)) = cell_at(b, pos + 1, depth) {
            if pos < q <= b.len() {
                lemma_divided_push(seen, c, seen.len());
                lemma_cells_divided(b, q, depth, close, seen.push(c));
            }
        }
    }
}

} // verus!
