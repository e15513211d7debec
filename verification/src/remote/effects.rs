//! What a peer's messages do to the session that mirrors it, and what goes back to the peer.
use vstd::prelude::*;

#[allow(unused_imports)]
use crate::mux::ids::{PaneId, WindowId};
#[allow(unused_imports)]
use crate::mux::layout::{first_of, has_leaf, leaves_of, lemma_has_leaf, Node, SplitDir};
#[allow(unused_imports)]
use crate::mux::pane::{pumped as pane_pumped, Backend, PaneView};
#[allow(unused_imports)]
use crate::mux::persist::ids_of;
#[allow(unused_imports)]
use crate::mux::session::{
    lemma_window_index, pane_of, window_index, with_pane, without_window, SessionView,
};
#[allow(unused_imports)]
use crate::mux::window::{
    holds, inserted_all, lemma_holds, lemma_inserted_all, lemma_kept, pruned, WindowView,
};
#[allow(unused_imports)]
use crate::pairs::{key_index, lemma_key_index, lookup, pairs_are_a_map, put, unique_keys, without_key, Pairs};
#[allow(unused_imports)]
use crate::remote::attachment::{
    built, enumerated, even_tree, forgotten, forwarded, laid_out, listing, made, notified, picked, place_of, placed, rehomed,
    target_of, versioned, window_built, window_closed, AttachmentView, Build, Mirror,
};
#[allow(unused_imports)]
use crate::remote::convert::{
    divided, divided_first, extent_along, leaves, leaves_from, leaves_of_first, nested, tree_of,
    LeafSize,
};
#[allow(unused_imports)]
use crate::remote::replies::{listed, too_old, Listed};
#[allow(unused_imports)]
use crate::remote::transport::{commanded, hex_char, hex_list, keys_command, TransportView};
#[allow(unused_imports)]
use crate::text::dec;
#[allow(unused_imports)]
use crate::tmux::layout::{CellView, LayoutView};
#[allow(unused_imports)]
use crate::tmux::parser::NotificationView;

verus! {

// ---------------------------------------------------------------------------
// Output and closed windows.
// ---------------------------------------------------------------------------

/// What a remote pane writes goes to the pane that mirrors it, and changes nothing else; what a
/// pane writes that is not mirrored goes nowhere.
pub proof fn output_reaches_its_mirror(
    m: Mirror,
    pane: u64,
    data: Seq<u8>,
    id: u64,
    f: spec_fn(u64, u64) -> u32,
)
    ensures
        ({
            let n = notified(m, NotificationView::Output { pane, data }, f);
            &&& n.att == m.att
            &&& n.ids == m.ids
            &&& lookup(m.att.panes, pane) is None ==> n == m
            &&& lookup(m.att.panes, pane) == Some(id) ==> (pane_of(m.session, PaneId(id)) matches Some(
                p,
            ) ==> p.backend is Remote ==> n.session == with_pane(
                m.session,
                PaneId(id),
                pane_pumped(p, data),
            ))
        }),
{
}

/// A remote window that is closed takes its local window along, and is no longer mirrored.
pub proof fn closed_windows_leave(m: Mirror, window: u64, i: int, f: spec_fn(u64, u64) -> u32)
    requires
        unique_keys(m.att.windows),
        0 <= i < m.session.windows.len(),
        lookup(m.att.windows, window) == Some(m.session.windows[i].id.0),
        forall|j: int|
            0 <= j < i ==> (#[trigger] m.session.windows[j]).id != m.session.windows[i].id,
    ensures
        ({
            let n = notified(m, NotificationView::WindowClose { window }, f);
            &&& n.session == without_window(m.session, i)
            &&& n.session.windows == m.session.windows.remove(i)
            &&& lookup(n.att.windows, window) is None
        }),
{
    lemma_window_index(m.session.windows, m.session.windows[i].id, 0);
    pairs_are_a_map(m.att.windows, window, 0, window);
}

// ---------------------------------------------------------------------------
// Layouts.
// ---------------------------------------------------------------------------

/// The leaves of a layout are its panes with their sizes, in the order in which they stand.
pub proof fn layouts_list_their_panes(
    w: u32,
    h: u32,
    x: u32,
    y: u32,
    pane: u64,
    cells: Seq<CellView>,
    n: nat,
)
    ensures
        w <= u16::MAX && h <= u16::MAX ==> leaves(CellView::Leaf { w, h, x, y, pane }) == seq![
            (pane, w as u16, h as u16),
        ],
        leaves_of_first(cells, 0).len() == 0,
        n < cells.len() ==> leaves_of_first(cells, n + 1) == leaves_of_first(cells, n) + leaves(
            cells[n as int],
        ),
{
}

/// A side-by-side cell becomes a side-by-side split and a stacked one a stacked split; the first
/// child's share is its part of the whole extent, and the panes follow in order.
pub proof fn splits_keep_direction_and_share(
    w: u32,
    h: u32,
    x: u32,
    y: u32,
    horizontal: bool,
    a: CellView,
    b: CellView,
    ids: Seq<PaneId>,
    at: int,
    f: spec_fn(u64, u64) -> u32,
)
    requires
        w > 0,
        h > 0,
    ensures
        ({
            let c = CellView::Split { w, h, x, y, horizontal, children: seq![a, b] };
            let (first_w, first_h) = match a {
                CellView::Leaf { w, h, .. } => (w, h),
                CellView::Split { w, h, .. } => (w, h),
            };
            tree_of(c, ids, at, f) == (if horizontal {
                Node::Split {
                    dir: SplitDir::Horizontal,
                    ratio: f(first_w as u64, w as u64),
                    a: Box::new(tree_of(a, ids, at, f)),
                    b: Box::new(tree_of(b, ids, at + leaves(a).len(), f)),
                }
            } else {
                Node::Split {
                    dir: SplitDir::Vertical,
                    ratio: f(first_h as u64, h as u64),
                    a: Box::new(tree_of(a, ids, at, f)),
                    b: Box::new(tree_of(b, ids, at + leaves(a).len(), f)),
                }
            })
        }),
{
    reveal_with_fuel(nested, 3);
    let cells = seq![a, b];
    let span = (if horizontal {
        w
    } else {
        h
    }) as u64;
    let first = extent_along(a, horizontal);
    assert(nested(
        cells,
        1,
        crate::remote::convert::less(span, first),
        horizontal,
        ids,
        at + leaves(a).len(),
        f,
    ) == tree_of(b, ids, at + leaves(a).len(), f));
}

proof fn lemma_leaves_total(cells: Seq<CellView>, i: nat)
    requires
        i <= cells.len(),
    ensures
        leaves_of_first(cells, i).len() + leaves_from(cells, i) == leaves_of_first(
            cells,
            cells.len(),
        ).len(),
    decreases cells.len() - i,
{
    if i < cells.len() {
        lemma_leaves_total(cells, i + 1);
    }
}

proof fn lemma_tree_leaves(c: CellView, ids: Seq<PaneId>, at: int, f: spec_fn(u64, u64) -> u32)
    requires
        divided(c),
        0 <= at,
        at + leaves(c).len() <= ids.len(),
    ensures
        leaves_of(tree_of(c, ids, at, f)) == ids.subrange(at, at + leaves(c).len()),
    decreases c, 0nat,
{
    match c {
        CellView::Leaf { .. } => {
            assert(ids.subrange(at, at + 1) =~= seq![ids[at]]);
        },
        CellView::Split { w, h, x, y, horizontal, children } => {
            let span = (if horizontal {
                w
            } else {
                h
            }) as u64;
            lemma_leaves_total(children, 0);
            lemma_nested_leaves(children, 0, span, horizontal, ids, at, f);
        },
    }
}

proof fn lemma_divided_at(cells: Seq<CellView>, n: nat, i: int)
    requires
        divided_first(cells, n),
        0 <= i < n <= cells.len(),
    ensures
        divided(cells[i]),
    decreases n,
{
    if i < n - 1 {
        lemma_divided_at(cells, (n - 1) as nat, i);
    }
}

proof fn lemma_nested_leaves(
    cells: Seq<CellView>,
    i: nat,
    span: u64,
    horizontal: bool,
    ids: Seq<PaneId>,
    at: int,
    f: spec_fn(u64, u64) -> u32,
)
    requires
        i < cells.len(),
        divided_first(cells, cells.len()),
        0 <= at,
        at + leaves_from(cells, i) <= ids.len(),
    ensures
        leaves_of(nested(cells, i, span, horizontal, ids, at, f)) == ids.subrange(
            at,
            at + leaves_from(cells, i),
        ),
    decreases cells, cells.len() - i,
{
    lemma_divided_at(cells, cells.len(), i as int);
    let k = leaves(cells[i as int]).len();
    lemma_tree_leaves(cells[i as int], ids, at, f);
    if i + 1 == cells.len() {
        assert(leaves_from(cells, i + 1) == 0);
    } else {
        let first = extent_along(cells[i as int], horizontal);
        lemma_nested_leaves(
            cells,
            i + 1,
            crate::remote::convert::less(span, first),
            horizontal,
            ids,
            at + k,
            f,
        );
        assert(ids.subrange(at, at + k) + ids.subrange(at + k, at + leaves_from(cells, i))
            =~= ids.subrange(at, at + leaves_from(cells, i)));
    }
}

/// Whether no remote pane stands twice among leaves.
pub open spec fn panes_differ(ls: Seq<LeafSize>) -> bool {
    forall|i: int, j: int| 0 <= i < j < ls.len() ==> (#[trigger] ls[i]).0 != (#[trigger] ls[j]).0
}

proof fn lemma_chosen(
    b: Build,
    s: SessionView,
    target: Option<WindowId>,
    moved: Seq<PaneView>,
    ls: Seq<LeafSize>,
    n: int,
)
    requires
        0 <= n <= ls.len(),
        unique_keys(b.map),
        panes_differ(ls),
    ensures
        ({
            let (c, chosen) = picked(b, s, target, moved, ls, n);
            &&& unique_keys(c.map)
            &&& chosen.len() == n
            &&& forall|k: int|
                0 <= k < n ==> lookup(c.map, (#[trigger] ls[k]).0) == Some(chosen[k].0)
        }),
    decreases n,
{
    if n > 0 {
        lemma_chosen(b, s, target, moved, ls, n - 1);
        let (c, chosen) = picked(b, s, target, moved, ls, n - 1);
        let (d, all) = picked(b, s, target, moved, ls, n);
        let remote = ls[n - 1].0;
        pairs_are_a_map(c.map, remote, c.ids.pane, remote);
        assert forall|k: int| 0 <= k < n implies lookup(d.map, (#[trigger] ls[k]).0) == Some(
            all[k].0,
        ) by {
            if k < n - 1 {
                assert(ls[k].0 != ls[n - 1].0);
                pairs_are_a_map(c.map, remote, c.ids.pane, ls[k].0);
                assert(all[k] == chosen[k]);
            }
        }
    }
}

proof fn lemma_remembered(map: Pairs<u64>, panes: Seq<PaneView>, n: int, key: u64, v: u64)
    requires
        0 <= n <= panes.len(),
        unique_keys(map),
        lookup(map, key) == Some(v),
        !holds(panes, PaneId(v)),
    ensures
        unique_keys(forgotten(map, panes, n)),
        lookup(forgotten(map, panes, n), key) == Some(v),
    decreases n,
{
    if n > 0 {
        lemma_remembered(map, panes, n - 1, key, v);
        let rest = forgotten(map, panes, n - 1);
        let p = panes[n - 1];
        lemma_holds(panes, PaneId(v));
        assert(p.id != PaneId(v));
        if let Some(r) = p.remote_id() {
            pairs_are_a_map(rest, r, 0, key);
        }
    }
}

/// A window shows what its layout says: once a layout came, the remote window is mirrored by a local
/// one, whose leaves are, one for one and in order, the local panes that mirror the remote panes of
/// the layout.
pub proof fn layouts_are_mirrored_pane_by_pane(
    m: Mirror,
    window: u64,
    layout: LayoutView,
    f: spec_fn(u64, u64) -> u32,
)
    requires
        divided(layout.root),
        panes_differ(leaves(layout.root)),
        unique_keys(m.att.panes),
        unique_keys(m.att.windows),
        forall|i: int|
            0 <= i < m.session.windows.len() ==> crate::mux::window::distinct(
                (#[trigger] m.session.windows[i]).panes,
            ),
        crate::mux::session::tidy(m.session),
        crate::remote::laws::windows_below(m.session, m.ids.window),
    ensures
        ({
            let n = laid_out(m, window, layout, f);
            let ls = leaves(layout.root);
            exists|j: int|
                {
                    let w = #[trigger] n.session.windows[j];
                    &&& 0 <= j < n.session.windows.len()
                    &&& lookup(n.att.windows, window) == Some(w.id.0)
                    &&& w.root == tree_of(layout.root, leaves_of(w.root), 0, f)
                    &&& leaves_of(w.root).len() == ls.len()
                    &&& forall|k: int|
                        0 <= k < ls.len() ==> lookup(n.att.panes, (#[trigger] ls[k]).0) == Some(
                            leaves_of(w.root)[k].0,
                        )
                }
        }),
{
    let ls = leaves(layout.root);
    let target = target_of(m.att, window);
    let (s, moved) = rehomed(m.att.panes, target, m.session, ls, ls.len() as int);
    let b0 = Build { ids: m.ids, map: m.att.panes, panes: Seq::empty() };
    let (b, chosen) = picked(b0, s, target, moved, ls, ls.len() as int);
    let root = tree_of(layout.root, chosen, 0, f);
    let added = b.panes + moved;
    let n = laid_out(m, window, layout, f);
    lemma_chosen(b0, s, target, moved, ls, ls.len() as int);
    lemma_tree_leaves(layout.root, chosen, 0, f);
    assert(chosen.subrange(0, chosen.len() as int) =~= chosen);
    crate::remote::keeping::lemma_rehomed(
        m.att.panes,
        target,
        m.session,
        ls,
        ls.len() as int,
        PaneId(0),
        m.ids.window,
    );
    match place_of(s, target) {
        Some(i) => {
            lemma_window_index(s.windows, target->0, 0);
            let w = n.session.windows[i];
            let all = inserted_all(s.windows[i].panes, added);
            let gone = pruned(all, root);
            lemma_inserted_all(s.windows[i].panes, added);
            lemma_kept(all, root);
            assert forall|k: int| 0 <= k < ls.len() implies lookup(
                n.att.panes,
                (#[trigger] ls[k]).0,
            ) == Some(leaves_of(w.root)[k].0) by {
                assert(leaves_of(root)[k] == chosen[k]);
                lemma_has_leaf(root, chosen[k]);
                assert(leaves_of(root).contains(chosen[k]));
                assert(!holds(gone, chosen[k]));
                lemma_remembered(b.map, gone, gone.len() as int, ls[k].0, chosen[k].0);
            }
            assert(n.session.windows[i].id == target->0);
        },
        None => {
            let j = s.windows.len() as int;
            pairs_are_a_map(m.att.windows, window, b.ids.window, window);
            assert(n.session.windows[j].root == root);
        },
    }
}

/// A window of the listing is built from the panes that are listed for it: each listed pane of the
/// window gets a mirror, of its size and under a new id, in the order of the list.
pub proof fn listed_panes_are_built_in_order(
    b: Build,
    all: Seq<Listed>,
    window: u64,
    n: int,
)
    requires
        0 < n <= all.len(),
        built(b, all, window, n - 1).ids.pane < u64::MAX,
    ensures
        ({
            let (w, pane, cols, rows) = all[n - 1];
            let (p, q) = (built(b, all, window, n - 1), built(b, all, window, n));
            &&& built(b, all, window, 0) == b
            &&& w != window ==> q == p
            &&& w == window ==> {
                let made = q.panes.last();
                &&& q.panes.len() == p.panes.len() + 1
                &&& q.panes.drop_last() == p.panes
                &&& made.id.0 == p.ids.pane
                &&& made.backend == Backend::Remote(pane)
                &&& cols > 0 ==> made.terminal.cols == cols
                &&& rows > 0 ==> made.terminal.rows == rows
                &&& q.ids.pane == p.ids.pane + 1
                &&& q.map == put(p.map, pane, p.ids.pane)
            }
        }),
{
    let (p, q) = (built(b, all, window, n - 1), built(b, all, window, n));
    if all[n - 1].0 == window {
        assert(q.panes.drop_last() =~= p.panes);
    }
}

// ---------------------------------------------------------------------------
// What goes to the peer.
// ---------------------------------------------------------------------------

/// Bytes are typed in hexadecimal: each as a blank and two digits.
pub proof fn keys_are_typed_in_hexadecimal(pane: u64, bytes: Seq<u8>, i: int)
    ensures
        hex_list(bytes).len() == 3 * bytes.len(),
        0 <= i < bytes.len() ==> ({
            let digits = "0123456789abcdef"@;
            &&& hex_list(bytes)[3 * i] == ' '
            &&& hex_list(bytes)[3 * i + 1] == digits[bytes[i] as int / 16]
            &&& hex_list(bytes)[3 * i + 2] == digits[bytes[i] as int % 16]
        }),
        keys_command(pane, bytes) == "send-keys -t %"@ + dec(pane as nat) + " -H"@ + hex_list(bytes),
    decreases bytes.len(),
{
    if bytes.len() > 0 {
        let front = bytes.drop_last();
        keys_are_typed_in_hexadecimal(pane, front, i);
        let b = bytes.last() as int;
        lemma_hex_digit(b / 16);
        lemma_hex_digit(b % 16);
        if i == bytes.len() - 1 {
            assert(bytes[i] == bytes.last());
        }
    }
}

proof fn lemma_hex_digit(n: int)
    requires
        0 <= n < 16,
    ensures
        hex_char(n) == "0123456789abcdef"@[n],
{
    reveal_strlit("0123456789abcdef");
}

/// Keystrokes that wait go out in order, each to its pane.
pub proof fn keystrokes_go_out_in_order(t: TransportView, input: Seq<(u64, Seq<u8>)>, n: int, k: int)
    requires
        0 <= n <= input.len(),
        t.open,
    ensures
        ({
            let u = forwarded(t, input, n);
            &&& u.open
            &&& u.outbox.len() == t.outbox.len() + n
            &&& u.outbox.take(t.outbox.len() as int) == t.outbox
            &&& 0 <= k < n ==> u.outbox[t.outbox.len() + k] == "send-keys -t %"@ + dec(
                input[k].0 as nat,
            ) + " -H"@ + hex_list(input[k].1)
            &&& u.queue == t.queue
        }),
    decreases n,
{
    if n > 0 {
        keystrokes_go_out_in_order(t, input, n - 1, k);
        let u = forwarded(t, input, n - 1);
        assert(forwarded(t, input, n).outbox.take(t.outbox.len() as int) =~= u.outbox.take(
            t.outbox.len() as int,
        ));
    } else {
        assert(t.outbox.take(t.outbox.len() as int) =~= t.outbox);
    }
}

/// A command goes out behind those that wait, while the connection takes commands; nothing else
/// changes but the count.
pub proof fn commands_go_out_while_open(t: TransportView, command: Seq<char>)
    requires
        t.sent < u64::MAX,
    ensures
        t.open ==> commanded(t, command) == (TransportView {
            outbox: t.outbox.push(command),
            sent: (t.sent + 1) as u64,
            ..t
        }),
        !t.open ==> commanded(t, command) == (TransportView { sent: (t.sent + 1) as u64, ..t }),
{
}

/// Flow control came with version 3.2.
pub proof fn flow_control_came_with_three_two(major: u32, minor: u32)
    ensures
        major < 3 ==> too_old((major, minor)),
        major == 3 && minor < 2 ==> too_old((major, minor)),
        major == 3 && minor >= 2 ==> !too_old((major, minor)),
        major > 3 ==> !too_old((major, minor)),
{
}

// ---------------------------------------------------------------------------
// Listings.
// ---------------------------------------------------------------------------

/// The panes of a listing are those that its lines list; other lines add nothing.
pub proof fn listings_hold_their_lines(body: Seq<Seq<u8>>, n: int, x: Listed)
    requires
        0 <= n <= body.len(),
    ensures
        listing(body, n).contains(x) == (exists|i: int|
            0 <= i < n && #[trigger] listed(body[i]) == Some(x)),
        listing(body, n).len() <= n,
    decreases n,
{
    if n > 0 {
        listings_hold_their_lines(body, n - 1, x);
        let front = listing(body, n - 1);
        if let Some(l) = listed(body[n - 1]) {
            let all = front.push(l);
            assert(all[front.len() as int] == l);
            if front.contains(x) {
                let k = choose|k: int| 0 <= k < front.len() && front[k] == x;
                assert(all[k] == x);
            }
            if all.contains(x) && x != l {
                let k = choose|k: int| 0 <= k < all.len() && all[k] == x;
                assert(front[k] == x);
            }
        }
    }
}

proof fn lemma_built_some(b: Build, all: Seq<Listed>, window: u64, n: int, k: int)
    requires
        0 <= k < n <= all.len(),
        all[k].0 == window,
    ensures
        built(b, all, window, n).panes.len() > b.panes.len(),
    decreases n,
{
    lemma_built_more(b, all, window, n - 1);
    if k < n - 1 {
        lemma_built_some(b, all, window, n - 1, k);
    }
}

proof fn lemma_built_more(b: Build, all: Seq<Listed>, window: u64, n: int)
    requires
        0 <= n <= all.len(),
    ensures
        built(b, all, window, n).panes.len() >= b.panes.len(),
    decreases n,
{
    if n > 0 {
        lemma_built_more(b, all, window, n - 1);
    }
}

proof fn lemma_even_tree(ids: Seq<PaneId>, at: int, g: spec_fn(u64, u64) -> u32)
    requires
        0 <= at < ids.len(),
    ensures
        leaves_of(even_tree(ids, at, g)) == ids.skip(at),
        first_of(even_tree(ids, at, g)) == ids[at],
    decreases ids.len() - at,
{
    reveal_with_fuel(leaves_of, 2);
    reveal_with_fuel(first_of, 2);
    if at + 1 < ids.len() {
        lemma_even_tree(ids, at + 1, g);
        assert(seq![ids[at]] + ids.skip(at + 1) =~= ids.skip(at));
    } else {
        assert(seq![ids[at]] =~= ids.skip(at));
    }
}

/// A listed window that has a pane gets a window of its own, behind the others and without the
/// focus: it shows the mirrors of its panes side by side, in the order of the list, the first active.
pub proof fn listed_windows_are_opened_behind(
    m: Mirror,
    all: Seq<Listed>,
    window: u64,
    g: spec_fn(u64, u64) -> u32,
    k: int,
)
    requires
        0 <= k < all.len(),
        all[k].0 == window,
        unique_keys(m.att.windows),
    ensures
        ({
            let n = window_built(m, all, window, g);
            let b = built(
                Build { ids: m.ids, map: m.att.panes, panes: Seq::empty() },
                all,
                window,
                all.len() as int,
            );
            let w = n.session.windows.last();
            &&& n.session.windows.len() == m.session.windows.len() + 1
            &&& n.session.windows.drop_last() == m.session.windows
            &&& n.session.active == m.session.active
            &&& w.id == WindowId(b.ids.window)
            &&& leaves_of(w.root).len() == b.panes.len()
            &&& forall|i: int|
                0 <= i < b.panes.len() ==> #[trigger] leaves_of(w.root)[i] == b.panes[i].id
            &&& b.panes.len() > 0 && w.active == b.panes[0].id
            &&& b.panes.len() > 1 ==> (w.root matches Node::Split { dir, ratio, .. } && dir
                == SplitDir::Horizontal && ratio == g(1, b.panes.len() as u64))
            &&& n.att.panes == b.map
            &&& lookup(n.att.windows, window) == Some(b.ids.window)
        }),
{
    let start = Build { ids: m.ids, map: m.att.panes, panes: Seq::empty() };
    let b = built(start, all, window, all.len() as int);
    lemma_built_some(start, all, window, all.len() as int, k);
    let ids = ids_of(b.panes);
    lemma_even_tree(ids, 0, g);
    assert(ids.skip(0) =~= ids);
    let n = window_built(m, all, window, g);
    assert(n.session.windows.drop_last() =~= m.session.windows);
    pairs_are_a_map(m.att.windows, window, b.ids.window, window);
}

proof fn lemma_windows_stay(
    m: Mirror,
    all: Seq<Listed>,
    n: int,
    g: spec_fn(u64, u64) -> u32,
    window: u64,
)
    requires
        0 <= n <= all.len(),
        unique_keys(m.att.windows),
    ensures
        unique_keys(enumerated(m, all, n, g).att.windows),
        lookup(m.att.windows, window) is Some ==> lookup(
            enumerated(m, all, n, g).att.windows,
            window,
        ) == lookup(m.att.windows, window),
    decreases n,
{
    if n > 0 {
        lemma_windows_stay(m, all, n - 1, g, window);
        let p = enumerated(m, all, n - 1, g);
        let b = built(
            Build { ids: p.ids, map: p.att.panes, panes: Seq::empty() },
            all,
            all[n - 1].0,
            all.len() as int,
        );
        pairs_are_a_map(p.att.windows, all[n - 1].0, b.ids.window, window);
    }
}

/// Every window of the listing is mirrored in the end, and one that was mirrored before stays as it
/// was.
pub proof fn every_listed_window_is_mirrored(
    m: Mirror,
    all: Seq<Listed>,
    n: int,
    g: spec_fn(u64, u64) -> u32,
    k: int,
)
    requires
        0 <= k < n <= all.len(),
        unique_keys(m.att.windows),
    ensures
        lookup(enumerated(m, all, n, g).att.windows, all[k].0) is Some,
        lookup(m.att.windows, all[k].0) is Some ==> lookup(
            enumerated(m, all, n, g).att.windows,
            all[k].0,
        ) == lookup(m.att.windows, all[k].0),
        enumerated(m, all, n, g).session.active == m.session.active,
    decreases n,
{
    lemma_windows_stay(m, all, n, g, all[k].0);
    lemma_windows_stay(m, all, n - 1, g, all[k].0);
    let p = enumerated(m, all, n - 1, g);
    if n > 1 {
        every_listed_window_is_mirrored(
            m,
            all,
            n - 1,
            g,
            if k < n - 1 {
                k
            } else {
                0
            },
        );
    }
    if lookup(p.att.windows, all[n - 1].0) is None {
        listed_windows_are_opened_behind(p, all, all[n - 1].0, g, n - 1);
        let b = built(
            Build { ids: p.ids, map: p.att.panes, panes: Seq::empty() },
            all,
            all[n - 1].0,
            all.len() as int,
        );
        pairs_are_a_map(p.att.windows, all[n - 1].0, b.ids.window, all[k].0);
    }
}

} // verus!
