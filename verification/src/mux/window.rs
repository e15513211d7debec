//! A window: a split tree of panes, one of them active, with an optional zoom.
use vstd::prelude::*;
use vstd::string::*;

use crate::mux::attention::Attention;
use crate::mux::ids::{Ids, PaneId, WindowId};
#[allow(unused_imports)]
use crate::mux::ids::after;
use crate::mux::layout::{neighbor, rects, FocusDir, Node, Rect, SplitDir};
#[allow(unused_imports)]
use crate::mux::layout::{
    computes, cutting, dragged, first_of, has_leaf, leaves_of, lemma_first_is_leaf, lemma_has_leaf,
    neighbor_of, panes_listed, rects_of, removing_keeps_the_others, resized, split_at,
    splitting_adds_one_leaf, swapped, swapping_keeps_shape_and_panes, total, without,
};
use crate::mux::pane::Pane;
#[allow(unused_imports)]
use crate::mux::pane::PaneView;
use crate::mux::workspace::{cwd_name, PrBadge, WorkspaceInfo};
#[allow(unused_imports)]
use crate::mux::workspace::{opt_badge, path_name, PrBadgeView, WorkspaceInfoView};
use crate::text::clone_opt;
#[allow(unused_imports)]
use crate::text::opt_text;

verus! {

// ---------------------------------------------------------------------------
// Collections of panes, keyed by id.
// ---------------------------------------------------------------------------

/// The mathematical values of a list of panes.
pub open spec fn panes_view(panes: Seq<Pane>) -> Seq<PaneView> {
    Seq::new(panes.len(), |i: int| panes[i]@)
}

/// Index of the pane with an id, at or after `from`.
pub open spec fn pane_index(panes: Seq<PaneView>, id: PaneId, from: int) -> Option<int>
    decreases panes.len() - from,
{
    if from < 0 || from >= panes.len() {
        None
    } else if panes[from].id == id {
        Some(from)
    } else {
        pane_index(panes, id, from + 1)
    }
}

/// Whether a pane is among the panes.
pub open spec fn holds(panes: Seq<PaneView>, id: PaneId) -> bool {
    pane_index(panes, id, 0) is Some
}

/// Whether no two panes have the same id.
pub open spec fn distinct(panes: Seq<PaneView>) -> bool {
    forall|i: int, j: int| 0 <= i < j < panes.len() ==> (#[trigger] panes[i]).id != (
    #[trigger] panes[j]).id
}

/// Whether every pane is well formed.
pub open spec fn all_wf(panes: Seq<PaneView>) -> bool {
    forall|i: int| 0 <= i < panes.len() ==> (#[trigger] panes[i]).wf()
}

/// The panes with `p` among them, in place of the one with the same id if there is one.
pub open spec fn inserted(panes: Seq<PaneView>, p: PaneView) -> Seq<PaneView> {
    match pane_index(panes, p.id, 0) {
        Some(i) => panes.update(i, p),
        None => panes.push(p),
    }
}

/// The panes with each of `added` inserted, in order.
pub open spec fn inserted_all(panes: Seq<PaneView>, added: Seq<PaneView>) -> Seq<PaneView>
    decreases added.len(),
{
    if added.len() == 0 {
        panes
    } else {
        inserted(inserted_all(panes, added.drop_last()), added.last())
    }
}

/// The panes that are leaves of a tree.
pub open spec fn kept(panes: Seq<PaneView>, root: Node) -> Seq<PaneView>
    decreases panes.len(),
{
    if panes.len() == 0 {
        panes
    } else if has_leaf(root, panes.last().id) {
        kept(panes.drop_last(), root).push(panes.last())
    } else {
        kept(panes.drop_last(), root)
    }
}

/// The panes that are not leaves of a tree.
pub open spec fn pruned(panes: Seq<PaneView>, root: Node) -> Seq<PaneView>
    decreases panes.len(),
{
    if panes.len() == 0 {
        panes
    } else if has_leaf(root, panes.last().id) {
        pruned(panes.drop_last(), root)
    } else {
        pruned(panes.drop_last(), root).push(panes.last())
    }
}

/// What `pane_index` means.
pub proof fn lemma_pane_index(panes: Seq<PaneView>, id: PaneId, from: int)
    requires
        0 <= from <= panes.len(),
    ensures
        match pane_index(panes, id, from) {
            Some(i) => from <= i < panes.len() && panes[i].id == id && forall|j: int|
                from <= j < i ==> (#[trigger] panes[j]).id != id,
            None => forall|j: int| from <= j < panes.len() ==> (#[trigger] panes[j]).id != id,
        },
    decreases panes.len() - from,
{
    if from < panes.len() && panes[from].id != id {
        lemma_pane_index(panes, id, from + 1);
    }
}

/// A pane is held exactly where some index has its id.
pub proof fn lemma_holds(panes: Seq<PaneView>, id: PaneId)
    ensures
        holds(panes, id) == exists|i: int| 0 <= i < panes.len() && (#[trigger] panes[i]).id == id,
{
    lemma_pane_index(panes, id, 0);
    if holds(panes, id) {
        let i = pane_index(panes, id, 0)->0;
        assert(panes[i].id == id);
    }
}

/// Inserting keeps ids distinct, and adds exactly one id.
pub proof fn lemma_inserted(panes: Seq<PaneView>, p: PaneView)
    requires
        distinct(panes),
    ensures
        distinct(inserted(panes, p)),
        all_wf(panes) && p.wf() ==> all_wf(inserted(panes, p)),
        forall|id: PaneId| #[trigger]
            holds(inserted(panes, p), id) == (holds(panes, id) || id == p.id),
{
    lemma_pane_index(panes, p.id, 0);
    let q = inserted(panes, p);
    assert forall|id: PaneId| holds(q, id) == (holds(panes, id) || id == p.id) by {
        lemma_pane_index(panes, id, 0);
        lemma_pane_index(q, id, 0);
        if holds(panes, id) {
            let i = pane_index(panes, id, 0)->0;
            assert(q[i].id == id);
        }
        if id == p.id {
            match pane_index(panes, p.id, 0) {
                Some(i) => {
                    assert(q[i].id == id);
                },
                None => {
                    assert(q[panes.len() as int].id == id);
                },
            }
        }
        if holds(q, id) && id != p.id {
            let i = pane_index(q, id, 0)->0;
            assert(i < panes.len());
            assert(panes[i].id == id);
        }
    }
}

/// The same for a list of panes.
pub proof fn lemma_inserted_all(panes: Seq<PaneView>, added: Seq<PaneView>)
    requires
        distinct(panes),
    ensures
        distinct(inserted_all(panes, added)),
        all_wf(panes) && all_wf(added) ==> all_wf(inserted_all(panes, added)),
        forall|id: PaneId| #[trigger]
            holds(inserted_all(panes, added), id) == (holds(panes, id) || holds(added, id)),
    decreases added.len(),
{
    if added.len() == 0 {
        assert forall|id: PaneId| !holds(added, id) by {
            lemma_pane_index(added, id, 0);
        }
    } else {
        let front = added.drop_last();
        lemma_inserted_all(panes, front);
        let q = inserted_all(panes, front);
        lemma_inserted(q, added.last());
        if all_wf(panes) && all_wf(added) {
            assert forall|i: int| 0 <= i < front.len() implies (#[trigger] front[i]).wf() by {
                assert(front[i] == added[i]);
            }
            assert(added.last() == added[added.len() - 1]);
        }
        assert forall|id: PaneId|
            holds(inserted_all(panes, added), id) == (holds(panes, id) || holds(added, id)) by {
            lemma_holds(added, id);
            lemma_holds(front, id);
            if holds(front, id) {
                let i = choose|i: int| 0 <= i < front.len() && (#[trigger] front[i]).id == id;
                assert(added[i].id == id);
            }
            if holds(added, id) {
                let i = choose|i: int| 0 <= i < added.len() && (#[trigger] added[i]).id == id;
                if i < front.len() {
                    assert(front[i].id == id);
                }
            }
            if added.last().id == id {
                assert(added[added.len() - 1].id == id);
            }
        }
    }
}

/// What is kept and what is pruned.
pub proof fn lemma_kept(panes: Seq<PaneView>, root: Node)
    requires
        distinct(panes),
    ensures
        distinct(kept(panes, root)),
        all_wf(panes) ==> all_wf(kept(panes, root)) && all_wf(pruned(panes, root)),
        forall|id: PaneId| #[trigger]
            holds(kept(panes, root), id) == (holds(panes, id) && has_leaf(root, id)),
        forall|id: PaneId| #[trigger]
            holds(pruned(panes, root), id) == (holds(panes, id) && !has_leaf(root, id)),
        kept(panes, root).len() + pruned(panes, root).len() == panes.len(),
    decreases panes.len(),
{
    if panes.len() == 0 {
        assert forall|id: PaneId| !holds(panes, id) by {
            lemma_pane_index(panes, id, 0);
        }
    } else {
        let front = panes.drop_last();
        let last = panes.last();
        lemma_kept(front, root);
        assert(panes =~= front.push(last));
        let (k, d) = (kept(panes, root), pruned(panes, root));
        let (k0, d0) = (kept(front, root), pruned(front, root));
        assert(!holds(front, last.id)) by {
            lemma_holds(front, last.id);
            if holds(front, last.id) {
                let i = choose|i: int| 0 <= i < front.len() && (#[trigger] front[i]).id == last.id;
                assert(panes[i].id == panes[panes.len() - 1].id);
            }
        }
        assert forall|id: PaneId| holds(panes, id) == (holds(front, id) || id == last.id) by {
            lemma_pushed(front, last, id);
        }
        assert forall|id: PaneId|
            holds(k, id) == (holds(panes, id) && has_leaf(root, id)) && holds(d, id) == (holds(
                panes,
                id,
            ) && !has_leaf(root, id)) by {
            lemma_pushed(k0, last, id);
            lemma_pushed(d0, last, id);
        }
        if has_leaf(root, last.id) {
            assert forall|i: int, j: int| 0 <= i < j < k.len() implies (#[trigger] k[i]).id != (
            #[trigger] k[j]).id by {
                if j == k.len() - 1 {
                    lemma_holds(k0, last.id);
                    assert(k0[i] == k[i]);
                }
            }
        }
    }
}

/// Which panes are held after a push.
pub proof fn lemma_pushed(panes: Seq<PaneView>, p: PaneView, id: PaneId)
    ensures
        holds(panes.push(p), id) == (holds(panes, id) || id == p.id),
{
    let q = panes.push(p);
    lemma_holds(panes, id);
    lemma_holds(q, id);
    if holds(panes, id) {
        let i = choose|i: int| 0 <= i < panes.len() && (#[trigger] panes[i]).id == id;
        assert(q[i].id == id);
    }
    if id == p.id {
        assert(q[panes.len() as int].id == id);
    }
    if holds(q, id) && id != p.id {
        let i = choose|i: int| 0 <= i < q.len() && (#[trigger] q[i]).id == id;
        assert(panes[i].id == id);
    }
}

/// Taking one pane out of distinct panes takes out exactly its id.
pub proof fn lemma_removed(panes: Seq<PaneView>, i: int)
    requires
        distinct(panes),
        0 <= i < panes.len(),
    ensures
        distinct(panes.remove(i)),
        all_wf(panes) ==> all_wf(panes.remove(i)),
        forall|id: PaneId| #[trigger]
            holds(panes.remove(i), id) == (holds(panes, id) && id != panes[i].id),
{
    let q = panes.remove(i);
    assert forall|id: PaneId| holds(q, id) == (holds(panes, id) && id != panes[i].id) by {
        lemma_holds(panes, id);
        lemma_holds(q, id);
        if holds(q, id) {
            let j = choose|j: int| 0 <= j < q.len() && (#[trigger] q[j]).id == id;
            if j < i {
                assert(panes[j].id == id);
            } else {
                assert(panes[j + 1].id == id);
            }
        }
        if holds(panes, id) && id != panes[i].id {
            let j = choose|j: int| 0 <= j < panes.len() && (#[trigger] panes[j]).id == id;
            if j < i {
                assert(q[j].id == id);
            } else {
                assert(q[j - 1].id == id);
            }
        }
    }
}

/// Changing a pane without changing its id changes no ids.
pub proof fn lemma_updated(panes: Seq<PaneView>, i: int, p: PaneView)
    requires
        0 <= i < panes.len(),
        p.id == panes[i].id,
    ensures
        distinct(panes) ==> distinct(panes.update(i, p)),
        all_wf(panes) && p.wf() ==> all_wf(panes.update(i, p)),
        forall|id: PaneId| #[trigger] holds(panes.update(i, p), id) == holds(panes, id),
{
    let q = panes.update(i, p);
    assert forall|id: PaneId| holds(q, id) == holds(panes, id) by {
        lemma_holds(panes, id);
        lemma_holds(q, id);
        if holds(panes, id) {
            let j = choose|j: int| 0 <= j < panes.len() && (#[trigger] panes[j]).id == id;
            assert(q[j].id == id);
        }
        if holds(q, id) {
            let j = choose|j: int| 0 <= j < q.len() && (#[trigger] q[j]).id == id;
            assert(panes[j].id == id);
        }
    }
}

/// Inserts a pane, in place of the one with the same id if there is one.
fn insert_pane(panes: &mut Vec<Pane>, p: Pane)
    ensures
        panes_view(final(panes)@) == inserted(panes_view(old(panes)@), p@),
{
    let ghost before = panes_view(panes@);
    let id = p.pane_id();
    let mut i: usize = 0;
    while i < panes.len()
        invariant
            i <= panes@.len(),
            panes@ == old(panes)@,
            before == panes_view(panes@),
            id == p@.id,
            pane_index(before, id, 0) == pane_index(before, id, i as int),
        decreases panes@.len() - i,
    {
        if panes[i].pane_id() == id {
            panes.set(i, p);
            assert(panes_view(panes@) =~= before.update(i as int, p@));
            return;
        }
        i = i + 1;
    }
    panes.push(p);
    assert(panes_view(panes@) =~= before.push(p@));
}

// ---------------------------------------------------------------------------
// Windows.
// ---------------------------------------------------------------------------

/// The mathematical value of a [`Window`].
pub struct WindowView {
    pub id: WindowId,
    pub panes: Seq<PaneView>,
    pub root: Node,
    pub active: PaneId,
    pub zoom: bool,
    pub name: Option<Seq<char>>,
    pub group: Option<Seq<char>>,
    pub color: Option<Seq<char>>,
    pub pr: Option<PrBadgeView>,
    pub workspace_dir: Option<Seq<char>>,
}

impl WindowView {
    /// The panes are well formed, no id occurs twice among them, and no setting is empty.
    pub open spec fn wf(self) -> bool {
        &&& distinct(self.panes)
        &&& all_wf(self.panes)
        &&& is_setting(self.name)
        &&& is_setting(self.group)
        &&& is_setting(self.color)
        &&& is_setting(self.workspace_dir)
    }

    /// The tree's leaves are the window's panes, and the active pane is one of them.
    pub open spec fn complete(self) -> bool {
        &&& self.wf()
        &&& forall|id: PaneId| #[trigger] has_leaf(self.root, id) == holds(self.panes, id)
        &&& holds(self.panes, self.active)
    }
}

/// A window: a split tree of panes with one active pane and an optional zoom.
pub struct Window {
    pub id: WindowId,
    panes: Vec<Pane>,
    root: Node,
    active: PaneId,
    zoom: bool,
    /// Name that the user gave; without one the name is derived from the directory.
    name: Option<String>,
    /// Sidebar group.
    group: Option<String>,
    /// Tag color.
    color: Option<String>,
    /// Pull request badge.
    pr: Option<PrBadge>,
    /// Directory in which every new pane of this window starts.
    workspace_dir: Option<String>,
}

/// A setting that a user changed: an empty text clears it.
pub open spec fn setting(s: Seq<char>) -> Option<Seq<char>> {
    if s.len() == 0 {
        None
    } else {
        Some(s)
    }
}

/// Whether a setting can hold this: nothing, or a text that is not empty.
pub open spec fn is_setting(s: Option<Seq<char>>) -> bool {
    s matches Some(t) ==> t.len() > 0
}

fn to_setting(s: String) -> (r: Option<String>)
    ensures
        opt_text(r) == setting(s@),
{
    if s.as_str().is_empty() {
        None
    } else {
        Some(s)
    }
}

/// A window that holds the given panes and nothing that a user set.
pub open spec fn plain_window(
    id: WindowId,
    panes: Seq<PaneView>,
    root: Node,
    active: PaneId,
) -> WindowView {
    WindowView {
        id,
        panes,
        root,
        active,
        zoom: false,
        name: None,
        group: None,
        color: None,
        pr: None,
        workspace_dir: None,
    }
}

/// A window with a new tree: the added panes are inserted, panes that the tree does not name
/// leave, and the first leaf becomes active where the active pane left.
pub open spec fn with_tree(w: WindowView, root: Node, added: Seq<PaneView>) -> WindowView {
    let panes = kept(inserted_all(w.panes, added), root);
    WindowView {
        panes,
        root,
        active: if holds(panes, w.active) {
            w.active
        } else {
            first_of(root)
        },
        ..w
    }
}

/// A window with its active pane split: the new pane becomes active, and the zoom ends.
pub open spec fn with_split(w: WindowView, dir: SplitDir, p: PaneView) -> WindowView {
    WindowView {
        root: match split_at(w.root, w.active, dir, p.id) {
            Some(n) => n,
            None => w.root,
        },
        panes: inserted(w.panes, p),
        active: p.id,
        zoom: false,
        ..w
    }
}

/// A window without its active pane.
pub open spec fn without_active(w: WindowView) -> WindowView {
    let root = match without(w.root, w.active) {
        Some(n) => n,
        None => Node::Leaf(w.active),
    };
    WindowView {
        root,
        panes: match pane_index(w.panes, w.active, 0) {
            Some(i) => w.panes.remove(i),
            None => w.panes,
        },
        active: first_of(root),
        zoom: false,
        ..w
    }
}

/// Each pane's rectangle within an area; the active pane alone fills it when zoomed.
pub open spec fn window_rects(w: WindowView, width: u32, height: u32, f: spec_fn(u32, u32) -> u32) -> Seq<
    (PaneId, Rect),
> {
    let area = Rect { x: 0, y: 0, w: width, h: height };
    if w.zoom {
        seq![(w.active, area)]
    } else {
        rects_of(w.root, area, f)
    }
}

/// The active pane.
pub open spec fn active_of(w: WindowView) -> PaneView {
    w.panes[pane_index(w.panes, w.active, 0)->0]
}

/// Whether any pane waits for the user.
pub open spec fn any_pending(panes: Seq<PaneView>) -> bool {
    exists|i: int| 0 <= i < panes.len() && (#[trigger] panes[i]).attention == Attention::Pending
}

/// Whether any pane is busy.
pub open spec fn any_busy(panes: Seq<PaneView>) -> bool {
    exists|i: int| 0 <= i < panes.len() && (#[trigger] panes[i]).busy
}

/// Unread notifications of all panes.
pub open spec fn unread_sum(panes: Seq<PaneView>) -> nat
    decreases panes.len(),
{
    if panes.len() == 0 {
        0
    } else {
        unread_sum(panes.drop_last()) + panes.last().unread as nat
    }
}

/// The name of a window: what the user set, else the name of the active pane's directory, else
/// "shell".
pub open spec fn window_name(w: WindowView) -> Seq<char> {
    match w.name {
        Some(n) => n,
        None => match active_of(w).cwd {
            Some(cwd) => if path_name(cwd).len() > 0 {
                path_name(cwd)
            } else {
                "shell"@
            },
            None => "shell"@,
        },
    }
}

/// A window's sidebar metadata. `branch` is the git branch of the active pane's directory.
pub open spec fn window_info(w: WindowView, branch: Option<Seq<char>>) -> WorkspaceInfoView {
    WorkspaceInfoView {
        name: window_name(w),
        cwd: active_of(w).cwd,
        branch,
        attention: any_pending(w.panes),
        unread: if unread_sum(w.panes) < u32::MAX {
            unread_sum(w.panes) as u32
        } else {
            u32::MAX
        },
    }
}

impl Window {
    pub closed spec fn view(&self) -> WindowView {
        WindowView {
            id: self.id,
            panes: panes_view(self.panes@),
            root: self.root,
            active: self.active,
            zoom: self.zoom,
            name: opt_text(self.name),
            group: opt_text(self.group),
            color: opt_text(self.color),
            pr: opt_badge(self.pr),
            workspace_dir: opt_text(self.workspace_dir),
        }
    }

    /// A window of one pane.
    pub fn new(ids: &mut Ids, pane: Pane) -> (w: Window)
        requires
            pane@.wf(),
        ensures
            w@ == plain_window(
                WindowId(old(ids).window),
                seq![pane@],
                Node::Leaf(pane@.id),
                pane@.id,
            ),
            w@.complete(),
            *final(ids) == (Ids { window: after(old(ids).window), ..*old(ids) }),
    {
        let id = pane.pane_id();
        let mut panes: Vec<Pane> = Vec::new();
        panes.push(pane);
        assert(panes_view(panes@) =~= seq![pane@]);
        let w = Window::build(ids, panes, Node::leaf(id), id);
        proof {
            assert forall|x: PaneId| #[trigger] has_leaf(w@.root, x) == holds(w@.panes, x) by {
                lemma_holds(w@.panes, x);
                if x == id {
                    assert(w@.panes[0].id == x);
                }
            }
            lemma_holds(w@.panes, id);
            assert(w@.panes[0].id == id);
        }
        w
    }

    fn build(ids: &mut Ids, panes: Vec<Pane>, root: Node, active: PaneId) -> (w: Window)
        ensures
            w@ == plain_window(WindowId(old(ids).window), panes_view(panes@), root, active),
            *final(ids) == (Ids { window: after(old(ids).window), ..*old(ids) }),
    {
        Window {
            id: WindowId::allocate(ids),
            panes,
            root,
            active,
            zoom: false,
            name: None,
            group: None,
            color: None,
            pr: None,
            workspace_dir: None,
        }
    }

    /// A window from panes and a split tree. Of panes with the same id the last one counts.
    pub fn from_parts(ids: &mut Ids, panes: Vec<Pane>, root: Node, active: PaneId) -> (w: Window)
        requires
            all_wf(panes_view(panes@)),
        ensures
            w@ == plain_window(
                WindowId(old(ids).window),
                inserted_all(Seq::empty(), panes_view(panes@)),
                root,
                active,
            ),
            w@.wf(),
            *final(ids) == (Ids { window: after(old(ids).window), ..*old(ids) }),
    {
        let mut own: Vec<Pane> = Vec::new();
        assert(panes_view(own@) =~= Seq::empty());
        insert_all(&mut own, panes);
        proof {
            lemma_inserted_all(Seq::empty(), panes_view(panes@));
        }
        Window::build(ids, own, root, active)
    }

    fn index_of(&self, id: PaneId) -> (r: Option<usize>)
        ensures
            match r {
                Some(i) => pane_index(self@.panes, id, 0) == Some(i as int) && i
                    < self.panes@.len(),
                None => pane_index(self@.panes, id, 0) == None::<int>,
            },
    {
        let mut i: usize = 0;
        while i < self.panes.len()
            invariant
                i <= self.panes@.len(),
                pane_index(self@.panes, id, 0) == pane_index(self@.panes, id, i as int),
            decreases self.panes@.len() - i,
        {
            if self.panes[i].pane_id() == id {
                return Some(i);
            }
            i = i + 1;
        }
        None
    }

    /// The window's id.
    pub fn window_id(&self) -> (id: WindowId)
        ensures
            id == self@.id,
    {
        self.id
    }

    pub fn active_id(&self) -> (id: PaneId)
        ensures
            id == self@.active,
    {
        self.active
    }

    /// The active pane.
    pub fn active_pane(&self) -> (p: &Pane)
        requires
            holds(self@.panes, self@.active),
        ensures
            p@ == active_of(self@),
    {
        let i: usize = self.index_of(self.active).unwrap();
        &self.panes[i]
    }

    /// The pane with an id.
    pub fn pane(&self, id: PaneId) -> (r: Option<&Pane>)
        ensures
            match r {
                Some(p) => holds(self@.panes, id) && p@ == self@.panes[pane_index(
                    self@.panes,
                    id,
                    0,
                )->0],
                None => !holds(self@.panes, id),
            },
    {
        match self.index_of(id) {
            Some(i) => Some(&self.panes[i]),
            None => None,
        }
    }

    /// Whether a pane is in the window.
    pub fn has_pane(&self, id: PaneId) -> (r: bool)
        ensures
            r == holds(self@.panes, id),
    {
        self.index_of(id).is_some()
    }

    /// Whether the tree's leaves are the window's panes, and the active pane is one of them.
    pub fn is_complete(&self) -> (b: bool)
        requires
            self@.wf(),
        ensures
            b == self@.complete(),
    {
        if !self.has_pane(self.active) {
            return false;
        }
        let mut leaves: Vec<PaneId> = Vec::new();
        self.root.leaves(&mut leaves);
        assert(leaves@ =~= leaves_of(self@.root));
        let mut i: usize = 0;
        while i < leaves.len()
            invariant
                i <= leaves@.len(),
                leaves@ == leaves_of(self@.root),
                forall|k: int| 0 <= k < i ==> holds(self@.panes, #[trigger] leaves@[k]),
            decreases leaves@.len() - i,
        {
            if !self.has_pane(leaves[i]) {
                proof {
                    lemma_has_leaf(self@.root, leaves@[i as int]);
                    assert(leaves@.contains(leaves@[i as int]));
                }
                return false;
            }
            i = i + 1;
        }
        let mut j: usize = 0;
        while j < self.panes.len()
            invariant
                j <= self.panes@.len(),
                forall|k: int| 0 <= k < j ==> has_leaf(self@.root, (#[trigger] self@.panes[k]).id),
            decreases self.panes@.len() - j,
        {
            let id = self.panes[j].pane_id();
            assert(self@.panes[j as int].id == id);
            if !self.root.contains(id) {
                proof {
                    lemma_holds(self@.panes, id);
                }
                return false;
            }
            j = j + 1;
        }
        proof {
            assert forall|id: PaneId| #[trigger] has_leaf(self@.root, id) == holds(
                self@.panes,
                id,
            ) by {
                lemma_has_leaf(self@.root, id);
                lemma_holds(self@.panes, id);
                if has_leaf(self@.root, id) {
                    let k = choose|k: int| 0 <= k < leaves@.len() && leaves@[k] == id;
                    assert(holds(self@.panes, leaves@[k]));
                }
            }
        }
        true
    }

    /// The pane with an id, to change it.
    pub fn pane_mut(&mut self, id: PaneId) -> (r: Option<&mut Pane>)
        ensures
            match r {
                Some(p) => {
                    let i = pane_index(old(self)@.panes, id, 0)->0;
                    &&& holds(old(self)@.panes, id)
                    &&& p@ == old(self)@.panes[i]
                    &&& final(self)@ == (WindowView {
                        panes: old(self)@.panes.update(i, final(p)@),
                        ..old(self)@
                    })
                },
                None => !holds(old(self)@.panes, id) && final(self)@ == old(self)@,
            },
    {
        match self.index_of(id) {
            Some(i) => {
                let p = &mut self.panes[i];
                assert(panes_view(old(self).panes@.update(i as int, *final(p))) =~= panes_view(
                    old(self).panes@,
                ).update(i as int, final(p)@));
                Some(p)
            },
            None => None,
        }
    }

    /// The panes, in the order in which they came.
    pub fn panes(&self) -> (panes: &Vec<Pane>)
        ensures
            panes_view(panes@) == self@.panes,
    {
        &self.panes
    }

    /// The panes, to change them.
    pub fn panes_mut(&mut self) -> (panes: &mut Vec<Pane>)
        ensures
            panes_view(panes@) == old(self)@.panes,
            final(self)@ == (WindowView { panes: panes_view(final(panes)@), ..old(self)@ }),
    {
        &mut self.panes
    }

    /// The pane with an id, out of a window that is given up.
    pub fn into_pane(self, id: PaneId) -> (r: Option<Pane>)
        ensures
            match r {
                Some(p) => holds(self@.panes, id) && p@ == self@.panes[pane_index(
                    self@.panes,
                    id,
                    0,
                )->0],
                None => !holds(self@.panes, id),
            },
    {
        let mut w = self;
        match w.index_of(id) {
            Some(i) => Some(w.panes.remove(i)),
            None => None,
        }
    }

    pub fn pane_count(&self) -> (n: usize)
        ensures
            n == self@.panes.len(),
    {
        self.panes.len()
    }

    /// Makes a pane of the window active; nothing happens where it is not in the window.
    pub fn set_active(&mut self, id: PaneId)
        ensures
            final(self)@ == (if holds(old(self)@.panes, id) {
                WindowView { active: id, ..old(self)@ }
            } else {
                old(self)@
            }),
            old(self)@.complete() ==> final(self)@.complete(),
    {
        if self.has_pane(id) {
            self.active = id;
        }
    }

    pub fn zoomed(&self) -> (z: bool)
        ensures
            z == self@.zoom,
    {
        self.zoom
    }

    pub fn toggle_zoom(&mut self)
        ensures
            final(self)@ == (WindowView { zoom: !old(self)@.zoom, ..old(self)@ }),
            old(self)@.wf() ==> final(self)@.wf(),
            old(self)@.complete() ==> final(self)@.complete(),
    {
        self.zoom = !self.zoom;
    }

    /// The split tree.
    pub fn root(&self) -> (n: &Node)
        ensures
            *n == self@.root,
    {
        &self.root
    }

    /// Sets the window's name; an empty one clears it.
    pub fn set_name(&mut self, name: String)
        ensures
            final(self)@ == (WindowView { name: setting(name@), ..old(self)@ }),
            old(self)@.wf() ==> final(self)@.wf(),
            old(self)@.complete() ==> final(self)@.complete(),
    {
        self.name = to_setting(name);
    }

    /// The name that the user gave.
    pub fn name(&self) -> (r: Option<String>)
        ensures
            opt_text(r) == self@.name,
    {
        clone_opt(&self.name)
    }

    /// Puts the window in a sidebar group; an empty one takes it out.
    pub fn set_group(&mut self, group: String)
        ensures
            final(self)@ == (WindowView { group: setting(group@), ..old(self)@ }),
            old(self)@.wf() ==> final(self)@.wf(),
            old(self)@.complete() ==> final(self)@.complete(),
    {
        self.group = to_setting(group);
    }

    /// The sidebar group.
    pub fn group(&self) -> (r: Option<String>)
        ensures
            opt_text(r) == self@.group,
    {
        clone_opt(&self.group)
    }

    /// Tags the window with a color; an empty one clears it.
    pub fn set_color(&mut self, color: String)
        ensures
            final(self)@ == (WindowView { color: setting(color@), ..old(self)@ }),
            old(self)@.wf() ==> final(self)@.wf(),
            old(self)@.complete() ==> final(self)@.complete(),
    {
        self.color = to_setting(color);
    }

    /// The tag color.
    pub fn color(&self) -> (r: Option<String>)
        ensures
            opt_text(r) == self@.color,
    {
        clone_opt(&self.color)
    }

    /// Sets or clears the pull request badge.
    pub fn set_pr(&mut self, pr: Option<PrBadge>)
        ensures
            final(self)@ == (WindowView { pr: opt_badge(pr), ..old(self)@ }),
            old(self)@.wf() ==> final(self)@.wf(),
            old(self)@.complete() ==> final(self)@.complete(),
    {
        self.pr = pr;
    }

    /// The pull request badge.
    pub fn pr(&self) -> (r: Option<&PrBadge>)
        ensures
            match r {
                Some(b) => self@.pr == Some(b@),
                None => self@.pr == None::<PrBadgeView>,
            },
    {
        match &self.pr {
            Some(b) => Some(b),
            None => None,
        }
    }

    /// Anchors the window to a directory; an empty one clears it.
    pub fn set_workspace_dir(&mut self, dir: String)
        ensures
            final(self)@ == (WindowView { workspace_dir: setting(dir@), ..old(self)@ }),
            old(self)@.wf() ==> final(self)@.wf(),
            old(self)@.complete() ==> final(self)@.complete(),
    {
        self.workspace_dir = to_setting(dir);
    }

    /// The directory in which new panes of this window start.
    pub fn workspace_dir(&self) -> (r: Option<String>)
        ensures
            opt_text(r) == self@.workspace_dir,
    {
        clone_opt(&self.workspace_dir)
    }

    /// Whether any pane has running children.
    pub fn is_busy(&self) -> (b: bool)
        ensures
            b == any_busy(self@.panes),
    {
        let mut i: usize = 0;
        while i < self.panes.len()
            invariant
                i <= self.panes@.len(),
                forall|j: int| 0 <= j < i ==> !(#[trigger] self@.panes[j]).busy,
            decreases self.panes@.len() - i,
        {
            if self.panes[i].is_busy() {
                assert(self@.panes[i as int].busy);
                return true;
            }
            i = i + 1;
        }
        false
    }

    /// Replaces the split tree, where the remote's layout decides: inserts `added`, installs
    /// `root`, and returns the panes that the tree does not name. The active pane stays where it
    /// can.
    pub fn replace_tree(&mut self, root: Node, added: Vec<Pane>) -> (removed: Vec<Pane>)
        requires
            old(self)@.wf(),
            all_wf(panes_view(added@)),
        ensures
            final(self)@ == with_tree(old(self)@, root, panes_view(added@)),
            panes_view(removed@) == pruned(
                inserted_all(old(self)@.panes, panes_view(added@)),
                root,
            ),
            final(self)@.wf(),
            (forall|id: PaneId|
                #[trigger] has_leaf(root, id) ==> holds(old(self)@.panes, id) || holds(
                    panes_view(added@),
                    id,
                )) ==> final(self)@.complete(),
    {
        let ghost a = panes_view(added@);
        let ghost all = inserted_all(self@.panes, a);
        insert_all(&mut self.panes, added);
        let mut own: Vec<Pane> = Vec::new();
        std::mem::swap(&mut own, &mut self.panes);
        let (keep, removed) = partition(own, &root);
        self.panes = keep;
        self.root = root;
        proof {
            lemma_inserted_all(old(self)@.panes, a);
            lemma_kept(all, root);
            lemma_first_is_leaf(root);
        }
        if !self.has_pane(self.active) {
            self.active = self.root.first_leaf();
        }
        removed
    }

    /// Splits the active pane, inserts `pane` and focuses it.
    pub fn split(&mut self, dir: SplitDir, pane: Pane) -> (id: PaneId)
        requires
            old(self)@.wf(),
            pane@.wf(),
        ensures
            id == pane@.id,
            final(self)@ == with_split(old(self)@, dir, pane@),
            final(self)@.wf(),
            old(self)@.complete() ==> final(self)@.complete(),
    {
        let nid = pane.pane_id();
        let active = self.active;
        self.root.split_leaf(active, dir, nid);
        insert_pane(&mut self.panes, pane);
        self.active = nid;
        self.zoom = false;
        proof {
            lemma_inserted(old(self)@.panes, pane@);
            if old(self)@.complete() {
                let o = old(self)@;
                splitting_adds_one_leaf(o.root, active, dir, nid);
                assert(has_leaf(o.root, active));
                assert forall|x: PaneId| #[trigger]
                    has_leaf(self@.root, x) == holds(self@.panes, x) by {
                    assert(has_leaf(o.root, x) == holds(o.panes, x));
                }
            }
        }
        nid
    }

    /// Closes the active pane, collapsing its split. Returns the pane; none where it was the
    /// window's last one, which the caller then closes.
    pub fn close_active(&mut self) -> (r: Option<Pane>)
        requires
            old(self)@.wf(),
        ensures
            final(self)@.wf(),
            old(self)@.panes.len() <= 1 ==> r is None && final(self)@ == old(self)@,
            old(self)@.panes.len() > 1 ==> {
                &&& final(self)@ == without_active(old(self)@)
                &&& r is Some == holds(old(self)@.panes, old(self)@.active)
                &&& r matches Some(p) ==> p@ == active_of(old(self)@)
            },
            old(self)@.complete() ==> final(self)@.complete(),
    {
        if self.panes.len() <= 1 {
            return None;
        }
        let victim = self.active;
        let mut root = Node::leaf(victim);
        std::mem::swap(&mut root, &mut self.root);
        self.root = root.clear_leaf(victim);
        let ghost o = old(self)@;
        let r = match self.index_of(victim) {
            Some(i) => {
                let p = self.panes.remove(i);
                assert(panes_view(self.panes@) =~= o.panes.remove(i as int));
                proof {
                    lemma_removed(o.panes, i as int);
                    lemma_pane_index(o.panes, victim, 0);
                }
                Some(p)
            },
            None => None,
        };
        self.active = self.root.first_leaf();
        self.zoom = false;
        proof {
            removing_keeps_the_others(o.root, victim);
            if o.complete() {
                let i = pane_index(o.panes, victim, 0)->0;
                let j = if i == 0 {
                    1
                } else {
                    0int
                };
                assert(o.panes[i].id != o.panes[j].id);
                lemma_holds(o.panes, o.panes[j].id);
                assert(has_leaf(o.root, o.panes[j].id));
                lemma_first_is_leaf(self.root);
                assert forall|x: PaneId| #[trigger]
                    has_leaf(self@.root, x) == holds(self@.panes, x) by {
                    assert(has_leaf(o.root, x) == holds(o.panes, x));
                }
            }
        }
        r
    }

    /// Exchanges the places of two panes; the shape of the layout stays. Returns whether both
    /// are there.
    pub fn swap_panes(&mut self, a: PaneId, b: PaneId) -> (done: bool)
        ensures
            done == (has_leaf(old(self)@.root, a) && has_leaf(old(self)@.root, b)),
            final(self)@ == (if done {
                WindowView { root: swapped(old(self)@.root, a, b), ..old(self)@ }
            } else {
                old(self)@
            }),
            old(self)@.complete() ==> final(self)@.complete(),
    {
        let done = self.root.swap_leaves(a, b);
        proof {
            let o = old(self)@;
            swapping_keeps_shape_and_panes(o.root, a, b);
            if o.complete() {
                assert forall|x: PaneId| #[trigger]
                    has_leaf(self@.root, x) == holds(self@.panes, x) by {
                    assert(has_leaf(o.root, x) == holds(o.panes, x));
                }
            }
        }
        done
    }

    /// Moves focus spatially within an area.
    pub fn focus_dir<C: Fn(u32, u32) -> u32>(
        &mut self,
        dir: FocusDir,
        width: u32,
        height: u32,
        cut: &C,
    )
        requires
            cutting(*cut),
        ensures
            forall|f: spec_fn(u32, u32) -> u32| #[trigger]
                computes(*cut, f) ==> final(self)@ == focused_dir(
                    old(self)@,
                    dir,
                    width,
                    height,
                    f,
                ),
            old(self)@.complete() ==> final(self)@.complete(),
    {
        let rs = self.layout_rects(width, height, cut);
        if let Some(n) = neighbor(rs.as_slice(), self.active, dir) {
            proof {
                lemma_neighbor_listed(rs@, self.active, dir);
                if self@.complete() {
                    let i = choose|i: int| 0 <= i < rs@.len() && (#[trigger] rs@[i]).0 == n;
                    assert(has_leaf(self@.root, rs@[i].0) || rs@[i].0 == self.active);
                }
            }
            self.active = n;
        }
    }

    /// Grows the active pane against its sibling. `adjust` adds a delta to a ratio; `negated` is
    /// the delta with its sign changed.
    pub fn resize_active<A: Fn(u32, u32) -> u32>(&mut self, delta: u32, negated: u32, adjust: &A)
        requires
            total(*adjust),
        ensures
            forall|f: spec_fn(u32, u32) -> u32| #[trigger]
                computes(*adjust, f) ==> final(self)@ == (WindowView {
                    root: match resized(
                        old(self)@.root,
                        old(self)@.active,
                        delta,
                        negated,
                        f,
                    ) {
                        Some(n) => n,
                        None => old(self)@.root,
                    },
                    ..old(self)@
                }),
            old(self)@.complete() ==> final(self)@.complete(),
    {
        let active = self.active;
        self.root.resize_leaf(active, delta, negated, adjust);
        proof {
            lemma_same_leaves(old(self)@, self@);
        }
    }

    /// Drags the divider at the right (`dx`) or lower (`dy`) edge of `pane`. Focus stays; nothing
    /// happens where the pane is gone.
    pub fn resize_pane<A: Fn(u32, u32) -> u32>(
        &mut self,
        pane: PaneId,
        dx: u32,
        dy: u32,
        adjust: &A,
    )
        requires
            total(*adjust),
        ensures
            forall|f: spec_fn(u32, u32) -> u32| #[trigger]
                computes(*adjust, f) ==> final(self)@ == (WindowView {
                    root: dragged(old(self)@.root, pane, dx, dy, f).0,
                    ..old(self)@
                }),
            old(self)@.complete() ==> final(self)@.complete(),
    {
        self.root.resize_leaf_of(pane, dx, dy, adjust);
        proof {
            lemma_same_leaves(old(self)@, self@);
        }
    }

    /// Sidebar metadata. `branch` is the git branch of the active pane's directory, if that was
    /// found.
    pub fn workspace_info(&self, branch: Option<String>) -> (info: WorkspaceInfo)
        requires
            holds(self@.panes, self@.active),
        ensures
            info@ == window_info(self@, opt_text(branch)),
    {
        let cwd = self.active_pane().cwd();
        let name = match &self.name {
            Some(n) => n.clone(),
            None => match &cwd {
                Some(c) => {
                    let short = cwd_name(c.as_str());
                    if short.as_str().is_empty() {
                        String::from_str("shell")
                    } else {
                        short
                    }
                },
                None => String::from_str("shell"),
            },
        };
        let mut attention = false;
        let mut unread: u32 = 0;
        let mut i: usize = 0;
        let ghost ps = self@.panes;
        assert(ps.take(0) =~= Seq::empty());
        while i < self.panes.len()
            invariant
                i <= self.panes@.len(),
                ps == self@.panes,
                attention == any_pending(ps.take(i as int)),
                unread == (if unread_sum(ps.take(i as int)) < u32::MAX {
                    unread_sum(ps.take(i as int)) as u32
                } else {
                    u32::MAX
                }),
            decreases self.panes@.len() - i,
        {
            let ghost s = ps.take(i as int);
            let ghost t = ps.take(i + 1);
            assert(t.drop_last() =~= s);
            assert(t.last() == ps[i as int]);
            let pending = self.panes[i].attention().is_pending();
            proof {
                if any_pending(s) {
                    let j = choose|j: int|
                        0 <= j < s.len() && (#[trigger] s[j]).attention == Attention::Pending;
                    assert(t[j].attention == Attention::Pending);
                }
                if pending {
                    assert(t[i as int].attention == Attention::Pending);
                }
                if any_pending(t) && !pending {
                    let j = choose|j: int|
                        0 <= j < t.len() && (#[trigger] t[j]).attention == Attention::Pending;
                    assert(s[j].attention == Attention::Pending);
                }
            }
            attention = attention || pending;
            unread = unread.saturating_add(self.panes[i].unread());
            i = i + 1;
        }
        assert(ps.take(i as int) =~= ps);
        WorkspaceInfo { name, cwd, branch, attention, unread }
    }

    /// Each pane's rectangle within an area. When zoomed, the active pane fills it.
    pub fn layout_rects<C: Fn(u32, u32) -> u32>(&self, width: u32, height: u32, cut: &C) -> (rs: Vec<
        (PaneId, Rect),
    >)
        requires
            cutting(*cut),
        ensures
            forall|f: spec_fn(u32, u32) -> u32| #[trigger]
                computes(*cut, f) ==> rs@ == window_rects(self@, width, height, f),
            forall|i: int|
                0 <= i < rs@.len() ==> has_leaf(self@.root, (#[trigger] rs@[i]).0) || rs@[i].0
                    == self@.active,
    {
        let area = Rect { x: 0, y: 0, w: width, h: height };
        let mut rs: Vec<(PaneId, Rect)> = Vec::new();
        if self.zoom {
            rs.push((self.active, area));
            assert(rs@ =~= seq![(self.active, area)]);
            return rs;
        }
        rects_listed(&self.root, area, cut, &mut rs);
        rs
    }
}

/// A tree with the same leaves keeps a window complete.
proof fn lemma_same_leaves(v: WindowView, w: WindowView)
    requires
        leaves_of(w.root) == leaves_of(v.root),
        w == (WindowView { root: w.root, ..v }),
    ensures
        v.complete() ==> w.complete(),
{
    if v.complete() {
        assert forall|x: PaneId| #[trigger] has_leaf(w.root, x) == holds(w.panes, x) by {
            assert(has_leaf(v.root, x) == holds(v.panes, x));
            lemma_has_leaf(v.root, x);
            lemma_has_leaf(w.root, x);
        }
    }
}

/// A window with focus moved in a direction.
pub open spec fn focused_dir(
    w: WindowView,
    dir: FocusDir,
    width: u32,
    height: u32,
    f: spec_fn(u32, u32) -> u32,
) -> WindowView {
    match neighbor_of(window_rects(w, width, height, f), w.active, dir) {
        Some(n) => WindowView { active: n, ..w },
        None => w,
    }
}

proof fn lemma_neighbor_listed(rs: Seq<(PaneId, Rect)>, active: PaneId, dir: FocusDir)
    ensures
        neighbor_of(rs, active, dir) matches Some(n) ==> exists|i: int|
            0 <= i < rs.len() && (#[trigger] rs[i]).0 == n,
{
    if let Some(i) = crate::mux::layout::rect_index(rs, active, 0) {
        crate::mux::layout::focus_moves_to_the_nearest(
            rs,
            active,
            rs[i].1,
            dir,
            rs.len() as int,
        );
        if let Some(j) = crate::mux::layout::nearest(rs, active, rs[i].1, dir, rs.len() as int) {
            assert(rs[j].0 == rs[j].0);
        }
    }
}

/// [`rects`], with what it says of the panes listed.
fn rects_listed<C: Fn(u32, u32) -> u32>(
    root: &Node,
    area: Rect,
    cut: &C,
    out: &mut Vec<(PaneId, Rect)>,
)
    requires
        cutting(*cut),
        crate::mux::layout::fits(area),
        old(out)@.len() == 0,
    ensures
        forall|f: spec_fn(u32, u32) -> u32| #[trigger]
            computes(*cut, f) ==> final(out)@ == rects_of(*root, area, f),
        forall|i: int|
            0 <= i < final(out)@.len() ==> has_leaf(*root, (#[trigger] final(out)@[i]).0),
{
    rects(root, area, cut, out);
    assert(panes_listed(out@) =~= leaves_of(*root));
    assert forall|i: int| 0 <= i < out@.len() implies has_leaf(*root, (#[trigger] out@[i]).0) by {
        assert(panes_listed(out@)[i] == out@[i].0);
        lemma_has_leaf(*root, out@[i].0);
    }
    assert forall|f: spec_fn(u32, u32) -> u32| #[trigger] computes(*cut, f) implies out@
        == rects_of(*root, area, f) by {
        assert(old(out)@ + rects_of(*root, area, f) =~= rects_of(*root, area, f));
    }
}

/// Inserts panes in order.
fn insert_all(panes: &mut Vec<Pane>, added: Vec<Pane>)
    ensures
        panes_view(final(panes)@) == inserted_all(panes_view(old(panes)@), panes_view(added@)),
{
    let ghost a = panes_view(added@);
    let mut rest = added;
    let mut front: Vec<Pane> = Vec::new();
    // Reverse, so that the first one can be taken off the end.
    let ghost n = added@.len();
    while rest.len() > 0
        invariant
            rest@.len() + front@.len() == n,
            n == added@.len(),
            rest@ =~= added@.take(rest@.len() as int),
            forall|i: int| 0 <= i < front@.len() ==> #[trigger] front@[i] == added@[n - 1 - i],
        decreases rest@.len(),
    {
        let p = rest.pop().unwrap();
        front.push(p);
    }
    let ghost mut done: int = 0;
    assert(a.take(0) =~= Seq::empty());
    while front.len() > 0
        invariant
            done + front@.len() == n,
            0 <= done,
            n == added@.len(),
            a == panes_view(added@),
            forall|i: int| 0 <= i < front@.len() ==> #[trigger] front@[i] == added@[n - 1 - i],
            panes_view(panes@) == inserted_all(panes_view(old(panes)@), a.take(done)),
        decreases front@.len(),
    {
        let ghost last = front@[front@.len() - 1];
        let p = front.pop().unwrap();
        assert(p == added@[done]);
        assert(a.take(done + 1).drop_last() =~= a.take(done));
        assert(a.take(done + 1).last() == p@);
        insert_pane(panes, p);
        proof {
            done = done + 1;
        }
    }
    assert(a.take(done) =~= a);
}

/// Parts panes into those that are leaves of a tree and the others.
fn partition(panes: Vec<Pane>, root: &Node) -> (r: (Vec<Pane>, Vec<Pane>))
    ensures
        panes_view(r.0@) == kept(panes_view(panes@), *root),
        panes_view(r.1@) == pruned(panes_view(panes@), *root),
{
    let ghost a = panes_view(panes@);
    let ghost n = panes@.len();
    let mut rest = panes;
    let mut front: Vec<Pane> = Vec::new();
    while rest.len() > 0
        invariant
            rest@.len() + front@.len() == n,
            n == panes@.len(),
            rest@ =~= panes@.take(rest@.len() as int),
            forall|i: int| 0 <= i < front@.len() ==> #[trigger] front@[i] == panes@[n - 1 - i],
        decreases rest@.len(),
    {
        let p = rest.pop().unwrap();
        front.push(p);
    }
    let mut keep: Vec<Pane> = Vec::new();
    let mut drop: Vec<Pane> = Vec::new();
    let ghost mut done: int = 0;
    assert(a.take(0) =~= Seq::empty());
    assert(panes_view(keep@) =~= Seq::empty());
    assert(panes_view(drop@) =~= Seq::empty());
    while front.len() > 0
        invariant
            done + front@.len() == n,
            0 <= done,
            n == panes@.len(),
            a == panes_view(panes@),
            forall|i: int| 0 <= i < front@.len() ==> #[trigger] front@[i] == panes@[n - 1 - i],
            panes_view(keep@) == kept(a.take(done), *root),
            panes_view(drop@) == pruned(a.take(done), *root),
        decreases front@.len(),
    {
        let ghost last = front@[front@.len() - 1];
        let p = front.pop().unwrap();
        assert(p == panes@[done]);
        assert(a.take(done + 1).drop_last() =~= a.take(done));
        assert(a.take(done + 1).last() == p@);
        let ghost (k, d) = (keep@, drop@);
        if root.contains(p.pane_id()) {
            keep.push(p);
            assert(panes_view(keep@) =~= panes_view(k).push(p@));
        } else {
            drop.push(p);
            assert(panes_view(drop@) =~= panes_view(d).push(p@));
        }
        proof {
            done = done + 1;
        }
    }
    assert(a.take(done) =~= a);
    (keep, drop)
}

// ---------------------------------------------------------------------------
// Laws.
// ---------------------------------------------------------------------------

/// Splitting and then closing the new pane gives back the tree and the panes from before.
pub proof fn closing_undoes_splitting(w: WindowView, dir: SplitDir, p: PaneView)
    requires
        w.complete(),
        !holds(w.panes, p.id),
    ensures
        without_active(with_split(w, dir, p)).root == w.root,
        without_active(with_split(w, dir, p)).panes == w.panes,
{
    assert(has_leaf(w.root, w.active));
    assert(!has_leaf(w.root, p.id));
    crate::mux::layout::removing_undoes_splitting(w.root, w.active, dir, p.id);
    splitting_adds_one_leaf(w.root, w.active, dir, p.id);
    let s = with_split(w, dir, p);
    lemma_pane_index(w.panes, p.id, 0);
    lemma_pane_index(s.panes, p.id, 0);
    assert(s.panes[w.panes.len() as int].id == p.id);
    let i = pane_index(s.panes, p.id, 0)->0;
    assert(i == w.panes.len()) by {
        if i < w.panes.len() {
            assert(w.panes[i].id == s.panes[i].id);
        }
    }
    assert(s.panes.remove(i) =~= w.panes);
}

/// A new tree leaves exactly the panes that it names, and hands back all the others.
pub proof fn a_new_tree_decides_who_stays(w: WindowView, root: Node, added: Seq<PaneView>, id: PaneId)
    requires
        w.wf(),
    ensures
        holds(with_tree(w, root, added).panes, id) == ((holds(w.panes, id) || holds(added, id))
            && has_leaf(root, id)),
        holds(pruned(inserted_all(w.panes, added), root), id) == ((holds(w.panes, id) || holds(
            added,
            id,
        )) && !has_leaf(root, id)),
{
    lemma_inserted_all(w.panes, added);
    lemma_kept(inserted_all(w.panes, added), root);
}

} // verus!
