//! A session: an ordered set of windows with one active, and the set of all sessions.
use vstd::prelude::*;
use vstd::string::*;

#[allow(unused_imports)]
use crate::mux::ids::after;
use crate::mux::ids::{Ids, PaneId, SessionId, WindowId};
use crate::mux::layout::SplitDir;
#[allow(unused_imports)]
use crate::mux::layout::{has_leaf, Node};
use crate::mux::pane::Pane;
#[allow(unused_imports)]
use crate::mux::pane::PaneView;
use crate::mux::window::Window;
#[allow(unused_imports)]
use crate::mux::window::{
    distinct, holds, lemma_pane_index, lemma_updated, pane_index, plain_window, with_split, without_active,
    WindowView,
};
use crate::text::{push_decimal, str_eq};
#[allow(unused_imports)]
use crate::text::dec;

verus! {

/// The mathematical values of a list of windows.
pub open spec fn windows_view(windows: Seq<Window>) -> Seq<WindowView> {
    Seq::new(windows.len(), |i: int| windows[i]@)
}

/// Index of the window with an id, at or after `from`.
pub open spec fn window_index(windows: Seq<WindowView>, id: WindowId, from: int) -> Option<int>
    decreases windows.len() - from,
{
    if from < 0 || from >= windows.len() {
        None
    } else if windows[from].id == id {
        Some(from)
    } else {
        window_index(windows, id, from + 1)
    }
}

/// Index of the first window that holds a pane, at or after `from`.
pub open spec fn home_of(windows: Seq<WindowView>, id: PaneId, from: int) -> Option<int>
    decreases windows.len() - from,
{
    if from < 0 || from >= windows.len() {
        None
    } else if holds(windows[from].panes, id) {
        Some(from)
    } else {
        home_of(windows, id, from + 1)
    }
}

/// What `window_index` means.
pub proof fn lemma_window_index(windows: Seq<WindowView>, id: WindowId, from: int)
    requires
        0 <= from <= windows.len(),
    ensures
        match window_index(windows, id, from) {
            Some(i) => from <= i < windows.len() && windows[i].id == id && forall|j: int|
                from <= j < i ==> (#[trigger] windows[j]).id != id,
            None => forall|j: int| from <= j < windows.len() ==> (#[trigger] windows[j]).id != id,
        },
    decreases windows.len() - from,
{
    if from < windows.len() && windows[from].id != id {
        lemma_window_index(windows, id, from + 1);
    }
}

/// What `home_of` means.
pub proof fn lemma_home(windows: Seq<WindowView>, id: PaneId, from: int)
    requires
        0 <= from <= windows.len(),
    ensures
        match home_of(windows, id, from) {
            Some(i) => from <= i < windows.len() && holds(windows[i].panes, id) && forall|j: int|
                from <= j < i ==> !holds((#[trigger] windows[j]).panes, id),
            None => forall|j: int|
                from <= j < windows.len() ==> !holds((#[trigger] windows[j]).panes, id),
        },
    decreases windows.len() - from,
{
    if from < windows.len() && !holds(windows[from].panes, id) {
        lemma_home(windows, id, from + 1);
    }
}

/// The mathematical value of a [`Session`].
pub struct SessionView {
    pub id: SessionId,
    pub name: Seq<char>,
    pub windows: Seq<WindowView>,
    /// Index of the active window; 0 where there is none.
    pub active: nat,
}

impl SessionView {
    /// The windows are well formed and the active index is one of theirs.
    pub open spec fn wf(self) -> bool {
        &&& forall|i: int| 0 <= i < self.windows.len() ==> (#[trigger] self.windows[i]).wf()
        &&& self.active < self.windows.len() || (self.windows.len() == 0 && self.active == 0)
    }

    /// Every window's panes are its leaves.
    pub open spec fn complete(self) -> bool {
        &&& self.wf()
        &&& forall|i: int| 0 <= i < self.windows.len() ==> (#[trigger] self.windows[i]).complete()
    }
}

/// A session: windows with one active. The unit of detaching and attaching.
pub struct Session {
    pub id: SessionId,
    pub name: String,
    windows: Vec<Window>,
    active: usize,
}

/// An index clamped to a count; 0 for none.
pub open spec fn clamp_index(active: nat, len: nat) -> nat {
    if len == 0 {
        0
    } else if active < len {
        active
    } else {
        (len - 1) as nat
    }
}

/// A session with a window appended; focus stays.
pub open spec fn pushed_window(s: SessionView, w: WindowView) -> SessionView {
    SessionView { windows: s.windows.push(w), ..s }
}

/// A session with a window appended and focused.
pub open spec fn added_window(s: SessionView, w: WindowView) -> SessionView {
    SessionView { windows: s.windows.push(w), active: s.windows.len(), ..s }
}

/// A session without the window at an index; focus follows the active window where it stays.
pub open spec fn without_window(s: SessionView, i: int) -> SessionView {
    SessionView {
        windows: s.windows.remove(i),
        active: if i < s.active {
            (s.active - 1) as nat
        } else {
            clamp_index(s.active, (s.windows.len() - 1) as nat)
        },
        ..s
    }
}

/// A window with one of its panes made active.
pub open spec fn with_active(w: WindowView, id: PaneId) -> WindowView {
    if holds(w.panes, id) {
        WindowView { active: id, ..w }
    } else {
        w
    }
}

/// A session focused on a pane.
pub open spec fn focused(s: SessionView, id: PaneId) -> SessionView {
    match home_of(s.windows, id, 0) {
        Some(i) => SessionView {
            windows: s.windows.update(i, with_active(s.windows[i], id)),
            active: i as nat,
            ..s
        },
        None => s,
    }
}

/// Where the window at `active` is after the one at `from` moved to `to`.
pub open spec fn followed(active: int, from: int, to: int) -> int {
    if active == from {
        to
    } else {
        let after_remove = if active > from {
            active - 1
        } else {
            active
        };
        if after_remove >= to {
            after_remove + 1
        } else {
            after_remove
        }
    }
}

/// A session with the window at `from` moved to `to`, both clamped.
pub open spec fn moved(s: SessionView, from: nat, to: nat) -> SessionView {
    let f = clamp_index(from, s.windows.len()) as int;
    let t = clamp_index(to, s.windows.len()) as int;
    if s.windows.len() == 0 || f == t {
        s
    } else {
        SessionView {
            windows: s.windows.remove(f).insert(t, s.windows[f]),
            active: followed(s.active as int, f, t) as nat,
            ..s
        }
    }
}

/// A pane of a session.
pub open spec fn pane_of(s: SessionView, id: PaneId) -> Option<PaneView> {
    match home_of(s.windows, id, 0) {
        Some(i) => Some(s.windows[i].panes[pane_index(s.windows[i].panes, id, 0)->0]),
        None => None,
    }
}

/// A session with a pane taken out; an emptied window leaves.
pub open spec fn extracted(s: SessionView, id: PaneId) -> SessionView {
    match home_of(s.windows, id, 0) {
        Some(i) => if s.windows[i].panes.len() <= 1 {
            without_window(s, i)
        } else {
            SessionView {
                windows: s.windows.update(i, without_active(with_active(s.windows[i], id))),
                ..s
            }
        },
        None => s,
    }
}

/// A session with a pane disposed of. Where its window leaves, the active index stays, clamped.
pub open spec fn removed_pane(s: SessionView, id: PaneId) -> SessionView {
    match home_of(s.windows, id, 0) {
        Some(i) => if s.windows[i].panes.len() <= 1 {
            SessionView {
                windows: s.windows.remove(i),
                active: clamp_index(s.active, (s.windows.len() - 1) as nat),
                ..s
            }
        } else {
            SessionView {
                windows: s.windows.update(i, without_active(with_active(s.windows[i], id))),
                ..s
            }
        },
        None => s,
    }
}

/// Moving one element gives a list of the same elements.
proof fn lemma_moved_elements(windows: Seq<WindowView>, from: int, to: int)
    requires
        0 <= from < windows.len(),
        0 <= to < windows.len(),
    ensures
        windows.remove(from).insert(to, windows[from]).len() == windows.len(),
        forall|i: int|
            0 <= i < windows.len() ==> exists|j: int|
                0 <= j < windows.len() && #[trigger] windows[j] == (#[trigger] windows.remove(
                    from,
                ).insert(to, windows[from])[i]),
{
    let r = windows.remove(from);
    let m = r.insert(to, windows[from]);
    assert forall|i: int| 0 <= i < windows.len() implies exists|j: int|
        0 <= j < windows.len() && #[trigger] windows[j] == (#[trigger] m[i]) by {
        if i == to {
            assert(windows[from] == m[i]);
        } else {
            let k = if i < to {
                i
            } else {
                i - 1
            };
            assert(m[i] == r[k]);
            let j = if k < from {
                k
            } else {
                k + 1
            };
            assert(windows[j] == m[i]);
        }
    }
}

/// Panes of all windows.
pub open spec fn pane_total(windows: Seq<WindowView>) -> nat
    decreases windows.len(),
{
    if windows.len() == 0 {
        0
    } else {
        pane_total(windows.drop_last()) + windows.last().panes.len()
    }
}

proof fn lemma_pane_total(windows: Seq<WindowView>, n: int)
    requires
        0 <= n <= windows.len(),
    ensures
        pane_total(windows.take(n)) <= pane_total(windows),
    decreases windows.len() - n,
{
    if n < windows.len() {
        lemma_pane_total(windows, n + 1);
        assert(windows.take(n + 1).drop_last() =~= windows.take(n));
    } else {
        assert(windows.take(n) =~= windows);
    }
}

/// New index of the followed tab after the window at `from` moved to `to`.
pub fn reindex_after_move(active: usize, from: usize, to: usize) -> (r: usize)
    ensures
        r == followed(active as int, from as int, to as int),
{
    if active == from {
        return to;
    }
    // After the removal, indices behind `from` drop by one.
    let after_remove: usize = if active > from {
        active - 1
    } else {
        active
    };
    // After the insertion, indices from `to` on rise by one.
    if after_remove >= to {
        after_remove + 1
    } else {
        after_remove
    }
}

impl Session {
    pub closed spec fn view(&self) -> SessionView {
        SessionView {
            id: self.id,
            name: self.name@,
            windows: windows_view(self.windows@),
            active: self.active as nat,
        }
    }

    /// A session whose first window runs `pane`.
    pub fn start(ids: &mut Ids, name: String, pane: Pane) -> (s: Session)
        requires
            pane@.wf(),
        ensures
            s@ == (SessionView {
                id: SessionId(old(ids).session),
                name: name@,
                windows: seq![plain_window(
                    WindowId(old(ids).window),
                    seq![pane@],
                    Node::Leaf(pane@.id),
                    pane@.id,
                )],
                active: 0,
            }),
            s@.complete(),
            *final(ids) == (Ids {
                session: after(old(ids).session),
                window: after(old(ids).window),
                ..*old(ids)
            }),
    {
        let id = SessionId::allocate(ids);
        let mut windows: Vec<Window> = Vec::new();
        let w = Window::new(ids, pane);
        windows.push(w);
        assert(windows_view(windows@) =~= seq![w@]);
        Session { id, name, windows, active: 0 }
    }

    /// A session without windows.
    pub fn empty(ids: &mut Ids, name: String) -> (s: Session)
        ensures
            s@ == (SessionView {
                id: SessionId(old(ids).session),
                name: name@,
                windows: Seq::empty(),
                active: 0,
            }),
            *final(ids) == (Ids { session: after(old(ids).session), ..*old(ids) }),
    {
        let s = Session { id: SessionId::allocate(ids), name, windows: Vec::new(), active: 0 };
        assert(windows_view(s.windows@) =~= Seq::empty());
        s
    }

    /// Whether every window's panes are its leaves.
    pub fn is_complete(&self) -> (b: bool)
        requires
            self@.wf(),
        ensures
            b == self@.complete(),
    {
        let mut i: usize = 0;
        while i < self.windows.len()
            invariant
                i <= self.windows@.len(),
                self@.wf(),
                forall|k: int| 0 <= k < i ==> (#[trigger] self@.windows[k]).complete(),
            decreases self.windows@.len() - i,
        {
            assert(self@.windows[i as int] == self.windows@[i as int]@);
            assert(self@.windows[i as int].wf());
            if !self.windows[i].is_complete() {
                return false;
            }
            i = i + 1;
        }
        true
    }

    /// A session of the given windows.
    pub fn from_windows(ids: &mut Ids, name: String, windows: Vec<Window>, active: usize) -> (s:
        Session)
        ensures
            s@ == (SessionView {
                id: SessionId(old(ids).session),
                name: name@,
                windows: windows_view(windows@),
                active: clamp_index(active as nat, windows@.len()),
            }),
            *final(ids) == (Ids { session: after(old(ids).session), ..*old(ids) }),
    {
        let n: usize = windows.len();
        let active: usize = if n == 0 {
            0
        } else if active < n {
            active
        } else {
            n - 1
        };
        Session { id: SessionId::allocate(ids), name, windows, active }
    }

    pub fn window_count(&self) -> (n: usize)
        ensures
            n == self@.windows.len(),
    {
        self.windows.len()
    }

    pub fn windows(&self) -> (w: &Vec<Window>)
        ensures
            windows_view(w@) == self@.windows,
    {
        &self.windows
    }

    pub fn active_index(&self) -> (i: usize)
        ensures
            i == self@.active,
    {
        self.active
    }

    pub fn active_window(&self) -> (r: Option<&Window>)
        ensures
            match r {
                Some(w) => self@.active < self@.windows.len() && w@
                    == self@.windows[self@.active as int],
                None => self@.active >= self@.windows.len(),
            },
    {
        if self.active < self.windows.len() {
            Some(&self.windows[self.active])
        } else {
            None
        }
    }

    /// The active window, to change it.
    pub fn active_window_mut(&mut self) -> (r: Option<&mut Window>)
        ensures
            match r {
                Some(w) => {
                    let i = old(self)@.active as int;
                    &&& i < old(self)@.windows.len()
                    &&& w@ == old(self)@.windows[i]
                    &&& final(self)@ == (SessionView {
                        windows: old(self)@.windows.update(i, final(w)@),
                        ..old(self)@
                    })
                },
                None => old(self)@.active >= old(self)@.windows.len() && final(self)@
                    == old(self)@,
            },
    {
        let i: usize = self.active;
        self.window_at_mut(i)
    }

    /// The window at an index, to change it.
    pub fn window_at_mut(&mut self, i: usize) -> (r: Option<&mut Window>)
        ensures
            match r {
                Some(w) => {
                    &&& i < old(self)@.windows.len()
                    &&& w@ == old(self)@.windows[i as int]
                    &&& final(self)@ == (SessionView {
                        windows: old(self)@.windows.update(i as int, final(w)@),
                        ..old(self)@
                    })
                },
                None => i >= old(self)@.windows.len() && final(self)@ == old(self)@,
            },
    {
        if i < self.windows.len() {
            let w = &mut self.windows[i];
            assert(windows_view(old(self).windows@.update(i as int, *final(w))) =~= windows_view(
                old(self).windows@,
            ).update(i as int, final(w)@));
            Some(w)
        } else {
            None
        }
    }

    /// Adds a window that runs `pane`, and focuses it.
    pub fn add_window(&mut self, ids: &mut Ids, pane: Pane) -> (id: WindowId)
        requires
            old(self)@.wf(),
            pane@.wf(),
        ensures
            id == WindowId(old(ids).window),
            final(self)@ == added_window(
                old(self)@,
                plain_window(id, seq![pane@], Node::Leaf(pane@.id), pane@.id),
            ),
            *final(ids) == (Ids { window: after(old(ids).window), ..*old(ids) }),
            final(self)@.wf(),
            old(self)@.complete() ==> final(self)@.complete(),
    {
        let w = Window::new(ids, pane);
        let id = w.window_id();
        self.windows.push(w);
        assert(windows_view(self.windows@) =~= windows_view(old(self).windows@).push(w@));
        self.active = self.windows.len() - 1;
        id
    }

    /// Appends a window without stealing focus: a remote window that appears in the background
    /// must not take the user off the active tab.
    pub fn push_window(&mut self, window: Window) -> (id: WindowId)
        requires
            old(self)@.wf(),
            window@.wf(),
        ensures
            id == window@.id,
            final(self)@ == pushed_window(old(self)@, window@),
            final(self)@.wf(),
            old(self)@.complete() && window@.complete() ==> final(self)@.complete(),
    {
        let id = window.window_id();
        self.windows.push(window);
        assert(windows_view(self.windows@) =~= windows_view(old(self).windows@).push(window@));
        id
    }

    /// Index of the window with an id.
    pub fn window_position(&self, id: WindowId) -> (r: Option<usize>)
        ensures
            match r {
                Some(i) => window_index(self@.windows, id, 0) == Some(i as int) && i
                    < self@.windows.len(),
                None => window_index(self@.windows, id, 0) == None::<int>,
            },
    {
        let mut i: usize = 0;
        while i < self.windows.len()
            invariant
                i <= self.windows@.len(),
                window_index(self@.windows, id, 0) == window_index(self@.windows, id, i as int),
            decreases self.windows@.len() - i,
        {
            if self.windows[i].window_id() == id {
                return Some(i);
            }
            i = i + 1;
        }
        None
    }

    /// Index of the window that holds a pane.
    pub fn pane_position(&self, id: PaneId) -> (r: Option<usize>)
        ensures
            match r {
                Some(i) => home_of(self@.windows, id, 0) == Some(i as int) && i
                    < self@.windows.len() && holds(self@.windows[i as int].panes, id),
                None => home_of(self@.windows, id, 0) == None::<int>,
            },
    {
        let mut i: usize = 0;
        while i < self.windows.len()
            invariant
                i <= self.windows@.len(),
                home_of(self@.windows, id, 0) == home_of(self@.windows, id, i as int),
            decreases self.windows@.len() - i,
        {
            if self.windows[i].has_pane(id) {
                return Some(i);
            }
            i = i + 1;
        }
        None
    }

    /// The window with an id, to change it. A stale id can only miss.
    pub fn window_mut(&mut self, id: WindowId) -> (r: Option<&mut Window>)
        ensures
            match r {
                Some(w) => {
                    let i = window_index(old(self)@.windows, id, 0)->0;
                    &&& window_index(old(self)@.windows, id, 0) is Some
                    &&& w@ == old(self)@.windows[i]
                    &&& final(self)@ == (SessionView {
                        windows: old(self)@.windows.update(i, final(w)@),
                        ..old(self)@
                    })
                },
                None => window_index(old(self)@.windows, id, 0) is None && final(self)@ == old(
                    self,
                )@,
            },
    {
        match self.window_position(id) {
            Some(i) => self.window_at_mut(i),
            None => None,
        }
    }

    /// Takes the window at an index out.
    fn take_window(&mut self, i: usize) -> (w: Window)
        requires
            i < old(self)@.windows.len(),
            old(self)@.wf(),
        ensures
            w@ == old(self)@.windows[i as int],
            final(self)@ == without_window(old(self)@, i as int),
            final(self)@.wf(),
            old(self)@.complete() ==> final(self)@.complete(),
    {
        let w = self.windows.remove(i);
        assert(windows_view(self.windows@) =~= windows_view(old(self).windows@).remove(i as int));
        if i < self.active {
            self.active = self.active - 1;
        } else if self.active >= self.windows.len() && self.active > 0 {
            self.active = self.windows.len() - 1;
        }
        w
    }

    /// Removes a window by id and fixes the active index. Unlike
    /// [`Session::close_active_window`] this may remove the last window.
    pub fn remove_window(&mut self, id: WindowId) -> (r: Option<Window>)
        requires
            old(self)@.wf(),
        ensures
            match window_index(old(self)@.windows, id, 0) {
                Some(i) => r is Some && r->0@ == old(self)@.windows[i] && final(self)@
                    == without_window(old(self)@, i),
                None => r is None && final(self)@ == old(self)@,
            },
            final(self)@.wf(),
            old(self)@.complete() ==> final(self)@.complete(),
    {
        match self.window_position(id) {
            Some(i) => Some(self.take_window(i)),
            None => None,
        }
    }

    /// Activates the window at an index. Nothing happens out of range.
    pub fn select_window(&mut self, index: usize) -> (done: bool)
        ensures
            done == (index < old(self)@.windows.len()),
            final(self)@ == (if done {
                SessionView { active: index as nat, ..old(self)@ }
            } else {
                old(self)@
            }),
            old(self)@.wf() ==> final(self)@.wf(),
            old(self)@.complete() ==> final(self)@.complete(),
    {
        if index < self.windows.len() {
            self.active = index;
            true
        } else {
            false
        }
    }

    /// Focuses a pane: its window becomes active, and the pane becomes that window's active one.
    /// Returns whether a window holds the pane.
    pub fn focus_pane(&mut self, id: PaneId) -> (done: bool)
        ensures
            done == (home_of(old(self)@.windows, id, 0) is Some),
            final(self)@ == focused(old(self)@, id),
            old(self)@.wf() ==> final(self)@.wf(),
            old(self)@.complete() ==> final(self)@.complete(),
    {
        match self.pane_position(id) {
            Some(i) => {
                self.active = i;
                if let Some(w) = self.window_at_mut(i) {
                    w.set_active(id);
                }
                true
            },
            None => false,
        }
    }

    /// Moves the window at `from` to `to`, both clamped. The active index follows its window.
    pub fn move_window(&mut self, from: usize, to: usize)
        requires
            old(self)@.wf(),
        ensures
            final(self)@ == moved(old(self)@, from as nat, to as nat),
            final(self)@.wf(),
            old(self)@.complete() ==> final(self)@.complete(),
    {
        let len: usize = self.windows.len();
        if len == 0 {
            return;
        }
        let from: usize = if from < len {
            from
        } else {
            len - 1
        };
        let to: usize = if to < len {
            to
        } else {
            len - 1
        };
        if from == to {
            return;
        }
        let w = self.windows.remove(from);
        self.windows.insert(to, w);
        assert(windows_view(self.windows@) =~= windows_view(old(self).windows@).remove(
            from as int,
        ).insert(to as int, w@));
        self.active = reindex_after_move(self.active, from, to);
        proof {
            lemma_moved_elements(windows_view(old(self).windows@), from as int, to as int);
        }
    }

    pub fn next_window(&mut self)
        requires
            old(self)@.wf(),
        ensures
            final(self)@ == (if old(self)@.windows.len() == 0 {
                old(self)@
            } else {
                SessionView {
                    active: (old(self)@.active + 1) % old(self)@.windows.len(),
                    ..old(self)@
                }
            }),
            final(self)@.wf(),
            old(self)@.complete() ==> final(self)@.complete(),
    {
        if self.windows.len() != 0 {
            proof {
                let (a, n) = (self.active as int, self.windows@.len() as int);
                if a + 1 < n {
                    vstd::arithmetic::div_mod::lemma_small_mod((a + 1) as nat, n as nat);
                } else {
                    vstd::arithmetic::div_mod::lemma_mod_self_0(n);
                }
            }
            self.active = if self.active + 1 < self.windows.len() {
                self.active + 1
            } else {
                0
            };
        }
    }

    pub fn prev_window(&mut self)
        requires
            old(self)@.wf(),
        ensures
            final(self)@ == (if old(self)@.windows.len() == 0 {
                old(self)@
            } else {
                SessionView {
                    active: ((old(self)@.active + old(self)@.windows.len() - 1) % (old(
                        self,
                    )@.windows.len() as int)) as nat,
                    ..old(self)@
                }
            }),
            final(self)@.wf(),
            old(self)@.complete() ==> final(self)@.complete(),
    {
        if self.windows.len() != 0 {
            proof {
                let (a, n) = (self.active as int, self.windows@.len() as int);
                if a == 0 {
                    vstd::arithmetic::div_mod::lemma_small_mod((n - 1) as nat, n as nat);
                } else {
                    vstd::arithmetic::div_mod::lemma_mod_add_multiples_vanish(a - 1, n);
                    vstd::arithmetic::div_mod::lemma_small_mod((a - 1) as nat, n as nat);
                    assert(a + n - 1 == n + (a - 1));
                }
            }
            self.active = if self.active == 0 {
                self.windows.len() - 1
            } else {
                self.active - 1
            };
        }
    }

    /// Closes the active window if more than one remains. Returns whether one was closed.
    pub fn close_active_window(&mut self) -> (done: bool)
        requires
            old(self)@.wf(),
        ensures
            done == (old(self)@.windows.len() > 1),
            final(self)@ == (if done {
                without_window(old(self)@, old(self)@.active as int)
            } else {
                old(self)@
            }),
            final(self)@.wf(),
            old(self)@.complete() ==> final(self)@.complete(),
    {
        if self.windows.len() <= 1 {
            return false;
        }
        let i: usize = self.active;
        let _closed = self.take_window(i);
        true
    }

    /// The pane with an id, in whatever window holds it.
    pub fn pane(&self, id: PaneId) -> (r: Option<&Pane>)
        ensures
            match r {
                Some(p) => pane_of(self@, id) == Some(p@),
                None => pane_of(self@, id) is None,
            },
    {
        match self.pane_position(id) {
            Some(i) => self.windows[i].pane(id),
            None => None,
        }
    }

    /// The pane with an id, to change it.
    pub fn pane_mut(&mut self, id: PaneId) -> (r: Option<&mut Pane>)
        ensures
            match r {
                Some(p) => {
                    &&& pane_of(old(self)@, id) == Some(p@)
                    &&& final(self)@ == with_pane(old(self)@, id, final(p)@)
                },
                None => pane_of(old(self)@, id) is None && final(self)@ == old(self)@,
            },
    {
        match self.pane_position(id) {
            Some(i) => match self.window_at_mut(i) {
                Some(w) => w.pane_mut(id),
                None => None,
            },
            None => None,
        }
    }

    /// Takes a pane out of the window that holds it, without disposing of it: its split
    /// collapses, and a window that empties leaves.
    pub fn extract_pane(&mut self, id: PaneId) -> (r: Option<Pane>)
        requires
            old(self)@.wf(),
        ensures
            r is Some == (pane_of(old(self)@, id) is Some),
            r matches Some(p) ==> Some(p@) == pane_of(old(self)@, id),
            final(self)@ == extracted(old(self)@, id),
            final(self)@.wf(),
            old(self)@.complete() ==> final(self)@.complete(),
    {
        match self.pane_position(id) {
            Some(i) => if self.windows[i].pane_count() <= 1 {
                let w = self.take_window(i);
                w.into_pane(id)
            } else {
                match self.window_at_mut(i) {
                    Some(w) => {
                        w.set_active(id);
                        w.close_active()
                    },
                    None => None,
                }
            },
            None => None,
        }
    }

    /// Removes a pane (its program ended): its split collapses, and a window that empties leaves.
    /// Returns whether the pane was there.
    pub fn remove_pane(&mut self, id: PaneId) -> (found: bool)
        requires
            old(self)@.wf(),
        ensures
            found == (pane_of(old(self)@, id) is Some),
            final(self)@ == removed_pane(old(self)@, id),
            final(self)@.wf(),
            old(self)@.complete() ==> final(self)@.complete(),
    {
        match self.pane_position(id) {
            Some(i) => {
                if self.windows[i].pane_count() <= 1 {
                    let ghost o = windows_view(self.windows@);
                    let _closed = self.windows.remove(i);
                    assert(windows_view(self.windows@) =~= o.remove(i as int));
                    if self.windows.len() != 0 && self.active >= self.windows.len() {
                        self.active = self.windows.len() - 1;
                    }
                } else {
                    if let Some(w) = self.window_at_mut(i) {
                        w.set_active(id);
                        let _closed = w.close_active();
                    }
                }
                true
            },
            None => false,
        }
    }

    /// How many panes the session has.
    pub fn pane_count(&self) -> (n: usize)
        requires
            pane_total(self@.windows) <= usize::MAX,
        ensures
            n == pane_total(self@.windows),
    {
        let mut n: usize = 0;
        let mut i: usize = 0;
        let ghost ws = self@.windows;
        assert(ws.take(0) =~= Seq::empty());
        while i < self.windows.len()
            invariant
                i <= self.windows@.len(),
                ws == self@.windows,
                n == pane_total(ws.take(i as int)),
                pane_total(ws) <= usize::MAX,
            decreases self.windows@.len() - i,
        {
            assert(ws.take(i + 1).drop_last() =~= ws.take(i as int));
            proof {
                lemma_pane_total(ws, i + 1);
            }
            n = n + self.windows[i].pane_count();
            i = i + 1;
        }
        assert(ws.take(i as int) =~= ws);
        n
    }
}

/// A session with the pane of an id replaced.
pub open spec fn with_pane(s: SessionView, id: PaneId, p: PaneView) -> SessionView {
    match home_of(s.windows, id, 0) {
        Some(i) => {
            let w = s.windows[i];
            SessionView {
                windows: s.windows.update(
                    i,
                    WindowView { panes: w.panes.update(pane_index(w.panes, id, 0)->0, p), ..w },
                ),
                ..s
            }
        },
        None => s,
    }
}

/// A pane that is found has the id that was looked for, and is well formed where the session is.
pub proof fn lemma_pane_of(s: SessionView, id: PaneId)
    ensures
        pane_of(s, id) matches Some(p) ==> p.id == id && (s.wf() ==> p.wf()),
{
    if pane_of(s, id) is Some {
        lemma_home(s.windows, id, 0);
        let w = s.windows[home_of(s.windows, id, 0)->0];
        lemma_pane_index(w.panes, id, 0);
    }
}

/// Changing a pane without changing its id keeps a session well formed and complete.
pub proof fn lemma_with_pane(s: SessionView, id: PaneId, p: PaneView)
    requires
        pane_of(s, id) is Some,
        p.id == pane_of(s, id)->0.id,
        p.wf(),
    ensures
        s.wf() ==> with_pane(s, id, p).wf(),
        s.complete() ==> with_pane(s, id, p).complete(),
{
    lemma_home(s.windows, id, 0);
    let i = home_of(s.windows, id, 0)->0;
    let w = s.windows[i];
    lemma_pane_index(w.panes, id, 0);
    let k = pane_index(w.panes, id, 0)->0;
    lemma_updated(w.panes, k, p);
    let v = WindowView { panes: w.panes.update(k, p), ..w };
    if s.complete() {
        assert(w.complete());
        assert forall|x: PaneId| #[trigger] has_leaf(v.root, x) == holds(v.panes, x) by {
            assert(has_leaf(w.root, x) == holds(w.panes, x));
        }
        assert(v.complete());
    }
}

/// A pane that was put in place is found again, and its session keeps its windows and focus.
pub proof fn lemma_with_pane_found(s: SessionView, id: PaneId, p: PaneView)
    requires
        pane_of(s, id) is Some,
        p.id == id,
    ensures
        pane_of(with_pane(s, id, p), id) == Some(p),
        with_pane(s, id, p).windows.len() == s.windows.len(),
        with_pane(s, id, p).active == s.active,
        forall|i: int|
            0 <= i < s.windows.len() ==> (#[trigger] with_pane(s, id, p).windows[i]).active
                == s.windows[i].active,
{
    lemma_home(s.windows, id, 0);
    let i = home_of(s.windows, id, 0)->0;
    let w = s.windows[i];
    lemma_pane_index(w.panes, id, 0);
    let k = pane_index(w.panes, id, 0)->0;
    lemma_updated(w.panes, k, p);
    let t = with_pane(s, id, p);
    lemma_home(t.windows, id, 0);
    let j = home_of(t.windows, id, 0);
    assert(holds(t.windows[i].panes, id));
    assert(j == Some(i)) by {
        if j is Some && j->0 < i {
            assert(holds(s.windows[j->0].panes, id));
        }
    }
    let ps = t.windows[i].panes;
    lemma_pane_index(ps, id, 0);
    let m = pane_index(ps, id, 0)->0;
    assert(ps[k].id == id);
    if m < k {
        assert(w.panes[m].id == id);
    }
}

/// Putting a pane in place leaves every other pane as it is.
pub proof fn lemma_with_pane_other(s: SessionView, id: PaneId, p: PaneView, x: PaneId)
    requires
        pane_of(s, id) is Some,
        p.id == id,
        x != id,
    ensures
        pane_of(with_pane(s, id, p), x) == pane_of(s, x),
{
    lemma_home(s.windows, id, 0);
    let i = home_of(s.windows, id, 0)->0;
    let w = s.windows[i];
    lemma_pane_index(w.panes, id, 0);
    let k = pane_index(w.panes, id, 0)->0;
    lemma_updated(w.panes, k, p);
    let t = with_pane(s, id, p);
    let ps = t.windows[i].panes;
    assert(holds(ps, x) == holds(w.panes, x));
    lemma_home(s.windows, x, 0);
    lemma_home(t.windows, x, 0);
    let (a, b) = (home_of(s.windows, x, 0), home_of(t.windows, x, 0));
    if a is Some {
        assert(holds(t.windows[a->0].panes, x));
    }
    if b is Some {
        assert(holds(s.windows[b->0].panes, x));
    }
    assert(a == b);
    if a == Some(i) {
        lemma_pane_index(w.panes, x, 0);
        lemma_pane_index(ps, x, 0);
        let (m, n) = (pane_index(w.panes, x, 0)->0, pane_index(ps, x, 0)->0);
        assert(ps[m].id == x && w.panes[n].id == x);
        assert(m == n);
    }
}

// ---------------------------------------------------------------------------
// The set of sessions.
// ---------------------------------------------------------------------------

/// The mathematical values of a list of sessions.
pub open spec fn sessions_view(sessions: Seq<Session>) -> Seq<SessionView> {
    Seq::new(sessions.len(), |i: int| sessions[i]@)
}

/// Index of the session with an id, at or after `from`.
pub open spec fn session_index(sessions: Seq<SessionView>, id: SessionId, from: int) -> Option<int>
    decreases sessions.len() - from,
{
    if from < 0 || from >= sessions.len() {
        None
    } else if sessions[from].id == id {
        Some(from)
    } else {
        session_index(sessions, id, from + 1)
    }
}

/// Index of the session with a name, at or after `from`.
pub open spec fn named_index(sessions: Seq<SessionView>, name: Seq<char>, from: int) -> Option<int>
    decreases sessions.len() - from,
{
    if from < 0 || from >= sessions.len() {
        None
    } else if sessions[from].name == name {
        Some(from)
    } else {
        named_index(sessions, name, from + 1)
    }
}

/// The first pane with an id, from the session at `from` on.
pub open spec fn pane_in(sessions: Seq<SessionView>, id: PaneId, from: int) -> Option<PaneView>
    decreases sessions.len() - from,
{
    if from < 0 || from >= sessions.len() {
        None
    } else if pane_of(sessions[from], id) is Some {
        pane_of(sessions[from], id)
    } else {
        pane_in(sessions, id, from + 1)
    }
}

/// Panes of all sessions.
pub open spec fn mux_total(sessions: Seq<SessionView>) -> nat
    decreases sessions.len(),
{
    if sessions.len() == 0 {
        0
    } else {
        mux_total(sessions.drop_last()) + pane_total(sessions.last().windows)
    }
}

proof fn lemma_mux_total(sessions: Seq<SessionView>, n: int)
    requires
        0 <= n <= sessions.len(),
    ensures
        mux_total(sessions.take(n)) <= mux_total(sessions),
    decreases sessions.len() - n,
{
    if n < sessions.len() {
        lemma_mux_total(sessions, n + 1);
        assert(sessions.take(n + 1).drop_last() =~= sessions.take(n));
    } else {
        assert(sessions.take(n) =~= sessions);
    }
}

/// Why a pane could not be placed.
#[derive(Debug, Clone, Copy, PartialEq, Eq, Structural)]
pub enum MuxError {
    /// There is no such session.
    NoSession(SessionId),
    /// The session has no window to split.
    NoWindow,
}

/// The text of a missing session.
pub fn not_found(session: SessionId) -> (s: String)
    ensures
        s@ == "no session $"@ + dec(session.0 as nat),
{
    let mut s = String::from_str("no session $");
    push_decimal(&mut s, session.0);
    s
}

impl MuxError {
    /// The error in words.
    pub fn message(&self) -> (s: String)
        ensures
            s@ == (match *self {
                MuxError::NoSession(id) => "no session $"@ + dec(id.0 as nat),
                MuxError::NoWindow => "session has no window"@,
            }),
    {
        match self {
            MuxError::NoSession(id) => not_found(*id),
            MuxError::NoWindow => String::from_str("session has no window"),
        }
    }
}

/// All sessions.
pub struct Mux {
    pub sessions: Vec<Session>,
}

impl Mux {
    pub open spec fn view(&self) -> Seq<SessionView> {
        sessions_view(self.sessions@)
    }

    pub fn new() -> (m: Mux)
        ensures
            m@ == Seq::<SessionView>::empty(),
    {
        let m = Mux { sessions: Vec::new() };
        assert(m@ =~= Seq::empty());
        m
    }

    /// Creates an empty session.
    pub fn new_session(&mut self, ids: &mut Ids, name: String) -> (id: SessionId)
        ensures
            id == SessionId(old(ids).session),
            final(self)@ == old(self)@.push(
                SessionView { id, name: name@, windows: Seq::empty(), active: 0 },
            ),
            *final(ids) == (Ids { session: after(old(ids).session), ..*old(ids) }),
    {
        let s = Session::empty(ids, name);
        let id = s.id;
        self.sessions.push(s);
        assert(self@ =~= old(self)@.push(s@));
        id
    }

    fn session_position(&self, id: SessionId) -> (r: Option<usize>)
        ensures
            match r {
                Some(i) => session_index(self@, id, 0) == Some(i as int) && i < self@.len(),
                None => session_index(self@, id, 0) == None::<int>,
            },
    {
        let mut i: usize = 0;
        while i < self.sessions.len()
            invariant
                i <= self.sessions@.len(),
                session_index(self@, id, 0) == session_index(self@, id, i as int),
            decreases self.sessions@.len() - i,
        {
            if self.sessions[i].session_id() == id {
                return Some(i);
            }
            i = i + 1;
        }
        None
    }

    /// Puts a pane that was just started into a new window of a session.
    pub fn new_window(&mut self, ids: &mut Ids, session: SessionId, pane: Pane) -> (r: Result<
        PaneId,
        MuxError,
    >)
        requires
            pane@.wf(),
            forall|i: int| 0 <= i < old(self)@.len() ==> (#[trigger] old(self)@[i]).wf(),
        ensures
            match session_index(old(self)@, session, 0) {
                Some(i) => {
                    &&& r == Ok::<PaneId, MuxError>(pane@.id)
                    &&& final(self)@ == old(self)@.update(
                        i,
                        added_window(
                            old(self)@[i],
                            plain_window(
                                WindowId(old(ids).window),
                                seq![pane@],
                                Node::Leaf(pane@.id),
                                pane@.id,
                            ),
                        ),
                    )
                    &&& *final(ids) == (Ids { window: after(old(ids).window), ..*old(ids) })
                },
                None => {
                    &&& r == Err::<PaneId, MuxError>(MuxError::NoSession(session))
                    &&& final(self)@ == old(self)@
                    &&& *final(ids) == *old(ids)
                },
            },
    {
        match self.session_position(session) {
            Some(i) => {
                assert(old(self)@[i as int].wf());
                let id = pane.pane_id();
                let _window = self.sessions[i].add_window(ids, pane);
                assert(self@ =~= old(self)@.update(i as int, self.sessions@[i as int]@));
                Ok(id)
            },
            None => Err(MuxError::NoSession(session)),
        }
    }

    /// Splits the active pane of a session's active window with a pane that was just started.
    pub fn split_active(&mut self, session: SessionId, dir: SplitDir, pane: Pane) -> (r: Result<
        PaneId,
        MuxError,
    >)
        requires
            pane@.wf(),
            forall|i: int| 0 <= i < old(self)@.len() ==> (#[trigger] old(self)@[i]).wf(),
        ensures
            match session_index(old(self)@, session, 0) {
                Some(i) => {
                    let s = old(self)@[i];
                    if s.active < s.windows.len() {
                        &&& r == Ok::<PaneId, MuxError>(pane@.id)
                        &&& final(self)@ == old(self)@.update(
                            i,
                            SessionView {
                                windows: s.windows.update(
                                    s.active as int,
                                    with_split(s.windows[s.active as int], dir, pane@),
                                ),
                                ..s
                            },
                        )
                    } else {
                        &&& r == Err::<PaneId, MuxError>(MuxError::NoWindow)
                        &&& final(self)@ == old(self)@
                    }
                },
                None => {
                    &&& r == Err::<PaneId, MuxError>(MuxError::NoSession(session))
                    &&& final(self)@ == old(self)@
                },
            },
    {
        match self.session_position(session) {
            Some(i) => {
                assert(old(self)@[i as int].wf());
                let r = match self.sessions[i].active_window_mut() {
                    Some(w) => Ok(w.split(dir, pane)),
                    None => Err(MuxError::NoWindow),
                };
                assert(self@ =~= old(self)@.update(i as int, self.sessions@[i as int]@));
                r
            },
            None => Err(MuxError::NoSession(session)),
        }
    }

    pub fn session(&self, id: SessionId) -> (r: Option<&Session>)
        ensures
            match r {
                Some(s) => session_index(self@, id, 0) is Some && s@ == self@[session_index(
                    self@,
                    id,
                    0,
                )->0],
                None => session_index(self@, id, 0) is None,
            },
    {
        match self.session_position(id) {
            Some(i) => Some(&self.sessions[i]),
            None => None,
        }
    }

    pub fn session_by_name(&self, name: &str) -> (r: Option<&Session>)
        ensures
            match r {
                Some(s) => named_index(self@, name@, 0) is Some && s@ == self@[named_index(
                    self@,
                    name@,
                    0,
                )->0],
                None => named_index(self@, name@, 0) is None,
            },
    {
        let mut i: usize = 0;
        while i < self.sessions.len()
            invariant
                i <= self.sessions@.len(),
                named_index(self@, name@, 0) == named_index(self@, name@, i as int),
            decreases self.sessions@.len() - i,
        {
            if str_eq(self.sessions[i].session_name(), name) {
                return Some(&self.sessions[i]);
            }
            i = i + 1;
        }
        None
    }

    /// The pane with an id, in whatever session.
    pub fn pane(&self, id: PaneId) -> (r: Option<&Pane>)
        ensures
            match r {
                Some(p) => pane_in(self@, id, 0) == Some(p@),
                None => pane_in(self@, id, 0) is None,
            },
    {
        let mut i: usize = 0;
        while i < self.sessions.len()
            invariant
                i <= self.sessions@.len(),
                pane_in(self@, id, 0) == pane_in(self@, id, i as int),
            decreases self.sessions@.len() - i,
        {
            if let Some(p) = self.sessions[i].pane(id) {
                return Some(p);
            }
            i = i + 1;
        }
        None
    }

    /// How many panes there are.
    pub fn pane_count(&self) -> (n: usize)
        requires
            mux_total(self@) <= usize::MAX,
        ensures
            n == mux_total(self@),
    {
        let mut n: usize = 0;
        let mut i: usize = 0;
        let ghost ss = self@;
        assert(ss.take(0) =~= Seq::empty());
        while i < self.sessions.len()
            invariant
                i <= self.sessions@.len(),
                ss == self@,
                n == mux_total(ss.take(i as int)),
                mux_total(ss) <= usize::MAX,
            decreases self.sessions@.len() - i,
        {
            assert(ss.take(i + 1).drop_last() =~= ss.take(i as int));
            proof {
                lemma_mux_total(ss, i + 1);
            }
            n = n + self.sessions[i].pane_count();
            i = i + 1;
        }
        assert(ss.take(i as int) =~= ss);
        n
    }
}

impl Session {
    /// The session's id.
    pub fn session_id(&self) -> (id: SessionId)
        ensures
            id == self@.id,
    {
        self.id
    }

    /// The session's name.
    pub fn session_name(&self) -> (name: &str)
        ensures
            name@ == self@.name,
    {
        self.name.as_str()
    }
}

// ---------------------------------------------------------------------------
// Laws.
// ---------------------------------------------------------------------------

/// Moving a window moves no focus: the active window stays the active one.
pub proof fn moving_keeps_the_active_window(s: SessionView, from: nat, to: nat)
    requires
        s.wf(),
        s.windows.len() > 0,
    ensures
        moved(s, from, to).windows[moved(s, from, to).active as int]
            == s.windows[s.active as int],
        moved(s, from, to).windows.to_multiset() == s.windows.to_multiset(),
{
    broadcast use vstd::seq_lib::group_to_multiset_ensures;

    let f = clamp_index(from, s.windows.len()) as int;
    let t = clamp_index(to, s.windows.len()) as int;
    if f != t {
        let r = s.windows.remove(f);
        assert(s.windows =~= r.insert(f, s.windows[f]));
        assert(r.insert(t, s.windows[f]).to_multiset() =~= r.to_multiset().insert(s.windows[f]));
        assert(r.insert(f, s.windows[f]).to_multiset() =~= r.to_multiset().insert(s.windows[f]));
    }
}

/// Removing another window than the active one keeps the active window active.
pub proof fn removing_another_window_keeps_focus(s: SessionView, i: int)
    requires
        s.wf(),
        0 <= i < s.windows.len(),
        i != s.active,
    ensures
        without_window(s, i).windows[without_window(s, i).active as int]
            == s.windows[s.active as int],
{
}

/// A pushed window does not become the active one.
pub proof fn pushing_keeps_focus(s: SessionView, w: WindowView)
    requires
        s.wf(),
        s.windows.len() > 0,
    ensures
        pushed_window(s, w).windows[pushed_window(s, w).active as int]
            == s.windows[s.active as int],
{
}

/// Focusing a pane that some window holds makes it the active pane of the active window.
pub proof fn focusing_reaches_the_pane(s: SessionView, id: PaneId)
    requires
        pane_of(s, id) is Some,
    ensures
        focused(s, id).active < focused(s, id).windows.len(),
        focused(s, id).windows[focused(s, id).active as int].active == id,
{
    lemma_home(s.windows, id, 0);
}

/// Whether no pane is held by two windows.
pub open spec fn homes_unique(s: SessionView) -> bool {
    forall|i: int, j: int, id: PaneId|
        0 <= i < j < s.windows.len() ==> !(#[trigger] holds(s.windows[i].panes, id)
            && #[trigger] holds(s.windows[j].panes, id))
}

/// A pane among panes.
pub open spec fn pane_among(panes: Seq<PaneView>, id: PaneId) -> Option<PaneView> {
    match pane_index(panes, id, 0) {
        Some(k) => Some(panes[k]),
        None => None,
    }
}

/// Where homes are unique, a window that holds a pane is its home.
proof fn lemma_home_unique(s: SessionView, id: PaneId, i: int)
    requires
        homes_unique(s),
        0 <= i < s.windows.len(),
        holds(s.windows[i].panes, id),
    ensures
        home_of(s.windows, id, 0) == Some(i),
        pane_of(s, id) == pane_among(s.windows[i].panes, id),
{
    lemma_home(s.windows, id, 0);
    let h = home_of(s.windows, id, 0);
    if let Some(k) = h {
        if k < i {
            assert(!(holds(s.windows[k].panes, id) && holds(s.windows[i].panes, id)));
        }
        if i < k {
            assert(!(holds(s.windows[i].panes, id) && holds(s.windows[k].panes, id)));
        }
    }
}

pub proof fn lemma_among_removed(panes: Seq<PaneView>, k: int, id: PaneId)
    requires
        distinct(panes),
        0 <= k < panes.len(),
    ensures
        pane_among(panes.remove(k), id) == (if id == panes[k].id {
            None
        } else {
            pane_among(panes, id)
        }),
{
    let r = panes.remove(k);
    lemma_pane_index(panes, id, 0);
    lemma_pane_index(r, id, 0);
    if let Some(i) = pane_index(r, id, 0) {
        let j = if i < k {
            i
        } else {
            i + 1
        };
        assert(panes[j] == r[i]);
        if let Some(h) = pane_index(panes, id, 0) {
            if h < j {
                assert(panes[h].id != panes[j].id);
            }
        }
        if id == panes[k].id {
            if j < k {
                assert(panes[j].id != panes[k].id);
            } else {
                assert(panes[k].id != panes[j].id);
            }
        }
    } else if let Some(h) = pane_index(panes, id, 0) {
        if h < k {
            assert(r[h].id == id);
        } else if h > k {
            assert(r[h - 1].id == id);
        }
    }
}

/// A session that lost one pane: its window shrank, or left.
pub open spec fn lost(s: SessionView, r: SessionView, i: int, k: int) -> bool {
    let w = s.windows[i];
    &&& 0 <= i < s.windows.len()
    &&& 0 <= k < w.panes.len()
    &&& (w.panes.len() == 1 && r.windows == s.windows.remove(i)) || (r.windows.len()
        == s.windows.len() && r.windows[i].panes == w.panes.remove(k) && forall|j: int|
        0 <= j < s.windows.len() && j != i ==> #[trigger] r.windows[j] == s.windows[j])
}

proof fn lemma_lost(s: SessionView, r: SessionView, i: int, k: int, x: PaneId)
    requires
        s.wf(),
        homes_unique(s),
        lost(s, r, i, k),
    ensures
        homes_unique(r),
        pane_of(r, x) == (if x == s.windows[i].panes[k].id {
            None
        } else {
            pane_of(s, x)
        }),
{
    let w = s.windows[i];
    assert(w.wf());
    let gone = w.panes[k].id;
    assert forall|a: int, b: int, y: PaneId|
        0 <= a < b < r.windows.len() implies !(#[trigger] holds(r.windows[a].panes, y)
        && #[trigger] holds(r.windows[b].panes, y)) by {
        if holds(r.windows[a].panes, y) && holds(r.windows[b].panes, y) {
            lemma_traced(s, r, i, k, a, y);
            lemma_traced(s, r, i, k, b, y);
        }
    }
    lemma_home(r.windows, x, 0);
    lemma_home(s.windows, x, 0);
    if let Some(j) = home_of(r.windows, x, 0) {
        lemma_traced(s, r, i, k, j, x);
        lemma_home_unique(r, x, j);
        let h = came_from(s, r, i, j);
        lemma_home_unique(s, x, h);
    } else if let Some(h) = home_of(s.windows, x, 0) {
        if x != gone {
            // The window that held it still does.
            if h == i {
                if w.panes.len() == 1 && r.windows == s.windows.remove(i) {
                    lemma_pane_index(w.panes, x, 0);
                } else {
                    lemma_among_removed(w.panes, k, x);
                    assert(holds(r.windows[i].panes, x));
                }
            } else {
                let j = if w.panes.len() == 1 && r.windows == s.windows.remove(i) && h > i {
                    h - 1
                } else {
                    h
                };
                assert(r.windows[j] == s.windows[h]);
                assert(holds(r.windows[j].panes, x));
            }
        }
    }
}

/// The window that a window was.
spec fn came_from(s: SessionView, r: SessionView, i: int, j: int) -> int {
    if s.windows[i].panes.len() == 1 && r.windows == s.windows.remove(i) && j >= i {
        j + 1
    } else {
        j
    }
}

proof fn lemma_traced(s: SessionView, r: SessionView, i: int, k: int, j: int, y: PaneId)
    requires
        s.wf(),
        homes_unique(s),
        lost(s, r, i, k),
        0 <= j < r.windows.len(),
        holds(r.windows[j].panes, y),
    ensures
        0 <= came_from(s, r, i, j) < s.windows.len(),
        holds(s.windows[came_from(s, r, i, j)].panes, y),
        y != s.windows[i].panes[k].id,
        pane_among(r.windows[j].panes, y) == pane_among(
            s.windows[came_from(s, r, i, j)].panes,
            y,
        ),
{
    let w = s.windows[i];
    assert(w.wf());
    let h = came_from(s, r, i, j);
    let gone = w.panes[k].id;
    if w.panes.len() == 1 && r.windows == s.windows.remove(i) {
        assert(r.windows[j] == s.windows[h]);
        assert(h != i);
    } else if j == i {
        lemma_among_removed(w.panes, k, y);
    }
    if y == gone {
        crate::mux::window::lemma_holds(w.panes, gone);
        assert(w.panes[k].id == gone);
        assert(holds(w.panes, gone));
        if h < i {
            assert(!(holds(s.windows[h].panes, y) && holds(s.windows[i].panes, y)));
        } else if i < h {
            assert(!(holds(s.windows[i].panes, y) && holds(s.windows[h].panes, y)));
        } else {
            lemma_among_removed(w.panes, k, y);
        }
    }
}

/// Taking a pane out, or disposing of it, takes that pane and nothing else: every other pane
/// stays as it is, and no pane gets a second home.
pub proof fn taking_one_pane_leaves_the_others(s: SessionView, id: PaneId, x: PaneId)
    requires
        s.wf(),
        homes_unique(s),
    ensures
        pane_of(extracted(s, id), x) == (if x == id {
            None
        } else {
            pane_of(s, x)
        }),
        pane_of(removed_pane(s, id), x) == (if x == id {
            None
        } else {
            pane_of(s, x)
        }),
        homes_unique(extracted(s, id)),
        homes_unique(removed_pane(s, id)),
{
    lemma_home(s.windows, id, 0);
    if let Some(i) = home_of(s.windows, id, 0) {
        let w = s.windows[i];
        lemma_pane_index(w.panes, id, 0);
        let k = pane_index(w.panes, id, 0)->0;
        let (e, r) = (extracted(s, id), removed_pane(s, id));
        assert(lost(s, e, i, k));
        assert(lost(s, r, i, k));
        lemma_lost(s, e, i, k, x);
        lemma_lost(s, r, i, k, x);
    }
}

/// Taking a pane out, or disposing of it, keeps a session well formed.
pub proof fn lemma_lost_wf(s: SessionView, id: PaneId)
    requires
        s.wf(),
    ensures
        extracted(s, id).wf(),
        removed_pane(s, id).wf(),
{
    lemma_home(s.windows, id, 0);
    if let Some(i) = home_of(s.windows, id, 0) {
        let w = s.windows[i];
        assert(w.wf());
        lemma_pane_index(w.panes, id, 0);
        let k = pane_index(w.panes, id, 0)->0;
        crate::mux::window::lemma_removed(w.panes, k);
        let x = without_active(with_active(w, id));
        assert(x.panes == w.panes.remove(k));
        assert(x.wf());
    }
}

// ---------------------------------------------------------------------------
// Where panes are after a change.
// ---------------------------------------------------------------------------

/// Whether no pane is held twice, by one window or by two.
pub open spec fn tidy(s: SessionView) -> bool {
    &&& forall|i: int| 0 <= i < s.windows.len() ==> distinct((#[trigger] s.windows[i]).panes)
    &&& homes_unique(s)
}

/// The window that holds a pane.
pub open spec fn home_window(s: SessionView, id: PaneId) -> Option<WindowId> {
    match home_of(s.windows, id, 0) {
        Some(i) => Some(s.windows[i].id),
        None => None,
    }
}

/// In a tidy session a pane is found where it is held.
pub proof fn lemma_held(s: SessionView, id: PaneId, i: int)
    requires
        homes_unique(s),
        0 <= i < s.windows.len(),
        holds(s.windows[i].panes, id),
    ensures
        pane_of(s, id) == pane_among(s.windows[i].panes, id),
        pane_of(s, id) is Some,
        home_window(s, id) == Some(s.windows[i].id),
        home_of(s.windows, id, 0) == Some(i),
{
    lemma_home_unique(s, id, i);
}

/// A pane that no window holds is not found.
pub proof fn lemma_not_held(s: SessionView, id: PaneId)
    requires
        forall|i: int| 0 <= i < s.windows.len() ==> !holds((#[trigger] s.windows[i]).panes, id),
    ensures
        pane_of(s, id) is None,
        home_window(s, id) is None,
{
    lemma_home(s.windows, id, 0);
}

/// What changing one window does to where panes are.
pub proof fn lemma_window_changed(s: SessionView, t: SessionView, i: int, w: WindowView, x: PaneId)
    requires
        tidy(s),
        0 <= i < s.windows.len(),
        t.windows == s.windows.update(i, w),
        w.id == s.windows[i].id,
        distinct(w.panes),
        forall|y: PaneId, j: int|
            0 <= j < s.windows.len() && j != i && #[trigger] holds(w.panes, y) ==> !(
            #[trigger] holds(s.windows[j].panes, y)),
    ensures
        tidy(t),
        pane_of(t, x) == (if holds(w.panes, x) {
            pane_among(w.panes, x)
        } else if holds(s.windows[i].panes, x) {
            None
        } else {
            pane_of(s, x)
        }),
        home_window(t, x) == (if holds(w.panes, x) {
            Some(w.id)
        } else if holds(s.windows[i].panes, x) {
            None
        } else {
            home_window(s, x)
        }),
{
    assert forall|a: int, b: int, y: PaneId|
        0 <= a < b < t.windows.len() implies !(#[trigger] holds(t.windows[a].panes, y)
        && #[trigger] holds(t.windows[b].panes, y)) by {
        if a != i && b != i {
            assert(!(holds(s.windows[a].panes, y) && holds(s.windows[b].panes, y)));
        }
    }
    lemma_home(s.windows, x, 0);
    if holds(w.panes, x) {
        lemma_held(t, x, i);
    } else if holds(s.windows[i].panes, x) {
        lemma_held(s, x, i);
        assert forall|j: int| 0 <= j < t.windows.len() implies !holds(
            (#[trigger] t.windows[j]).panes,
            x,
        ) by {
            if j < i {
                assert(!(holds(s.windows[j].panes, x) && holds(s.windows[i].panes, x)));
            } else if j > i {
                assert(!(holds(s.windows[i].panes, x) && holds(s.windows[j].panes, x)));
            }
        }
        lemma_not_held(t, x);
    } else if let Some(h) = home_of(s.windows, x, 0) {
        assert(t.windows[h] == s.windows[h]);
        lemma_held(t, x, h);
        lemma_held(s, x, h);
    } else {
        assert forall|j: int| 0 <= j < t.windows.len() implies !holds(
            (#[trigger] t.windows[j]).panes,
            x,
        ) by {
            if j != i {
                assert(t.windows[j] == s.windows[j]);
            }
        }
        lemma_not_held(t, x);
    }
}

/// What dropping a window does to where panes are.
pub proof fn lemma_window_dropped(s: SessionView, t: SessionView, i: int, x: PaneId)
    requires
        tidy(s),
        0 <= i < s.windows.len(),
        t.windows == s.windows.remove(i),
    ensures
        tidy(t),
        pane_of(t, x) == (if holds(s.windows[i].panes, x) {
            None
        } else {
            pane_of(s, x)
        }),
        home_window(t, x) == (if holds(s.windows[i].panes, x) {
            None
        } else {
            home_window(s, x)
        }),
{
    assert forall|j: int| 0 <= j < t.windows.len() implies #[trigger] t.windows[j] == s.windows[(
    if j < i {
        j
    } else {
        j + 1
    })] by {}
    assert forall|j: int| 0 <= j < t.windows.len() implies distinct(
        (#[trigger] t.windows[j]).panes,
    ) by {
        let k = if j < i {
            j
        } else {
            j + 1
        };
        assert(t.windows[j] == s.windows[k]);
    }
    assert forall|a: int, b: int, y: PaneId|
        0 <= a < b < t.windows.len() implies !(#[trigger] holds(t.windows[a].panes, y)
        && #[trigger] holds(t.windows[b].panes, y)) by {
        let (c, d) = (
            if a < i {
                a
            } else {
                a + 1
            },
            if b < i {
                b
            } else {
                b + 1
            },
        );
        assert(!(holds(s.windows[c].panes, y) && holds(s.windows[d].panes, y)));
    }
    lemma_home(s.windows, x, 0);
    if holds(s.windows[i].panes, x) {
        assert forall|j: int| 0 <= j < t.windows.len() implies !holds(
            (#[trigger] t.windows[j]).panes,
            x,
        ) by {
            if j < i {
                assert(!(holds(s.windows[j].panes, x) && holds(s.windows[i].panes, x)));
            } else {
                assert(t.windows[j] == s.windows[j + 1]);
                assert(!(holds(s.windows[i].panes, x) && holds(s.windows[j + 1].panes, x)));
            }
        }
        lemma_not_held(t, x);
    } else if let Some(h) = home_of(s.windows, x, 0) {
        let j = if h < i {
            h
        } else {
            h - 1
        };
        assert(t.windows[j] == s.windows[h]);
        lemma_held(t, x, j);
        lemma_held(s, x, h);
    } else {
        lemma_not_held(t, x);
    }
}

/// What appending a window does to where panes are.
pub proof fn lemma_window_pushed(s: SessionView, t: SessionView, w: WindowView, x: PaneId)
    requires
        tidy(s),
        t.windows == s.windows.push(w),
        distinct(w.panes),
        forall|y: PaneId, j: int|
            0 <= j < s.windows.len() && #[trigger] holds(w.panes, y) ==> !(#[trigger] holds(
                s.windows[j].panes,
                y,
            )),
    ensures
        tidy(t),
        pane_of(t, x) == (if holds(w.panes, x) {
            pane_among(w.panes, x)
        } else {
            pane_of(s, x)
        }),
        home_window(t, x) == (if holds(w.panes, x) {
            Some(w.id)
        } else {
            home_window(s, x)
        }),
{
    let n = s.windows.len() as int;
    assert forall|j: int| 0 <= j < t.windows.len() implies distinct(
        (#[trigger] t.windows[j]).panes,
    ) by {
        if j < n {
            assert(t.windows[j] == s.windows[j]);
        }
    }
    assert forall|a: int, b: int, y: PaneId|
        0 <= a < b < t.windows.len() implies !(#[trigger] holds(t.windows[a].panes, y)
        && #[trigger] holds(t.windows[b].panes, y)) by {
        assert(t.windows[a] == s.windows[a]);
        if b < n {
            assert(t.windows[b] == s.windows[b]);
            assert(!(holds(s.windows[a].panes, y) && holds(s.windows[b].panes, y)));
        }
    }
    lemma_home(s.windows, x, 0);
    if holds(w.panes, x) {
        assert(t.windows[n] == w);
        lemma_held(t, x, n);
    } else if let Some(h) = home_of(s.windows, x, 0) {
        assert(t.windows[h] == s.windows[h]);
        lemma_held(t, x, h);
        lemma_held(s, x, h);
    } else {
        assert forall|j: int| 0 <= j < t.windows.len() implies !holds(
            (#[trigger] t.windows[j]).panes,
            x,
        ) by {
            if j < n {
                assert(t.windows[j] == s.windows[j]);
            }
        }
        lemma_not_held(t, x);
    }
}

/// What changing a pane does to where panes are.
pub proof fn lemma_pane_changed(s: SessionView, id: PaneId, p: PaneView, x: PaneId)
    requires
        tidy(s),
        pane_of(s, id) is Some,
        p.id == id,
    ensures
        tidy(with_pane(s, id, p)),
        pane_of(with_pane(s, id, p), x) == (if x == id {
            Some(p)
        } else {
            pane_of(s, x)
        }),
        home_window(with_pane(s, id, p), x) == home_window(s, x),
{
    lemma_home(s.windows, id, 0);
    let i = home_of(s.windows, id, 0)->0;
    let w = s.windows[i];
    lemma_pane_index(w.panes, id, 0);
    let k = pane_index(w.panes, id, 0)->0;
    lemma_updated(w.panes, k, p);
    let v = WindowView { panes: w.panes.update(k, p), ..w };
    assert forall|y: PaneId, j: int|
        0 <= j < s.windows.len() && j != i && #[trigger] holds(v.panes, y) implies !(
    #[trigger] holds(s.windows[j].panes, y)) by {
        assert(holds(w.panes, y));
        if j < i {
            assert(!(holds(s.windows[j].panes, y) && holds(s.windows[i].panes, y)));
        } else {
            assert(!(holds(s.windows[i].panes, y) && holds(s.windows[j].panes, y)));
        }
    }
    let t = with_pane(s, id, p);
    lemma_window_changed(s, t, i, v, x);
    if x == id {
        lemma_with_pane_found(s, id, p);
    } else {
        lemma_with_pane_other(s, id, p, x);
    }
    if holds(v.panes, x) {
        lemma_held(s, x, i);
    }
}

/// What taking a pane out does to where the others are.
pub proof fn lemma_pane_taken(s: SessionView, id: PaneId, x: PaneId)
    requires
        tidy(s),
    ensures
        tidy(extracted(s, id)),
        pane_of(extracted(s, id), x) == (if x == id {
            None
        } else {
            pane_of(s, x)
        }),
        x != id ==> home_window(extracted(s, id), x) == home_window(s, x),
        tidy(removed_pane(s, id)),
        pane_of(removed_pane(s, id), x) == (if x == id {
            None
        } else {
            pane_of(s, x)
        }),
{
    lemma_home(s.windows, id, 0);
    lemma_home(s.windows, x, 0);
    if let Some(i) = home_of(s.windows, id, 0) {
        let w = s.windows[i];
        lemma_pane_index(w.panes, id, 0);
        let k = pane_index(w.panes, id, 0)->0;
        let (e, r) = (extracted(s, id), removed_pane(s, id));
        if holds(w.panes, x) {
            lemma_held(s, x, i);
        }
        if w.panes.len() <= 1 {
            lemma_window_dropped(s, e, i, x);
            lemma_window_dropped(s, r, i, x);
            if holds(w.panes, x) {
                lemma_pane_index(w.panes, x, 0);
            }
        } else {
            let v = without_active(with_active(w, id));
            crate::mux::window::lemma_removed(w.panes, k);
            assert(v.panes == w.panes.remove(k));
            assert forall|y: PaneId, j: int|
                0 <= j < s.windows.len() && j != i && #[trigger] holds(v.panes, y) implies !(
            #[trigger] holds(s.windows[j].panes, y)) by {
                assert(holds(w.panes, y));
                if j < i {
                    assert(!(holds(s.windows[j].panes, y) && holds(s.windows[i].panes, y)));
                } else {
                    assert(!(holds(s.windows[i].panes, y) && holds(s.windows[j].panes, y)));
                }
            }
            lemma_window_changed(s, e, i, v, x);
            lemma_window_changed(s, r, i, v, x);
            lemma_among_removed(w.panes, k, x);
        }
        if x == id {
            assert(holds(w.panes, x));
        }
    } else {
        if x == id {
            assert(pane_of(s, x) is None);
        }
    }
}

} // verus!
