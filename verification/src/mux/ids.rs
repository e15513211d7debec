//! Ids of sessions, windows and panes (`$session`, `@window`, `%pane`). Each kind counts on its
//! own, and an id is not handed out again before its counter has run through all of `u64`.
use vstd::prelude::*;

use crate::text::{push_char, push_decimal};
#[allow(unused_imports)]
use crate::text::dec;

verus! {

/// Identifies a session.
#[derive(Clone, Copy, PartialEq, Eq, Hash, PartialOrd, Ord, Debug, Structural)]
pub struct SessionId(pub u64);

/// Identifies a window.
#[derive(Clone, Copy, PartialEq, Eq, Hash, PartialOrd, Ord, Debug, Structural)]
pub struct WindowId(pub u64);

/// Identifies a pane.
#[derive(Clone, Copy, PartialEq, Eq, Hash, PartialOrd, Ord, Debug, Structural)]
pub struct PaneId(pub u64);

/// The next id of each kind.
#[derive(Clone, Copy, PartialEq, Eq, Debug, Structural)]
pub struct Ids {
    pub session: u64,
    pub window: u64,
    pub pane: u64,
}

/// The id after `n`.
pub open spec fn after(n: u64) -> u64 {
    if n == u64::MAX {
        0
    } else {
        (n + 1) as u64
    }
}

impl Ids {
    /// Counters at zero.
    pub fn new() -> (ids: Ids)
        ensures
            ids == (Ids { session: 0, window: 0, pane: 0 }),
    {
        Ids { session: 0, window: 0, pane: 0 }
    }
}

fn labelled(sigil: char, n: u64) -> (s: String)
    ensures
        s@ == seq![sigil] + dec(n as nat),
{
    let mut s = String::new();
    push_char(&mut s, sigil);
    push_decimal(&mut s, n);
    assert(s@ =~= seq![sigil] + dec(n as nat));
    s
}

impl SessionId {
    /// Allocates the next session id.
    pub fn allocate(ids: &mut Ids) -> (id: SessionId)
        ensures
            id == SessionId(old(ids).session),
            *final(ids) == (Ids { session: after(old(ids).session), ..*old(ids) }),
    {
        let id = SessionId(ids.session);
        ids.session = ids.session.wrapping_add(1);
        id
    }

    /// The id as users write it: `$7`.
    pub fn label(&self) -> (s: String)
        ensures
            s@ == seq!['$'] + dec(self.0 as nat),
    {
        labelled('$', self.0)
    }
}

impl WindowId {
    /// Allocates the next window id.
    pub fn allocate(ids: &mut Ids) -> (id: WindowId)
        ensures
            id == WindowId(old(ids).window),
            *final(ids) == (Ids { window: after(old(ids).window), ..*old(ids) }),
    {
        let id = WindowId(ids.window);
        ids.window = ids.window.wrapping_add(1);
        id
    }

    /// The id as users write it: `@3`.
    pub fn label(&self) -> (s: String)
        ensures
            s@ == seq!['@'] + dec(self.0 as nat),
    {
        labelled('@', self.0)
    }
}

impl PaneId {
    /// Allocates the next pane id.
    pub fn allocate(ids: &mut Ids) -> (id: PaneId)
        ensures
            id == PaneId(old(ids).pane),
            *final(ids) == (Ids { pane: after(old(ids).pane), ..*old(ids) }),
    {
        let id = PaneId(ids.pane);
        ids.pane = ids.pane.wrapping_add(1);
        id
    }

    /// The id as users write it: `%42`.
    pub fn label(&self) -> (s: String)
        ensures
            s@ == seq!['%'] + dec(self.0 as nat),
    {
        labelled('%', self.0)
    }
}

/// The counter after `n` allocations.
pub open spec fn after_n(start: u64, n: nat) -> u64
    decreases n,
{
    if n == 0 {
        start
    } else {
        after(after_n(start, (n - 1) as nat))
    }
}

/// Allocations strictly increase until the counter runs out, so no id is handed out twice.
pub proof fn ids_are_never_reused(start: u64, i: nat, j: nat)
    requires
        i < j,
        start + j <= u64::MAX,
    ensures
        after_n(start, i) == start + i,
        after_n(start, i) < after_n(start, j),
    decreases j,
{
    lemma_after_n(start, i);
    lemma_after_n(start, j);
}

proof fn lemma_after_n(start: u64, n: nat)
    requires
        start + n <= u64::MAX,
    ensures
        after_n(start, n) == start + n,
    decreases n,
{
    if n > 0 {
        lemma_after_n(start, (n - 1) as nat);
    }
}

} // verus!
