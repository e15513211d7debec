//! Per-pane attention: pending when an agent signalled, quiet once the user looked.
use vstd::prelude::*;

verus! {

/// Whether a pane waits for the user.
#[derive(Clone, Copy, PartialEq, Eq, Debug, Structural)]
pub enum Attention {
    /// Nothing waiting.
    Quiet,
    /// An agent signalled that it needs attention.
    Pending,
}

impl Default for Attention {
    fn default() -> (a: Self)
        ensures
            a == Attention::Quiet,
    {
        Attention::Quiet
    }
}

impl Attention {
    /// Marks that the pane needs attention.
    pub fn set_pending(&mut self)
        ensures
            *final(self) == Attention::Pending,
    {
        *self = Attention::Pending;
    }

    /// Clears attention: the user focused the pane.
    pub fn focus(&mut self)
        ensures
            *final(self) == Attention::Quiet,
    {
        *self = Attention::Quiet;
    }

    /// Whether the pane waits for the user.
    pub fn is_pending(self) -> (r: bool)
        ensures
            r == (self == Attention::Pending),
    {
        self == Attention::Pending
    }
}

} // verus!
