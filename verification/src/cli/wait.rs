//! Waiting for a pane: what to ask, and what the answers mean.
//!
//! The waiting itself, and the clock, belong to the caller: it asks again and again, and tells
//! whether the screen has been quiet for as long as was asked for.
use vstd::prelude::*;
use vstd::string::*;

use crate::cli::args::{flag_value, has_flag, pane_target};
#[allow(unused_imports)]
use crate::cli::args::{has, target, value_of};
use crate::proto::{Call, Response, ResultBody};
#[allow(unused_imports)]
use crate::proto::{CallView, ResponseView, ResultView};
use crate::text::str_eq;
#[allow(unused_imports)]
use crate::text::{opt_text, texts_view};

verus! {

/// The condition that is waited for.
pub enum Condition {
    /// A text appears.
    Text(String),
    /// The pane is gone.
    Exit,
    /// The screen stays the same for a while.
    Idle,
}

/// The mathematical value of a [`Condition`].
pub enum ConditionView {
    Text(Seq<char>),
    Exit,
    Idle,
}

impl Condition {
    pub open spec fn view(&self) -> ConditionView {
        match *self {
            Condition::Text(q) => ConditionView::Text(q@),
            Condition::Exit => ConditionView::Exit,
            Condition::Idle => ConditionView::Idle,
        }
    }
}

/// A wait that goes on.
pub struct Waiting {
    pane: u64,
    condition: Condition,
    /// The screen as it was last seen.
    screen: Option<String>,
}

/// The mathematical value of a [`Waiting`].
pub struct WaitingView {
    pub pane: u64,
    pub condition: ConditionView,
    pub screen: Option<Seq<char>>,
}

/// What an answer means for a wait.
#[derive(Debug, Clone, Copy, PartialEq, Eq, Structural)]
pub enum Verdict {
    /// The wait is over, with this exit code.
    Over(i32),
    /// Ask again; the quiet time starts over where the screen changed.
    Again { changed: bool },
}

/// What the arguments of `wait-for` ask for: a pane and exactly one condition. `idle` tells whether
/// the value of `--idle` is a number of seconds.
pub open spec fn wait_request(args: Seq<Seq<char>>, idle: bool) -> Option<WaitingView> {
    match (target(args, '%'), value_of(args, "--text"@), has(args, "--exit"@), idle) {
        (Some(pane), Some(q), false, false) => Some(
            WaitingView {
                pane: pane as u64,
                condition: ConditionView::Text(q),
                screen: None,
            },
        ),
        (Some(pane), None, true, false) => Some(
            WaitingView { pane: pane as u64, condition: ConditionView::Exit, screen: None },
        ),
        (Some(pane), None, false, true) => Some(
            WaitingView { pane: pane as u64, condition: ConditionView::Idle, screen: None },
        ),
        _ => None,
    }
}

/// How `wait-for` is used.
pub const WAIT_USAGE: &'static str =
    "usage: gmux wait-for -t <pane> (--text <substr> | --exit | --idle <secs>) [--timeout <secs>]";

/// What a wait asks the multiplexer.
pub open spec fn question(w: WaitingView) -> CallView {
    match w.condition {
        ConditionView::Text(q) => CallView::SearchPane { pane: w.pane, query: q },
        _ => CallView::CapturePane { pane: w.pane, scrollback: None },
    }
}

/// What an answer means, and the wait after it. There is no answer where the multiplexer cannot be
/// reached.
///
/// A text is found once something matches; a pane that is gone ends that wait without success, as it
/// ends a wait for quiet. A wait for the end of a pane ends well with the pane. No wait ends well
/// where the multiplexer cannot be reached.
pub open spec fn judged(w: WaitingView, reply: Option<ResponseView>, quiet: bool) -> (
    WaitingView,
    Verdict,
) {
    match w.condition {
        ConditionView::Text(_) => match reply {
            Some(r) => if r.result matches Some(ResultView::Matches(m)) && m.len() > 0 {
                (w, Verdict::Over(0))
            } else if r.error is Some {
                (w, Verdict::Over(1))
            } else {
                (w, Verdict::Again { changed: false })
            },
            None => (w, Verdict::Over(1)),
        },
        ConditionView::Exit => match reply {
            Some(r) => if r.error is Some {
                (w, Verdict::Over(0))
            } else {
                (w, Verdict::Again { changed: false })
            },
            None => (w, Verdict::Over(1)),
        },
        ConditionView::Idle => match reply {
            Some(r) => match r.result {
                Some(ResultView::Text(t)) => if w.screen != Some(t) {
                    (
                        WaitingView { screen: Some(t), ..w },
                        Verdict::Again { changed: true },
                    )
                } else if quiet {
                    (w, Verdict::Over(0))
                } else {
                    (w, Verdict::Again { changed: false })
                },
                _ => (w, Verdict::Over(1)),
            },
            None => (w, Verdict::Over(1)),
        },
    }
}

/// The mathematical value of an optional response.
pub open spec fn opt_response(r: Option<Response>) -> Option<ResponseView> {
    match r {
        Some(r) => Some(r@),
        None => None,
    }
}

impl Waiting {
    pub closed spec fn view(&self) -> WaitingView {
        WaitingView {
            pane: self.pane,
            condition: self.condition@,
            screen: opt_text(self.screen),
        }
    }

    /// Reads the arguments of `wait-for`; none where they do not name a pane and exactly one
    /// condition.
    pub fn wait_for(args: &[String], idle: bool) -> (r: Option<Waiting>)
        ensures
            match r {
                Some(w) => wait_request(texts_view(args@), idle) == Some(w@),
                None => wait_request(texts_view(args@), idle) is None,
            },
    {
        let pane: u64 = match pane_target(args) {
            Some(p) => p,
            None => {
                return None;
            },
        };
        let exits = has_flag(args, "--exit");
        match flag_value(args, "--text") {
            Some(q) => if !exits && !idle {
                Some(Waiting { pane, condition: Condition::Text(q), screen: None })
            } else {
                None
            },
            None => if exits && !idle {
                Some(Waiting { pane, condition: Condition::Exit, screen: None })
            } else if !exits && idle {
                Some(Waiting { pane, condition: Condition::Idle, screen: None })
            } else {
                None
            },
        }
    }

    /// What to ask the multiplexer.
    pub fn question(&self) -> (c: Call)
        ensures
            c@ == question(self@),
    {
        match &self.condition {
            Condition::Text(q) => Call::SearchPane { pane: self.pane, query: q.clone() },
            _ => Call::CapturePane { pane: self.pane, scrollback: None },
        }
    }

    /// What an answer means; none where the multiplexer could not be reached. `quiet` tells whether
    /// the screen has not changed for as long as was asked for.
    pub fn judge(&mut self, reply: Option<Response>, quiet: bool) -> (v: Verdict)
        ensures
            (final(self)@, v) == judged(old(self)@, opt_response(reply), quiet),
    {
        match &self.condition {
            Condition::Text(_) => match reply {
                Some(r) => {
                    let found = match &r.result {
                        Some(ResultBody::Matches(m)) => m.len() > 0,
                        _ => false,
                    };
                    if found {
                        Verdict::Over(0)
                    } else if r.error.is_some() {
                        Verdict::Over(1)
                    } else {
                        Verdict::Again { changed: false }
                    }
                },
                None => Verdict::Over(1),
            },
            Condition::Exit => match reply {
                Some(r) => if r.error.is_some() {
                    Verdict::Over(0)
                } else {
                    Verdict::Again { changed: false }
                },
                None => Verdict::Over(1),
            },
            Condition::Idle => match reply {
                Some(r) => match r.result {
                    Some(ResultBody::Text(t)) => {
                        let same = match &self.screen {
                            Some(s) => str_eq(s.as_str(), t.as_str()),
                            None => false,
                        };
                        if !same {
                            self.screen = Some(t);
                            Verdict::Again { changed: true }
                        } else if quiet {
                            Verdict::Over(0)
                        } else {
                            Verdict::Again { changed: false }
                        }
                    },
                    _ => Verdict::Over(1),
                },
                None => Verdict::Over(1),
            },
        }
    }
}

/// No wait ends well where the multiplexer cannot be reached, whatever it waits for.
pub proof fn an_unreachable_multiplexer_is_no_success(w: WaitingView, quiet: bool)
    ensures
        judged(w, None, quiet) == (w, Verdict::Over(1)),
{
}

/// A wait for quiet never ends well on the first look at the screen: it has to be seen unchanged.
pub proof fn quiet_takes_two_looks(w: WaitingView, reply: Option<ResponseView>, quiet: bool)
    requires
        w.condition is Idle,
        w.screen is None,
    ensures
        judged(w, reply, quiet).1 != Verdict::Over(0),
{
}

} // verus!
