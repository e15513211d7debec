//! What the daemon reads from its configuration file and from `gh`.
use vstd::prelude::*;
use vstd::string::*;

use crate::json::{parse, Json};
#[allow(unused_imports)]
use crate::json::{field, json_of, text_value, truth, unsigned_number, JsonView};
use crate::mux::workspace::{PrBadge, PrStatus};
#[allow(unused_imports)]
use crate::mux::workspace::{github_status, opt_badge, PrBadgeView};
use crate::text::{chars_of, string_of};

verus! {

/// A text without the byte order mark that some editors put in front.
pub open spec fn without_bom(s: Seq<char>) -> Seq<char> {
    if s.len() > 0 && s[0] == '\u{feff}' {
        s.skip(1)
    } else {
        s
    }
}

fn strip_bom(text: &str) -> (r: String)
    ensures
        r@ == without_bom(text@),
{
    let chars = chars_of(text);
    if chars.len() > 0 && chars[0] == '\u{feff}' {
        let rest = vstd::slice::slice_subrange(chars.as_slice(), 1, chars.len());
        assert(rest@ =~= text@.skip(1));
        string_of(rest)
    } else {
        String::from_str(text)
    }
}

/// Whether snapshots keep screen text, as a configuration says: yes unless it says no.
pub open spec fn screen_persists(config: Option<JsonView>) -> bool {
    match config {
        Some(j) => match truth(field(j, "persist_screen"@)) {
            Some(b) => b,
            None => true,
        },
        None => true,
    }
}

/// Whether a configuration lets snapshots keep screen text.
pub fn persist_screen(config: Option<&Json>) -> (b: bool)
    ensures
        b == screen_persists(
            match config {
                Some(j) => Some(j@),
                None => None,
            },
        ),
{
    match config {
        Some(j) => match j.get_bool("persist_screen") {
            Some(b) => b,
            None => true,
        },
        None => true,
    }
}

/// Whether a configuration text lets snapshots keep screen text: a text that is not JSON, and one
/// without the key or with a value that is no truth value, does.
pub fn persist_screen_from_json(text: &str) -> (b: bool)
    ensures
        b == screen_persists(json_of(without_bom(text@))),
{
    let text = strip_bom(text);
    match parse(text.as_str()) {
        Some(j) => persist_screen(Some(&j)),
        None => persist_screen(None),
    }
}

/// Ticks per second.
pub const TICKS_PER_SECOND: u32 = 10;

/// Fewest seconds between two pull request probes.
pub const MIN_REFRESH_SECS: u64 = 30;

/// The refresh interval of a number of seconds, in ticks: 0 is off, anything else is at least the
/// floor and at most what fits.
pub open spec fn refresh_ticks(secs: Option<u64>) -> u32 {
    match secs {
        Some(s) => if s == 0 {
            0
        } else {
            let floored: int = if s < MIN_REFRESH_SECS {
                MIN_REFRESH_SECS as int
            } else {
                s as int
            };
            if floored * 10 <= u32::MAX {
                (floored * 10) as u32
            } else {
                u32::MAX
            }
        },
        None => 0,
    }
}

/// The refresh interval of a number of seconds, in ticks.
pub fn pr_refresh_ticks(secs: Option<u64>) -> (ticks: u32)
    ensures
        ticks == refresh_ticks(secs),
{
    let secs: u64 = match secs {
        Some(s) => s,
        None => 0,
    };
    if secs == 0 {
        return 0;
    }
    let floored: u64 = if secs < MIN_REFRESH_SECS {
        MIN_REFRESH_SECS
    } else {
        secs
    };
    if floored > 429496729 {
        4294967295
    } else {
        floored as u32 * TICKS_PER_SECOND
    }
}

/// The refresh interval that a configuration text sets; off where it sets none.
pub fn pr_refresh_ticks_from_json(text: &str) -> (ticks: u32)
    ensures
        ticks == refresh_ticks(
            match json_of(without_bom(text@)) {
                Some(j) => unsigned_number(field(j, "pr_refresh_secs"@)),
                None => None,
            },
        ),
{
    let text = strip_bom(text);
    match parse(text.as_str()) {
        Some(j) => pr_refresh_ticks(j.get_u64("pr_refresh_secs")),
        None => pr_refresh_ticks(None),
    }
}

/// The badge of a pull request as `gh` tells it; none where something is missing or unknown.
pub open spec fn badge_of(answer: Option<JsonView>) -> Option<PrBadgeView> {
    match answer {
        Some(j) => match (
            unsigned_number(field(j, "number"@)),
            text_value(field(j, "state"@)),
        ) {
            (Some(number), Some(state)) => {
                let draft = match truth(field(j, "isDraft"@)) {
                    Some(b) => b,
                    None => false,
                };
                match github_status(state, draft) {
                    Some(status) => Some(
                        PrBadgeView {
                            number: number as u32,
                            status,
                            url: text_value(field(j, "url"@)),
                        },
                    ),
                    None => None,
                }
            },
            _ => None,
        },
        None => None,
    }
}

/// The badge that an answer of `gh` describes.
pub fn pr_badge(answer: &Json) -> (r: Option<PrBadge>)
    ensures
        opt_badge(r) == badge_of(Some(answer@)),
{
    let number: u64 = match answer.get_u64("number") {
        Some(n) => n,
        None => {
            return None;
        },
    };
    let state = match answer.get_str("state") {
        Some(s) => s,
        None => {
            return None;
        },
    };
    let draft = match answer.get_bool("isDraft") {
        Some(b) => b,
        None => false,
    };
    match PrStatus::from_github(state.as_str(), draft) {
        Some(status) => Some(
            PrBadge {
                number: #[verifier::truncate]
                (number as u32),
                status,
                url: answer.get_str("url"),
            },
        ),
        None => None,
    }
}

/// The badge that the output of `gh pr view --json number,state,isDraft,url` describes.
pub fn pr_badge_from_json(text: &str) -> (r: Option<PrBadge>)
    ensures
        opt_badge(r) == badge_of(json_of(text@)),
{
    match parse(text) {
        Some(j) => pr_badge(&j),
        None => None,
    }
}

/// Probing is opt-in and slow: without a number of seconds, or with zero, it is off; else two
/// probes are at least half a minute apart, whatever was asked for.
pub proof fn probes_are_rate_limited(secs: Option<u64>)
    ensures
        secs is None || secs == Some(0u64) ==> refresh_ticks(secs) == 0,
        secs matches Some(s) && s > 0 ==> refresh_ticks(secs) >= 300,
{
}

} // verus!
