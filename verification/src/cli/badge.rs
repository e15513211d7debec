//! The pull request of a branch, as the `gh` tool prints it.
use vstd::prelude::*;
use vstd::string::*;

use crate::mux::workspace::PrStatus;
#[allow(unused_imports)]
use crate::mux::laws::pull_requests_have_their_state;
#[allow(unused_imports)]
use crate::mux::workspace::{github_status, status_token};
use crate::text::{chars_of, contains_text, find_char, parse_number, position_of, string_of};
#[allow(unused_imports)]
use crate::text::{
    dec, find, find_text, lemma_find, numbers_read_back, occurs, opt_text, parse_uint,
};

verus! {

/// A key in quotes.
pub open spec fn quoted(key: Seq<char>) -> Seq<char> {
    "\""@ + key + "\""@
}

/// The first index at or after another that holds neither a colon nor a space.
pub open spec fn skip_colons(s: Seq<char>, from: int) -> int
    decreases s.len() - from,
{
    if 0 <= from < s.len() && (s[from] == ':' || s[from] == ' ') {
        skip_colons(s, from + 1)
    } else {
        from
    }
}

/// The first index at or after another that holds no decimal digit.
pub open spec fn skip_digits(s: Seq<char>, from: int) -> int
    decreases s.len() - from,
{
    if 0 <= from < s.len() && '0' <= s[from] <= '9' {
        skip_digits(s, from + 1)
    } else {
        from
    }
}

/// Where the value of a key starts in a flat object; none where the key does not occur.
pub open spec fn value_start(json: Seq<char>, key: Seq<char>) -> Option<int> {
    match find_text(json, quoted(key), 0) {
        Some(i) => Some(skip_colons(json, i + key.len() + 2)),
        None => None,
    }
}

/// The number behind a key of a flat object.
pub open spec fn number_field(json: Seq<char>, key: Seq<char>) -> Option<nat> {
    match value_start(json, key) {
        Some(i) => parse_uint(json.subrange(i, skip_digits(json, i)), false, u32::MAX as nat),
        None => None,
    }
}

/// The text behind a key of a flat object.
pub open spec fn text_field(json: Seq<char>, key: Seq<char>) -> Option<Seq<char>> {
    match value_start(json, key) {
        Some(i) => if i < json.len() && json[i] == '"' {
            match find(json, '"', i + 1) {
                Some(j) => Some(json.subrange(i + 1, j)),
                None => None,
            }
        } else {
            None
        },
        None => None,
    }
}

fn start_of(json: &[char], key: &str) -> (r: Option<usize>)
    ensures
        match r {
            Some(i) => value_start(json@, key@) == Some(i as int) && i <= json@.len(),
            None => value_start(json@, key@) is None,
        },
{
    let mut q = String::from_str("\"");
    q.append(key);
    q.append("\"");
    proof {
        reveal_strlit("\"");
    }
    let m: usize = chars_of(q.as_str()).len();
    assert(m == key@.len() + 2);
    let _fits: usize = json.len();
    match position_of(json, q.as_str()) {
        None => None,
        Some(at) => {
            let mut i: usize = at + m;
            let ghost from = i as int;
            while i < json.len() && (json[i] == ':' || json[i] == ' ')
                invariant
                    from <= i <= json@.len(),
                    0 <= from,
                    skip_colons(json@, from) == skip_colons(json@, i as int),
                decreases json@.len() - i,
            {
                i = i + 1;
            }
            Some(i)
        },
    }
}

/// The number behind a key of a flat object.
pub fn json_number(json: &str, key: &str) -> (r: Option<u32>)
    ensures
        match r {
            Some(n) => number_field(json@, key@) == Some(n as nat),
            None => number_field(json@, key@) is None,
        },
{
    let c = chars_of(json);
    match start_of(c.as_slice(), key) {
        None => None,
        Some(i) => {
            let mut j: usize = i;
            while j < c.len() && '0' <= c[j] && c[j] <= '9'
                invariant
                    i <= j <= c@.len(),
                    skip_digits(c@, i as int) == skip_digits(c@, j as int),
                decreases c@.len() - j,
            {
                j = j + 1;
            }
            match parse_number(
                vstd::slice::slice_subrange(c.as_slice(), i, j),
                false,
                u32::MAX as u64,
            ) {
                Some(n) => Some(n as u32),
                None => None,
            }
        },
    }
}

/// The text behind a key of a flat object.
pub fn json_string(json: &str, key: &str) -> (r: Option<String>)
    ensures
        opt_text(r) == text_field(json@, key@),
{
    let c = chars_of(json);
    match start_of(c.as_slice(), key) {
        None => None,
        Some(i) => {
            if i < c.len() && c[i] == '"' {
                match find_char(c.as_slice(), '"', i + 1) {
                    Some(j) => Some(
                        string_of(vstd::slice::slice_subrange(c.as_slice(), i + 1, j)),
                    ),
                    None => None,
                }
            } else {
                None
            }
        },
    }
}

/// The token of a pull request's status, from GitHub's state and draft flag; none for a state that
/// is not known.
pub open spec fn token_from_github(state: Seq<char>, is_draft: bool) -> Option<Seq<char>> {
    match github_status(state, is_draft) {
        Some(s) => Some(status_token(s)),
        None => None,
    }
}

/// The token of a pull request's status, from GitHub's state and draft flag.
pub fn gmux_status_from_github(state: &str, is_draft: bool) -> (r: Option<&'static str>)
    ensures
        match r {
            Some(t) => token_from_github(state@, is_draft) == Some(t@),
            None => token_from_github(state@, is_draft) is None,
        },
{
    match PrStatus::from_github(state, is_draft) {
        Some(s) => Some(s.as_str()),
        None => None,
    }
}

/// A pull request as it is printed.
pub struct Resolved {
    pub number: u32,
    pub status: String,
    pub url: Option<String>,
}

/// The mathematical value of a [`Resolved`].
pub struct ResolvedView {
    pub number: u32,
    pub status: Seq<char>,
    pub url: Option<Seq<char>>,
}

impl Resolved {
    pub open spec fn view(&self) -> ResolvedView {
        ResolvedView { number: self.number, status: self.status@, url: opt_text(self.url) }
    }
}

/// The pull request in a printed object: its number, state and draft flag have to be there, its
/// address may be missing.
pub open spec fn resolved(json: Seq<char>) -> Option<ResolvedView> {
    let is_draft = occurs(json, "\"isDraft\":true"@) || occurs(json, "\"isDraft\": true"@);
    match (number_field(json, "number"@), text_field(json, "state"@)) {
        (Some(number), Some(state)) => match token_from_github(state, is_draft) {
            Some(status) => Some(
                ResolvedView { number: number as u32, status, url: text_field(json, "url"@) },
            ),
            None => None,
        },
        _ => None,
    }
}

/// Reads the pull request out of a printed object.
pub fn resolve_pr(json: &str) -> (r: Option<Resolved>)
    ensures
        match r {
            Some(p) => resolved(json@) == Some(p@),
            None => resolved(json@) is None,
        },
{
    let number: u32 = match json_number(json, "number") {
        Some(n) => n,
        None => {
            return None;
        },
    };
    let state = match json_string(json, "state") {
        Some(s) => s,
        None => {
            return None;
        },
    };
    let c = chars_of(json);
    let tight = chars_of("\"isDraft\":true");
    let loose = chars_of("\"isDraft\": true");
    let is_draft = contains_text(c.as_slice(), tight.as_slice()) || contains_text(
        c.as_slice(),
        loose.as_slice(),
    );
    match gmux_status_from_github(state.as_str(), is_draft) {
        Some(t) => Some(
            Resolved { number, status: String::from_str(t), url: json_string(json, "url") },
        ),
        None => None,
    }
}

// ---------------------------------------------------------------------------
// Laws.
// ---------------------------------------------------------------------------

proof fn lemma_after_colon(s: Seq<char>, from: int)
    requires
        0 <= from,
        from + 1 < s.len(),
        s[from] == ':',
        s[from + 1] != ':' && s[from + 1] != ' ',
    ensures
        skip_colons(s, from) == from + 1,
{
    reveal_with_fuel(skip_colons, 2);
}

proof fn lemma_digits_behind(s: Seq<char>, from: int, to: int)
    requires
        0 <= from <= to <= s.len(),
        forall|i: int| from <= i < to ==> '0' <= #[trigger] s[i] <= '9',
        to < s.len() ==> !('0' <= s[to] <= '9'),
    ensures
        skip_digits(s, from) == to,
    decreases to - from,
{
    if from < to {
        lemma_digits_behind(s, from + 1, to);
    }
}

/// The number behind the first occurrence of a key in quotes is read whole.
pub proof fn numbers_stand_behind_their_key(
    head: Seq<char>,
    key: Seq<char>,
    n: u32,
    tail: Seq<char>,
)
    requires
        find_text(
            head + ("\""@ + key + "\""@) + seq![':'] + dec(n as nat) + tail,
            "\""@ + key + "\""@,
            0,
        ) == Some(head.len() as int),
        tail.len() > 0 ==> !('0' <= tail[0] <= '9'),
    ensures
        number_field(
            head + ("\""@ + key + "\""@) + seq![':'] + dec(n as nat) + tail,
            key,
        ) == Some(n as nat),
{
    reveal_strlit("\"");
    numbers_read_back(n as nat, u32::MAX as nat);
    let q = "\""@ + key + "\""@;
    let d = dec(n as nat);
    let json = head + q + seq![':'] + d + tail;
    let at = (head.len() + q.len()) as int;
    assert(q.len() == key.len() + 2);
    assert(json[at] == ':');
    assert forall|i: int| at + 1 <= i < at + 1 + d.len() implies '0' <= #[trigger] json[i] <= '9' by {
        assert(json[i] == d[i - at - 1]);
    }
    if tail.len() > 0 {
        assert(json[at + 1 + d.len()] == tail[0]);
    }
    assert('0' <= json[at + 1] <= '9');
    lemma_after_colon(json, at);
    lemma_digits_behind(json, at + 1, at + 1 + d.len());
    assert(json.subrange(at + 1, at + 1 + d.len()) =~= d);
}

/// The text behind the first occurrence of a key in quotes is what stands between its quotes.
pub proof fn texts_stand_behind_their_key(
    head: Seq<char>,
    key: Seq<char>,
    value: Seq<char>,
    tail: Seq<char>,
)
    requires
        find_text(
            head + ("\""@ + key + "\""@) + seq![':', '"'] + value + seq!['"'] + tail,
            "\""@ + key + "\""@,
            0,
        ) == Some(head.len() as int),
        forall|i: int| 0 <= i < value.len() ==> #[trigger] value[i] != '"',
    ensures
        text_field(
            head + ("\""@ + key + "\""@) + seq![':', '"'] + value + seq!['"'] + tail,
            key,
        ) == Some(value),
{
    reveal_strlit("\"");
    let q = "\""@ + key + "\""@;
    let json = head + q + seq![':', '"'] + value + seq!['"'] + tail;
    let at = (head.len() + q.len()) as int;
    assert(q.len() == key.len() + 2);
    assert(json[at] == ':');
    assert(json[at + 1] == '"');
    let end = at + 2 + value.len();
    assert forall|i: int| at + 2 <= i < end implies #[trigger] json[i] != '"' by {
        assert(json[i] == value[i - at - 2]);
    }
    assert(json[end] == '"');
    lemma_after_colon(json, at);
    lemma_find(json, '"', at + 2);
    assert(find(json, '"', at + 2) == Some(end));
    assert(json.subrange(at + 2, end) =~= value);
}

/// A pull request is shown by its number, its status and its address: an open one that is a draft is
/// a draft, merged and closed ones are what they are. Without a number or a state there is none.
pub proof fn pull_requests_are_resolved(json: Seq<char>, n: u32)
    ensures
        number_field(json, "number"@) == Some(n as nat) && text_field(json, "state"@) == Some("OPEN"@)
            ==> resolved(json) == Some(
            ResolvedView {
                number: n,
                status: if occurs(json, "\"isDraft\":true"@) || occurs(json, "\"isDraft\": true"@) {
                    "draft"@
                } else {
                    "open"@
                },
                url: text_field(json, "url"@),
            },
        ),
        number_field(json, "number"@) == Some(n as nat) && text_field(json, "state"@) == Some(
            "MERGED"@,
        ) ==> resolved(json) == Some(
            ResolvedView { number: n, status: "merged"@, url: text_field(json, "url"@) },
        ),
        number_field(json, "number"@) == Some(n as nat) && text_field(json, "state"@) == Some(
            "CLOSED"@,
        ) ==> resolved(json) == Some(
            ResolvedView { number: n, status: "closed"@, url: text_field(json, "url"@) },
        ),
        number_field(json, "number"@) is None || text_field(json, "state"@) is None ==> resolved(
            json,
        ) is None,
{
    pull_requests_have_their_state(true);
    pull_requests_have_their_state(false);
}

} // verus!
