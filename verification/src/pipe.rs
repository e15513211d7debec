//! The automation pipe: its name, who may use it, and how a server and a client retry.
use vstd::prelude::*;
use vstd::string::*;

use crate::notify::wide;
#[allow(unused_imports)]
use crate::notify::utf16;
use crate::text::push_char;

verus! {

/// A character that may stand in a user's part of a pipe name.
pub open spec fn name_char(c: char) -> bool {
    ||| 'A' <= c <= 'Z'
    ||| 'a' <= c <= 'z'
    ||| '0' <= c <= '9'
    ||| c == '_'
    ||| c == '-'
}

/// A user's name with other characters replaced.
pub open spec fn name_part(user: Seq<char>) -> Seq<char> {
    Seq::new(
        user.len(),
        |i: int|
            if name_char(user[i]) {
                user[i]
            } else {
                '_'
            },
    )
}

/// The pipe name of a user; without a user's name it is `unknown`.
pub open spec fn user_pipe(base: Seq<char>, user: Option<Seq<char>>) -> Seq<char> {
    base + "."@ + name_part(
        match user {
            Some(u) => u,
            None => "unknown"@,
        },
    )
}

/// The pipe name of a user: `<base>.<user>`, where only letters, digits, `_` and `-` of the user's
/// name stay.
pub fn pipe_name_for_user(base: &str, user: Option<&str>) -> (s: String)
    ensures
        s@ == user_pipe(
            base@,
            match user {
                Some(u) => Some(u@),
                None => None,
            },
        ),
{
    let user = match user {
        Some(u) => u,
        None => "unknown",
    };
    let mut s = String::from_str(base);
    s.append(".");
    let ghost head = s@;
    let chars = crate::text::chars_of(user);
    let mut i: usize = 0;
    let ghost part = name_part(user@);
    assert(head + part.take(0) =~= head);
    while i < chars.len()
        invariant
            i <= chars@.len(),
            chars@ == user@,
            part == name_part(user@),
            s@ == head + part.take(i as int),
        decreases chars@.len() - i,
    {
        let c = chars[i];
        let keep = ('A' <= c && c <= 'Z') || ('a' <= c && c <= 'z') || ('0' <= c && c <= '9') || c
            == '_' || c == '-';
        push_char(
            &mut s,
            if keep {
                c
            } else {
                '_'
            },
        );
        assert(s@ =~= head + part.take(i + 1));
        i = i + 1;
    }
    assert(part.take(i as int) =~= part);
    s
}

/// The path of a pipe, as the system wants it.
pub fn pipe_path(name: &str) -> (v: Vec<u16>)
    ensures
        v@ == utf16("\\\\.\\pipe\\"@ + name@).push(0),
{
    let mut s = String::from_str("\\\\.\\pipe\\");
    s.append(name);
    wide(s.as_str())
}

/// The access rule of a pipe: the system and one user have all rights, nobody else has any.
pub fn access_rule(sid: &str) -> (s: String)
    ensures
        s@ == "D:P(A;;GA;;;SY)(A;;GA;;;"@ + sid@ + ")"@,
{
    let mut s = String::from_str("D:P(A;;GA;;;SY)(A;;GA;;;");
    s.append(sid);
    s.append(")");
    s
}

// ---------------------------------------------------------------------------
// Retrying.
// ---------------------------------------------------------------------------

/// A client connected before the server waited for it.
pub const ERROR_PIPE_CONNECTED: u32 = 535;

/// A client connected and closed before the server waited for it.
pub const ERROR_NO_DATA: u32 = 232;

/// All instances are busy.
pub const ERROR_PIPE_BUSY: u32 = 231;

/// First pause after a failure, in milliseconds.
pub const BACKOFF_START: u64 = 10;

/// Longest pause after a failure, in milliseconds.
pub const BACKOFF_MAX: u64 = 1000;

/// Whether waiting for a client ended with one. A client that has come, or come and gone, counts:
/// what it wrote still has to be read.
pub fn is_connected(ok: bool, error: u32) -> (b: bool)
    ensures
        b == (ok || error == ERROR_PIPE_CONNECTED || error == ERROR_NO_DATA),
{
    ok || error == ERROR_PIPE_CONNECTED || error == ERROR_NO_DATA
}

/// How long to pause after the next failure.
pub fn next_backoff(ms: u64) -> (r: u64)
    ensures
        r == (if ms < BACKOFF_MAX / 2 {
            (2 * ms) as u64
        } else {
            BACKOFF_MAX
        }),
{
    if ms < BACKOFF_MAX / 2 {
        2 * ms
    } else {
        BACKOFF_MAX
    }
}

/// What a client does after it failed to open a pipe.
#[derive(Debug, Clone, Copy, PartialEq, Eq, Structural)]
pub enum Retry {
    /// Wait for a free instance, then try once more.
    Wait,
    /// Give up.
    Fail,
}

/// What a client does after it failed to open a pipe: it waits once where all instances are busy.
pub fn after_refusal(error: u32, waited: bool) -> (r: Retry)
    ensures
        r == (if error == ERROR_PIPE_BUSY && !waited {
            Retry::Wait
        } else {
            Retry::Fail
        }),
{
    if error == ERROR_PIPE_BUSY && !waited {
        Retry::Wait
    } else {
        Retry::Fail
    }
}

/// The user's part of a pipe name holds nothing but letters, digits, `_` and `-`, and is as long
/// as the user's name.
pub proof fn pipe_names_are_plain(user: Seq<char>, i: int)
    requires
        0 <= i < user.len(),
    ensures
        name_part(user).len() == user.len(),
        name_char(name_part(user)[i]),
        name_char(user[i]) ==> name_part(user)[i] == user[i],
{
}

/// A user's pipe is the base name, a dot and the user's name, each character that may not stand there
/// replaced by `_`; without a user's name it ends in `unknown`. Users whose names hold nothing but
/// letters, digits, `_` and `-` have pipes of their own.
pub proof fn pipes_are_the_users_own(base: Seq<char>, user: Seq<char>, other: Seq<char>, i: int)
    ensures
        user_pipe(base, Some(user)).len() == base.len() + 1 + user.len(),
        user_pipe(base, Some(user)).take(base.len() as int) == base,
        user_pipe(base, Some(user))[base.len() as int] == '.',
        0 <= i < user.len() ==> user_pipe(base, Some(user))[base.len() + 1 + i] == (if (('a'
            <= user[i] <= 'z') || ('A' <= user[i] <= 'Z') || ('0' <= user[i] <= '9') || user[i]
            == '_' || user[i] == '-') {
            user[i]
        } else {
            '_'
        }),
        user_pipe(base, None) == base + ".unknown"@,
        (forall|k: int| 0 <= k < user.len() ==> name_char(#[trigger] user[k])) && (forall|k: int|
            0 <= k < other.len() ==> name_char(#[trigger] other[k])) && user_pipe(base, Some(user))
            == user_pipe(base, Some(other)) ==> user == other,
{
    reveal_strlit(".");
    reveal_strlit("unknown");
    reveal_strlit(".unknown");
    assert(user_pipe(base, Some(user)).take(base.len() as int) =~= base);
    assert(name_part("unknown"@) =~= "unknown"@);
    assert(base + "."@ + "unknown"@ =~= base + ".unknown"@);
    if (forall|k: int| 0 <= k < user.len() ==> name_char(#[trigger] user[k])) && (forall|k: int|
        0 <= k < other.len() ==> name_char(#[trigger] other[k])) && user_pipe(base, Some(user))
        == user_pipe(base, Some(other)) {
        assert(name_part(user) =~= user);
        assert(name_part(other) =~= other);
        let at = base.len() as int + 1;
        assert(user_pipe(base, Some(user)).skip(at) =~= user);
        assert(user_pipe(base, Some(other)).skip(at) =~= other);
    }
}

} // verus!
