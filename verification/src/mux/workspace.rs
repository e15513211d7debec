//! Workspace metadata of a window for the sidebar: directory name, git branch, pull request.
use vstd::prelude::*;
use vstd::string::*;
use vstd::utf8::*;

use crate::text::{
    chars_of, clone_opt, is_path_sep, is_text, starts_with, string_of, to_ascii_lower, trim,
};
#[allow(unused_imports)]
use crate::text::{
    ascii_lower, behind_slash, has_prefix, last_component, opt_text, path_sep, trim_seps, trimmed,
};

verus! {

/// A pull request's state.
#[derive(Debug, Clone, Copy, PartialEq, Eq, Structural)]
pub enum PrStatus {
    Open,
    Draft,
    Merged,
    Closed,
}

/// The status that a token names, in any case and with surrounding white space.
pub open spec fn status_of(s: Seq<char>) -> Option<PrStatus> {
    let t = ascii_lower(trimmed(s));
    if t == "open"@ {
        Some(PrStatus::Open)
    } else if t == "draft"@ {
        Some(PrStatus::Draft)
    } else if t == "merged"@ {
        Some(PrStatus::Merged)
    } else if t == "closed"@ {
        Some(PrStatus::Closed)
    } else {
        None
    }
}

/// The canonical token of a status.
pub open spec fn status_token(s: PrStatus) -> Seq<char> {
    match s {
        PrStatus::Open => "open"@,
        PrStatus::Draft => "draft"@,
        PrStatus::Merged => "merged"@,
        PrStatus::Closed => "closed"@,
    }
}

/// The status that GitHub's `state` and `isDraft` stand for. Only an open pull request can be a
/// draft.
pub open spec fn github_status(state: Seq<char>, is_draft: bool) -> Option<PrStatus> {
    let t = ascii_lower(trimmed(state));
    if t == "open"@ {
        Some(
            if is_draft {
                PrStatus::Draft
            } else {
                PrStatus::Open
            },
        )
    } else if t == "merged"@ {
        Some(PrStatus::Merged)
    } else if t == "closed"@ {
        Some(PrStatus::Closed)
    } else {
        None
    }
}

impl PrStatus {
    /// Reads a token (`open`, `draft`, `merged`, `closed`, any case).
    pub fn parse(s: &str) -> (r: Option<PrStatus>)
        ensures
            r == status_of(s@),
    {
        let chars = chars_of(s);
        let t = to_ascii_lower(trim(chars.as_slice()));
        let t = t.as_slice();
        if is_text(t, "open") {
            Some(PrStatus::Open)
        } else if is_text(t, "draft") {
            Some(PrStatus::Draft)
        } else if is_text(t, "merged") {
            Some(PrStatus::Merged)
        } else if is_text(t, "closed") {
            Some(PrStatus::Closed)
        } else {
            None
        }
    }

    /// The canonical token.
    pub fn as_str(self) -> (s: &'static str)
        ensures
            s@ == status_token(self),
    {
        match self {
            PrStatus::Open => "open",
            PrStatus::Draft => "draft",
            PrStatus::Merged => "merged",
            PrStatus::Closed => "closed",
        }
    }

    /// Maps GitHub's `state` (`OPEN`, `MERGED`, `CLOSED`) and draft flag to a status.
    pub fn from_github(state: &str, is_draft: bool) -> (r: Option<PrStatus>)
        ensures
            r == github_status(state@, is_draft),
    {
        match PrStatus::parse(state) {
            Some(PrStatus::Open) => Some(
                if is_draft {
                    PrStatus::Draft
                } else {
                    PrStatus::Open
                },
            ),
            Some(PrStatus::Draft) => {
                proof {
                    reveal_strlit("open");
                    reveal_strlit("draft");
                    reveal_strlit("merged");
                    reveal_strlit("closed");
                    assert("draft"@[0] == 'd');
                    assert("open"@[0] == 'o');
                    assert("merged"@[0] == 'm');
                    assert("closed"@[0] == 'c');
                }
                None
            },
            other => other,
        }
    }
}

/// The canonical token of every status reads back as that status.
pub proof fn status_tokens_round_trip(s: PrStatus)
    ensures
        status_of(status_token(s)) == Some(s),
{
    reveal_strlit("open");
    reveal_strlit("draft");
    reveal_strlit("merged");
    reveal_strlit("closed");
    let t = status_token(s);
    assert(crate::text::trim_start_at(t, 0) == 0);
    assert(crate::text::trim_end_at(t, 0, t.len() as int) == t.len());
    assert(trimmed(t) =~= t);
    assert(ascii_lower(t) =~= t);
    assert("draft"@[0] == 'd');
    assert("open"@[0] == 'o');
    assert("merged"@[0] == 'm');
    assert("closed"@[0] == 'c');
}

/// A pull request badge.
#[derive(Debug, Clone, PartialEq, Eq)]
pub struct PrBadge {
    pub number: u32,
    pub status: PrStatus,
    /// The pull request's page, where known.
    pub url: Option<String>,
}

/// The mathematical value of a [`PrBadge`].
pub struct PrBadgeView {
    pub number: u32,
    pub status: PrStatus,
    pub url: Option<Seq<char>>,
}

impl PrBadge {
    pub open spec fn view(&self) -> PrBadgeView {
        PrBadgeView { number: self.number, status: self.status, url: opt_text(self.url) }
    }

    /// The same badge again.
    pub fn copy(&self) -> (b: PrBadge)
        ensures
            b@ == self@,
    {
        PrBadge { number: self.number, status: self.status, url: clone_opt(&self.url) }
    }
}

/// The value of an optional badge.
pub open spec fn opt_badge(b: Option<PrBadge>) -> Option<PrBadgeView> {
    match b {
        Some(x) => Some(x@),
        None => None,
    }
}

/// A window's sidebar metadata.
#[derive(Debug, Clone, PartialEq, Eq)]
pub struct WorkspaceInfo {
    /// Short display name.
    pub name: String,
    /// Working directory of the active pane, if known.
    pub cwd: Option<String>,
    /// Current git branch, if the directory is in a repository.
    pub branch: Option<String>,
    /// Whether any pane of the window waits for the user.
    pub attention: bool,
    /// Notifications of the window's panes since each was last focused.
    pub unread: u32,
}

/// The mathematical value of a [`WorkspaceInfo`].
pub struct WorkspaceInfoView {
    pub name: Seq<char>,
    pub cwd: Option<Seq<char>>,
    pub branch: Option<Seq<char>>,
    pub attention: bool,
    pub unread: u32,
}

impl WorkspaceInfo {
    pub open spec fn view(&self) -> WorkspaceInfoView {
        WorkspaceInfoView {
            name: self.name@,
            cwd: opt_text(self.cwd),
            branch: opt_text(self.branch),
            attention: self.attention,
            unread: self.unread,
        }
    }
}

/// The last component of a path, without trailing separators.
pub open spec fn path_name(cwd: Seq<char>) -> Seq<char> {
    last_component(trim_seps(cwd))
}

/// The short display name of a directory: its last path component.
pub fn cwd_name(cwd: &str) -> (r: String)
    ensures
        r@ == path_name(cwd@),
{
    let chars = chars_of(cwd);
    let mut end: usize = chars.len();
    assert(chars@.take(end as int) =~= chars@);
    while end > 0 && is_path_sep(chars[end - 1])
        invariant
            end <= chars@.len(),
            trim_seps(chars@) == trim_seps(chars@.take(end as int)),
        decreases end,
    {
        assert(chars@.take(end as int).drop_last() =~= chars@.take(end - 1));
        end = end - 1;
    }
    let ghost t = chars@.take(end as int);
    let mut start: usize = end;
    assert(t.take(start as int) =~= t);
    assert(last_component(t) =~= last_component(t.take(start as int)) + chars@.subrange(
        start as int,
        end as int,
    ));
    while start > 0 && !is_path_sep(chars[start - 1])
        invariant
            start <= end <= chars@.len(),
            t == chars@.take(end as int),
            last_component(t) == last_component(t.take(start as int)) + chars@.subrange(
                start as int,
                end as int,
            ),
        decreases start,
    {
        let ghost p = t.take(start as int);
        assert(p.drop_last() =~= t.take(start - 1));
        assert(p.last() == chars@[start - 1]);
        assert(last_component(p.drop_last()).push(p.last()) + chars@.subrange(
            start as int,
            end as int,
        ) =~= last_component(t.take(start - 1)) + chars@.subrange(start - 1, end as int));
        start = start - 1;
    }
    assert(last_component(t.take(start as int)) =~= Seq::empty());
    assert(last_component(t) =~= chars@.subrange(start as int, end as int));
    string_of(vstd::slice::slice_subrange(chars.as_slice(), start, end))
}

// ---------------------------------------------------------------------------
// Git.
// ---------------------------------------------------------------------------

/// The branch that the text of a `HEAD` file names: the last part of a symbolic ref, or the first
/// seven bytes of a commit hash in parentheses. A text that cannot be cut there is no hash.
pub open spec fn head_branch(head: Seq<char>) -> Option<Seq<char>> {
    let h = trimmed(head);
    if has_prefix(h, "ref: "@) {
        Some(behind_slash(h.skip("ref: "@.len() as int)))
    } else if encode_utf8(h).len() >= 7 && is_char_boundary(encode_utf8(h), 7) {
        Some(seq!['('] + decode_utf8(encode_utf8(h).take(7)) + seq![')'])
    } else {
        None
    }
}

/// The branch that the text of a `HEAD` file names.
pub fn branch_of_head(head: &str) -> (r: Option<String>)
    ensures
        opt_text(r) == head_branch(head@),
{
    let chars = chars_of(head);
    let h = trim(chars.as_slice());
    if starts_with(h, "ref: ") {
        proof {
            reveal_strlit("ref: ");
        }
        let rest = vstd::slice::slice_subrange(h, 5, h.len());
        let end: usize = rest.len();
        let mut start: usize = end;
        assert(rest@.take(start as int) =~= rest@);
        assert(rest@.subrange(end as int, end as int) =~= Seq::empty());
        assert(behind_slash(rest@) =~= behind_slash(rest@.take(start as int)) + rest@.subrange(
            start as int,
            end as int,
        ));
        while start > 0 && rest[start - 1] != '/'
            invariant
                start <= end,
                end == rest@.len(),
                behind_slash(rest@) == behind_slash(rest@.take(start as int)) + rest@.subrange(
                    start as int,
                    end as int,
                ),
            decreases start,
        {
            let ghost p = rest@.take(start as int);
            assert(p.drop_last() =~= rest@.take(start - 1));
            assert(behind_slash(p.drop_last()).push(p.last()) + rest@.subrange(
                start as int,
                end as int,
            ) =~= behind_slash(rest@.take(start - 1)) + rest@.subrange(start - 1, end as int));
            start = start - 1;
        }
        assert(behind_slash(rest@.take(start as int)) =~= Seq::empty());
        assert(behind_slash(rest@) =~= rest@.subrange(start as int, end as int));
        return Some(string_of(vstd::slice::slice_subrange(rest, start, end)));
    }
    let text = string_of(h);
    if text.as_str().as_bytes().len() >= 7 && text.as_str().is_char_boundary(7) {
        let (short, _) = text.as_str().split_at(7);
        proof {
            encode_utf8_decode_utf8(short@);
            assert(short@ == decode_utf8(encode_utf8(h@).take(7))) by {
                assert(short.spec_bytes() =~= encode_utf8(h@).take(7));
            }
        }
        let mut r = String::from_str("(");
        r.append(short);
        r.append(")");
        proof {
            reveal_strlit("(");
            reveal_strlit(")");
            assert(r@ =~= seq!['('] + decode_utf8(encode_utf8(h@).take(7)) + seq![')']);
        }
        Some(r)
    } else {
        None
    }
}

/// The directory that the text of a `.git` file (a worktree or submodule) points to.
pub open spec fn gitdir_target(text: Seq<char>) -> Option<Seq<char>> {
    let t = trimmed(text);
    if has_prefix(t, "gitdir: "@) {
        Some(t.skip("gitdir: "@.len() as int))
    } else {
        None
    }
}

/// The directory that the text of a `.git` file points to.
pub fn gitdir_of(text: &str) -> (r: Option<String>)
    ensures
        opt_text(r) == gitdir_target(text@),
{
    let chars = chars_of(text);
    let t = trim(chars.as_slice());
    if starts_with(t, "gitdir: ") {
        proof {
            reveal_strlit("gitdir: ");
        }
        Some(string_of(vstd::slice::slice_subrange(t, 8, t.len())))
    } else {
        None
    }
}

/// The display name of a directory is never a path: it holds no separator.
pub proof fn names_hold_no_separator(cwd: Seq<char>)
    ensures
        forall|i: int| 0 <= i < path_name(cwd).len() ==> !path_sep(#[trigger] path_name(cwd)[i]),
{
    crate::text::lemma_last_component(trim_seps(cwd));
}

} // verus!
