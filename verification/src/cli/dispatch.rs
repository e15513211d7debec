//! What a command asks for: a request to the running multiplexer, work on this side of it, or a
//! word on how the command is used.
use vstd::prelude::*;
use vstd::string::*;

use crate::cli::args::{
    badge_words_of, browse_target, command_behind, flag_value, has_flag, normalize_hex, options_of, pane_target, parse_pane, parse_scrollback, parse_ssh_tmux,
    plain_words_of, window_target, words_of,
};
#[allow(unused_imports)]
use crate::cli::args::{
    badge_words, browse_url, canonical_color, has, named_words, options, plain_words,
    scrollback_of, ssh_request, target, target_of, trailing_command, value_of,
};
use crate::proto::{Call, SERVER_VERSION};
#[allow(unused_imports)]
use crate::proto::CallView;
use crate::text::{chars_of, is_text, join_lines, parse_number, push_decimal, str_eq, to_ascii_lower};
#[allow(unused_imports)]
use crate::text::{ascii_lower, dec, joined, parse_uint, texts_view};

verus! {

/// What a command asks for.
pub enum Plan {
    /// A request, whose answer is shown.
    Call(Call),
    /// Wait until a pane meets a condition.
    WaitFor,
    /// Draw a pane into a file.
    Screenshot { pane: u64, out: String },
    /// Print event batches as they come.
    Subscribe { output: bool },
    /// Find the pull request of the current branch and badge a window with it.
    Resolve { id: u64 },
    /// Open an address in the system's browser.
    Open { url: String },
    /// The command was not understood.
    Usage(String),
    /// No command of this interface: a program to run.
    NotApi,
}

/// The mathematical value of a [`Plan`].
pub enum PlanView {
    Call(CallView),
    WaitFor,
    Screenshot { pane: u64, out: Seq<char> },
    Subscribe { output: bool },
    Resolve { id: u64 },
    Open { url: Seq<char> },
    Usage(Seq<char>),
    NotApi,
}

impl Plan {
    pub open spec fn view(&self) -> PlanView {
        match *self {
            Plan::Call(c) => PlanView::Call(c@),
            Plan::WaitFor => PlanView::WaitFor,
            Plan::Screenshot { pane, out } => PlanView::Screenshot { pane, out: out@ },
            Plan::Subscribe { output } => PlanView::Subscribe { output },
            Plan::Resolve { id } => PlanView::Resolve { id },
            Plan::Open { url } => PlanView::Open { url: url@ },
            Plan::Usage(s) => PlanView::Usage(s@),
            Plan::NotApi => PlanView::NotApi,
        }
    }
}

fn usage(text: &str) -> (p: Plan)
    ensures
        p@ == PlanView::Usage(text@),
{
    Plan::Usage(String::from_str(text))
}

// ---------------------------------------------------------------------------
// Panes.
// ---------------------------------------------------------------------------

/// What the arguments of `send-keys` say from an index on: the last `-t` gives the pane, and all
/// that is no option is text.
pub open spec fn keys_scan(
    args: Seq<Seq<char>>,
    from: int,
    pane: Option<nat>,
    enter: bool,
    parts: Seq<Seq<char>>,
) -> (Option<nat>, bool, Seq<Seq<char>>)
    decreases args.len() + 1 - from,
{
    if from < 0 || from >= args.len() {
        (pane, enter, parts)
    } else if args[from] == "-t"@ {
        keys_scan(
            args,
            from + 2,
            if from + 1 < args.len() {
                target_of(args[from + 1], '%')
            } else {
                None
            },
            enter,
            parts,
        )
    } else if args[from] == "--enter"@ || args[from] == "Enter"@ {
        keys_scan(args, from + 1, pane, true, parts)
    } else {
        keys_scan(args, from + 1, pane, enter, parts.push(args[from]))
    }
}

/// What `send-keys` asks for.
pub open spec fn keys_plan(args: Seq<Seq<char>>) -> PlanView {
    match keys_scan(args, 0, None, false, Seq::empty()) {
        (Some(pane), enter, parts) => PlanView::Call(
            CallView::SendKeys { pane: pane as u64, text: joined(parts, " "@), enter },
        ),
        _ => PlanView::Usage("usage: gmux send-keys -t <pane> [--enter|Enter] <text...>"@),
    }
}

/// The mathematical value of an optional number.
pub open spec fn opt_nat(n: Option<u64>) -> Option<nat> {
    match n {
        Some(n) => Some(n as nat),
        None => None,
    }
}

fn send_keys(args: &[String]) -> (p: Plan)
    ensures
        p@ == keys_plan(texts_view(args@)),
{
    let ghost v = texts_view(args@);
    let mut pane: Option<u64> = None;
    let mut enter = false;
    let mut parts: Vec<String> = Vec::new();
    let mut i: usize = 0;
    assert(texts_view(parts@) =~= Seq::empty());
    while i < args.len()
        invariant
            v == texts_view(args@),
            keys_scan(v, 0, None, false, Seq::empty()) == keys_scan(
                v,
                i as int,
                opt_nat(pane),
                enter,
                texts_view(parts@),
            ),
        decreases args@.len() - i,
    {
        let ghost had = texts_view(parts@);
        if str_eq(args[i].as_str(), "-t") {
            if i + 1 < args.len() {
                pane = parse_pane(args[i + 1].as_str());
                i = i + 2;
            } else {
                pane = None;
                assert(keys_scan(v, i + 2, None, enter, had) == keys_scan(
                    v,
                    v.len() as int,
                    None,
                    enter,
                    had,
                ));
                i = args.len();
            }
        } else {
            if str_eq(args[i].as_str(), "--enter") || str_eq(args[i].as_str(), "Enter") {
                enter = true;
            } else {
                parts.push(args[i].clone());
                assert(texts_view(parts@) =~= had.push(v[i as int]));
            }
            i = i + 1;
        }
    }
    match pane {
        Some(pane) => Plan::Call(Call::SendKeys { pane, text: join_lines(&parts, " "), enter }),
        None => usage("usage: gmux send-keys -t <pane> [--enter|Enter] <text...>"),
    }
}

/// What `capture-pane` asks for.
pub open spec fn capture_plan(args: Seq<Seq<char>>) -> PlanView {
    match target(args, '%') {
        Some(pane) => PlanView::Call(
            CallView::CapturePane {
                pane: pane as u64,
                scrollback: if has(args, "-S"@) {
                    Some(scrollback_of(value_of(args, "-S"@)) as usize)
                } else {
                    None
                },
            },
        ),
        None => PlanView::Usage("usage: gmux capture-pane -t <pane> [-S <n>|-S -]"@),
    }
}

fn capture_pane(args: &[String]) -> (p: Plan)
    ensures
        p@ == capture_plan(texts_view(args@)),
{
    match pane_target(args) {
        Some(pane) => {
            let scrollback = if has_flag(args, "-S") {
                let n: usize = match flag_value(args, "-S") {
                    Some(s) => parse_scrollback(Some(s.as_str())),
                    None => parse_scrollback(None),
                };
                Some(n)
            } else {
                None
            };
            Plan::Call(Call::CapturePane { pane, scrollback })
        },
        None => usage("usage: gmux capture-pane -t <pane> [-S <n>|-S -]"),
    }
}

/// What `screenshot` asks for.
pub open spec fn screenshot_plan(args: Seq<Seq<char>>) -> PlanView {
    match target(args, '%') {
        Some(pane) => PlanView::Screenshot {
            pane: pane as u64,
            out: match value_of(args, "-o"@) {
                Some(o) => o,
                None => "gmux-pane"@ + dec(pane) + ".bmp"@,
            },
        },
        None => PlanView::Usage("usage: gmux screenshot -t <pane> [-o <file.bmp>]"@),
    }
}

fn screenshot(args: &[String]) -> (p: Plan)
    ensures
        p@ == screenshot_plan(texts_view(args@)),
{
    match pane_target(args) {
        Some(pane) => {
            let out = match flag_value(args, "-o") {
                Some(o) => o,
                None => {
                    let mut o = String::from_str("gmux-pane");
                    push_decimal(&mut o, pane);
                    o.append(".bmp");
                    o
                },
            };
            Plan::Screenshot { pane, out }
        },
        None => usage("usage: gmux screenshot -t <pane> [-o <file.bmp>]"),
    }
}

/// What `split-pane` asks for.
pub open spec fn split_plan(args: Seq<Seq<char>>) -> PlanView {
    PlanView::Call(
        CallView::SplitPane {
            dir: if has(args, "-v"@) {
                "v"@
            } else {
                "h"@
            },
            command: trailing_command(args),
        },
    )
}

fn split_pane(args: &[String]) -> (p: Plan)
    ensures
        p@ == split_plan(texts_view(args@)),
{
    let dir = String::from_str(
        if has_flag(args, "-v") {
            "v"
        } else {
            "h"
        },
    );
    Plan::Call(Call::SplitPane { dir, command: command_behind(args) })
}

// ---------------------------------------------------------------------------
// Windows.
// ---------------------------------------------------------------------------

/// What `new-window` asks for: a command behind `--`, a directory behind a `--cwd` before it.
pub open spec fn window_plan(args: Seq<Seq<char>>) -> PlanView {
    PlanView::Call(
        CallView::NewWindow {
            command: trailing_command(args),
            cwd: value_of(options(args), "--cwd"@),
        },
    )
}

fn new_window(args: &[String]) -> (p: Plan)
    ensures
        p@ == window_plan(texts_view(args@)),
{
    Plan::Call(
        Call::NewWindow {
            command: command_behind(args),
            cwd: flag_value(options_of(args), "--cwd"),
        },
    )
}

/// The text that the words of a command make; none of them count with `--clear`.
pub open spec fn words_text(args: Seq<Seq<char>>) -> Seq<char> {
    if has(args, "--clear"@) {
        Seq::empty()
    } else {
        joined(named_words(args, 0), " "@)
    }
}

fn words_joined(args: &[String]) -> (s: String)
    ensures
        s@ == words_text(texts_view(args@)),
{
    if has_flag(args, "--clear") {
        let s = String::new();
        assert(s@ =~= Seq::empty());
        s
    } else {
        join_lines(&words_of(args), " ")
    }
}

/// What `rename` asks for.
pub open spec fn rename_plan(args: Seq<Seq<char>>) -> PlanView {
    match target(args, '@') {
        Some(id) => PlanView::Call(
            CallView::RenameWindow { id: id as u64, name: joined(named_words(args, 0), " "@) },
        ),
        None => PlanView::Usage("usage: gmux rename -t @<window-id> <name...>"@),
    }
}

fn rename(args: &[String]) -> (p: Plan)
    ensures
        p@ == rename_plan(texts_view(args@)),
{
    match window_target(args) {
        Some(id) => Plan::Call(Call::RenameWindow { id, name: join_lines(&words_of(args), " ") }),
        None => usage("usage: gmux rename -t @<window-id> <name...>"),
    }
}

/// What `close-window` asks for.
pub open spec fn close_plan(args: Seq<Seq<char>>) -> PlanView {
    match target(args, '@') {
        Some(id) => PlanView::Call(CallView::CloseWindow { id: id as u64 }),
        None => PlanView::Usage("usage: gmux close-window -t @<window-id>"@),
    }
}

fn close_window(args: &[String]) -> (p: Plan)
    ensures
        p@ == close_plan(texts_view(args@)),
{
    match window_target(args) {
        Some(id) => Plan::Call(Call::CloseWindow { id }),
        None => usage("usage: gmux close-window -t @<window-id>"),
    }
}

/// What `workspace` asks for: a directory, or `--clear`.
pub open spec fn workspace_plan(args: Seq<Seq<char>>) -> PlanView {
    match target(args, '@') {
        Some(id) if has(args, "--clear"@) || words_text(args).len() > 0 => PlanView::Call(
            CallView::SetWorkspaceDir { id: id as u64, dir: words_text(args) },
        ),
        _ => PlanView::Usage("usage: gmux workspace -t @<window-id> <dir> | --clear"@),
    }
}

fn workspace(args: &[String]) -> (p: Plan)
    ensures
        p@ == workspace_plan(texts_view(args@)),
{
    match window_target(args) {
        Some(id) => {
            let dir = words_joined(args);
            if has_flag(args, "--clear") || chars_of(dir.as_str()).len() > 0 {
                Plan::Call(Call::SetWorkspaceDir { id, dir })
            } else {
                usage("usage: gmux workspace -t @<window-id> <dir> | --clear")
            }
        },
        None => usage("usage: gmux workspace -t @<window-id> <dir> | --clear"),
    }
}

/// What `import` asks for.
pub open spec fn import_plan(args: Seq<Seq<char>>) -> PlanView {
    let dir = joined(plain_words(args, 0), " "@);
    if dir.len() > 0 {
        PlanView::Call(CallView::ImportWorkspaces { dir, all: has(args, "--all"@) })
    } else {
        PlanView::Usage("usage: gmux import <dir> [--all]"@)
    }
}

fn import(args: &[String]) -> (p: Plan)
    ensures
        p@ == import_plan(texts_view(args@)),
{
    let dir = join_lines(&plain_words_of(args), " ");
    if chars_of(dir.as_str()).len() > 0 {
        Plan::Call(Call::ImportWorkspaces { dir, all: has_flag(args, "--all") })
    } else {
        usage("usage: gmux import <dir> [--all]")
    }
}

/// What `group` asks for: no name takes the window out of its group, as `--clear` does.
pub open spec fn group_plan(args: Seq<Seq<char>>) -> PlanView {
    match target(args, '@') {
        Some(id) => PlanView::Call(
            CallView::GroupWindow { id: id as u64, group: words_text(args) },
        ),
        None => PlanView::Usage("usage: gmux group -t @<window-id> <name...> | --clear"@),
    }
}

fn group(args: &[String]) -> (p: Plan)
    ensures
        p@ == group_plan(texts_view(args@)),
{
    match window_target(args) {
        Some(id) => Plan::Call(Call::GroupWindow { id, group: words_joined(args) }),
        None => usage("usage: gmux group -t @<window-id> <name...> | --clear"),
    }
}

/// The first of some texts that is not empty, or an empty one.
pub open spec fn first_filled(words: Seq<Seq<char>>, from: int) -> Seq<char>
    decreases words.len() - from,
{
    if from < 0 || from >= words.len() {
        Seq::empty()
    } else if words[from].len() > 0 {
        words[from]
    } else {
        first_filled(words, from + 1)
    }
}

/// The first of some texts that is not empty, or an empty one.
fn first_filled_of(words: &Vec<String>) -> (s: String)
    ensures
        s@ == first_filled(texts_view(words@), 0),
{
    let ghost v = texts_view(words@);
    let mut i: usize = 0;
    while i < words.len()
        invariant
            i <= words@.len(),
            v == texts_view(words@),
            first_filled(v, 0) == first_filled(v, i as int),
        decreases words@.len() - i,
    {
        if chars_of(words[i].as_str()).len() > 0 {
            return words[i].clone();
        }
        i = i + 1;
    }
    let s = String::new();
    assert(s@ =~= Seq::empty());
    s
}

/// What `color` asks for: the first word has to be a color, and is handed on in its canonical form.
pub open spec fn color_plan(args: Seq<Seq<char>>) -> PlanView {
    match target(args, '@') {
        None => PlanView::Usage("usage: gmux color -t @<window-id> #rrggbb | --clear"@),
        Some(id) => {
            let found = first_filled(named_words(args, 0), 0);
            if has(args, "--clear"@) {
                PlanView::Call(CallView::ColorWindow { id: id as u64, color: Seq::empty() })
            } else {
                match canonical_color(found) {
                    Some(color) => PlanView::Call(CallView::ColorWindow { id: id as u64, color }),
                    None => PlanView::Usage(
                        "gmux color: expected a #rrggbb color, got '"@ + found + "'"@,
                    ),
                }
            }
        },
    }
}

fn color(args: &[String]) -> (p: Plan)
    ensures
        p@ == color_plan(texts_view(args@)),
{
    let id: u64 = match window_target(args) {
        Some(id) => id,
        None => {
            return usage("usage: gmux color -t @<window-id> #rrggbb | --clear");
        },
    };
    if has_flag(args, "--clear") {
        let color = String::new();
        assert(color@ =~= Seq::empty());
        return Plan::Call(Call::ColorWindow { id, color });
    }
    let found = first_filled_of(&words_of(args));
    match normalize_hex(found.as_str()) {
        Some(color) => Plan::Call(Call::ColorWindow { id, color }),
        None => {
            let mut s = String::from_str("gmux color: expected a #rrggbb color, got '");
            s.append(found.as_str());
            s.append("'");
            Plan::Usage(s)
        },
    }
}

/// Whether a text is the token of a status, whatever the case.
pub open spec fn status_word(s: Seq<char>) -> bool {
    let l = ascii_lower(s);
    l == "open"@ || l == "draft"@ || l == "merged"@ || l == "closed"@
}

/// How `pr` is used.
pub open spec fn pr_usage() -> Seq<char> {
    "usage: gmux pr -t @<win> <number> <open|draft|merged|closed> [url] | --resolve | --clear"@
}

/// What `pr` asks for.
pub open spec fn pr_plan(args: Seq<Seq<char>>) -> PlanView {
    let words = badge_words(args, 0);
    match target(args, '@') {
        None => PlanView::Usage(pr_usage()),
        Some(id) => if has(args, "--clear"@) {
            PlanView::Call(
                CallView::SetPr { id: id as u64, number: 0, status: Seq::empty(), url: None },
            )
        } else if has(args, "--resolve"@) {
            PlanView::Resolve { id: id as u64 }
        } else if words.len() < 2 || parse_uint(words[0], false, u32::MAX as nat) is None {
            PlanView::Usage(pr_usage())
        } else if !status_word(words[1]) {
            PlanView::Usage("gmux pr: status must be open, draft, merged, or closed"@)
        } else {
            PlanView::Call(
                CallView::SetPr {
                    id: id as u64,
                    number: parse_uint(words[0], false, u32::MAX as nat)->0 as u32,
                    status: words[1],
                    url: if words.len() > 2 {
                        Some(words[2])
                    } else {
                        None
                    },
                },
            )
        },
    }
}

fn show_pr_usage() -> (p: Plan)
    ensures
        p@ == PlanView::Usage(pr_usage()),
{
    usage(
        "usage: gmux pr -t @<win> <number> <open|draft|merged|closed> [url] | --resolve | --clear",
    )
}

fn pr(args: &[String]) -> (p: Plan)
    ensures
        p@ == pr_plan(texts_view(args@)),
{
    let id: u64 = match window_target(args) {
        Some(id) => id,
        None => {
            return show_pr_usage();
        },
    };
    if has_flag(args, "--clear") {
        let status = String::new();
        assert(status@ =~= Seq::empty());
        return Plan::Call(Call::SetPr { id, number: 0, status, url: None });
    }
    if has_flag(args, "--resolve") {
        return Plan::Resolve { id };
    }
    let words = badge_words_of(args);
    let ghost v = texts_view(words@);
    if words.len() < 2 {
        return show_pr_usage();
    }
    let first = chars_of(words[0].as_str());
    assert(v[0] == first@ && v[1] == words@[1]@);
    let number: u32 = match parse_number(first.as_slice(), false, u32::MAX as u64) {
        Some(n) => n as u32,
        None => {
            return show_pr_usage();
        },
    };
    let second = chars_of(words[1].as_str());
    let low = to_ascii_lower(second.as_slice());
    let known = is_text(low.as_slice(), "open") || is_text(low.as_slice(), "draft") || is_text(
        low.as_slice(),
        "merged",
    ) || is_text(low.as_slice(), "closed");
    if !known {
        return usage("gmux pr: status must be open, draft, merged, or closed");
    }
    let url = if words.len() > 2 {
        assert(v[2] == words@[2]@);
        Some(words[2].clone())
    } else {
        None
    };
    Plan::Call(Call::SetPr { id, number, status: words[1].clone(), url })
}

// ---------------------------------------------------------------------------
// Remote sessions and pages.
// ---------------------------------------------------------------------------

/// What `ssh-tmux` asks for.
pub open spec fn ssh_plan(args: Seq<Seq<char>>) -> PlanView {
    match ssh_request(args) {
        Some((target, command)) => PlanView::Call(CallView::SshTmux { target, command }),
        None => PlanView::Usage(
            "usage: gmux ssh-tmux <target> [--command <raw transport command>]"@,
        ),
    }
}

fn ssh_tmux(args: &[String]) -> (p: Plan)
    ensures
        p@ == ssh_plan(texts_view(args@)),
{
    match parse_ssh_tmux(args) {
        Some((target, command)) => Plan::Call(Call::SshTmux { target, command }),
        None => usage("usage: gmux ssh-tmux <target> [--command <raw transport command>]"),
    }
}

/// What `browse` asks for: all words together name a page or a search, for the pane with `--pane`
/// and for the system's browser otherwise.
pub open spec fn browse_plan(args: Seq<Seq<char>>) -> PlanView {
    let words = plain_words(args, 0);
    let url = browse_url(joined(words, " "@));
    if words.len() == 0 {
        PlanView::Usage("usage: gmux browse [--pane] <url | search terms...>"@)
    } else if has(args, "--pane"@) {
        PlanView::Call(CallView::Browse { url })
    } else {
        PlanView::Open { url }
    }
}

fn browse(args: &[String]) -> (p: Plan)
    ensures
        p@ == browse_plan(texts_view(args@)),
{
    let words = plain_words_of(args);
    assert(texts_view(words@).len() == words@.len());
    if words.len() == 0 {
        return usage("usage: gmux browse [--pane] <url | search terms...>");
    }
    let url = browse_target(join_lines(&words, " ").as_str());
    if has_flag(args, "--pane") {
        Plan::Call(Call::Browse { url })
    } else {
        Plan::Open { url }
    }
}

// ---------------------------------------------------------------------------
// All commands.
// ---------------------------------------------------------------------------

/// What a command with its arguments asks for.
pub open spec fn planned(cmd: Seq<char>, args: Seq<Seq<char>>) -> PlanView {
    if cmd == "list-panes"@ {
        PlanView::Call(CallView::ListPanes)
    } else if cmd == "wait-for"@ {
        PlanView::WaitFor
    } else if cmd == "screenshot"@ {
        screenshot_plan(args)
    } else if cmd == "subscribe"@ {
        PlanView::Subscribe { output: has(args, "--output"@) }
    } else if cmd == "hello"@ {
        PlanView::Call(CallView::Hello { client_version: SERVER_VERSION@ })
    } else if cmd == "send-keys"@ {
        keys_plan(args)
    } else if cmd == "capture-pane"@ {
        capture_plan(args)
    } else if cmd == "group"@ {
        group_plan(args)
    } else if cmd == "color"@ {
        color_plan(args)
    } else if cmd == "pr"@ {
        pr_plan(args)
    } else if cmd == "rename"@ {
        rename_plan(args)
    } else if cmd == "close-window"@ {
        close_plan(args)
    } else if cmd == "workspace"@ {
        workspace_plan(args)
    } else if cmd == "import"@ {
        import_plan(args)
    } else if cmd == "split-pane"@ {
        split_plan(args)
    } else if cmd == "new-window"@ {
        window_plan(args)
    } else if cmd == "ssh-tmux"@ {
        ssh_plan(args)
    } else if cmd == "browse"@ {
        browse_plan(args)
    } else {
        PlanView::NotApi
    }
}

/// What a command with its arguments asks for.
pub fn dispatch(cmd: &str, args: &[String]) -> (p: Plan)
    ensures
        p@ == planned(cmd@, texts_view(args@)),
{
    if str_eq(cmd, "list-panes") {
        Plan::Call(Call::ListPanes)
    } else if str_eq(cmd, "wait-for") {
        Plan::WaitFor
    } else if str_eq(cmd, "screenshot") {
        screenshot(args)
    } else if str_eq(cmd, "subscribe") {
        Plan::Subscribe { output: has_flag(args, "--output") }
    } else if str_eq(cmd, "hello") {
        Plan::Call(Call::Hello { client_version: String::from_str(SERVER_VERSION) })
    } else if str_eq(cmd, "send-keys") {
        send_keys(args)
    } else if str_eq(cmd, "capture-pane") {
        capture_pane(args)
    } else if str_eq(cmd, "group") {
        group(args)
    } else if str_eq(cmd, "color") {
        color(args)
    } else if str_eq(cmd, "pr") {
        pr(args)
    } else if str_eq(cmd, "rename") {
        rename(args)
    } else if str_eq(cmd, "close-window") {
        close_window(args)
    } else if str_eq(cmd, "workspace") {
        workspace(args)
    } else if str_eq(cmd, "import") {
        import(args)
    } else if str_eq(cmd, "split-pane") {
        split_pane(args)
    } else if str_eq(cmd, "new-window") {
        new_window(args)
    } else if str_eq(cmd, "ssh-tmux") {
        ssh_tmux(args)
    } else if str_eq(cmd, "browse") {
        browse(args)
    } else {
        Plan::NotApi
    }
}

} // verus!
