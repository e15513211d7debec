//! What commands ask for and what they show.
use vstd::prelude::*;

#[allow(unused_imports)]
use crate::cli::args::{
    badge_words, browse_url, canonical_color, command_of, field_text, has, named_words, needs_quotes, options,
    plain_words, query_byte, query_of, quotes_escaped, requoted, scrollback_of, ssh_request,
    ssh_scan, target, target_of, trailing_command, value_of, without_front,
};
#[allow(unused_imports)]
use crate::cli::bmp::{bitmap, header, little, row, row_byte, row_bytes, rows_from};
#[allow(unused_imports)]
use crate::cli::dispatch::{
    browse_plan, capture_plan, close_plan, color_plan, group_plan, import_plan, keys_plan, keys_scan, planned,
    pr_plan, rename_plan, screenshot_plan, split_plan, ssh_plan, status_word, window_plan,
    words_text, workspace_plan, PlanView,
};
#[allow(unused_imports)]
use crate::cli::notice::{
    agent_title, event_message, hook_answer, notice_body, notice_scan, notice_sequence,
};
#[allow(unused_imports)]
use crate::cli::route::{hooks_route, routed, shell_of, snippet_route, RouteView};
#[allow(unused_imports)]
use crate::cli::show::{answered, pane_line, pane_lines, shown};
#[allow(unused_imports)]
use crate::cli::wait::{judged, question, wait_request, ConditionView, Verdict, WaitingView};
#[allow(unused_imports)]
use crate::hooks::HookAgentView;
#[allow(unused_imports)]
use crate::json::JsonView;
#[allow(unused_imports)]
use crate::proto::{CallView, PaneInfoView, ResponseView, ResultView};
#[allow(unused_imports)]
use crate::text::{
    ascii_lower, control, dec, find, has_prefix, joined, lemma_find, numbers_read_back, parse_uint,
    trimmed, without_controls,
};

verus! {

// ---------------------------------------------------------------------------
// Arguments.
// ---------------------------------------------------------------------------

/// A target is a number, with or without its sigil.
pub proof fn targets_are_numbers(n: nat, sigil: char)
    requires
        n <= u64::MAX,
        !('0' <= sigil <= '9'),
    ensures
        target_of(dec(n), sigil) == Some(n),
        target_of(seq![sigil] + dec(n), sigil) == Some(n),
{
    numbers_read_back(n, u64::MAX as nat);
    let s = dec(n);
    assert('0' <= s[0] <= '9');
    assert(without_front(s, sigil) == s);
    let t = seq![sigil] + s;
    assert(t.skip(1) =~= s);
    assert(without_front(t, sigil) == without_front(s, sigil));
}

/// An argument is there exactly where one of the arguments is it, and its value is the argument
/// behind the first of them.
pub proof fn values_stand_behind_their_flag(args: Seq<Seq<char>>, flag: Seq<char>, i: int)
    requires
        0 <= i < args.len(),
        args[i] == flag,
        forall|k: int| 0 <= k < i ==> (#[trigger] args[k]) != flag,
    ensures
        has(args, flag),
        i + 1 < args.len() ==> value_of(args, flag) == Some(args[i + 1]),
        i + 1 == args.len() ==> value_of(args, flag) is None,
{
    lemma_find(args, flag, 0);
}

/// An argument that is not there has no value.
pub proof fn missing_flags_have_no_value(args: Seq<Seq<char>>, flag: Seq<char>)
    requires
        forall|k: int| 0 <= k < args.len() ==> (#[trigger] args[k]) != flag,
    ensures
        !(has(args, flag)),
        value_of(args, flag) is None,
{
    lemma_find(args, flag, 0);
}

/// An argument stands in a command line as it is, unless it is empty or holds a blank: then it
/// stands in quotes, with a backslash before each quote in it. A space separates two arguments.
pub proof fn command_lines_keep_their_arguments(
    args: Seq<Seq<char>>,
    a: Seq<char>,
    c: char,
    n: int,
)
    ensures
        a.len() > 0 && (forall|i: int| 0 <= i < a.len() ==> #[trigger] a[i] != ' ' && a[i] != '\t')
            ==> requoted(a) == a,
        a.len() == 0 ==> requoted(a) =~= seq!['"', '"'],
        (exists|i: int| 0 <= i < a.len() && (#[trigger] a[i] == ' ' || a[i] == '\t')) ==> requoted(a)
            == seq!['"'] + quotes_escaped(a, a.len() as int) + seq!['"'],
        quotes_escaped(a.push(c), (a.len() + 1) as int) == quotes_escaped(a, a.len() as int) + (if c == '"' {
            seq!['\\', '"']
        } else {
            seq![c]
        }),
        args.len() > 0 ==> command_of(args, 1) == requoted(args[0]),
        1 <= n < args.len() ==> command_of(args, n + 1) == command_of(args, n) + seq![' ']
            + requoted(args[n]),
{
    lemma_escaped_prefix(a.push(c), a, a.len() as int);
    let front = quotes_escaped(a, a.len() as int);
    assert(front.push('\\').push('"') =~= front + seq!['\\', '"']);
    assert(front.push(c) =~= front + seq![c]);
    assert(a.push(c)[a.len() as int] == c);
    if 1 <= n < args.len() {
        assert(command_of(args, n).push(' ') + requoted(args[n]) =~= command_of(args, n) + seq![' ']
            + requoted(args[n]));
    }
}

proof fn lemma_escaped_prefix(a: Seq<char>, b: Seq<char>, n: int)
    requires
        0 <= n <= a.len(),
        n <= b.len(),
        forall|i: int| 0 <= i < n ==> a[i] == b[i],
    ensures
        quotes_escaped(a, n) == quotes_escaped(b, n),
    decreases n,
{
    if n > 0 {
        lemma_escaped_prefix(a, b, n - 1);
    }
}

/// A command stands behind `--`, and the options before it.
pub proof fn commands_stand_behind_the_dashes(
    before: Seq<Seq<char>>,
    rest: Seq<Seq<char>>,
)
    requires
        forall|k: int| 0 <= k < before.len() ==> (#[trigger] before[k]) != "--"@,
    ensures
        ({
            let args = before.push("--"@) + rest;
            let line = command_of(rest, rest.len() as int);
            &&& options(args) == before
            &&& line.len() > 0 ==> trailing_command(args) == Some(line)
            &&& line.len() == 0 ==> trailing_command(args) is None
            &&& options(before) == before
            &&& trailing_command(before) is None
        }),
{
    let args = before.push("--"@) + rest;
    let n = before.len() as int;
    lemma_find(args, "--"@, 0);
    lemma_find(before, "--"@, 0);
    assert(args[n] == "--"@);
    assert forall|k: int| 0 <= k < n implies (#[trigger] args[k]) != "--"@ by {
        assert(args[k] == before[k]);
    }
    assert(find(args, "--"@, 0) == Some(n));
    assert(args.take(n) =~= before);
    assert(args.skip(n + 1) =~= rest);
}

/// A color is six hexadecimal digits, with or without `#`; it is handed on with one, in lower case.
pub proof fn colors_are_made_canonical(digits: Seq<char>)
    requires
        digits.len() == 6,
        crate::text::all_digits(digits, true),
    ensures
        canonical_color(digits) == Some(seq!['#'] + ascii_lower(digits)),
        canonical_color(seq!['#'] + digits) == Some(seq!['#'] + ascii_lower(digits)),
{
    lemma_hex_char(digits[0]);
    lemma_hex_char(digits[5]);
    let hashed = seq!['#'] + digits;
    assert(hashed[0] == '#' && hashed.last() == digits[5]);
    lemma_trim_none(digits);
    lemma_trim_none(hashed);
    assert(without_front(digits, '#') == digits);
    assert(hashed.skip(1) =~= digits);
    assert(without_front(hashed, '#') == without_front(digits, '#'));
}

proof fn lemma_hex_char(c: char)
    requires
        crate::text::digit_of(c, true) is Some,
    ensures
        !crate::text::white_space(c),
        c != '#',
{
}

proof fn lemma_trim_none(s: Seq<char>)
    requires
        s.len() > 0,
        !crate::text::white_space(s[0]),
        !crate::text::white_space(s.last()),
    ensures
        trimmed(s) == s,
{
    assert(crate::text::trim_start_at(s, 0) == 0);
    assert(crate::text::trim_end_at(s, 0, s.len() as int) == s.len());
    assert(s.subrange(0, s.len() as int) =~= s);
}

/// A remote session is the first argument that is no option; the command that replaces the
/// transport stands behind `--command`.
pub proof fn remote_targets_are_read(host: Seq<char>, line: Seq<char>)
    requires
        host.len() > 0,
        host[0] != '-',
    ensures
        ssh_request(seq![host]) == Some((host, None::<Seq<char>>)),
        ssh_request(seq![host, "--command"@, line]) == Some((host, Some(line))),
        ssh_request(seq!["--command"@, line]) == Some((Seq::<char>::empty(), Some(line))),
        ssh_request(Seq::empty()) is None,
{
    reveal_strlit("--command");
    assert("--command"@[0] == '-');
    reveal_with_fuel(ssh_scan, 5);
    assert(host != "--command"@);
}

// ---------------------------------------------------------------------------
// Requests.
// ---------------------------------------------------------------------------

/// Each command by its name.
#[verifier::rlimit(60)]
pub proof fn commands_go_by_their_name(args: Seq<Seq<char>>)
    ensures
        planned("list-panes"@, args) == PlanView::Call(CallView::ListPanes),
        planned("wait-for"@, args) == PlanView::WaitFor,
        planned("screenshot"@, args) == screenshot_plan(args),
        planned("subscribe"@, args) == (PlanView::Subscribe { output: has(args, "--output"@) }),
        planned("send-keys"@, args) == keys_plan(args),
        planned("capture-pane"@, args) == capture_plan(args),
        planned("group"@, args) == group_plan(args),
        planned("color"@, args) == color_plan(args),
        planned("pr"@, args) == pr_plan(args),
        planned("rename"@, args) == rename_plan(args),
        planned("close-window"@, args) == close_plan(args),
        planned("workspace"@, args) == workspace_plan(args),
        planned("import"@, args) == import_plan(args),
        planned("split-pane"@, args) == split_plan(args),
        planned("new-window"@, args) == window_plan(args),
        planned("ssh-tmux"@, args) == ssh_plan(args),
        planned("browse"@, args) == crate::cli::dispatch::browse_plan(args),
{
    reveal_strlit("list-panes");
    reveal_strlit("wait-for");
    reveal_strlit("screenshot");
    reveal_strlit("subscribe");
    reveal_strlit("hello");
    reveal_strlit("send-keys");
    reveal_strlit("capture-pane");
    reveal_strlit("group");
    reveal_strlit("color");
    reveal_strlit("pr");
    reveal_strlit("rename");
    reveal_strlit("close-window");
    reveal_strlit("workspace");
    reveal_strlit("import");
    reveal_strlit("split-pane");
    reveal_strlit("new-window");
    reveal_strlit("ssh-tmux");
    reveal_strlit("browse");
    assert("list-panes"@[0] != "split-pane"@[0] && "list-panes"@[0] != "screenshot"@[0]
        && "list-panes"@[0] != "new-window"@[0] && "split-pane"@[1] != "screenshot"@[1]
        && "split-pane"@[0] != "new-window"@[0] && "screenshot"@[0] != "new-window"@[0]);
    assert("subscribe"@[1] != "send-keys"@[1] && "subscribe"@[0] != "workspace"@[0]
        && "send-keys"@[0] != "workspace"@[0]);
    assert("capture-pane"@[1] != "close-window"@[1]);
    assert("group"@[0] != "color"@[0] && "group"@[0] != "hello"@[0] && "color"@[0] != "hello"@[0]);
    assert("rename"@[0] != "import"@[0] && "rename"@[0] != "browse"@[0] && "import"@[0]
        != "browse"@[0]);
    assert("wait-for"@[0] != "ssh-tmux"@[0]);
    lemma_workspace(args);
}

proof fn lemma_workspace(args: Seq<Seq<char>>)
    ensures
        planned("workspace"@, args) == workspace_plan(args),
{
    reveal_strlit("list-panes");
    reveal_strlit("wait-for");
    reveal_strlit("screenshot");
    reveal_strlit("subscribe");
    reveal_strlit("hello");
    reveal_strlit("send-keys");
    reveal_strlit("capture-pane");
    reveal_strlit("group");
    reveal_strlit("color");
    reveal_strlit("pr");
    reveal_strlit("rename");
    reveal_strlit("close-window");
    reveal_strlit("workspace");
    assert("workspace"@.len() == 9 && "workspace"@[0] == 'w');
    assert("subscribe"@[0] == 's' && "send-keys"@[0] == 's');
}

/// `send-keys` types its words, with a space between two, into the pane behind `-t`; `--enter`, or
/// `Enter`, presses return.
pub proof fn keys_are_the_words(t: Seq<char>, pane: nat, a: Seq<char>, b: Seq<char>)
    requires
        target_of(t, '%') == Some(pane),
        a != "-t"@ && a != "--enter"@ && a != "Enter"@,
        b != "-t"@ && b != "--enter"@ && b != "Enter"@,
    ensures
        keys_plan(seq!["-t"@, t, a]) == PlanView::Call(
            CallView::SendKeys { pane: pane as u64, text: a, enter: false },
        ),
        keys_plan(seq!["-t"@, t, "--enter"@, a]) == PlanView::Call(
            CallView::SendKeys { pane: pane as u64, text: a, enter: true },
        ),
        keys_plan(seq!["-t"@, t, a, b, "Enter"@]) == PlanView::Call(
            CallView::SendKeys { pane: pane as u64, text: a + " "@ + b, enter: true },
        ),
        keys_plan(seq![a]) is Usage,
{
    reveal_strlit("-t");
    reveal_strlit("--enter");
    reveal_strlit("Enter");
    reveal_with_fuel(keys_scan, 6);
    assert("--enter"@.len() == 7 && "-t"@.len() == 2 && "Enter"@.len() == 5);
    let one = Seq::<Seq<char>>::empty().push(a);
    assert(one.len() == 1 && one[0] == a);
    assert(joined(one, " "@) == a);
    let two = one.push(b);
    assert(two.drop_last() =~= one);
    assert(joined(two, " "@) == a + " "@ + b);
}

/// `capture-pane` asks for the screen of the pane behind `-t`, or with `-S` for as many lines as the
/// number behind it, all of them for `-`.
pub proof fn captures_ask_for_lines(t: Seq<char>, pane: nat, n: nat)
    requires
        target_of(t, '%') == Some(pane),
        n <= usize::MAX,
        t != "-S"@,
    ensures
        capture_plan(seq!["-t"@, t]) == PlanView::Call(
            CallView::CapturePane { pane: pane as u64, scrollback: None },
        ),
        capture_plan(seq!["-t"@, t, "-S"@, dec(n)]) == PlanView::Call(
            CallView::CapturePane { pane: pane as u64, scrollback: Some(n as usize) },
        ),
        capture_plan(seq!["-t"@, t, "-S"@, "-"@]) == PlanView::Call(
            CallView::CapturePane { pane: pane as u64, scrollback: Some(0usize) },
        ),
{
    reveal_strlit("-t");
    reveal_strlit("-S");
    reveal_strlit("-");
    assert("-t"@[1] != "-S"@[1]);
    let a = seq!["-t"@, t];
    let b = seq!["-t"@, t, "-S"@, dec(n)];
    let c = seq!["-t"@, t, "-S"@, "-"@];
    values_stand_behind_their_flag(a, "-t"@, 0);
    values_stand_behind_their_flag(b, "-t"@, 0);
    values_stand_behind_their_flag(c, "-t"@, 0);
    missing_flags_have_no_value(a, "-S"@);
    values_stand_behind_their_flag(b, "-S"@, 2);
    values_stand_behind_their_flag(c, "-S"@, 2);
    numbers_read_back(n, usize::MAX as nat);
    assert('0' <= dec(n)[0] <= '9');
    assert(dec(n) != "-"@) by {
        if dec(n) == "-"@ {
            assert(dec(n)[0] == '-');
        }
    }
}

/// `split-pane` splits side by side, or with `-v` one below the other.
pub proof fn splits_are_beside_or_below(args: Seq<Seq<char>>, i: int)
    ensures
        0 <= i < args.len() && args[i] == "-v"@ ==> split_plan(args) == PlanView::Call(
            CallView::SplitPane { dir: "v"@, command: trailing_command(args) },
        ),
        (forall|k: int| 0 <= k < args.len() ==> (#[trigger] args[k]) != "-v"@) ==> split_plan(args)
            == PlanView::Call(
            CallView::SplitPane { dir: "h"@, command: trailing_command(args) },
        ),
{
    lemma_find(args, "-v"@, 0);
}

/// What is asked of a window goes to the window behind `-t`, with the words that are no options; a
/// `--clear` clears.
pub proof fn windows_are_set_by_commands(t: Seq<char>, id: nat, word: Seq<char>)
    requires
        target_of(t, '@') == Some(id),
        word.len() > 0,
        word[0] != '-',
        t.len() > 0,
        t != "--clear"@,
    ensures
        ({
            let args = seq!["-t"@, t, word];
            let clear = seq!["-t"@, t, "--clear"@];
            let win = id as u64;
            &&& rename_plan(args) == PlanView::Call(
                CallView::RenameWindow { id: win, name: word },
            )
            &&& group_plan(args) == PlanView::Call(CallView::GroupWindow { id: win, group: word })
            &&& workspace_plan(args) == PlanView::Call(
                CallView::SetWorkspaceDir { id: win, dir: word },
            )
            &&& close_plan(args) == PlanView::Call(CallView::CloseWindow { id: win })
            &&& canonical_color(word) matches Some(c) ==> color_plan(args) == PlanView::Call(
                CallView::ColorWindow { id: win, color: c },
            )
            &&& canonical_color(word) is None ==> color_plan(args) is Usage
            &&& group_plan(clear) == PlanView::Call(
                CallView::GroupWindow { id: win, group: Seq::empty() },
            )
            &&& workspace_plan(clear) == PlanView::Call(
                CallView::SetWorkspaceDir { id: win, dir: Seq::empty() },
            )
            &&& color_plan(clear) == PlanView::Call(
                CallView::ColorWindow { id: win, color: Seq::empty() },
            )
            &&& rename_plan(seq![word]) is Usage
            &&& close_plan(seq![word]) is Usage
        }),
{
    reveal_strlit("-t");
    reveal_strlit("--clear");
    assert("-t"@[0] == '-' && "-t"@.len() == 2);
    assert("--clear"@.len() == 7 && "--clear"@[0] == '-');
    let args = seq!["-t"@, t, word];
    let clear = seq!["-t"@, t, "--clear"@];
    assert(word != "-t"@ && word != "--clear"@);
    values_stand_behind_their_flag(args, "-t"@, 0);
    values_stand_behind_their_flag(clear, "-t"@, 0);
    missing_flags_have_no_value(args, "--clear"@);
    values_stand_behind_their_flag(clear, "--clear"@, 2);
    missing_flags_have_no_value(seq![word], "-t"@);
    reveal_with_fuel(named_words, 4);
    let words = named_words(args, 0);
    assert(words =~= seq![word]);
    assert(joined(words, " "@) == word);
    assert(crate::cli::dispatch::first_filled(words, 0) == word);
}

/// `import` takes a directory, and with `--all` every folder; `subscribe --output` takes the damage
/// too; `new-window --cwd` opens a window in a directory.
pub proof fn imports_and_windows_are_asked_for(dir: Seq<char>)
    requires
        dir.len() > 0,
        dir[0] != '-',
    ensures
        import_plan(seq![dir]) == PlanView::Call(CallView::ImportWorkspaces { dir, all: false }),
        import_plan(seq![dir, "--all"@]) == PlanView::Call(
            CallView::ImportWorkspaces { dir, all: true },
        ),
        import_plan(Seq::empty()) is Usage,
        window_plan(Seq::empty()) == PlanView::Call(
            CallView::NewWindow { command: None, cwd: None },
        ),
        window_plan(seq!["--cwd"@, dir]) == PlanView::Call(
            CallView::NewWindow { command: None, cwd: Some(dir) },
        ),
{
    reveal_strlit("--all");
    reveal_strlit("--cwd");
    reveal_strlit("--");
    assert("--all"@[0] == '-' && "--cwd"@.len() == 5 && "--"@.len() == 2 && "--"@[0] == '-');
    assert(dir != "--all"@ && dir != "--cwd"@ && dir != "--"@);
    let a = seq![dir];
    let b = seq![dir, "--all"@];
    let c = seq!["--cwd"@, dir];
    let none = Seq::<Seq<char>>::empty();
    missing_flags_have_no_value(a, "--all"@);
    values_stand_behind_their_flag(b, "--all"@, 1);
    missing_flags_have_no_value(none, "--all"@);
    missing_flags_have_no_value(none, "--cwd"@);
    missing_flags_have_no_value(none, "--"@);
    missing_flags_have_no_value(c, "--"@);
    values_stand_behind_their_flag(c, "--cwd"@, 0);
    reveal_with_fuel(plain_words, 4);
    assert(plain_words(a, 0) =~= seq![dir]);
    assert(plain_words(b, 0) =~= seq![dir]);
    assert(plain_words(none, 0) =~= none);
    assert(joined(seq![dir], " "@) == dir);
    assert(joined(none, " "@).len() == 0);
}

/// An address is taken as it is, a word with a dot is a page, and all else is a search.
pub proof fn pages_are_addresses_or_searches(t: Seq<char>)
    requires
        trimmed(t) == t,
    ensures
        has_prefix(t, "http://"@) || has_prefix(t, "https://"@) ==> browse_url(t) == t,
        !has_prefix(t, "http://"@) && !has_prefix(t, "https://"@) && (forall|i: int|
            0 <= i < t.len() ==> #[trigger] t[i] != ' ') && (exists|i: int|
            0 <= i < t.len() && #[trigger] t[i] == '.') ==> browse_url(t) == "https://"@ + t,
        !has_prefix(t, "http://"@) && !has_prefix(t, "https://"@) && (exists|i: int|
            0 <= i < t.len() && #[trigger] t[i] == ' ') ==> browse_url(t)
            == "https://duckduckgo.com/?q="@ + query_of(
            vstd::utf8::encode_utf8(t),
            vstd::utf8::encode_utf8(t).len() as int,
        ),
        !has_prefix(t, "http://"@) && !has_prefix(t, "https://"@) && (forall|i: int|
            0 <= i < t.len() ==> #[trigger] t[i] != '.') ==> browse_url(t)
            == "https://duckduckgo.com/?q="@ + query_of(
            vstd::utf8::encode_utf8(t),
            vstd::utf8::encode_utf8(t).len() as int,
        ),
{
    lemma_find(t, ' ', 0);
    lemma_find(t, '.', 0);
}

/// In a search, letters, digits and `-_.~` stand for themselves, a space is a plus, and any other
/// byte is a percent sign and two hexadecimal digits.
pub proof fn searches_are_escaped(bytes: Seq<u8>, b: u8, n: int)
    ensures
        ({
            let c = b as char;
            let plain = ('A' <= c <= 'Z') || ('a' <= c <= 'z') || ('0' <= c <= '9') || c == '-' || c
                == '_' || c == '.' || c == '~';
            let hex = |d: int|
                if d < 10 {
                    ('0' as int + d) as char
                } else {
                    ('A' as int + d - 10) as char
                };
            &&& plain ==> query_byte(b) == seq![c]
            &&& c == ' ' ==> query_byte(b) == seq!['+']
            &&& !plain && c != ' ' ==> query_byte(b) == seq!['%', hex(b as int / 16), hex(
                b as int % 16,
            )]
        }),
        query_of(bytes, 0).len() == 0,
        0 <= n < bytes.len() ==> query_of(bytes, n + 1) == query_of(bytes, n) + query_byte(bytes[n]),
{
}

// ---------------------------------------------------------------------------
// Notifications.
// ---------------------------------------------------------------------------

/// A field of a notification is its text without control characters, with commas for semicolons in
/// a title.
pub proof fn fields_carry_their_text(s: Seq<char>, i: int)
    ensures
        field_text(s, false) == without_controls(s),
        field_text(s, true).len() == without_controls(s).len(),
        0 <= i < without_controls(s).len() ==> field_text(s, true)[i] == (if without_controls(s)[i]
            == ';' {
            ','
        } else {
            without_controls(s)[i]
        }),
    decreases s.len(),
{
    if s.len() > 0 {
        fields_carry_their_text(s.drop_last(), i);
    } else {
        assert(field_text(s, false) =~= without_controls(s));
    }
}

/// `notify` prints the sequence of a notification with its title and its body; a subtitle stands in
/// front of the body.
pub proof fn notices_carry_title_and_body(t: Seq<char>, b: Seq<char>, s: Seq<char>)
    requires
        b.len() > 0,
    ensures
        ({
            let said = |title: Seq<char>, body: Seq<char>|
                seq!['\u{1b}'] + ("]777;notify;"@ + field_text(title, true) + ";"@ + field_text(
                    body,
                    false,
                )) + seq!['\u{7}'];
            let none = Seq::<char>::empty();
            &&& notice_sequence(seq!["--title"@, t, "--body"@, b]) == said(t, b)
            &&& notice_sequence(seq!["--title"@, t]) == said(t, none)
            &&& notice_sequence(seq!["--body"@, b]) == said(none, b)
            &&& notice_sequence(seq!["--body"@, b, "--subtitle"@, s]) == said(none, s + " — "@ + b)
        }),
{
    reveal_strlit("--title");
    reveal_strlit("--body");
    reveal_strlit("--subtitle");
    reveal_strlit("--urgency");
    assert("--title"@.len() == 7 && "--body"@.len() == 6 && "--subtitle"@.len() == 10);
    reveal_with_fuel(notice_scan, 4);
}

/// What an agent's hook answers carries the agent's name and its message, or that it needs
/// attention.
pub proof fn hooks_answer_with_the_message(hook: HookAgentView, j: JsonView, m: Seq<char>)
    requires
        crate::json::text_value(crate::json::field(j, "message"@)) == Some(m),
    ensures
        event_message(Some(j)) == m,
        event_message(None) == "needs your attention"@,
        agent_title("codex"@, hook) == "Codex"@,
        agent_title("gemini"@, hook) == "Gemini"@,
        hook.word != "codex"@ && hook.word != "gemini"@ ==> agent_title(hook.word, hook)
            == hook.title,
        hook_answer("codex"@, hook, Some(j)) == JsonView::Object(
            seq![
                (
                    "terminalSequence"@,
                    JsonView::Text(
                        "]777;notify;"@ + field_text("Codex"@, true) + ";"@ + field_text(m, false),
                    ),
                ),
            ],
        ),
{
    reveal_strlit("codex");
    reveal_strlit("gemini");
    assert("codex"@.len() == 5 && "gemini"@.len() == 6);
}

// ---------------------------------------------------------------------------
// Waiting.
// ---------------------------------------------------------------------------

/// A wait asks for the text, or for the screen, of its pane; it is over well once the text is found,
/// once the pane is gone, or once the screen stayed the same for long enough; it is over badly where
/// the pane is gone before.
pub proof fn waits_end_with_their_condition(
    w: WaitingView,
    q: Seq<char>,
    r: ResponseView,
    quiet: bool,
)
    ensures
        w.condition == ConditionView::Text(q) ==> {
            &&& question(w) == (CallView::SearchPane { pane: w.pane, query: q })
            &&& r.result matches Some(ResultView::Matches(m)) ==> m.len() > 0 ==> judged(
                w,
                Some(r),
                quiet,
            ).1 == Verdict::Over(0)
            &&& r.result matches Some(ResultView::Matches(m)) ==> m.len() == 0 && r.error is None
                ==> judged(w, Some(r), quiet).1 is Again
            &&& r.result is None && r.error is Some ==> judged(w, Some(r), quiet).1 == Verdict::Over(
                1,
            )
        },
        w.condition is Exit ==> {
            &&& question(w) == (CallView::CapturePane { pane: w.pane, scrollback: None })
            &&& r.error is Some ==> judged(w, Some(r), quiet).1 == Verdict::Over(0)
            &&& r.error is None ==> judged(w, Some(r), quiet).1 is Again
        },
        w.condition is Idle ==> {
            &&& question(w) == (CallView::CapturePane { pane: w.pane, scrollback: None })
            &&& r.result matches Some(ResultView::Text(t)) ==> {
                let (next, v) = judged(w, Some(r), quiet);
                &&& next.screen == Some(t)
                &&& next.pane == w.pane
                &&& next.condition == w.condition
                &&& w.screen != Some(t) ==> v == (Verdict::Again { changed: true })
                &&& w.screen == Some(t) && quiet ==> v == Verdict::Over(0)
                &&& w.screen == Some(t) && !quiet ==> v == (Verdict::Again { changed: false })
            }
            &&& r.result is None ==> judged(w, Some(r), quiet).1 == Verdict::Over(1)
        },
{
}

/// `wait-for` waits on the pane behind `-t` for exactly one condition.
pub proof fn waits_have_one_condition(args: Seq<Seq<char>>, pane: nat, q: Seq<char>)
    requires
        target(args, '%') == Some(pane),
    ensures
        value_of(args, "--text"@) == Some(q) && !(has(args, "--exit"@)) ==> wait_request(args, false)
            == Some(
            WaitingView { pane: pane as u64, condition: ConditionView::Text(q), screen: None },
        ),
        value_of(args, "--text"@) is None && has(args, "--exit"@) ==> wait_request(args, false)
            == Some(WaitingView { pane: pane as u64, condition: ConditionView::Exit, screen: None }),
        value_of(args, "--text"@) is None && !(has(args, "--exit"@)) ==> wait_request(args, true)
            == Some(WaitingView { pane: pane as u64, condition: ConditionView::Idle, screen: None })
            && wait_request(args, false) is None,
        value_of(args, "--text"@) is Some && has(args, "--exit"@) ==> wait_request(args, false)
            is None && wait_request(args, true) is None,
{
}

// ---------------------------------------------------------------------------
// What is printed.
// ---------------------------------------------------------------------------

/// What answers print: a pane on a line, with its number, its window, its size, whether it is active
/// and waits, its directory and its title; a text as it is; a pane as its number. An error goes to
/// the error stream, with a code that is no success.
pub proof fn answers_are_printed(r: ResponseView, p: PaneInfoView, t: Seq<char>, id: u64, e: Seq<char>)
    ensures
        shown(ResultView::Text(t)) == t + "\n"@,
        shown(ResultView::PaneId(id)) == "%"@ + dec(id as nat) + "\n"@,
        shown(ResultView::Busy(true)) == "true\n"@,
        shown(ResultView::Busy(false)) == "false\n"@,
        shown(ResultView::Panes(seq![p])) =~= "%"@ + dec(p.id as nat) + "\t@"@ + dec(
            p.window as nat,
        ) + "\t"@ + dec(p.cols as nat) + "x"@ + dec(p.rows as nat) + "\t"@ + (if p.active {
            "*"@
        } else {
            ""@
        }) + (if p.attention {
            "!"@
        } else {
            ""@
        }) + "\t"@ + (match p.cwd {
            Some(d) => d,
            None => "-"@,
        }) + "\t"@ + p.title + "\n"@,
        r.error == Some(e) ==> answered(r).code == 1 && answered(r).err == "gmux: "@ + e + "\n"@
            && answered(r).out == ""@,
        r.error is None ==> (r.result matches Some(body) ==> answered(r).code == 0 && answered(r).out
            == shown(body) && answered(r).err == ""@),
        r.error is None && r.result is None ==> answered(r).code == 1,
{
    assert(pane_lines(seq![p], 0) =~= Seq::empty());
    assert(pane_lines(seq![p], 1) == pane_lines(seq![p], 0) + pane_line(p));
}

/// Panes are printed one line after the other.
pub proof fn panes_are_printed_in_order(panes: Seq<PaneInfoView>, n: int)
    requires
        0 <= n < panes.len(),
    ensures
        pane_lines(panes, 0).len() == 0,
        pane_lines(panes, n + 1) == pane_lines(panes, n) + pane_line(panes[n]),
{
}

// ---------------------------------------------------------------------------
// Routes.
// ---------------------------------------------------------------------------

/// The program opens a window without arguments, and with what is no command of its own it runs the
/// arguments as a command line.
pub proof fn arguments_choose_what_the_program_is(args: Seq<Seq<char>>, hook: HookAgentView)
    ensures
        routed(Seq::empty(), hook) == RouteView::Window,
        routed(seq!["--daemon"@] + args, hook) == RouteView::Daemon,
        routed(seq!["notify"@] + args, hook) == RouteView::Print(notice_sequence(args)),
        routed(seq!["hooks"@] + args, hook) == hooks_route(args, hook),
        routed(seq!["shell-integration"@] + args, hook) == snippet_route(args),
        args.len() >= 2 && args[0] == "setup"@ ==> hooks_route(args, hook) == RouteView::Hooks(
            args[1],
        ),
        args.len() == 0 ==> snippet_route(args) == RouteView::Snippet,
        args.len() > 0 && args[0] == "--print"@ ==> snippet_route(args) == RouteView::Snippet,
        args.len() > 0 && args[0] == "--install"@ ==> snippet_route(args) == RouteView::Install,
{
    reveal_strlit("--daemon");
    reveal_strlit("notify");
    reveal_strlit("hooks");
    reveal_strlit("shell-integration");
    reveal_strlit("--print");
    reveal_strlit("--install");
    assert("--daemon"@.len() == 8 && "notify"@.len() == 6 && "hooks"@.len() == 5
        && "shell-integration"@.len() == 17 && "--print"@.len() == 7 && "--install"@.len() == 9);
    assert((seq!["--daemon"@] + args).skip(1) =~= args);
    assert((seq!["notify"@] + args).skip(1) =~= args);
    assert((seq!["hooks"@] + args).skip(1) =~= args);
    assert((seq!["shell-integration"@] + args).skip(1) =~= args);
}

/// The default shell is the newest there is.
pub proof fn the_newest_shell_is_the_default(older: bool)
    ensures
        shell_of(true, older) == "pwsh.exe -NoLogo"@,
        shell_of(false, true)
            == "C:\\Windows\\System32\\WindowsPowerShell\\v1.0\\powershell.exe"@ + " -NoLogo"@,
        shell_of(false, false) == "cmd.exe"@,
{
}

// ---------------------------------------------------------------------------
// Pictures.
// ---------------------------------------------------------------------------

proof fn lemma_rows(w: int, h: int, rgba: Seq<u8>, y: int, z: int, k: int)
    requires
        0 <= w,
        0 <= y <= z < h,
        0 <= k < row_bytes(w),
    ensures
        rows_from(w, h, rgba, y).len() == row_bytes(w) * (h - y),
        0 <= row_bytes(w) * (h - 1 - z) + k < rows_from(w, h, rgba, y).len(),
        rows_from(w, h, rgba, y)[row_bytes(w) * (h - 1 - z) + k] == row_byte(w, rgba, z, k),
    decreases h - y,
{
    let n = row_bytes(w);
    lemma_rows_len(w, h, rgba, y + 1);
    assert(n * (h - y) == n * (h - y - 1) + n) by (nonlinear_arith);
    assert(0 <= n * (h - 1 - z)) by (nonlinear_arith)
        requires
            0 <= n,
            z < h,
    ;
    if z == y {
        assert(rows_from(w, h, rgba, y) == rows_from(w, h, rgba, y + 1) + row(w, rgba, y));
    } else {
        lemma_rows(w, h, rgba, y + 1, z, k);
        assert(n * (h - 1 - z) + n <= n * (h - y - 1)) by (nonlinear_arith)
            requires
                0 <= n,
                y < z,
        ;
    }
}

proof fn lemma_rows_len(w: int, h: int, rgba: Seq<u8>, y: int)
    requires
        0 <= w,
        0 <= y <= h,
    ensures
        rows_from(w, h, rgba, y).len() == row_bytes(w) * (h - y),
    decreases h - y,
{
    let n = row_bytes(w);
    if y < h {
        lemma_rows_len(w, h, rgba, y + 1);
        assert(n * (h - y) == n * (h - y - 1) + n) by (nonlinear_arith);
    } else {
        assert(n * (h - y) == 0) by (nonlinear_arith)
            requires
                h == y,
        ;
    }
}

/// A picture holds its pixels: the lowest row first, and of each pixel its blue, its green and its
/// red, with every row filled up to a multiple of four bytes.
pub proof fn pictures_hold_their_pixels(w: int, h: int, rgba: Seq<u8>, x: int, y: int)
    requires
        0 <= x < w,
        0 <= y < h,
    ensures
        ({
            let b = bitmap(w, h, rgba);
            let at = 54 + row_bytes(w) * (h - 1 - y) + 3 * x;
            let pixel = 4 * (y * w + x);
            &&& row_bytes(w) % 4 == 0
            &&& 3 * w <= row_bytes(w) < 3 * w + 4
            &&& b[at] == rgba[pixel + 2]
            &&& b[at + 1] == rgba[pixel + 1]
            &&& b[at + 2] == rgba[pixel]
            &&& b[0] == 0x42
            &&& b[1] == 0x4d
        }),
{
    let n = row_bytes(w);
    assert(n % 4 == 0 && 3 * w <= n < 3 * w + 4) by (nonlinear_arith)
        requires
            n == (3 * w + 3) / 4 * 4,
    ;
    crate::cli::bmp::files_are_as_long_as_they_say(w, h, rgba);
    lemma_rows(w, h, rgba, 0, y, 3 * x);
    lemma_rows(w, h, rgba, 0, y, 3 * x + 1);
    lemma_rows(w, h, rgba, 0, y, 3 * x + 2);
    assert((3 * x) / 3 == x && (3 * x + 1) / 3 == x && (3 * x + 2) / 3 == x);
}

/// The header tells the size of the file, where the pixels start, and the width and height of the
/// picture, each with its lowest byte first.
pub proof fn pictures_tell_their_size(w: int, h: int, rgba: Seq<u8>)
    requires
        0 <= w,
        0 <= h,
    ensures
        ({
            let b = bitmap(w, h, rgba);
            let four = |i: int|
                b[i] as int + 256 * (b[i + 1] as int) + 65536 * (b[i + 2] as int) + 16777216 * (b[i
                    + 3] as int);
            &&& 54 + row_bytes(w) * h < 0x1_0000_0000 ==> four(2) == 54 + row_bytes(w) * h
            &&& four(10) == 54
            &&& four(14) == 40
            &&& w < 0x1_0000_0000 ==> four(18) == w
            &&& h < 0x1_0000_0000 ==> four(22) == h
            &&& b[26] == 1
            &&& b[27] == 0
            &&& b[28] == 24
            &&& b[29] == 0
        }),
{
    let size = 54 + row_bytes(w) * h;
    assert(row_bytes(w) * h >= 0) by (nonlinear_arith)
        requires
            row_bytes(w) >= 0,
            h >= 0,
    ;
    lemma_four(size);
    lemma_four(0);
    lemma_four(54);
    lemma_four(40);
    lemma_four(w);
    lemma_four(h);
    reveal_with_fuel(little, 3);
    assert(little(1, 2) =~= seq![1u8, 0u8]);
    assert(little(24, 2) =~= seq![24u8, 0u8]);
}

proof fn lemma_four(v: int)
    requires
        0 <= v,
    ensures
        little(v, 4).len() == 4,
        v < 0x1_0000_0000 ==> little(v, 4)[0] as int + 256 * (little(v, 4)[1] as int) + 65536 * (
        little(v, 4)[2] as int) + 16777216 * (little(v, 4)[3] as int) == v,
{
    reveal_with_fuel(little, 5);
    let (a, b, c) = (v / 256, v / 256 / 256, v / 256 / 256 / 256);
    assert(little(c / 256, 0) =~= Seq::empty());
    assert(little(v, 4) =~= seq![
        (v % 256) as u8,
        (a % 256) as u8,
        (b % 256) as u8,
        (c % 256) as u8,
    ]);
}

/// Rows are filled up with zeros.
pub proof fn rows_are_filled_with_zeros(w: int, h: int, rgba: Seq<u8>, y: int, k: int)
    requires
        0 <= w,
        0 <= y < h,
        3 * w <= k < row_bytes(w),
    ensures
        bitmap(w, h, rgba)[54 + row_bytes(w) * (h - 1 - y) + k] == 0,
{
    crate::cli::bmp::files_are_as_long_as_they_say(w, h, rgba);
    lemma_rows(w, h, rgba, 0, y, k);
}

/// Words that are no flag, and an urgency, do not change what a notification says; a flag without a
/// value says nothing.
pub proof fn other_words_say_nothing(x: Seq<char>, t: Seq<char>)
    requires
        x != "--title"@ && x != "--body"@ && x != "--subtitle"@ && x != "--urgency"@,
    ensures
        notice_sequence(seq![x, "--title"@, t]) == notice_sequence(seq!["--title"@, t]),
        notice_sequence(seq!["--urgency"@, x, "--title"@, t]) == notice_sequence(
            seq!["--title"@, t],
        ),
        notice_sequence(seq!["--title"@, t, x]) == notice_sequence(seq!["--title"@, t]),
        notice_sequence(seq!["--title"@]) == notice_sequence(Seq::empty()),
        notice_sequence(Seq::empty()) == seq!['\u{1b}'] + ("]777;notify;"@ + field_text(
            Seq::empty(),
            true,
        ) + ";"@ + field_text(Seq::empty(), false)) + seq!['\u{7}'],
{
    reveal_strlit("--title");
    reveal_strlit("--body");
    reveal_strlit("--subtitle");
    reveal_strlit("--urgency");
    assert("--title"@.len() == 7 && "--body"@.len() == 6 && "--subtitle"@.len() == 10
        && "--urgency"@.len() == 9);
    reveal_with_fuel(notice_scan, 4);
}

/// A wait goes on, unchanged, while nothing happens, and ends without success where the multiplexer
/// cannot be reached.
pub proof fn waits_go_on_unchanged(w: WaitingView, r: ResponseView, quiet: bool)
    ensures
        judged(w, None, quiet) == (w, Verdict::Over(1)),
        !(w.condition is Idle) ==> judged(w, Some(r), quiet).0 == w,
        !(w.condition is Idle) && r.error is None && !(r.result matches Some(
            ResultView::Matches(m),
        ) && m.len() > 0) ==> judged(w, Some(r), quiet).1 == (Verdict::Again { changed: false }),
{
}

/// A badge is set by its number, one of the four states, in any case, and maybe an address; any
/// other state is refused.
pub proof fn badges_are_set_by_hand(
    args: Seq<Seq<char>>,
    id: u64,
    number: u32,
    state: Seq<char>,
    url: Seq<char>,
)
    requires
        target(args, '@') == Some(id as nat),
        !(has(args, "--clear"@)),
        !(has(args, "--resolve"@)),
    ensures
        ({
            let known = ascii_lower(state) == "open"@ || ascii_lower(state) == "draft"@
                || ascii_lower(state) == "merged"@ || ascii_lower(state) == "closed"@;
            &&& badge_words(args, 0) == seq![dec(number as nat), state] ==> if known {
                pr_plan(args) == PlanView::Call(
                    CallView::SetPr { id, number, status: state, url: None },
                )
            } else {
                pr_plan(args) is Usage
            }
            &&& badge_words(args, 0) == seq![dec(number as nat), state, url] && known ==> pr_plan(
                args,
            ) == PlanView::Call(CallView::SetPr { id, number, status: state, url: Some(url) })
            &&& badge_words(args, 0).len() < 2 ==> pr_plan(args) is Usage
        }),
{
    numbers_read_back(number as nat, u32::MAX as nat);
}

/// Browsing opens the page in the user's browser, or in a pane where that is asked for; without
/// words there is nothing to open.
pub proof fn pages_open_outside_or_in_a_pane(args: Seq<Seq<char>>)
    ensures
        plain_words(args, 0).len() == 0 ==> browse_plan(args) is Usage,
        plain_words(args, 0).len() > 0 && has(args, "--pane"@) ==> browse_plan(args)
            == PlanView::Call(
            CallView::Browse { url: browse_url(joined(plain_words(args, 0), " "@)) },
        ),
        plain_words(args, 0).len() > 0 && !(has(args, "--pane"@)) ==> browse_plan(args) == (
        PlanView::Open { url: browse_url(joined(plain_words(args, 0), " "@)) }),
{
}

} // verus!
