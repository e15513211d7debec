//! The command line.
use gmux::cli::args::{
    browse_target, join_command, normalize_hex, osc_field, parse_pane, parse_scrollback,
    parse_ssh_tmux, parse_window, take,
};
use gmux::cli::badge::{gmux_status_from_github, json_number, json_string, resolve_pr};
use gmux::cli::bmp::{picture_size, write_bmp};
use gmux::cli::dispatch::{dispatch, Plan};
use gmux::cli::notice::{internal_hook, notify};
use gmux::cli::route::{default_shell, route, Route};
use gmux::cli::show::{print_result, run};
use gmux::cli::wait::{Verdict, Waiting};
use gmux::hooks::HookAgent;
use gmux::proto::{Call, PaneInfo, Response, ResultBody, SERVER_VERSION};

fn hook() -> HookAgent {
    HookAgent {
        word: "any-agent".to_string(),
        alias: "any".to_string(),
        folder: ".any".to_string(),
        title: "Any Agent".to_string(),
    }
}

fn a(s: &[&str]) -> Vec<String> {
    s.iter().map(|x| x.to_string()).collect()
}

fn call(cmd: &str, args: &[&str]) -> Call {
    match dispatch(cmd, &a(args)) {
        Plan::Call(c) => c,
        Plan::Usage(u) => panic!("usage: {u}"),
        _ => panic!("expected a call"),
    }
}

fn usage(cmd: &str, args: &[&str]) -> String {
    match dispatch(cmd, &a(args)) {
        Plan::Usage(u) => u,
        _ => panic!("expected a word on usage"),
    }
}

#[test]
fn browse_target_resolves() {
    assert_eq!(browse_target("https://a.test/x"), "https://a.test/x");
    assert_eq!(browse_target("docs.rs"), "https://docs.rs");
    assert_eq!(
        browse_target("rust wgpu present"),
        "https://duckduckgo.com/?q=rust+wgpu+present"
    );
    assert_eq!(browse_target("c# & more"), "https://duckduckgo.com/?q=c%23+%26+more");
    assert_eq!(browse_target(" é "), "https://duckduckgo.com/?q=%C3%A9");
}

#[test]
fn pane_targets_parse() {
    assert_eq!(parse_pane("%5"), Some(5));
    assert_eq!(parse_pane("5"), Some(5));
    assert_eq!(parse_pane("nope"), None);
}

#[test]
fn window_targets_and_hex_parse() {
    assert_eq!(parse_window("@3"), Some(3));
    assert_eq!(parse_window("3"), Some(3));
    assert_eq!(parse_window("nope"), None);
    assert_eq!(normalize_hex("#FF8800").as_deref(), Some("#ff8800"));
    assert_eq!(normalize_hex("ff8800").as_deref(), Some("#ff8800"));
    assert_eq!(normalize_hex("#fff"), None);
    assert_eq!(normalize_hex("#gggggg"), None);
    assert_eq!(normalize_hex("red"), None);
}

#[test]
fn scrollback_arg_parses() {
    assert_eq!(parse_scrollback(Some("-")), 0);
    assert_eq!(parse_scrollback(None), 0);
    assert_eq!(parse_scrollback(Some("0")), 0);
    assert_eq!(parse_scrollback(Some("200")), 200);
    assert_eq!(parse_scrollback(Some("garbage")), 0);
}

#[test]
fn ssh_tmux_args_parse() {
    assert_eq!(parse_ssh_tmux(&a(&["dev@box"])), Some(("dev@box".into(), None)));
    assert_eq!(
        parse_ssh_tmux(&a(&["dev@box", "--command", "cmd.exe /c type x"])),
        Some(("dev@box".into(), Some("cmd.exe /c type x".into()))),
    );
    assert_eq!(
        parse_ssh_tmux(&a(&["--command", "stub.exe"])),
        Some((String::new(), Some("stub.exe".into()))),
    );
    assert_eq!(parse_ssh_tmux(&[]), None);
    assert_eq!(parse_ssh_tmux(&a(&["-v", "dev@box"])), Some(("dev@box".into(), None)));
    assert_eq!(parse_ssh_tmux(&a(&["-v"])), None);
}

#[test]
fn join_command_requotes_multiword_args() {
    assert_eq!(join_command(&a(&["agent"])), "agent");
    assert_eq!(
        join_command(&a(&["agent", "-p", "work on the auth module"])),
        "agent -p \"work on the auth module\"",
    );
    assert_eq!(join_command(&a(&["run", "say \"hi\" now"])), "run \"say \\\"hi\\\" now\"");
    assert_eq!(join_command(&a(&["x", ""])), "x \"\"");
}

#[test]
fn osc_field_strips_controls_and_title_semicolons() {
    assert_eq!(osc_field("a;b\x07c\nd", true), "a,bcd");
    assert_eq!(osc_field("a;b\x07c\nd", false), "a;bcd");
}

#[test]
fn taking_a_value_steps_to_it() {
    let args = a(&["--title", "T"]);
    let mut i = 0;
    assert_eq!((take(&args, &mut i), i), ("T".to_string(), 1));
    assert_eq!((take(&args, &mut i), i), (String::new(), 2));
}

#[test]
fn commands_become_requests() {
    assert_eq!(call("list-panes", &[]), Call::ListPanes);
    assert_eq!(call("hello", &[]), Call::Hello { client_version: SERVER_VERSION.to_string() });
    assert_eq!(
        call("send-keys", &["-t", "%5", "echo", "hi", "--enter"]),
        Call::SendKeys { pane: 5, text: "echo hi".into(), enter: true }
    );
    assert_eq!(
        call("send-keys", &["-t", "1", "a", "Enter", "-t", "2", "b"]),
        Call::SendKeys { pane: 2, text: "a b".into(), enter: true }
    );
    assert_eq!(
        call("capture-pane", &["-t", "%5"]),
        Call::CapturePane { pane: 5, scrollback: None }
    );
    assert_eq!(
        call("capture-pane", &["-t", "%5", "-S", "200"]),
        Call::CapturePane { pane: 5, scrollback: Some(200) }
    );
    assert_eq!(
        call("capture-pane", &["-t", "%5", "-S"]),
        Call::CapturePane { pane: 5, scrollback: Some(0) }
    );
    assert_eq!(
        call("group", &["-t", "@2", "back", "end"]),
        Call::GroupWindow { id: 2, group: "back end".into() }
    );
    assert_eq!(
        call("group", &["-t", "@2", "x", "--clear"]),
        Call::GroupWindow { id: 2, group: String::new() }
    );
    assert_eq!(
        call("color", &["-t", "@2", "#E0533D"]),
        Call::ColorWindow { id: 2, color: "#e0533d".into() }
    );
    assert_eq!(
        call("color", &["-t", "@2", "--clear"]),
        Call::ColorWindow { id: 2, color: String::new() }
    );
    assert_eq!(
        call("rename", &["-t", "@2", "my", "tab"]),
        Call::RenameWindow { id: 2, name: "my tab".into() }
    );
    assert_eq!(
        call("rename", &["-t", "@2"]),
        Call::RenameWindow { id: 2, name: String::new() }
    );
    assert_eq!(call("close-window", &["-t", "@2"]), Call::CloseWindow { id: 2 });
    assert_eq!(
        call("workspace", &["-t", "@2", "C:\\proj"]),
        Call::SetWorkspaceDir { id: 2, dir: "C:\\proj".into() }
    );
    assert_eq!(
        call("workspace", &["-t", "@2", "--clear"]),
        Call::SetWorkspaceDir { id: 2, dir: String::new() }
    );
    assert_eq!(
        call("import", &["C:\\projects", "--all"]),
        Call::ImportWorkspaces { dir: "C:\\projects".into(), all: true }
    );
    assert_eq!(
        call("split-pane", &["-v", "--", "agent", "-p", "two words"]),
        Call::SplitPane { dir: "v".into(), command: Some("agent -p \"two words\"".into()) }
    );
    assert_eq!(call("split-pane", &[]), Call::SplitPane { dir: "h".into(), command: None });
    assert_eq!(
        call("new-window", &["--cwd", "C:\\proj", "--", "cmd", "--cwd", "x"]),
        Call::NewWindow { command: Some("cmd --cwd x".into()), cwd: Some("C:\\proj".into()) }
    );
    assert_eq!(call("new-window", &["--"]), Call::NewWindow { command: None, cwd: None });
    assert_eq!(
        call("ssh-tmux", &["dev@box"]),
        Call::SshTmux { target: "dev@box".into(), command: None }
    );
    assert_eq!(
        call("browse", &["--pane", "docs.rs"]),
        Call::Browse { url: "https://docs.rs".into() }
    );
}

#[test]
fn badges_are_set_cleared_and_resolved() {
    assert_eq!(
        call("pr", &["-t", "@2", "128", "Open", "https://x.test/128"]),
        Call::SetPr {
            id: 2,
            number: 128,
            status: "Open".into(),
            url: Some("https://x.test/128".into())
        }
    );
    assert_eq!(
        call("pr", &["-t", "@2", "128", "merged"]),
        Call::SetPr { id: 2, number: 128, status: "merged".into(), url: None }
    );
    assert_eq!(
        call("pr", &["-t", "@2", "--clear"]),
        Call::SetPr { id: 2, number: 0, status: String::new(), url: None }
    );
    assert!(matches!(dispatch("pr", &a(&["-t", "@2", "--resolve"])), Plan::Resolve { id: 2 }));
    assert!(usage("pr", &["-t", "@2", "x", "open"]).starts_with("usage: gmux pr"));
    assert!(usage("pr", &["-t", "@2", "1"]).starts_with("usage: gmux pr"));
    assert_eq!(
        usage("pr", &["-t", "@2", "1", "bogus"]),
        "gmux pr: status must be open, draft, merged, or closed"
    );
}

#[test]
fn commands_without_a_target_are_explained() {
    for cmd in ["send-keys", "capture-pane", "group", "color", "pr", "rename", "close-window",
        "workspace", "screenshot", "import", "ssh-tmux", "browse"]
    {
        assert!(usage(cmd, &[]).starts_with(&format!("usage: gmux {cmd}")), "{cmd}");
    }
    assert!(usage("workspace", &["-t", "@1"]).starts_with("usage"));
    assert_eq!(
        usage("color", &["-t", "@2", "red"]),
        "gmux color: expected a #rrggbb color, got 'red'"
    );
    assert!(matches!(dispatch("vim", &a(&["x"])), Plan::NotApi));
}

#[test]
fn some_commands_work_on_this_side() {
    assert!(matches!(dispatch("wait-for", &a(&[])), Plan::WaitFor));
    assert!(matches!(dispatch("subscribe", &a(&["--output"])), Plan::Subscribe { output: true }));
    assert!(matches!(dispatch("subscribe", &a(&[])), Plan::Subscribe { output: false }));
    match dispatch("screenshot", &a(&["-t", "%7"])) {
        Plan::Screenshot { pane, out } => assert_eq!((pane, out.as_str()), (7, "gmux-pane7.bmp")),
        _ => panic!("expected a screenshot"),
    }
    match dispatch("screenshot", &a(&["-t", "%7", "-o", "x.bmp"])) {
        Plan::Screenshot { out, .. } => assert_eq!(out, "x.bmp"),
        _ => panic!("expected a screenshot"),
    }
    match dispatch("browse", &a(&["rust", "-x", "book"])) {
        Plan::Open { url } => assert_eq!(url, "https://duckduckgo.com/?q=rust+book"),
        _ => panic!("expected a page"),
    }
}

#[test]
fn the_first_word_decides_what_the_program_is() {
    assert!(matches!(route(&a(&[]), &hook()), Route::Window));
    assert!(matches!(route(&a(&["--daemon"]), &hook()), Route::Daemon));
    assert!(matches!(route(&a(&["-h"]), &hook()), Route::Help));
    assert!(matches!(route(&a(&["shell-integration"]), &hook()), Route::Snippet));
    assert!(matches!(route(&a(&["shell-integration", "--install"]), &hook()), Route::Install));
    assert!(matches!(route(&a(&["shell-integration", "x"]), &hook()), Route::Usage(_)));
    assert!(matches!(route(&a(&["hooks", "setup", "all"]), &hook()), Route::Hooks(w) if w == "all"));
    assert!(matches!(route(&a(&["hooks", "setup"]), &hook()), Route::Usage(_)));
    assert!(matches!(route(&a(&["_hook"]), &hook()), Route::Hook(None)));
    assert!(matches!(route(&a(&["_hook", "codex"]), &hook()), Route::Hook(Some(w)) if w == "codex"));
    assert!(matches!(route(&a(&["list-panes"]), &hook()), Route::Api(Plan::Call(Call::ListPanes))));
    assert!(matches!(route(&a(&["cmd.exe", "/k", "dir"]), &hook()), Route::Run(l) if l == "cmd.exe /k dir"));
    assert!(matches!(route(&a(&["notify", "--title", "T"]), &hook()), Route::Print(s) if s == "\u{1b}]777;notify;T;\u{7}"));
}

#[test]
fn the_default_shell_is_the_best_that_is_there() {
    assert_eq!(default_shell(true, true), "pwsh.exe -NoLogo");
    assert_eq!(
        default_shell(false, true),
        "C:\\Windows\\System32\\WindowsPowerShell\\v1.0\\powershell.exe -NoLogo"
    );
    assert_eq!(default_shell(false, false), "cmd.exe");
}

#[test]
fn notifications_are_escape_sequences() {
    assert_eq!(
        notify(&a(&["--title", "a;b", "--body", "c;d", "--urgency", "low"])),
        "\u{1b}]777;notify;a,b;c;d\u{7}"
    );
    assert_eq!(
        notify(&a(&["--body", "B", "--subtitle", "S"])),
        "\u{1b}]777;notify;;S — B\u{7}"
    );
    assert_eq!(notify(&a(&["--subtitle", "S"])), "\u{1b}]777;notify;;S\u{7}");
    assert_eq!(notify(&a(&["--body"])), "\u{1b}]777;notify;;\u{7}");
}

#[test]
fn hooks_answer_with_a_sequence_to_print() {
    assert_eq!(
        internal_hook(None, &hook(), r#"{"message": "done \u0007; now"}"#),
        r#"{"terminalSequence":"]777;notify;Any Agent;done ; now"}"#
    );
    assert_eq!(
        internal_hook(Some("codex"), &hook(), "not json"),
        r#"{"terminalSequence":"]777;notify;Codex;needs your attention"}"#
    );
    assert!(internal_hook(Some("gemini"), &hook(), "{}").contains("Gemini"));
}

#[test]
fn pull_requests_are_read_from_the_tool() {
    let json = r#"{"isDraft": true, "number": 42, "state": "OPEN", "url":"https://x.test/42"}"#;
    assert_eq!(json_number(json, "number"), Some(42));
    assert_eq!(json_string(json, "state").as_deref(), Some("OPEN"));
    assert_eq!(json_number(json, "missing"), None);
    assert_eq!(json_string(json, "number"), None);
    let r = resolve_pr(json).expect("all there");
    assert_eq!((r.number, r.status.as_str()), (42, "draft"));
    assert_eq!(r.url.as_deref(), Some("https://x.test/42"));
    assert!(resolve_pr("{}").is_none());
    assert_eq!(gmux_status_from_github(" merged ", true), Some("merged"));
    assert_eq!(gmux_status_from_github("closed", false), Some("closed"));
    assert_eq!(gmux_status_from_github("draft", false), None);
}

#[test]
fn results_are_printed() {
    let pane = |id: u64, active: bool, cwd: Option<&str>| PaneInfo {
        id,
        window: 1,
        active,
        title: "T".into(),
        cwd: cwd.map(str::to_string),
        cols: 80,
        rows: 24,
        attention: true,
    };
    assert_eq!(
        print_result(&ResultBody::Panes(vec![pane(3, true, Some("C:\\a")), pane(4, false, None)])),
        "%3\t@1\t80x24\t*!\tC:\\a\tT\n%4\t@1\t80x24\t!\t-\tT\n"
    );
    assert_eq!(
        print_result(&ResultBody::Hello { server_version: "1.2".into(), protocol: 1 }),
        "gmux 1.2 (protocol v1)\n"
    );
    assert_eq!(print_result(&ResultBody::Text("x".into())), "x\n");
    assert_eq!(print_result(&ResultBody::PaneId(9)), "%9\n");
    assert_eq!(print_result(&ResultBody::Busy(true)), "true\n");
    assert_eq!(print_result(&ResultBody::Done), "");
    let said = run(&Ok(Response::ok(1, ResultBody::Busy(false))));
    assert_eq!((said.code, said.out.as_str(), said.err.as_str()), (0, "false\n", ""));
    let said = run(&Ok(Response::err(1, "no pane %1".to_string())));
    assert_eq!((said.code, said.err.as_str()), (1, "gmux: no pane %1\n"));
    let said = run(&Ok(Response { id: 1, result: None, error: None }));
    assert_eq!((said.code, said.err.as_str()), (1, "gmux: empty response\n"));
    let said = run(&Err("unreachable".to_string()));
    assert_eq!((said.code, said.err.as_str()), (1, "gmux: unreachable\n"));
}

#[test]
fn waiting_needs_a_pane_and_one_condition() {
    assert!(Waiting::wait_for(&a(&["-t", "1", "--exit"]), false).is_some());
    assert!(Waiting::wait_for(&a(&["-t", "1", "--exit"]), true).is_none());
    assert!(Waiting::wait_for(&a(&["-t", "1", "--text", "x", "--exit"]), false).is_none());
    assert!(Waiting::wait_for(&a(&["-t", "1"]), false).is_none());
    assert!(Waiting::wait_for(&a(&["--exit"]), false).is_none());
}

#[test]
fn waiting_ends_when_its_condition_holds() {
    let mut w = Waiting::wait_for(&a(&["-t", "1", "--text", "ok"]), false).unwrap();
    assert_eq!(w.question(), Call::SearchPane { pane: 1, query: "ok".into() });
    let none = Response::ok(1, ResultBody::Matches(Vec::new()));
    assert_eq!(w.judge(Some(none), false), Verdict::Again { changed: false });
    let hit = Response::ok(1, ResultBody::Matches(vec![3]));
    assert_eq!(w.judge(Some(hit), false), Verdict::Over(0));
    let gone = Response::err(1, "no pane".to_string());
    assert_eq!(w.judge(Some(gone), false), Verdict::Over(1));
    assert_eq!(w.judge(None, false), Verdict::Over(1));

    let mut w = Waiting::wait_for(&a(&["-t", "1", "--exit"]), false).unwrap();
    assert_eq!(w.question(), Call::CapturePane { pane: 1, scrollback: None });
    let text = |t: &str| Some(Response::ok(1, ResultBody::Text(t.to_string())));
    assert_eq!(w.judge(text("x"), false), Verdict::Again { changed: false });
    assert_eq!(w.judge(Some(Response::err(1, "gone".to_string())), false), Verdict::Over(0));
    assert_eq!(w.judge(None, false), Verdict::Over(1), "no answer is no exit");

    let mut w = Waiting::wait_for(&a(&["-t", "1", "--idle", "2"]), true).unwrap();
    assert_eq!(w.judge(text("a"), true), Verdict::Again { changed: true });
    assert_eq!(w.judge(text("a"), false), Verdict::Again { changed: false });
    assert_eq!(w.judge(text("b"), true), Verdict::Again { changed: true });
    assert_eq!(w.judge(text("b"), true), Verdict::Over(0));
    assert_eq!(w.judge(None, true), Verdict::Over(1));
}

#[test]
fn pictures_are_bottom_up_bitmaps() {
    let _layout = "two pixels side by side above two others";
    let rgba = [1, 2, 3, 255, 4, 5, 6, 255, 7, 8, 9, 255, 10, 11, 12, 255];
    let out = write_bmp(2, 2, &rgba);
    assert_eq!(out.len(), 54 + 2 * 8);
    assert_eq!(&out[..6], &[0x42, 0x4d, 70, 0, 0, 0]);
    assert_eq!(&out[10..14], &[54, 0, 0, 0]);
    assert_eq!(&out[18..26], &[2, 0, 0, 0, 2, 0, 0, 0]);
    assert_eq!(&out[26..30], &[1, 0, 24, 0]);
    assert_eq!(&out[54..], &[9, 8, 7, 12, 11, 10, 0, 0, 3, 2, 1, 6, 5, 4, 0, 0]);
    assert_eq!(picture_size(80, 24), (960, 576));
    assert_eq!(picture_size(0, 0), (1, 1));
}
