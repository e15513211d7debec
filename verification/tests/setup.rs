//! Setting up agents and shells, and what surrounds a program.
use gmux::conpty::{analyze, is_subsequence, parse, printable, Ending, Ev};
use gmux::console::{build_env_block, is_busy, start_dir};
use gmux::crash::{report_name, write_report};
use gmux::hooks::{
    config_file, setup, setup_aider, setup_claude, setup_codex, setup_gemini, Agent, HookAgent,
};
use gmux::json::{parse as parse_json, Json};
use gmux::mux::PtySize;
use gmux::pipe::{
    access_rule, after_refusal, is_connected, next_backoff, pipe_name_for_user, pipe_path, Retry,
    BACKOFF_MAX, BACKOFF_START, ERROR_NO_DATA, ERROR_PIPE_BUSY, ERROR_PIPE_CONNECTED,
};
use gmux::proto::{
    frame, is_wire_default_bg, is_wire_default_fg, is_zero_u8, next_line, read_line,
    wire_default_bg, wire_default_fg, LineError, MAX_LINE, SERVER_VERSION,
};
use gmux::shell_integration::{block, install, install_into, BEGIN_MARKER, END_MARKER};

fn hook() -> HookAgent {
    HookAgent {
        word: "any-agent".to_string(),
        alias: "any".to_string(),
        folder: ".any".to_string(),
        title: "Any Agent".to_string(),
    }
}

#[test]
fn codex_sets_osc9_and_preserves_existing() {
    let change = setup_codex("model = \"o1\"\n[tui]\ntheme = \"dark\"\n").unwrap().ok().unwrap();
    let out = change.text.unwrap();
    assert!(out.contains("notification_method = \"osc9\""), "{out}");
    assert!(out.contains("model = \"o1\""), "must preserve existing keys: {out}");
    assert!(out.contains("theme = \"dark\""), "{out}");
    assert_eq!(change.done, "codex: set tui.notification_method=\"osc9\" in ");
    assert!(setup_codex("tui = 3\n").is_none(), "no table to set it in");
    assert!(setup_codex("= nonsense").unwrap().is_err());
    let fresh = setup_codex("").unwrap().ok().unwrap().text.unwrap();
    assert!(fresh.contains("notification_method = \"osc9\""), "{fresh}");
}

#[test]
fn gemini_sets_method_in_fresh_file() {
    let out = setup_gemini("").ok().unwrap().text.unwrap();
    assert!(out.contains("\"notificationMethod\": \"osc777\""), "{out}");
}

#[test]
fn gemini_keeps_what_is_there() {
    let out = setup_gemini(r#"{"general": {"x": 1}, "y": [true, null]}"#).ok().unwrap();
    let j = parse_json(&out.text.unwrap()).unwrap();
    let general = j.get("general").unwrap();
    assert_eq!(general.get_u64("x"), Some(1));
    assert_eq!(general.get_bool("enableNotifications"), Some(true));
    assert_eq!(general.get_str("notificationMethod").as_deref(), Some("osc777"));
    assert!(matches!(j.get("y"), Some(Json::Array(v)) if v.len() == 2));
    assert_eq!(
        setup_gemini(r#"{"general": 3}"#).err().as_deref(),
        Some("general is not an object"),
        "success is told only of a change that was made"
    );
    assert_eq!(
        setup_gemini("[1]").err().as_deref(),
        Some("expected a JSON object at the top level")
    );
    assert!(setup_gemini("{").err().unwrap().contains("EOF"));
}

fn notification_hooks(text: &str) -> usize {
    let j = parse_json(text).unwrap();
    match j.get("hooks").and_then(|h| h.get("Notification")) {
        Some(Json::Array(v)) => v.len(),
        other => panic!("expected a list, got {}", other.is_some()),
    }
}

#[test]
fn claude_adds_notification_hook_idempotently() {
    let first = setup_claude("", &hook()).ok().unwrap();
    assert!(first.done.contains("added"), "{}", first.done);
    let out = first.text.unwrap();
    assert!(out.contains("gmux _hook any-agent"), "{out}");
    let second = setup_claude(&out, &hook()).ok().unwrap();
    assert!(second.done.contains("kept existing"), "{}", second.done);
    let again = second.text.unwrap();
    assert_eq!(notification_hooks(&again), 1, "hook must not be duplicated");
    assert_eq!(again, out);
}

#[test]
fn claude_preserves_unrelated_settings() {
    let out = setup_claude("{\"model\":\"opus\",\"theme\":\"dark\"}", &hook()).ok().unwrap().text.unwrap();
    let v = parse_json(&out).unwrap();
    assert_eq!(v.get_str("model").as_deref(), Some("opus"));
    assert_eq!(v.get_str("theme").as_deref(), Some("dark"));
    assert_eq!(notification_hooks(&out), 1);
}

#[test]
fn claude_settings_of_another_shape_are_refused() {
    assert_eq!(
        setup_claude("{\"hooks\": []}", &hook()).err().as_deref(),
        Some("hooks is not an object")
    );
    assert_eq!(
        setup_claude("{\"hooks\": {\"Notification\": 1}}", &hook()).err().as_deref(),
        Some("hooks.Notification is not an array")
    );
}

#[test]
fn unknown_agent_errors() {
    assert!(setup("nope", &hook()).is_err());
    assert_eq!(
        setup("nope", &hook()).err().unwrap(),
        "unknown agent 'nope' (expected: any-agent, codex, gemini, aider, all)"
    );
}

#[test]
fn agents_are_named() {
    assert_eq!(setup("any", &hook()).ok(), Some(vec![Agent::Claude]));
    assert_eq!(setup("codex", &hook()).ok(), Some(vec![Agent::Codex]));
    assert_eq!(
        setup("all", &hook()).ok(),
        Some(vec![Agent::Claude, Agent::Codex, Agent::Gemini, Agent::Aider])
    );
    assert_eq!(config_file(Agent::Aider, &hook()), (String::new(), ".aider.conf.yml".to_string()));
    assert_eq!(config_file(Agent::Claude, &hook()), (".any".to_string(), "settings.json".to_string()));
}

#[test]
fn aider_gets_its_command_once() {
    let first = setup_aider("model: x");
    let text = first.text.unwrap();
    assert_eq!(
        text,
        "model: x\nnotifications: true\nnotifications-command: gmux notify --title aider --body \"needs input\"\n"
    );
    let second = setup_aider(&text);
    assert!(second.text.is_none());
    assert_eq!(second.done, "aider: notifications-command already present in ");
}

#[test]
fn snippet_emits_osc_markers_only_inside_gmux() {
    let b = block();
    assert!(b.contains("$([char]27)]133;A$([char]7)"), "{b}");
    assert!(b.contains("$([char]27)]9;9;"), "{b}");
    assert!(b.contains("$env:TERM_PROGRAM -eq 'gmux'"), "{b}");
}

#[test]
fn install_into_is_idempotent() {
    let (first, said) = install_into("");
    assert!(said.contains("added"), "{said}");
    let (out, said) = install_into(&first);
    assert!(said.contains("replaced"), "{said}");
    assert_eq!(out.matches(BEGIN_MARKER).count(), 1, "block must not be duplicated: {out}");
    assert_eq!(out.matches(END_MARKER).count(), 1, "{out}");
    assert_eq!(out, first);
}

#[test]
fn install_into_replaces_stale_block_and_preserves_rest() {
    let (out, _) = install_into(&format!(
        "Set-Alias g git\n{BEGIN_MARKER}\n# old snippet\n{END_MARKER}\noh-my-posh init\n"
    ));
    assert!(!out.contains("# old snippet"), "stale block must be replaced: {out}");
    assert!(out.contains("]133;A"), "{out}");
    assert!(out.contains("Set-Alias g git"), "must preserve content before: {out}");
    assert!(out.contains("oh-my-posh init"), "must preserve content after: {out}");
}

#[test]
fn install_creates_pwsh7_profile_when_no_dirs_exist() {
    assert_eq!(install(false, false), ["PowerShell"]);
    assert_eq!(install(false, true), ["WindowsPowerShell"]);
}

#[test]
fn install_targets_both_profiles_when_dirs_exist() {
    assert_eq!(install(true, true), ["PowerShell", "WindowsPowerShell"]);
}

#[test]
fn write_report_appends_message_location_and_backtrace() {
    let out = write_report("test", 17, "boom", "src/main.rs:1:1", "0: main");
    assert!(out.contains("message:  boom"), "{out}");
    assert!(out.contains("location: src/main.rs:1:1"), "{out}");
    assert!(out.contains(SERVER_VERSION), "{out}");
    assert!(out.starts_with("--- gmux 0.1.0 test panic (unix 17) ---\n"), "{out}");
    assert!(out.ends_with("0: main\n"), "{out}");
    assert_eq!(report_name("gui", 42), "gui-42.txt");
}

#[test]
fn env_block_adds_vars_and_inherits() {
    let inherited = vec![("Path".to_string(), "C:\\bin".to_string())];
    let added = vec![("GMUX_TEST_VAR".to_string(), "hello-42".to_string())];
    let block = build_env_block(&inherited, &added);
    let s = String::from_utf16_lossy(&block);
    assert!(s.contains("GMUX_TEST_VAR=hello-42"), "addition missing");
    assert!(s.to_uppercase().contains("PATH="), "did not inherit process env (PATH)");
    assert_eq!(*block.last().unwrap(), 0, "block must be null-terminated");
}

#[test]
fn programs_start_somewhere_and_may_be_busy() {
    assert_eq!(start_dir(Some("C:\\x")), Some("C:\\x"));
    assert_eq!(start_dir(Some("")), None);
    assert_eq!(start_dir(None), None);
    assert!(!is_busy(1) && is_busy(2));
    assert_eq!(PtySize { cols: 80, rows: 24 }.coord(), (80, 24));
}

#[test]
fn pipe_name_includes_sanitized_username() {
    let name = pipe_name_for_user("gmux", Some("dom\\us er-1"));
    assert!(name.starts_with("gmux."), "expected base prefix, got {name}");
    assert_eq!(name, "gmux.dom_us_er-1");
    assert_eq!(pipe_name_for_user("gmux", None), "gmux.unknown");
    let path = String::from_utf16_lossy(&pipe_path("gmux.me"));
    assert_eq!(path, "\\\\.\\pipe\\gmux.me\0");
}

#[test]
fn pipe_dacl_is_system_and_current_user_only() {
    let rule = access_rule("S-1-5-21-7");
    assert!(rule.contains("S-1-5-21-7") && rule.contains("SY"), "{rule}");
}

#[test]
fn connecting_is_patient_but_not_forever() {
    assert!(is_connected(true, 0));
    assert!(is_connected(false, ERROR_PIPE_CONNECTED));
    assert!(is_connected(false, ERROR_NO_DATA), "what a client wrote before it left still counts");
    assert!(!is_connected(false, ERROR_PIPE_BUSY));
    assert_eq!(next_backoff(BACKOFF_START), 2 * BACKOFF_START);
    assert_eq!(next_backoff(BACKOFF_MAX), BACKOFF_MAX);
    assert!(matches!(after_refusal(ERROR_PIPE_BUSY, false), Retry::Wait));
    assert!(matches!(after_refusal(5, false), Retry::Fail));
}

#[test]
fn eof_returns_none_and_oversize_errors() {
    assert!(matches!(read_line(b""), Ok(None)));
    let big = vec![b'x'; MAX_LINE + 10];
    assert!(matches!(read_line(&big), Err(LineError::TooLong)));
    assert!(!LineError::TooLong.message().is_empty());
    assert!(matches!(read_line(b"{}\n"), Ok(Some(s)) if s == "{}"));
    assert_eq!(frame("{}".to_string()), "{}\n");
    assert_eq!(next_line(b"ab\ncd"), 3);
}

#[test]
fn default_colors_are_left_out() {
    assert_eq!(wire_default_fg(), [0xcc, 0xcc, 0xcc]);
    assert_eq!(wire_default_bg(), [0x11, 0x11, 0x11]);
    assert!(is_wire_default_fg(&[0xcc; 3]) && !is_wire_default_fg(&[0; 3]));
    assert!(is_wire_default_bg(&[0x11; 3]) && !is_wire_default_bg(&[0; 3]));
    assert!(is_zero_u8(&0) && !is_zero_u8(&1));
}

#[test]
fn console_output_is_taken_apart() {
    let evs = parse(b"hi\x1b]9;a;b\x07mid\x1b]99;x\x1b\\\x1b]7;open");
    assert_eq!(
        evs,
        vec![
            Ev::Text("hi".into()),
            Ev::Osc { num: "9".into(), payload: "a;b".into(), ending: Ending::Bel },
            Ev::Text("mid".into()),
            Ev::Osc { num: "99".into(), payload: "x".into(), ending: Ending::St },
            Ev::Text("\u{1b}]7;open".into()),
        ]
    );
    assert_eq!(printable(b"a\x1b\x07\r\n\x01~"), "a<ESC><BEL>\\r\\n<01>~");
}

#[test]
fn a_console_passes_where_all_arrive_in_order() {
    let good = b"\x1b]9;gmux osc9 message\x07\x1b]777;notify;gmux osc777 title;b\x07\x1b]99;i=1;gmux osc99\x1b\\";
    let a = analyze(good);
    assert!(a.pass && a.outcome.ordered);
    assert!(a.record.contains("verdict=GO\n"), "{}", a.record);
    assert!(a.record.contains("  OSC 9 [BEL] \"gmux osc9 message\"\n"), "{}", a.record);
    assert!(a.transcript.contains("OSC9 -> OSC777 -> OSC99"), "{}", a.transcript);
    assert!(a.transcript.contains("  OSC 9    [BEL]  payload="), "{}", a.transcript);
    let swapped = b"\x1b]777;notify;gmux osc777 title;b\x07\x1b]9;gmux osc9 message\x07\x1b]99;i=1;gmux osc99\x1b\\";
    let a = analyze(swapped);
    assert!(a.outcome.osc9 && a.outcome.osc777 && a.outcome.osc99 && !a.outcome.ordered);
    assert!(!a.pass && a.record.contains("verdict=NO-GO"));
}

#[test]
fn subsequences_need_not_be_adjacent() {
    let v = |s: &[&str]| s.iter().map(|x| x.to_string()).collect::<Vec<_>>();
    assert!(is_subsequence(&v(&["a", "c"]), &v(&["a", "b", "c"])));
    assert!(!is_subsequence(&v(&["c", "a"]), &v(&["a", "b", "c"])));
    assert!(is_subsequence(&v(&[]), &v(&[])));
}

#[test]
fn a_stray_end_marker_brings_no_second_block() {
    let stray = format!("{END_MARKER}\n");
    let (once, added) = install_into(&stray);
    assert!(added.contains("added"));
    let (twice, replaced) = install_into(&once);
    assert!(replaced.contains("replaced"));
    assert_eq!(once, twice);
    assert_eq!(twice.matches(BEGIN_MARKER).count(), 1);
    assert!(twice.starts_with(&stray), "what was there stays");
}

#[test]
fn a_new_block_is_closed_once() {
    let (out, said) = install_into("Set-Alias ll Get-ChildItem\n");
    assert!(said.contains("added"));
    assert_eq!(out.matches(BEGIN_MARKER).count(), 1);
    assert_eq!(out.matches(END_MARKER).count(), 1);
    let (again, _) = install_into(&out);
    assert_eq!(again.matches(END_MARKER).count(), 1);
}

#[test]
fn every_addition_is_set_in_the_end() {
    let v = |k: &str, x: &str| (k.to_string(), x.to_string());
    let inherited = vec![v("Path", "C:\\bin"), v("GMUX", "old"), v("Zed", "z")];
    let added = vec![v("GMUX", "new"), v("Alpha", "1"), v("Alpha", "2")];
    let block = build_env_block(&inherited, &added);
    let text = String::from_utf16(&block).unwrap();
    let entries: Vec<&str> = text.split('\0').filter(|e| !e.is_empty()).collect();
    assert_eq!(entries, ["Alpha=2", "GMUX=new", "Path=C:\\bin", "Zed=z"]);
}
