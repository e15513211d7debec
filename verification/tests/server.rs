//! The server: requests, events, rendering, configuration and imports.
use gmux::mux::pane::PtySize;
use gmux::mux::{Ids, Node, Pane, PaneId, PrBadge, PrStatus, Session, SplitDir, Window, WindowId};
use gmux::proto::{
    Call, LayoutWire, NotifyWire, PrWire, Request, Response, ResultBody, CELL_WIDE, MOUSE_MOTION,
    MOUSE_SGR, PROTOCOL_VERSION, SERVER_VERSION,
};
use gmux::server::config::{
    persist_screen_from_json, pr_badge_from_json, pr_refresh_ticks, pr_refresh_ticks_from_json,
};
use gmux::server::drain::{drain, note_progress, sweep_progress};
use gmux::server::import::{import_skipped, project_dirs, Entry, MAX_IMPORT};
use gmux::server::render::{capture, grid_wire, list_panes, pane_title, window_progress};
use gmux::server::state::{attach_failed, start_failed, written, Place, Server, Step};
use gmux::server::wires::{
    clipboard_notify, exit_notify, output_notify, push_for, restore_replay, subscription,
};
use gmux::vt::ProgressState;

fn cut(extent: u32, ratio: u32) -> u32 {
    (((extent as f32) * f32::from_bits(ratio)) as u32).min(extent)
}

fn adjust(ratio: u32, delta: u32) -> u32 {
    (f32::from_bits(ratio) + f32::from_bits(delta)).clamp(0.1, 0.9).to_bits()
}

fn share(first: u64, span: u64) -> u32 {
    (((first as f64 + 0.5) / span as f64).clamp(0.0, 1.0) as f32).to_bits()
}

fn even(parts: u64, of: u64) -> u32 {
    (parts as f32 / of as f32).to_bits()
}

fn remote(ids: &mut Ids, remote_id: u64) -> Pane {
    let id = PaneId::allocate(ids);
    Pane::remote(id, remote_id, 80, 24)
}

fn server() -> (Server, u64) {
    let mut ids = Ids::new();
    let pane = remote(&mut ids, 1);
    let pid = pane.id.0;
    let session = Session::start(&mut ids, "t".to_string(), pane);
    (Server::new(session, ids, "pwsh".to_string(), true, 0), pid)
}

fn step(s: &mut Server, id: u64, call: Call) -> Step {
    s.handle(&Request { id, call }, &cut, &adjust)
}

fn ask(s: &mut Server, id: u64, call: Call) -> Response {
    match step(s, id, call) {
        Step::Reply(r) => r,
        Step::Resize { reply, .. } => reply,
        _ => panic!("expected an answer"),
    }
}

fn layout(s: &mut Server) -> LayoutWire {
    let call = Call::GetLayout { w: 800, h: 600 };
    match step(s, 1, call) {
        Step::Branches { id, w, h, dirs } => {
            let found: Vec<Option<String>> = dirs.iter().map(|_| None).collect();
            match s.layout_reply(id, w, h, &found, &cut).result {
                Some(ResultBody::Layout(l)) => l,
                other => panic!("expected a layout, got {other:?}"),
            }
        }
        _ => panic!("expected to be asked for branches"),
    }
}

fn batch(s: &mut Server) -> Vec<NotifyWire> {
    s.tick(Vec::new(), &share, &even).batch
}

#[test]
fn hello_returns_version_without_a_pane() {
    let resp = Response::ok(
        1,
        ResultBody::Hello { server_version: "0.0.0".into(), protocol: PROTOCOL_VERSION },
    );
    assert!(resp.error.is_none());
}

#[test]
fn a_server_says_hello() {
    let (mut s, _) = server();
    let r = ask(&mut s, 3, Call::Hello { client_version: "9.9.9".into() });
    assert_eq!(r.id, 3);
    assert_eq!(
        r.result,
        Some(ResultBody::Hello {
            server_version: SERVER_VERSION.to_string(),
            protocol: PROTOCOL_VERSION
        })
    );
}

#[test]
fn unknown_method_targets_error_path_shape() {
    let req = Request { id: 9, call: Call::CapturePane { pane: 999, scrollback: None } };
    let resp = Response::err(req.id, "no pane %999".to_string());
    assert_eq!(resp.id, 9);
    assert!(resp.result.is_none());
    let (mut s, _) = server();
    let same = match s.handle(&req, &cut, &adjust) {
        Step::Reply(r) => r,
        _ => panic!("expected an answer"),
    };
    assert_eq!(same, resp);
}

#[test]
fn browse_queues_and_poll_browse_drains_in_order() {
    let (mut server, _) = server();
    let b1 = ask(&mut server, 1, Call::Browse { url: "https://a.test".into() });
    assert_eq!(b1.result, Some(ResultBody::Done));
    ask(&mut server, 2, Call::Browse { url: "https://b.test".into() });

    let drained = ask(&mut server, 3, Call::PollBrowse);
    assert_eq!(
        drained.result,
        Some(ResultBody::Browses(vec!["https://a.test".into(), "https://b.test".into()]))
    );
    let again = ask(&mut server, 4, Call::PollBrowse);
    assert_eq!(again.result, Some(ResultBody::Browses(Vec::new())));
}

#[test]
fn close_window_drops_window_and_errors_out_of_range() {
    let (mut server, ida) = server();
    let ida = PaneId(ida);
    let b = remote(&mut server.ids, 2);
    let idb = b.id;
    server.session.add_window(&mut server.ids, b);
    assert_eq!(server.session.windows().len(), 2);

    let first_wid = server.session.windows()[0].id.0;
    let resp = ask(&mut server, 1, Call::CloseWindow { id: first_wid });
    assert_eq!(resp.result, Some(ResultBody::Done));
    assert_eq!(server.session.windows().len(), 1);
    assert!(server.session.pane(ida).is_none(), "closed window's pane is dropped");
    assert!(server.session.pane(idb).is_some(), "surviving window's pane remains");

    let resp = ask(&mut server, 2, Call::CloseWindow { id: first_wid });
    assert_eq!(resp.result, Some(ResultBody::Done));
    assert_eq!(server.session.windows().len(), 1);

    let last_wid = server.session.windows()[0].id.0;
    let resp = ask(&mut server, 3, Call::CloseWindow { id: last_wid });
    assert_eq!(resp.result, Some(ResultBody::Done));
    assert_eq!(server.session.windows().len(), 1, "last window survives a close request");
    assert!(server.session.pane(idb).is_some());
}

#[test]
fn prompt_offsets_route_through_pane() {
    let (mut server, pid) = server();
    let p = server.session.pane_mut(PaneId(pid)).unwrap();
    p.push_output(b"\x1b]133;A\x07p1> build\r\nok\r\n\x1b]133;A\x07p2> ");
    let resp = ask(&mut server, 1, Call::PromptOffsets { pane: pid });
    match resp.result {
        Some(ResultBody::Matches(offs)) => {
            assert_eq!(offs.len(), 2, "both prompt marks reported: {offs:?}");
            assert!(offs[0] < offs[1], "nearest-to-bottom first: {offs:?}");
        }
        other => panic!("expected Matches, got {other:?}"),
    }
    let miss = ask(&mut server, 2, Call::PromptOffsets { pane: 999 });
    assert!(miss.error.is_some());
}

#[test]
fn busy_queries_route_and_default_false() {
    let (mut server, pid) = server();
    let resp = ask(&mut server, 1, Call::PaneBusy { pane: pid });
    assert_eq!(resp.result, Some(ResultBody::Busy(false)), "remote panes are never busy");
    let miss = ask(&mut server, 2, Call::PaneBusy { pane: 999 });
    assert!(miss.error.is_some());
    let wid = server.session.windows()[0].id.0;
    let resp = ask(&mut server, 3, Call::WindowBusy { id: wid });
    assert_eq!(resp.result, Some(ResultBody::Busy(false)));
    let gone = ask(&mut server, 4, Call::WindowBusy { id: 12345 });
    assert_eq!(gone.result, Some(ResultBody::Busy(false)), "gone window id = nothing to protect");
}

#[test]
fn a_local_pane_is_busy_while_children_run() {
    let mut ids = Ids::new();
    let id = PaneId::allocate(&mut ids);
    let pane = Pane::local(id, PtySize { cols: 80, rows: 24 }, None);
    let session = Session::start(&mut ids, "t".to_string(), pane);
    let mut s = Server::new(session, ids, "pwsh".to_string(), true, 0);
    s.set_busy(id, true);
    let r = ask(&mut s, 1, Call::PaneBusy { pane: id.0 });
    assert_eq!(r.result, Some(ResultBody::Busy(true)));
    let wid = s.session.windows()[0].id.0;
    let r = ask(&mut s, 2, Call::WindowBusy { id: wid });
    assert_eq!(r.result, Some(ResultBody::Busy(true)));
}

#[test]
fn set_palette_applies_to_existing_panes() {
    let (mut server, pid) = server();
    let call = Call::SetPalette {
        fg: [1, 2, 3],
        bg: [4, 5, 6],
        ansi: vec![[0, 0, 0], [0xde, 0xad, 0xbe]],
    };
    assert_eq!(ask(&mut server, 1, call).result, Some(ResultBody::Done));

    server.session.pane_mut(PaneId(pid)).unwrap().push_output(b"\x1b[31mX\x1b[0m");
    let snap = server.session.pane(PaneId(pid)).unwrap().snapshot();
    let fg = snap.cells[0][0].fg;
    assert_eq!((fg.r, fg.g, fg.b), (0xde, 0xad, 0xbe));
}

#[test]
fn osc94_progress_aggregates_into_window() {
    let mut ids = Ids::new();
    let a = remote(&mut ids, 1);
    let b = remote(&mut ids, 2);
    let (ida, idb) = (a.id, b.id);
    let root = Node::Split {
        dir: SplitDir::Horizontal,
        ratio: 0.5f32.to_bits(),
        a: Box::new(Node::Leaf(ida)),
        b: Box::new(Node::Leaf(idb)),
    };
    let win = Window::from_parts(&mut ids, vec![a, b], root, ida);
    let mut session = Session::from_windows(&mut ids, "t".to_string(), vec![win], 0);

    session.pane_mut(ida).unwrap().push_output(b"\x1b]9;4;1;42\x07");
    session.pane_mut(idb).unwrap().push_output(b"\x1b]9;4;1;80\x07");
    let mut progress = Vec::new();
    let d = drain(&mut session);
    note_progress(&mut progress, &d.progress);
    assert_eq!(window_progress(&session.windows()[0], &progress), (Some(42), false));

    session.pane_mut(ida).unwrap().push_output(b"\x1b]9;4;2;0\x07");
    let d = drain(&mut session);
    note_progress(&mut progress, &d.progress);
    assert_eq!(window_progress(&session.windows()[0], &progress).1, true);

    session.pane_mut(ida).unwrap().push_output(b"\x1b]9;4;0;0\x07");
    session.pane_mut(idb).unwrap().push_output(b"\x1b]9;4;0;0\x07");
    let d = drain(&mut session);
    note_progress(&mut progress, &d.progress);
    assert_eq!(window_progress(&session.windows()[0], &progress), (None, false));
}

#[test]
fn progress_entries_swept_for_vanished_panes() {
    let mut ids = Ids::new();
    let gone = remote(&mut ids, 9).id;
    let live = remote(&mut ids, 1);
    let live_id = live.id;
    let win = Window::from_parts(&mut ids, vec![live], Node::Leaf(live_id), live_id);
    let session = Session::from_windows(&mut ids, "t".to_string(), vec![win], 0);
    let mut progress = vec![
        (gone.0, (ProgressState::Value, Some(50))),
        (live_id.0, (ProgressState::Value, Some(10))),
    ];
    sweep_progress(&mut progress, &session);
    assert!(!progress.iter().any(|e| e.0 == gone.0), "vanished pane's entry must be swept");
    assert!(progress.iter().any(|e| e.0 == live_id.0), "live pane's entry must survive");
}

#[test]
fn persist_screen_config_parse() {
    assert!(persist_screen_from_json(r#"{"persist_screen": true}"#));
    assert!(!persist_screen_from_json(r#"{"persist_screen": false}"#));
    assert!(persist_screen_from_json(r#"{"font_px": 14}"#), "absent key defaults true");
    assert!(persist_screen_from_json("not json at all"), "malformed defaults true");
    assert!(!persist_screen_from_json("\u{feff}{\"persist_screen\": false}"), "BOM is stripped");
    assert!(persist_screen_from_json(r#"{"persist_screen": "no"}"#));
}

#[test]
fn close_pane_id_targets_that_pane() {
    let (mut server, first_id) = server();
    let second = remote(&mut server.ids, 2);
    let second_id = second.id.0;
    server.session.active_window_mut().unwrap().split(SplitDir::Horizontal, second);
    assert_eq!(server.session.pane_count(), 2);

    let resp = ask(&mut server, 1, Call::ClosePaneId { pane: 999_999 });
    assert_eq!(resp.result, Some(ResultBody::Done));
    assert_eq!(server.session.pane_count(), 2, "an unknown id must not close anything");

    let resp = ask(&mut server, 2, Call::ClosePaneId { pane: first_id });
    assert_eq!(resp.result, Some(ResultBody::Done));
    assert_eq!(server.session.pane_count(), 1);
    assert!(server.session.pane(PaneId(second_id)).is_some(), "the other pane survived");
}

fn entry(name: &str, is_dir: bool, has_git: bool) -> Entry {
    Entry {
        path: format!("C:\\p\\{name}"),
        name: Some(name.to_string()),
        is_dir,
        has_git,
    }
}

#[test]
fn scan_finds_git_projects_and_skips_the_rest() {
    let entries = vec![
        entry("beta", true, true),
        entry("alpha", true, true),
        entry("notes", true, false),
        entry(".hidden", true, true),
        entry("readme.txt", false, false),
    ];
    assert_eq!(
        project_dirs(&entries, false),
        ["C:\\p\\alpha", "C:\\p\\beta"],
        "git projects only, sorted"
    );
    assert_eq!(
        project_dirs(&entries, true),
        ["C:\\p\\alpha", "C:\\p\\beta", "C:\\p\\notes"],
        "--all adds plain folders, still no dot-folders"
    );
    assert!(project_dirs(&Vec::new(), true).is_empty());
}

#[test]
fn an_import_opens_what_is_new_up_to_a_cap() {
    let (mut s, _) = server();
    let wid = s.session.windows()[0].id.0;
    ask(&mut s, 1, Call::SetWorkspaceDir { id: wid, dir: "C:\\p\\d0".into() });
    let candidates: Vec<String> = (0..MAX_IMPORT + 3).map(|i| format!("C:\\p\\d{i}")).collect();
    let mut import = s.begin_import(8, candidates);
    let mut opened = 0;
    while let Some(dir) = import.next() {
        let pane = s.reserve_pane();
        s.add_window(pane, Some(dir));
        import.opened();
        opened += 1;
    }
    assert_eq!(opened, MAX_IMPORT);
    let r = import.finish();
    assert_eq!(r.id, 8);
    assert_eq!(
        r.result,
        Some(ResultBody::Imported { created: MAX_IMPORT, already_open: 1, capped: 2 })
    );
    assert_eq!(s.session.window_count(), MAX_IMPORT + 1);
    match step(&mut s, 9, Call::ImportWorkspaces { dir: "C:\\p".into(), all: true }) {
        Step::Scan { id, dir, all } => assert_eq!((id, dir.as_str(), all), (9, "C:\\p", true)),
        _ => panic!("an import lists its directory first"),
    }
}

#[test]
fn workspace_dir_is_what_new_panes_inherit() {
    let mut ids = Ids::new();
    let pane = remote(&mut ids, 1);
    let mut session = Session::start(&mut ids, "t".to_string(), pane);
    let wid = session.windows()[0].id;
    assert_eq!(session.windows()[0].workspace_dir(), None, "unanchored by default");

    session.window_mut(wid).unwrap().set_workspace_dir(r"C:\proj".into());
    assert_eq!(
        session.active_window().and_then(|w| w.workspace_dir()).as_deref(),
        Some(r"C:\proj")
    );

    session.window_mut(wid).unwrap().set_workspace_dir(String::new());
    assert_eq!(session.windows()[0].workspace_dir(), None);
}

#[test]
fn a_split_starts_in_the_directory_of_its_window() {
    let mut ids = Ids::new();
    let id = PaneId::allocate(&mut ids);
    let pane = Pane::local(id, PtySize { cols: 80, rows: 24 }, None);
    let session = Session::start(&mut ids, "t".to_string(), pane);
    let mut s = Server::new(session, ids, "pwsh".to_string(), true, 0);
    let wid = s.session.windows()[0].id.0;
    ask(&mut s, 1, Call::SetWorkspaceDir { id: wid, dir: "C:\\proj".into() });
    match step(&mut s, 2, Call::SplitPane { dir: "v".into(), command: None }) {
        Step::Start { id, pane, command, cwd, place } => {
            assert_eq!((id, command.as_str(), cwd.as_deref()), (2, "pwsh", Some("C:\\proj")));
            let r = s.started(id, pane, place);
            assert_eq!(r.result, Some(ResultBody::PaneId(pane.0)));
        }
        _ => panic!("a split starts a program"),
    }
    assert_eq!(s.session.pane_count(), 2);
    match step(&mut s, 3, Call::NewWindow { command: Some("cmd.exe".into()), cwd: Some("D:\\".into()) }) {
        Step::Start { id, pane, command, cwd, place } => {
            assert_eq!((id, command.as_str(), cwd.as_deref()), (3, "cmd.exe", Some("D:\\")));
            assert!(matches!(place, Place::Window(Some(_))));
            s.started(id, pane, place);
        }
        _ => panic!("a window starts a program"),
    }
    assert_eq!(s.session.window_count(), 2);
    assert_eq!(s.session.windows()[1].workspace_dir().as_deref(), Some("D:\\"));
    assert!(start_failed(4, "no").error.is_some());
}

#[test]
fn pr_refresh_config_parse() {
    assert_eq!(pr_refresh_ticks_from_json(r#"{}"#), 0, "absent key = off");
    assert_eq!(pr_refresh_ticks_from_json(r#"{"pr_refresh_secs": 0}"#), 0, "0 = off");
    assert_eq!(pr_refresh_ticks_from_json("not json"), 0, "malformed = off");
    assert_eq!(pr_refresh_ticks_from_json(r#"{"pr_refresh_secs": "5m"}"#), 0, "non-number = off");
    assert_eq!(pr_refresh_ticks_from_json(r#"{"pr_refresh_secs": 300}"#), 3000);
    assert_eq!(pr_refresh_ticks_from_json(r#"{"pr_refresh_secs": 1}"#), 300);
    assert_eq!(pr_refresh_ticks_from_json("\u{feff}{\"pr_refresh_secs\": 60}"), 600, "BOM stripped");
    assert_eq!(pr_refresh_ticks(Some(u64::MAX)), u32::MAX, "never rounds down to off");
}

#[test]
fn a_probe_answer_becomes_a_badge() {
    let b = pr_badge_from_json(
        r#"{"number": 12, "state": "OPEN", "isDraft": true, "url": "https://x.test/12"}"#,
    )
    .expect("all there");
    assert_eq!((b.number, b.status), (12, PrStatus::Draft));
    assert_eq!(b.url.as_deref(), Some("https://x.test/12"));
    assert!(pr_badge_from_json(r#"{"number": 12}"#).is_none());
    assert!(pr_badge_from_json("nonsense").is_none());
}

#[test]
fn pane_title_falls_back_then_prefers_osc_title() {
    let mut ids = Ids::new();
    let mut p = remote(&mut ids, 1);
    let id = p.id.0;
    assert_eq!(pane_title(&p, id), format!("%{id}"), "blank title/cwd -> %id fallback");
    p.push_output(b"\x1b]2;my-title\x07");
    assert_eq!(pane_title(&p, id), "my-title");
}

#[test]
fn exit_notify_uses_reserved_title() {
    let n = exit_notify(42);
    assert_eq!(n.title, "pane-exited");
    assert_eq!(n.pane, 42);
}

#[test]
fn subscriber_receives_pushed_batch() {
    let batch = vec![
        NotifyWire { pane: 3, title: "hi".into(), body: "there".into(), urgency: 2 },
        exit_notify(7),
    ];
    assert_eq!(push_for(&batch, true), Some(batch));
}

#[test]
fn dead_subscriber_is_dropped_and_empty_batch_is_noop() {
    assert_eq!(push_for(&Vec::new(), true), None, "an empty batch sends nothing");
    assert_eq!(push_for(&Vec::new(), false), None);
}

#[test]
fn subscribe_via_serve_connection_still_receives_pushes() {
    let (mut s, _) = server();
    let call = Call::Subscribe { output: true };
    let ack = ask(&mut s, 1, Call::Subscribe { output: true });
    assert!(ack.error.is_none(), "subscribe must ack ok");
    assert_eq!(subscription(&call, &ack), Some(true));
    assert_eq!(subscription(&Call::ListPanes, &ack), None);
    let refused = Response::err(1, "no".to_string());
    assert_eq!(subscription(&call, &refused), None);
    assert_eq!(push_for(&vec![output_notify(9)], true), Some(vec![output_notify(9)]));
}

#[test]
fn output_flag_gates_pane_output_wires() {
    let hi = || NotifyWire { pane: 1, title: "hi".into(), body: String::new(), urgency: 1 };
    let mixed = vec![hi(), output_notify(5)];
    assert_eq!(push_for(&mixed, true), Some(vec![hi(), output_notify(5)]), "output=true sees damage");
    assert_eq!(push_for(&mixed, false), Some(vec![hi()]), "output=false has damage stripped");
    let damage = vec![output_notify(7)];
    assert_eq!(push_for(&damage, true), Some(vec![output_notify(7)]));
    assert_eq!(push_for(&damage, false), None, "output=false skipped the damage-only tick");
}

#[test]
fn clipboard_set_reaches_non_output_subscriber() {
    let wire = clipboard_notify(4, "hi".into());
    assert_eq!(push_for(&vec![wire.copy()], false), Some(vec![wire]));
}

#[test]
fn search_pane_returns_matches_and_errors_on_unknown_pane() {
    let (mut server, pid) = server();
    let mut feed = String::new();
    for i in 0..30 {
        if i > 0 {
            feed.push_str("\r\n");
        }
        feed.push_str(&format!("s{i}"));
    }
    server.session.pane_mut(PaneId(pid)).unwrap().push_output(feed.as_bytes());

    let resp = ask(&mut server, 1, Call::SearchPane { pane: pid, query: "S27".into() });
    assert_eq!(resp.result, Some(ResultBody::Matches(vec![2])));

    let miss = ask(&mut server, 2, Call::SearchPane { pane: 999, query: "x".into() });
    assert!(miss.result.is_none());
    assert!(miss.error.is_some());
}

#[test]
fn grid_wire_maps_wide_flag() {
    let mut p = Pane::remote(PaneId(1), 1, 80, 24);
    p.push_output("中".as_bytes());
    let wire = grid_wire(&p, 0);
    assert_eq!(wire.cells[0].ch, '中');
    assert_eq!(wire.cells[0].flags & CELL_WIDE, CELL_WIDE, "wide char sets CELL_WIDE");
    assert_eq!(wire.cells[1].ch, ' ', "the cell after a wide char is a blank spacer");
    assert_eq!(wire.cells[1].flags & CELL_WIDE, 0, "spacer is not itself wide");
}

#[test]
fn grid_wire_maps_mouse_mode() {
    let mut p = Pane::remote(PaneId(1), 1, 80, 24);
    assert_eq!(grid_wire(&p, 0).mouse_mode, 0, "no mouse reporting by default");
    p.push_output(b"\x1b[?1003h\x1b[?1006h");
    assert_eq!(grid_wire(&p, 0).mouse_mode, MOUSE_MOTION | MOUSE_SGR);
}

#[test]
fn grid_wire_maps_cursor_style() {
    let mut p = Pane::remote(PaneId(1), 1, 80, 24);
    assert_eq!(grid_wire(&p, 0).cursor_style, 0, "default cursor style is block (0)");
    p.push_output(b"\x1b[6 q");
    assert_eq!(grid_wire(&p, 0).cursor_style, 6);
}

#[test]
fn rename_window_sets_and_clears_custom_name() {
    let (mut server, _) = server();
    let wid = server.session.windows()[0].id.0;
    assert_eq!(layout(&mut server).tabs[0].name, "shell", "derived name before rename");

    let resp = ask(&mut server, 1, Call::RenameWindow { id: wid, name: "backend".into() });
    assert_eq!(resp.result, Some(ResultBody::Done));
    assert_eq!(layout(&mut server).tabs[0].name, "backend");

    let resp = ask(&mut server, 2, Call::RenameWindow { id: wid, name: String::new() });
    assert_eq!(resp.result, Some(ResultBody::Done));
    assert_eq!(layout(&mut server).tabs[0].name, "shell");

    let resp = ask(&mut server, 3, Call::RenameWindow { id: 999_999, name: "x".into() });
    assert_eq!(resp.result, Some(ResultBody::Done));

    assert_eq!(layout(&mut server).tabs[0].group, None);
    let resp = ask(&mut server, 4, Call::GroupWindow { id: wid, group: "api".into() });
    assert_eq!(resp.result, Some(ResultBody::Done));
    assert_eq!(layout(&mut server).tabs[0].group.as_deref(), Some("api"));
    let resp = ask(&mut server, 5, Call::GroupWindow { id: wid, group: String::new() });
    assert_eq!(resp.result, Some(ResultBody::Done));
    assert_eq!(layout(&mut server).tabs[0].group, None);
    let resp = ask(&mut server, 6, Call::GroupWindow { id: 999_999, group: "x".into() });
    assert_eq!(resp.result, Some(ResultBody::Done));

    let resp = ask(&mut server, 7, Call::ColorWindow { id: wid, color: "#ff8800".into() });
    assert_eq!(resp.result, Some(ResultBody::Done));
    assert_eq!(layout(&mut server).tabs[0].color.as_deref(), Some("#ff8800"));
    let resp = ask(&mut server, 8, Call::ColorWindow { id: wid, color: String::new() });
    assert_eq!(resp.result, Some(ResultBody::Done));
    assert_eq!(layout(&mut server).tabs[0].color, None);

    let url = Some("https://x.test/pull/42".to_string());
    let resp = ask(
        &mut server,
        9,
        Call::SetPr { id: wid, number: 42, status: "open".into(), url: url.clone() },
    );
    assert_eq!(resp.result, Some(ResultBody::Done));
    assert_eq!(
        layout(&mut server).tabs[0].pr,
        Some(PrWire { number: 42, status: "open".into(), url })
    );
    let resp = ask(
        &mut server,
        10,
        Call::SetPr { id: wid, number: 42, status: "bogus".into(), url: None },
    );
    assert_eq!(resp.result, Some(ResultBody::Done));
    assert_eq!(layout(&mut server).tabs[0].pr, None, "an unparseable status clears the badge");
}

#[test]
fn osc52_clipboard_pushes_and_leaves_poll_empty() {
    let (mut server, pid) = server();
    server.session.pane_mut(PaneId(pid)).unwrap().push_output(b"\x1b]52;c;aGVsbG8=\x07");
    let batch = batch(&mut server);
    let clip: Vec<&NotifyWire> = batch.iter().filter(|n| n.title == "clipboard-set").collect();
    assert_eq!(clip.len(), 1, "one clipboard-set wire in the push batch");
    assert_eq!(clip[0].pane, pid);
    assert_eq!(clip[0].body, "hello", "base64 payload decoded to the clipboard text");
    let poll = ask(&mut server, 1, Call::PollNotifications);
    assert_eq!(poll.result, Some(ResultBody::Notifications(Vec::new())));
}

#[test]
fn notifications_are_queued_once() {
    let (mut s, pid) = server();
    s.session.pane_mut(PaneId(pid)).unwrap().push_output(b"\x1b]777;notify;agent;done\x07");
    let pushed = batch(&mut s);
    assert!(pushed.iter().any(|n| n.title == "agent" && n.body == "done"), "{pushed:?}");
    assert!(pushed.iter().any(|n| n.title == "pane-output"), "{pushed:?}");
    let poll = ask(&mut s, 1, Call::PollNotifications);
    match poll.result {
        Some(ResultBody::Notifications(n)) => {
            assert_eq!(n.len(), 1);
            assert_eq!((n[0].pane, n[0].title.as_str()), (pid, "agent"));
        }
        other => panic!("expected notifications, got {other:?}"),
    }
    let again = ask(&mut s, 2, Call::PollNotifications);
    assert_eq!(again.result, Some(ResultBody::Notifications(Vec::new())));
}

#[test]
fn dead_panes_leave_the_session() {
    let (mut s, pid) = server();
    let b = remote(&mut s.ids, 2);
    let idb = b.id;
    s.session.add_window(&mut s.ids, b);
    s.end_pane(idb);
    let pushed = batch(&mut s);
    assert!(pushed.contains(&exit_notify(idb.0)), "{pushed:?}");
    assert!(s.session.pane(idb).is_none());
    assert!(!s.all_exited());
    s.end_pane(PaneId(pid));
    batch(&mut s);
    assert!(s.all_exited());
    assert!(s.snapshot().windows.is_empty());
}

#[test]
fn keys_are_written_with_a_return() {
    let mut ids = Ids::new();
    let id = PaneId::allocate(&mut ids);
    let pane = Pane::local(id, PtySize { cols: 80, rows: 24 }, None);
    let session = Session::start(&mut ids, "t".to_string(), pane);
    let mut s = Server::new(session, ids, "pwsh".to_string(), true, 0);
    match step(&mut s, 5, Call::SendKeys { pane: id.0, text: "ls".into(), enter: true }) {
        Step::Write { id: req, pane, bytes } => {
            assert_eq!((req, pane, bytes.as_slice()), (5, id, b"ls\r".as_slice()));
        }
        _ => panic!("keys are written to the program"),
    }
    assert_eq!(written(5, None).result, Some(ResultBody::Done));
    assert!(written(5, Some("broken")).error.is_some());
    let miss = ask(&mut s, 6, Call::SendKeys { pane: 77, text: "x".into(), enter: false });
    assert!(miss.error.is_some());
}

#[test]
fn screens_can_be_captured() {
    let (mut s, pid) = server();
    s.feed_pane(PaneId(pid), b"one\r\ntwo");
    let r = ask(&mut s, 1, Call::CapturePane { pane: pid, scrollback: None });
    assert_eq!(r.result, Some(ResultBody::Text("one\ntwo".to_string())));
    let r = ask(&mut s, 2, Call::CapturePane { pane: pid, scrollback: Some(0) });
    assert_eq!(r.result, Some(ResultBody::Text("one\ntwo".to_string())));
    let r = ask(&mut s, 3, Call::CapturePane { pane: pid, scrollback: Some(23) });
    assert_eq!(r.result, Some(ResultBody::Text("two".to_string())), "the most recent lines");
    let pane = s.session.pane(PaneId(pid)).unwrap();
    assert_eq!(capture(pane, None), "one\ntwo");
}

#[test]
fn pane_lists_are_ordered_by_id() {
    let (mut s, pid) = server();
    let b = remote(&mut s.ids, 2);
    let idb = b.id.0;
    s.session.add_window(&mut s.ids, b);
    let listed = list_panes(&s.session);
    let ids: Vec<u64> = listed.iter().map(|p| p.id).collect();
    assert_eq!(ids, [pid, idb]);
    let windows: Vec<u64> = s.session.windows().iter().map(|w| w.id.0).collect();
    assert_eq!([listed[0].window, listed[1].window], windows[..], "windows by their stable id");
    assert!(listed[1].active);
    assert_eq!((listed[0].cols, listed[0].rows), (80, 24));
}

#[test]
fn focus_zoom_and_switching_answer_done() {
    let (mut s, pid) = server();
    let second = remote(&mut s.ids, 2);
    let second_id = second.id;
    s.session.active_window_mut().unwrap().split(SplitDir::Horizontal, second);
    ask(&mut s, 1, Call::FocusPane { dir: "left".into() });
    assert_eq!(s.session.active_window().unwrap().active_id(), PaneId(pid));
    ask(&mut s, 2, Call::FocusPaneId { pane: second_id.0 });
    assert_eq!(s.session.active_window().unwrap().active_id(), second_id);
    ask(&mut s, 3, Call::ToggleZoom);
    assert!(layout(&mut s).zoomed);
    ask(&mut s, 4, Call::ToggleZoom);
    ask(&mut s, 5, Call::SwapPanes { a: pid, b: second_id.0 });
    let panes = layout(&mut s).panes;
    assert_eq!((panes[0].id, panes[0].x), (second_id.0, 0));
    ask(&mut s, 6, Call::ResizeSplit { pane: second_id.0, dx: 0.2f32.to_bits(), dy: 0 });
    assert_eq!(layout(&mut s).panes[0].w, 560);
    let r = ask(&mut s, 7, Call::ResizeView {
        w: 800, h: 600, cell_w: 10, cell_h: 20, pane_chrome: 10, pane_chrome_y: 0,
    });
    assert_eq!(r.result, Some(ResultBody::Done));
    let grid = s.session.pane(second_id).unwrap().snapshot();
    assert_eq!((grid.cols, grid.rows), (55, 29));
}

#[test]
fn a_remote_mirror_is_fed_and_asked_through_the_server() {
    let (mut s, _) = server();
    match step(&mut s, 1, Call::SshTmux { target: "dev@box".into(), command: None }) {
        Step::Attach { id, command } => {
            assert_eq!(id, 1);
            assert!(command.contains("dev@box") && command.contains("tmux"), "{command}");
        }
        _ => panic!("an attachment starts a transport"),
    }
    assert!(attach_failed(1, "no").error.is_some());
    let (key, r) = s.attached(1);
    assert!(r.error.is_none());
    let sent = s.take_remote_commands(key).expect("it is there").join("\n");
    assert!(sent.contains("list-panes"), "{sent}");
    s.feed_remote(
        key,
        b"\x1bP1000p%begin 1 1 1\n%end 1 1 1\n%begin 1 2 1\n3.4\n%end 1 2 1\n%begin 1 3 1\n@1 %0 80 24\n%end 1 3 1\n",
    );
    batch(&mut s);
    let mirrored = s
        .session
        .windows()
        .iter()
        .flat_map(|w| w.panes().iter())
        .find(|p| p.remote_id() == Some(0))
        .map(|p| p.id);
    let pane = mirrored.expect("the remote pane is mirrored");
    s.take_remote_commands(key);
    let r = ask(&mut s, 2, Call::SendKeys { pane: pane.0, text: "x".into(), enter: false });
    assert!(r.error.is_none());
    batch(&mut s);
    let sent = s.take_remote_commands(key).unwrap().join("\n");
    assert!(sent.contains("send-keys -t %0 -H 78"), "{sent}");
    s.end_remote(key);
    batch(&mut s);
    assert!(s.session.pane(pane).is_none(), "the mirror ends with its connection");
}

#[test]
fn windows_are_probed_in_turn() {
    let mut ids = Ids::new();
    let id = PaneId::allocate(&mut ids);
    let mut pane = Pane::local(id, PtySize { cols: 80, rows: 24 }, None);
    pane.pump_bytes(b"\x1b]9;9;\"C:\\repo\"\x07");
    let session = Session::start(&mut ids, "t".to_string(), pane);
    let mut s = Server::new(session, ids, "pwsh".to_string(), true, 3);
    let wid = s.session.windows()[0].id.0;
    let mut probes = Vec::new();
    for _ in 0..6 {
        if let Some(p) = s.tick(Vec::new(), &share, &even).probe {
            probes.push(p);
        }
    }
    assert_eq!(probes, vec![(wid, "C:\\repo".to_string()), (wid, "C:\\repo".to_string())]);
    let badge = PrBadge { number: 5, status: PrStatus::Open, url: None };
    s.tick(vec![(wid, Some(badge))], &share, &even);
    let win = s.session.window_mut(WindowId(wid)).unwrap();
    assert_eq!(win.pr().map(|b| b.number), Some(5));
}

#[test]
fn saved_screens_are_replayed_as_history() {
    assert_eq!(restore_replay(&Vec::new()), None);
    let r = restore_replay(&vec!["one".to_string(), "two".to_string()]).unwrap();
    assert!(r.contains("one\r\n") && r.contains("two"), "{r:?}");
}

#[test]
fn attention_clears_when_a_pane_is_focused() {
    let (mut server, first) = server();
    let second = remote(&mut server.ids, 2);
    let second_id = second.id.0;
    server.session.active_window_mut().unwrap().split(SplitDir::Horizontal, second);
    for pane in [first, second_id] {
        let call = Call::Notify { pane: Some(pane), title: "t".into(), body: "b".into() };
        assert_eq!(ask(&mut server, 1, call).result, Some(ResultBody::Done));
    }
    let pending = |s: &Server, id: u64| s.session.pane(PaneId(id)).unwrap().attention().is_pending();
    assert!(pending(&server, first) && pending(&server, second_id));

    ask(&mut server, 2, Call::FocusPaneId { pane: 999_999 });
    assert!(pending(&server, first) && pending(&server, second_id), "nothing was focused");
    ask(&mut server, 3, Call::FocusPaneId { pane: first });
    assert!(!pending(&server, first), "focusing a pane clears it");
    assert!(pending(&server, second_id), "and no other");
    ask(&mut server, 4, Call::SelectWindow { index: 7 });
    assert!(pending(&server, second_id));
    ask(&mut server, 5, Call::FocusPane { dir: "right".into() });
    assert!(!pending(&server, second_id));
}

#[test]
fn a_notification_in_output_is_delivered() {
    let (mut server, pid) = server();
    server.feed_pane(PaneId(pid), b"\x1b]777;not");
    server.feed_pane(PaneId(pid), b"ify;Done;tests pass\x07");
    assert!(server.session.pane(PaneId(pid)).unwrap().attention().is_pending());
    let told = batch(&mut server);
    assert_eq!(told[0].pane, pid);
    assert_eq!((told[0].title.as_str(), told[0].body.as_str()), ("Done", "tests pass"));
    let resp = ask(&mut server, 1, Call::PollNotifications);
    assert_eq!(resp.result, Some(ResultBody::Notifications(vec![told[0].copy()])));
}

#[test]
fn a_raised_notification_is_delivered_like_an_emitted_one() {
    let (mut server, pid) = server();
    let call = Call::Notify { pane: Some(pid), title: "T".into(), body: "B".into() };
    assert_eq!(ask(&mut server, 1, call).result, Some(ResultBody::Done));
    assert!(server.session.pane(PaneId(pid)).unwrap().attention().is_pending());
    assert_eq!(server.session.windows()[0].workspace_info(None).unread, 1);
    let wire = NotifyWire { pane: pid, title: "T".into(), body: "B".into(), urgency: 1 };
    assert!(batch(&mut server).contains(&wire));
    let resp = ask(&mut server, 2, Call::PollNotifications);
    assert_eq!(resp.result, Some(ResultBody::Notifications(vec![wire])));
    let nobody = Call::Notify { pane: Some(999), title: "T".into(), body: "B".into() };
    assert!(ask(&mut server, 3, nobody).error.is_some());
}

#[test]
fn a_skipped_import_names_its_folder() {
    assert_eq!(import_skipped("C:\\x", "denied"), "gmux: import skipped C:\\x: denied");
}

fn local_server() -> (Server, PaneId) {
    let mut ids = Ids::new();
    let id = PaneId::allocate(&mut ids);
    let pane = Pane::local(id, PtySize { cols: 80, rows: 24 }, None);
    let session = Session::start(&mut ids, "t".to_string(), pane);
    (Server::new(session, ids, "pwsh".to_string(), true, 0), id)
}

/// An attachment that mirrors one remote pane; the mirror.
fn with_mirror(s: &mut Server) -> (u64, PaneId) {
    let (key, _) = s.attached(1);
    s.feed_remote(
        key,
        b"\x1bP1000p%begin 1 1 1\n%end 1 1 1\n%begin 1 2 1\n3.4\n%end 1 2 1\n%begin 1 3 1\n@1 %0 80 24\n%end 1 3 1\n",
    );
    batch(s);
    let mirror = s
        .session
        .windows()
        .iter()
        .flat_map(|w| w.panes().iter())
        .find(|p| p.remote_id() == Some(0))
        .map(|p| p.id);
    (key, mirror.expect("the remote pane is mirrored"))
}

fn raise(s: &mut Server, pane: PaneId, title: &str) -> NotifyWire {
    let call = Call::Notify { pane: Some(pane.0), title: title.into(), body: "B".into() };
    assert_eq!(ask(s, 9, call).result, Some(ResultBody::Done));
    NotifyWire { pane: pane.0, title: title.into(), body: "B".into(), urgency: 1 }
}

#[test]
fn notifications_are_delivered_while_attachments_are_pumped() {
    let (mut s, local) = local_server();
    let (key, mirror) = with_mirror(&mut s);
    let here = raise(&mut s, local, "here");
    let there = raise(&mut s, mirror, "there");
    // The same tick mirrors output, moves the pane to another window and closes its old one.
    s.feed_remote(key, b"%output %0 hello\n");
    s.feed_remote(key, b"%layout-change @2 bb62,80x24,0,0,0\n");
    s.feed_remote(key, b"%window-close @1\n");
    let told = batch(&mut s);
    assert!(told.contains(&here) && told.contains(&there), "{told:?}");
    let poll = ask(&mut s, 2, Call::PollNotifications);
    match poll.result {
        Some(ResultBody::Notifications(n)) => {
            assert!(n.contains(&here) && n.contains(&there), "{n:?}");
            assert_eq!(n.len(), 2);
        }
        other => panic!("expected notifications, got {other:?}"),
    }
    let r = ask(&mut s, 3, Call::CapturePane { pane: mirror.0, scrollback: None });
    assert_eq!(r.result, Some(ResultBody::Text("hello".to_string())), "the pane moved as it is");
}

#[test]
fn local_panes_stay_when_a_peer_goes() {
    let (mut s, local) = local_server();
    let window = s.session.windows()[0].id;
    let (key, mirror) = with_mirror(&mut s);
    s.feed_pane(local, b"mine");
    let raised = raise(&mut s, local, "still");
    s.feed_remote(key, b"%window-close @1\n%exit\n");
    s.end_remote(key);
    let told = batch(&mut s);
    assert!(told.contains(&raised), "{told:?}");
    assert!(s.session.pane(mirror).is_none());
    assert_eq!(s.session.window_count(), 1);
    assert_eq!(s.session.windows()[0].id, window);
    let r = ask(&mut s, 2, Call::CapturePane { pane: local.0, scrollback: None });
    assert_eq!(r.result, Some(ResultBody::Text("mine".to_string())));
}

#[test]
fn each_end_is_told_once() {
    let (mut s, local) = local_server();
    let (key, mirror) = with_mirror(&mut s);
    s.end_pane(local);
    s.end_pane(local);
    s.feed_remote(key, b"%exit\n");
    s.end_remote(key);
    let told = batch(&mut s);
    for pane in [local, mirror] {
        let ends = told.iter().filter(|n| **n == exit_notify(pane.0)).count();
        assert_eq!(ends, 1, "{told:?}");
    }
    assert!(batch(&mut s).is_empty(), "and is not told again");
}

#[test]
fn new_panes_take_ids_that_no_pane_has() {
    let (mut s, local) = local_server();
    let (key, mirror) = with_mirror(&mut s);
    s.feed_remote(key, b"%layout-change @1 bb62,159x48,0,0{79x48,0,0,0,79x48,80,0,1}\n");
    batch(&mut s);
    match step(&mut s, 2, Call::NewWindow { command: None, cwd: None }) {
        Step::Start { id, pane, place, .. } => {
            assert!(s.session.pane(pane).is_none(), "the id is free");
            s.started(id, pane, place);
        }
        _ => panic!("a window starts a program"),
    }
    let ids: Vec<u64> = list_panes(&s.session).iter().map(|p| p.id).collect();
    assert_eq!(ids.len(), 4);
    assert!(ids.windows(2).all(|w| w[0] < w[1]), "{ids:?}");
    assert!(ids.contains(&local.0) && ids.contains(&mirror.0));
    let homes: Vec<u64> = s.session.windows().iter().map(|w| w.id.0).collect();
    assert!(homes.windows(2).all(|w| w[0] < w[1]), "{homes:?}");
}

#[test]
fn an_import_counts_every_candidate() {
    let (s, _) = server();
    let candidates = vec!["C:\\a".to_string(), "C:\\b".to_string(), "C:\\A".to_string()];
    let mut import = s.begin_import(1, candidates);
    // The first one cannot be started, and is counted nowhere.
    assert_eq!(import.next().as_deref(), Some("C:\\a"));
    assert_eq!(import.next().as_deref(), Some("C:\\b"));
    import.opened();
    let mut rest = 0;
    while import.next().is_some() {
        import.opened();
        rest += 1;
    }
    match import.finish().result {
        Some(ResultBody::Imported { created, already_open, capped }) => {
            assert_eq!(created, 1 + rest);
            assert_eq!(created + already_open + capped, 2);
        }
        other => panic!("expected counts, got {other:?}"),
    }
}
