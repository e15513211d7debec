//! Saved sessions.
use gmux::mux::persist::{
    node_to_snapshot, screen_lines, snapshot_to_node, NodeSnapshot, PaneRecord, RestoreError,
    SessionSnapshot, WindowSnapshot, SNAPSHOT_VERSION,
};
use gmux::mux::{
    Ids, Node, Pane, PaneId, PrBadge, PrStatus, PtySize, Session, SplitDir, Window,
};

fn restarted(ids: &mut Ids, snap: &SessionSnapshot) -> Vec<Vec<Pane>> {
    snap.windows
        .iter()
        .map(|w| {
            w.panes
                .iter()
                .map(|_| {
                    let id = PaneId::allocate(ids);
                    Pane::remote(id, 0, 80, 24)
                })
                .collect()
        })
        .collect()
}

#[test]
fn window_name_survives_snapshot_roundtrip() {
    let mut ids = Ids::new();
    let id = PaneId::allocate(&mut ids);
    let mut win = Window::from_parts(&mut ids, Vec::new(), Node::leaf(id), id);
    win.set_name("backend".to_string());
    win.set_group("api".to_string());
    win.set_color("#ff8800".to_string());
    let session = Session::from_windows(&mut ids, "s".to_string(), vec![win], 0);

    let snap = SessionSnapshot::capture(&session);
    assert_eq!(snap.windows.len(), 1);
    assert_eq!(snap.windows[0].name.as_deref(), Some("backend"), "custom name captured");
    assert_eq!(snap.windows[0].group.as_deref(), Some("api"), "sidebar group captured");

    let panes = restarted(&mut ids, &snap);
    let restored = snap.restore(&mut ids, "s".to_string(), panes).ok().unwrap();
    assert_eq!(
        restored.windows()[0].workspace_info(None).name,
        "backend",
        "custom name reapplied on restore"
    );
    assert_eq!(
        restored.windows()[0].group().as_deref(),
        Some("api"),
        "grouping survives a daemon restart, like the rename does"
    );
    assert_eq!(
        restored.windows()[0].color().as_deref(),
        Some("#ff8800"),
        "and so does the tag color"
    );

    let leaf = PaneId::allocate(&mut ids);
    let active = PaneId::allocate(&mut ids);
    let plain = Window::from_parts(&mut ids, Vec::new(), Node::leaf(leaf), active);
    let plain = Session::from_windows(&mut ids, "s".to_string(), vec![plain], 0);
    let plain_snap = SessionSnapshot::capture(&plain);
    assert_eq!(plain_snap.windows[0].name, None, "no override -> None");
}

#[test]
fn capture_drops_remote_only_windows() {
    let mut ids = Ids::new();
    let id = PaneId::allocate(&mut ids);
    let remote = Pane::remote(id, 9, 80, 24);
    let session = Session::start(&mut ids, "s".to_string(), remote);
    let snap = SessionSnapshot::capture(&session);
    assert!(snap.windows.is_empty(), "remote-only windows must not be persisted");
    let restored = snap.restore(&mut ids, "s".to_string(), Vec::new()).ok().unwrap();
    assert_eq!(restored.pane_count(), 0);
}

#[test]
fn capture_prunes_remote_leaves_from_mixed_windows() {
    let mut ids = Ids::new();
    let rid = PaneId::allocate(&mut ids);
    let remote = Pane::remote(rid, 4, 80, 24);
    let local_id = PaneId::allocate(&mut ids);
    let mut root = Node::leaf(local_id);
    root.split_leaf(local_id, SplitDir::Horizontal, rid);
    let window = Window::from_parts(&mut ids, vec![remote], root, rid);
    let session = Session::from_windows(&mut ids, "s".to_string(), vec![window], 0);

    let snap = SessionSnapshot::capture(&session);
    assert_eq!(snap.windows.len(), 1);
    assert_eq!(snap.windows[0].panes.len(), 1, "the remote pane must not be captured");
    assert_eq!(snap.windows[0].layout, NodeSnapshot::Leaf(0), "the remote leaf must be pruned");
}

#[test]
fn capture_with_gates_screen_lines() {
    let mut pane = Pane::remote(PaneId(1), 1, 80, 24);
    pane.push_output(b"secret command output\r\n");
    let kept = screen_lines(&pane);
    let dropped: Vec<String> = Vec::new();
    assert!(!kept.is_empty(), "include_screen=true records the pane's screen text");
    assert!(dropped.is_empty(), "include_screen=false records an empty screen vec");
}

#[test]
fn capture_with_false_persists_no_screen_text() {
    let mut ids = Ids::new();
    let (a, b) = (PaneId::allocate(&mut ids), PaneId::allocate(&mut ids));
    let mut root = Node::leaf(a);
    root.split_leaf(a, SplitDir::Horizontal, b);
    let window = Window::from_parts(&mut ids, Vec::new(), root, a);
    let session = Session::from_windows(&mut ids, "s".to_string(), vec![window], 0);

    let off = SessionSnapshot::capture_with(&session, false);
    assert_eq!(off.windows.len(), 1);
    assert_eq!(off.windows[0].panes.len(), 2, "both leaves captured");
    for rec in &off.windows[0].panes {
        assert!(rec.screen.is_empty(), "include_screen=false must persist no screen text");
    }
}

#[test]
fn screens_of_local_panes_are_saved_on_request() {
    let mut ids = Ids::new();
    let id = PaneId::allocate(&mut ids);
    let mut pane = Pane::local(id, PtySize { cols: 40, rows: 4 }, None);
    pane.pump_bytes(b"one\r\ntwo\r\n");
    let session = Session::start(&mut ids, "s".to_string(), pane);
    let with = SessionSnapshot::capture_with(&session, true);
    assert_eq!(with.version, SNAPSHOT_VERSION);
    assert_eq!(with.windows[0].panes[0].screen, vec!["one", "two"]);
    let without = SessionSnapshot::capture_with(&session, false);
    assert!(without.windows[0].panes[0].screen.is_empty());
}

#[test]
fn node_index_mapping_roundtrips() {
    let (a, b, c) = (PaneId(10), PaneId(11), PaneId(12));
    let mut root = Node::leaf(a);
    root.split_leaf(a, SplitDir::Horizontal, b);
    root.split_leaf(b, SplitDir::Vertical, c);
    let snap = node_to_snapshot(&root, &[a, b, c]);
    let new_ids = [PaneId(100), PaneId(101), PaneId(102)];
    let rebuilt = snapshot_to_node(&snap, &new_ids);
    let mut leaves = Vec::new();
    rebuilt.leaves(&mut leaves);
    assert_eq!(leaves, vec![PaneId(100), PaneId(101), PaneId(102)]);
}

#[test]
fn a_window_without_panes_cannot_be_restored() {
    let mut ids = Ids::new();
    let snap = WindowSnapshot {
        panes: vec![PaneRecord { cwd: None, screen: Vec::new() }],
        layout: NodeSnapshot::Leaf(0),
        active: 0,
        name: None,
        group: None,
        color: None,
        pr: None,
        workspace_dir: None,
    };
    let r = snap.restore(&mut ids, Vec::new());
    assert_eq!(r.err(), Some(RestoreError::NoPanes));
    assert!(!RestoreError::NoPanes.message().is_empty());
}

#[test]
fn badges_and_directories_survive_a_restart() {
    let mut ids = Ids::new();
    let id = PaneId::allocate(&mut ids);
    let pane = Pane::local(id, PtySize { cols: 80, rows: 24 }, None);
    let mut win = Window::from_parts(&mut ids, vec![pane], Node::leaf(id), id);
    let badge = PrBadge {
        number: 128,
        status: PrStatus::Draft,
        url: Some("https://example.com/128".to_string()),
    };
    win.set_pr(Some(badge.clone()));
    win.set_workspace_dir("C:\\src\\api".to_string());
    let session = Session::from_windows(&mut ids, "s".to_string(), vec![win], 0);

    let mut snap = SessionSnapshot::capture(&session);
    assert_eq!(snap.windows[0].start_dir(0).as_deref(), Some("C:\\src\\api"));
    let panes = restarted(&mut ids, &snap);
    let restored = snap.restore(&mut ids, "s".to_string(), panes).ok().unwrap();
    assert_eq!(restored.windows()[0].pr(), Some(&badge));
    assert_eq!(restored.windows()[0].workspace_dir().as_deref(), Some("C:\\src\\api"));

    snap.windows[0].workspace_dir = None;
    snap.windows[0].panes[0].cwd = Some("D:\\tmp".to_string());
    assert_eq!(snap.windows[0].start_dir(0).as_deref(), Some("D:\\tmp"));
}

#[test]
fn a_restart_keeps_order_focus_and_layout() {
    let mut ids = Ids::new();
    let size = PtySize { cols: 80, rows: 24 };
    let mut windows = Vec::new();
    for name in ["one", "mirror", "two"] {
        let id = PaneId::allocate(&mut ids);
        let pane = match name {
            "mirror" => Pane::remote(id, 7, 80, 24),
            _ => Pane::local(id, size, None),
        };
        let mut win = Window::from_parts(&mut ids, vec![pane], Node::leaf(id), id);
        win.set_name(name.to_string());
        windows.push(win);
    }
    let second = PaneId::allocate(&mut ids);
    windows[2].split(SplitDir::Vertical, Pane::local(second, size, None));
    let session = Session::from_windows(&mut ids, "s".to_string(), windows, 2);

    let snap = SessionSnapshot::capture_with(&session, false);
    assert_eq!(snap.active, 1, "the active window is the second that is kept");
    let panes = restarted(&mut ids, &snap);
    let restored = snap.restore(&mut ids, "s".to_string(), panes).ok().unwrap();
    assert!(restored.is_complete());
    assert_eq!(restored.active_index(), 1);
    let names: Vec<Option<String>> = restored.windows().iter().map(|w| w.name()).collect();
    assert_eq!(names, [Some("one".to_string()), Some("two".to_string())]);
    let mut leaves = Vec::new();
    restored.windows()[1].root().leaves(&mut leaves);
    assert_eq!(leaves.len(), 2);
    assert_eq!(restored.windows()[1].active_id(), leaves[1], "the lower pane was active");
}
