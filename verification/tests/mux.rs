//! Ids, attention, split trees, windows and sessions.
use gmux::mux::layout::{neighbor, rects};
use gmux::mux::session::reindex_after_move;
use gmux::mux::workspace::{branch_of_head, cwd_name, gitdir_of};
use gmux::mux::{
    Attention, FocusDir, Ids, Mux, MuxError, Node, Pane, PaneId, PrBadge, PrStatus, PtySize, Rect,
    Session, SessionId, SplitDir, Window, WindowId,
};

fn p(n: u64) -> PaneId {
    PaneId(n)
}

fn cut(extent: u32, ratio: u32) -> u32 {
    (((extent as f32) * f32::from_bits(ratio)) as u32).min(extent)
}

fn adjust(ratio: u32, delta: u32) -> u32 {
    (f32::from_bits(ratio) + f32::from_bits(delta)).clamp(0.1, 0.9).to_bits()
}

fn bits(x: f32) -> u32 {
    x.to_bits()
}

fn remote_pane(ids: &mut Ids, remote: u64) -> Pane {
    let id = PaneId::allocate(ids);
    Pane::remote(id, remote, 80, 24)
}

fn remote_window(ids: &mut Ids) -> Window {
    let pane = remote_pane(ids, 0);
    let id = pane.id;
    Window::from_parts(ids, vec![pane], Node::leaf(id), id)
}

#[test]
fn default_is_quiet() {
    assert_eq!(Attention::default(), Attention::Quiet);
}

#[test]
fn pending_then_focus_clears() {
    let mut a = Attention::default();
    assert!(!a.is_pending());
    a.set_pending();
    assert!(a.is_pending());
    a.focus();
    assert_eq!(a, Attention::Quiet);
}

#[test]
fn ids_are_monotonic_and_unique() {
    let mut ids = Ids::new();
    let a = PaneId::allocate(&mut ids);
    let b = PaneId::allocate(&mut ids);
    let c = PaneId::allocate(&mut ids);
    assert!(a.0 < b.0 && b.0 < c.0, "pane ids must strictly increase");
    assert_ne!(a, b);
}

#[test]
fn ids_display_with_sigils() {
    let s = SessionId(7).label();
    let w = WindowId(3).label();
    let p = PaneId(42).label();
    assert_eq!(s, "$7");
    assert_eq!(w, "@3");
    assert_eq!(p, "%42");
}

#[test]
fn id_counters_are_independent() {
    let mut ids = Ids::new();
    let before = ids.window;
    let p = PaneId::allocate(&mut ids);
    assert_eq!(ids.window, before, "a pane id takes no window id");
    let w = WindowId::allocate(&mut ids);
    let _ = (p, w);
}

#[test]
fn split_then_rects_divides_area() {
    let mut root = Node::leaf(p(1));
    assert!(root.split_leaf(p(1), SplitDir::Horizontal, p(2)));
    let mut rs = Vec::new();
    rects(&root, Rect { x: 0, y: 0, w: 100, h: 40 }, &cut, &mut rs);
    assert_eq!(rs.len(), 2);
    assert_eq!(rs[0], (p(1), Rect { x: 0, y: 0, w: 50, h: 40 }));
    assert_eq!(rs[1], (p(2), Rect { x: 50, y: 0, w: 50, h: 40 }));
}

#[test]
fn vertical_split_divides_height() {
    let mut root = Node::leaf(p(1));
    root.split_leaf(p(1), SplitDir::Vertical, p(2));
    let mut rs = Vec::new();
    rects(&root, Rect { x: 0, y: 0, w: 80, h: 40 }, &cut, &mut rs);
    assert_eq!(rs[0].1, Rect { x: 0, y: 0, w: 80, h: 20 });
    assert_eq!(rs[1].1, Rect { x: 0, y: 20, w: 80, h: 20 });
}

#[test]
fn remove_collapses_sibling() {
    let mut root = Node::leaf(p(1));
    root.split_leaf(p(1), SplitDir::Horizontal, p(2));
    root.split_leaf(p(2), SplitDir::Vertical, p(3));
    assert_eq!(root.leaf_count(), 3);
    let root = root.remove_leaf(p(3));
    assert_eq!(root.leaf_count(), 2);
    let mut v = Vec::new();
    root.leaves(&mut v);
    assert!(v.contains(&p(1)) && v.contains(&p(2)) && !v.contains(&p(3)));
}

#[test]
fn neighbor_moves_spatially() {
    let mut root = Node::leaf(p(1));
    root.split_leaf(p(1), SplitDir::Horizontal, p(2));
    let mut rs = Vec::new();
    rects(&root, Rect { x: 0, y: 0, w: 100, h: 40 }, &cut, &mut rs);
    assert_eq!(neighbor(&rs, p(1), FocusDir::Right), Some(p(2)));
    assert_eq!(neighbor(&rs, p(2), FocusDir::Left), Some(p(1)));
    assert_eq!(neighbor(&rs, p(1), FocusDir::Left), None);
    assert_eq!(neighbor(&rs, p(1), FocusDir::Up), None);
}

#[test]
fn resize_leaf_adjusts_parent_ratio() {
    let mut root = Node::leaf(p(1));
    root.split_leaf(p(1), SplitDir::Horizontal, p(2));
    assert!(root.resize_leaf(p(1), bits(0.2), bits(-0.2), &adjust));
    let mut rs = Vec::new();
    rects(&root, Rect { x: 0, y: 0, w: 100, h: 40 }, &cut, &mut rs);
    assert_eq!(rs[0].1.w, 70);
}

#[test]
fn resize_leaf_of_targets_the_matching_direction_split() {
    let mut root = Node::Split {
        dir: SplitDir::Vertical,
        ratio: bits(0.5),
        a: Box::new(Node::Split {
            dir: SplitDir::Horizontal,
            ratio: bits(0.5),
            a: Box::new(Node::leaf(p(1))),
            b: Box::new(Node::leaf(p(2))),
        }),
        b: Box::new(Node::leaf(p(3))),
    };

    assert!(root.resize_leaf_of(p(1), bits(0.0), bits(0.2), &adjust));
    let mut rs = Vec::new();
    rects(&root, Rect { x: 0, y: 0, w: 100, h: 100 }, &cut, &mut rs);
    let h1 = rs.iter().find(|(id, _)| *id == p(1)).unwrap().1.h;
    assert_eq!(h1, 70, "outer vertical split grew the top row (0.5 + 0.2)");

    assert!(root.resize_leaf_of(p(1), bits(0.2), bits(0.0), &adjust));
    let mut rs = Vec::new();
    rects(&root, Rect { x: 0, y: 0, w: 100, h: 100 }, &cut, &mut rs);
    let w1 = rs.iter().find(|(id, _)| *id == p(1)).unwrap().1.w;
    assert_eq!(w1, 70, "inner horizontal split grew pane 1 (0.5 + 0.2)");
}

#[test]
fn a_negative_zero_drag_changes_nothing() {
    let mut root = Node::leaf(p(1));
    root.split_leaf(p(1), SplitDir::Horizontal, p(2));
    let before = root.copy();
    assert!(!root.resize_leaf_of(p(1), bits(-0.0), bits(0.0), &adjust));
    assert_eq!(root, before);
}

#[test]
fn swapping_leaves_twice_changes_nothing() {
    let mut root = Node::leaf(p(1));
    root.split_leaf(p(1), SplitDir::Horizontal, p(2));
    let before = root.copy();
    assert!(root.swap_leaves(p(1), p(2)));
    assert_ne!(root, before);
    assert_eq!(root.first_leaf(), p(2));
    assert!(root.swap_leaves(p(1), p(2)));
    assert_eq!(root, before);
    assert!(!root.swap_leaves(p(1), p(9)), "both have to be there");
    assert!(root.contains(p(2)) && !root.contains(p(9)));
}

#[test]
fn mux_session_lifecycle_without_spawning() {
    let mut ids = Ids::new();
    let mut mux = Mux::new();
    let a = mux.new_session(&mut ids, "work".to_string());
    let b = mux.new_session(&mut ids, "scratch".to_string());
    assert_ne!(a, b);
    assert_eq!(mux.sessions.len(), 2);
    assert_eq!(mux.session_by_name("work").unwrap().id, a);
    assert_eq!(mux.session(b).unwrap().window_count(), 0);
    assert_eq!(mux.pane_count(), 0);
}

#[test]
fn mux_windows_and_splits_need_a_session_and_a_window() {
    let mut ids = Ids::new();
    let mut mux = Mux::new();
    let s = mux.new_session(&mut ids, "work".to_string());
    let stray = remote_pane(&mut ids, 1);
    let missing = SessionId(99);
    assert_eq!(
        mux.new_window(&mut ids, missing, stray).err(),
        Some(MuxError::NoSession(missing))
    );
    let early = remote_pane(&mut ids, 2);
    assert_eq!(
        mux.split_active(s, SplitDir::Vertical, early).err(),
        Some(MuxError::NoWindow)
    );
    let first = remote_pane(&mut ids, 3);
    let first_id = first.id;
    assert_eq!(mux.new_window(&mut ids, s, first).ok(), Some(first_id));
    let second = remote_pane(&mut ids, 4);
    let second_id = second.id;
    assert_eq!(mux.split_active(s, SplitDir::Vertical, second).ok(), Some(second_id));
    assert_eq!(mux.pane_count(), 2);
    assert!(mux.pane(first_id).is_some() && mux.pane(PaneId(99)).is_none());
    assert!(!MuxError::NoWindow.message().is_empty());
    assert!(MuxError::NoSession(missing).message().contains("$99"));
}

#[test]
fn push_window_does_not_steal_focus_and_remove_window_fixes_active() {
    let mut ids = Ids::new();
    let (a, b) = (remote_window(&mut ids), remote_window(&mut ids));
    let mut s = Session::from_windows(&mut ids, "t".to_string(), vec![a, b], 1);
    let kept = s.windows()[1].id;
    let c = remote_window(&mut ids);
    let added = s.push_window(c);
    assert_eq!(s.active_index(), 1, "push_window must not move focus");
    assert_eq!(s.window_count(), 3);

    let first = s.windows()[0].id;
    assert!(s.remove_window(first).is_some());
    assert_eq!(s.active_window().map(|w| w.id), Some(kept));

    assert!(s.remove_window(added).is_some());
    assert_eq!(s.active_window().map(|w| w.id), Some(kept));

    assert!(s.remove_window(kept).is_some());
    assert_eq!(s.window_count(), 0);
    assert!(s.active_window().is_none());
    assert!(s.remove_window(kept).is_none(), "ids are never reused; a second remove misses");
}

#[test]
fn select_window_and_focus_pane_target_by_index_and_id() {
    let mut ids = Ids::new();
    let (a, b) = (remote_window(&mut ids), remote_window(&mut ids));
    let mut s = Session::from_windows(&mut ids, "t".to_string(), vec![a, b], 0);
    let w1_pane = s.windows()[1].active_id();

    assert!(!s.select_window(5));
    assert_eq!(s.active_index(), 0);
    assert!(s.select_window(1));
    assert_eq!(s.active_index(), 1);

    let w0_pane = s.windows()[0].active_id();
    assert!(s.focus_pane(w0_pane));
    assert_eq!(s.active_index(), 0);
    assert_eq!(s.active_window().unwrap().active_id(), w0_pane);

    assert!(s.focus_pane(w1_pane));
    assert_eq!(s.active_index(), 1);

    let orphan = remote_pane(&mut ids, 99);
    assert!(!s.focus_pane(orphan.id));
    assert_eq!(s.active_index(), 1);
}

#[test]
fn move_window_reorders_and_tracks_active() {
    let mut ids = Ids::new();
    let windows = vec![
        remote_window(&mut ids),
        remote_window(&mut ids),
        remote_window(&mut ids),
        remote_window(&mut ids),
    ];
    let mut s = Session::from_windows(&mut ids, "t".to_string(), windows, 2);
    let w: Vec<_> = s.windows().iter().map(|w| w.id).collect();

    s.move_window(2, 0);
    assert_eq!(s.active_index(), 0, "the moved active tab follows to its new index");
    assert_eq!(s.windows()[0].id, w[2]);
    assert_eq!(
        s.windows().iter().map(|w| w.id).collect::<Vec<_>>(),
        vec![w[2], w[0], w[1], w[3]]
    );

    s.move_window(3, 0);
    assert_eq!(s.windows()[0].id, w[3]);
    assert_eq!(s.active_index(), 1, "active shifts to track its window after an insert before it");
    assert_eq!(s.windows()[1].id, w[2], "active still points at the same window");

    let before = s.active_index();
    s.move_window(99, 99);
    assert_eq!(s.active_index(), before);
}

#[test]
fn reindex_after_move_cases() {
    assert_eq!(reindex_after_move(2, 2, 0), 0);
    assert_eq!(reindex_after_move(2, 0, 3), 1);
    assert_eq!(reindex_after_move(1, 3, 0), 2);
    assert_eq!(reindex_after_move(0, 2, 3), 0);
}

#[test]
fn turning_through_windows_wraps_around() {
    let mut ids = Ids::new();
    let (a, b) = (remote_window(&mut ids), remote_window(&mut ids));
    let mut s = Session::from_windows(&mut ids, "t".to_string(), vec![a, b], 1);
    s.next_window();
    assert_eq!(s.active_index(), 0);
    s.prev_window();
    assert_eq!(s.active_index(), 1);
    assert!(s.close_active_window());
    assert_eq!(s.window_count(), 1);
    assert!(!s.close_active_window(), "the last window stays");
    assert_eq!(s.window_count(), 1);
}

#[test]
fn resize_pane_changes_ratio_without_changing_focus() {
    let mut ids = Ids::new();
    let a = remote_pane(&mut ids, 1);
    let b = remote_pane(&mut ids, 2);
    let (ida, idb) = (a.id, b.id);
    let root = Node::Split {
        dir: SplitDir::Horizontal,
        ratio: bits(0.5),
        a: Box::new(Node::Leaf(ida)),
        b: Box::new(Node::Leaf(idb)),
    };
    let mut win = Window::from_parts(&mut ids, vec![a, b], root, idb);

    win.resize_pane(ida, bits(0.2), bits(0.0), &adjust);
    assert_eq!(win.active_id(), idb, "a divider drag must not change focus");
    let rs = win.layout_rects(100, 40, &cut);
    let wa = rs.iter().find(|(id, _)| *id == ida).unwrap().1.w;
    assert_eq!(wa, 70, "left pane grew to 0.5 + 0.2 of the width");

    win.resize_active(bits(0.1), bits(-0.1), &adjust);
    let rs = win.layout_rects(100, 40, &cut);
    let wb = rs.iter().find(|(id, _)| *id == idb).unwrap().1.w;
    assert!((39..=41).contains(&wb), "the active pane on the right grew: {wb}");
}

#[test]
fn set_name_overrides_and_clears_workspace_name() {
    let mut ids = Ids::new();
    let mut win = remote_window(&mut ids);
    assert_eq!(win.workspace_info(None).name, "shell", "derived name with no cwd");
    win.set_name("backend".to_string());
    assert_eq!(win.workspace_info(None).name, "backend", "custom name wins");
    win.set_name(String::new());
    assert_eq!(win.workspace_info(None).name, "shell", "empty name clears the override");
}

#[test]
fn a_window_info_carries_the_branch_and_the_directory() {
    let mut ids = Ids::new();
    let mut win = remote_window(&mut ids);
    let id = win.active_id();
    win.pane_mut(id).unwrap().push_output(b"\x1b]9;9;\"C:\\work\\repo\"\x07");
    let info = win.workspace_info(Some("main".to_string()));
    assert_eq!(info.name, "repo");
    assert_eq!(info.cwd.as_deref(), Some("C:\\work\\repo"));
    assert_eq!(info.branch.as_deref(), Some("main"));
}

#[test]
fn replace_tree_inserts_prunes_and_reactivates() {
    let mut ids = Ids::new();
    let mut win = remote_window(&mut ids);
    let old = win.active_id();
    let new_id = PaneId::allocate(&mut ids);
    let new_pane = Pane::remote(new_id, 1, 40, 10);

    let removed = win.replace_tree(Node::leaf(new_id), vec![new_pane]);
    assert_eq!(removed.len(), 1);
    assert_eq!(removed[0].id, old);
    assert_eq!(win.pane_count(), 1);
    assert_eq!(win.active_id(), new_id, "active must fall back to a live leaf");
    assert!(win.pane(old).is_none());
}

#[test]
fn closing_takes_back_a_split() {
    let mut ids = Ids::new();
    let mut win = remote_window(&mut ids);
    let first = win.active_id();
    let root = win.root().copy();
    let pane = remote_pane(&mut ids, 1);
    let second = win.split(SplitDir::Vertical, pane);
    assert_eq!(win.active_id(), second);
    assert_eq!(win.pane_count(), 2);
    win.toggle_zoom();
    assert!(win.zoomed());
    assert_eq!(win.layout_rects(100, 40, &cut).len(), 1, "a zoomed pane fills the window");
    win.toggle_zoom();
    win.focus_dir(FocusDir::Up, 100, 40, &cut);
    assert_eq!(win.active_id(), first);
    win.focus_dir(FocusDir::Down, 100, 40, &cut);
    assert_eq!(win.active_id(), second);
    let closed = win.close_active().expect("two panes were there");
    assert_eq!(closed.id, second);
    assert_eq!(win.active_id(), first);
    assert_eq!(*win.root(), root);
    assert!(win.close_active().is_none(), "the last pane stays");
}

#[test]
fn settings_of_a_window_clear_with_an_empty_text() {
    let mut ids = Ids::new();
    let mut win = remote_window(&mut ids);
    win.set_group("api".to_string());
    win.set_color("#ff8800".to_string());
    win.set_workspace_dir("C:\\proj".to_string());
    win.set_pr(Some(PrBadge { number: 7, status: PrStatus::Merged, url: None }));
    assert_eq!(win.group().as_deref(), Some("api"));
    assert_eq!(win.color().as_deref(), Some("#ff8800"));
    assert_eq!(win.workspace_dir().as_deref(), Some("C:\\proj"));
    assert_eq!(win.pr().map(|b| b.number), Some(7));
    win.set_group(String::new());
    win.set_color(String::new());
    win.set_workspace_dir(String::new());
    win.set_pr(None);
    assert_eq!((win.group(), win.color(), win.workspace_dir()), (None, None, None));
    assert!(win.pr().is_none());
}

#[test]
fn a_pane_can_be_taken_out_of_a_session() {
    let mut ids = Ids::new();
    let a = remote_pane(&mut ids, 1);
    let ida = a.id;
    let mut s = Session::start(&mut ids, "t".to_string(), a);
    let b = remote_pane(&mut ids, 2);
    let idb = b.id;
    s.add_window(&mut ids, b);
    assert_eq!(s.active_index(), 1, "a new window takes the focus");
    assert_eq!(s.pane_position(ida), Some(0));
    let taken = s.extract_pane(ida).expect("it is there");
    assert_eq!(taken.id, ida);
    assert_eq!(s.window_count(), 1, "a window without panes goes");
    assert!(s.extract_pane(ida).is_none());
    assert!(s.remove_pane(idb));
    assert!(!s.remove_pane(idb));
    assert_eq!(s.pane_count(), 0);
}

#[test]
fn pr_status_round_trips_and_maps_github_states() {
    for s in [PrStatus::Open, PrStatus::Draft, PrStatus::Merged, PrStatus::Closed] {
        assert_eq!(PrStatus::parse(s.as_str()), Some(s), "{s:?} must round-trip");
    }
    assert_eq!(PrStatus::parse("OPEN"), Some(PrStatus::Open), "case-insensitive");
    assert_eq!(PrStatus::parse(" merged "), Some(PrStatus::Merged), "whitespace tolerated");
    assert_eq!(PrStatus::parse("bogus"), None);
    assert_eq!(PrStatus::parse(""), None);

    assert_eq!(PrStatus::from_github("OPEN", false), Some(PrStatus::Open));
    assert_eq!(PrStatus::from_github("OPEN", true), Some(PrStatus::Draft));
    assert_eq!(PrStatus::from_github("MERGED", false), Some(PrStatus::Merged));
    assert_eq!(PrStatus::from_github("MERGED", true), Some(PrStatus::Merged));
    assert_eq!(PrStatus::from_github("CLOSED", false), Some(PrStatus::Closed));
    assert_eq!(PrStatus::from_github("SOMETHING_NEW", false), None);
}

#[test]
fn reads_branch_from_head_ref() {
    assert_eq!(branch_of_head("ref: refs/heads/feature/foo\n"), Some("foo".to_string()));
}

#[test]
fn detached_head_shows_short_hash() {
    assert_eq!(branch_of_head("0123456789abcdef\n"), Some("(0123456)".to_string()));
    assert_eq!(branch_of_head("012345\u{e9}9"), None, "no hash is cut inside a character");
}

#[test]
fn a_git_file_points_at_its_directory() {
    assert_eq!(
        gitdir_of("gitdir: C:/repo/.git/worktrees/x\n").as_deref(),
        Some("C:/repo/.git/worktrees/x")
    );
    assert_eq!(gitdir_of("something else"), None);
}

#[test]
fn cwd_name_takes_last_component() {
    assert_eq!(cwd_name(r"C:\Workspace\gmux"), "gmux");
    assert_eq!(cwd_name(r"C:\Workspace\gmux\"), "gmux");
    assert_eq!(cwd_name("/home/user/proj"), "proj");
}

#[test]
fn a_local_pane_replays_what_was_saved() {
    let mut ids = Ids::new();
    let id = PaneId::allocate(&mut ids);
    let pane = Pane::local(id, PtySize { cols: 40, rows: 5 }, Some("before\r\n"));
    assert_eq!(pane.remote_id(), None);
    let snap = pane.snapshot();
    let row: String = snap.cells[0].iter().map(|c| c.ch).collect();
    assert!(row.starts_with("before"), "{row:?}");
}

#[test]
fn a_pane_that_is_laid_out_twice_is_removed_at_its_first_place() {
    let mut inner = Node::leaf(p(1));
    inner.split_leaf(p(1), SplitDir::Vertical, p(2));
    let root = Node::Split {
        dir: SplitDir::Horizontal,
        ratio: 0.5f32.to_bits(),
        a: Box::new(Node::leaf(p(1))),
        b: Box::new(inner),
    };
    let root = root.remove_leaf(p(1));
    let mut v = Vec::new();
    root.leaves(&mut v);
    assert_eq!(v, [p(1), p(2)], "the sibling comes up as it is");
    let root = root.remove_leaf(p(1));
    assert_eq!(root, Node::leaf(p(2)));
    assert_eq!(root.remove_leaf(p(2)), Node::leaf(p(2)), "a lone leaf stays");
}
