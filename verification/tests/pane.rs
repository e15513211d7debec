//! Panes that mirror a remote one.
use gmux::mux::pane::{pane_env, Input};
use gmux::mux::{Attention, Pane, PaneEvent, PaneId, PaneSnapshot, PtySize};

fn remote_pane() -> Pane {
    Pane::remote(PaneId(1), 3, 80, 24)
}

fn snapshot_text_at(snap: &PaneSnapshot) -> Vec<String> {
    snap.cells
        .iter()
        .map(|row| {
            let mut s: String = row.iter().map(|c| c.ch).collect();
            let end = s.trim_end_matches(' ').len();
            s.truncate(end);
            s
        })
        .collect()
}

#[test]
fn push_output_renders_and_emits_output() {
    let mut pane = remote_pane();
    pane.push_output(b"hello");
    let text = snapshot_text_at(&pane.snapshot());
    assert!(text.iter().any(|l| l.contains("hello")), "grid: {text:?}");
    let evs = pane.drain_events();
    assert!(evs.iter().any(|e| matches!(e, PaneEvent::Output)), "events: {evs:?}");
}

#[test]
fn osc777_over_remote_raises_attention_and_notification() {
    let mut pane = remote_pane();
    assert_eq!(pane.attention(), Attention::Quiet);
    pane.push_output(b"\x1b]777;notify;agent;needs input\x07");
    assert_eq!(pane.attention(), Attention::Pending, "OSC 777 must raise attention");
    let evs = pane.drain_events();
    assert!(
        evs.iter().any(
            |e| matches!(e, PaneEvent::Notification(n) if n.title == "agent" && n.body == "needs input")
        ),
        "expected a Notification event: {evs:?}"
    );
    pane.focus();
    assert_eq!(pane.attention(), Attention::Quiet);
}

#[test]
fn write_reaches_input_closure() {
    let pane = Pane::remote(PaneId(1), 7, 80, 24);
    assert_eq!(pane.remote_id(), Some(7));
    assert_eq!(pane.write(b"ls\r"), Input::Remote(7, b"ls\r".to_vec()));
    let local = Pane::local(PaneId(2), PtySize { cols: 80, rows: 24 }, None);
    assert_eq!(local.write(b"ls\r"), Input::Program(b"ls\r".to_vec()));
}

#[test]
fn mark_exited_flips_liveness_and_emits_exited() {
    let mut pane = remote_pane();
    assert!(pane.is_alive());
    pane.mark_exited();
    assert!(!pane.is_alive());
    let exited = pane.drain_events().iter().filter(|e| matches!(e, PaneEvent::Exited)).count();
    assert_eq!(exited, 1);
    pane.mark_exited();
    assert!(pane.drain_events().is_empty());
}

#[test]
fn search_offset_scrolls_match_into_view() {
    let mut pane = remote_pane();
    let mut feed = String::new();
    for i in 0..40 {
        if i > 0 {
            feed.push_str("\r\n");
        }
        feed.push_str(&format!("row{i}"));
    }
    pane.push_output(feed.as_bytes());

    let hits = pane.search("row30");
    assert_eq!(hits, vec![9], "row30 is 9 lines above the live bottom");

    let snap = pane.snapshot_at(hits[0] as usize);
    assert!(
        snapshot_text_at(&snap).iter().any(|l| l.contains("row30")),
        "marker not in viewport at the returned offset: {:?}",
        snapshot_text_at(&snap)
    );

    let seq = pane.search("row3");
    assert_eq!(seq.first(), Some(&0), "row39 (contains 'row3') is the live bottom -> offset 0");
    assert!(seq.windows(2).all(|w| w[0] < w[1]), "offsets ascend: {seq:?}");

    assert_eq!(pane.search("ROW30"), vec![9], "search is case-insensitive");
    assert!(pane.search("").is_empty(), "empty query -> no matches");
    assert!(pane.search("nope").is_empty(), "a miss -> no matches");
}

#[test]
fn search_caps_at_500_matches() {
    let mut pane = Pane::remote(PaneId(1), 1, 80, 24);
    let mut feed = String::new();
    for i in 0..700 {
        if i > 0 {
            feed.push_str("\r\n");
        }
        feed.push_str(&format!("hit{i}"));
    }
    pane.push_output(feed.as_bytes());
    let hits = pane.search("hit");
    assert_eq!(hits.len(), 500, "capped at 500");
    assert_eq!(hits.first(), Some(&0), "nearest-to-bottom first");
    assert_eq!(hits.last(), Some(&499), "the 500 nearest the bottom, ascending");
}

#[test]
fn resize_touches_the_grid_only() {
    let mut pane = remote_pane();
    assert_eq!(pane.resize(PtySize { cols: 40, rows: 10 }), None, "no program to tell");
    let snap = pane.snapshot();
    assert_eq!((snap.cols, snap.rows), (40, 10));
    let mut local = Pane::local(PaneId(2), PtySize { cols: 80, rows: 24 }, None);
    let size = PtySize { cols: 40, rows: 10 };
    assert_eq!(local.resize(size), Some(size));
}

#[test]
fn history_scrolls_and_clamps() {
    let mut pane = Pane::remote(PaneId(1), 1, 20, 3);
    pane.push_output(b"a\r\nb\r\nc\r\nd\r\ne");
    assert_eq!(pane.history_len(), 2);
    let (snap, history, offset) = pane.snapshot_scrolled(99);
    assert_eq!((history, offset), (2, 2));
    assert_eq!(snapshot_text_at(&snap), vec!["a", "b", "c"]);
    assert_eq!(pane.scrollback_text(0), vec!["a", "b", "c", "d", "e"]);
    assert_eq!(pane.scrollback_text(2), vec!["d", "e"]);
}

#[test]
fn links_are_reported_with_their_columns() {
    let mut pane = remote_pane();
    pane.push_output(b"go \x1b]8;;https://a.test\x1b\\here\x1b]8;;\x1b\\ now");
    let links = pane.links_at_offset(0);
    assert_eq!(links.len(), 1);
    assert_eq!((links[0].row, links[0].start, links[0].uri.as_str()), (0, 3, "https://a.test"));
}

#[test]
fn titles_directories_and_unread_counts_are_kept() {
    let mut pane = remote_pane();
    assert_eq!((pane.title().as_str(), pane.cwd()), ("", None));
    pane.push_output(b"\x1b]2;build\x07\x1b]7;file://H/C:/a%20b\x07\x07");
    assert_eq!(pane.title(), "build");
    assert_eq!(pane.cwd().as_deref(), Some("C:\\a b"));
    pane.push_output(b"\x1b]9;done\x07");
    assert!(pane.unread() > 0);
    pane.focus();
    assert_eq!(pane.unread(), 0);
    pane.request_attention();
    assert!(pane.attention().is_pending());
}

#[test]
fn programs_learn_their_pane() {
    let env = pane_env(PaneId(7));
    assert!(env.iter().any(|(k, v)| k == "TERM_PROGRAM" && v == "gmux"), "{env:?}");
    assert!(env.iter().any(|(_, v)| v.contains('7')), "{env:?}");
}
