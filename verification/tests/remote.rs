//! Mirrors of remote sessions: the connection, the layouts and the attachment.
use gmux::mux::{Ids, Node, Pane, PaneEvent, PaneId, Session, SplitDir};
use gmux::remote::attachment::{even_split, RemoteAttachment, ENUMERATE, VERSION};
use gmux::remote::convert::{layout_to_node, leaf_sizes};
use gmux::remote::dcs::DcsFilter;
use gmux::remote::replies::{is_too_old, parse_enum_line, parse_version, MIN_VERSION};
use gmux::remote::transport::{program_and_args, RemoteTmux, TransportEvent};
use gmux::tmux::{parse_layout, Event, Notification};

const DCS_INTRO: &[u8] = b"\x1bP1000p";

fn share(first: u64, span: u64) -> u32 {
    (((first as f64 + 0.5) / span as f64).clamp(0.0, 1.0) as f32).to_bits()
}

fn even(parts: u64, of: u64) -> u32 {
    (parts as f32 / of as f32).to_bits()
}

fn convert(layout: &str) -> (Node, Vec<u64>) {
    let layout = parse_layout(layout).expect("test layout parses");
    let mut leaves = Vec::new();
    leaf_sizes(&layout.root, &mut leaves);
    let ids: Vec<PaneId> = leaves.iter().map(|l| PaneId(l.0 + 100)).collect();
    layout_to_node(&layout, &ids, &share)
}

fn expect_leaf(node: &Node) -> PaneId {
    match node {
        Node::Leaf(id) => *id,
        other => panic!("expected leaf, got {other:?}"),
    }
}

fn expect_split(node: &Node) -> (SplitDir, f32, &Node, &Node) {
    match node {
        Node::Split { dir, ratio, a, b } => (*dir, f32::from_bits(*ratio), a, b),
        other => panic!("expected split, got {other:?}"),
    }
}

fn assert_ratio(actual: f32, expected: f64) {
    assert!(
        (f64::from(actual) - expected).abs() < 1e-6,
        "ratio {actual} != expected {expected}",
    );
}

#[test]
fn single_leaf() {
    let (node, order) = convert("0000,80x24,0,0,7");
    assert_eq!(expect_leaf(&node), PaneId(107));
    assert_eq!(order, vec![7]);
}

#[test]
fn doc_example_two_pane_horizontal() {
    let (node, order) = convert("bb62,159x48,0,0{79x48,0,0,1,79x48,80,0,2}");
    let (dir, ratio, a, b) = expect_split(&node);
    assert_eq!(dir, SplitDir::Horizontal);
    assert_ratio(ratio, 79.5 / 159.0);
    assert_eq!(expect_leaf(a), PaneId(101));
    assert_eq!(expect_leaf(b), PaneId(102));
    assert_eq!(order, vec![1, 2]);
}

#[test]
fn three_child_vertical_nests_right_leaning() {
    let (node, order) = convert("0000,80x32,0,0[80x10,0,0,1,80x10,0,11,2,80x10,0,22,3]");
    let (dir, ratio, a, b) = expect_split(&node);
    assert_eq!(dir, SplitDir::Vertical);
    assert_ratio(ratio, 10.5 / 32.0);
    assert_eq!(expect_leaf(a), PaneId(101));
    let (dir_b, ratio_b, ba, bb) = expect_split(b);
    assert_eq!(dir_b, SplitDir::Vertical);
    assert_ratio(ratio_b, 10.5 / 22.0);
    assert_eq!(expect_leaf(ba), PaneId(102));
    assert_eq!(expect_leaf(bb), PaneId(103));
    assert_eq!(order, vec![1, 2, 3]);
}

#[test]
fn mixed_nesting_recurses_per_axis() {
    let (node, order) =
        convert("0000,159x48,0,0{79x48,0,0,1,79x48,80,0[79x23,80,0,2,79x24,80,24,3]}");
    let (dir, ratio, a, b) = expect_split(&node);
    assert_eq!(dir, SplitDir::Horizontal);
    assert_ratio(ratio, 79.5 / 159.0);
    assert_eq!(expect_leaf(a), PaneId(101));
    let (dir_b, ratio_b, ba, bb) = expect_split(b);
    assert_eq!(dir_b, SplitDir::Vertical);
    assert_ratio(ratio_b, 23.5 / 48.0);
    assert_eq!(expect_leaf(ba), PaneId(102));
    assert_eq!(expect_leaf(bb), PaneId(103));
    assert_eq!(order, vec![1, 2, 3]);
}

#[test]
fn ratio_survives_floor_sizing_for_all_geometries() {
    for span in 2u64..=400 {
        for first in 1..span {
            let ratio = ((first as f64 + 0.5) / span as f64).clamp(0.0, 1.0) as f32;
            let sized = (span as f32 * ratio) as u64;
            assert_eq!(sized, first, "floor(span*ratio) drifted for ({first}, {span})");
        }
    }
}

#[test]
fn zero_size_split_falls_back_to_even_ratio() {
    let (node, order) = convert("0000,80x0,0,0[80x0,0,0,1,80x0,0,0,2]");
    let (dir, ratio, a, b) = expect_split(&node);
    assert_eq!(dir, SplitDir::Vertical);
    assert_ratio(ratio, 0.5);
    assert_eq!(expect_leaf(a), PaneId(101));
    assert_eq!(expect_leaf(b), PaneId(102));
    assert_eq!(order, vec![1, 2]);
}

#[test]
fn dcs_filter_strips_intro_across_chunk_boundaries() {
    let mut f = DcsFilter::new();
    let mut out = Vec::new();
    out.extend(f.feed(b"\x1bP10"));
    out.extend(f.feed(b"00p%exit\n"));
    assert_eq!(out, b"%exit\n");
}

#[test]
fn dcs_filter_passes_raw_st_through() {
    let mut f = DcsFilter::new();
    let mut out = Vec::new();
    out.extend(f.feed(b"\x1bP1000p"));
    out.extend(f.feed(b"body \x1b"));
    out.extend(f.feed(b"\\ more\n"));
    assert_eq!(out, b"body \x1b\\ more\n");
}

#[test]
fn dcs_filter_replays_diverging_intro_lookalike_as_data() {
    let mut f = DcsFilter::new();
    let out = f.feed(b"\x1bP1x%output %1 a\n");
    assert_eq!(out, b"\x1bP1x%output %1 a\n");
}

fn ctrl(event: Event) -> TransportEvent {
    TransportEvent::Ctrl(event)
}

#[test]
fn canned_stream_yields_events_then_eof() {
    let mut canned = Vec::new();
    canned.extend_from_slice(DCS_INTRO);
    canned.extend_from_slice(b"%begin 1578920019 100 0\n");
    canned.extend_from_slice(b"%end 1578920019 100 0\n");
    canned.extend_from_slice(b"%output %1 hi\\015there\n");
    canned.extend_from_slice(b"%exit\n");
    canned.extend_from_slice(b"\x1b\\");

    let mut rt = RemoteTmux::new();
    rt.feed(&canned);
    rt.end();
    let events = rt.drain_events();
    assert_eq!(
        events,
        vec![
            TransportEvent::Greeting(Event::Reply { num: 100, body: vec![], error: false }),
            ctrl(Event::Notification(Notification::Output {
                pane: 1,
                data: b"hi\rthere".to_vec(),
            })),
            ctrl(Event::Notification(Notification::Exit { reason: None })),
            TransportEvent::Eof,
        ],
    );
    for e in &events {
        if let TransportEvent::Ctrl(Event::Notification(Notification::Unknown { line })) = e {
            panic!("wrapper bytes leaked into events: {line:?}");
        }
    }
    assert_eq!(rt.pending_len(), 0, "the greeting must not count as a reply");
    assert!(rt.detached(), "%exit must be noted as detach");
    assert!(!rt.is_alive(), "stdout closed => not alive");
}

#[test]
fn stdin_carries_commands_and_hex_send_keys() {
    let mut rt = RemoteTmux::new();
    assert_eq!(rt.send_command("list-panes"), 0);
    assert_eq!(rt.send_keys(5, b"hi\n"), 1);
    assert_eq!(rt.pending_len(), 2);
    rt.close_stdin();
    rt.end();
    let events = rt.drain_events();
    assert_eq!(events, vec![TransportEvent::Eof], "stub produced no control-mode output");
    assert_eq!(rt.pending_len(), 2, "nothing ever replied");
    let written = rt.take_commands().join("\n");
    let lines: Vec<&str> = written.lines().collect();
    assert_eq!(lines, ["list-panes", "send-keys -t %5 -H 68 69 0a"]);
}

#[test]
fn nth_reply_answers_nth_send_command_with_greeting_excluded() {
    let mut canned = Vec::new();
    canned.extend_from_slice(DCS_INTRO);
    canned.extend_from_slice(b"%begin 1000 6 1\n%end 1000 6 1\n");
    canned.extend_from_slice(b"%begin 1000 7 1\nline-a\n%end 1000 7 1\n");
    canned.extend_from_slice(b"%begin 1000 8 1\nline-b\n%error 1000 8 1\n");

    let mut rt = RemoteTmux::new();
    let seq_a = rt.send_command("list-panes");
    let seq_b = rt.send_command("bogus-command");
    assert_eq!((seq_a, seq_b), (0, 1), "local sequence numbers are 0-based send order");
    assert!(rt.pending_len() <= 2, "never more pending than sent");

    rt.feed(&canned);
    rt.end();
    let events = rt.drain_events();
    assert!(
        matches!(events[0], TransportEvent::Greeting(Event::Reply { num: 6, .. })),
        "first block is the greeting: {events:?}",
    );
    let replies: Vec<&Event> = events
        .iter()
        .filter_map(|e| match e {
            TransportEvent::Ctrl(ev @ Event::Reply { .. }) => Some(ev),
            _ => None,
        })
        .collect();
    assert_eq!(
        replies,
        vec![
            &Event::Reply { num: 7, body: vec![b"line-a".to_vec()], error: false },
            &Event::Reply { num: 8, body: vec![b"line-b".to_vec()], error: true },
        ],
    );
    assert_eq!(rt.pending_len(), 0, "both commands answered; greeting not counted");
    assert!(!rt.detached(), "stream ended without %exit: a plain drop, not a detach");
}

#[test]
fn commands_are_spelled_out() {
    let mut rt = RemoteTmux::new();
    rt.resize_client(120, 40);
    rt.split_pane(3, true);
    rt.split_pane(3, false);
    rt.kill_pane(3);
    rt.kill_window(4);
    rt.continue_pane(5);
    rt.new_window();
    rt.select_pane(6);
    let written = rt.take_commands().join("\n");
    let lines: Vec<&str> = written.lines().collect();
    assert_eq!(
        lines,
        [
            "refresh-client -C 120x40",
            "split-window -t %3 -h",
            "split-window -t %3 -v",
            "kill-pane -t %3",
            "kill-window -t @4",
            "refresh-client -A %5:continue",
            "new-window",
            "select-pane -t %6",
        ]
    );
    assert!(rt.is_open());
    rt.close_stdin();
    assert!(!rt.is_open());
}

#[test]
fn a_transport_command_has_a_program() {
    assert_eq!(
        program_and_args("ssh dev@box tmux -CC attach"),
        Some(("ssh".to_string(), "dev@box tmux -CC attach".to_string()))
    );
    assert_eq!(program_and_args("   "), None);
}

// ---------------------------------------------------------------------------
// The attachment.
// ---------------------------------------------------------------------------

struct World {
    att: RemoteAttachment,
    session: Session,
    ids: Ids,
}

fn attach(canned: &[u8]) -> World {
    let mut ids = Ids::new();
    let session = Session::from_windows(&mut ids, "remote-test".to_string(), Vec::new(), 0);
    let mut att = RemoteAttachment::attach();
    att.feed(canned);
    World { att, session, ids }
}

impl World {
    fn pump(&mut self) -> bool {
        self.att.pump(&mut self.session, &mut self.ids, &share, &even)
    }

    fn finish(&mut self) {
        self.att.end();
        for _ in 0..4 {
            if !self.pump() {
                return;
            }
        }
        panic!("attachment never finished");
    }

    fn written(&mut self) -> Vec<String> {
        self.att.take_commands().join("\n").lines().map(str::to_string).collect()
    }
}

fn find_pane(session: &Session, remote: u64) -> Option<&Pane> {
    session.windows().iter().flat_map(|w| w.panes()).find(|p| p.remote_id() == Some(remote))
}

fn snapshot_text(pane: &Pane) -> String {
    pane.snapshot()
        .cells
        .iter()
        .map(|row| row.iter().map(|c| c.ch).collect::<String>())
        .collect::<Vec<_>>()
        .join("\n")
}

#[test]
fn canned_stream_mirrors_windows_output_notification_close_and_exit() {
    let mut canned = Vec::new();
    canned.extend_from_slice(b"\x1bP1000p");
    canned.extend_from_slice(b"%begin 1000 5 1\n%end 1000 5 1\n");
    canned.extend_from_slice(b"%begin 1000 6 1\n3.4\n%end 1000 6 1\n");
    canned.extend_from_slice(b"%begin 1000 7 1\n");
    canned.extend_from_slice(b"@1 %0 80 24\n");
    canned.extend_from_slice(b"@1 %1 80 23\n");
    canned.extend_from_slice(b"@2 %5 80 24\n");
    canned.extend_from_slice(b"%end 1000 7 1\n");
    canned.extend_from_slice(b"%layout-change @1 bb62,159x48,0,0{79x48,0,0,0,79x48,80,0,1}\n");
    canned.extend_from_slice(b"%output %0 hello-from-remote\n");
    canned.extend_from_slice(b"%output %1 \\033]777;notify;agent;needs input\\007\n");
    canned.extend_from_slice(b"%window-close @2\n");
    canned.extend_from_slice(b"%exit\n");
    canned.extend_from_slice(b"\x1b\\");

    let mut w = attach(&canned);
    w.finish();

    assert_eq!(w.session.window_count(), 1, "only @1 should remain");
    assert_eq!(w.session.pane_count(), 2);
    match w.session.windows()[0].root() {
        Node::Split { dir, ratio, .. } => {
            assert_eq!(*dir, SplitDir::Horizontal);
            let ratio = f32::from_bits(*ratio);
            assert!((ratio - 79.5 / 159.0).abs() < 1e-6, "ratio {ratio}");
        }
        other => panic!("expected the %layout-change split, got {other:?}"),
    }
    assert!(find_pane(&w.session, 5).is_none(), "@2's pane must be gone");

    let p0 = find_pane(&w.session, 0).expect("pane %0 mirrored");
    assert!(
        snapshot_text(p0).contains("hello-from-remote"),
        "grid: {:?}",
        snapshot_text(p0),
    );

    let p1 = find_pane(&w.session, 1).expect("pane %1 mirrored").id;
    let events = w.session.pane_mut(p1).unwrap().drain_events();
    assert!(
        events.iter().any(|e| matches!(
            e,
            PaneEvent::Notification(n) if n.title == "agent" && n.body == "needs input"
        )),
        "events: {events:?}",
    );
    assert!(events.iter().any(|e| matches!(e, PaneEvent::Exited)), "events: {events:?}");

    for win in w.session.windows() {
        for p in win.panes() {
            assert!(!p.is_alive(), "pane {:?} must be dead after %exit", p.id);
        }
    }
    assert!(!w.pump(), "a finished attachment stays finished");
}

#[test]
fn layout_change_creates_prunes_and_builds_unknown_windows() {
    let mut canned = Vec::new();
    canned.extend_from_slice(b"\x1bP1000p");
    canned.extend_from_slice(b"%begin 1000 5 1\n%end 1000 5 1\n");
    canned.extend_from_slice(b"%begin 1000 6 1\n3.4\n%end 1000 6 1\n");
    canned.extend_from_slice(b"%begin 1000 7 1\n@1 %0 80 24\n%end 1000 7 1\n");
    canned.extend_from_slice(b"%layout-change @1 aaaa,159x48,0,0{79x48,0,0,0,79x48,80,0,2}\n");
    canned.extend_from_slice(b"%layout-change @1 aaaa,159x48,0,0,2\n");
    canned.extend_from_slice(b"%window-add @3\n");
    canned.extend_from_slice(b"%layout-change @3 aaaa,80x24,0,0,9\n");
    canned.extend_from_slice(b"%exit\n");
    canned.extend_from_slice(b"\x1b\\");

    let mut w = attach(&canned);
    w.finish();

    assert_eq!(w.session.window_count(), 2, "@1 (shrunk) and @3 (new)");
    assert_eq!(w.session.pane_count(), 2);
    assert!(find_pane(&w.session, 0).is_none(), "%0 was pruned by the second layout");
    let p2 = find_pane(&w.session, 2).expect("%2 created by the first layout");
    let snap = p2.snapshot();
    assert_eq!((snap.cols, snap.rows), (79, 48), "sized from the layout cell");
    assert!(find_pane(&w.session, 9).is_some(), "@3's pane created from its layout");
}

#[test]
fn attach_enumerates_and_pump_forwards_input_as_send_keys() {
    let mut w = attach(b"");
    w.att.queue_input(5, b"ls\r".to_vec());
    assert!(w.pump(), "stub is silent, so the attachment stays live");
    w.att.detach();
    let lines = w.written();
    assert_eq!(lines, [VERSION, ENUMERATE, "send-keys -t %5 -H 6c 73 0d"]);
}

#[test]
fn pause_is_answered_with_refresh_client_continue() {
    let mut canned = Vec::new();
    canned.extend_from_slice(b"\x1bP1000p");
    canned.extend_from_slice(b"%begin 1000 5 1\n%end 1000 5 1\n");
    canned.extend_from_slice(b"%begin 1000 6 1\n3.4\n%end 1000 6 1\n");
    canned.extend_from_slice(b"%begin 1000 7 1\n@1 %0 80 24\n%end 1000 7 1\n");
    canned.extend_from_slice(b"%pause %0\n");
    canned.extend_from_slice(b"%exit\n");

    let mut w = attach(&canned);
    w.finish();
    assert_eq!(w.att.version(), Some((3, 4)), "3.4 parsed");
    assert!(!w.att.degraded(), "3.4 >= 3.2, flow control on");
    w.att.detach();
    let lines = w.written();
    assert_eq!(lines, [VERSION, ENUMERATE, "refresh-client -A %0:continue"]);
}

#[test]
fn old_version_degrades_and_pause_is_not_answered() {
    let mut canned = Vec::new();
    canned.extend_from_slice(b"\x1bP1000p");
    canned.extend_from_slice(b"%begin 1000 5 1\n%end 1000 5 1\n");
    canned.extend_from_slice(b"%begin 1000 6 1\n3.1\n%end 1000 6 1\n");
    canned.extend_from_slice(b"%begin 1000 7 1\n@1 %0 80 24\n%end 1000 7 1\n");
    canned.extend_from_slice(b"%pause %0\n");
    canned.extend_from_slice(b"%exit\n");

    let mut w = attach(&canned);
    w.finish();
    assert_eq!(w.att.version(), Some((3, 1)), "3.1 parsed");
    assert!(w.att.degraded(), "3.1 < 3.2, degraded");
    w.att.detach();
    let lines = w.written();
    assert_eq!(lines, [VERSION, ENUMERATE], "no refresh-client in degraded mode");
}

#[test]
fn garbage_version_degrades_with_warning() {
    let mut canned = Vec::new();
    canned.extend_from_slice(b"\x1bP1000p");
    canned.extend_from_slice(b"%begin 1000 5 1\n%end 1000 5 1\n");
    canned.extend_from_slice(b"%begin 1000 6 1\nnot-a-version\n%end 1000 6 1\n");
    canned.extend_from_slice(b"%begin 1000 7 1\n@1 %0 80 24\n%end 1000 7 1\n");
    canned.extend_from_slice(b"%exit\n");

    let mut w = attach(&canned);
    w.finish();
    assert_eq!(w.att.version(), None, "unparseable => unknown version");
    assert!(w.att.degraded(), "unknown version => degraded");
    assert!(find_pane(&w.session, 0).is_some(), "enumeration still applied");
}

#[test]
fn pause_before_version_reply_is_not_answered() {
    let mut canned = Vec::new();
    canned.extend_from_slice(b"\x1bP1000p");
    canned.extend_from_slice(b"%begin 1000 5 1\n%end 1000 5 1\n");
    canned.extend_from_slice(b"%pause %0\n");
    canned.extend_from_slice(b"%begin 1000 6 1\n3.4\n%end 1000 6 1\n");
    canned.extend_from_slice(b"%begin 1000 7 1\n@1 %0 80 24\n%end 1000 7 1\n");
    canned.extend_from_slice(b"%exit\n");

    let mut w = attach(&canned);
    w.finish();
    assert_eq!(w.att.version(), Some((3, 4)), "version still parsed");
    assert!(!w.att.degraded(), "cleared once the 3.4 reply landed");
    w.att.detach();
    let written = w.written().join("\n");
    assert!(
        !written.contains("refresh-client -A"),
        "early %pause must not be answered: {written:?}",
    );
}

#[test]
fn version_strings_parse_and_reject_garbage() {
    assert_eq!(parse_version("3.4"), Some((3, 4)));
    assert_eq!(parse_version("3.2a"), Some((3, 2)), "patch letter ignored");
    assert_eq!(parse_version("next-3.5"), Some((3, 5)), "prefix stripped");
    assert_eq!(parse_version("openbsd-7.4"), Some((7, 4)), "os prefix stripped");
    assert_eq!(parse_version("3"), Some((3, 0)), "no minor => 0");
    assert_eq!(parse_version("3.2"), Some((3, 2)));
    assert!(parse_version("3.1a").unwrap() < MIN_VERSION);
    assert!(parse_version("3.2").unwrap() >= MIN_VERSION);
    assert!(is_too_old((3, 1)) && !is_too_old((3, 2)) && !is_too_old((4, 0)));
    assert_eq!(parse_version(""), None);
    assert_eq!(parse_version("unknown"), None, "no digits at all");
    assert_eq!(parse_version("next-"), None, "prefix but no number");
}

#[test]
fn enum_lines_parse_and_reject_garbage() {
    assert_eq!(parse_enum_line(b"@1 %0 80 24"), Some((1, 0, 80, 24)));
    assert_eq!(parse_enum_line(b"@12 %34 159 48"), Some((12, 34, 159, 48)));
    assert_eq!(parse_enum_line(b""), None);
    assert_eq!(parse_enum_line(b"%0 @1 80 24"), None, "sigils are positional");
    assert_eq!(parse_enum_line(b"@1 %0 80"), None, "missing rows");
    assert_eq!(parse_enum_line(b"@1 %0 eighty 24"), None);
}

#[test]
fn even_split_chains_equal_ratios() {
    let ids = [PaneId(1), PaneId(2), PaneId(3)];
    let root = even_split(&ids, &even).unwrap();
    let Node::Split { ratio, a, b, .. } = &root else { panic!("expected split") };
    assert!((f32::from_bits(*ratio) - 1.0 / 3.0).abs() < 1e-6);
    assert!(matches!(**a, Node::Leaf(id) if id == ids[0]));
    let Node::Split { ratio, .. } = &**b else { panic!("expected nested split") };
    assert!((f32::from_bits(*ratio) - 0.5).abs() < 1e-6);
    assert!(even_split(&[], &even).is_none());
    assert!(matches!(even_split(&ids[..1], &even), Some(Node::Leaf(id)) if id == ids[0]));
}

#[test]
fn cross_window_pane_move_rehomes_the_mirror() {
    let mut canned = Vec::new();
    canned.extend_from_slice(b"\x1bP1000p");
    canned.extend_from_slice(b"%begin 1000 5 1\n%end 1000 5 1\n");
    canned.extend_from_slice(b"%begin 1000 6 1\n3.4\n%end 1000 6 1\n");
    canned.extend_from_slice(
        b"%begin 1000 7 1\n@1 %0 80 24\n@1 %1 80 24\n@2 %5 80 24\n%end 1000 7 1\n",
    );
    canned.extend_from_slice(b"%layout-change @1 aaaa,80x24,0,0,1\n");
    canned.extend_from_slice(b"%layout-change @2 bbbb,159x48,0,0{79x48,0,0,5,79x48,80,0,0}\n");
    canned.extend_from_slice(b"%exit\n");

    let mut w = attach(&canned);
    w.finish();

    assert_eq!(w.session.window_count(), 2);
    assert_eq!(w.session.pane_count(), 3, "no duplicate/dangling mirrors");
    let homes = w
        .session
        .windows()
        .iter()
        .filter(|w| w.panes().iter().any(|p| p.remote_id() == Some(0)))
        .count();
    assert_eq!(homes, 1, "%0 must live in exactly one window");
    for win in w.session.windows() {
        let _ = win.workspace_info(None);
    }
}

#[test]
fn cross_window_move_destination_layout_first() {
    let mut canned = Vec::new();
    canned.extend_from_slice(b"\x1bP1000p");
    canned.extend_from_slice(b"%begin 1000 5 1\n%end 1000 5 1\n");
    canned.extend_from_slice(b"%begin 1000 6 1\n3.4\n%end 1000 6 1\n");
    canned.extend_from_slice(
        b"%begin 1000 7 1\n@1 %0 80 24\n@1 %1 80 24\n@2 %5 80 24\n%end 1000 7 1\n",
    );
    canned.extend_from_slice(b"%layout-change @2 bbbb,159x48,0,0{79x48,0,0,5,79x48,80,0,0}\n");
    canned.extend_from_slice(b"%layout-change @1 aaaa,80x24,0,0,1\n");
    canned.extend_from_slice(b"%exit\n");

    let mut w = attach(&canned);
    w.finish();

    let homes = w
        .session
        .windows()
        .iter()
        .filter(|w| w.panes().iter().any(|p| p.remote_id() == Some(0)))
        .count();
    assert_eq!(homes, 1, "%0 must live in exactly one window");
    for win in w.session.windows() {
        let _ = win.workspace_info(None);
    }
}

#[test]
fn a_mirror_knows_its_remote_panes_and_windows() {
    let mut canned = Vec::new();
    canned.extend_from_slice(b"\x1bP1000p");
    canned.extend_from_slice(b"%begin 1000 5 1\n%end 1000 5 1\n");
    canned.extend_from_slice(b"%begin 1000 6 1\n3.4\n%end 1000 6 1\n");
    canned.extend_from_slice(b"%begin 1000 7 1\n@4 %9 80 24\n%end 1000 7 1\n");
    let mut w = attach(&canned);
    assert!(w.pump());
    let id = find_pane(&w.session, 9).unwrap().id;
    let win = w.session.windows()[0].id;
    assert_eq!(w.att.remote_id_of(id), Some(9));
    assert_eq!(w.att.remote_window_for(win), Some(4));
    assert_eq!(w.att.remote_id_of(PaneId(id.0 + 50)), None);
    let _ = w.written();
    w.att.split_remote(9, true);
    w.att.kill_remote(9);
    w.att.kill_remote_window(4);
    w.att.resize_client(100, 30);
    assert_eq!(
        w.written(),
        [
            "split-window -t %9 -h",
            "kill-pane -t %9",
            "kill-window -t @4",
            "refresh-client -C 100x30"
        ]
    );
    assert!(w.att.is_open() && !w.att.finished());
}

#[test]
fn a_server_without_flow_control_is_warned_of_once() {
    let told = |version: &[u8]| {
        let mut canned = b"%begin 1000 5 1\n%end 1000 5 1\n%begin 1000 6 1\n".to_vec();
        canned.extend_from_slice(version);
        canned.extend_from_slice(b"\n%end 1000 6 1\n");
        let mut w = attach(&canned);
        let first = {
            w.pump();
            w.att.warning()
        };
        w.pump();
        assert_eq!(w.att.warning(), None, "not again");
        first
    };
    assert_eq!(
        told(b"3.1").as_deref(),
        Some(
            "gmux: remote tmux version 3.1 lacks flow control (need 3.2); running degraded \
             (no %pause auto-continue)"
        )
    );
    assert_eq!(told(b"3.4"), None);
}

#[test]
fn a_connection_tells_its_stream_once_and_in_order() {
    let stream =
        b"\x1bP1000p%begin 1 1 1\n%end 1 1 1\n%window-add @1\n%begin 1 2 1\nx\n%end 1 2 1\n%exit\n%window-add @2\n";
    for size in [1, 2, 7, stream.len()] {
        let mut t = RemoteTmux::new();
        let mut told = Vec::new();
        for chunk in stream.chunks(size) {
            t.feed(chunk);
            told.extend(t.drain_events());
        }
        t.end();
        t.feed(b"%window-add @3\n");
        t.end();
        told.extend(t.drain_events());
        let reply = |num, body: &[&[u8]]| Event::Reply {
            num,
            body: body.iter().map(|l| l.to_vec()).collect(),
            error: false,
        };
        assert_eq!(
            told,
            [
                TransportEvent::Greeting(reply(1, &[])),
                ctrl(Event::Notification(Notification::WindowAdd { window: 1 })),
                ctrl(reply(2, &[b"x"])),
                ctrl(Event::Notification(Notification::Exit { reason: None })),
                TransportEvent::Eof,
            ],
            "in chunks of {size}"
        );
    }
}

#[test]
fn a_pump_ends_after_the_goodbye_and_mirrors_die() {
    let mut canned = b"%begin 1 1 1\n%end 1 1 1\n%begin 1 2 1\n3.4\n%end 1 2 1\n".to_vec();
    canned.extend_from_slice(b"%begin 1 3 1\n@1 %0 80 24\n%end 1 3 1\n");
    let mut w = attach(&canned);
    assert!(w.pump());
    assert!(find_pane(&w.session, 0).unwrap().is_alive());
    w.att.feed(b"%exit\n");
    assert!(!w.pump());
    assert!(!find_pane(&w.session, 0).unwrap().is_alive());
    assert!(!w.pump(), "and stays over");
}
