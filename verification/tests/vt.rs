//! The terminal: notifications in escape sequences, the grid and the cursor.
use gmux::vt::decode::base64_decode;
use gmux::vt::osc::OscState;
use gmux::vt::{Notification, NotifyKind, ProgressState, PromptMark, TermEvent, Terminal};

fn non_damage(evs: Vec<TermEvent>) -> Vec<TermEvent> {
    evs.into_iter().filter(|e| !matches!(e, TermEvent::Damage)).collect()
}

fn first_notification(evs: &[TermEvent]) -> &Notification {
    evs.iter()
        .find_map(|e| match e {
            TermEvent::Notification(n) => Some(n),
            _ => None,
        })
        .expect("expected a Notification event")
}

#[test]
fn m0_osc9_notification() {
    let mut t = Terminal::new(80, 24);
    let evs = non_damage(t.advance(b"\x1b]9;gmux osc9 message\x07"));
    let n = first_notification(&evs);
    assert_eq!(n.kind, NotifyKind::Osc9);
    assert_eq!(n.title, "gmux osc9 message");
    assert_eq!(n.body, "");
}

#[test]
fn m0_osc777_notification() {
    let mut t = Terminal::new(80, 24);
    let evs = non_damage(t.advance(b"\x1b]777;notify;T;B\x07"));
    let n = first_notification(&evs);
    assert_eq!(n.kind, NotifyKind::Osc777);
    assert_eq!(n.title, "T");
    assert_eq!(n.body, "B");
}

#[test]
fn m0_osc99_notification() {
    let mut t = Terminal::new(80, 24);
    let evs = non_damage(t.advance(b"\x1b]99;i=1:p=title;hi\x07"));
    let n = first_notification(&evs);
    assert_eq!(n.kind, NotifyKind::Osc99);
    assert_eq!(n.title, "hi");
    assert_eq!(n.id.as_deref(), Some("1"));
}

#[test]
fn osc_split_across_advance() {
    let mut t = Terminal::new(80, 24);
    let first = non_damage(t.advance(b"\x1b]9;hel"));
    assert!(first.iter().all(|e| !matches!(e, TermEvent::Notification(_))));
    let second = non_damage(t.advance(b"lo\x07"));
    let n = first_notification(&second);
    assert_eq!(n.kind, NotifyKind::Osc9);
    assert_eq!(n.title, "hello");
}

#[test]
fn st_terminator_osc9() {
    let mut t = Terminal::new(80, 24);
    let evs = non_damage(t.advance(b"\x1b]9;st term msg\x1b\\"));
    let n = first_notification(&evs);
    assert_eq!(n.kind, NotifyKind::Osc9);
    assert_eq!(n.title, "st term msg");
}

#[test]
fn st_terminator_osc777() {
    let mut t = Terminal::new(80, 24);
    let evs = non_damage(t.advance(b"\x1b]777;notify;Title;Body\x1b\\"));
    let n = first_notification(&evs);
    assert_eq!(n.kind, NotifyKind::Osc777);
    assert_eq!(n.title, "Title");
    assert_eq!(n.body, "Body");
}

#[test]
fn st_terminator_osc99() {
    let mut t = Terminal::new(80, 24);
    let evs = non_damage(t.advance(b"\x1b]99;i=7:p=title;kittytitle\x1b\\"));
    let n = first_notification(&evs);
    assert_eq!(n.kind, NotifyKind::Osc99);
    assert_eq!(n.title, "kittytitle");
    assert_eq!(n.id.as_deref(), Some("7"));
}

#[test]
fn osc9_4_progress_set_with_pct() {
    let mut t = Terminal::new(80, 24);
    let evs = non_damage(t.advance(b"\x1b]9;4;1;42\x07"));
    assert!(evs.contains(&TermEvent::Progress { state: ProgressState::Value, pct: Some(42) }));
}

#[test]
fn osc9_4_progress_remove() {
    let mut t = Terminal::new(80, 24);
    let evs = non_damage(t.advance(b"\x1b]9;4;0\x07"));
    assert!(evs.contains(&TermEvent::Progress { state: ProgressState::Remove, pct: None }));
}

#[test]
fn osc9_9_cwd() {
    let mut t = Terminal::new(80, 24);
    let evs = non_damage(t.advance(b"\x1b]9;9;\"C:\\repo\"\x07"));
    assert!(evs.contains(&TermEvent::Cwd("C:\\repo".to_string())));
}

#[test]
fn osc777_body_with_semicolons() {
    let mut t = Terminal::new(80, 24);
    let evs = non_damage(t.advance(b"\x1b]777;notify;MyTitle;part1;part2;part3\x07"));
    let n = first_notification(&evs);
    assert_eq!(n.kind, NotifyKind::Osc777);
    assert_eq!(n.title, "MyTitle");
    assert_eq!(n.body, "part1;part2;part3");
}

#[test]
fn osc99_two_chunk() {
    let mut t = Terminal::new(80, 24);
    let a = non_damage(t.advance(b"\x1b]99;i=1:d=0;the title\x07"));
    assert!(a.iter().all(|e| !matches!(e, TermEvent::Notification(_))));
    let b = non_damage(t.advance(b"\x1b]99;i=1:p=body:d=1;the body\x07"));
    let n = first_notification(&b);
    assert_eq!(n.kind, NotifyKind::Osc99);
    assert_eq!(n.title, "the title");
    assert_eq!(n.body, "the body");
    assert_eq!(n.id.as_deref(), Some("1"));
}

#[test]
fn osc133_prompt_marks() {
    let mut t = Terminal::new(80, 24);
    let a = non_damage(t.advance(b"\x1b]133;A\x07"));
    assert!(a.contains(&TermEvent::PromptMark(PromptMark::PromptStart)));

    let b = non_damage(t.advance(b"\x1b]133;B\x07"));
    assert!(b.contains(&TermEvent::PromptMark(PromptMark::CommandStart)));

    let c = non_damage(t.advance(b"\x1b]133;C\x07"));
    assert!(c.contains(&TermEvent::PromptMark(PromptMark::CommandExecuted)));

    let d = non_damage(t.advance(b"\x1b]133;D;0\x07"));
    assert!(d.contains(&TermEvent::PromptMark(PromptMark::CommandFinished(Some(0)))));
}

#[test]
fn sgr_red_text() {
    let mut t = Terminal::new(80, 24);
    t.advance(b"\x1b[31mred\x1b[0m");
    let text = t.visible_text();
    assert!(text[0].starts_with("red"), "row0 = {:?}", text[0]);
    let cells = t.visible_cells();
    let fg = cells[0][0].fg;
    assert!(fg.r > fg.g && fg.r > fg.b, "expected red-ish fg, got {:?}", fg);
    assert!(fg.r >= 0x80, "expected strong red channel, got {:?}", fg);
}

#[test]
fn cursor_after_text() {
    let mut t = Terminal::new(80, 24);
    t.advance(b"hello");
    assert_eq!(t.cursor(), (5, 0));
}

#[test]
fn bare_bell_event() {
    let mut t = Terminal::new(80, 24);
    let evs = non_damage(t.advance(b"\x07"));
    assert!(evs.contains(&TermEvent::Bell));
}

#[test]
fn osc2_title() {
    let mut t = Terminal::new(80, 24);
    let evs = non_damage(t.advance(b"\x1b]2;gmux - agent\x07"));
    assert!(evs.contains(&TermEvent::Title("gmux - agent".to_string())));
}

#[test]
fn osc9_unknown_numeric_swallowed() {
    let mut t = Terminal::new(80, 24);
    let evs = non_damage(t.advance(b"\x1b]9;5\x07"));
    assert!(evs.iter().all(|e| !matches!(e, TermEvent::Notification(_))));
}

#[test]
fn osc9_prompt_mark_12() {
    let mut t = Terminal::new(80, 24);
    let evs = non_damage(t.advance(b"\x1b]9;12\x07"));
    assert!(evs.contains(&TermEvent::PromptMark(PromptMark::PromptStart)));
}

#[test]
fn osc7_cwd_file_uri() {
    let mut t = Terminal::new(80, 24);
    let evs = non_damage(t.advance(b"\x1b]7;file://HOST/C:/repo/sub\x1b\\"));
    assert!(evs.contains(&TermEvent::Cwd("C:\\repo\\sub".to_string())), "evs = {:?}", evs);
}

#[test]
fn osc99_base64_payload() {
    let mut t = Terminal::new(80, 24);
    let evs = non_damage(t.advance(b"\x1b]99;i=2:e=1:p=title;aGVsbG8=\x07"));
    let n = first_notification(&evs);
    assert_eq!(n.title, "hello");
}

#[test]
fn osc99_single_shot_no_id() {
    let mut t = Terminal::new(80, 24);
    let evs = non_damage(t.advance(b"\x1b]99;;Hello world\x07"));
    let n = first_notification(&evs);
    assert_eq!(n.title, "Hello world");
    assert_eq!(n.id, None);
}

#[test]
fn damage_emitted_once_per_nonempty_advance() {
    let mut t = Terminal::new(80, 24);
    let evs = t.advance(b"abc");
    assert_eq!(evs.iter().filter(|e| matches!(e, TermEvent::Damage)).count(), 1);
    let empty = t.advance(b"");
    assert!(empty.is_empty());
}

#[test]
fn resize_updates_dims() {
    let mut t = Terminal::new(80, 24);
    assert_eq!((t.cols(), t.rows()), (80, 24));
    t.resize(100, 40);
    assert_eq!((t.cols(), t.rows()), (100, 40));
    assert_eq!(t.visible_cells().len(), 40);
    assert_eq!(t.visible_cells()[0].len(), 100);
}

#[test]
fn newline_moves_cursor_down() {
    let mut t = Terminal::new(80, 24);
    t.advance(b"ab\r\ncd");
    assert_eq!(t.cursor(), (2, 1));
    let text = t.visible_text();
    assert_eq!(text[0], "ab");
    assert_eq!(text[1], "cd");
}


fn nd(evs: Vec<TermEvent>) -> Vec<TermEvent> {
    evs.into_iter().filter(|e| !matches!(e, TermEvent::Damage)).collect()
}
fn notif(evs: &[TermEvent]) -> Option<&Notification> {
    evs.iter().find_map(|e| match e { TermEvent::Notification(n) => Some(n), _ => None })
}

#[test]
fn probe_9_4_progress_not_notification() {
    let mut t = Terminal::new(80, 24);
    let evs = nd(t.advance(b"\x1b]9;4;1;50\x07"));
    assert!(notif(&evs).is_none(), "9;4 progress must not be a notification");
}

#[test]
fn probe_9_space_tasks_done_is_notification() {
    let mut t = Terminal::new(80, 24);
    let evs = nd(t.advance(b"\x1b]9;9 tasks done\x07"));
    let n = notif(&evs).expect("prose starting with digit+space IS a notification");
    assert_eq!(n.title, "9 tasks done");
}

#[test]
fn probe_systemd_bare_indeterminate() {
    let mut t = Terminal::new(80, 24);
    let evs = nd(t.advance(b"\x1b]9;4;3\x07"));
    assert!(notif(&evs).is_none(), "systemd bare 9;4;3 must not be a toast");
    assert!(evs.contains(&TermEvent::Progress { state: ProgressState::Indeterminate, pct: None }));
}

#[test]
fn probe_unknown_osc99_meta_key_ignored() {
    let mut t = Terminal::new(80, 24);
    let evs = nd(t.advance(b"\x1b]99;i=5:z=foo:p=title;hey\x07"));
    let n = notif(&evs).expect("unknown osc99 meta key must be ignored, notification still emitted");
    assert_eq!(n.title, "hey");
    assert_eq!(n.id.as_deref(), Some("5"));
}

#[test]
fn probe_split_mid_metadata() {
    let mut t = Terminal::new(80, 24);
    let a = nd(t.advance(b"\x1b]99;i=9:p=ti"));
    assert!(notif(&a).is_none());
    let b = nd(t.advance(b"tle;the title\x07"));
    let n = notif(&b).expect("split mid-metadata must still parse");
    assert_eq!(n.title, "the title");
    assert_eq!(n.id.as_deref(), Some("9"));
}

#[test]
fn probe_split_mid_terminator_esc_then_backslash() {
    let mut t = Terminal::new(80, 24);
    let a = nd(t.advance(b"\x1b]9;split ST\x1b"));
    let n = notif(&a).expect("OSC dispatches on terminating ESC");
    assert_eq!(n.title, "split ST");
    let b = nd(t.advance(b"\\"));
    assert!(notif(&b).is_none(), "trailing backslash must not double-dispatch");
}

#[test]
fn probe_split_full_st_next_chunk() {
    let mut t = Terminal::new(80, 24);
    let a = nd(t.advance(b"\x1b]777;notify;Ti;Bo"));
    assert!(notif(&a).is_none());
    let b = nd(t.advance(b"\x1b\\"));
    let n = notif(&b).expect("whole ST in next chunk terminates");
    assert_eq!(n.title, "Ti");
    assert_eq!(n.body, "Bo");
}

#[test]
fn probe_utf8_multibyte_split() {
    let mut t = Terminal::new(80, 24);
    t.advance(&[0xC3]);
    t.advance(&[0xA9]);
    let text = t.visible_text();
    assert_eq!(text[0], "é", "multibyte char split across advance must render");
}

#[test]
fn probe_long_osc_no_terminator_bounded() {
    let mut t = Terminal::new(80, 24);
    let mut payload = Vec::with_capacity(5_000_000 + 8);
    payload.extend_from_slice(b"\x1b]9;");
    payload.resize(payload.len() + 5_000_000, b'A');
    let evs = t.advance(&payload);
    assert!(evs.iter().all(|e| !matches!(e, TermEvent::Notification(_))));
}

#[test]
fn a_notification_is_recognized_wherever_it_is_split() {
    let openings: [&[u8]; 6] =
        [b"", b"plain \xc3\xa9", b"\x1b[31", b"\x1bP1;2q", b"\x1b]2;open title", b"cut \xe4\xb8"];
    for opening in openings {
        let mut bytes = opening.to_vec();
        bytes.extend_from_slice(b"\x1b]777;notify;T\xc3\xa9;B;C\x07");
        for cut in 0..bytes.len() {
            let mut t = Terminal::new(80, 24);
            let mut evs = t.advance(&bytes[..cut]);
            evs.extend(t.advance(&bytes[cut..]));
            let n = first_notification(&evs);
            assert_eq!((n.title.as_str(), n.body.as_str()), ("Té", "B;C"));
        }
        let mut t = Terminal::new(80, 24);
        let mut evs = Vec::new();
        for b in &bytes {
            evs.extend(t.advance(&[*b]));
        }
        assert_eq!(first_notification(&evs).title, "Té");
    }
}

#[test]
fn an_osc_sequence_has_sixteen_parameters_at_most() {
    let mut t = Terminal::new(80, 24);
    let evs = t.advance(b"\x1b]9;a;b;c;d;e;f;g;h;i;j;k;l;m;n;o;p;q;r\x1b\\");
    assert_eq!(first_notification(&evs).title, "a;b;c;d;e;f;g;h;i;j;k;l;m;n;o");
}

#[test]
fn posix_paths_are_left_intact() {
    let cases: [(&[u8], &str); 6] = [
        (b"\x1b]7;file://host/home/user\x07", "/home/user"),
        (b"\x1b]7;file:///home/a%20b\x07", "/home/a b"),
        (b"\x1b]7;file://host/\x07", "/"),
        (b"\x1b]7;file://host\x07", ""),
        (b"\x1b]7;file:///C:/repo\x07", "C:\\repo"),
        (b"\x1b]7;file://h//C:/repo\x07", "C:\\repo"),
    ];
    for (bytes, path) in cases {
        let evs = non_damage(Terminal::new(80, 24).advance(bytes));
        assert!(matches!(&evs[..], [TermEvent::Cwd(p)] if p == path), "{path}");
    }
}

#[test]
fn osc99_chunks_of_mixed_ids_are_kept_apart() {
    let mut t = Terminal::new(80, 24);
    let mut feed = |s: &str| non_damage(t.advance(format!("\x1b]99;{s}\x07").as_bytes()));
    assert!(feed("i=a:d=0;one ").is_empty());
    assert!(feed("i=b:d=0:p=body;body of b").is_empty());
    let plain = feed(";plain");
    assert_eq!(first_notification(&plain).title, "plain");
    assert!(feed("i=a:d=0:p=body;body of a").is_empty());
    let b = feed("i=b;title of b");
    let n = first_notification(&b);
    assert_eq!((n.title.as_str(), n.body.as_str()), ("title of b", "body of b"));
    let a = feed("i=a;two");
    let n = first_notification(&a);
    assert_eq!((n.title.as_str(), n.body.as_str()), ("one two", "body of a"));
    assert_eq!(n.id.as_deref(), Some("a"));
    let again = feed("i=a;three");
    assert_eq!(first_notification(&again).title, "three", "nothing is left of what was closed");
}

#[test]
fn base64_needs_no_padding_and_refuses_foreign_bytes() {
    for text in ["", "a", "ab", "abc", "abcd"] {
        let padded = ["", "YQ==", "YWI=", "YWJj", "YWJjZA=="][text.len()];
        let want = Some(text.as_bytes().to_vec());
        assert_eq!(base64_decode(padded.as_bytes()), want);
        assert_eq!(base64_decode(padded.trim_end_matches('=').as_bytes()), want);
    }
    assert_eq!(base64_decode(b"YW*j"), None);
    assert_eq!(base64_decode(b"YWJj!"), None);
}

#[test]
fn kitty_chunks_accumulate_until_they_are_done() {
    let mut state = OscState::new();
    let mut out = Vec::new();
    let chunk = |meta: &[u8], text: &[u8]| vec![b"99".to_vec(), meta.to_vec(), text.to_vec()];
    state.osc_99(&chunk(b"i=7:d=0:p=title", b"Hello"), &mut out);
    assert!(out.is_empty(), "an unfinished chunk reports nothing");
    state.osc_99(&chunk(b"i=7:d=1:p=body", b"World"), &mut out);
    assert_eq!(out.len(), 1);
    match &out[0] {
        TermEvent::Notification(n) => {
            assert_eq!((n.title.as_str(), n.body.as_str()), ("Hello", "World"));
        }
        other => panic!("expected a notification, got {other:?}"),
    }
}
