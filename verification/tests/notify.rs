//! Toasts: what is left of a hostile text, and the document that shows it.
use gmux::notify::{
    build_toast_xml_string, sanitize_escape, scenario_for, taskbar_value, wide, Notifier,
    ProgressState, ToastRequest, Urgency,
};

#[test]
fn sanitize_escapes_five_xml_specials() {
    let input = r#"a & b < c > d " e ' f"#;
    let out = sanitize_escape(input);
    assert_eq!(out, "a &amp; b &lt; c &gt; d &quot; e &apos; f");
}

#[test]
fn sanitize_strips_c0_control_chars() {
    let input = "hel\u{0}lo\tworld\r\n\u{1}\u{1f}!";
    let out = sanitize_escape(input);
    assert_eq!(out, "helloworld!");
    assert!(!out.chars().any(|c| (c as u32) <= 0x1F));
}

#[test]
fn sanitize_strips_c1_control_chars() {
    let input = "x\u{80}y\u{9f}z\u{a0}\u{2603}";
    let out = sanitize_escape(input);
    assert_eq!(out, "xyz\u{a0}\u{2603}");
    assert!(!out.chars().any(|c| (0x80..=0x9F).contains(&(c as u32))));
}

#[test]
fn sanitize_neutralizes_metachars_and_control_bytes_together() {
    let input = "&\u{1b}<\u{0a}>\u{07}\"'";
    let out = sanitize_escape(input);
    assert_eq!(out, "&amp;&lt;&gt;&quot;&apos;");
    assert!(
        !out.chars().any(|c| {
            let u = c as u32;
            u <= 0x1F || (0x80..=0x9F).contains(&u)
        }),
        "sanitized output still holds a raw control byte: {out:?}"
    );
    for bad in ['\u{1b}', '\u{0a}', '\u{07}'] {
        assert!(!out.contains(bad), "byte {:#x} survived", bad as u32);
    }
}

#[test]
fn xml_title_with_metachars_and_control_bytes_is_neutralized() {
    let hostile_title = "a&b\u{1b}<c>\u{0a}\"d\u{07}'e";
    let req = ToastRequest {
        tag: "pane-9".into(),
        group: "sess-1".into(),
        title: hostile_title.into(),
        body: "clean body".into(),
        urgency: Urgency::Normal,
        launch_arg: "pane=9;action=focus".into(),
    };
    let xml = build_toast_xml_string(&req);

    let expected_title = "a&amp;b&lt;c&gt;&quot;d&apos;e";
    assert!(
        xml.contains(&format!("<text>{expected_title}</text>")),
        "escaped title not found in XML:\n{xml}"
    );

    let title_node = xml
        .split("<text>")
        .nth(1)
        .and_then(|s| s.split("</text>").next())
        .expect("title <text> node present");
    assert_eq!(title_node, expected_title);
    assert!(!title_node.contains('&') || title_node.contains("&amp;"));
    for raw in ['<', '>', '"', '\''] {
        assert!(
            !title_node.contains(raw),
            "raw metachar {raw:?} survived in title node: {title_node:?}"
        );
    }

    for bad in [0x1bu32, 0x07u32] {
        assert!(
            !xml.chars().any(|c| c as u32 == bad),
            "control byte {bad:#x} leaked into XML"
        );
    }
    assert!(
        !title_node.chars().any(|c| c as u32 == 0x0a),
        "newline leaked into the title node"
    );

    assert!(
        !title_node.chars().any(|c| (c as u32) <= 0x1F),
        "a C0 control byte survived in the title node"
    );
    assert!(
        !xml.chars().any(|c| (0x80..=0x9F).contains(&(c as u32))),
        "a C1 control byte survived in the XML"
    );
}

fn sample_request(urgency: Urgency) -> ToastRequest {
    ToastRequest {
        tag: "pane-5".into(),
        group: "sess-0".into(),
        title: "agent <build> & \"deploy\"".into(),
        body: "line1\u{0}line2 <tag> ' & done".into(),
        urgency,
        launch_arg: "pane=5;action=focus".into(),
    }
}

#[test]
fn xml_contains_escaped_title_and_body_and_launch_arg() {
    let xml = build_toast_xml_string(&sample_request(Urgency::Normal));

    assert!(xml.contains("agent &lt;build&gt; &amp; &quot;deploy&quot;"));
    assert!(xml.contains("line1line2 &lt;tag&gt; &apos; &amp; done"));
    assert!(xml.contains(r#"launch="pane=5;action=focus""#));
    assert!(xml.contains(r#"arguments="pane=5;action=focus""#));
}

#[test]
fn xml_has_no_raw_control_chars() {
    let xml = build_toast_xml_string(&sample_request(Urgency::Normal));
    assert!(!xml.chars().any(|c| c as u32 == 0x0));
    assert!(!xml
        .chars()
        .any(|c| (0x80..=0x9F).contains(&(c as u32))));
}

#[test]
fn critical_maps_to_urgent_scenario() {
    let xml = build_toast_xml_string(&sample_request(Urgency::Critical));
    assert!(xml.contains(r#"scenario="urgent""#));
    assert_eq!(scenario_for(Urgency::Critical), Some("urgent"));
}

#[test]
fn non_critical_has_no_scenario() {
    for u in [Urgency::Low, Urgency::Normal] {
        let xml = build_toast_xml_string(&sample_request(u));
        assert!(!xml.contains("scenario="));
        assert_eq!(scenario_for(u), None);
    }
}

#[test]
fn activations_are_polled_once() {
    let mut n = Notifier::new("com.gmux.test");
    assert_eq!(n.id(), "com.gmux.test");
    n.activated("pane=5;action=focus".to_string());
    n.activated("pane=6;action=focus".to_string());
    assert_eq!(n.poll_activations(), ["pane=5;action=focus", "pane=6;action=focus"]);
    assert!(n.poll_activations().is_empty());
}

#[test]
fn texts_become_utf16_with_an_end() {
    assert_eq!(wide("a\u{1f980}"), vec![0x61, 0xd83e, 0xdd80, 0]);
    assert_eq!(wide(""), vec![0]);
}

#[test]
fn the_taskbar_shows_percentages() {
    assert_eq!(taskbar_value(ProgressState::Normal, Some(42)), Some(42));
    assert_eq!(taskbar_value(ProgressState::NoProgress, Some(42)), None);
}
