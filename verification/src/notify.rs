//! Desktop notifications: the content of a toast, the queue of clicks, and the taskbar's progress.
use vstd::prelude::*;
use vstd::string::*;

use crate::text::push_char;
#[allow(unused_imports)]
use crate::text::texts_view;

verus! {

/// How loud a notification is. A critical one may break through "do not disturb".
#[derive(Debug, Clone, Copy, PartialEq, Eq, Structural)]
pub enum Urgency {
    Low,
    Normal,
    Critical,
}

/// The fill state of a taskbar button.
#[derive(Debug, Clone, Copy, PartialEq, Eq, Structural)]
pub enum ProgressState {
    /// No fill.
    NoProgress,
    Normal,
    Error,
    Indeterminate,
    Paused,
}

/// A toast to show.
#[derive(Debug)]
pub struct ToastRequest {
    /// Unique per pane; a toast with the same tag replaces the one before.
    pub tag: String,
    /// The session.
    pub group: String,
    pub title: String,
    pub body: String,
    pub urgency: Urgency,
    /// Comes back as it is when the toast is clicked.
    pub launch_arg: String,
}

// ---------------------------------------------------------------------------
// Text.
// ---------------------------------------------------------------------------

/// Control characters that no toast may hold: C0 and C1.
pub open spec fn is_c0_or_c1(c: char) -> bool {
    c <= '\u{1f}' || '\u{80}' <= c <= '\u{9f}'
}

/// A character in XML.
pub open spec fn xml_char(c: char) -> Seq<char> {
    if c == '&' {
        "&amp;"@
    } else if c == '<' {
        "&lt;"@
    } else if c == '>' {
        "&gt;"@
    } else if c == '"' {
        "&quot;"@
    } else if c == '\'' {
        "&apos;"@
    } else {
        seq![c]
    }
}

/// A text in XML, without control characters.
pub open spec fn xml_text(s: Seq<char>) -> Seq<char>
    decreases s.len(),
{
    if s.len() == 0 {
        Seq::empty()
    } else if is_c0_or_c1(s.last()) {
        xml_text(s.drop_last())
    } else {
        xml_text(s.drop_last()) + xml_char(s.last())
    }
}

/// Drops control characters and escapes what XML reserves.
pub fn sanitize_escape(s: &str) -> (r: String)
    ensures
        r@ == xml_text(s@),
{
    let chars = crate::text::chars_of(s);
    let mut out = String::new();
    let mut i: usize = 0;
    assert(s@.take(0) =~= Seq::empty());
    assert(out@ =~= Seq::empty());
    while i < chars.len()
        invariant
            i <= chars@.len(),
            chars@ == s@,
            out@ == xml_text(s@.take(i as int)),
        decreases chars@.len() - i,
    {
        assert(s@.take(i + 1).drop_last() =~= s@.take(i as int));
        assert(s@.take(i + 1).last() == s@[i as int]);
        let c = chars[i];
        if !(c <= '\u{1f}' || ('\u{80}' <= c && c <= '\u{9f}')) {
            let ghost before = out@;
            if c == '&' {
                out.append("&amp;");
            } else if c == '<' {
                out.append("&lt;");
            } else if c == '>' {
                out.append("&gt;");
            } else if c == '"' {
                out.append("&quot;");
            } else if c == '\'' {
                out.append("&apos;");
            } else {
                push_char(&mut out, c);
                assert(out@ =~= before + seq![c]);
            }
        }
        i = i + 1;
    }
    assert(s@.take(i as int) =~= s@);
    out
}

/// The scenario of an urgency; only a critical one has one.
pub open spec fn scenario_of(urgency: Urgency) -> Option<Seq<char>> {
    match urgency {
        Urgency::Critical => Some("urgent"@),
        _ => None,
    }
}

/// The scenario attribute's value for an urgency.
pub fn scenario_for(urgency: Urgency) -> (r: Option<&'static str>)
    ensures
        match r {
            Some(s) => scenario_of(urgency) == Some(s@),
            None => scenario_of(urgency) is None,
        },
{
    match urgency {
        Urgency::Critical => Some("urgent"),
        Urgency::Low => None,
        Urgency::Normal => None,
    }
}

/// The content of a toast.
pub open spec fn toast_xml(
    title: Seq<char>,
    body: Seq<char>,
    launch: Seq<char>,
    urgency: Urgency,
) -> Seq<char> {
    let attr = match scenario_of(urgency) {
        Some(s) => " scenario=\""@ + s + "\""@,
        None => Seq::empty(),
    };
    "<toast launch=\""@ + xml_text(launch) + "\" activationType=\"foreground\""@ + attr
        + ">\n  <visual>\n    <binding template=\"ToastGeneric\">\n      <text>"@ + xml_text(title)
        + "</text>\n      <text>"@ + xml_text(body)
        + "</text>\n    </binding>\n  </visual>\n  <actions>\n    <action content=\"Focus pane\" arguments=\""@
        + xml_text(launch) + "\" activationType=\"foreground\"/>\n  </actions>\n</toast>"@
}

/// Builds the content of a toast: title and body, the launch argument, and one action that carries
/// it too. All text is sanitized.
pub fn build_toast_xml_string(req: &ToastRequest) -> (s: String)
    ensures
        s@ == toast_xml(req.title@, req.body@, req.launch_arg@, req.urgency),
{
    let title = sanitize_escape(req.title.as_str());
    let body = sanitize_escape(req.body.as_str());
    let launch = sanitize_escape(req.launch_arg.as_str());
    let mut attr = String::new();
    assert(attr@ =~= Seq::empty());
    if let Some(s) = scenario_for(req.urgency) {
        attr = String::from_str(" scenario=\"");
        attr.append(s);
        attr.append("\"");
    }
    let mut out = String::from_str("<toast launch=\"");
    out.append(launch.as_str());
    out.append("\" activationType=\"foreground\"");
    out.append(attr.as_str());
    out.append(">\n  <visual>\n    <binding template=\"ToastGeneric\">\n      <text>");
    out.append(title.as_str());
    out.append("</text>\n      <text>");
    out.append(body.as_str());
    out.append(
        "</text>\n    </binding>\n  </visual>\n  <actions>\n    <action content=\"Focus pane\" arguments=\"",
    );
    out.append(launch.as_str());
    out.append("\" activationType=\"foreground\"/>\n  </actions>\n</toast>");
    out
}

// ---------------------------------------------------------------------------
// UTF-16.
// ---------------------------------------------------------------------------

/// A character in UTF-16.
pub open spec fn utf16_char(c: char) -> Seq<u16> {
    let n = c as u32;
    if n < 0x1_0000 {
        seq![n as u16]
    } else {
        seq![(0xd800 + (n - 0x1_0000) / 0x400) as u16, (0xdc00 + (n - 0x1_0000) % 0x400) as u16]
    }
}

/// A text in UTF-16.
pub open spec fn utf16(s: Seq<char>) -> Seq<u16>
    decreases s.len(),
{
    if s.len() == 0 {
        Seq::empty()
    } else {
        utf16(s.drop_last()) + utf16_char(s.last())
    }
}

/// Appends a text in UTF-16.
pub fn push_utf16(out: &mut Vec<u16>, s: &str)
    ensures
        final(out)@ == old(out)@ + utf16(s@),
{
    let chars = crate::text::chars_of(s);
    let mut i: usize = 0;
    assert(s@.take(0) =~= Seq::empty());
    assert(out@ =~= old(out)@ + utf16(s@.take(0)));
    while i < chars.len()
        invariant
            i <= chars@.len(),
            chars@ == s@,
            out@ == old(out)@ + utf16(s@.take(i as int)),
        decreases chars@.len() - i,
    {
        assert(s@.take(i + 1).drop_last() =~= s@.take(i as int));
        let n: u32 = chars[i] as u32;
        if n < 0x1_0000 {
            out.push(n as u16);
        } else {
            out.push((0xd800 + (n - 0x1_0000) / 0x400) as u16);
            out.push((0xdc00 + (n - 0x1_0000) % 0x400) as u16);
        }
        assert(out@ =~= old(out)@ + utf16(s@.take(i + 1)));
        i = i + 1;
    }
    assert(s@.take(i as int) =~= s@);
}

/// A text as a terminated UTF-16 buffer.
pub fn wide(s: &str) -> (v: Vec<u16>)
    ensures
        v@ == utf16(s@).push(0),
{
    let mut v: Vec<u16> = Vec::new();
    push_utf16(&mut v, s);
    assert(v@ =~= utf16(s@));
    v.push(0);
    v
}

// ---------------------------------------------------------------------------
// Clicks.
// ---------------------------------------------------------------------------

/// The application's identity, and the launch arguments of toasts that were clicked.
pub struct Notifier {
    aumid: String,
    activations: Vec<String>,
}

impl Notifier {
    pub closed spec fn aumid(&self) -> Seq<char> {
        self.aumid@
    }

    /// Launch arguments that wait.
    pub closed spec fn view(&self) -> Seq<Seq<char>> {
        texts_view(self.activations@)
    }

    /// A notifier for an application id, with nothing clicked.
    pub fn new(aumid: &str) -> (n: Notifier)
        ensures
            n.aumid() == aumid@,
            n@ == Seq::<Seq<char>>::empty(),
    {
        let n = Notifier { aumid: String::from_str(aumid), activations: Vec::new() };
        assert(n@ =~= Seq::empty());
        n
    }

    /// The application id.
    pub fn id(&self) -> (s: &str)
        ensures
            s@ == self.aumid(),
    {
        self.aumid.as_str()
    }

    /// A toast was clicked.
    pub fn activated(&mut self, launch_arg: String)
        ensures
            final(self)@ == old(self)@.push(launch_arg@),
            final(self).aumid() == old(self).aumid(),
    {
        self.activations.push(launch_arg);
        assert(self@ =~= old(self)@.push(launch_arg@));
    }

    /// Takes the launch arguments of the toasts that were clicked since the last call.
    pub fn poll_activations(&mut self) -> (args: Vec<String>)
        ensures
            texts_view(args@) == old(self)@,
            final(self)@ == Seq::<Seq<char>>::empty(),
            final(self).aumid() == old(self).aumid(),
    {
        let mut args: Vec<String> = Vec::new();
        std::mem::swap(&mut args, &mut self.activations);
        assert(self@ =~= Seq::empty());
        args
    }
}

/// The value that a taskbar button shows: only the states that have one take it, and it is at most
/// 100.
pub fn taskbar_value(state: ProgressState, pct: Option<u8>) -> (r: Option<u64>)
    ensures
        r == (if state == ProgressState::Normal || state == ProgressState::Error || state
            == ProgressState::Paused {
            match pct {
                Some(p) => Some(
                    if p < 100 {
                        p as u64
                    } else {
                        100u64
                    },
                ),
                None => None,
            }
        } else {
            None
        }),
{
    match state {
        ProgressState::NoProgress => None,
        ProgressState::Indeterminate => None,
        _ => match pct {
            Some(p) => Some(
                if p < 100 {
                    p as u64
                } else {
                    100
                },
            ),
            None => None,
        },
    }
}

// ---------------------------------------------------------------------------
// Laws.
// ---------------------------------------------------------------------------

/// Whether a character can stand in XML text as it is; `&` stands only where an entity starts.
pub open spec fn is_clean(c: char) -> bool {
    !is_c0_or_c1(c) && c != '<' && c != '>' && c != '"' && c != '\''
}

proof fn lemma_entity(c: char, i: int)
    requires
        !is_c0_or_c1(c),
        0 <= i < xml_char(c).len(),
    ensures
        is_clean(xml_char(c)[i]),
{
    reveal_strlit("&amp;");
    reveal_strlit("&lt;");
    reveal_strlit("&gt;");
    reveal_strlit("&quot;");
    reveal_strlit("&apos;");
}

/// Sanitized text holds no control character and nothing that could end an element or an
/// attribute, whatever the text was.
pub proof fn sanitized_text_is_clean(s: Seq<char>, i: int)
    requires
        0 <= i < xml_text(s).len(),
    ensures
        is_clean(xml_text(s)[i]),
    decreases s.len(),
{
    let front = xml_text(s.drop_last());
    if i < front.len() {
        sanitized_text_is_clean(s.drop_last(), i);
    } else {
        lemma_entity(s.last(), i - front.len());
    }
}

/// Text in XML is the text of its parts, one behind the other.
pub proof fn sanitizing_goes_by_parts(a: Seq<char>, b: Seq<char>)
    ensures
        xml_text(a + b) == xml_text(a) + xml_text(b),
    decreases b.len(),
{
    if b.len() == 0 {
        assert(a + b =~= a);
        assert(xml_text(a) + xml_text(b) =~= xml_text(a));
    } else {
        sanitizing_goes_by_parts(a, b.drop_last());
        assert((a + b).drop_last() =~= a + b.drop_last());
        assert((a + b).last() == b.last());
        if !is_c0_or_c1(b.last()) {
            assert(xml_text(a) + xml_text(b.drop_last()) + xml_char(b.last()) =~= xml_text(a) + (
            xml_text(b.drop_last()) + xml_char(b.last())));
        }
    }
}

/// Control characters are left out, the five characters that XML reserves become their entities, and
/// every other character stays as it is.
pub proof fn reserved_characters_become_entities(c: char)
    ensures
        c < ' ' || '\u{80}' <= c <= '\u{9f}' ==> xml_text(seq![c]).len() == 0,
        xml_text(seq!['&']) == "&amp;"@,
        xml_text(seq!['<']) == "&lt;"@,
        xml_text(seq!['>']) == "&gt;"@,
        xml_text(seq!['"']) == "&quot;"@,
        xml_text(seq!['\'']) == "&apos;"@,
        !(c < ' ' || '\u{80}' <= c <= '\u{9f}') && c != '&' && c != '<' && c != '>' && c != '"' && c
            != '\'' ==> xml_text(seq![c]) == seq![c],
{
    lemma_one(c);
    lemma_one('&');
    lemma_one('<');
    lemma_one('>');
    lemma_one('"');
    lemma_one('\'');
}

proof fn lemma_one(c: char)
    ensures
        xml_text(seq![c]) == if is_c0_or_c1(c) {
            Seq::<char>::empty()
        } else {
            xml_char(c)
        },
{
    reveal_with_fuel(xml_text, 2);
    assert(seq![c].drop_last() =~= Seq::<char>::empty());
    assert(Seq::<char>::empty() + xml_char(c) =~= xml_char(c));
}

/// A toast shows its title and, below it, its body; both clicking it and its button hand back the
/// launch argument.
pub proof fn toasts_show_title_and_body(
    title: Seq<char>,
    body: Seq<char>,
    launch: Seq<char>,
    urgency: Urgency,
)
    ensures
        exists|a: Seq<char>, b: Seq<char>, c: Seq<char>| #[trigger]
            ("<toast launch=\""@ + xml_text(launch) + "\""@ + a + "<text>"@ + xml_text(title)
                + "</text>"@ + b + "<text>"@ + xml_text(body) + "</text>"@ + c + " arguments=\""@
                + xml_text(launch)
                + "\" activationType=\"foreground\"/>\n  </actions>\n</toast>"@) == toast_xml(
                title,
                body,
                launch,
                urgency,
            ),
{
    let attr = match scenario_of(urgency) {
        Some(s) => " scenario=\""@ + s + "\""@,
        None => Seq::empty(),
    };
    let a = " activationType=\"foreground\""@ + attr
        + ">\n  <visual>\n    <binding template=\"ToastGeneric\">\n      "@;
    let b = "\n      "@;
    let c = "\n    </binding>\n  </visual>\n  <actions>\n    <action content=\"Focus pane\""@;
    lemma_toast_texts();
    let made = "<toast launch=\""@ + xml_text(launch) + "\""@ + a + "<text>"@ + xml_text(title)
        + "</text>"@ + b + "<text>"@ + xml_text(body) + "</text>"@ + c + " arguments=\""@ + xml_text(
        launch,
    ) + "\" activationType=\"foreground\"/>\n  </actions>\n</toast>"@;
    assert("</text>"@ + b + "<text>"@ =~= "</text>\n      <text>"@);
    assert("</text>"@ + c + " arguments=\""@
        =~= "</text>\n    </binding>\n  </visual>\n  <actions>\n    <action content=\"Focus pane\" arguments=\""@);
    assert("\""@ + " activationType=\"foreground\""@ =~= "\" activationType=\"foreground\""@);
    assert(">\n  <visual>\n    <binding template=\"ToastGeneric\">\n      "@ + "<text>"@
        =~= ">\n  <visual>\n    <binding template=\"ToastGeneric\">\n      <text>"@);
    assert(made =~= "<toast launch=\""@ + xml_text(launch) + ("\""@
        + " activationType=\"foreground\""@) + attr + (
    ">\n  <visual>\n    <binding template=\"ToastGeneric\">\n      "@ + "<text>"@) + xml_text(title)
        + ("</text>"@ + b + "<text>"@) + xml_text(body) + ("</text>"@ + c + " arguments=\""@)
        + xml_text(launch) + "\" activationType=\"foreground\"/>\n  </actions>\n</toast>"@);
    assert(made == toast_xml(title, body, launch, urgency));
}

proof fn lemma_toast_texts()
    ensures
        "</text>"@ + "\n      "@ + "<text>"@ == "</text>\n      <text>"@,
        "</text>"@
            + "\n    </binding>\n  </visual>\n  <actions>\n    <action content=\"Focus pane\""@
            + " arguments=\""@
            == "</text>\n    </binding>\n  </visual>\n  <actions>\n    <action content=\"Focus pane\" arguments=\""@,
        "\""@ + " activationType=\"foreground\""@ == "\" activationType=\"foreground\""@,
        ">\n  <visual>\n    <binding template=\"ToastGeneric\">\n      "@ + "<text>"@
            == ">\n  <visual>\n    <binding template=\"ToastGeneric\">\n      <text>"@,
{
    reveal_strlit("</text>");
    reveal_strlit("\n      ");
    reveal_strlit("<text>");
    reveal_strlit("</text>\n      <text>");
    reveal_strlit("\n    </binding>\n  </visual>\n  <actions>\n    <action content=\"Focus pane\"");
    reveal_strlit(" arguments=\"");
    reveal_strlit(
        "</text>\n    </binding>\n  </visual>\n  <actions>\n    <action content=\"Focus pane\" arguments=\"",
    );
    reveal_strlit("\"");
    reveal_strlit(" activationType=\"foreground\"");
    reveal_strlit("\" activationType=\"foreground\"");
    reveal_strlit(">\n  <visual>\n    <binding template=\"ToastGeneric\">\n      ");
    reveal_strlit(">\n  <visual>\n    <binding template=\"ToastGeneric\">\n      <text>");
}

/// A critical toast is the ordinary one with the urgent scenario among the attributes of its root; a
/// low one is the ordinary one.
pub proof fn only_critical_toasts_are_urgent(
    title: Seq<char>,
    body: Seq<char>,
    launch: Seq<char>,
)
    ensures
        toast_xml(title, body, launch, Urgency::Low) == toast_xml(
            title,
            body,
            launch,
            Urgency::Normal,
        ),
        ({
            let at = ("<toast launch=\""@ + xml_text(launch)
                + "\" activationType=\"foreground\""@).len() as int;
            let ordinary = toast_xml(title, body, launch, Urgency::Normal);
            &&& at <= ordinary.len()
            &&& toast_xml(title, body, launch, Urgency::Critical) == ordinary.take(at)
                + " scenario=\"urgent\""@ + ordinary.skip(at)
        }),
{
    let at = ("<toast launch=\""@ + xml_text(launch) + "\" activationType=\"foreground\""@).len() as int;
    let ordinary = toast_xml(title, body, launch, Urgency::Normal);
    reveal_strlit(" scenario=\"");
    reveal_strlit("urgent");
    reveal_strlit("\"");
    reveal_strlit(" scenario=\"urgent\"");
    assert(" scenario=\""@ + "urgent"@ + "\""@ =~= " scenario=\"urgent\""@);
    assert(toast_xml(title, body, launch, Urgency::Critical) =~= ordinary.take(at)
        + " scenario=\"urgent\""@ + ordinary.skip(at));
}

/// Text in UTF-16 is the text of its parts, one behind the other.
pub proof fn utf16_goes_by_parts(a: Seq<char>, b: Seq<char>)
    ensures
        utf16(a + b) == utf16(a) + utf16(b),
    decreases b.len(),
{
    if b.len() == 0 {
        assert(a + b =~= a);
        assert(utf16(a) + utf16(b) =~= utf16(a));
    } else {
        utf16_goes_by_parts(a, b.drop_last());
        assert((a + b).drop_last() =~= a + b.drop_last());
        assert(utf16(a) + utf16(b.drop_last()) + utf16_char(b.last()) =~= utf16(a) + (utf16(
            b.drop_last(),
        ) + utf16_char(b.last())));
    }
}

/// A character below 65536 is its own unit; another is two, whose lower ten bits, ten by ten, are
/// the character less 65536.
pub proof fn utf16_units_are_their_character(c: char)
    ensures
        (c as int) < 65536 ==> utf16(seq![c]).len() == 1 && utf16(seq![c])[0] == c as int,
        (c as int) >= 65536 ==> {
            let u = utf16(seq![c]);
            &&& u.len() == 2
            &&& 0xd800 <= u[0] < 0xdc00
            &&& 0xdc00 <= u[1] < 0xe000
            &&& (u[0] - 0xd800) * 1024 + (u[1] - 0xdc00) + 65536 == c as int
        },
{
    reveal_with_fuel(utf16, 2);
    assert(seq![c].drop_last() =~= Seq::<char>::empty());
    assert(Seq::<u16>::empty() + utf16_char(c) =~= utf16_char(c));
}

} // verus!
