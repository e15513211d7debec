//! OSC sequences: what a program tells the terminal besides text.
//!
//! Titles (OSC 0/2), working directory (OSC 7 and 9;9), notifications (OSC 9, 777 and 99),
//! progress (OSC 9;4), prompt marks (OSC 133 and 9;12) and the clipboard (OSC 52). A sequence
//! arrives as its parameters, which were separated by `;`.
use vstd::prelude::*;
use vstd::string::*;
use vstd::utf8::*;

use crate::text::{
    bytes_eq, chars_of, find_byte, find_char, lossy, parse_i32, parse_number, starts_with, str_eq,
    string_of, strip_controls, trim,
};
#[allow(unused_imports)]
use crate::text::{
    after, before, find, has_prefix, lines_view, opt_text, parse_int, parse_uint, trimmed,
    utf8_lossy, without_controls,
};
use crate::vt::decode::{base64_decode, percent_decode_bytes};
#[allow(unused_imports)]
use crate::vt::decode::{base64_decoded, percent_decoded};
#[allow(unused_imports)]
use crate::vt::emulator::{osc_params, osc_parts};

verus! {

// ---------------------------------------------------------------------------
// Events.
// ---------------------------------------------------------------------------

/// Which sequence raised a notification.
#[derive(Debug, Clone, Copy, PartialEq, Eq, Structural)]
pub enum NotifyKind {
    Osc9,
    Osc777,
    Osc99,
}

/// How urgent a notification is.
#[derive(Debug, Clone, Copy, PartialEq, Eq, Structural)]
pub enum Urgency {
    Low,
    Normal,
    Critical,
}

/// A notification that a program raised.
#[derive(Debug, Clone, PartialEq, Eq)]
pub struct Notification {
    pub kind: NotifyKind,
    pub title: String,
    pub body: String,
    pub urgency: Urgency,
    pub id: Option<String>,
}

/// A progress state (OSC 9;4).
#[derive(Debug, Clone, Copy, PartialEq, Eq, Structural)]
pub enum ProgressState {
    Remove,
    /// A progress value is set.
    Value,
    Error,
    Indeterminate,
    Paused,
}

/// A semantic prompt mark (OSC 133).
#[derive(Debug, Clone, Copy, PartialEq, Eq, Structural)]
pub enum PromptMark {
    PromptStart,
    CommandStart,
    CommandExecuted,
    CommandFinished(Option<i32>),
}

/// What a terminal reports while it consumes bytes.
#[derive(Debug, Clone, PartialEq, Eq)]
pub enum TermEvent {
    Damage,
    Bell,
    Title(String),
    Notification(Notification),
    Progress { state: ProgressState, pct: Option<u8> },
    Cwd(String),
    PromptMark(PromptMark),
    /// New clipboard text (OSC 52).
    Clipboard(String),
}

/// The mathematical value of a [`Notification`].
pub struct NotificationView {
    pub kind: NotifyKind,
    pub title: Seq<char>,
    pub body: Seq<char>,
    pub urgency: Urgency,
    pub id: Option<Seq<char>>,
}

/// The mathematical value of a [`TermEvent`].
pub enum TermEventView {
    Damage,
    Bell,
    Title(Seq<char>),
    Notification(NotificationView),
    Progress { state: ProgressState, pct: Option<u8> },
    Cwd(Seq<char>),
    PromptMark(PromptMark),
    Clipboard(Seq<char>),
}

impl Notification {
    pub open spec fn view(&self) -> NotificationView {
        NotificationView {
            kind: self.kind,
            title: self.title@,
            body: self.body@,
            urgency: self.urgency,
            id: opt_text(self.id),
        }
    }
}

impl Notification {
    /// A copy of the notification.
    pub fn copy(&self) -> (n: Notification)
        ensures
            n@ == self@,
    {
        Notification {
            kind: self.kind,
            title: self.title.clone(),
            body: self.body.clone(),
            urgency: self.urgency,
            id: crate::text::clone_opt(&self.id),
        }
    }
}

impl TermEvent {
    pub open spec fn view(&self) -> TermEventView {
        match *self {
            TermEvent::Damage => TermEventView::Damage,
            TermEvent::Bell => TermEventView::Bell,
            TermEvent::Title(s) => TermEventView::Title(s@),
            TermEvent::Notification(n) => TermEventView::Notification(n@),
            TermEvent::Progress { state, pct } => TermEventView::Progress { state, pct },
            TermEvent::Cwd(s) => TermEventView::Cwd(s@),
            TermEvent::PromptMark(m) => TermEventView::PromptMark(m),
            TermEvent::Clipboard(s) => TermEventView::Clipboard(s@),
        }
    }
}

/// The mathematical values of a list of events.
pub open spec fn term_events_view(events: Seq<TermEvent>) -> Seq<TermEventView> {
    Seq::new(events.len(), |i: int| events[i]@)
}

// ---------------------------------------------------------------------------
// Parameters.
// ---------------------------------------------------------------------------

/// Parameter `i`, or nothing.
pub open spec fn param(params: Seq<Seq<u8>>, i: int) -> Seq<u8> {
    if 0 <= i < params.len() {
        params[i]
    } else {
        Seq::empty()
    }
}

/// The parameters from `from` on, joined by the `;` that separated them.
pub open spec fn joined(params: Seq<Seq<u8>>, from: int) -> Seq<u8>
    decreases params.len() - from,
{
    if from < 0 || from >= params.len() {
        Seq::empty()
    } else if from == params.len() - 1 {
        params[from]
    } else {
        params[from] + seq![59u8] + joined(params, from + 1)
    }
}

/// Whether bytes spell an ASCII word.
pub open spec fn spells(b: Seq<u8>, word: &str) -> bool {
    b == encode_utf8(word@)
}

fn reads(b: &[u8], word: &str) -> (r: bool)
    ensures
        r == spells(b@, word),
{
    bytes_eq(b, word.as_bytes())
}

fn get_param<'a>(params: &'a Vec<Vec<u8>>, i: usize) -> (r: &'a [u8])
    ensures
        r@ == param(lines_view(params@), i as int),
{
    if i < params.len() {
        params[i].as_slice()
    } else {
        proof {
            reveal_strlit("");
            assert(encode_utf8(""@) =~= Seq::<u8>::empty());
        }
        "".as_bytes()
    }
}

/// Joins the parameters from `from` on with the `;` that separated them.
pub fn join_from(params: &Vec<Vec<u8>>, from: usize) -> (s: String)
    ensures
        s@ == utf8_lossy(joined(lines_view(params@), from as int)),
{
    let mut out: Vec<u8> = Vec::new();
    let ghost p = lines_view(params@);
    if from < params.len() {
        let mut i: usize = from;
        assert(out@ + joined(p, from as int) =~= joined(p, from as int));
        while i < params.len()
            invariant
                from <= i <= params@.len(),
                p == lines_view(params@),
                i < params@.len() ==> out@ + joined(p, i as int) == joined(p, from as int),
                i == params@.len() ==> out@ == joined(p, from as int),
            decreases params@.len() - i,
        {
            let ghost before = out@;
            out.extend_from_slice(params[i].as_slice());
            assert(out@ =~= before + p[i as int]);
            if i + 1 < params.len() {
                out.push(59);
                assert(out@ + joined(p, i + 1) =~= before + joined(p, i as int));
            }
            i = i + 1;
        }
    }
    lossy(out.as_slice())
}

/// Removes control characters from text that the program chose.
pub fn sanitize(s: &str) -> (r: String)
    ensures
        r@ == without_controls(s@),
{
    string_of(strip_controls(chars_of(s).as_slice()).as_slice())
}

// ---------------------------------------------------------------------------
// Title, working directory, clipboard.
// ---------------------------------------------------------------------------

/// Text without one pair of surrounding double quotes (and without surrounding white space).
pub open spec fn unquoted(s: Seq<char>) -> Seq<char> {
    let t = trimmed(s);
    if t.len() >= 2 && t[0] == '"' && t.last() == '"' {
        t.subrange(1, t.len() - 1)
    } else {
        t
    }
}

/// Strips a single pair of surrounding double quotes, if present.
pub fn strip_quotes(s: &str) -> (r: String)
    ensures
        r@ == unquoted(s@),
{
    let chars = chars_of(s);
    let t = trim(chars.as_slice());
    if t.len() >= 2 && t[0] == '"' && t[t.len() - 1] == '"' {
        string_of(vstd::slice::slice_subrange(t, 1, t.len() - 1))
    } else {
        string_of(t)
    }
}

/// Whether a character is an ASCII letter.
pub open spec fn ascii_letter(c: char) -> bool {
    'a' <= c <= 'z' || 'A' <= c <= 'Z'
}

/// Whether text starts like a Windows drive path: a letter and a colon.
pub open spec fn drive_path(s: Seq<char>) -> bool {
    s.len() >= 2 && ascii_letter(s[0]) && s[1] == ':'
}

/// Whether text starts like a Windows drive path: a letter and a colon.
pub fn is_drive_path(s: &[char]) -> (r: bool)
    ensures
        r == drive_path(s@),
{
    s.len() >= 2 && (('a' <= s[0] && s[0] <= 'z') || ('A' <= s[0] && s[0] <= 'Z')) && s[1] == ':'
}

/// Text with forward slashes turned into backslashes.
pub open spec fn backslashed(s: Seq<char>) -> Seq<char> {
    s.map_values(
        |c: char|
            if c == '/' {
                '\\'
            } else {
                c
            },
    )
}

fn to_backslashes(s: &[char]) -> (r: Vec<char>)
    ensures
        r@ == backslashed(s@),
{
    let mut r: Vec<char> = Vec::new();
    let mut i: usize = 0;
    while i < s.len()
        invariant
            i <= s@.len(),
            r@ =~= backslashed(s@.take(i as int)),
        decreases s@.len() - i,
    {
        r.push(
            if s[i] == '/' {
                '\\'
            } else {
                s[i]
            },
        );
        i = i + 1;
    }
    assert(s@.take(i as int) =~= s@);
    r
}

/// The text that percent-escaped text stands for.
pub open spec fn percent_text(s: Seq<char>) -> Seq<char> {
    utf8_lossy(percent_decoded(encode_utf8(s)))
}

/// Decodes percent escapes in text. Invalid escapes pass through, and text without any stays as it
/// is.
pub fn percent_decode(s: &str) -> (r: String)
    ensures
        r@ == percent_text(s@),
        !encode_utf8(s@).contains(37u8) ==> r@ == s@,
{
    proof {
        if !encode_utf8(s@).contains(37u8) {
            crate::vt::decode::lemma_no_escapes(encode_utf8(s@));
            encode_utf8_valid_utf8(s@);
            encode_utf8_decode_utf8(s@);
        }
    }
    lossy(percent_decode_bytes(s.as_bytes()).as_slice())
}

/// The path of a `file://host/path` URI: Windows drive paths with backslashes and without a
/// leading slash, other paths as they are, with theirs. A URI without a path gives nothing, and one
/// with another scheme `None`.
pub open spec fn file_uri_path(payload: Seq<char>) -> Option<Seq<char>> {
    if !has_prefix(payload, "file://"@) {
        None
    } else {
        let rest = payload.skip("file://"@.len() as int);
        if find(rest, '/', 0) is None {
            Some(Seq::empty())
        } else {
            Some(local_path(percent_text(after(rest, '/'))))
        }
    }
}

/// A decoded URI path, which stood behind a slash, in local form.
pub open spec fn local_path(d: Seq<char>) -> Seq<char> {
    if drive_path(d) {
        backslashed(d)
    } else if d.len() > 0 && d[0] == '/' && drive_path(d.skip(1)) {
        backslashed(d.skip(1))
    } else {
        seq!['/'] + d
    }
}

/// The path of a `file://host/path` URI where it is a POSIX path without escapes.
pub open spec fn posix_path(payload: Seq<char>) -> Option<Seq<char>> {
    let rest = payload.skip("file://"@.len() as int);
    let path = after(rest, '/');
    if has_prefix(payload, "file://"@) && find(rest, '/', 0) is Some && !encode_utf8(path).contains(
        37u8,
    ) && !drive_path(path) && !(path.len() > 0 && path[0] == '/' && drive_path(path.skip(1))) {
        Some(seq!['/'] + path)
    } else {
        None
    }
}

/// Brings a decoded URI path, which stood behind a slash, into local form.
pub fn to_local_path(decoded: &str) -> (r: String)
    ensures
        r@ == local_path(decoded@),
{
    let all = chars_of(decoded);
    let all = all.as_slice();
    let tail = if all.len() > 0 {
        vstd::slice::slice_subrange(all, 1, all.len())
    } else {
        all
    };
    assert(all@.len() > 0 ==> tail@ =~= all@.skip(1));
    if is_drive_path(all) {
        string_of(to_backslashes(all).as_slice())
    } else if all.len() > 0 && all[0] == '/' && is_drive_path(tail) {
        string_of(to_backslashes(tail).as_slice())
    } else {
        let mut path = String::from_str("/");
        path.append(decoded);
        proof {
            reveal_strlit("/");
            assert(path@ =~= seq!['/'] + decoded@);
        }
        path
    }
}

/// Reads an OSC 7 payload. A POSIX path without escapes is left intact.
pub fn parse_file_uri(payload: &str) -> (r: Option<String>)
    ensures
        opt_text(r) == file_uri_path(payload@),
        posix_path(payload@) is Some ==> opt_text(r) == posix_path(payload@),
{
    let chars = chars_of(payload);
    let chars = chars.as_slice();
    if !starts_with(chars, "file://") {
        return None;
    }
    proof {
        reveal_strlit("file://");
    }
    let rest = vstd::slice::slice_subrange(chars, 7, chars.len());
    assert(rest@ =~= payload@.skip("file://"@.len() as int));
    if find_char(rest, '/', 0).is_none() {
        let nothing = String::new();
        assert(nothing@ =~= Seq::empty());
        return Some(nothing);
    }
    let (_, path) = crate::text::split_once(rest, '/');
    let decoded = percent_decode(string_of(path).as_str());
    Some(to_local_path(decoded.as_str()))
}

// ---------------------------------------------------------------------------
// OSC 9.
// ---------------------------------------------------------------------------

/// Whether bytes are one or more ASCII digits.
pub open spec fn numeric(b: Seq<u8>) -> bool {
    b.len() > 0 && forall|i: int| 0 <= i < b.len() ==> 48 <= #[trigger] b[i] <= 57
}

fn is_numeric(b: &[u8]) -> (r: bool)
    ensures
        r == numeric(b@),
{
    if b.len() == 0 {
        return false;
    }
    let mut i: usize = 0;
    while i < b.len()
        invariant
            i <= b@.len(),
            forall|j: int| 0 <= j < i ==> 48 <= #[trigger] b@[j] <= 57,
        decreases b@.len() - i,
    {
        if b[i] < 48 || b[i] > 57 {
            assert(!(48 <= b@[i as int] <= 57));
            return false;
        }
        i = i + 1;
    }
    true
}

/// The progress state that a token names.
pub open spec fn progress_state(t: Seq<u8>) -> Option<ProgressState> {
    if spells(t, "0") {
        Some(ProgressState::Remove)
    } else if spells(t, "1") {
        Some(ProgressState::Value)
    } else if spells(t, "2") {
        Some(ProgressState::Error)
    } else if spells(t, "3") {
        Some(ProgressState::Indeterminate)
    } else if spells(t, "4") {
        Some(ProgressState::Paused)
    } else {
        None
    }
}

/// A percentage, capped at 100; `None` where it is missing or not a number.
pub open spec fn percentage(params: Seq<Seq<u8>>) -> Option<u8> {
    if params.len() <= 3 {
        None
    } else {
        match parse_uint(trimmed(utf8_lossy(params[3])), false, u32::MAX as nat) {
            Some(n) => Some(
                if n < 100 {
                    n as u8
                } else {
                    100
                },
            ),
            None => None,
        }
    }
}

/// The event of `9;4;<state>[;<pct>]`.
pub open spec fn progress_event(params: Seq<Seq<u8>>) -> Option<TermEventView> {
    if params.len() <= 2 {
        None
    } else {
        match progress_state(params[2]) {
            Some(state) => Some(TermEventView::Progress { state, pct: percentage(params) }),
            None => None,
        }
    }
}

/// Reads a `9;4` progress payload.
pub fn parse_progress(params: &Vec<Vec<u8>>) -> (r: Option<TermEvent>)
    ensures
        match r {
            Some(e) => progress_event(lines_view(params@)) == Some(e@),
            None => progress_event(lines_view(params@)) == None::<TermEventView>,
        },
{
    if params.len() <= 2 {
        return None;
    }
    let t = params[2].as_slice();
    let state = if reads(t, "0") {
        ProgressState::Remove
    } else if reads(t, "1") {
        ProgressState::Value
    } else if reads(t, "2") {
        ProgressState::Error
    } else if reads(t, "3") {
        ProgressState::Indeterminate
    } else if reads(t, "4") {
        ProgressState::Paused
    } else {
        return None;
    };
    let pct = if params.len() <= 3 {
        None
    } else {
        let text = chars_of(lossy(params[3].as_slice()).as_str());
        match parse_number(trim(text.as_slice()), false, u32::MAX as u64) {
            Some(n) => Some(
                if n < 100 {
                    n as u8
                } else {
                    100u8
                },
            ),
            None => None,
        }
    };
    Some(TermEvent::Progress { state, pct })
}

/// The events of an OSC 9 sequence. A purely numeric first token selects a ConEmu subcommand;
/// otherwise the whole payload is a notification.
pub open spec fn osc_9_events(params: Seq<Seq<u8>>) -> Seq<TermEventView> {
    let leading = param(params, 1);
    if numeric(leading) {
        if spells(leading, "4") {
            match progress_event(params) {
                Some(e) => seq![e],
                None => Seq::empty(),
            }
        } else if spells(leading, "9") {
            seq![TermEventView::Cwd(unquoted(utf8_lossy(joined(params, 2))))]
        } else if spells(leading, "12") {
            seq![TermEventView::PromptMark(PromptMark::PromptStart)]
        } else {
            Seq::empty()
        }
    } else {
        seq![
            TermEventView::Notification(
                NotificationView {
                    kind: NotifyKind::Osc9,
                    title: without_controls(utf8_lossy(joined(params, 1))),
                    body: Seq::empty(),
                    urgency: Urgency::Normal,
                    id: None,
                },
            ),
        ]
    }
}

// ---------------------------------------------------------------------------
// OSC 777 and 133.
// ---------------------------------------------------------------------------

/// The events of an OSC 777 sequence: `777;notify;<title>;<body>`.
pub open spec fn osc_777_events(params: Seq<Seq<u8>>) -> Seq<TermEventView> {
    if params.len() > 1 && spells(params[1], "notify") {
        seq![
            TermEventView::Notification(
                NotificationView {
                    kind: NotifyKind::Osc777,
                    title: without_controls(
                        if params.len() > 2 {
                            utf8_lossy(params[2])
                        } else {
                            Seq::empty()
                        },
                    ),
                    body: without_controls(utf8_lossy(joined(params, 3))),
                    urgency: Urgency::Normal,
                    id: None,
                },
            ),
        ]
    } else {
        Seq::empty()
    }
}

/// The events of an OSC 133 sequence.
pub open spec fn osc_133_events(params: Seq<Seq<u8>>) -> Seq<TermEventView> {
    let verb = param(params, 1);
    if spells(verb, "A") {
        seq![TermEventView::PromptMark(PromptMark::PromptStart)]
    } else if spells(verb, "B") {
        seq![TermEventView::PromptMark(PromptMark::CommandStart)]
    } else if spells(verb, "C") {
        seq![TermEventView::PromptMark(PromptMark::CommandExecuted)]
    } else if spells(verb, "D") {
        seq![
            TermEventView::PromptMark(
                PromptMark::CommandFinished(
                    if params.len() > 2 {
                        match parse_int(
                            trimmed(utf8_lossy(params[2])),
                            i32::MIN as int,
                            i32::MAX as int,
                        ) {
                            Some(n) => Some(n as i32),
                            None => None,
                        }
                    } else {
                        None
                    },
                ),
            ),
        ]
    } else {
        Seq::empty()
    }
}

/// The events of an OSC 52 sequence: `52;<selection>;<base64>` sets the clipboard. A query or a
/// malformed payload does nothing.
pub open spec fn osc_52_events(params: Seq<Seq<u8>>) -> Seq<TermEventView> {
    if params.len() > 2 {
        match base64_decoded(params[2]) {
            Some(b) => seq![TermEventView::Clipboard(utf8_lossy(b))],
            None => Seq::empty(),
        }
    } else {
        Seq::empty()
    }
}

// ---------------------------------------------------------------------------
// OSC 99.
// ---------------------------------------------------------------------------

/// A notification that is still being assembled from chunks.
pub struct Osc99Partial {
    pub title: String,
    pub body: String,
    pub urgency: Urgency,
}

/// The mathematical value of an [`Osc99Partial`].
pub struct PartialView {
    pub title: Seq<char>,
    pub body: Seq<char>,
    pub urgency: Urgency,
}

impl Osc99Partial {
    pub open spec fn view(&self) -> PartialView {
        PartialView { title: self.title@, body: self.body@, urgency: self.urgency }
    }

    fn empty() -> (p: Self)
        ensures
            p@ == empty_partial(),
    {
        Osc99Partial { title: String::new(), body: String::new(), urgency: Urgency::Normal }
    }
}

/// A notification before its first chunk.
pub open spec fn empty_partial() -> PartialView {
    PartialView { title: Seq::empty(), body: Seq::empty(), urgency: Urgency::Normal }
}

/// The metadata of an OSC 99 chunk.
pub struct Meta {
    pub id: Option<String>,
    pub done: bool,
    pub is_body: bool,
    pub base64: bool,
    pub urgency: Urgency,
}

/// The mathematical value of a [`Meta`].
pub struct MetaView {
    pub id: Option<Seq<char>>,
    pub done: bool,
    pub is_body: bool,
    pub base64: bool,
    pub urgency: Urgency,
}

impl Meta {
    pub open spec fn view(&self) -> MetaView {
        MetaView {
            id: opt_text(self.id),
            done: self.done,
            is_body: self.is_body,
            base64: self.base64,
            urgency: self.urgency,
        }
    }
}

/// The metadata of a chunk that names none: done, a title, plain text, normal urgency.
pub open spec fn default_meta() -> MetaView {
    MetaView { id: None, done: true, is_body: false, base64: false, urgency: Urgency::Normal }
}

/// The urgency that a metadata value names.
pub open spec fn urgency_of(v: Seq<u8>) -> Urgency {
    if spells(v, "0") {
        Urgency::Low
    } else if spells(v, "2") {
        Urgency::Critical
    } else {
        Urgency::Normal
    }
}

/// Metadata after one `key=value` pair. Unknown keys are ignored.
pub open spec fn meta_set(m: MetaView, kv: Seq<u8>) -> MetaView {
    let k = before(kv, 61u8);
    let v = after(kv, 61u8);
    if spells(k, "i") {
        MetaView { id: Some(utf8_lossy(v)), ..m }
    } else if spells(k, "d") {
        MetaView { done: !spells(v, "0"), ..m }
    } else if spells(k, "p") {
        MetaView { is_body: spells(v, "body"), ..m }
    } else if spells(k, "e") {
        MetaView { base64: spells(v, "1"), ..m }
    } else if spells(k, "u") {
        MetaView { urgency: urgency_of(v), ..m }
    } else {
        m
    }
}

/// Metadata after the `:`-separated pairs of `raw` from `from` on.
pub open spec fn meta_from(m: MetaView, raw: Seq<u8>, from: int) -> MetaView
    decreases raw.len() - from,
{
    if from < 0 || from > raw.len() {
        m
    } else {
        match find(raw, 58u8, from) {
            Some(i) => if from <= i < raw.len() {
                meta_from(meta_set(m, raw.subrange(from, i)), raw, i + 1)
            } else {
                m
            },
            None => meta_set(m, raw.subrange(from, raw.len() as int)),
        }
    }
}

/// The metadata that `raw` spells.
pub open spec fn meta_of(raw: Seq<u8>) -> MetaView {
    meta_from(default_meta(), raw, 0)
}

/// The text of a chunk's payload.
pub open spec fn chunk_text(base64: bool, payload: Seq<char>) -> Seq<char> {
    if base64 {
        match base64_decoded(encode_utf8(payload)) {
            Some(b) => without_controls(utf8_lossy(b)),
            None => without_controls(payload),
        }
    } else {
        without_controls(payload)
    }
}

/// A partial notification with a chunk added to it.
pub open spec fn with_chunk(p: PartialView, m: MetaView, text: Seq<char>) -> PartialView {
    PartialView {
        title: if m.is_body {
            p.title
        } else {
            p.title + text
        },
        body: if m.is_body {
            p.body + text
        } else {
            p.body
        },
        urgency: m.urgency,
    }
}

/// The partial notifications, by id.
pub open spec fn partials_view(s: Seq<(String, Osc99Partial)>) -> Seq<(Seq<char>, PartialView)> {
    Seq::new(s.len(), |i: int| (s[i].0@, s[i].1@))
}

/// Index of the partial notification with an id.
pub open spec fn partial_index(
    s: Seq<(Seq<char>, PartialView)>,
    id: Seq<char>,
    from: int,
) -> Option<int>
    decreases s.len() - from,
{
    if from < 0 || from >= s.len() {
        None
    } else if s[from].0 == id {
        Some(from)
    } else {
        partial_index(s, id, from + 1)
    }
}

/// A complete OSC 99 notification.
pub open spec fn osc_99_notification(p: PartialView, id: Option<Seq<char>>) -> TermEventView {
    TermEventView::Notification(
        NotificationView {
            kind: NotifyKind::Osc99,
            title: p.title,
            body: p.body,
            urgency: p.urgency,
            id,
        },
    )
}

/// What an OSC 99 chunk does: the partial notifications afterwards, and the events.
pub open spec fn osc_99_step(partials: Seq<(Seq<char>, PartialView)>, params: Seq<Seq<u8>>) -> (
    Seq<(Seq<char>, PartialView)>,
    Seq<TermEventView>,
) {
    let m = meta_of(param(params, 1));
    let text = chunk_text(m.base64, utf8_lossy(joined(params, 2)));
    match m.id {
        None => (
            partials,
            seq![osc_99_notification(with_chunk(empty_partial(), m, text), None)],
        ),
        Some(id) => match partial_index(partials, id, 0) {
            Some(i) => {
                let p = with_chunk(partials[i].1, m, text);
                if m.done {
                    (partials.remove(i), seq![osc_99_notification(p, Some(id))])
                } else {
                    (partials.update(i, (id, p)), Seq::empty())
                }
            },
            None => {
                let p = with_chunk(empty_partial(), m, text);
                if m.done {
                    (partials, seq![osc_99_notification(p, Some(id))])
                } else {
                    (partials.push((id, p)), Seq::empty())
                }
            },
        },
    }
}

// ---------------------------------------------------------------------------
// Dispatch.
// ---------------------------------------------------------------------------

/// What an OSC sequence does: the partial notifications afterwards, and the events.
pub open spec fn osc_step(partials: Seq<(Seq<char>, PartialView)>, params: Seq<Seq<u8>>) -> (
    Seq<(Seq<char>, PartialView)>,
    Seq<TermEventView>,
) {
    let num = param(params, 0);
    if params.len() == 0 {
        (partials, Seq::empty())
    } else if spells(num, "0") || spells(num, "2") {
        (
            partials,
            seq![TermEventView::Title(without_controls(utf8_lossy(joined(params, 1))))],
        )
    } else if spells(num, "7") {
        (
            partials,
            match file_uri_path(utf8_lossy(joined(params, 1))) {
                Some(path) => seq![TermEventView::Cwd(path)],
                None => Seq::empty(),
            },
        )
    } else if spells(num, "9") {
        (partials, osc_9_events(params))
    } else if spells(num, "52") {
        (partials, osc_52_events(params))
    } else if spells(num, "777") {
        (partials, osc_777_events(params))
    } else if spells(num, "99") {
        osc_99_step(partials, params)
    } else if spells(num, "133") {
        (partials, osc_133_events(params))
    } else {
        (partials, Seq::empty())
    }
}

/// Whether events hold a notification.
pub open spec fn has_notification(events: Seq<TermEventView>) -> bool {
    exists|i: int| 0 <= i < events.len() && (#[trigger] events[i]) is Notification
}

/// Whether an OSC sequence raises a notification, whatever notifications are unfinished.
pub open spec fn notifies(params: Seq<Seq<u8>>) -> bool {
    forall|partials: Seq<(Seq<char>, PartialView)>|
        has_notification((#[trigger] osc_step(partials, params)).1)
}

/// Notification chunks that are still incomplete, across calls.
pub struct OscState {
    partials: Vec<(String, Osc99Partial)>,
}

/// Events `old` followed by `new`.
pub open spec fn appended(
    old: Seq<TermEvent>,
    new: Seq<TermEvent>,
    events: Seq<TermEventView>,
) -> bool {
    term_events_view(new) == term_events_view(old) + events
}

fn emit(out: &mut Vec<TermEvent>, e: TermEvent)
    ensures
        appended(old(out)@, final(out)@, seq![e@]),
{
    out.push(e);
    assert(term_events_view(out@) =~= term_events_view(old(out)@) + seq![e@]);
}

proof fn lemma_nothing_appended(events: Seq<TermEvent>)
    ensures
        appended(events, events, Seq::empty()),
{
    assert(term_events_view(events) + Seq::empty() =~= term_events_view(events));
}

impl OscState {
    pub closed spec fn view(&self) -> Seq<(Seq<char>, PartialView)> {
        partials_view(self.partials@)
    }

    /// No partial notification.
    pub fn new() -> (s: Self)
        ensures
            s@ == Seq::<(Seq<char>, PartialView)>::empty(),
    {
        let s = OscState { partials: Vec::new() };
        assert(s@ =~= Seq::empty());
        s
    }

    /// Handles one OSC sequence: the events that it raises are appended to `out`.
    pub fn dispatch(&mut self, params: &Vec<Vec<u8>>, out: &mut Vec<TermEvent>)
        ensures
            final(self)@ == osc_step(old(self)@, lines_view(params@)).0,
            appended(
                old(out)@,
                final(out)@,
                osc_step(old(self)@, lines_view(params@)).1,
            ),
    {
        proof {
            lemma_nothing_appended(out@);
        }
        if params.len() == 0 {
            return;
        }
        let num = params[0].as_slice();
        if reads(num, "0") || reads(num, "2") {
            osc_title(params, out);
        } else if reads(num, "7") {
            osc_cwd7(params, out);
        } else if reads(num, "9") {
            osc_9(params, out);
        } else if reads(num, "52") {
            osc_52(params, out);
        } else if reads(num, "777") {
            osc_777(params, out);
        } else if reads(num, "99") {
            self.osc_99(params, out);
        } else if reads(num, "133") {
            osc_133(params, out);
        }
    }

    /// Index of the partial notification with an id.
    fn position(&self, id: &str) -> (r: Option<usize>)
        ensures
            match r {
                Some(i) => partial_index(self@, id@, 0) == Some(i as int) && i
                    < self.partials@.len(),
                None => partial_index(self@, id@, 0) == None::<int>,
            },
    {
        let mut i: usize = 0;
        while i < self.partials.len()
            invariant
                i <= self.partials@.len(),
                partial_index(self@, id@, 0) == partial_index(self@, id@, i as int),
            decreases self.partials@.len() - i,
        {
            if str_eq(self.partials[i].0.as_str(), id) {
                return Some(i);
            }
            i = i + 1;
        }
        None
    }

    /// OSC 99 (kitty): `99;<metadata>;<payload>`, with `:`-separated `key=value` metadata. A chunk
    /// that carries an id accumulates until a chunk with `d=1` completes the notification.
    pub fn osc_99(&mut self, params: &Vec<Vec<u8>>, out: &mut Vec<TermEvent>)
        ensures
            final(self)@ == osc_99_step(old(self)@, lines_view(params@)).0,
            appended(
                old(out)@,
                final(out)@,
                osc_99_step(old(self)@, lines_view(params@)).1,
            ),
    {
        proof {
            lemma_nothing_appended(out@);
        }
        let m = parse_meta(get_param(params, 1));
        let payload = join_from(params, 2);
        let text = decode_chunk(m.base64, payload.as_str());
        let id = match &m.id {
            Some(id) => id.clone(),
            None => {
                let p = add_chunk(Osc99Partial::empty(), &m, text.as_str());
                emit(
                    out,
                    TermEvent::Notification(
                        Notification {
                            kind: NotifyKind::Osc99,
                            title: p.title,
                            body: p.body,
                            urgency: p.urgency,
                            id: None,
                        },
                    ),
                );
                return;
            },
        };
        let ghost before = self.partials@;
        match self.position(id.as_str()) {
            Some(i) => {
                let (key, current) = self.partials.remove(i);
                let p = add_chunk(current, &m, text.as_str());
                if m.done {
                    assert(self@ =~= partials_view(before).remove(i as int));
                    emit(
                        out,
                        TermEvent::Notification(
                            Notification {
                                kind: NotifyKind::Osc99,
                                title: p.title,
                                body: p.body,
                                urgency: p.urgency,
                                id: Some(id),
                            },
                        ),
                    );
                } else {
                    let ghost pv = p@;
                    self.partials.insert(i, (id, p));
                    assert(self@ =~= partials_view(before).update(i as int, (id@, pv)));
                }
            },
            None => {
                let p = add_chunk(Osc99Partial::empty(), &m, text.as_str());
                if m.done {
                    emit(
                        out,
                        TermEvent::Notification(
                            Notification {
                                kind: NotifyKind::Osc99,
                                title: p.title,
                                body: p.body,
                                urgency: p.urgency,
                                id: Some(id),
                            },
                        ),
                    );
                } else {
                    let ghost pv = p@;
                    self.partials.push((id, p));
                    assert(self@ =~= partials_view(before).push((id@, pv)));
                }
            },
        }
    }
}

/// Reads OSC 99 metadata.
fn parse_meta(raw: &[u8]) -> (m: Meta)
    ensures
        m@ == meta_of(raw@),
{
    let n: usize = raw.len();
    let mut m = Meta {
        id: None,
        done: true,
        is_body: false,
        base64: false,
        urgency: Urgency::Normal,
    };
    let mut from: usize = 0;
    loop
        invariant
            n == raw@.len(),
            from <= n,
            meta_of(raw@) == meta_from(m@, raw@, from as int),
        decreases n - from,
    {
        match find_byte(raw, 58, from) {
            Some(i) => {
                m = set_meta(m, vstd::slice::slice_subrange(raw, from, i));
                from = i + 1;
            },
            None => {
                return set_meta(m, vstd::slice::slice_subrange(raw, from, n));
            },
        }
    }
}

fn set_meta(m: Meta, kv: &[u8]) -> (r: Meta)
    ensures
        r@ == meta_set(m@, kv@),
{
    let n: usize = kv.len();
    let (k, v) = match find_byte(kv, 61, 0) {
        Some(i) => (
            vstd::slice::slice_subrange(kv, 0, i),
            vstd::slice::slice_subrange(kv, i + 1, n),
        ),
        None => (kv, vstd::slice::slice_subrange(kv, n, n)),
    };
    assert(k@ =~= before(kv@, 61u8));
    assert(v@ =~= after(kv@, 61u8));
    let mut r = m;
    if reads(k, "i") {
        r.id = Some(lossy(v));
    } else if reads(k, "d") {
        r.done = !reads(v, "0");
    } else if reads(k, "p") {
        r.is_body = reads(v, "body");
    } else if reads(k, "e") {
        r.base64 = reads(v, "1");
    } else if reads(k, "u") {
        r.urgency = if reads(v, "0") {
            Urgency::Low
        } else if reads(v, "2") {
            Urgency::Critical
        } else {
            Urgency::Normal
        };
    }
    r
}

fn decode_chunk(base64: bool, payload: &str) -> (r: String)
    ensures
        r@ == chunk_text(base64, payload@),
{
    if base64 {
        match base64_decode(payload.as_bytes()) {
            Some(bytes) => sanitize(lossy(bytes.as_slice()).as_str()),
            None => sanitize(payload),
        }
    } else {
        sanitize(payload)
    }
}

fn add_chunk(p: Osc99Partial, m: &Meta, text: &str) -> (r: Osc99Partial)
    ensures
        r@ == with_chunk(p@, m@, text@),
{
    let mut r = p;
    if m.is_body {
        r.body.append(text);
    } else {
        r.title.append(text);
    }
    r.urgency = m.urgency;
    r
}

/// OSC 0 and 2: window title. The text may itself contain `;`.
fn osc_title(params: &Vec<Vec<u8>>, out: &mut Vec<TermEvent>)
    ensures
        appended(
            old(out)@,
            final(out)@,
            seq![
                TermEventView::Title(
                    without_controls(utf8_lossy(joined(lines_view(params@), 1))),
                ),
            ],
        ),
{
    let text = join_from(params, 1);
    emit(out, TermEvent::Title(sanitize(text.as_str())));
}

/// OSC 7: working directory as a file URI.
fn osc_cwd7(params: &Vec<Vec<u8>>, out: &mut Vec<TermEvent>)
    ensures
        appended(
            old(out)@,
            final(out)@,
            match file_uri_path(utf8_lossy(joined(lines_view(params@), 1))) {
                Some(path) => seq![TermEventView::Cwd(path)],
                None => Seq::empty(),
            },
        ),
{
    proof {
        lemma_nothing_appended(out@);
    }
    let payload = join_from(params, 1);
    if let Some(path) = parse_file_uri(payload.as_str()) {
        emit(out, TermEvent::Cwd(path));
    }
}

/// OSC 9: ConEmu subcommands and plain notifications.
fn osc_9(params: &Vec<Vec<u8>>, out: &mut Vec<TermEvent>)
    ensures
        appended(old(out)@, final(out)@, osc_9_events(lines_view(params@))),
{
    proof {
        lemma_nothing_appended(out@);
    }
    let leading = get_param(params, 1);
    if is_numeric(leading) {
        if reads(leading, "4") {
            if let Some(e) = parse_progress(params) {
                emit(out, e);
            }
        } else if reads(leading, "9") {
            let path = join_from(params, 2);
            emit(out, TermEvent::Cwd(strip_quotes(path.as_str())));
        } else if reads(leading, "12") {
            emit(out, TermEvent::PromptMark(PromptMark::PromptStart));
        }
    } else {
        let payload = join_from(params, 1);
        emit(
            out,
            TermEvent::Notification(
                Notification {
                    kind: NotifyKind::Osc9,
                    title: sanitize(payload.as_str()),
                    body: String::new(),
                    urgency: Urgency::Normal,
                    id: None,
                },
            ),
        );
    }
}

/// OSC 52: clipboard.
fn osc_52(params: &Vec<Vec<u8>>, out: &mut Vec<TermEvent>)
    ensures
        appended(old(out)@, final(out)@, osc_52_events(lines_view(params@))),
{
    proof {
        lemma_nothing_appended(out@);
    }
    if params.len() > 2 {
        if let Some(bytes) = base64_decode(params[2].as_slice()) {
            emit(out, TermEvent::Clipboard(lossy(bytes.as_slice())));
        }
    }
}

/// OSC 777: `777;notify;<title>;<body>`. The body keeps any further `;`.
fn osc_777(params: &Vec<Vec<u8>>, out: &mut Vec<TermEvent>)
    ensures
        appended(old(out)@, final(out)@, osc_777_events(lines_view(params@))),
{
    proof {
        lemma_nothing_appended(out@);
    }
    if params.len() <= 1 || !reads(params[1].as_slice(), "notify") {
        return;
    }
    let title = if params.len() > 2 {
        lossy(params[2].as_slice())
    } else {
        String::new()
    };
    let body = join_from(params, 3);
    emit(
        out,
        TermEvent::Notification(
            Notification {
                kind: NotifyKind::Osc777,
                title: sanitize(title.as_str()),
                body: sanitize(body.as_str()),
                urgency: Urgency::Normal,
                id: None,
            },
        ),
    );
}

/// OSC 133: semantic prompt marks.
fn osc_133(params: &Vec<Vec<u8>>, out: &mut Vec<TermEvent>)
    ensures
        appended(old(out)@, final(out)@, osc_133_events(lines_view(params@))),
{
    proof {
        lemma_nothing_appended(out@);
    }
    let verb = get_param(params, 1);
    if reads(verb, "A") {
        emit(out, TermEvent::PromptMark(PromptMark::PromptStart));
    } else if reads(verb, "B") {
        emit(out, TermEvent::PromptMark(PromptMark::CommandStart));
    } else if reads(verb, "C") {
        emit(out, TermEvent::PromptMark(PromptMark::CommandExecuted));
    } else if reads(verb, "D") {
        let exit = if params.len() > 2 {
            let text = chars_of(lossy(params[2].as_slice()).as_str());
            parse_i32(trim(text.as_slice()))
        } else {
            None
        };
        emit(out, TermEvent::PromptMark(PromptMark::CommandFinished(exit)));
    }
}

// ---------------------------------------------------------------------------
// Laws.
// ---------------------------------------------------------------------------

/// Two chunks under one id, the first left open and the second closing it, give one notification
/// that holds both texts in order; nothing is left behind.
pub proof fn chunks_of_one_id_are_joined(
    partials: Seq<(Seq<char>, PartialView)>,
    first: Seq<Seq<u8>>,
    second: Seq<Seq<u8>>,
    id: Seq<char>,
)
    requires
        partial_index(partials, id, 0) is None,
        meta_of(param(first, 1)).id == Some(id),
        meta_of(param(second, 1)).id == Some(id),
        !meta_of(param(first, 1)).done,
        meta_of(param(second, 1)).done,
    ensures
        ({
            let m1 = meta_of(param(first, 1));
            let m2 = meta_of(param(second, 1));
            let t1 = chunk_text(m1.base64, utf8_lossy(joined(first, 2)));
            let t2 = chunk_text(m2.base64, utf8_lossy(joined(second, 2)));
            let (mid, none) = osc_99_step(partials, first);
            let whole = with_chunk(with_chunk(empty_partial(), m1, t1), m2, t2);
            &&& none == Seq::<TermEventView>::empty()
            &&& osc_99_step(mid, second) == (
                partials,
                seq![osc_99_notification(whole, Some(id))],
            )
        }),
{
    let (mid, none) = osc_99_step(partials, first);
    lemma_index_of_pushed(partials, mid.last(), id, 0);
    assert(mid.remove(partials.len() as int) =~= partials);
}

proof fn lemma_index_of_pushed(
    s: Seq<(Seq<char>, PartialView)>,
    e: (Seq<char>, PartialView),
    id: Seq<char>,
    from: int,
)
    requires
        0 <= from <= s.len(),
        e.0 == id,
        partial_index(s, id, from) is None,
    ensures
        partial_index(s.push(e), id, from) == Some(s.len() as int),
    decreases s.len() - from,
{
    if from < s.len() {
        assert(s.push(e)[from] == s[from]);
        lemma_index_of_pushed(s, e, id, from + 1);
    }
}

/// Notification and title text never carries control characters, whatever the program sent.
pub proof fn notification_text_is_clean(params: Seq<Seq<u8>>)
    ensures
        forall|i: int|
            0 <= i < osc_9_events(params).len() ==> (#[trigger] osc_9_events(
                params,
            )[i] matches TermEventView::Notification(n) ==> forall|j: int|
                0 <= j < n.title.len() ==> !crate::text::control(#[trigger] n.title[j])),
        forall|i: int|
            0 <= i < osc_777_events(params).len() ==> (#[trigger] osc_777_events(
                params,
            )[i] matches TermEventView::Notification(n) ==> (forall|j: int|
                0 <= j < n.title.len() ==> !crate::text::control(#[trigger] n.title[j])) && (
            forall|j: int| 0 <= j < n.body.len() ==> !crate::text::control(#[trigger] n.body[j]))),
{
    crate::text::stripping_controls_is_exact(utf8_lossy(joined(params, 1)));
    crate::text::stripping_controls_is_exact(utf8_lossy(joined(params, 3)));
    crate::text::stripping_controls_is_exact(utf8_lossy(param(params, 2)));
    crate::text::stripping_controls_is_exact(Seq::empty());
}

/// The unfinished notifications after OSC 99 chunks, in order, by their parameters.
pub open spec fn partials_after(calls: Seq<Seq<Seq<u8>>>) -> Seq<(Seq<char>, PartialView)>
    decreases calls.len(),
{
    if calls.len() == 0 {
        Seq::empty()
    } else {
        osc_99_step(partials_after(calls.drop_last()), calls.last()).0
    }
}

/// The metadata of an OSC 99 chunk.
pub open spec fn call_meta(call: Seq<Seq<u8>>) -> MetaView {
    meta_of(param(call, 1))
}

/// The text of an OSC 99 chunk: decoded, and without control characters.
pub open spec fn call_text(call: Seq<Seq<u8>>) -> Seq<char> {
    chunk_text(call_meta(call).base64, utf8_lossy(joined(call, 2)))
}

/// How many of the first `n` chunks came up to the last one that closed a notification with an id.
pub open spec fn last_close(calls: Seq<Seq<Seq<u8>>>, id: Seq<char>, n: int) -> int
    decreases n,
{
    if n <= 0 {
        0
    } else if call_meta(calls[n - 1]).id == Some(id) && call_meta(calls[n - 1]).done {
        n
    } else {
        last_close(calls, id, n - 1)
    }
}

/// The texts of an id's chunks from index `from` up to `n`, joined in order: those for the body, or
/// those for the title.
pub open spec fn gathered(
    calls: Seq<Seq<Seq<u8>>>,
    id: Seq<char>,
    is_body: bool,
    from: int,
    n: int,
) -> Seq<char>
    decreases n - from,
{
    if n <= from {
        Seq::empty()
    } else {
        let front = gathered(calls, id, is_body, from, n - 1);
        let m = call_meta(calls[n - 1]);
        if m.id == Some(id) && m.is_body == is_body {
            front + call_text(calls[n - 1])
        } else {
            front
        }
    }
}

/// Whether unfinished notifications have different ids.
spec fn ids_differ(partials: Seq<(Seq<char>, PartialView)>) -> bool {
    forall|i: int, j: int|
        0 <= i < j < partials.len() ==> (#[trigger] partials[i]).0 != (#[trigger] partials[j]).0
}

proof fn lemma_partial_index(partials: Seq<(Seq<char>, PartialView)>, id: Seq<char>, from: int)
    requires
        0 <= from <= partials.len(),
    ensures
        match partial_index(partials, id, from) {
            Some(i) => from <= i < partials.len() && partials[i].0 == id,
            None => forall|i: int| from <= i < partials.len() ==> (#[trigger] partials[i]).0 != id,
        },
    decreases partials.len() - from,
{
    if from < partials.len() && partials[from].0 != id {
        lemma_partial_index(partials, id, from + 1);
    }
}

/// What is unfinished of an id after chunks is what its chunks since its last close gathered.
spec fn gathers(calls: Seq<Seq<Seq<u8>>>, id: Seq<char>) -> bool {
    let partials = partials_after(calls);
    let n = calls.len() as int;
    let from = last_close(calls, id, n);
    let (title, body) = (gathered(calls, id, false, from, n), gathered(calls, id, true, from, n));
    match partial_index(partials, id, 0) {
        Some(i) => partials[i].1.title == title && partials[i].1.body == body,
        None => title.len() == 0 && body.len() == 0,
    }
}

proof fn lemma_prefix(calls: Seq<Seq<Seq<u8>>>, id: Seq<char>, n: int)
    requires
        0 <= n <= calls.len() - 1,
    ensures
        last_close(calls, id, n) == last_close(calls.drop_last(), id, n),
        last_close(calls, id, n) <= n,
        0 <= last_close(calls, id, n),
    decreases n,
{
    if n > 0 {
        assert(calls[n - 1] == calls.drop_last()[n - 1]);
        lemma_prefix(calls, id, n - 1);
    }
}

proof fn lemma_gathered_prefix(
    calls: Seq<Seq<Seq<u8>>>,
    id: Seq<char>,
    is_body: bool,
    from: int,
    n: int,
)
    requires
        0 <= from,
        n <= calls.len() - 1,
    ensures
        gathered(calls, id, is_body, from, n) == gathered(
            calls.drop_last(),
            id,
            is_body,
            from,
            n,
        ),
    decreases n - from,
{
    if n > from {
        assert(calls[n - 1] == calls.drop_last()[n - 1]);
        lemma_gathered_prefix(calls, id, is_body, from, n - 1);
    }
}

proof fn lemma_step_ids_differ(before: Seq<(Seq<char>, PartialView)>, call: Seq<Seq<u8>>)
    requires
        ids_differ(before),
    ensures
        ids_differ(osc_99_step(before, call).0),
{
    if let Some(id) = call_meta(call).id {
        lemma_partial_index(before, id, 0);
    }
}

proof fn lemma_ids_differ(calls: Seq<Seq<Seq<u8>>>)
    ensures
        ids_differ(partials_after(calls)),
    decreases calls.len(),
{
    if calls.len() > 0 {
        lemma_ids_differ(calls.drop_last());
        lemma_step_ids_differ(partials_after(calls.drop_last()), calls.last());
    }
}

proof fn lemma_other_index(
    a: Seq<(Seq<char>, PartialView)>,
    b: Seq<(Seq<char>, PartialView)>,
    id: Seq<char>,
)
    requires
        ids_differ(a),
        ids_differ(b),
        forall|i: int|
            0 <= i < a.len() && (#[trigger] a[i]).0 == id ==> exists|j: int|
                0 <= j < b.len() && #[trigger] b[j] == a[i],
        forall|j: int|
            0 <= j < b.len() && (#[trigger] b[j]).0 == id ==> exists|i: int|
                0 <= i < a.len() && #[trigger] a[i] == b[j],
    ensures
        match (partial_index(a, id, 0), partial_index(b, id, 0)) {
            (Some(i), Some(j)) => a[i] == b[j],
            (None, None) => true,
            _ => false,
        },
{
    lemma_partial_index(a, id, 0);
    lemma_partial_index(b, id, 0);
    if let Some(i) = partial_index(a, id, 0) {
        assert(a[i].0 == id);
        let j = choose|j: int| 0 <= j < b.len() && #[trigger] b[j] == a[i];
        assert(b[j].0 == id);
        if let Some(k) = partial_index(b, id, 0) {
            if k < j {
                assert(b[k].0 != b[j].0);
            } else if j < k {
                assert(b[j].0 != b[k].0);
            }
        }
    }
    if let Some(j) = partial_index(b, id, 0) {
        assert(b[j].0 == id);
        let i = choose|i: int| 0 <= i < a.len() && #[trigger] a[i] == b[j];
        assert(a[i].0 == id);
    }
}

/// A chunk of an id, added to what is unfinished of that id.
spec fn joined_chunk(
    before: Seq<(Seq<char>, PartialView)>,
    call: Seq<Seq<u8>>,
    id: Seq<char>,
) -> PartialView {
    match partial_index(before, id, 0) {
        Some(i) => with_chunk(before[i].1, call_meta(call), call_text(call)),
        None => with_chunk(empty_partial(), call_meta(call), call_text(call)),
    }
}

proof fn lemma_own_step(
    before: Seq<(Seq<char>, PartialView)>,
    call: Seq<Seq<u8>>,
    id: Seq<char>,
)
    requires
        ids_differ(before),
        call_meta(call).id == Some(id),
    ensures
        ({
            let now = osc_99_step(before, call).0;
            let at = partial_index(now, id, 0);
            if call_meta(call).done {
                at is None
            } else {
                at is Some && now[at->0].1 == joined_chunk(before, call, id)
            }
        }),
{
    let now = osc_99_step(before, call).0;
    let m = call_meta(call);
    let p = joined_chunk(before, call, id);
    lemma_partial_index(before, id, 0);
    lemma_partial_index(now, id, 0);
    lemma_step_ids_differ(before, call);
    match partial_index(before, id, 0) {
        Some(i) => {
            if m.done {
                assert(now == before.remove(i));
                assert forall|j: int| 0 <= j < now.len() implies (#[trigger] now[j]).0 != id by {
                    if j < i {
                        assert(before[j].0 != before[i].0);
                    } else {
                        assert(now[j] == before[j + 1]);
                        assert(before[i].0 != before[j + 1].0);
                    }
                }
            } else {
                assert(now[i] == (id, p));
                let k = partial_index(now, id, 0)->0;
                if k < i {
                    assert(now[k].0 != now[i].0);
                } else if k > i {
                    assert(now[i].0 != now[k].0);
                }
            }
        },
        None => {
            if !m.done {
                let last = before.len() as int;
                assert(now[last] == (id, p));
                let k = partial_index(now, id, 0)->0;
                if k < last {
                    assert(now[k].0 != now[last].0);
                }
            }
        },
    }
}

proof fn lemma_other_step(
    before: Seq<(Seq<char>, PartialView)>,
    call: Seq<Seq<u8>>,
    id: Seq<char>,
)
    requires
        ids_differ(before),
        call_meta(call).id != Some(id),
    ensures
        ({
            let now = osc_99_step(before, call).0;
            match (partial_index(before, id, 0), partial_index(now, id, 0)) {
                (Some(i), Some(j)) => before[i] == now[j],
                (None, None) => true,
                _ => false,
            }
        }),
{
    let now = osc_99_step(before, call).0;
    if let Some(other) = call_meta(call).id {
        lemma_step_ids_differ(before, call);
        lemma_partial_index(before, other, 0);
        let at = partial_index(before, other, 0);
        let gone = at is Some && call_meta(call).done;
        assert forall|k: int| 0 <= k < before.len() && (#[trigger] before[k]).0
            == id implies exists|j: int| 0 <= j < now.len() && #[trigger] now[j] == before[k] by {
            if gone && k > at->0 {
                assert(now[k - 1] == before[k]);
            } else {
                assert(now[k] == before[k]);
            }
        }
        assert forall|j: int| 0 <= j < now.len() && (#[trigger] now[j]).0 == id implies exists|
            k: int,
        | 0 <= k < before.len() && #[trigger] before[k] == now[j] by {
            if gone && j >= at->0 {
                assert(before[j + 1] == now[j]);
            } else {
                assert(before[j] == now[j]);
            }
        }
        lemma_other_index(before, now, id);
    }
}

proof fn lemma_gathers(calls: Seq<Seq<Seq<u8>>>, id: Seq<char>)
    ensures
        gathers(calls, id),
    decreases calls.len(),
{
    if calls.len() > 0 {
        let most = calls.drop_last();
        let n = calls.len() as int;
        let call = calls.last();
        let before = partials_after(most);
        lemma_gathers(most, id);
        lemma_ids_differ(most);
        lemma_prefix(calls, id, n - 1);
        let from = last_close(calls, id, n - 1);
        lemma_gathered_prefix(calls, id, false, from, n - 1);
        lemma_gathered_prefix(calls, id, true, from, n - 1);
        if call_meta(call).id == Some(id) {
            lemma_own_step(before, call, id);
            let p = joined_chunk(before, call, id);
            assert(gathered(calls, id, false, from, n) =~= p.title);
            assert(gathered(calls, id, true, from, n) =~= p.body);
        } else {
            lemma_other_step(before, call, id);
        }
    }
}

/// However the chunks of any number of ids are mixed, a chunk that closes an id raises exactly one
/// notification, under that id, whose title and body join the texts of the id's own chunks since it
/// was last closed, in order. A chunk that leaves its id open raises nothing.
pub proof fn chunks_of_mixed_ids_are_joined(calls: Seq<Seq<Seq<u8>>>, id: Seq<char>)
    requires
        calls.len() > 0,
        call_meta(calls.last()).id == Some(id),
    ensures
        ({
            let n = calls.len() as int;
            let from = last_close(calls, id, n - 1);
            let m = call_meta(calls.last());
            osc_99_step(partials_after(calls.drop_last()), calls.last()).1 == (if m.done {
                seq![
                    TermEventView::Notification(
                        NotificationView {
                            kind: NotifyKind::Osc99,
                            title: gathered(calls, id, false, from, n),
                            body: gathered(calls, id, true, from, n),
                            urgency: m.urgency,
                            id: Some(id),
                        },
                    ),
                ]
            } else {
                Seq::empty()
            })
        }),
{
    let n = calls.len() as int;
    let most = calls.drop_last();
    let call = calls.last();
    let m = call_meta(call);
    lemma_gathers(most, id);
    lemma_prefix(calls, id, n - 1);
    let from = last_close(calls, id, n - 1);
    lemma_gathered_prefix(calls, id, false, from, n - 1);
    lemma_gathered_prefix(calls, id, true, from, n - 1);
    let before = partials_after(most);
    let p = match partial_index(before, id, 0) {
        Some(i) => with_chunk(before[i].1, m, call_text(call)),
        None => with_chunk(empty_partial(), m, call_text(call)),
    };
    assert(gathered(calls, id, false, from, n) =~= p.title);
    assert(gathered(calls, id, true, from, n) =~= p.body);
}

proof fn lemma_first_part(word: Seq<u8>, rest: Seq<u8>)
    requires
        !word.contains(59u8),
    ensures
        osc_parts(word + seq![59u8] + rest) == seq![word] + osc_parts(rest),
        osc_parts(rest).len() > 0,
    decreases rest.len(),
{
    let text = word + seq![59u8] + rest;
    if rest.len() == 0 {
        lemma_one_part(word);
        assert(text.drop_last() =~= word);
        assert(osc_parts(text) =~= seq![word] + osc_parts(rest));
    } else {
        let most = rest.drop_last();
        lemma_first_part(word, most);
        assert(text.drop_last() =~= word + seq![59u8] + most);
        assert(osc_parts(text) =~= seq![word] + osc_parts(rest));
    }
}

proof fn lemma_one_part(word: Seq<u8>)
    requires
        !word.contains(59u8),
    ensures
        osc_parts(word) == seq![word],
    decreases word.len(),
{
    if word.len() > 0 {
        let most = word.drop_last();
        assert(word.contains(word.last()));
        assert forall|b: u8| most.contains(b) implies word.contains(b) by {
            let i = choose|i: int| 0 <= i < most.len() && most[i] == b;
            assert(word[i] == b);
        }
        lemma_one_part(most);
        assert(most.push(word.last()) =~= word);
        assert(osc_parts(word) =~= seq![word]);
    } else {
        assert(word =~= Seq::empty());
    }
}

proof fn lemma_numbers()
    ensures
        encode_utf8("0"@) == seq![48u8],
        encode_utf8("2"@) == seq![50u8],
        encode_utf8("7"@) == seq![55u8],
        encode_utf8("9"@) == seq![57u8],
        encode_utf8("52"@) == seq![53u8, 50],
        encode_utf8("777"@) == seq![55u8, 55, 55],
        encode_utf8("99"@) == seq![57u8, 57],
{
    reveal_strlit("0");
    is_ascii_chars_encode_utf8("0"@);
    assert(encode_utf8("0"@) =~= seq![48u8]);
    reveal_strlit("2");
    is_ascii_chars_encode_utf8("2"@);
    assert(encode_utf8("2"@) =~= seq![50u8]);
    reveal_strlit("7");
    is_ascii_chars_encode_utf8("7"@);
    assert(encode_utf8("7"@) =~= seq![55u8]);
    reveal_strlit("9");
    is_ascii_chars_encode_utf8("9"@);
    assert(encode_utf8("9"@) =~= seq![57u8]);
    reveal_strlit("52");
    is_ascii_chars_encode_utf8("52"@);
    assert(encode_utf8("52"@) =~= seq![53u8, 50]);
    reveal_strlit("777");
    is_ascii_chars_encode_utf8("777"@);
    assert(encode_utf8("777"@) =~= seq![55u8, 55, 55]);
    reveal_strlit("99");
    is_ascii_chars_encode_utf8("99"@);
    assert(encode_utf8("99"@) =~= seq![57u8, 57]);
}

proof fn lemma_openings()
    ensures
        encode_utf8("9;"@) == seq![57u8, 59],
        encode_utf8("99;"@) == seq![57u8, 57, 59],
        encode_utf8("777;notify;"@) == seq![55u8, 55, 55, 59, 110, 111, 116, 105, 102, 121, 59],
        encode_utf8("notify"@) == seq![110u8, 111, 116, 105, 102, 121],
{
    reveal_strlit("9;");
    is_ascii_chars_encode_utf8("9;"@);
    assert(encode_utf8("9;"@) =~= seq![57u8, 59]);
    reveal_strlit("99;");
    is_ascii_chars_encode_utf8("99;"@);
    assert(encode_utf8("99;"@) =~= seq![57u8, 57, 59]);
    reveal_strlit("777;notify;");
    is_ascii_chars_encode_utf8("777;notify;"@);
    assert(encode_utf8("777;notify;"@) =~= seq![55u8, 55, 55, 59, 110, 111, 116, 105, 102, 121, 59]);
    reveal_strlit("notify");
    is_ascii_chars_encode_utf8("notify"@);
    assert(encode_utf8("notify"@) =~= seq![110u8, 111, 116, 105, 102, 121]);
}

proof fn lemma_osc_9_heard(text: Seq<u8>)
    requires
        !numeric(osc_parts(text)[0]),
    ensures
        notifies(osc_params(encode_utf8("9;"@) + text)),
{
    lemma_numbers();
    lemma_openings();
    let word = encode_utf8("9"@);
    assert(encode_utf8("9;"@) + text =~= word + seq![59u8] + text);
    lemma_first_part(word, text);
    let params = osc_params(encode_utf8("9;"@) + text);
    assert(params[0] == word && params[1] == osc_parts(text)[0]);
    assert(word[0] == 57);
    assert forall|partials: Seq<(Seq<char>, PartialView)>| has_notification(
        (#[trigger] osc_step(partials, params)).1,
    ) by {
        assert(osc_step(partials, params).1 == osc_9_events(params));
        assert(osc_9_events(params)[0] is Notification);
    }
}

proof fn lemma_osc_777_heard(text: Seq<u8>)
    ensures
        notifies(osc_params(encode_utf8("777;notify;"@) + text)),
{
    lemma_numbers();
    lemma_openings();
    let (word, verb) = (encode_utf8("777"@), encode_utf8("notify"@));
    let rest = verb + seq![59u8] + text;
    assert(encode_utf8("777;notify;"@) + text =~= word + seq![59u8] + rest);
    lemma_first_part(verb, text);
    lemma_first_part(word, rest);
    let params = osc_params(encode_utf8("777;notify;"@) + text);
    assert(params[0] == word && params[1] == verb);
    assert(word.len() == 3);
    assert forall|partials: Seq<(Seq<char>, PartialView)>| has_notification(
        (#[trigger] osc_step(partials, params)).1,
    ) by {
        assert(osc_step(partials, params).1 == osc_777_events(params));
        assert(osc_777_events(params)[0] is Notification);
    }
}

proof fn lemma_osc_99_heard(text: Seq<u8>)
    requires
        meta_of(osc_parts(text)[0]).id is None || meta_of(osc_parts(text)[0]).done,
    ensures
        notifies(osc_params(encode_utf8("99;"@) + text)),
{
    lemma_numbers();
    lemma_openings();
    let word = encode_utf8("99"@);
    assert(encode_utf8("99;"@) + text =~= word + seq![59u8] + text);
    lemma_first_part(word, text);
    let params = osc_params(encode_utf8("99;"@) + text);
    assert(params[0] == word && params[1] == osc_parts(text)[0]);
    assert(word.len() == 2 && word[0] == 57);
    assert forall|partials: Seq<(Seq<char>, PartialView)>| has_notification(
        (#[trigger] osc_step(partials, params)).1,
    ) by {
        assert(encode_utf8("52"@)[0] == 53);
        assert(osc_step(partials, params) == osc_99_step(partials, params));
        assert(osc_99_step(partials, params).1[0] is Notification);
    }
}

/// Agents are heard: `9;` and a text whose first part is not a number, `777;notify;` and any text,
/// and `99;` with metadata that leave nothing open always raise a notification.
pub proof fn agents_are_heard(text: Seq<u8>)
    ensures
        !numeric(osc_parts(text)[0]) ==> notifies(osc_params(encode_utf8("9;"@) + text)),
        notifies(osc_params(encode_utf8("777;notify;"@) + text)),
        (meta_of(osc_parts(text)[0]).id is None || meta_of(osc_parts(text)[0]).done) ==> notifies(
            osc_params(encode_utf8("99;"@) + text),
        ),
{
    if !numeric(osc_parts(text)[0]) {
        lemma_osc_9_heard(text);
    }
    lemma_osc_777_heard(text);
    if meta_of(osc_parts(text)[0]).id is None || meta_of(osc_parts(text)[0]).done {
        lemma_osc_99_heard(text);
    }
}

} // verus!
