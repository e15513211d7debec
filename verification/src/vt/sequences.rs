//! What the escape sequences that carry events say.
use vstd::prelude::*;
#[allow(unused_imports)]
use vstd::utf8::{encode_utf8, is_ascii_chars_encode_utf8};

#[allow(unused_imports)]
use crate::text::{after, before, find, lemma_find, parse_uint, trimmed, utf8_lossy, without_controls};
#[allow(unused_imports)]
use crate::vt::decode::base64_decoded;
#[allow(unused_imports)]
use crate::vt::osc::{
    chunk_text, default_meta, empty_partial, file_uri_path, joined, local_path, meta_from, meta_of,
    meta_set, osc_99_step, osc_step, param, percent_text, spells, unquoted, with_chunk, MetaView,
    NotificationView, NotifyKind, PartialView, ProgressState, PromptMark, TermEventView, Urgency,
};
#[allow(unused_imports)]
use crate::vt::emulator::{osc_parts, SideEventView};
#[allow(unused_imports)]
use crate::vt::terminal::{prompt_started, reports_prompt, side_step, TerminalView};

verus! {

/// Parameters, joined again, stand with a semicolon between them.
pub proof fn parameters_are_joined_by_semicolons(params: Seq<Seq<u8>>, from: int)
    requires
        0 <= from < params.len(),
    ensures
        from + 1 == params.len() ==> joined(params, from) == params[from],
        from + 1 < params.len() ==> joined(params, from) == params[from] + seq![59u8] + joined(
            params,
            from + 1,
        ),
{
}

proof fn lemma_heads()
    ensures
        encode_utf8("0"@).len() == 1 && encode_utf8("0"@)[0] == 48,
        encode_utf8("2"@).len() == 1 && encode_utf8("2"@)[0] == 50,
        encode_utf8("7"@).len() == 1 && encode_utf8("7"@)[0] == 55,
        encode_utf8("9"@).len() == 1 && encode_utf8("9"@)[0] == 57,
        encode_utf8("52"@).len() == 2 && encode_utf8("52"@)[0] == 53 && encode_utf8("52"@)[1] == 50,
        encode_utf8("777"@).len() == 3 && encode_utf8("777"@)[0] == 55 && encode_utf8("777"@)[1] == 55 && encode_utf8("777"@)[2] == 55,
        encode_utf8("99"@).len() == 2 && encode_utf8("99"@)[0] == 57 && encode_utf8("99"@)[1] == 57,
        encode_utf8("133"@).len() == 3 && encode_utf8("133"@)[0] == 49 && encode_utf8("133"@)[1] == 51 && encode_utf8("133"@)[2] == 51,
{
    reveal_strlit("0");
    is_ascii_chars_encode_utf8("0"@);
    reveal_strlit("2");
    is_ascii_chars_encode_utf8("2"@);
    reveal_strlit("7");
    is_ascii_chars_encode_utf8("7"@);
    reveal_strlit("9");
    is_ascii_chars_encode_utf8("9"@);
    reveal_strlit("52");
    is_ascii_chars_encode_utf8("52"@);
    reveal_strlit("777");
    is_ascii_chars_encode_utf8("777"@);
    reveal_strlit("99");
    is_ascii_chars_encode_utf8("99"@);
    reveal_strlit("133");
    is_ascii_chars_encode_utf8("133"@);
}

proof fn lemma_notify()
    ensures
        encode_utf8("notify"@).len() == 6 && encode_utf8("notify"@)[0] == 110 && encode_utf8("notify"@)[1] == 111 && encode_utf8("notify"@)[2] == 116 && encode_utf8("notify"@)[3] == 105 && encode_utf8("notify"@)[4] == 102 && encode_utf8("notify"@)[5] == 121,
{
    reveal_strlit("notify");
    is_ascii_chars_encode_utf8("notify"@);
}

proof fn lemma_digits()
    ensures
        encode_utf8("0"@).len() == 1 && encode_utf8("0"@)[0] == 48,
        encode_utf8("1"@).len() == 1 && encode_utf8("1"@)[0] == 49,
        encode_utf8("2"@).len() == 1 && encode_utf8("2"@)[0] == 50,
        encode_utf8("3"@).len() == 1 && encode_utf8("3"@)[0] == 51,
        encode_utf8("4"@).len() == 1 && encode_utf8("4"@)[0] == 52,
        encode_utf8("9"@).len() == 1 && encode_utf8("9"@)[0] == 57,
        encode_utf8("12"@).len() == 2 && encode_utf8("12"@)[0] == 49 && encode_utf8("12"@)[1] == 50,
{
    reveal_strlit("0");
    is_ascii_chars_encode_utf8("0"@);
    reveal_strlit("1");
    is_ascii_chars_encode_utf8("1"@);
    reveal_strlit("2");
    is_ascii_chars_encode_utf8("2"@);
    reveal_strlit("3");
    is_ascii_chars_encode_utf8("3"@);
    reveal_strlit("4");
    is_ascii_chars_encode_utf8("4"@);
    reveal_strlit("9");
    is_ascii_chars_encode_utf8("9"@);
    reveal_strlit("12");
    is_ascii_chars_encode_utf8("12"@);
}

proof fn lemma_verbs()
    ensures
        encode_utf8("A"@).len() == 1 && encode_utf8("A"@)[0] == 65,
        encode_utf8("B"@).len() == 1 && encode_utf8("B"@)[0] == 66,
        encode_utf8("C"@).len() == 1 && encode_utf8("C"@)[0] == 67,
        encode_utf8("D"@).len() == 1 && encode_utf8("D"@)[0] == 68,
{
    reveal_strlit("A");
    is_ascii_chars_encode_utf8("A"@);
    reveal_strlit("B");
    is_ascii_chars_encode_utf8("B"@);
    reveal_strlit("C");
    is_ascii_chars_encode_utf8("C"@);
    reveal_strlit("D");
    is_ascii_chars_encode_utf8("D"@);
}

proof fn lemma_keys()
    ensures
        encode_utf8("i"@).len() == 1 && encode_utf8("i"@)[0] == 105,
        encode_utf8("d"@).len() == 1 && encode_utf8("d"@)[0] == 100,
        encode_utf8("p"@).len() == 1 && encode_utf8("p"@)[0] == 112,
        encode_utf8("e"@).len() == 1 && encode_utf8("e"@)[0] == 101,
        encode_utf8("u"@).len() == 1 && encode_utf8("u"@)[0] == 117,
{
    reveal_strlit("i");
    is_ascii_chars_encode_utf8("i"@);
    reveal_strlit("d");
    is_ascii_chars_encode_utf8("d"@);
    reveal_strlit("p");
    is_ascii_chars_encode_utf8("p"@);
    reveal_strlit("e");
    is_ascii_chars_encode_utf8("e"@);
    reveal_strlit("u");
    is_ascii_chars_encode_utf8("u"@);
}

/// `ESC ] 0 ; text` and `ESC ] 2 ; text` set the title to the text, without control characters.
pub proof fn titles_are_set(partials: Seq<(Seq<char>, PartialView)>, text: Seq<u8>)
    ensures
        ({
            let title = seq![TermEventView::Title(without_controls(utf8_lossy(text)))];
            &&& osc_step(partials, seq![encode_utf8("0"@), text]) == (partials, title)
            &&& osc_step(partials, seq![encode_utf8("2"@), text]) == (partials, title)
        }),
{
    lemma_heads();
}

/// `ESC ] 777 ; notify ; title ; body` raises a notification with that title and that body, and
/// `ESC ] 9 ; text` one whose title is the text, where the text is no number; both without control
/// characters, of normal urgency, and complete at once.
pub proof fn notifications_say_what_was_sent(
    partials: Seq<(Seq<char>, PartialView)>,
    title: Seq<u8>,
    body: Seq<u8>,
    text: Seq<u8>,
)
    requires
        text.len() > 0,
        !(forall|i: int| 0 <= i < text.len() ==> 48 <= #[trigger] text[i] <= 57),
    ensures
        osc_step(
            partials,
            seq![encode_utf8("777"@), encode_utf8("notify"@), title, body],
        ) == (
            partials,
            seq![
                TermEventView::Notification(
                    NotificationView {
                        kind: NotifyKind::Osc777,
                        title: without_controls(utf8_lossy(title)),
                        body: without_controls(utf8_lossy(body)),
                        urgency: Urgency::Normal,
                        id: None,
                    },
                ),
            ],
        ),
        osc_step(partials, seq![encode_utf8("9"@), text]) == (
            partials,
            seq![
                TermEventView::Notification(
                    NotificationView {
                        kind: NotifyKind::Osc9,
                        title: without_controls(utf8_lossy(text)),
                        body: Seq::empty(),
                        urgency: Urgency::Normal,
                        id: None,
                    },
                ),
            ],
        ),
{
    lemma_heads();
    lemma_notify();
    assert(encode_utf8("777"@).len() == 3 && encode_utf8("133"@)[0] == 49);
}

/// `ESC ] 9 ; 9 ; path` tells the working directory, without surrounding white space and one pair of
/// quotes.
pub proof fn directories_are_told(partials: Seq<(Seq<char>, PartialView)>, path: Seq<u8>)
    ensures
        osc_step(partials, seq![encode_utf8("9"@), encode_utf8("9"@), path]) == (
            partials,
            seq![TermEventView::Cwd(unquoted(utf8_lossy(path)))],
        ),
        ({
            let t = trimmed(utf8_lossy(path));
            let u = unquoted(utf8_lossy(path));
            &&& t.len() >= 2 && t[0] == '"' && t.last() == '"' ==> t == seq!['"'] + u + seq!['"']
            &&& !(t.len() >= 2 && t[0] == '"' && t.last() == '"') ==> u == t
        }),
{
    lemma_heads();
    lemma_digits();
    let nine = encode_utf8("9"@);
    assert(crate::vt::osc::numeric(nine)) by {
        assert(nine[0] == 57);
    }
    let t = trimmed(utf8_lossy(path));
    if t.len() >= 2 && t[0] == '"' && t.last() == '"' {
        assert(t =~= seq!['"'] + unquoted(utf8_lossy(path)) + seq!['"']);
    }
}

/// `ESC ] 9 ; 4 ; state ; percent` tells progress: 0 takes it back, 1 sets a value, 2 is an error, 3
/// is indeterminate and 4 is paused; a percentage over 100 counts as 100.
pub proof fn progress_is_told(partials: Seq<(Seq<char>, PartialView)>, pct: Seq<u8>, n: nat)
    requires
        parse_uint(trimmed(utf8_lossy(pct)), false, u32::MAX as nat) == Some(n),
    ensures
        ({
            let told = |word: Seq<u8>|
                osc_step(partials, seq![encode_utf8("9"@), encode_utf8("4"@), word, pct]);
            let event = |state: ProgressState|
                (
                    partials,
                    seq![
                        TermEventView::Progress {
                            state,
                            pct: Some(
                                (if n > 100 {
                                    100
                                } else {
                                    n
                                }) as u8,
                            ),
                        },
                    ],
                );
            &&& told(encode_utf8("0"@)) == event(ProgressState::Remove)
            &&& told(encode_utf8("1"@)) == event(ProgressState::Value)
            &&& told(encode_utf8("2"@)) == event(ProgressState::Error)
            &&& told(encode_utf8("3"@)) == event(ProgressState::Indeterminate)
            &&& told(encode_utf8("4"@)) == event(ProgressState::Paused)
        }),
{
    lemma_heads();
    lemma_digits();
    let four = encode_utf8("4"@);
    assert(crate::vt::osc::numeric(four)) by {
        assert(four[0] == 52);
    }
    assert(encode_utf8("0"@)[0] == 48 && encode_utf8("1"@)[0] == 49 && encode_utf8("2"@)[0] == 50
        && encode_utf8("3"@)[0] == 51);
}

/// `ESC ] 133 ; A` to `D` mark a prompt, the start of a command, its execution and its end; so does
/// `ESC ] 9 ; 12` a prompt.
pub proof fn prompts_are_marked(partials: Seq<(Seq<char>, PartialView)>)
    ensures
        ({
            let mark = |m: PromptMark| (partials, seq![TermEventView::PromptMark(m)]);
            let told = |verb: Seq<u8>| osc_step(partials, seq![encode_utf8("133"@), verb]);
            &&& told(encode_utf8("A"@)) == mark(PromptMark::PromptStart)
            &&& told(encode_utf8("B"@)) == mark(PromptMark::CommandStart)
            &&& told(encode_utf8("C"@)) == mark(PromptMark::CommandExecuted)
            &&& told(encode_utf8("D"@)) == mark(PromptMark::CommandFinished(None))
            &&& osc_step(partials, seq![encode_utf8("9"@), encode_utf8("12"@)]) == mark(
                PromptMark::PromptStart,
            )
        }),
{
    lemma_heads();
    lemma_verbs();
    lemma_digits();
    let twelve = encode_utf8("12"@);
    assert(crate::vt::osc::numeric(twelve)) by {
        assert(twelve[0] == 49 && twelve[1] == 50);
    }
    assert(encode_utf8("133"@).len() == 3 && encode_utf8("777"@)[0] == 55);
    assert(encode_utf8("A"@)[0] == 65 && encode_utf8("B"@)[0] == 66 && encode_utf8("C"@)[0] == 67
        && encode_utf8("D"@)[0] == 68);
}

/// A finished command tells its status, where that is a number.
pub proof fn finished_commands_tell_their_status(
    partials: Seq<(Seq<char>, PartialView)>,
    status: Seq<u8>,
    n: int,
)
    requires
        crate::text::parse_int(
            trimmed(utf8_lossy(status)),
            i32::MIN as int,
            i32::MAX as int,
        ) == Some(n),
    ensures
        osc_step(partials, seq![encode_utf8("133"@), encode_utf8("D"@), status]) == (
            partials,
            seq![TermEventView::PromptMark(PromptMark::CommandFinished(Some(n as i32)))],
        ),
{
    lemma_heads();
    lemma_verbs();
    assert(encode_utf8("133"@).len() == 3 && encode_utf8("777"@)[0] == 55);
    assert(encode_utf8("A"@)[0] == 65 && encode_utf8("B"@)[0] == 66 && encode_utf8("C"@)[0] == 67
        && encode_utf8("D"@)[0] == 68);
}

/// `ESC ] 52 ; c ; base64` sets the clipboard to the decoded text; what cannot be decoded does
/// nothing.
pub proof fn clipboards_are_set(
    partials: Seq<(Seq<char>, PartialView)>,
    selection: Seq<u8>,
    data: Seq<u8>,
)
    ensures
        base64_decoded(data) matches Some(b) ==> osc_step(
            partials,
            seq![encode_utf8("52"@), selection, data],
        ) == (partials, seq![TermEventView::Clipboard(utf8_lossy(b))]),
        base64_decoded(data) is None ==> osc_step(
            partials,
            seq![encode_utf8("52"@), selection, data],
        ) == (partials, Seq::<TermEventView>::empty()),
{
    lemma_heads();
}

/// Whether a path starts with a drive.
pub open spec fn has_drive(p: Seq<char>) -> bool {
    p.len() >= 2 && ('a' <= p[0] <= 'z' || 'A' <= p[0] <= 'Z') && p[1] == ':'
}

/// `ESC ] 7 ; file://host/path` tells the working directory: a path with a drive, in the form of
/// this machine, with backslashes; any other path as it is, behind its slash.
pub proof fn file_uris_are_paths(host: Seq<char>, path: Seq<char>, i: int)
    requires
        forall|k: int| 0 <= k < host.len() ==> #[trigger] host[k] != '/',
        percent_text(path) == path,
    ensures
        ({
            let got = file_uri_path("file://"@ + host + seq!['/'] + path);
            &&& got is Some
            &&& !has_drive(path) && !(path.len() > 0 && path[0] == '/' && has_drive(path.skip(1)))
                ==> got->0 == seq!['/'] + path
            &&& has_drive(path) ==> got->0.len() == path.len() && (0 <= i < path.len()
                ==> got->0[i] == (if path[i] == '/' {
                '\\'
            } else {
                path[i]
            }))
        }),
{
    let payload = "file://"@ + host + seq!['/'] + path;
    let n = "file://"@.len() as int;
    assert(payload.take(n) =~= "file://"@);
    let rest = payload.skip(n);
    assert(rest =~= host + seq!['/'] + path);
    lemma_find(rest, '/', 0);
    assert(rest[host.len() as int] == '/');
    assert(forall|k: int| 0 <= k < host.len() ==> #[trigger] rest[k] == host[k]);
    assert(find(rest, '/', 0) == Some(host.len() as int));
    assert(after(rest, '/') =~= path);
}

/// The metadata of a chunk: `i` names it, `d=0` leaves it open, `p=body` makes it part of the body,
/// `e=1` says that it is base64, and `u` is its urgency, 0 low and 2 critical. What is not said is a
/// title, in plain text, of normal urgency, that leaves nothing open.
pub proof fn chunks_say_what_they_are(m: MetaView, v: Seq<u8>)
    requires
        forall|k: int| 0 <= k < v.len() ==> #[trigger] v[k] != 61,
    ensures
        meta_set(m, encode_utf8("i"@) + seq![61u8] + v) == (MetaView {
            id: Some(utf8_lossy(v)),
            ..m
        }),
        meta_set(m, encode_utf8("d"@) + seq![61u8] + v) == (MetaView {
            done: v != encode_utf8("0"@),
            ..m
        }),
        meta_set(m, encode_utf8("p"@) + seq![61u8] + v) == (MetaView {
            is_body: v == encode_utf8("body"@),
            ..m
        }),
        meta_set(m, encode_utf8("e"@) + seq![61u8] + v) == (MetaView {
            base64: v == encode_utf8("1"@),
            ..m
        }),
        meta_set(m, encode_utf8("u"@) + seq![61u8] + v) == (MetaView {
            urgency: if v == encode_utf8("0"@) {
                Urgency::Low
            } else if v == encode_utf8("2"@) {
                Urgency::Critical
            } else {
                Urgency::Normal
            },
            ..m
        }),
        default_meta() == (MetaView {
            id: None,
            done: true,
            is_body: false,
            base64: false,
            urgency: Urgency::Normal,
        }),
{
    lemma_keys();
    lemma_pair(encode_utf8("i"@), v);
    lemma_pair(encode_utf8("d"@), v);
    lemma_pair(encode_utf8("p"@), v);
    lemma_pair(encode_utf8("e"@), v);
    lemma_pair(encode_utf8("u"@), v);
    assert(encode_utf8("i"@)[0] == 105 && encode_utf8("d"@)[0] == 100 && encode_utf8("p"@)[0] == 112
        && encode_utf8("e"@)[0] == 101 && encode_utf8("u"@)[0] == 117);
}

proof fn lemma_pair(k: Seq<u8>, v: Seq<u8>)
    requires
        k.len() == 1,
        k[0] != 61,
    ensures
        before(k + seq![61u8] + v, 61u8) == k,
        after(k + seq![61u8] + v, 61u8) == v,
{
    let kv = k + seq![61u8] + v;
    lemma_find(kv, 61u8, 0);
    assert(kv[0] == k[0] && kv[1] == 61);
    assert(find(kv, 61u8, 0) == Some(1int));
    assert(kv.take(1) =~= k);
    assert(kv.skip(2) =~= v);
}

/// A chunk adds its text to the title, or to the body where it says so, and sets the urgency.
pub proof fn chunks_add_their_text(p: PartialView, m: MetaView, text: Seq<char>)
    ensures
        m.is_body ==> with_chunk(p, m, text) == (PartialView {
            title: p.title,
            body: p.body + text,
            urgency: m.urgency,
        }),
        !m.is_body ==> with_chunk(p, m, text) == (PartialView {
            title: p.title + text,
            body: p.body,
            urgency: m.urgency,
        }),
        empty_partial().title.len() == 0,
        empty_partial().body.len() == 0,
        chunk_text(false, text) == without_controls(text),
        base64_decoded(encode_utf8(text)) matches Some(b) ==> chunk_text(true, text)
            == without_controls(utf8_lossy(b)),
{
}

/// A sequence of any other number says nothing here, and only chunked notifications leave anything
/// behind.
pub proof fn other_sequences_say_nothing(
    partials: Seq<(Seq<char>, PartialView)>,
    params: Seq<Seq<u8>>,
)
    requires
        params.len() > 0,
    ensures
        params[0] != encode_utf8("99"@) ==> osc_step(partials, params).0 == partials,
        params[0] != encode_utf8("0"@) && params[0] != encode_utf8("2"@) && params[0]
            != encode_utf8("7"@) && params[0] != encode_utf8("9"@) && params[0] != encode_utf8(
            "52"@,
        ) && params[0] != encode_utf8("777"@) && params[0] != encode_utf8("99"@) && params[0]
            != encode_utf8("133"@) ==> osc_step(partials, params).1.len() == 0,
        params[0] == encode_utf8("99"@) ==> osc_step(partials, params) == osc_99_step(
            partials,
            params,
        ),
{
    lemma_heads();
    assert(encode_utf8("99"@).len() == 2 && encode_utf8("99"@)[0] == 57 && encode_utf8("52"@)[0]
        == 53);
}

/// A notification that comes whole and unnamed, `ESC ] 99 ; metadata ; text`, is shown at once: its
/// text is the title, or the body where the metadata says so.
pub proof fn unnamed_notifications_are_shown_at_once(
    partials: Seq<(Seq<char>, PartialView)>,
    meta: Seq<u8>,
    text: Seq<u8>,
)
    requires
        meta_of(meta).id is None,
        !meta_of(meta).base64,
    ensures
        osc_step(partials, seq![encode_utf8("99"@), meta, text]) == (
            partials,
            seq![
                TermEventView::Notification(
                    NotificationView {
                        kind: NotifyKind::Osc99,
                        title: if meta_of(meta).is_body {
                            Seq::empty()
                        } else {
                            without_controls(utf8_lossy(text))
                        },
                        body: if meta_of(meta).is_body {
                            without_controls(utf8_lossy(text))
                        } else {
                            Seq::empty()
                        },
                        urgency: meta_of(meta).urgency,
                        id: None,
                    },
                ),
            ],
        ),
{
    lemma_heads();
    let params = seq![encode_utf8("99"@), meta, text];
    other_sequences_say_nothing(partials, params);
    assert(joined(params, 2) == text);
    let t = without_controls(utf8_lossy(text));
    chunks_add_their_text(empty_partial(), meta_of(meta), t);
    assert(Seq::<char>::empty() + t =~= t);
    assert(empty_partial().title =~= Seq::<char>::empty());
    assert(empty_partial().body =~= Seq::<char>::empty());
}

/// The parts of a sequence's text are what stands between its semicolons.
pub proof fn parts_stand_between_semicolons(a: Seq<u8>, b: Seq<u8>)
    ensures
        osc_parts(a + seq![59u8] + b) == osc_parts(a) + osc_parts(b),
        (forall|i: int| 0 <= i < a.len() ==> #[trigger] a[i] != 59) ==> osc_parts(a) == seq![a],
{
    lemma_parts(a, b);
    if forall|i: int| 0 <= i < a.len() ==> #[trigger] a[i] != 59 {
        lemma_one_part(a);
    }
}

proof fn lemma_parts(a: Seq<u8>, b: Seq<u8>)
    ensures
        osc_parts(a + seq![59u8] + b) == osc_parts(a) + osc_parts(b),
        osc_parts(b).len() > 0,
    decreases b.len(),
{
    let s = a + seq![59u8] + b;
    if b.len() == 0 {
        assert(s.drop_last() =~= a);
        assert(s.last() == 59);
        assert(osc_parts(a).push(Seq::<u8>::empty()) =~= osc_parts(a) + osc_parts(b));
    } else {
        let front = b.drop_last();
        lemma_parts(a, front);
        assert(s.drop_last() =~= a + seq![59u8] + front);
        assert(s.last() == b.last());
        let p = osc_parts(a);
        let q = osc_parts(front);
        if b.last() == 59 {
            assert((p + q).push(Seq::<u8>::empty()) =~= p + q.push(Seq::<u8>::empty()));
        } else {
            assert((p + q).last() == q.last());
            assert((p + q).drop_last().push(q.last().push(b.last())) =~= p + q.drop_last().push(
                q.last().push(b.last()),
            ));
        }
    }
}

proof fn lemma_one_part(a: Seq<u8>)
    requires
        forall|i: int| 0 <= i < a.len() ==> #[trigger] a[i] != 59,
    ensures
        osc_parts(a) == seq![a],
    decreases a.len(),
{
    if a.len() > 0 {
        let front = a.drop_last();
        assert forall|i: int| 0 <= i < front.len() implies #[trigger] front[i] != 59 by {
            assert(front[i] == a[i]);
        }
        lemma_one_part(front);
        assert(a.last() == a[a.len() - 1]);
        assert(front.push(a.last()) =~= a);
        assert(seq![front].drop_last().push(seq![front].last().push(a.last())) =~= seq![a]);
    } else {
        assert(a =~= Seq::<u8>::empty());
    }
}

/// Of what the reader of sequences finds, `ESC ] 133 ; A` records a prompt and nothing else does; a
/// cursor shape is taken where there is one of that number, and a bell rings.
pub proof fn findings_act_on_the_terminal(t: TerminalView, shape: u16, params: Seq<Seq<u8>>)
    ensures
        side_step(t, SideEventView::Osc(seq![encode_utf8("133"@), encode_utf8("A"@)])) == (
            prompt_started(t),
            seq![TermEventView::PromptMark(PromptMark::PromptStart)],
        ),
        side_step(t, SideEventView::Osc(params)).1 == osc_step(t.partials, params).1,
        side_step(t, SideEventView::Osc(params)).0.partials == osc_step(t.partials, params).0,
        !osc_step(t.partials, params).1.contains(
            TermEventView::PromptMark(PromptMark::PromptStart),
        ) ==> side_step(t, SideEventView::Osc(params)).0.prompts == t.prompts,
        side_step(t, SideEventView::Bell) == (t, seq![TermEventView::Bell]),
        side_step(t, SideEventView::CursorStyle(shape)).1.len() == 0,
        shape <= 6 ==> side_step(t, SideEventView::CursorStyle(shape)).0 == (TerminalView {
            cursor_style: shape as u8,
            ..t
        }),
        shape > 6 ==> side_step(t, SideEventView::CursorStyle(shape)).0 == t,
{
    reveal(side_step);
    prompts_are_marked(t.partials);
    let told = osc_step(t.partials, seq![encode_utf8("133"@), encode_utf8("A"@)]);
    assert(told == (t.partials, seq![TermEventView::PromptMark(PromptMark::PromptStart)]));
    let events = osc_step(t.partials, params).1;
    if reports_prompt(events) {
        assert(events.contains(events[0]));
    }
}

} // verus!
