//! Whether a console passes notification sequences through.
//!
//! A program prints the three kinds of notification sequence under a pseudoconsole. What the
//! console hands on is taken apart here, and judged: all three have to arrive intact and in order.
//! The console draws text as a block apart from the sequences, so only their own order counts.
use vstd::prelude::*;
use vstd::string::*;

use crate::text::{
    chars_of, contains_text, debug_str, find_byte, join_lines, lossy, push_char, push_decimal,
    str_eq, string_of,
};
#[allow(unused_imports)]
use crate::text::{debug_text, dec, find, joined, lemma_find, occurs, texts_view, utf8_lossy};

verus! {

/// What ended a sequence.
#[derive(Debug, Clone, Copy, PartialEq, Eq, Structural)]
pub enum Ending {
    Bel,
    St,
}

/// An event in the output of a console.
#[derive(Debug, PartialEq, Eq)]
pub enum Ev {
    Text(String),
    Osc { num: String, payload: String, ending: Ending },
}

/// The mathematical value of an [`Ev`].
pub enum EvView {
    Text(Seq<char>),
    Osc { num: Seq<char>, payload: Seq<char>, ending: Ending },
}

impl Ev {
    pub open spec fn view(&self) -> EvView {
        match *self {
            Ev::Text(s) => EvView::Text(s@),
            Ev::Osc { num, payload, ending } => EvView::Osc {
                num: num@,
                payload: payload@,
                ending,
            },
        }
    }
}

/// The mathematical values of a list of events.
pub open spec fn evs_view(evs: Seq<Ev>) -> Seq<EvView> {
    Seq::new(evs.len(), |i: int| evs[i]@)
}

// ---------------------------------------------------------------------------
// Taking output apart.
// ---------------------------------------------------------------------------

/// Where a sequence ends, at or after an index, and with what.
pub open spec fn ending_at(bytes: Seq<u8>, j: int) -> Option<(int, Ending)>
    decreases bytes.len() - j,
{
    if j < 0 || j >= bytes.len() {
        None
    } else if bytes[j] == 7 {
        Some((j, Ending::Bel))
    } else if bytes[j] == 0x1b && j + 1 < bytes.len() && bytes[j + 1] == 0x5c {
        Some((j, Ending::St))
    } else {
        ending_at(bytes, j + 1)
    }
}

/// The text that was collected, as an event where there is any.
pub open spec fn flushed(text: Seq<u8>) -> Seq<EvView> {
    if text.len() == 0 {
        Seq::empty()
    } else {
        seq![EvView::Text(utf8_lossy(text))]
    }
}

/// The event of a sequence: what stands before the first semicolon is its number.
pub open spec fn osc_event(body: Seq<u8>, ending: Ending) -> EvView {
    match find(body, 59u8, 0) {
        Some(p) => EvView::Osc {
            num: utf8_lossy(body.take(p)),
            payload: utf8_lossy(body.skip(p + 1)),
            ending,
        },
        None => EvView::Osc { num: utf8_lossy(body), payload: Seq::empty(), ending },
    }
}

/// The events from an index on, where `text` was collected before it. A sequence that does not end
/// is text.
pub open spec fn events_from(bytes: Seq<u8>, i: int, text: Seq<u8>) -> Seq<EvView>
    decreases bytes.len() - i,
    via events_decreases
{
    if i < 0 || i >= bytes.len() {
        flushed(text)
    } else if bytes[i] == 0x1b && i + 1 < bytes.len() && bytes[i + 1] == 0x5d {
        match ending_at(bytes, i + 2) {
            None => flushed(text + bytes.skip(i)),
            Some((j, ending)) => flushed(text) + seq![osc_event(bytes.subrange(i + 2, j), ending)]
                + events_from(
                bytes,
                j + (if ending == Ending::Bel {
                    1int
                } else {
                    2int
                }),
                Seq::empty(),
            ),
        }
    } else {
        events_from(bytes, i + 1, text.push(bytes[i]))
    }
}

#[via_fn]
proof fn events_decreases(bytes: Seq<u8>, i: int, text: Seq<u8>) {
    if 0 <= i < bytes.len() {
        lemma_ending(bytes, i + 2);
    }
}

proof fn lemma_ending(bytes: Seq<u8>, j: int)
    requires
        0 <= j,
    ensures
        ending_at(bytes, j) matches Some((k, e)) ==> j <= k && k + (if e == Ending::Bel {
            1int
        } else {
            2int
        }) <= bytes.len(),
    decreases bytes.len() - j,
{
    if j < bytes.len() {
        lemma_ending(bytes, j + 1);
    }
}

fn find_ending(bytes: &[u8], from: usize) -> (r: Option<(usize, Ending)>)
    requires
        from <= bytes@.len(),
    ensures
        match r {
            Some((j, e)) => ending_at(bytes@, from as int) == Some((j as int, e)) && from <= j
                && j + (if e == Ending::Bel {
                1int
            } else {
                2int
            }) <= bytes@.len(),
            None => ending_at(bytes@, from as int) is None,
        },
{
    let _fits: usize = bytes.len();
    let mut j: usize = from;
    while j < bytes.len()
        invariant
            from <= j <= bytes@.len() <= usize::MAX,
            ending_at(bytes@, from as int) == ending_at(bytes@, j as int),
        decreases bytes@.len() - j,
    {
        if bytes[j] == 7 {
            return Some((j, Ending::Bel));
        }
        if bytes[j] == 0x1b && j + 1 < bytes.len() && bytes[j + 1] == 0x5c {
            return Some((j, Ending::St));
        }
        j = j + 1;
    }
    None
}

fn flush(text: &Vec<u8>, evs: &mut Vec<Ev>)
    ensures
        evs_view(final(evs)@) == evs_view(old(evs)@) + flushed(text@),
{
    let ghost before = evs_view(evs@);
    if text.len() > 0 {
        let e = Ev::Text(lossy(text.as_slice()));
        evs.push(e);
        assert(evs_view(evs@) =~= before.push(e@));
        assert(before.push(e@) =~= before + flushed(text@));
    } else {
        assert(before + flushed(text@) =~= before);
    }
}

fn osc(body: &[u8], ending: Ending) -> (e: Ev)
    ensures
        e@ == osc_event(body@, ending),
{
    let n: usize = body.len();
    match find_byte(body, 59, 0) {
        Some(p) => {
            let a = vstd::slice::slice_subrange(body, 0, p);
            let b = vstd::slice::slice_subrange(body, p + 1, n);
            assert(a@ =~= body@.take(p as int));
            assert(b@ =~= body@.skip(p + 1));
            Ev::Osc { num: lossy(a), payload: lossy(b), ending }
        },
        None => {
            let payload = String::new();
            assert(payload@ =~= Seq::empty());
            Ev::Osc { num: lossy(body), payload, ending }
        },
    }
}

/// Takes the output of a console apart: runs of text, and sequences that end.
pub fn parse(bytes: &[u8]) -> (evs: Vec<Ev>)
    ensures
        evs_view(evs@) == events_from(bytes@, 0, Seq::empty()),
{
    let _fits: usize = bytes.len();
    let mut evs: Vec<Ev> = Vec::new();
    let mut text: Vec<u8> = Vec::new();
    let mut i: usize = 0;
    let ghost all = events_from(bytes@, 0, Seq::empty());
    assert(evs_view(evs@) =~= Seq::empty());
    assert(text@ =~= Seq::empty());
    assert(evs_view(evs@) + all =~= all);
    while i < bytes.len()
        invariant
            i <= bytes@.len() <= usize::MAX,
            all == evs_view(evs@) + events_from(bytes@, i as int, text@),
        decreases bytes@.len() - i,
    {
        if bytes[i] == 0x1b && i + 1 < bytes.len() && bytes[i + 1] == 0x5d {
            match find_ending(bytes, i + 2) {
                None => {
                    let rest = vstd::slice::slice_subrange(bytes, i, bytes.len());
                    assert(rest@ =~= bytes@.skip(i as int));
                    let ghost had = text@;
                    text.extend_from_slice(rest);
                    assert(text@ =~= had + bytes@.skip(i as int));
                    i = bytes.len();
                },
                Some((j, ending)) => {
                    let ghost had = evs_view(evs@);
                    let ghost collected = text@;
                    flush(&text, &mut evs);
                    let ghost mid = evs_view(evs@);
                    let e = osc(vstd::slice::slice_subrange(bytes, i + 2, j), ending);
                    evs.push(e);
                    assert(evs_view(evs@) =~= mid.push(e@));
                    text = Vec::new();
                    assert(text@ =~= Seq::empty());
                    i = if ending == Ending::Bel {
                        j + 1
                    } else {
                        j + 2
                    };
                    assert(had + (flushed(collected) + seq![e@] + events_from(
                        bytes@,
                        i as int,
                        text@,
                    )) =~= evs_view(evs@) + events_from(bytes@, i as int, text@));
                },
            }
        } else {
            text.push(bytes[i]);
            i = i + 1;
        }
    }
    flush(&text, &mut evs);
    evs
}

// ---------------------------------------------------------------------------
// Judging output.
// ---------------------------------------------------------------------------

/// Whether one of the first `n` events is a sequence of a number whose payload holds a text.
pub open spec fn arrived(evs: Seq<EvView>, n: int, num: Seq<char>, needle: Seq<char>) -> bool
    decreases n,
{
    n > 0 && (arrived(evs, n - 1, num, needle) || (evs[n - 1] matches EvView::Osc {
        num: m,
        payload,
        ..
    } && m == num && occurs(payload, needle)))
}

fn has_arrived(evs: &Vec<Ev>, num: &str, needle: &str) -> (r: bool)
    ensures
        r == arrived(evs_view(evs@), evs@.len() as int, num@, needle@),
{
    let q = chars_of(needle);
    let mut r = false;
    let mut i: usize = 0;
    while i < evs.len()
        invariant
            i <= evs@.len(),
            q@ == needle@,
            r == arrived(evs_view(evs@), i as int, num@, needle@),
        decreases evs@.len() - i,
    {
        if let Ev::Osc { num: m, payload, ending: _ } = &evs[i] {
            let p = chars_of(payload.as_str());
            if str_eq(m.as_str(), num) && contains_text(p.as_slice(), q.as_slice()) {
                r = true;
            }
        }
        i = i + 1;
    }
    r
}

/// The numbers of the sequences among the first `n` events, in order, each behind `OSC`.
pub open spec fn arrivals(evs: Seq<EvView>, n: int) -> Seq<Seq<char>>
    decreases n,
{
    if n <= 0 {
        Seq::empty()
    } else {
        match evs[n - 1] {
            EvView::Osc { num, .. } => arrivals(evs, n - 1).push("OSC"@ + num),
            EvView::Text(_) => arrivals(evs, n - 1),
        }
    }
}

fn arrivals_of(evs: &Vec<Ev>) -> (r: Vec<String>)
    ensures
        texts_view(r@) == arrivals(evs_view(evs@), evs@.len() as int),
{
    let mut r: Vec<String> = Vec::new();
    let mut i: usize = 0;
    assert(texts_view(r@) =~= Seq::empty());
    while i < evs.len()
        invariant
            i <= evs@.len(),
            texts_view(r@) == arrivals(evs_view(evs@), i as int),
        decreases evs@.len() - i,
    {
        let ghost had = texts_view(r@);
        if let Ev::Osc { num, payload: _, ending: _ } = &evs[i] {
            let mut s = String::from_str("OSC");
            s.append(num.as_str());
            r.push(s);
            assert(texts_view(r@) =~= had.push(s@));
        }
        i = i + 1;
    }
    r
}

/// Whether the texts of `needle` from `i` on occur in order in `hay` from `j` on.
pub open spec fn in_order(
    needle: Seq<Seq<char>>,
    i: int,
    hay: Seq<Seq<char>>,
    j: int,
) -> bool
    decreases hay.len() - j,
{
    if i >= needle.len() {
        true
    } else if j < 0 || j >= hay.len() {
        false
    } else if hay[j] == needle[i] {
        in_order(needle, i + 1, hay, j + 1)
    } else {
        in_order(needle, i, hay, j + 1)
    }
}

/// Whether some texts occur in order among others, not necessarily next to each other.
pub fn is_subsequence(needle: &Vec<String>, hay: &Vec<String>) -> (r: bool)
    ensures
        r == in_order(texts_view(needle@), 0, texts_view(hay@), 0),
{
    let ghost n = texts_view(needle@);
    let ghost h = texts_view(hay@);
    let mut i: usize = 0;
    let mut j: usize = 0;
    while i < needle.len() && j < hay.len()
        invariant
            i <= needle@.len(),
            j <= hay@.len(),
            n == texts_view(needle@),
            h == texts_view(hay@),
            in_order(n, 0, h, 0) == in_order(n, i as int, h, j as int),
        decreases hay@.len() - j,
    {
        if str_eq(hay[j].as_str(), needle[i].as_str()) {
            i = i + 1;
        }
        j = j + 1;
    }
    i == needle.len()
}

/// Yes or no.
pub fn yn(b: bool) -> (s: &'static str)
    ensures
        s@ == (if b {
            "YES"@
        } else {
            "NO"@
        }),
{
    if b {
        "YES"
    } else {
        "NO"
    }
}

/// What became of the three kinds of sequence.
#[derive(Debug, Clone, Copy, PartialEq, Eq, Structural)]
pub struct Outcome {
    pub osc9: bool,
    pub osc777: bool,
    pub osc99: bool,
    pub ordered: bool,
}

/// The numbers of the three kinds, in the order in which they are sent.
pub open spec fn expected() -> Seq<Seq<char>> {
    seq!["OSC9"@, "OSC777"@, "OSC99"@]
}

/// What became of the three kinds of sequence, given the events and the numbers in order.
pub open spec fn outcome_in(evs: Seq<EvView>, order: Seq<Seq<char>>) -> Outcome {
    let n = evs.len() as int;
    Outcome {
        osc9: arrived(evs, n, "9"@, "gmux osc9 message"@),
        osc777: arrived(evs, n, "777"@, "gmux osc777 title"@),
        osc99: arrived(evs, n, "99"@, "gmux osc99"@),
        ordered: in_order(expected(), 0, order, 0),
    }
}

/// What became of the three kinds of sequence in some output.
pub open spec fn outcome(output: Seq<u8>) -> Outcome {
    let evs = events_from(output, 0, Seq::empty());
    outcome_in(evs, arrivals(evs, evs.len() as int))
}

/// Whether all went well.
pub open spec fn passes(o: Outcome) -> bool {
    o.osc9 && o.osc777 && o.osc99 && o.ordered
}

fn outcome_of(evs: &Vec<Ev>, order: &Vec<String>) -> (o: Outcome)
    ensures
        o == outcome_in(evs_view(evs@), texts_view(order@)),
{
    let mut needle: Vec<String> = Vec::new();
    needle.push(String::from_str("OSC9"));
    needle.push(String::from_str("OSC777"));
    needle.push(String::from_str("OSC99"));
    assert(texts_view(needle@) =~= expected());
    assert(evs_view(evs@).len() == evs@.len());
    Outcome {
        osc9: has_arrived(evs, "9", "gmux osc9 message"),
        osc777: has_arrived(evs, "777", "gmux osc777 title"),
        osc99: has_arrived(evs, "99", "gmux osc99"),
        ordered: is_subsequence(&needle, order),
    }
}

/// A byte as a reader sees it: the escape byte, the bell and line ends by name, other bytes that
/// cannot be printed by their number.
pub open spec fn seen_byte(b: u8) -> Seq<char> {
    if b == 0x1b {
        "<ESC>"@
    } else if b == 7 {
        "<BEL>"@
    } else if b == 13 {
        "\\r"@
    } else if b == 10 {
        "\\n"@
    } else if 0x20 <= b <= 0x7e {
        seq![b as char]
    } else {
        seq!['<', hex_lower(b as int / 16), hex_lower(b as int % 16), '>']
    }
}

/// A lower-case hexadecimal digit.
pub open spec fn hex_lower(n: int) -> char {
    if n < 10 {
        (48 + n) as char
    } else {
        (87 + n) as char
    }
}

/// The first `n` bytes as a reader sees them.
pub open spec fn seen(bytes: Seq<u8>, n: int) -> Seq<char>
    decreases n,
{
    if n <= 0 {
        Seq::empty()
    } else {
        seen(bytes, n - 1) + seen_byte(bytes[n - 1])
    }
}

/// The end of a text, of at most `n` characters.
pub open spec fn tail(s: Seq<char>, n: int) -> Seq<char> {
    if s.len() > n {
        s.skip(s.len() - n)
    } else {
        s
    }
}

fn lower_digit(n: u8) -> (c: char)
    requires
        n < 16,
    ensures
        c == hex_lower(n as int),
{
    if n < 10 {
        (48 + n) as char
    } else {
        (87 + n) as char
    }
}

/// The bytes as a reader sees them, at most the last 1200 characters.
pub fn printable(bytes: &[u8]) -> (s: String)
    ensures
        s@ == tail(seen(bytes@, bytes@.len() as int), 1200),
{
    let mut s = String::new();
    let mut i: usize = 0;
    assert(s@ =~= Seq::empty());
    while i < bytes.len()
        invariant
            i <= bytes@.len(),
            s@ == seen(bytes@, i as int),
        decreases bytes@.len() - i,
    {
        let b: u8 = bytes[i];
        let ghost had = s@;
        if b == 0x1b {
            s.append("<ESC>");
        } else if b == 7 {
            s.append("<BEL>");
        } else if b == 13 {
            s.append("\\r");
        } else if b == 10 {
            s.append("\\n");
        } else if 0x20 <= b && b <= 0x7e {
            push_char(&mut s, b as char);
        } else {
            push_char(&mut s, '<');
            push_char(&mut s, lower_digit(b / 16));
            push_char(&mut s, lower_digit(b % 16));
            push_char(&mut s, '>');
        }
        assert(s@ =~= had + seen_byte(b));
        i = i + 1;
    }
    let c = chars_of(s.as_str());
    if c.len() > 1200 {
        let t = vstd::slice::slice_subrange(c.as_slice(), c.len() - 1200, c.len());
        assert(t@ =~= s@.skip(s@.len() - 1200));
        string_of(t)
    } else {
        s
    }
}

/// The name of what ended a sequence.
pub open spec fn ending_name(e: Ending) -> Seq<char> {
    match e {
        Ending::Bel => "BEL"@,
        Ending::St => "ST"@,
    }
}

fn name_of(e: Ending) -> (s: &'static str)
    ensures
        s@ == ending_name(e),
{
    match e {
        Ending::Bel => "BEL",
        Ending::St => "ST",
    }
}

/// A text filled up with spaces to a width.
pub open spec fn padded(s: Seq<char>, width: int) -> Seq<char>
    decreases width - s.len(),
{
    if s.len() < width {
        padded(s.push(' '), width)
    } else {
        s
    }
}

fn pad(s: &str, width: usize) -> (r: String)
    ensures
        r@ == padded(s@, width as int),
{
    let mut r = String::from_str(s);
    let mut n: usize = chars_of(s).len();
    while n < width
        invariant
            n == r@.len(),
            padded(s@, width as int) == padded(r@, width as int),
        decreases width - n,
    {
        push_char(&mut r, ' ');
        n = n + 1;
    }
    r
}

/// The lines about the sequences among the first `n` events: with the number filled up and the
/// payload behind its name, or plain.
pub open spec fn osc_lines(evs: Seq<EvView>, n: int, wide: bool) -> Seq<char>
    decreases n,
{
    if n <= 0 {
        Seq::empty()
    } else {
        match evs[n - 1] {
            EvView::Osc { num, payload, ending } => osc_lines(evs, n - 1, wide) + ("  OSC "@
                + (if wide {
                padded(num, 4)
            } else {
                num
            }) + " ["@ + ending_name(ending) + (if wide {
                "]  payload="@
            } else {
                "] "@
            }) + debug_text(payload) + "\n"@),
            EvView::Text(_) => osc_lines(evs, n - 1, wide),
        }
    }
}

fn lines_of(evs: &Vec<Ev>, wide: bool) -> (s: String)
    ensures
        s@ == osc_lines(evs_view(evs@), evs@.len() as int, wide),
{
    let mut s = String::new();
    let mut i: usize = 0;
    assert(s@ =~= Seq::empty());
    while i < evs.len()
        invariant
            i <= evs@.len(),
            s@ == osc_lines(evs_view(evs@), i as int, wide),
        decreases evs@.len() - i,
    {
        if let Ev::Osc { num, payload, ending } = &evs[i] {
            let mut t = String::from_str("  OSC ");
            if wide {
                t.append(pad(num.as_str(), 4).as_str());
            } else {
                t.append(num.as_str());
            }
            t.append(" [");
            t.append(name_of(*ending));
            t.append(
                if wide {
                    "]  payload="
                } else {
                    "] "
                },
            );
            t.append(debug_str(payload.as_str()).as_str());
            t.append("\n");
            s.append(t.as_str());
        }
        i = i + 1;
    }
    s
}

/// A truth value as it is printed.
pub open spec fn bool_text(b: bool) -> Seq<char> {
    if b {
        "true"@
    } else {
        "false"@
    }
}

fn bool_str(b: bool) -> (s: &'static str)
    ensures
        s@ == bool_text(b),
{
    if b {
        "true"
    } else {
        "false"
    }
}

/// Yes or no.
pub open spec fn yes_no(b: bool) -> Seq<char> {
    if b {
        "YES"@
    } else {
        "NO"@
    }
}

/// What is printed about some output.
pub open spec fn transcript(output: Seq<u8>) -> Seq<char> {
    let evs = events_from(output, 0, Seq::empty());
    let n = evs.len() as int;
    let o = outcome(output);
    "== raw output: "@ + dec(output.len()) + " bytes ==\n"@ + tail(
        seen(output, output.len() as int),
        1200,
    ) + "\n\n== parsed OSC events ("@ + dec(arrivals(evs, n).len()) + ") ==\n"@ + osc_lines(
        evs,
        n,
        true,
    ) + "\n== OSC arrival order ==\n  "@ + joined(arrivals(evs, n), " -> "@)
        + "\n\n== RESULT ==\n  OSC 9  present & intact : "@ + yes_no(o.osc9)
        + "\n  OSC 777 present & intact: "@ + yes_no(o.osc777)
        + "\n  OSC 99 present & intact : "@ + yes_no(o.osc99)
        + "\n  in-order passthrough    : "@ + yes_no(o.ordered)
        + "\n\n  >>> KILLER-FEATURE GO/NO-GO: "@ + (if passes(o) {
        "GO ✅"@
    } else {
        "NO-GO ❌"@
    }) + " <<<\n"@
}

/// What is kept about some output.
pub open spec fn record(output: Seq<u8>) -> Seq<char> {
    let evs = events_from(output, 0, Seq::empty());
    let o = outcome(output);
    "captured_bytes="@ + dec(output.len()) + "\nOSC9="@ + bool_text(o.osc9) + " OSC777="@
        + bool_text(o.osc777) + " OSC99="@ + bool_text(o.osc99) + " ordered="@ + bool_text(
        o.ordered,
    ) + "\nverdict="@ + (if passes(o) {
        "GO"@
    } else {
        "NO-GO"@
    }) + "\nparsed_oscs:\n"@ + osc_lines(evs, evs.len() as int, false)
}

/// What an analysis gives.
pub struct Analysis {
    /// What is printed.
    pub transcript: String,
    /// What is kept in a file.
    pub record: String,
    pub outcome: Outcome,
    /// Whether all went well.
    pub pass: bool,
}

/// Judges the output of a console.
pub fn analyze(output: &[u8]) -> (a: Analysis)
    ensures
        a.transcript@ == transcript(output@),
        a.record@ == record(output@),
        a.outcome == outcome(output@),
        a.pass == passes(outcome(output@)),
{
    let evs = parse(output);
    assert(evs_view(evs@).len() == evs@.len());
    let order = arrivals_of(&evs);
    assert(texts_view(order@).len() == order@.len());
    let o = outcome_of(&evs, &order);
    assert(o == outcome(output@));
    let pass = o.osc9 && o.osc777 && o.osc99 && o.ordered;
    let mut t = String::from_str("== raw output: ");
    push_decimal(&mut t, output.len() as u64);
    t.append(" bytes ==\n");
    t.append(printable(output).as_str());
    t.append("\n\n== parsed OSC events (");
    push_decimal(&mut t, order.len() as u64);
    t.append(") ==\n");
    t.append(lines_of(&evs, true).as_str());
    t.append("\n== OSC arrival order ==\n  ");
    t.append(join_lines(&order, " -> ").as_str());
    t.append("\n\n== RESULT ==\n  OSC 9  present & intact : ");
    t.append(yn(o.osc9));
    t.append("\n  OSC 777 present & intact: ");
    t.append(yn(o.osc777));
    t.append("\n  OSC 99 present & intact : ");
    t.append(yn(o.osc99));
    t.append("\n  in-order passthrough    : ");
    t.append(yn(o.ordered));
    t.append("\n\n  >>> KILLER-FEATURE GO/NO-GO: ");
    t.append(
        if pass {
            "GO ✅"
        } else {
            "NO-GO ❌"
        },
    );
    t.append(" <<<\n");
    let mut r = String::from_str("captured_bytes=");
    push_decimal(&mut r, output.len() as u64);
    r.append("\nOSC9=");
    r.append(bool_str(o.osc9));
    r.append(" OSC777=");
    r.append(bool_str(o.osc777));
    r.append(" OSC99=");
    r.append(bool_str(o.osc99));
    r.append(" ordered=");
    r.append(bool_str(o.ordered));
    r.append("\nverdict=");
    r.append(
        if pass {
            "GO"
        } else {
            "NO-GO"
        },
    );
    r.append("\nparsed_oscs:\n");
    r.append(lines_of(&evs, false).as_str());
    Analysis { transcript: t, record: r, outcome: o, pass }
}

// ---------------------------------------------------------------------------
// Laws.
// ---------------------------------------------------------------------------

/// Whether indices pick the texts of `needle` from `i` on out of `hay`, one behind the other and
/// none before `j`.
pub open spec fn picks(
    at: Seq<int>,
    needle: Seq<Seq<char>>,
    i: int,
    hay: Seq<Seq<char>>,
    j: int,
) -> bool {
    &&& at.len() == needle.len() - i
    &&& forall|k: int| 0 <= k < at.len() ==> j <= #[trigger] at[k] < hay.len()
    &&& forall|k: int| 0 <= k < at.len() ==> hay[#[trigger] at[k]] == needle[i + k]
    &&& forall|k: int, l: int| 0 <= k < l < at.len() ==> #[trigger] at[k] < #[trigger] at[l]
}

/// The search for texts in order finds them exactly where they can be picked out one behind the
/// other: taking the first match each time misses nothing.
pub proof fn search_in_order_is_exact(needle: Seq<Seq<char>>, hay: Seq<Seq<char>>)
    ensures
        in_order(needle, 0, hay, 0) <==> exists|at: Seq<int>| picks(at, needle, 0, hay, 0),
{
    if in_order(needle, 0, hay, 0) {
        let at = lemma_picked(needle, 0, hay, 0);
        assert(picks(at, needle, 0, hay, 0));
    }
    if exists|at: Seq<int>| picks(at, needle, 0, hay, 0) {
        let at = choose|at: Seq<int>| picks(at, needle, 0, hay, 0);
        lemma_found_in_order(at, needle, 0, hay, 0);
    }
}

proof fn lemma_picked(needle: Seq<Seq<char>>, i: int, hay: Seq<Seq<char>>, j: int) -> (at: Seq<int>)
    requires
        in_order(needle, i, hay, j),
        0 <= i <= needle.len(),
        0 <= j,
    ensures
        picks(at, needle, i, hay, j),
    decreases hay.len() - j,
{
    if i >= needle.len() {
        Seq::empty()
    } else if hay[j] == needle[i] {
        let rest = lemma_picked(needle, i + 1, hay, j + 1);
        let at = seq![j] + rest;
        assert forall|k: int| 0 <= k < at.len() implies j <= #[trigger] at[k] < hay.len()
            && hay[at[k]] == needle[i + k] by {
            if k > 0 {
                assert(at[k] == rest[k - 1]);
                assert(needle[i + 1 + (k - 1)] == needle[i + k]);
            }
        }
        assert forall|k: int, l: int| 0 <= k < l < at.len() implies #[trigger] at[k]
            < #[trigger] at[l] by {
            assert(at[l] == rest[l - 1]);
            if k > 0 {
                assert(at[k] == rest[k - 1]);
            }
        }
        at
    } else {
        lemma_picked(needle, i, hay, j + 1)
    }
}

proof fn lemma_found_in_order(
    at: Seq<int>,
    needle: Seq<Seq<char>>,
    i: int,
    hay: Seq<Seq<char>>,
    j: int,
)
    requires
        picks(at, needle, i, hay, j),
        0 <= i <= needle.len(),
        0 <= j,
    ensures
        in_order(needle, i, hay, j),
    decreases hay.len() - j,
{
    if i < needle.len() {
        assert(j <= at[0] < hay.len());
        if hay[j] == needle[i] {
            let rest = at.skip(1);
            assert forall|k: int| 0 <= k < rest.len() implies j + 1 <= #[trigger] rest[k]
                < hay.len() && hay[rest[k]] == needle[i + 1 + k] by {
                assert(rest[k] == at[k + 1]);
                assert(at[0] < at[k + 1]);
                assert(needle[i + (k + 1)] == needle[i + 1 + k]);
            }
            assert forall|k: int, l: int| 0 <= k < l < rest.len() implies #[trigger] rest[k]
                < #[trigger] rest[l] by {
                assert(at[k + 1] < at[l + 1]);
            }
            lemma_found_in_order(rest, needle, i + 1, hay, j + 1);
        } else {
            assert(at[0] != j);
            assert forall|k: int| 0 <= k < at.len() implies j + 1 <= #[trigger] at[k]
                < hay.len() by {
                if k > 0 {
                    assert(at[0] < at[k]);
                }
            }
            lemma_found_in_order(at, needle, i, hay, j + 1);
        }
    }
}

/// The events of some text and a sequence behind it are the text, the sequence by what stands before
/// and behind its first semicolon, and the events of what follows.
pub proof fn sequences_are_told_from_text(
    text: Seq<u8>,
    num: Seq<u8>,
    payload: Seq<u8>,
    bell: bool,
    rest: Seq<u8>,
)
    requires
        forall|i: int| 0 <= i < text.len() ==> #[trigger] text[i] != 0x1b,
        forall|i: int|
            0 <= i < num.len() ==> #[trigger] num[i] != 59 && num[i] != 7 && num[i] != 0x1b,
        forall|i: int| 0 <= i < payload.len() ==> #[trigger] payload[i] != 7 && payload[i] != 0x1b,
    ensures
        events_from(
            text + seq![0x1bu8, 0x5d] + num + seq![59u8] + payload + (if bell {
                seq![7u8]
            } else {
                seq![0x1bu8, 0x5c]
            }) + rest,
            0,
            Seq::empty(),
        ) == (if text.len() == 0 {
            Seq::<EvView>::empty()
        } else {
            seq![EvView::Text(utf8_lossy(text))]
        }) + seq![
            EvView::Osc {
                num: utf8_lossy(num),
                payload: utf8_lossy(payload),
                ending: if bell {
                    Ending::Bel
                } else {
                    Ending::St
                },
            },
        ] + events_from(rest, 0, Seq::empty()),
{
    let end = if bell {
        seq![7u8]
    } else {
        seq![0x1bu8, 0x5c]
    };
    let body = num + seq![59u8] + payload;
    let head = text + seq![0x1bu8, 0x5d] + num + seq![59u8] + payload + end;
    let all = head + rest;
    let a = text.len() as int;
    let j = a + 2 + body.len();
    assert forall|i: int| 0 <= i < a implies #[trigger] all[i] == text[i] by {}
    lemma_text_run(all, text, 0);
    assert(text.take(0) =~= Seq::<u8>::empty());
    assert(all[a] == 0x1b && all[a + 1] == 0x5d);
    assert forall|i: int| a + 2 <= i < j implies #[trigger] all[i] != 7 && all[i] != 0x1b by {
        assert(all[i] == body[i - a - 2]);
        if i - a - 2 < num.len() {
            assert(body[i - a - 2] == num[i - a - 2]);
        } else if i - a - 2 > num.len() {
            assert(body[i - a - 2] == payload[i - a - 3 - num.len()]);
        }
    }
    assert(all[j] == end[0]);
    if !bell {
        assert(all[j + 1] == end[1]);
    }
    lemma_ends_there(all, a + 2, j);
    assert(all.subrange(a + 2, j) =~= body);
    lemma_find(body, 59u8, 0);
    assert(body[num.len() as int] == 59);
    assert(find(body, 59u8, 0) == Some(num.len() as int)) by {
        let p = find(body, 59u8, 0)->0;
        if p < num.len() {
            assert(body[p] == num[p]);
        }
    }
    assert(body.take(num.len() as int) =~= num);
    assert(body.skip(num.len() as int + 1) =~= payload);
    lemma_shifted(head, rest, 0, Seq::empty());
    assert(text.take(a) =~= text);
}

proof fn lemma_text_run(all: Seq<u8>, text: Seq<u8>, i: int)
    requires
        0 <= i <= text.len() <= all.len(),
        forall|k: int| 0 <= k < text.len() ==> #[trigger] all[k] == text[k],
        forall|k: int| 0 <= k < text.len() ==> #[trigger] text[k] != 0x1b,
    ensures
        events_from(all, i, text.take(i)) == events_from(
            all,
            text.len() as int,
            text.take(text.len() as int),
        ),
    decreases text.len() - i,
{
    if i < text.len() {
        assert(all[i] == text[i]);
        assert(text.take(i).push(text[i]) =~= text.take(i + 1));
        lemma_text_run(all, text, i + 1);
    }
}

proof fn lemma_ends_there(all: Seq<u8>, from: int, j: int)
    requires
        0 <= from <= j < all.len(),
        forall|i: int| from <= i < j ==> #[trigger] all[i] != 7 && all[i] != 0x1b,
        all[j] == 7 || (all[j] == 0x1b && j + 1 < all.len() && all[j + 1] == 0x5c),
    ensures
        ending_at(all, from) == Some(
            (
                j,
                if all[j] == 7 {
                    Ending::Bel
                } else {
                    Ending::St
                },
            ),
        ),
    decreases j - from,
{
    if from < j {
        assert(all[from] != 7 && all[from] != 0x1b);
        lemma_ends_there(all, from + 1, j);
    }
}

proof fn lemma_ending_shifted(head: Seq<u8>, rest: Seq<u8>, i: int)
    requires
        0 <= i,
    ensures
        ending_at(head + rest, head.len() + i) == (match ending_at(rest, i) {
            Some((j, e)) => Some((head.len() + j, e)),
            None => None,
        }),
    decreases rest.len() - i,
{
    let all = head + rest;
    if i < rest.len() {
        assert(all[head.len() + i] == rest[i]);
        if i + 1 < rest.len() {
            assert(all[head.len() + i + 1] == rest[i + 1]);
        }
        lemma_ending_shifted(head, rest, i + 1);
    }
}

proof fn lemma_shifted(head: Seq<u8>, rest: Seq<u8>, i: int, text: Seq<u8>)
    requires
        0 <= i,
    ensures
        events_from(head + rest, head.len() + i, text) == events_from(rest, i, text),
    decreases rest.len() - i,
{
    let all = head + rest;
    if i < rest.len() {
        assert(all[head.len() + i] == rest[i]);
        if i + 1 < rest.len() {
            assert(all[head.len() + i + 1] == rest[i + 1]);
        }
        if rest[i] == 0x1b && i + 1 < rest.len() && rest[i + 1] == 0x5d {
            lemma_ending_shifted(head, rest, i + 2);
            lemma_ending(rest, i + 2);
            assert(all.skip(head.len() + i) =~= rest.skip(i));
            if let Some((j, e)) = ending_at(rest, i + 2) {
                assert(all.subrange(head.len() + i + 2, head.len() + j) =~= rest.subrange(i + 2, j));
                let next = j + (if e == Ending::Bel {
                    1int
                } else {
                    2int
                });
                lemma_shifted(head, rest, next, Seq::empty());
            }
        } else {
            lemma_shifted(head, rest, i + 1, text.push(rest[i]));
        }
    }
}

} // verus!
