//! A terminal: the emulated grid, the events of the byte stream, and what a client reads of both.
use vstd::prelude::*;
use vte::Parser as VteParser;

use crate::text::{
    chars_of, contains_text, drop_trailing_spaces, string_of, str_eq, to_lowercase,
};
#[allow(unused_imports)]
use crate::text::{lines_view, lowercase, occurs, texts_view, trim_spaces};
use crate::vt::color::{named_from_code, resolve_color, Color, Palette, Rgb};
#[allow(unused_imports)]
use crate::vt::color::{default_palette, named_code, resolved};
use crate::vt::emulator::{
    side_advance, side_parser, Emulator, RawColor, SideEvent, SCROLLBACK,
};
#[allow(unused_imports)]
use crate::vt::emulator::{
    chunks, closes_osc, color_after, cursor_after, flat, glyph_after, history_after, link_after,
    modes_after, operations, osc_params, side_events_view, side_run, size_after, Operation,
    SideEventView,
};
use crate::vt::osc::{OscState, PromptMark, TermEvent};
#[allow(unused_imports)]
use crate::vt::osc::{appended, osc_step, term_events_view, PartialView, TermEventView};

verus! {

/// A cell as a renderer needs it: the character, concrete colors and attributes.
#[derive(Debug, Clone, Copy, PartialEq, Eq, Structural)]
pub struct Cell {
    pub ch: char,
    pub fg: Rgb,
    pub bg: Rgb,
    pub bold: bool,
    pub italic: bool,
    pub underline: bool,
    pub inverse: bool,
    /// A double-width character: it takes this cell and the next one, which holds a space.
    pub wide: bool,
}

/// One hyperlink span: row, first and last column, target.
pub struct LinkSpan {
    pub row: u16,
    pub start: u16,
    pub end: u16,
    pub uri: String,
}

/// The mathematical value of a [`LinkSpan`].
pub struct LinkSpanView {
    pub row: u16,
    pub start: u16,
    pub end: u16,
    pub uri: Seq<char>,
}

impl LinkSpan {
    pub open spec fn view(&self) -> LinkSpanView {
        LinkSpanView { row: self.row, start: self.start, end: self.end, uri: self.uri@ }
    }
}

/// The mathematical values of a list of spans.
pub open spec fn spans_view(s: Seq<LinkSpan>) -> Seq<LinkSpanView> {
    Seq::new(s.len(), |i: int| s[i]@)
}

/// The mathematical value of a [`Terminal`].
pub struct TerminalView {
    /// What the emulator was told.
    pub ops: Seq<Operation>,
    /// What the side parser was handed.
    pub chunks: Seq<Seq<u8>>,
    /// Notifications that are still being assembled.
    pub partials: Seq<(Seq<char>, PartialView)>,
    pub palette: Palette,
    pub cols: u16,
    pub rows: u16,
    /// The cursor shape that was last asked for (DECSCUSR), 0 by default.
    pub cursor_style: u8,
    /// Lines on which a prompt started, counted from the oldest retained line.
    pub prompts: Seq<u64>,
}

/// A terminal.
pub struct Terminal {
    emulator: Emulator,
    side: VteParser<1024>,
    osc: OscState,
    palette: Palette,
    cols: u16,
    rows: u16,
    cursor_style: u8,
    prompts: Vec<u64>,
}

/// A dimension of at least one.
pub open spec fn at_least(n: u16, min: u16) -> u16 {
    if n < min {
        min
    } else {
        n
    }
}

/// A terminal of a given size that has seen nothing. A dimension of zero counts as one.
pub open spec fn blank_terminal(cols: u16, rows: u16) -> TerminalView {
    TerminalView {
        ops: seq![
            Operation::New { cols: at_least(cols, 2) as nat, rows: at_least(rows, 1) as nat },
        ],
        chunks: Seq::empty(),
        partials: Seq::empty(),
        palette: default_palette(),
        cols: at_least(cols, 1),
        rows: at_least(rows, 1),
        cursor_style: 0,
        prompts: Seq::empty(),
    }
}

impl TerminalView {
    /// The grid is as large as the terminal says, and holds at least two columns.
    pub open spec fn wf(self) -> bool {
        &&& 1 <= self.cols
        &&& 1 <= self.rows
        &&& size_after(self.ops) == (at_least(self.cols, 2) as nat, self.rows as nat)
    }

    /// Scrollback lines above the screen.
    pub open spec fn history(self) -> nat {
        history_after(self.ops)
    }
}

// ---------------------------------------------------------------------------
// What a terminal does with bytes.
// ---------------------------------------------------------------------------

/// The lines of `prompts` above `line`.
pub open spec fn above(prompts: Seq<u64>, line: u64) -> Seq<u64>
    decreases prompts.len(),
{
    if prompts.len() > 0 && prompts.last() >= line {
        above(prompts.drop_last(), line)
    } else {
        prompts
    }
}

/// The line of the cursor, counted from the oldest retained line.
pub open spec fn cursor_line(t: TerminalView) -> u64 {
    let row = cursor_after(t.ops).0;
    (t.history() + (if row > 0 {
        row as int
    } else {
        0
    })) as u64
}

/// A terminal that has just seen a prompt start. Once the scrollback is full its oldest lines
/// leave unnoticed, so lines can no longer be followed and none is kept.
pub open spec fn prompt_started(t: TerminalView) -> TerminalView {
    TerminalView {
        prompts: if t.history() >= SCROLLBACK {
            Seq::empty()
        } else {
            above(t.prompts, cursor_line(t)).push(cursor_line(t))
        },
        ..t
    }
}

/// Whether events report that a prompt started.
pub open spec fn reports_prompt(events: Seq<TermEventView>) -> bool {
    events.len() == 1 && events[0] == TermEventView::PromptMark(PromptMark::PromptStart)
}

/// What one finding of the side parser does: the terminal afterwards, and the events.
#[verifier::opaque]
pub open spec fn side_step(t: TerminalView, e: SideEventView) -> (
    TerminalView,
    Seq<TermEventView>,
) {
    match e {
        SideEventView::Bell => (t, seq![TermEventView::Bell]),
        SideEventView::CursorStyle(p) => (
            TerminalView {
                cursor_style: if p <= 6 {
                    p as u8
                } else {
                    t.cursor_style
                },
                ..t
            },
            Seq::empty(),
        ),
        SideEventView::Osc(params) => {
            let (partials, events) = osc_step(t.partials, params);
            let next = TerminalView { partials, ..t };
            (
                if reports_prompt(events) {
                    prompt_started(next)
                } else {
                    next
                },
                events,
            )
        },
    }
}

/// What a list of findings does.
pub open spec fn side_steps(t: TerminalView, es: Seq<SideEventView>) -> (
    TerminalView,
    Seq<TermEventView>,
)
    decreases es.len(),
{
    if es.len() == 0 {
        (t, Seq::empty())
    } else {
        let (next, now) = side_step(t, es[0]);
        let (last, later) = side_steps(next, es.skip(1));
        (last, now + later)
    }
}

/// Consumes bytes piece by piece: the side parser stops behind each OSC sequence, and the grid
/// gets exactly the bytes that it read.
pub open spec fn consume(t: TerminalView, bytes: Seq<u8>) -> (TerminalView, Seq<TermEventView>)
    decreases bytes.len(),
{
    let (es, n) = side_run(t.chunks, bytes);
    if bytes.len() == 0 || n <= 0 || n > bytes.len() {
        (t, Seq::empty())
    } else {
        let fed = TerminalView {
            ops: t.ops.push(Operation::Feed { bytes: bytes.take(n) }),
            chunks: t.chunks.push(bytes.take(n)),
            ..t
        };
        let (next, now) = side_steps(fed, es);
        let (last, later) = consume(next, bytes.skip(n));
        (last, now + later)
    }
}

/// Whether `part` stands in `events` without a gap.
pub open spec fn stands_in(part: Seq<TermEventView>, events: Seq<TermEventView>) -> bool {
    exists|k: int|
        0 <= k && k + part.len() <= events.len() && #[trigger] events.subrange(k, k + part.len())
            == part
}

/// Whether events hold what an OSC sequence with a text does, over some unfinished notifications.
pub open spec fn recognized(text: Seq<u8>, events: Seq<TermEventView>) -> bool {
    exists|partials: Seq<(Seq<char>, PartialView)>|
        stands_in((#[trigger] osc_step(partials, osc_params(text))).1, events)
}

/// Feeding a chunk: the terminal afterwards, and the events, with one `Damage` at the end of a
/// chunk that is not empty.
pub open spec fn advanced(t: TerminalView, bytes: Seq<u8>) -> (TerminalView, Seq<TermEventView>) {
    let (next, events) = consume(t, bytes);
    (
        next,
        if bytes.len() > 0 {
            events.push(TermEventView::Damage)
        } else {
            events
        },
    )
}

// ---------------------------------------------------------------------------
// What a client reads.
// ---------------------------------------------------------------------------

/// A color of the emulator as a logical color.
pub open spec fn logical(c: RawColor) -> Color {
    match c {
        RawColor::Named(code) => Color::Named(named_code(code)),
        RawColor::Spec(rgb) => Color::Spec(rgb),
        RawColor::Indexed(i) => Color::Indexed(i),
    }
}

/// The cell at a position, with colors resolved against the palette. An inverse cell has its
/// colors swapped.
pub open spec fn cell_at(t: TerminalView, line: int, col: int) -> Cell {
    let g = glyph_after(t.ops, line, col);
    let fg = resolved(
        logical(color_after(t.ops, line, col, false)),
        t.palette,
        t.palette.fg,
        g.bold,
    );
    let bg = resolved(
        logical(color_after(t.ops, line, col, true)),
        t.palette,
        t.palette.bg,
        false,
    );
    Cell {
        ch: g.ch,
        fg: if g.inverse {
            bg
        } else {
            fg
        },
        bg: if g.inverse {
            fg
        } else {
            bg
        },
        bold: g.bold,
        italic: g.italic,
        underline: g.underline,
        inverse: g.inverse,
        wide: g.wide,
    }
}

/// The cells of a line.
pub open spec fn row_at(t: TerminalView, line: int) -> Seq<Cell> {
    Seq::new(t.cols as nat, |c: int| cell_at(t, line, c))
}

/// A scroll offset, clamped to the scrollback that there is.
pub open spec fn clamped(t: TerminalView, offset: nat) -> nat {
    if offset < t.history() {
        offset
    } else {
        t.history()
    }
}

/// The viewport, scrolled `offset` lines up into the scrollback.
pub open spec fn viewport(t: TerminalView, offset: nat) -> Seq<Seq<Cell>> {
    Seq::new(t.rows as nat, |r: int| row_at(t, r - clamped(t, offset)))
}

/// The contents of a grid of cells.
pub open spec fn rows_view(rows: Seq<Vec<Cell>>) -> Seq<Seq<Cell>> {
    Seq::new(rows.len(), |i: int| rows[i]@)
}

/// The text of a line, without trailing spaces.
pub open spec fn line_text(t: TerminalView, line: int) -> Seq<char> {
    trim_spaces(Seq::new(t.cols as nat, |c: int| glyph_after(t.ops, line, c).ch))
}

/// The text lines from `from` (inclusive) to the bottom of the screen.
pub open spec fn text_from(t: TerminalView, from: int) -> Seq<Seq<char>> {
    Seq::new((t.rows - from) as nat, |i: int| line_text(t, from + i))
}

/// Lines without the empty ones at their start.
pub open spec fn from_content(lines: Seq<Seq<char>>) -> Seq<Seq<char>>
    decreases lines.len(),
{
    if lines.len() > 0 && lines[0].len() == 0 {
        from_content(lines.skip(1))
    } else {
        lines
    }
}

/// Scrollback and screen as text, oldest line first: at most the `max` most recent lines (all of
/// them for 0), without empty lines at the start.
pub open spec fn scrollback(t: TerminalView, max: nat) -> Seq<Seq<char>> {
    let total = t.history() + t.rows;
    let take = if max == 0 || max > total {
        total as int
    } else {
        max as int
    };
    from_content(text_from(t, t.rows - take))
}

/// Most matches that a search reports.
pub const MAX_MATCHES: usize = 500;

/// Whether the line `k` lines above the bottom of the screen holds `needle`, ignoring case.
pub open spec fn line_matches(t: TerminalView, needle: Seq<char>, k: int) -> bool {
    occurs(lowercase(line_text(t, t.rows - 1 - k)), needle)
}

/// Offsets of the lines that match, from `k` lines above the bottom on, `room` at most.
pub open spec fn matches_from(t: TerminalView, needle: Seq<char>, k: int, room: nat) -> Seq<u32>
    decreases t.history() + t.rows - k,
{
    if k >= t.history() + t.rows || room == 0 {
        Seq::empty()
    } else if line_matches(t, needle, k) {
        seq![k as u32] + matches_from(t, needle, k + 1, (room - 1) as nat)
    } else {
        matches_from(t, needle, k + 1, room)
    }
}

/// Offsets (lines above the bottom of the screen) of the lines that hold `query`, ignoring case:
/// nearest to the bottom first. An empty query matches nothing.
pub open spec fn found_lines(t: TerminalView, query: Seq<char>) -> Seq<u32> {
    if query.len() == 0 {
        Seq::empty()
    } else {
        matches_from(t, lowercase(query), 0, MAX_MATCHES as nat)
    }
}

/// Offsets of the first `n` recorded prompts, nearest to the bottom first.
pub open spec fn offsets_of(t: TerminalView, n: int) -> Seq<u32>
    decreases n,
{
    if n <= 0 || n > t.prompts.len() {
        Seq::empty()
    } else {
        let bottom = t.history() + t.rows - 1;
        let line = t.prompts[n - 1];
        if line <= bottom {
            seq![(bottom - line) as u32] + offsets_of(t, n - 1)
        } else {
            offsets_of(t, n - 1)
        }
    }
}

/// Offsets of the recorded prompts, nearest to the bottom first; none once the scrollback is full.
pub open spec fn prompt_offsets_of(t: TerminalView) -> Seq<u32> {
    if t.history() >= SCROLLBACK {
        Seq::empty()
    } else {
        offsets_of(t, t.prompts.len() as int)
    }
}

/// Last column of the run of cells from `col` on that link to `uri`.
pub open spec fn link_end(t: TerminalView, line: int, uri: Seq<char>, col: int) -> int
    decreases t.cols - col,
{
    if col + 1 < t.cols && link_after(t.ops, line, col + 1) == Some(uri) {
        link_end(t, line, uri, col + 1)
    } else {
        col
    }
}

/// The hyperlink spans of a line, from a column on.
pub open spec fn row_links(t: TerminalView, line: int, row: int, from: int) -> Seq<LinkSpanView>
    decreases t.cols - from,
{
    if from < 0 || from >= t.cols {
        Seq::empty()
    } else {
        match link_after(t.ops, line, from) {
            None => row_links(t, line, row, from + 1),
            Some(uri) => {
                let end = link_end(t, line, uri, from);
                if end < from || end >= t.cols {
                    Seq::empty()
                } else {
                    seq![
                        LinkSpanView { row: row as u16, start: from as u16, end: end as u16, uri },
                    ] + row_links(t, line, row, end + 1)
                }
            },
        }
    }
}

/// The hyperlink spans of the viewport's rows from `row` on.
pub open spec fn links_from(t: TerminalView, offset: nat, row: int) -> Seq<LinkSpanView>
    decreases t.rows - row,
{
    if row < 0 || row >= t.rows {
        Seq::empty()
    } else {
        row_links(t, row - clamped(t, offset), row, 0) + links_from(t, offset, row + 1)
    }
}

/// The mouse mode as a bit field: 1 clicks, 2 drag, 4 motion, 8 SGR encoding.
pub open spec fn mouse_bits(t: TerminalView) -> u8 {
    let m = modes_after(t.ops);
    ((if m.mouse_clicks {
        1int
    } else {
        0
    }) + (if m.mouse_drag {
        2int
    } else {
        0
    }) + (if m.mouse_motion {
        4int
    } else {
        0
    }) + (if m.mouse_sgr {
        8int
    } else {
        0
    })) as u8
}

/// Cursor column and row, inside the screen.
pub open spec fn cursor_cell(t: TerminalView) -> (u16, u16) {
    let (line, col) = cursor_after(t.ops);
    let c = col as u16;
    let r = (if line > 0 {
        line
    } else {
        0
    }) as u16;
    (
        if c < t.cols {
            c
        } else {
            (t.cols - 1) as u16
        },
        if r < t.rows {
            r
        } else {
            (t.rows - 1) as u16
        },
    )
}

impl Terminal {
    pub closed spec fn view(&self) -> TerminalView {
        TerminalView {
            ops: operations(self.emulator),
            chunks: chunks(self.side),
            partials: self.osc@,
            palette: self.palette,
            cols: self.cols,
            rows: self.rows,
            cursor_style: self.cursor_style,
            prompts: self.prompts@,
        }
    }

    /// A blank terminal. A dimension of zero counts as one.
    pub fn new(cols: u16, rows: u16) -> (t: Self)
        ensures
            t@.wf(),
            t@ == blank_terminal(cols, rows),
    {
        let cols: u16 = if cols < 1 {
            1
        } else {
            cols
        };
        let rows: u16 = if rows < 1 {
            1
        } else {
            rows
        };
        let wide: u16 = if cols < 2 {
            2
        } else {
            cols
        };
        Terminal {
            emulator: Emulator::new(wide as usize, rows as usize),
            side: side_parser(),
            osc: OscState::new(),
            palette: Palette::default(),
            cols,
            rows,
            cursor_style: 0,
            prompts: Vec::new(),
        }
    }

    /// Replaces the palette that cells are resolved against. The grid stores logical colors, so
    /// this takes effect on the next read.
    pub fn set_palette(&mut self, palette: Palette)
        ensures
            final(self)@ == (TerminalView { palette, ..old(self)@ }),
    {
        self.palette = palette;
    }

    /// The palette that cells are resolved against.
    pub fn palette(&self) -> (p: Palette)
        ensures
            p == self@.palette,
    {
        self.palette
    }

    /// Feeds program output. Returns the events of this chunk, with a single `Damage` at the end
    /// where the chunk was not empty. An OSC sequence that ends in this chunk is recognized, however
    /// the bytes before were split into chunks.
    pub fn advance(&mut self, bytes: &[u8]) -> (events: Vec<TermEvent>)
        requires
            old(self)@.wf(),
        ensures
            final(self)@.wf(),
            (final(self)@, term_events_view(events@)) == advanced(old(self)@, bytes@),
            flat(final(self)@.chunks) == flat(old(self)@.chunks) + bytes@,
            forall|j: int, text: Seq<u8>|
                0 < j <= bytes@.len() && #[trigger] closes_osc(
                    flat(old(self)@.chunks) + bytes@.take(j),
                    text,
                ) ==> recognized(text, term_events_view(events@)),
    {
        let mut events: Vec<TermEvent> = Vec::new();
        let n: usize = bytes.len();
        let mut from: usize = 0;
        let ghost whole = consume(self@, bytes@);
        assert(bytes@.skip(0) =~= bytes@);
        assert(term_events_view(events@) + whole.1 =~= whole.1);
        let ghost before = flat(self@.chunks);
        assert(before + bytes@.take(0) =~= before);
        while from < n
            invariant
                flat(self@.chunks) == before + bytes@.take(from as int),
                forall|j: int, text: Seq<u8>|
                    0 < j <= from && #[trigger] closes_osc(before + bytes@.take(j), text)
                        ==> recognized(text, term_events_view(events@)),
                from <= n,
                n == bytes@.len(),
                self@.wf(),
                whole.0 == consume(self@, bytes@.skip(from as int)).0,
                whole.1 == term_events_view(events@) + consume(
                    self@,
                    bytes@.skip(from as int),
                ).1,
            decreases n - from,
        {
            let rest = vstd::slice::slice_subrange(bytes, from, n);
            assert(rest@ =~= bytes@.skip(from as int));
            let ghost t = self@;
            let ghost seen = term_events_view(events@);
            let (found, read) = side_advance(&mut self.side, rest);
            let piece = vstd::slice::slice_subrange(rest, 0, read);
            assert(piece@ =~= rest@.take(read as int));
            self.emulator.feed(piece);
            let ghost fed = self@;
            assert(fed.ops.drop_last() =~= t.ops);
            self.apply_all(found, &mut events);
            proof {
                let (next, now) = side_steps(fed, side_events_view(found@));
                let (last, later) = consume(next, rest@.skip(read as int));
                assert(rest@.skip(read as int) =~= bytes@.skip(from + read));
                assert(seen + (now + later) =~= (seen + now) + later);
                let es = side_events_view(found@);
                lemma_steps_keep_size(fed, es);
                assert(fed.chunks.drop_last() =~= t.chunks);
                assert(before + bytes@.take(from as int) + piece@ =~= before + bytes@.take(
                    from + read,
                ));
                assert forall|j: int, text: Seq<u8>|
                    0 < j <= from + read && #[trigger] closes_osc(
                        before + bytes@.take(j),
                        text,
                    ) implies recognized(text, term_events_view(events@)) by {
                    if j <= from {
                        lemma_still_recognized(text, seen, now);
                    } else {
                        assert(flat(t.chunks) + rest@.take(j - from) =~= before + bytes@.take(j));
                        assert(j == from + read);
                        lemma_last_recognized(fed, es, text, seen);
                    }
                }
            }
            from = from + read;
        }
        proof {
            assert(bytes@.skip(from as int) =~= Seq::empty());
            assert(term_events_view(events@) + Seq::empty() =~= term_events_view(events@));
        }
        let ghost seen = events@;
        if n > 0 {
            events.push(TermEvent::Damage);
            assert(term_events_view(events@) =~= term_events_view(seen).push(
                TermEventView::Damage,
            ));
            proof {
                let damage = seq![TermEventView::Damage];
                assert(term_events_view(events@) =~= term_events_view(seen) + damage);
                assert forall|j: int, text: Seq<u8>|
                    0 < j <= n && #[trigger] closes_osc(before + bytes@.take(j), text) implies
                    recognized(text, term_events_view(events@)) by {
                    lemma_still_recognized(text, term_events_view(seen), damage);
                }
            }
        }
        assert(bytes@.take(n as int) =~= bytes@);
        events
    }

    /// Applies the findings of the side parser in order.
    fn apply_all(&mut self, found: Vec<SideEvent>, out: &mut Vec<TermEvent>)
        requires
            old(self)@.wf(),
        ensures
            final(self)@.wf(),
            final(self)@ == side_steps(old(self)@, side_events_view(found@)).0,
            appended(
                old(out)@,
                final(out)@,
                side_steps(old(self)@, side_events_view(found@)).1,
            ),
    {
        let ghost es = side_events_view(found@);
        let ghost whole = side_steps(self@, es);
        let ghost start = term_events_view(out@);
        let mut i: usize = 0;
        assert(es.skip(0) =~= es);
        assert(start + whole.1 =~= term_events_view(out@) + whole.1);
        while i < found.len()
            invariant
                i <= found@.len(),
                es == side_events_view(found@),
                self@.wf(),
                whole.0 == side_steps(self@, es.skip(i as int)).0,
                start + whole.1 == term_events_view(out@) + side_steps(
                    self@,
                    es.skip(i as int),
                ).1,
            decreases found@.len() - i,
        {
            let ghost rest = es.skip(i as int);
            let ghost seen = term_events_view(out@);
            let ghost t = self@;
            self.apply(&found[i], out);
            proof {
                assert(rest.skip(1) =~= es.skip(i + 1));
                let (next, now) = side_step(t, rest[0]);
                let (last, later) = side_steps(next, rest.skip(1));
                assert(seen + (now + later) =~= (seen + now) + later);
            }
            i = i + 1;
        }
        assert(es.skip(i as int) =~= Seq::empty());
        assert(term_events_view(out@) + Seq::empty() =~= term_events_view(out@));
    }

    /// Applies one finding of the side parser.
    fn apply(&mut self, e: &SideEvent, out: &mut Vec<TermEvent>)
        requires
            old(self)@.wf(),
        ensures
            final(self)@.wf(),
            final(self)@ == side_step(old(self)@, e@).0,
            appended(old(out)@, final(out)@, side_step(old(self)@, e@).1),
    {
        let ghost seen = out@;
        proof {
            reveal(side_step);
            assert(term_events_view(seen) + Seq::empty() =~= term_events_view(seen));
        }
        match e {
            SideEvent::Bell => {
                out.push(TermEvent::Bell);
                assert(term_events_view(out@) =~= term_events_view(seen) + seq![
                    TermEventView::Bell,
                ]);
            },
            SideEvent::CursorStyle(p) => {
                if *p <= 6 {
                    self.cursor_style = *p as u8;
                }
            },
            SideEvent::Osc(params) => {
                let before: usize = out.len();
                self.osc.dispatch(params, out);
                let ghost events = osc_step(old(self)@.partials, lines_view(params@)).1;
                assert(term_events_view(out@).len() == term_events_view(seen).len()
                    + events.len());
                let prompt = if out.len() - before == 1 {
                    assert(term_events_view(out@)[before as int] == events[0]);
                    match &out[before] {
                        TermEvent::PromptMark(PromptMark::PromptStart) => true,
                        _ => false,
                    }
                } else {
                    false
                };
                if prompt {
                    self.start_prompt();
                }
            },
        }
    }

    /// Records that a prompt starts on the cursor's line.
    fn start_prompt(&mut self)
        ensures
            final(self)@ == prompt_started(old(self)@),
    {
        let history: usize = self.emulator.history();
        if history >= SCROLLBACK {
            self.prompts = Vec::new();
        } else {
            let (row, _) = self.emulator.cursor();
            let row: i32 = if row > 0 {
                row
            } else {
                0
            };
            let line: u64 = history as u64 + row as u64;
            while self.prompts.len() > 0 && self.prompts[self.prompts.len() - 1] >= line
                invariant
                    self@ == (TerminalView { prompts: self.prompts@, ..old(self)@ }),
                    above(self.prompts@, line) == above(old(self).prompts@, line),
                decreases self.prompts@.len(),
            {
                let ghost before = self.prompts@;
                let _ = self.prompts.pop();
                assert(self.prompts@ =~= before.drop_last());
            }
            self.prompts.push(line);
        }
    }

    /// Resizes the terminal. A dimension of zero counts as one. Text reflows with the width, so
    /// recorded prompt lines do not survive a change of it.
    pub fn resize(&mut self, cols: u16, rows: u16)
        requires
            old(self)@.wf(),
        ensures
            final(self)@.wf(),
            final(self)@ == (TerminalView {
                ops: old(self)@.ops.push(
                    Operation::Resize {
                        cols: at_least(cols, 2) as nat,
                        rows: at_least(rows, 1) as nat,
                    },
                ),
                cols: at_least(cols, 1),
                rows: at_least(rows, 1),
                prompts: if at_least(cols, 1) == old(self)@.cols {
                    old(self)@.prompts
                } else {
                    Seq::empty()
                },
                ..old(self)@
            }),
    {
        let cols: u16 = if cols < 1 {
            1
        } else {
            cols
        };
        let rows: u16 = if rows < 1 {
            1
        } else {
            rows
        };
        let wide: u16 = if cols < 2 {
            2
        } else {
            cols
        };
        self.emulator.resize(wide as usize, rows as usize);
        if cols != self.cols {
            self.prompts = Vec::new();
        }
        self.cols = cols;
        self.rows = rows;
    }

    pub fn cols(&self) -> (n: u16)
        ensures
            n == self@.cols,
    {
        self.cols
    }

    pub fn rows(&self) -> (n: u16)
        ensures
            n == self@.rows,
    {
        self.rows
    }

    /// Cursor column and row, from zero, inside the screen.
    pub fn cursor(&self) -> (r: (u16, u16))
        requires
            self@.wf(),
        ensures
            r == cursor_cell(self@),
    {
        let (line, col) = self.emulator.cursor();
        let c: u16 = col as u16;
        let line: i32 = if line > 0 {
            line
        } else {
            0
        };
        let r: u16 = line as u16;
        (
            if c < self.cols {
                c
            } else {
                self.cols - 1
            },
            if r < self.rows {
                r
            } else {
                self.rows - 1
            },
        )
    }

    /// The raw cursor shape (DECSCUSR), 0 by default.
    pub fn cursor_style(&self) -> (s: u8)
        ensures
            s == self@.cursor_style,
    {
        self.cursor_style
    }

    /// Whether the application enabled bracketed paste.
    pub fn bracketed_paste(&self) -> (b: bool)
        ensures
            b == modes_after(self@.ops).bracketed_paste,
    {
        self.emulator.modes().bracketed_paste
    }

    /// The application's mouse mode as a bit field (0: it wants no mouse).
    pub fn mouse_mode(&self) -> (m: u8)
        ensures
            m == mouse_bits(self@),
    {
        let modes = self.emulator.modes();
        let a: u8 = if modes.mouse_clicks {
            1
        } else {
            0
        };
        let b: u8 = if modes.mouse_drag {
            2
        } else {
            0
        };
        let c: u8 = if modes.mouse_motion {
            4
        } else {
            0
        };
        let d: u8 = if modes.mouse_sgr {
            8
        } else {
            0
        };
        a + b + c + d
    }

    /// Scrollback lines retained above the screen.
    pub fn history_len(&self) -> (n: usize)
        ensures
            n == self@.history(),
            n <= SCROLLBACK,
    {
        self.emulator.history()
    }

    fn color_at(&self, line: i32, col: usize, background: bool) -> (c: Color)
        requires
            self@.wf(),
            -self@.history() <= line < self@.rows,
            col < self@.cols,
        ensures
            c == logical(color_after(self@.ops, line as int, col as int, background)),
    {
        match self.emulator.color(line, col, background) {
            RawColor::Named(code) => Color::Named(named_from_code(code)),
            RawColor::Spec(rgb) => Color::Spec(rgb),
            RawColor::Indexed(i) => Color::Indexed(i),
        }
    }

    /// Resolves one line into renderer cells.
    fn row_cells(&self, line: i32) -> (row: Vec<Cell>)
        requires
            self@.wf(),
            -self@.history() <= line < self@.rows,
        ensures
            row@ == row_at(self@, line as int),
    {
        let mut row: Vec<Cell> = Vec::new();
        let cols: usize = self.cols as usize;
        let mut c: usize = 0;
        while c < cols
            invariant
                c <= cols,
                cols == self@.cols,
                self@.wf(),
                -self@.history() <= line < self@.rows,
                row@ =~= row_at(self@, line as int).take(c as int),
            decreases cols - c,
        {
            let g = self.emulator.glyph(line, c);
            let fg = resolve_color(
                self.color_at(line, c, false),
                &self.palette,
                self.palette.fg,
                g.bold,
            );
            let bg = resolve_color(
                self.color_at(line, c, true),
                &self.palette,
                self.palette.bg,
                false,
            );
            row.push(
                Cell {
                    ch: g.ch,
                    fg: if g.inverse {
                        bg
                    } else {
                        fg
                    },
                    bg: if g.inverse {
                        fg
                    } else {
                        bg
                    },
                    bold: g.bold,
                    italic: g.italic,
                    underline: g.underline,
                    inverse: g.inverse,
                    wide: g.wide,
                },
            );
            c = c + 1;
        }
        assert(row_at(self@, line as int).take(c as int) =~= row_at(self@, line as int));
        row
    }

    /// The viewport scrolled `offset` lines up into the scrollback (clamped to what there is),
    /// row by row with resolved colors.
    pub fn cells_at_offset(&self, offset: usize) -> (rows: Vec<Vec<Cell>>)
        requires
            self@.wf(),
        ensures
            rows_view(rows@) == viewport(self@, offset as nat),
    {
        let history: usize = self.emulator.history();
        let offset: usize = if offset < history {
            offset
        } else {
            history
        };
        let mut rows: Vec<Vec<Cell>> = Vec::new();
        let n: usize = self.rows as usize;
        let mut r: usize = 0;
        while r < n
            invariant
                r <= n,
                n == self@.rows,
                self@.wf(),
                offset <= self@.history(),
                offset <= SCROLLBACK,
                rows@.len() == r,
                forall|i: int| 0 <= i < r ==> #[trigger] rows@[i]@ == row_at(self@, i - offset),
            decreases n - r,
        {
            let line: i32 = r as i32 - offset as i32;
            rows.push(self.row_cells(line));
            r = r + 1;
        }
        assert(rows_view(rows@) =~= Seq::new(
            self@.rows as nat,
            |i: int| row_at(self@, i - offset),
        ));
        rows
    }

    /// The screen, row by row with resolved colors.
    pub fn visible_cells(&self) -> (rows: Vec<Vec<Cell>>)
        requires
            self@.wf(),
        ensures
            rows_view(rows@) == viewport(self@, 0),
    {
        self.cells_at_offset(0)
    }

    /// The text of a line, without trailing spaces.
    fn text_of_line(&self, line: i32) -> (s: String)
        requires
            self@.wf(),
            -self@.history() <= line < self@.rows,
        ensures
            s@ == line_text(self@, line as int),
    {
        let mut row: Vec<char> = Vec::new();
        let cols: usize = self.cols as usize;
        let ghost whole = Seq::new(
            self@.cols as nat,
            |c: int| glyph_after(self@.ops, line as int, c).ch,
        );
        let mut c: usize = 0;
        while c < cols
            invariant
                c <= cols,
                cols == self@.cols,
                self@.wf(),
                -self@.history() <= line < self@.rows,
                whole == Seq::new(
                    self@.cols as nat,
                    |c: int| glyph_after(self@.ops, line as int, c).ch,
                ),
                row@ =~= whole.take(c as int),
            decreases cols - c,
        {
            row.push(self.emulator.glyph(line, c).ch);
            c = c + 1;
        }
        assert(whole.take(c as int) =~= whole);
        string_of(drop_trailing_spaces(row).as_slice())
    }

    /// The text lines from `from` to the bottom of the screen.
    fn lines_from(&self, from: i32) -> (lines: Vec<String>)
        requires
            self@.wf(),
            -self@.history() <= from <= self@.rows,
        ensures
            texts_view(lines@) == text_from(self@, from as int),
    {
        let mut lines: Vec<String> = Vec::new();
        let bottom: i32 = self.rows as i32;
        let mut l: i32 = from;
        while l < bottom
            invariant
                from <= l <= bottom,
                bottom == self@.rows,
                self@.wf(),
                -self@.history() <= from,
                lines@.len() == l - from,
                forall|i: int|
                    0 <= i < l - from ==> #[trigger] lines@[i]@ == line_text(self@, from + i),
            decreases bottom - l,
        {
            lines.push(self.text_of_line(l));
            l = l + 1;
        }
        assert(texts_view(lines@) =~= text_from(self@, from as int));
        lines
    }

    /// The screen as text rows, without trailing spaces.
    pub fn visible_text(&self) -> (lines: Vec<String>)
        requires
            self@.wf(),
        ensures
            texts_view(lines@) == text_from(self@, 0),
    {
        self.lines_from(0)
    }

    /// Scrollback and screen as text lines, oldest first: at most the `max_lines` most recent
    /// ones (0: all), without empty lines at the start.
    pub fn scrollback_text(&self, max_lines: usize) -> (lines: Vec<String>)
        requires
            self@.wf(),
        ensures
            texts_view(lines@) == scrollback(self@, max_lines as nat),
    {
        let total: usize = self.emulator.history() + self.rows as usize;
        let take: usize = if max_lines == 0 || max_lines > total {
            total
        } else {
            max_lines
        };
        let from: i32 = self.rows as i32 - take as i32;
        let mut lines = self.lines_from(from);
        while lines.len() > 0 && lines[0].as_str().is_empty()
            invariant
                from_content(texts_view(lines@)) == from_content(text_from(self@, from as int)),
            decreases lines@.len(),
        {
            let ghost before = lines@;
            assert(texts_view(before)[0] == before[0]@);
            let _ = lines.remove(0);
            assert(texts_view(lines@) =~= texts_view(before).skip(1));
        }
        proof {
            if lines@.len() > 0 {
                assert(texts_view(lines@)[0] == lines@[0]@);
            }
        }
        lines
    }

    /// Offsets (lines above the bottom of the screen) of the lines that hold `query`, ignoring
    /// case: nearest to the bottom first, 500 at most. An empty query matches nothing.
    pub fn search(&self, query: &str) -> (offsets: Vec<u32>)
        requires
            self@.wf(),
        ensures
            offsets@ == found_lines(self@, query@),
    {
        let mut offsets: Vec<u32> = Vec::new();
        if query.is_empty() {
            return offsets;
        }
        let needle_text = to_lowercase(query);
        let needle = chars_of(needle_text.as_str());
        let total: usize = self.emulator.history() + self.rows as usize;
        let mut k: usize = 0;
        let ghost whole = matches_from(self@, needle@, 0, MAX_MATCHES as nat);
        assert(offsets@ + whole =~= whole);
        while k < total && offsets.len() < MAX_MATCHES
            invariant
                k <= total,
                total == self@.history() + self@.rows,
                total <= SCROLLBACK + u16::MAX,
                self@.wf(),
                offsets@.len() <= MAX_MATCHES,
                whole == offsets@ + matches_from(
                    self@,
                    needle@,
                    k as int,
                    (MAX_MATCHES - offsets@.len()) as nat,
                ),
            decreases total - k,
        {
            let ghost before = offsets@;
            let line: i32 = self.rows as i32 - 1 - k as i32;
            let text = to_lowercase(self.text_of_line(line).as_str());
            if contains_text(chars_of(text.as_str()).as_slice(), needle.as_slice()) {
                offsets.push(k as u32);
                proof {
                    let tail = matches_from(
                        self@,
                        needle@,
                        k + 1,
                        (MAX_MATCHES - offsets@.len()) as nat,
                    );
                    assert(before + (seq![k as u32] + tail) =~= offsets@ + tail);
                }
            }
            k = k + 1;
        }
        assert(offsets@ + Seq::<u32>::empty() =~= offsets@);
        offsets
    }

    /// Offsets of the recorded prompt starts, nearest to the bottom first.
    pub fn prompt_offsets(&self) -> (offsets: Vec<u32>)
        requires
            self@.wf(),
        ensures
            offsets@ == prompt_offsets_of(self@),
    {
        let mut offsets: Vec<u32> = Vec::new();
        let history: usize = self.emulator.history();
        if history >= SCROLLBACK {
            return offsets;
        }
        let bottom: u64 = history as u64 + self.rows as u64 - 1;
        let mut n: usize = self.prompts.len();
        let ghost whole = offsets_of(self@, n as int);
        assert(offsets@ + whole =~= whole);
        while n > 0
            invariant
                n <= self.prompts@.len(),
                self@.wf(),
                bottom == self@.history() + self@.rows - 1,
                bottom <= SCROLLBACK + u16::MAX,
                whole == offsets@ + offsets_of(self@, n as int),
            decreases n,
        {
            let ghost before = offsets@;
            let line: u64 = self.prompts[n - 1];
            if line <= bottom {
                offsets.push((bottom - line) as u32);
                assert(before + (seq![(bottom - line) as u32] + offsets_of(self@, n - 1))
                    =~= offsets@ + offsets_of(self@, n - 1));
            }
            n = n - 1;
        }
        assert(offsets@ + Seq::<u32>::empty() =~= offsets@);
        offsets
    }

    /// Last column of the run of cells from `col` on that link to `uri`.
    fn link_run(&self, line: i32, uri: &str, col: usize) -> (end: usize)
        requires
            self@.wf(),
            -self@.history() <= line < self@.rows,
            col < self@.cols,
        ensures
            end == link_end(self@, line as int, uri@, col as int),
            col <= end < self@.cols,
    {
        let cols: usize = self.cols as usize;
        let mut end: usize = col;
        loop
            invariant
                col <= end < cols,
                cols == self@.cols,
                self@.wf(),
                -self@.history() <= line < self@.rows,
                link_end(self@, line as int, uri@, col as int) == link_end(
                    self@,
                    line as int,
                    uri@,
                    end as int,
                ),
            decreases cols - end,
        {
            if end + 1 >= cols {
                return end;
            }
            match self.emulator.link(line, end + 1) {
                Some(next) => {
                    if !str_eq(next.as_str(), uri) {
                        return end;
                    }
                },
                None => return end,
            }
            end = end + 1;
        }
    }

    /// Appends the hyperlink spans of one viewport row.
    fn push_row_links(&self, line: i32, row: u16, out: &mut Vec<LinkSpan>)
        requires
            self@.wf(),
            -self@.history() <= line < self@.rows,
        ensures
            spans_view(final(out)@) == spans_view(old(out)@) + row_links(
                self@,
                line as int,
                row as int,
                0,
            ),
    {
        let cols: usize = self.cols as usize;
        let mut c: usize = 0;
        let ghost whole = spans_view(out@) + row_links(self@, line as int, row as int, 0);
        while c < cols
            invariant
                c <= cols,
                cols == self@.cols,
                self@.wf(),
                -self@.history() <= line < self@.rows,
                whole == spans_view(out@) + row_links(self@, line as int, row as int, c as int),
            decreases cols - c,
        {
            match self.emulator.link(line, c) {
                None => {
                    c = c + 1;
                },
                Some(uri) => {
                    let ghost before = out@;
                    let end: usize = self.link_run(line, uri.as_str(), c);
                    let span = LinkSpan { row, start: c as u16, end: end as u16, uri };
                    out.push(span);
                    proof {
                        let tail = row_links(self@, line as int, row as int, end + 1);
                        assert(spans_view(out@) =~= spans_view(before) + seq![span@]);
                        assert(spans_view(before) + (seq![span@] + tail) =~= spans_view(out@)
                            + tail);
                    }
                    c = end + 1;
                },
            }
        }
        assert(spans_view(out@) + Seq::empty() =~= spans_view(out@));
    }

    /// The hyperlink spans of the viewport scrolled `offset` lines up, top row first.
    pub fn links_at_offset(&self, offset: usize) -> (spans: Vec<LinkSpan>)
        requires
            self@.wf(),
        ensures
            spans_view(spans@) == links_from(self@, offset as nat, 0),
    {
        let history: usize = self.emulator.history();
        let clamp: usize = if offset < history {
            offset
        } else {
            history
        };
        let mut spans: Vec<LinkSpan> = Vec::new();
        let n: u16 = self.rows;
        let mut r: u16 = 0;
        let ghost whole = links_from(self@, offset as nat, 0);
        assert(spans_view(spans@) + whole =~= whole);
        while r < n
            invariant
                r <= n,
                n == self@.rows,
                self@.wf(),
                clamp == clamped(self@, offset as nat),
                clamp <= self@.history(),
                clamp <= SCROLLBACK,
                whole == spans_view(spans@) + links_from(self@, offset as nat, r as int),
            decreases n - r,
        {
            let ghost before = spans_view(spans@);
            self.push_row_links(r as i32 - clamp as i32, r, &mut spans);
            proof {
                let row = row_links(self@, r - clamp, r as int, 0);
                let tail = links_from(self@, offset as nat, r + 1);
                assert(before + (row + tail) =~= (before + row) + tail);
            }
            r = r + 1;
        }
        assert(spans_view(spans@) + Seq::empty() =~= spans_view(spans@));
        spans
    }
}

// ---------------------------------------------------------------------------
// Laws.
// ---------------------------------------------------------------------------

/// Output never changes the size or the palette of a terminal.
pub proof fn lemma_advance_keeps_size(t: TerminalView, bytes: Seq<u8>)
    ensures
        advanced(t, bytes).0.cols == t.cols,
        advanced(t, bytes).0.rows == t.rows,
        advanced(t, bytes).0.palette == t.palette,
{
    lemma_consume_keeps_size(t, bytes);
}

proof fn lemma_consume_keeps_size(t: TerminalView, bytes: Seq<u8>)
    ensures
        consume(t, bytes).0.cols == t.cols,
        consume(t, bytes).0.rows == t.rows,
        consume(t, bytes).0.palette == t.palette,
    decreases bytes.len(),
{
    let (es, n) = side_run(t.chunks, bytes);
    if bytes.len() > 0 && 0 < n <= bytes.len() {
        let fed = TerminalView {
            ops: t.ops.push(Operation::Feed { bytes: bytes.take(n) }),
            chunks: t.chunks.push(bytes.take(n)),
            ..t
        };
        lemma_steps_keep_size(fed, es);
        lemma_consume_keeps_size(side_steps(fed, es).0, bytes.skip(n));
    }
}

proof fn lemma_still_recognized(text: Seq<u8>, a: Seq<TermEventView>, b: Seq<TermEventView>)
    requires
        recognized(text, a),
    ensures
        recognized(text, a + b),
{
    let partials = choose|partials: Seq<(Seq<char>, PartialView)>|
        stands_in((#[trigger] osc_step(partials, osc_params(text))).1, a);
    let part = osc_step(partials, osc_params(text)).1;
    let k = choose|k: int|
        0 <= k && k + part.len() <= a.len() && #[trigger] a.subrange(k, k + part.len()) == part;
    assert((a + b).subrange(k, k + part.len()) =~= a.subrange(k, k + part.len()));
}

proof fn lemma_last_step(t: TerminalView, es: Seq<SideEventView>)
    requires
        es.len() > 0,
    ensures
        ({
            let (most, front) = side_steps(t, es.drop_last());
            side_steps(t, es).1 == front + side_step(most, es.last()).1
        }),
    decreases es.len(),
{
    let (next, now) = side_step(t, es[0]);
    if es.len() == 1 {
        assert(side_steps(next, es.skip(1)).1 =~= Seq::empty());
        assert(side_steps(t, es.drop_last()) == (t, Seq::<TermEventView>::empty()));
        assert(now + Seq::empty() =~= Seq::empty() + now);
    } else {
        let rest = es.skip(1);
        assert(es.drop_last()[0] == es[0]);
        lemma_last_step(next, rest);
        assert(rest.drop_last() =~= es.drop_last().skip(1));
        let (most, front) = side_steps(next, rest.drop_last());
        let last = side_step(most, es.last()).1;
        assert(now + (front + last) =~= (now + front) + last);
    }
}

proof fn lemma_last_recognized(
    t: TerminalView,
    es: Seq<SideEventView>,
    text: Seq<u8>,
    seen: Seq<TermEventView>,
)
    requires
        es.len() > 0,
        es.last() == SideEventView::Osc(osc_params(text)),
    ensures
        recognized(text, seen + side_steps(t, es).1),
{
    lemma_last_step(t, es);
    reveal(side_step);
    let (most, front) = side_steps(t, es.drop_last());
    let part = osc_step(most.partials, osc_params(text)).1;
    let all = seen + side_steps(t, es).1;
    let k = all.len() - part.len();
    assert(all.subrange(k, k + part.len()) =~= part);
}

proof fn lemma_steps_keep_size(t: TerminalView, es: Seq<SideEventView>)
    ensures
        side_steps(t, es).0.chunks == t.chunks,
        side_steps(t, es).0.cols == t.cols,
        side_steps(t, es).0.rows == t.rows,
        side_steps(t, es).0.palette == t.palette,
    decreases es.len(),
{
    if es.len() > 0 {
        reveal(side_step);
        lemma_steps_keep_size(side_step(t, es[0]).0, es.skip(1));
    }
}

/// An empty chunk changes nothing and reports nothing; any other chunk ends with one `Damage`.
pub proof fn damage_marks_every_chunk(t: TerminalView, bytes: Seq<u8>)
    ensures
        bytes.len() == 0 ==> advanced(t, bytes) == (t, Seq::<TermEventView>::empty()),
        bytes.len() > 0 ==> advanced(t, bytes).1.last() == TermEventView::Damage,
{
}

/// The viewport always has the terminal's dimensions, however far it is scrolled.
pub proof fn viewport_has_terminal_size(t: TerminalView, offset: nat)
    ensures
        viewport(t, offset).len() == t.rows,
        forall|r: int| 0 <= r < t.rows ==> (#[trigger] viewport(t, offset)[r]).len() == t.cols,
{
}

/// Scrolling past the scrollback shows its top.
pub proof fn overscrolling_is_harmless(t: TerminalView, offset: nat)
    requires
        offset >= t.history(),
    ensures
        viewport(t, offset) == viewport(t, t.history()),
{
}

/// Re-theming changes colors only: characters and attributes of every cell stay.
pub proof fn retheming_keeps_text(t: TerminalView, palette: Palette, line: int, col: int)
    ensures
        ({
            let a = cell_at(t, line, col);
            let b = cell_at(TerminalView { palette, ..t }, line, col);
            b == Cell { fg: b.fg, bg: b.bg, ..a }
        }),
{
}

} // verus!
