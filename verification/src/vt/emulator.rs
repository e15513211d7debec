//! The terminal emulator and the side parser.
//!
//! Both are state machines of outside crates: `alacritty_terminal` keeps the grid, and `vte` finds
//! the escape sequences that the grid has no use for. What they compute takes pages to state, but
//! it depends on nothing except what they were told so far. So an emulator is modelled by the list
//! of operations that it went through ([`operations`]), a parser by the list of chunks that it was
//! handed ([`chunks`]), and what is read from them by names over those lists.
use alacritty_terminal::event::VoidListener;
use alacritty_terminal::grid::Dimensions;
use alacritty_terminal::index::{Column, Line};
use alacritty_terminal::term::cell::Flags;
use alacritty_terminal::term::{Config, Term, TermMode};
use alacritty_terminal::vte::ansi::{Color as AnsiColor, Processor};
use vstd::prelude::*;
use vte::Parser as VteParser;

#[allow(unused_imports)]
use crate::text::lines_view;
use crate::vt::color::Rgb;

verus! {

/// Most scrollback lines that the emulator retains.
pub const SCROLLBACK: usize = 10000;

/// What an emulator was told.
pub enum Operation {
    New { cols: nat, rows: nat },
    Feed { bytes: Seq<u8> },
    Resize { cols: nat, rows: nat },
}

/// Columns and rows after a list of operations.
pub open spec fn size_after(ops: Seq<Operation>) -> (nat, nat)
    decreases ops.len(),
{
    if ops.len() == 0 {
        (0, 0)
    } else {
        match ops.last() {
            Operation::New { cols, rows } => (cols, rows),
            Operation::Resize { cols, rows } => (cols, rows),
            Operation::Feed { bytes } => size_after(ops.drop_last()),
        }
    }
}

/// A cell's character and attributes.
#[derive(Debug, Clone, Copy, PartialEq, Eq, Structural)]
pub struct Glyph {
    pub ch: char,
    pub inverse: bool,
    pub bold: bool,
    pub italic: bool,
    pub underline: bool,
    pub wide: bool,
}

/// A cell's color as the emulator stores it; a named color is its code.
#[derive(Debug, Clone, Copy, PartialEq, Eq, Structural)]
pub enum RawColor {
    Named(u16),
    Spec(Rgb),
    Indexed(u8),
}

/// The terminal modes that a client has to know.
#[derive(Debug, Clone, Copy, PartialEq, Eq, Structural)]
pub struct Modes {
    pub bracketed_paste: bool,
    pub mouse_clicks: bool,
    pub mouse_drag: bool,
    pub mouse_motion: bool,
    pub mouse_sgr: bool,
}

/// The grid size that an emulator is made with.
pub struct GridSize {
    pub cols: usize,
    pub rows: usize,
}

impl Dimensions for GridSize {
    fn total_lines(&self) -> (n: usize)
        ensures
            n == self.rows,
    {
        self.rows
    }

    fn screen_lines(&self) -> (n: usize)
        ensures
            n == self.rows,
    {
        self.rows
    }

    fn columns(&self) -> (n: usize)
        ensures
            n == self.cols,
    {
        self.cols
    }
}

/// A grid of `alacritty_terminal` and the processor that drives it. Verus cannot declare the
/// processor's type (it is generic over an outside trait), so the pair stands in a struct that
/// Verus does not look into.
#[verifier::external_body]
pub struct Emulator {
    term: Term<VoidListener>,
    processor: Processor,
}

/// What an emulator was told since it was made.
pub uninterp spec fn operations(e: Emulator) -> Seq<Operation>;

/// Scrollback lines above the screen, after a list of operations.
pub uninterp spec fn history_after(ops: Seq<Operation>) -> nat;

/// Character and attributes of a cell, after a list of operations. Line 0 is the top of the
/// screen; scrollback lines are negative.
pub uninterp spec fn glyph_after(ops: Seq<Operation>, line: int, col: int) -> Glyph;

/// Foreground or background color of a cell, after a list of operations.
pub uninterp spec fn color_after(
    ops: Seq<Operation>,
    line: int,
    col: int,
    background: bool,
) -> RawColor;

/// Hyperlink target of a cell, after a list of operations.
pub uninterp spec fn link_after(ops: Seq<Operation>, line: int, col: int) -> Option<Seq<char>>;

/// Cursor line and column, after a list of operations.
pub uninterp spec fn cursor_after(ops: Seq<Operation>) -> (i32, usize);

/// Modes, after a list of operations.
pub uninterp spec fn modes_after(ops: Seq<Operation>) -> Modes;

impl Emulator {
    /// Makes an emulator: `Term::new` with the default configuration, and `Processor::new`.
    /// Trusted: it was told nothing but its size. The grid needs one row, and two columns
    /// (`MIN_COLUMNS` of the crate) to hold a wide character.
    #[verifier::external_body]
    pub(crate) fn new(cols: usize, rows: usize) -> (e: Emulator)
        requires
            2 <= cols <= u16::MAX,
            1 <= rows <= u16::MAX,
        ensures
            operations(e) == seq![Operation::New { cols: cols as nat, rows: rows as nat }],
    {
        let term = Term::new(Config::default(), &GridSize { cols, rows }, VoidListener);
        Emulator { term, processor: Processor::new() }
    }

    /// Feeds bytes: `Processor::advance`. Trusted: the emulator has then been told these bytes
    /// too. (The processor stores a deadline for synchronized updates, but never compares it with
    /// the time.)
    #[verifier::external_body]
    pub(crate) fn feed(&mut self, bytes: &[u8])
        ensures
            operations(*final(self)) == operations(*old(self)).push(
                Operation::Feed { bytes: bytes@ },
            ),
    {
        self.processor.advance(&mut self.term, bytes);
    }

    /// Resizes the grid: `Term::resize`. Trusted: the emulator has then been told the new size
    /// too.
    #[verifier::external_body]
    pub(crate) fn resize(&mut self, cols: usize, rows: usize)
        requires
            2 <= cols <= u16::MAX,
            1 <= rows <= u16::MAX,
        ensures
            operations(*final(self)) == operations(*old(self)).push(
                Operation::Resize { cols: cols as nat, rows: rows as nat },
            ),
    {
        self.term.resize(GridSize { cols, rows });
    }

    /// Scrollback lines above the screen: `Grid::history_size`. Trusted: a function of what the
    /// emulator was told, and never more than the configured limit.
    #[verifier::external_body]
    pub(crate) fn history(&self) -> (n: usize)
        ensures
            n == history_after(operations(*self)),
            n <= SCROLLBACK,
    {
        self.term.grid().history_size()
    }

    /// Character and attributes of a cell: indexing the `Grid`. Trusted: a function of what the
    /// emulator was told and of the position.
    #[verifier::external_body]
    pub(crate) fn glyph(&self, line: i32, col: usize) -> (g: Glyph)
        requires
            -history_after(operations(*self)) <= line < size_after(operations(*self)).1,
            col < size_after(operations(*self)).0,
        ensures
            g == glyph_after(operations(*self), line as int, col as int),
    {
        let cell = &self.term.grid()[Line(line)][Column(col)];
        Glyph {
            ch: cell.c,
            inverse: cell.flags.contains(Flags::INVERSE),
            bold: cell.flags.contains(Flags::BOLD),
            italic: cell.flags.contains(Flags::ITALIC),
            underline: cell.flags.intersects(Flags::ALL_UNDERLINES),
            wide: cell.flags.contains(Flags::WIDE_CHAR),
        }
    }

    /// Color of a cell: indexing the `Grid`. Trusted: a function of what the emulator was told, of
    /// the position, and of which of the two colors is asked for.
    #[verifier::external_body]
    pub(crate) fn color(&self, line: i32, col: usize, background: bool) -> (c: RawColor)
        requires
            -history_after(operations(*self)) <= line < size_after(operations(*self)).1,
            col < size_after(operations(*self)).0,
        ensures
            c == color_after(operations(*self), line as int, col as int, background),
    {
        let cell = &self.term.grid()[Line(line)][Column(col)];
        match if background { cell.bg } else { cell.fg } {
            AnsiColor::Named(n) => RawColor::Named(n as u16),
            AnsiColor::Spec(c) => RawColor::Spec(Rgb { r: c.r, g: c.g, b: c.b }),
            AnsiColor::Indexed(i) => RawColor::Indexed(i),
        }
    }

    /// Hyperlink target of a cell: `Cell::hyperlink` and `Hyperlink::uri`. Trusted: a function of
    /// what the emulator was told and of the position.
    #[verifier::external_body]
    pub(crate) fn link(&self, line: i32, col: usize) -> (r: Option<String>)
        requires
            -history_after(operations(*self)) <= line < size_after(operations(*self)).1,
            col < size_after(operations(*self)).0,
        ensures
            crate::text::opt_text(r) == link_after(operations(*self), line as int, col as int),
    {
        self.term.grid()[Line(line)][Column(col)].hyperlink().map(|h| h.uri().to_string())
    }

    /// Cursor line and column: `Grid::cursor`. Trusted: a function of what the emulator was told.
    #[verifier::external_body]
    pub(crate) fn cursor(&self) -> (r: (i32, usize))
        ensures
            r == cursor_after(operations(*self)),
    {
        let point = self.term.grid().cursor.point;
        (point.line.0, point.column.0)
    }

    /// Modes: `Term::mode`. Trusted: a function of what the emulator was told.
    #[verifier::external_body]
    pub(crate) fn modes(&self) -> (m: Modes)
        ensures
            m == modes_after(operations(*self)),
    {
        let mode = self.term.mode();
        Modes {
            bracketed_paste: mode.contains(TermMode::BRACKETED_PASTE),
            mouse_clicks: mode.contains(TermMode::MOUSE_REPORT_CLICK),
            mouse_drag: mode.contains(TermMode::MOUSE_DRAG),
            mouse_motion: mode.contains(TermMode::MOUSE_MOTION),
            mouse_sgr: mode.contains(TermMode::SGR_MOUSE),
        }
    }
}

// ---------------------------------------------------------------------------
// The side parser.
// ---------------------------------------------------------------------------

/// The parser of escape sequences.
#[verifier::external_type_specification]
#[verifier::external_body]
pub struct ExParser<const N: usize>(VteParser<N>);

/// The parameters of a control sequence.
#[verifier::external_type_specification]
#[verifier::external_body]
pub struct ExParams(vte::Params);

/// What the side parser finds in a byte stream.
pub enum SideEvent {
    /// A bell that does not end a sequence.
    Bell,
    /// An OSC sequence, by its parameters.
    Osc(Vec<Vec<u8>>),
    /// A request for a cursor shape (DECSCUSR), by its parameter.
    CursorStyle(u16),
}

/// The mathematical value of a [`SideEvent`].
pub enum SideEventView {
    Bell,
    Osc(Seq<Seq<u8>>),
    CursorStyle(u16),
}

impl SideEvent {
    pub open spec fn view(&self) -> SideEventView {
        match *self {
            SideEvent::Bell => SideEventView::Bell,
            SideEvent::Osc(params) => SideEventView::Osc(lines_view(params@)),
            SideEvent::CursorStyle(p) => SideEventView::CursorStyle(p),
        }
    }
}

/// The mathematical values of a list of side events.
pub open spec fn side_events_view(events: Seq<SideEvent>) -> Seq<SideEventView> {
    Seq::new(events.len(), |i: int| events[i]@)
}

/// What the parameters of a control sequence are: for each parameter, its subparameters.
pub uninterp spec fn parameters(p: vte::Params) -> Seq<Seq<u16>>;

/// The first parameter of a control sequence, or 0: `Params::iter`. Trusted: it is the first
/// subparameter of the first parameter.
#[verifier::external_body]
fn first_parameter(p: &vte::Params) -> (r: u16)
    ensures
        r == (if parameters(*p).len() > 0 && parameters(*p)[0].len() > 0 {
            parameters(*p)[0][0]
        } else {
            0
        }),
{
    p.iter().next().and_then(|s| s.first().copied()).unwrap_or(0)
}

/// Collects what the side parser finds, and stops it behind each OSC sequence.
pub struct Recorder {
    pub events: Vec<SideEvent>,
    pub stop: bool,
}

impl vte::Perform for Recorder {
    /// A control byte outside any sequence. Only the bell matters; a bell that ends an OSC
    /// sequence does not come here.
    fn execute(&mut self, byte: u8)
        ensures
            final(self).events@ == (if byte == 7 {
                old(self).events@.push(SideEvent::Bell)
            } else {
                old(self).events@
            }),
            final(self).stop == old(self).stop,
    {
        if byte == 7 {
            self.events.push(SideEvent::Bell);
        }
    }

    /// A complete OSC sequence. Both terminators count the same.
    fn osc_dispatch(&mut self, params: &[&[u8]], _bell_terminated: bool)
        ensures
            final(self).stop,
            final(self).events@.len() == old(self).events@.len() + 1,
            final(self).events@.drop_last() == old(self).events@,
            final(self).events@.last()@ == SideEventView::Osc(
                Seq::new(params@.len(), |i: int| params@[i]@),
            ),
    {
        let mut copy: Vec<Vec<u8>> = Vec::new();
        let mut i: usize = 0;
        while i < params.len()
            invariant
                i <= params@.len(),
                lines_view(copy@) =~= Seq::new(i as nat, |j: int| params@[j]@),
            decreases params@.len() - i,
        {
            let p: &[u8] = params[i];
            let ghost prev = copy@;
            copy.push(vstd::slice::slice_to_vec(p));
            assert(lines_view(copy@) =~= lines_view(prev).push(p@));
            i = i + 1;
        }
        self.events.push(SideEvent::Osc(copy));
        self.stop = true;
        assert(self.events@.drop_last() =~= old(self).events@);
    }

    /// A complete control sequence. Only `CSI Ps SP q` (DECSCUSR) matters.
    fn csi_dispatch(&mut self, params: &vte::Params, intermediates: &[u8], ignore: bool, action: char)
        ensures
            final(self).stop == old(self).stop,
            final(self).events@ == (if !ignore && action == 'q' && intermediates@ == seq![32u8] {
                old(self).events@.push(
                    SideEvent::CursorStyle(
                        if parameters(*params).len() > 0 && parameters(*params)[0].len() > 0 {
                            parameters(*params)[0][0]
                        } else {
                            0
                        },
                    ),
                )
            } else {
                old(self).events@
            }),
    {
        if !ignore && action == 'q' && intermediates.len() == 1 && intermediates[0] == 32 {
            assert(intermediates@ =~= seq![32u8]);
            self.events.push(SideEvent::CursorStyle(first_parameter(params)));
        }
    }

    /// Whether the parser should stop reading.
    fn terminated(&self) -> (r: bool)
        ensures
            r == self.stop,
    {
        self.stop
    }
}

/// The bytes of a list of chunks, in order.
pub open spec fn flat(chunks: Seq<Seq<u8>>) -> Seq<u8>
    decreases chunks.len(),
{
    if chunks.len() == 0 {
        Seq::empty()
    } else {
        flat(chunks.drop_last()) + chunks.last()
    }
}

/// The parts between the semicolons of an OSC sequence's text.
pub open spec fn osc_parts(text: Seq<u8>) -> Seq<Seq<u8>>
    decreases text.len(),
{
    if text.len() == 0 {
        seq![Seq::empty()]
    } else {
        let front = osc_parts(text.drop_last());
        if text.last() == 0x3b {
            front.push(Seq::empty())
        } else {
            front.drop_last().push(front.last().push(text.last()))
        }
    }
}

/// The parameters of an OSC sequence: the parts of its text, of which the first 16 count.
pub open spec fn osc_params(text: Seq<u8>) -> Seq<Seq<u8>> {
    let parts = osc_parts(text);
    if parts.len() <= 16 {
        parts
    } else {
        parts.take(16)
    }
}

/// Whether a byte ends an OSC sequence: BEL, CAN, SUB, or the ESC that starts a terminator.
pub open spec fn osc_end(b: u8) -> bool {
    b == 0x07 || b == 0x18 || b == 0x1a || b == 0x1b
}

/// Whether bytes end with a whole OSC sequence around a text without control bytes: `ESC ]`, the
/// text, and a byte that ends it.
pub open spec fn closes_osc(bytes: Seq<u8>, text: Seq<u8>) -> bool {
    let at = bytes.len() - text.len() - 3;
    &&& at >= 0
    &&& bytes[at] == 0x1b
    &&& bytes[at + 1] == 0x5d
    &&& bytes.subrange(at + 2, bytes.len() - 1) == text
    &&& osc_end(bytes.last())
    &&& forall|i: int| 0 <= i < text.len() ==> 0x20 <= #[trigger] text[i]
}

/// The pieces that a side parser read since it was made.
pub uninterp spec fn chunks(p: VteParser<1024>) -> Seq<Seq<u8>>;

/// What a side parser that read the pieces `before` does with a chunk: what it finds, and how many
/// bytes it reads before it stops.
pub uninterp spec fn side_run(before: Seq<Seq<u8>>, chunk: Seq<u8>) -> (Seq<SideEventView>, int);

/// Makes a side parser: `vte::Parser::new`. Trusted: it was handed nothing.
#[verifier::external_body]
pub(crate) fn side_parser() -> (p: VteParser<1024>)
    ensures
        chunks(p) == Seq::<Seq<u8>>::empty(),
{
    VteParser::new()
}

/// Hands a chunk to a side parser: `vte::Parser::advance_until_terminated` with a [`Recorder`].
/// Trusted: what is recorded and how far the parser reads depend on nothing but the pieces that it
/// read before and the chunk; it reads at least one byte where there is one, and never past the
/// end. In whatever state it is, an escape character and a bracket open an OSC sequence: where the
/// bytes read so far end with a whole one, that sequence is the last thing found, and the parser
/// never reads on behind its end. Of a sequence with control bytes in its text nothing is said.
#[verifier::external_body]
pub(crate) fn side_advance(parser: &mut VteParser<1024>, bytes: &[u8]) -> (r: (
    Vec<SideEvent>,
    usize,
))
    ensures
        chunks(*final(parser)) == chunks(*old(parser)).push(bytes@.take(r.1 as int)),
        (side_events_view(r.0@), r.1 as int) == side_run(chunks(*old(parser)), bytes@),
        r.1 <= bytes@.len(),
        bytes@.len() > 0 ==> r.1 > 0,
        forall|text: Seq<u8>|
            r.1 > 0 && #[trigger] closes_osc(
                flat(chunks(*old(parser))) + bytes@.take(r.1 as int),
                text,
            ) ==> r.0@.len() > 0 && r.0@.last()@ == SideEventView::Osc(osc_params(text)),
        forall|j: int, text: Seq<u8>|
            0 < j < r.1 ==> !#[trigger] closes_osc(
                flat(chunks(*old(parser))) + bytes@.take(j),
                text,
            ),
{
    let mut recorder = Recorder { events: Vec::new(), stop: false };
    let read = parser.advance_until_terminated(&mut recorder, bytes);
    (recorder.events, read)
}

} // verus!
