//! tmux layout strings (the `#{window_layout}` format, also carried by `%layout-change`).
//!
//! ```text
//! layout := checksum ',' cell
//! cell   := WxH ',' X ',' Y ( ',' pane-id
//!                           | '{' cell (',' cell)* '}'    horizontal split (side by side)
//!                           | '[' cell (',' cell)* ']' )  vertical split (stacked)
//! ```
//!
//! The checksum is a 16-bit number in hex; it is read but not verified. Pane ids carry no sigil.
use vstd::prelude::*;
use vstd::string::*;
use vstd::utf8::*;

use crate::text::{chars_of, debug_str, find_char, parse_number, push_char, push_decimal, string_of};
#[allow(unused_imports)]
use crate::text::{
    all_digits, debug_text, dec, digit_of, digits_value, find, lemma_find, parse_uint,
};

verus! {

/// A parsed window layout: checksum and the root cell of the split tree.
#[derive(Debug, PartialEq, Eq)]
pub struct Layout {
    pub checksum: u16,
    pub root: Cell,
}

/// One node of the layout tree: a pane, or a horizontal or vertical split of child cells.
#[derive(Debug, PartialEq, Eq)]
pub enum Cell {
    Leaf { w: u32, h: u32, x: u32, y: u32, pane: u64 },
    Split { w: u32, h: u32, x: u32, y: u32, horizontal: bool, children: Vec<Cell> },
}

/// The mathematical value of a [`Cell`].
pub enum CellView {
    Leaf { w: u32, h: u32, x: u32, y: u32, pane: u64 },
    Split { w: u32, h: u32, x: u32, y: u32, horizontal: bool, children: Seq<CellView> },
}

/// The mathematical value of a [`Layout`].
pub struct LayoutView {
    pub checksum: u16,
    pub root: CellView,
}

impl Cell {
    pub open spec fn view(&self) -> CellView
        decreases self,
    {
        match *self {
            Cell::Leaf { w, h, x, y, pane } => CellView::Leaf { w, h, x, y, pane },
            Cell::Split { w, h, x, y, horizontal, children } => CellView::Split {
                w,
                h,
                x,
                y,
                horizontal,
                children: Seq::new(
                    children@.len(),
                    |i: int|
                        if 0 <= i < children@.len() {
                            children@[i].view()
                        } else {
                            arbitrary()
                        },
                ),
            },
        }
    }
}

/// The mathematical values of a sequence of cells.
pub open spec fn cell_views(cells: Seq<Cell>) -> Seq<CellView> {
    Seq::new(cells.len(), |i: int| cells[i]@)
}

impl Layout {
    pub open spec fn view(&self) -> LayoutView {
        LayoutView { checksum: self.checksum, root: self.root@ }
    }
}

/// Deepest split nesting accepted. Layout strings arrive from the remote peer and the parser
/// recurses per level, so nesting has to be bounded.
pub const MAX_DEPTH: usize = 64;

// ---------------------------------------------------------------------------
// Grammar.
// ---------------------------------------------------------------------------

/// Bytes read one for one as characters.
pub open spec fn latin(b: Seq<u8>) -> Seq<char> {
    Seq::new(b.len(), |i: int| b[i] as char)
}

/// End of the run of ASCII digits that starts at `pos`.
pub open spec fn digits_end(b: Seq<u8>, pos: int) -> int
    decreases b.len() - pos,
{
    if 0 <= pos < b.len() && 48 <= b[pos] <= 57 {
        digits_end(b, pos + 1)
    } else {
        pos
    }
}

pub open spec fn err_no_number(pos: int) -> Seq<char> {
    "expected a number at byte "@ + dec(pos as nat) + " of layout"@
}

pub open spec fn err_range(pos: int) -> Seq<char> {
    "number out of range at byte "@ + dec(pos as nat) + " of layout"@
}

pub open spec fn err_expected(c: u8, pos: int) -> Seq<char> {
    "expected '"@ + seq![c as char] + "' at byte "@ + dec(pos as nat) + " of layout"@
}

pub open spec fn err_cell_tail(pos: int) -> Seq<char> {
    "expected ',', '{' or '[' at byte "@ + dec(pos as nat) + " of layout"@
}

pub open spec fn err_list(close: u8, pos: int) -> Seq<char> {
    "expected ',' or '"@ + seq![close as char] + "' at byte "@ + dec(pos as nat) + " of layout"@
}

pub open spec fn err_depth(pos: int) -> Seq<char> {
    "layout nesting deeper than "@ + dec(MAX_DEPTH as nat) + " at byte "@ + dec(pos as nat)
}

/// Reads a number up to `max` at `pos`: the number and the position after it.
pub open spec fn number_at(b: Seq<u8>, pos: int, max: nat) -> Result<(nat, int), Seq<char>> {
    let end = digits_end(b, pos);
    if end == pos {
        Err(err_no_number(pos))
    } else {
        match parse_uint(latin(b.subrange(pos, end)), false, max) {
            Some(n) => Ok((n, end)),
            None => Err(err_range(pos)),
        }
    }
}

/// Reads the byte `c` at `pos`: the position after it.
pub open spec fn expect_at(b: Seq<u8>, pos: int, c: u8) -> Result<int, Seq<char>> {
    if 0 <= pos < b.len() && b[pos] == c {
        Ok(pos + 1)
    } else {
        Err(err_expected(c, pos))
    }
}

/// Reads `WxH,X,Y` at `pos`: the four numbers and the position after them.
pub open spec fn geometry_at(b: Seq<u8>, pos: int) -> Result<(u32, u32, u32, u32, int), Seq<char>> {
    match number_at(b, pos, u32::MAX as nat) {
        Err(e) => Err(e),
        Ok((w, p1)) => match expect_at(b, p1, 120) {
            Err(e) => Err(e),
            Ok(p2) => match number_at(b, p2, u32::MAX as nat) {
                Err(e) => Err(e),
                Ok((h, p3)) => match expect_at(b, p3, 44) {
                    Err(e) => Err(e),
                    Ok(p4) => match number_at(b, p4, u32::MAX as nat) {
                        Err(e) => Err(e),
                        Ok((x, p5)) => match expect_at(b, p5, 44) {
                            Err(e) => Err(e),
                            Ok(p6) => match number_at(b, p6, u32::MAX as nat) {
                                Err(e) => Err(e),
                                Ok((y, p7)) => Ok((w as u32, h as u32, x as u32, y as u32, p7)),
                            },
                        },
                    },
                },
            },
        },
    }
}

/// Reads a cell that is `depth` levels below the root: the cell and the position after it.
pub open spec fn cell_at(b: Seq<u8>, pos: int, depth: nat) -> Result<(CellView, int), Seq<char>>
    decreases MAX_DEPTH + 1 - depth, b.len() - pos, 0nat,
{
    if depth > MAX_DEPTH {
        Err(err_depth(pos))
    } else {
        match geometry_at(b, pos) {
            Err(e) => Err(e),
            Ok((w, h, x, y, p)) => if 0 <= p < b.len() && b[p] == 44 {
                match number_at(b, p + 1, u64::MAX as nat) {
                    Err(e) => Err(e),
                    Ok((pane, q)) => Ok((CellView::Leaf { w, h, x, y, pane: pane as u64 }, q)),
                }
            } else if 0 <= p < b.len() && (b[p] == 123 || b[p] == 91) {
                let horizontal = b[p] == 123;
                let close: u8 = if horizontal {
                    125
                } else {
                    93
                };
                match cell_at(b, p + 1, depth + 1) {
                    Err(e) => Err(e),
                    Ok((first, q)) => match cells_at(b, q, depth + 1, close, seq![first]) {
                        Err(e) => Err(e),
                        Ok((children, r)) => Ok(
                            (CellView::Split { w, h, x, y, horizontal, children }, r),
                        ),
                    },
                }
            } else {
                Err(err_cell_tail(p))
            },
        }
    }
}

/// Reads the rest of a cell list, up to `close`, behind the cells that `seen` holds.
pub open spec fn cells_at(
    b: Seq<u8>,
    pos: int,
    depth: nat,
    close: u8,
    seen: Seq<CellView>,
) -> Result<(Seq<CellView>, int), Seq<char>>
    decreases MAX_DEPTH + 1 - depth, b.len() - pos, 1nat,
{
    if 0 <= pos < b.len() && b[pos] == 44 {
        match cell_at(b, pos + 1, depth) {
            Err(e) => Err(e),
            // A cell takes at least one byte, so this always holds.
            Ok((c, q)) => if pos < q <= b.len() {
                cells_at(b, q, depth, close, seen.push(c))
            } else {
                Err(err_list(close, pos))
            },
        }
    } else if 0 <= pos < b.len() && b[pos] == close {
        Ok((seen, pos + 1))
    } else {
        Err(err_list(close, pos))
    }
}

/// Reads a whole layout string.
pub open spec fn layout_of(s: Seq<char>) -> Result<LayoutView, Seq<char>> {
    match find(s, ',', 0) {
        None => Err("layout "@ + debug_text(s) + " has no ',' after checksum"@),
        Some(i) => {
            let cksum = s.take(i);
            match parse_uint(cksum, true, u16::MAX as nat) {
                None => Err(
                    "bad layout checksum "@ + debug_text(cksum) + " (want 16-bit hex)"@,
                ),
                Some(checksum) => {
                    let b = encode_utf8(s);
                    match cell_at(b, encode_utf8(cksum).len() as int + 1, 0) {
                        Err(e) => Err(e),
                        Ok((root, p)) => if p != b.len() {
                            Err(
                                "trailing garbage at byte "@ + dec(p as nat) + " of layout "@
                                    + debug_text(s),
                            )
                        } else {
                            Ok(LayoutView { checksum: checksum as u16, root })
                        },
                    }
                },
            }
        },
    }
}

// ---------------------------------------------------------------------------
// Facts about the grammar.
// ---------------------------------------------------------------------------

proof fn lemma_digits_end(b: Seq<u8>, pos: int)
    requires
        0 <= pos <= b.len(),
    ensures
        pos <= digits_end(b, pos) <= b.len(),
        forall|i: int| pos <= i < digits_end(b, pos) ==> 48 <= #[trigger] b[i] <= 57,
    decreases b.len() - pos,
{
    if pos < b.len() && 48 <= b[pos] <= 57 {
        lemma_digits_end(b, pos + 1);
    }
}

proof fn lemma_geometry_progress(b: Seq<u8>, pos: int)
    requires
        0 <= pos <= b.len(),
    ensures
        geometry_at(b, pos) matches Ok((w, h, x, y, p)) ==> pos < p <= b.len(),
{
    lemma_digits_end(b, pos);
    if let Ok((w, p1)) = number_at(b, pos, u32::MAX as nat) {
        if let Ok(p2) = expect_at(b, p1, 120) {
            lemma_digits_end(b, p2);
            if let Ok((h, p3)) = number_at(b, p2, u32::MAX as nat) {
                if let Ok(p4) = expect_at(b, p3, 44) {
                    lemma_digits_end(b, p4);
                    if let Ok((x, p5)) = number_at(b, p4, u32::MAX as nat) {
                        if let Ok(p6) = expect_at(b, p5, 44) {
                            lemma_digits_end(b, p6);
                        }
                    }
                }
            }
        }
    }
}

/// A cell takes at least one byte, and reading it stays inside the string.
pub proof fn lemma_cell_progress(b: Seq<u8>, pos: int, depth: nat)
    requires
        0 <= pos <= b.len(),
    ensures
        cell_at(b, pos, depth) matches Ok((c, q)) ==> pos < q <= b.len(),
    decreases MAX_DEPTH + 1 - depth, b.len() - pos, 0nat,
{
    if depth <= MAX_DEPTH {
        lemma_geometry_progress(b, pos);
        if let Ok((w, h, x, y, p)) = geometry_at(b, pos) {
            if p < b.len() && b[p] == 44 {
                lemma_digits_end(b, p + 1);
            } else if p < b.len() && (b[p] == 123 || b[p] == 91) {
                let close: u8 = if b[p] == 123 {
                    125
                } else {
                    93
                };
                lemma_cell_progress(b, p + 1, depth + 1);
                if let Ok((first, q)) = cell_at(b, p + 1, depth + 1) {
                    lemma_cells_progress(b, q, depth + 1, close, seq![first]);
                }
            }
        }
    }
}

proof fn lemma_cells_progress(b: Seq<u8>, pos: int, depth: nat, close: u8, seen: Seq<CellView>)
    requires
        0 <= pos <= b.len(),
    ensures
        cells_at(b, pos, depth, close, seen) matches Ok((cs, q)) ==> pos < q <= b.len(),
    decreases MAX_DEPTH + 1 - depth, b.len() - pos, 1nat,
{
    if pos < b.len() && b[pos] == 44 {
        lemma_cell_progress(b, pos + 1, depth);
        if let Ok((c, q)) = cell_at(b, pos + 1, depth) {
            lemma_cells_progress(b, q, depth, close, seen.push(c));
        }
    }
}

/// How many levels of splits a cell holds.
pub open spec fn nesting(c: CellView) -> nat
    decreases c,
{
    match c {
        CellView::Leaf { .. } => 0,
        CellView::Split { children, .. } => 1 + max_nesting(children, children.len() as int),
    }
}

/// The deepest nesting among the first `n` cells.
pub open spec fn max_nesting(cells: Seq<CellView>, n: int) -> nat
    decreases cells, n,
{
    if 0 < n <= cells.len() {
        let a = max_nesting(cells, n - 1);
        let b = nesting(cells[n - 1]);
        if a < b {
            b
        } else {
            a
        }
    } else {
        0
    }
}

proof fn lemma_max_nesting_push(cells: Seq<CellView>, c: CellView, n: int)
    requires
        0 <= n <= cells.len(),
    ensures
        max_nesting(cells.push(c), n) == max_nesting(cells, n),
    decreases n,
{
    if n > 0 {
        lemma_max_nesting_push(cells, c, n - 1);
    }
}

/// An accepted layout nests no deeper than the cap, however the input was made.
pub proof fn accepted_nesting_is_bounded(s: Seq<char>)
    ensures
        layout_of(s) matches Ok(l) ==> nesting(l.root) <= MAX_DEPTH,
{
    if let Some(i) = find(s, ',', 0) {
        lemma_cell_depth(encode_utf8(s), encode_utf8(s.take(i)).len() as int + 1, 0);
    }
}

proof fn lemma_cell_depth(b: Seq<u8>, pos: int, depth: nat)
    ensures
        cell_at(b, pos, depth) matches Ok((c, q)) ==> depth + nesting(c) <= MAX_DEPTH,
    decreases MAX_DEPTH + 1 - depth, b.len() - pos, 0nat,
{
    if depth <= MAX_DEPTH {
        if let Ok((w, h, x, y, p)) = geometry_at(b, pos) {
            if 0 <= p < b.len() && (b[p] == 123 || b[p] == 91) && b[p] != 44 {
                let close: u8 = if b[p] == 123 {
                    125
                } else {
                    93
                };
                lemma_cell_depth(b, p + 1, depth + 1);
                if let Ok((first, q)) = cell_at(b, p + 1, depth + 1) {
                    assert(max_nesting(seq![first], 0) == 0);
                    assert(max_nesting(seq![first], 1) == nesting(first));
                    lemma_cells_depth(b, q, depth + 1, close, seq![first]);
                }
            }
        }
    }
}

proof fn lemma_cells_depth(b: Seq<u8>, pos: int, depth: nat, close: u8, seen: Seq<CellView>)
    requires
        depth + max_nesting(seen, seen.len() as int) <= MAX_DEPTH,
    ensures
        cells_at(b, pos, depth, close, seen) matches Ok((cs, q)) ==> depth + max_nesting(
            cs,
            cs.len() as int,
        ) <= MAX_DEPTH,
    decreases MAX_DEPTH + 1 - depth, b.len() - pos, 1nat,
{
    if 0 <= pos < b.len() && b[pos] == 44 {
        lemma_cell_depth(b, pos + 1, depth);
        if let Ok((c, q)) = cell_at(b, pos + 1, depth) {
            if pos < q <= b.len() {
                lemma_max_nesting_push(seen, c, seen.len() as int);
                lemma_cells_depth(b, q, depth, close, seen.push(c));
            }
        }
    }
}

// ---------------------------------------------------------------------------
// The parser.
// ---------------------------------------------------------------------------

/// A reading position in the bytes of a layout string.
pub struct Cursor<'a> {
    pub bytes: &'a [u8],
    pub pos: usize,
}

/// `prefix`, a position, `suffix`.
fn message(prefix: &str, pos: usize, suffix: &str) -> (s: String)
    ensures
        s@ == prefix@ + dec(pos as nat) + suffix@,
{
    let mut s = String::from_str(prefix);
    push_decimal(&mut s, pos as u64);
    s.append(suffix);
    s
}

/// `prefix`, a byte as a character, `middle`, a position, `suffix`.
fn message_with(prefix: &str, c: u8, middle: &str, pos: usize, suffix: &str) -> (s: String)
    ensures
        s@ == prefix@ + seq![c as char] + middle@ + dec(pos as nat) + suffix@,
{
    let mut s = String::from_str(prefix);
    push_char(&mut s, c as char);
    s.append(middle);
    push_decimal(&mut s, pos as u64);
    s.append(suffix);
    assert(s@ =~= prefix@ + seq![c as char] + middle@ + dec(pos as nat) + suffix@);
    s
}

impl<'a> Cursor<'a> {
    /// The position lies inside the bytes, or right behind them.
    pub open spec fn wf(&self) -> bool {
        self.pos <= self.bytes@.len()
    }

    /// The byte at the position.
    pub fn peek(&self) -> (r: Option<u8>)
        ensures
            r == (if self.pos < self.bytes@.len() {
                Some(self.bytes@[self.pos as int])
            } else {
                None
            }),
            r is Some ==> self.pos < usize::MAX,
    {
        if self.pos < self.bytes.len() {
            Some(self.bytes[self.pos])
        } else {
            None
        }
    }

    /// Reads the byte `b`.
    pub fn expect(&mut self, b: u8) -> (r: Result<(), String>)
        requires
            old(self).wf(),
        ensures
            final(self).wf(),
            final(self).bytes == old(self).bytes,
            match r {
                Ok(_) => expect_at(old(self).bytes@, old(self).pos as int, b) == Ok::<
                    int,
                    Seq<char>,
                >(final(self).pos as int),
                Err(e) => expect_at(old(self).bytes@, old(self).pos as int, b) == Err::<
                    int,
                    Seq<char>,
                >(e@),
            },
    {
        if self.peek() == Some(b) {
            self.pos = self.pos + 1;
            Ok(())
        } else {
            Err(message_with("expected '", b, "' at byte ", self.pos, " of layout"))
        }
    }

    /// Reads a number no larger than `max`.
    pub fn number(&mut self, max: u64) -> (r: Result<u64, String>)
        requires
            old(self).wf(),
        ensures
            final(self).wf(),
            final(self).bytes == old(self).bytes,
            match r {
                Ok(n) => number_at(old(self).bytes@, old(self).pos as int, max as nat) == Ok::<
                    (nat, int),
                    Seq<char>,
                >((n as nat, final(self).pos as int)) && n <= max,
                Err(e) => number_at(old(self).bytes@, old(self).pos as int, max as nat) == Err::<
                    (nat, int),
                    Seq<char>,
                >(e@),
            },
    {
        let start: usize = self.pos;
        let mut digits: Vec<char> = Vec::new();
        while self.pos < self.bytes.len() && 48 <= self.bytes[self.pos] && self.bytes[self.pos]
            <= 57
            invariant
                start <= self.pos <= self.bytes@.len(),
                self.bytes == old(self).bytes,
                digits@ =~= latin(self.bytes@.subrange(start as int, self.pos as int)),
                digits_end(self.bytes@, start as int) == digits_end(self.bytes@, self.pos as int),
            decreases self.bytes@.len() - self.pos,
        {
            digits.push(self.bytes[self.pos] as char);
            self.pos = self.pos + 1;
        }
        if self.pos == start {
            return Err(message("expected a number at byte ", start, " of layout"));
        }
        match parse_number(digits.as_slice(), false, max) {
            Some(n) => Ok(n),
            None => Err(message("number out of range at byte ", start, " of layout")),
        }
    }

    /// Reads `WxH,X,Y`.
    fn geometry(&mut self) -> (r: Result<(u32, u32, u32, u32), String>)
        requires
            old(self).wf(),
        ensures
            final(self).wf(),
            final(self).bytes == old(self).bytes,
            match r {
                Ok((w, h, x, y)) => geometry_at(old(self).bytes@, old(self).pos as int) == Ok::<
                    (u32, u32, u32, u32, int),
                    Seq<char>,
                >((w, h, x, y, final(self).pos as int)),
                Err(e) => geometry_at(old(self).bytes@, old(self).pos as int) == Err::<
                    (u32, u32, u32, u32, int),
                    Seq<char>,
                >(e@),
            },
    {
        let w: u64 = match self.number(u32::MAX as u64) {
            Ok(n) => n,
            Err(e) => return Err(e),
        };
        if let Err(e) = self.expect(120) {
            return Err(e);
        }
        let h: u64 = match self.number(u32::MAX as u64) {
            Ok(n) => n,
            Err(e) => return Err(e),
        };
        if let Err(e) = self.expect(44) {
            return Err(e);
        }
        let x: u64 = match self.number(u32::MAX as u64) {
            Ok(n) => n,
            Err(e) => return Err(e),
        };
        if let Err(e) = self.expect(44) {
            return Err(e);
        }
        let y: u64 = match self.number(u32::MAX as u64) {
            Ok(n) => n,
            Err(e) => return Err(e),
        };
        Ok((w as u32, h as u32, x as u32, y as u32))
    }

    /// Reads a cell that is `depth` levels below the root.
    pub fn cell(&mut self, depth: usize) -> (r: Result<Cell, String>)
        requires
            old(self).wf(),
            depth <= MAX_DEPTH + 1,
        ensures
            final(self).wf(),
            final(self).bytes == old(self).bytes,
            match r {
                Ok(c) => cell_at(old(self).bytes@, old(self).pos as int, depth as nat) == Ok::<
                    (CellView, int),
                    Seq<char>,
                >((c@, final(self).pos as int)),
                Err(e) => cell_at(old(self).bytes@, old(self).pos as int, depth as nat) == Err::<
                    (CellView, int),
                    Seq<char>,
                >(e@),
            },
        decreases MAX_DEPTH + 1 - depth,
    {
        let ghost b = self.bytes@;
        let ghost start = self.pos as int;
        if depth > MAX_DEPTH {
            let mut s = message("layout nesting deeper than ", MAX_DEPTH, " at byte ");
            push_decimal(&mut s, self.pos as u64);
            return Err(s);
        }
        let (w, h, x, y) = match self.geometry() {
            Ok(g) => g,
            Err(e) => return Err(e),
        };
        let ghost p = self.pos as int;
        match self.peek() {
            Some(44) => {
                self.pos = self.pos + 1;
                match self.number(u64::MAX) {
                    Ok(pane) => Ok(Cell::Leaf { w, h, x, y, pane }),
                    Err(e) => Err(e),
                }
            },
            Some(open) => {
                if open != 123 && open != 91 {
                    return Err(message("expected ',', '{' or '[' at byte ", self.pos, " of layout"));
                }
                let horizontal = open == 123;
                let close: u8 = if horizontal {
                    125
                } else {
                    93
                };
                self.pos = self.pos + 1;
                let first = match self.cell(depth + 1) {
                    Ok(c) => c,
                    Err(e) => return Err(e),
                };
                let ghost q = self.pos as int;
                let mut children: Vec<Cell> = Vec::new();
                children.push(first);
                assert(cell_views(children@) =~= seq![first@]);
                loop
                    invariant
                        depth <= MAX_DEPTH,
                        self.bytes@ == b,
                        self.bytes == old(self).bytes,
                        self.wf(),
                        b == old(self).bytes@,
                        start == old(self).pos,
                        geometry_at(b, start) == Ok::<(u32, u32, u32, u32, int), Seq<char>>(
                            (w, h, x, y, p),
                        ),
                        0 <= p < b.len(),
                        b[p] == open,
                        open == 123 || open == 91,
                        horizontal == (open == 123),
                        close == (if horizontal {
                            125u8
                        } else {
                            93u8
                        }),
                        cell_at(b, p + 1, (depth + 1) as nat) == Ok::<(CellView, int), Seq<char>>(
                            (first@, q),
                        ),
                        cells_at(b, q, (depth + 1) as nat, close, seq![first@]) == cells_at(
                            b,
                            self.pos as int,
                            (depth + 1) as nat,
                            close,
                            cell_views(children@),
                        ),
                    decreases b.len() - self.pos,
                {
                    let ghost here = self.pos as int;
                    let ghost seen = children@;
                    match self.peek() {
                        Some(44) => {
                            self.pos = self.pos + 1;
                            proof {
                                lemma_cell_progress(b, here + 1, (depth + 1) as nat);
                            }
                            match self.cell(depth + 1) {
                                Ok(c) => {
                                    children.push(c);
                                    assert(cell_views(children@) =~= cell_views(seen).push(c@));
                                },
                                Err(e) => return Err(e),
                            }
                        },
                        Some(c) => {
                            if c == close {
                                self.pos = self.pos + 1;
                                let out = Cell::Split { w, h, x, y, horizontal, children };
                                assert(out@->Split_children =~= cell_views(seen));
                                return Ok(out);
                            }
                            return Err(
                                message_with(
                                    "expected ',' or '",
                                    close,
                                    "' at byte ",
                                    self.pos,
                                    " of layout",
                                ),
                            );
                        },
                        None => {
                            return Err(
                                message_with(
                                    "expected ',' or '",
                                    close,
                                    "' at byte ",
                                    self.pos,
                                    " of layout",
                                ),
                            );
                        },
                    }
                }
            },
            None => Err(message("expected ',', '{' or '[' at byte ", self.pos, " of layout")),
        }
    }
}

/// UTF-8 encodes a concatenation piece by piece.
pub proof fn lemma_encode_concat(a: Seq<char>, b: Seq<char>)
    ensures
        encode_utf8(a + b) == encode_utf8(a) + encode_utf8(b),
    decreases a.len(),
{
    if a.len() == 0 {
        assert(a + b =~= b);
        assert(encode_utf8(a) + encode_utf8(b) =~= encode_utf8(b));
    } else {
        lemma_encode_concat(a.drop_first(), b);
        assert((a + b).drop_first() =~= a.drop_first() + b);
        assert(encode_utf8(a + b) =~= encode_utf8(a) + encode_utf8(b));
    }
}

/// Parses a full tmux layout string. Malformed input yields `Err` with a message that names the
/// byte offset; this never panics.
pub fn parse_layout(s: &str) -> (r: Result<Layout, String>)
    ensures
        match r {
            Ok(l) => layout_of(s@) == Ok::<LayoutView, Seq<char>>(l@),
            Err(e) => layout_of(s@) == Err::<LayoutView, Seq<char>>(e@),
        },
{
    let chars = chars_of(s);
    let i = match find_char(chars.as_slice(), ',', 0) {
        Some(i) => i,
        None => {
            let mut e = String::from_str("layout ");
            e.append(debug_str(s).as_str());
            e.append(" has no ',' after checksum");
            return Err(e);
        },
    };
    let cksum = vstd::slice::slice_subrange(chars.as_slice(), 0, i);
    assert(cksum@ =~= s@.take(i as int));
    let cksum_text = string_of(cksum);
    let checksum: u64 = match parse_number(cksum, true, u16::MAX as u64) {
        Some(n) => n,
        None => {
            let mut e = String::from_str("bad layout checksum ");
            e.append(debug_str(cksum_text.as_str()).as_str());
            e.append(" (want 16-bit hex)");
            return Err(e);
        },
    };
    proof {
        let head = s@.take(i as int);
        let tail = s@.skip(i as int);
        assert(head + tail =~= s@);
        lemma_find(s@, ',', 0);
        lemma_encode_concat(head, tail);
        assert(tail[0] == ',');
        assert(encode_utf8(tail).len() >= 1);
    }
    let bytes = s.as_bytes();
    let total: usize = bytes.len();
    let start: usize = cksum_text.as_str().len() + 1;
    let mut cursor = Cursor { bytes, pos: start };
    let root = match cursor.cell(0) {
        Ok(c) => c,
        Err(e) => return Err(e),
    };
    if cursor.pos != total {
        let mut e = message("trailing garbage at byte ", cursor.pos, " of layout ");
        e.append(debug_str(s).as_str());
        return Err(e);
    }
    Ok(Layout { checksum: checksum as u16, root })
}

impl std::str::FromStr for Layout {
    type Err = String;

    fn from_str(s: &str) -> Result<Self, String> {
        parse_layout(s)
    }
}

// ---------------------------------------------------------------------------
// Printing.
// ---------------------------------------------------------------------------

/// The decimal digits of a number, as bytes.
pub open spec fn number_bytes(n: nat) -> Seq<u8>
    decreases n,
{
    if n < 10 {
        seq![(48 + n) as u8]
    } else {
        number_bytes(n / 10).push((48 + n % 10) as u8)
    }
}

/// A hexadecimal digit.
pub open spec fn hex_byte(n: int) -> u8 {
    if n < 10 {
        (48 + n) as u8
    } else {
        (87 + n) as u8
    }
}

/// A checksum in four hexadecimal digits.
pub open spec fn checksum_bytes(n: u16) -> Seq<u8> {
    seq![
        hex_byte(n as int / 4096),
        hex_byte(n as int / 256 % 16),
        hex_byte(n as int / 16 % 16),
        hex_byte(n as int % 16),
    ]
}

/// `WxH,X,Y`.
pub open spec fn geometry_bytes(w: u32, h: u32, x: u32, y: u32) -> Seq<u8> {
    number_bytes(w as nat) + seq![120u8] + number_bytes(h as nat) + seq![44u8] + number_bytes(
        x as nat,
    ) + seq![44u8] + number_bytes(y as nat)
}

/// A cell, as the grammar writes it.
pub open spec fn cell_bytes(c: CellView) -> Seq<u8>
    decreases c,
{
    match c {
        CellView::Leaf { w, h, x, y, pane } => geometry_bytes(w, h, x, y) + seq![44u8]
            + number_bytes(pane as nat),
        CellView::Split { w, h, x, y, horizontal, children } => geometry_bytes(w, h, x, y) + (
        if horizontal {
            seq![123u8]
        } else {
            seq![91u8]
        }) + list_bytes(children, children.len() as int) + (if horizontal {
            seq![125u8]
        } else {
            seq![93u8]
        }),
    }
}

/// The first `n` cells of a list, with commas between them.
pub open spec fn list_bytes(cells: Seq<CellView>, n: int) -> Seq<u8>
    decreases cells, n,
{
    if 0 < n <= cells.len() {
        if n == 1 {
            cell_bytes(cells[0])
        } else {
            list_bytes(cells, n - 1) + seq![44u8] + cell_bytes(cells[n - 1])
        }
    } else {
        Seq::empty()
    }
}

/// A layout, as the grammar writes it.
pub open spec fn layout_bytes(l: LayoutView) -> Seq<u8> {
    checksum_bytes(l.checksum) + seq![44u8] + cell_bytes(l.root)
}

/// A layout, as the grammar writes it, as text.
pub open spec fn printed(l: LayoutView) -> Seq<char> {
    latin(layout_bytes(l))
}

/// Whether every split of a cell has a child.
pub open spec fn populated(c: CellView) -> bool
    decreases c,
{
    match c {
        CellView::Leaf { .. } => true,
        CellView::Split { children, .. } => children.len() > 0 && forall|i: int|
            0 <= i < children.len() ==> populated(#[trigger] children[i]),
    }
}

proof fn lemma_number_bytes(n: nat)
    ensures
        number_bytes(n).len() > 0,
        forall|i: int| 0 <= i < number_bytes(n).len() ==> 48 <= #[trigger] number_bytes(n)[i] <= 57,
        all_digits(latin(number_bytes(n)), false),
        digits_value(latin(number_bytes(n)), false) == n,
        latin(number_bytes(n))[0] != '+',
    decreases n,
{
    let b = number_bytes(n);
    let t = latin(b);
    if n >= 10 {
        let front = number_bytes(n / 10);
        lemma_number_bytes(n / 10);
        assert(t.drop_last() =~= latin(front));
        assert(t.last() == ((48 + n % 10) as u8) as char);
        assert(digit_of(t.last(), false) == Some(n % 10));
        assert forall|i: int| 0 <= i < t.len() implies digit_of(#[trigger] t[i], false) is Some by {
            if i < front.len() {
                assert(t[i] == latin(front)[i]);
            }
        }
        assert(b[0] == front[0]);
    } else {
        assert(t.drop_last() =~= Seq::empty());
        assert(digits_value(t.drop_last(), false) == 0);
        assert(digit_of(t.last(), false) == Some(n));
    }
}

proof fn lemma_digits_run(b: Seq<u8>, pos: int, end: int)
    requires
        0 <= pos <= end <= b.len(),
        forall|i: int| pos <= i < end ==> 48 <= #[trigger] b[i] <= 57,
        end < b.len() ==> !(48 <= b[end] <= 57),
    ensures
        digits_end(b, pos) == end,
    decreases end - pos,
{
    if pos < end {
        lemma_digits_run(b, pos + 1, end);
    }
}

/// Whether bytes hold others at a position.
spec fn stands(b: Seq<u8>, pos: int, part: Seq<u8>) -> bool {
    0 <= pos && pos + part.len() <= b.len() && b.subrange(pos, pos + part.len()) == part
}

/// Whether no digit stands at a position.
spec fn no_digit(b: Seq<u8>, pos: int) -> bool {
    pos < b.len() ==> !(48 <= b[pos] <= 57)
}

proof fn lemma_stands_split(b: Seq<u8>, pos: int, x: Seq<u8>, y: Seq<u8>)
    requires
        stands(b, pos, x + y),
    ensures
        stands(b, pos, x),
        stands(b, pos + x.len(), y),
{
    let all = b.subrange(pos, pos + (x + y).len());
    assert(b.subrange(pos, pos + x.len()) =~= all.take(x.len() as int));
    assert((x + y).take(x.len() as int) =~= x);
    assert(b.subrange(pos + x.len(), pos + x.len() + y.len()) =~= all.skip(x.len() as int));
    assert((x + y).skip(x.len() as int) =~= y);
}

proof fn lemma_stands_one(b: Seq<u8>, pos: int, x: u8)
    requires
        stands(b, pos, seq![x]),
    ensures
        0 <= pos < b.len(),
        b[pos] == x,
{
    assert(b.subrange(pos, pos + 1)[0] == b[pos]);
}

proof fn lemma_number_read(b: Seq<u8>, pos: int, n: nat, max: nat)
    requires
        stands(b, pos, number_bytes(n)),
        no_digit(b, pos + number_bytes(n).len()),
        n <= max,
    ensures
        number_at(b, pos, max) == Ok::<(nat, int), Seq<char>>((n, pos + number_bytes(n).len())),
{
    let d = number_bytes(n);
    lemma_number_bytes(n);
    let end = pos + d.len();
    assert forall|i: int| pos <= i < end implies 48 <= #[trigger] b[i] <= 57 by {
        assert(b[i] == b.subrange(pos, end)[i - pos]);
    }
    lemma_digits_run(b, pos, end);
}

proof fn lemma_geometry_read(b: Seq<u8>, pos: int, w: u32, h: u32, x: u32, y: u32)
    requires
        stands(b, pos, geometry_bytes(w, h, x, y)),
        no_digit(b, pos + geometry_bytes(w, h, x, y).len()),
    ensures
        geometry_at(b, pos) == Ok::<(u32, u32, u32, u32, int), Seq<char>>(
            (w, h, x, y, pos + geometry_bytes(w, h, x, y).len()),
        ),
{
    let (bw, bh, bx, by) = (
        number_bytes(w as nat),
        number_bytes(h as nat),
        number_bytes(x as nat),
        number_bytes(y as nat),
    );
    let s1 = bw + seq![120u8];
    let s2 = s1 + bh;
    let s3 = s2 + seq![44u8];
    let s4 = s3 + bx;
    let s5 = s4 + seq![44u8];
    lemma_stands_split(b, pos, s5, by);
    lemma_stands_split(b, pos, s4, seq![44u8]);
    lemma_stands_split(b, pos, s3, bx);
    lemma_stands_split(b, pos, s2, seq![44u8]);
    lemma_stands_split(b, pos, s1, bh);
    lemma_stands_split(b, pos, bw, seq![120u8]);
    lemma_stands_one(b, pos + bw.len(), 120);
    lemma_stands_one(b, pos + s2.len(), 44);
    lemma_stands_one(b, pos + s4.len(), 44);
    lemma_number_read(b, pos, w as nat, u32::MAX as nat);
    lemma_number_read(b, pos + s1.len(), h as nat, u32::MAX as nat);
    lemma_number_read(b, pos + s3.len(), x as nat, u32::MAX as nat);
    lemma_number_read(b, pos + s5.len(), y as nat, u32::MAX as nat);
}

proof fn lemma_leaf_read(
    b: Seq<u8>,
    pos: int,
    w: u32,
    h: u32,
    x: u32,
    y: u32,
    pane: u64,
    depth: nat,
)
    requires
        stands(b, pos, geometry_bytes(w, h, x, y) + seq![44u8] + number_bytes(pane as nat)),
        no_digit(
            b,
            pos + (geometry_bytes(w, h, x, y) + seq![44u8] + number_bytes(pane as nat)).len(),
        ),
        depth <= MAX_DEPTH,
    ensures
        cell_at(b, pos, depth) == Ok::<(CellView, int), Seq<char>>(
            (
                CellView::Leaf { w, h, x, y, pane },
                pos + (geometry_bytes(w, h, x, y) + seq![44u8] + number_bytes(pane as nat)).len(),
            ),
        ),
{
    let g = geometry_bytes(w, h, x, y);
    let d = number_bytes(pane as nat);
    lemma_stands_split(b, pos, g + seq![44u8], d);
    lemma_stands_split(b, pos, g, seq![44u8]);
    lemma_stands_one(b, pos + g.len(), 44);
    lemma_geometry_read(b, pos, w, h, x, y);
    lemma_number_read(b, pos + g.len() + 1, pane as nat, u64::MAX as nat);
}

/// The parts of a split: its geometry, its opening bracket, its list and its closing bracket.
proof fn lemma_frame(b: Seq<u8>, pos: int, g: Seq<u8>, open: u8, l: Seq<u8>, close: u8)
    requires
        stands(b, pos, g + seq![open] + l + seq![close]),
    ensures
        stands(b, pos, g),
        0 <= pos + g.len() < b.len(),
        b[pos + g.len()] == open,
        stands(b, pos + g.len() + 1, l),
        pos + g.len() + 1 + l.len() < b.len(),
        b[pos + g.len() + 1 + l.len()] == close,
{
    lemma_stands_split(b, pos, g + seq![open] + l, seq![close]);
    lemma_stands_split(b, pos, g + seq![open], l);
    lemma_stands_split(b, pos, g, seq![open]);
    lemma_stands_one(b, pos + g.len(), open);
    lemma_stands_one(b, pos + g.len() + 1 + l.len(), close);
}

/// Reading a split, given how its geometry, its first child and the rest of its list read.
proof fn lemma_split_read(
    b: Seq<u8>,
    pos: int,
    c: CellView,
    depth: nat,
    p: int,
    first: CellView,
    q: int,
    r: int,
)
    requires
        depth <= MAX_DEPTH,
        c matches CellView::Split { w, h, x, y, horizontal, children } && geometry_at(b, pos) == Ok::<
            (u32, u32, u32, u32, int),
            Seq<char>,
        >((w, h, x, y, p)) && 0 <= p < b.len() && b[p] == (if horizontal {
            123u8
        } else {
            91u8
        }) && cell_at(b, p + 1, depth + 1) == Ok::<(CellView, int), Seq<char>>((first, q))
            && cells_at(
            b,
            q,
            depth + 1,
            if horizontal {
                125u8
            } else {
                93u8
            },
            seq![first],
        ) == Ok::<(Seq<CellView>, int), Seq<char>>((children, r)),
    ensures
        cell_at(b, pos, depth) == Ok::<(CellView, int), Seq<char>>((c, r)),
{
}

proof fn lemma_cell_read(b: Seq<u8>, pos: int, c: CellView, depth: nat)
    requires
        stands(b, pos, cell_bytes(c)),
        no_digit(b, pos + cell_bytes(c).len()),
        populated(c),
        depth + nesting(c) <= MAX_DEPTH,
    ensures
        cell_at(b, pos, depth) == Ok::<(CellView, int), Seq<char>>(
            (c, pos + cell_bytes(c).len()),
        ),
    decreases c, 1int, 0int,
{
    match c {
        CellView::Leaf { w, h, x, y, pane } => {
            lemma_leaf_read(b, pos, w, h, x, y, pane, depth);
        },
        CellView::Split { w, h, x, y, horizontal, children } => {
            let g = geometry_bytes(w, h, x, y);
            let (open, close): (u8, u8) = if horizontal {
                (123, 125)
            } else {
                (91, 93)
            };
            let n = children.len() as int;
            let l = list_bytes(children, n);
            assert(cell_bytes(c) == g + seq![open] + l + seq![close]);
            lemma_frame(b, pos, g, open, l, close);
            lemma_geometry_read(b, pos, w, h, x, y);
            let from = pos + g.len() + 1;
            lemma_child_nesting(children, n, 0);
            lemma_list_first(b, from, children, n);
            assert(populated(children[0]));
            lemma_cell_read(b, from, children[0], depth + 1);
            assert(seq![children[0]] =~= children.take(1));
            assert(list_bytes(children, 1) == cell_bytes(children[0]));
            lemma_list_read(b, from, c, children, close, depth + 1, 1);
            lemma_split_read(
                b,
                pos,
                c,
                depth,
                pos + g.len(),
                children[0],
                from + cell_bytes(children[0]).len(),
                from + l.len() + 1,
            );
        },
    }
}

/// Each child nests no deeper than the deepest.
proof fn lemma_child_nesting(cells: Seq<CellView>, n: int, i: int)
    requires
        0 <= i < n <= cells.len(),
    ensures
        nesting(cells[i]) <= max_nesting(cells, n),
    decreases n,
{
    if i < n - 1 {
        lemma_child_nesting(cells, n - 1, i);
    }
}

/// A list starts with its first cell, and what follows that is no digit.
proof fn lemma_list_first(b: Seq<u8>, from: int, cells: Seq<CellView>, n: int)
    requires
        0 < n <= cells.len(),
        stands(b, from, list_bytes(cells, n)),
        no_digit(b, from + list_bytes(cells, n).len()),
    ensures
        stands(b, from, cell_bytes(cells[0])),
        no_digit(b, from + cell_bytes(cells[0]).len()),
    decreases n,
{
    if n > 1 {
        let front = list_bytes(cells, n - 1);
        let last = cell_bytes(cells[n - 1]);
        lemma_stands_split(b, from, front + seq![44u8], last);
        lemma_stands_split(b, from, front, seq![44u8]);
        lemma_stands_one(b, from + front.len(), 44);
        lemma_list_first(b, from, cells, n - 1);
    }
}

/// Cell `k` of a list stands behind a comma, and what follows it is no digit.
proof fn lemma_list_item(b: Seq<u8>, from: int, cells: Seq<CellView>, n: int, k: int)
    requires
        0 < k < n <= cells.len(),
        stands(b, from, list_bytes(cells, n)),
        no_digit(b, from + list_bytes(cells, n).len()),
    ensures
        ({
            let at = from + list_bytes(cells, k).len();
            &&& 0 <= at < b.len()
            &&& b[at] == 44
            &&& stands(b, at + 1, cell_bytes(cells[k]))
            &&& no_digit(b, at + 1 + cell_bytes(cells[k]).len())
            &&& from + list_bytes(cells, k + 1).len() == at + 1 + cell_bytes(cells[k]).len()
        }),
    decreases n,
{
    let front = list_bytes(cells, n - 1);
    let last = cell_bytes(cells[n - 1]);
    assert(list_bytes(cells, n) == front + seq![44u8] + last);
    lemma_stands_split(b, from, front + seq![44u8], last);
    lemma_stands_split(b, from, front, seq![44u8]);
    lemma_stands_one(b, from + front.len(), 44);
    if k < n - 1 {
        lemma_list_item(b, from, cells, n - 1, k);
    }
}

proof fn lemma_list_read(
    b: Seq<u8>,
    from: int,
    c: CellView,
    cells: Seq<CellView>,
    close: u8,
    depth: nat,
    k: int,
)
    requires
        0 < k <= cells.len(),
        stands(b, from, list_bytes(cells, cells.len() as int)),
        close == 125 || close == 93,
        from + list_bytes(cells, cells.len() as int).len() < b.len(),
        b[from + list_bytes(cells, cells.len() as int).len()] == close,
        populated(c),
        c matches CellView::Split { children, .. } && children == cells,
        depth + max_nesting(cells, cells.len() as int) <= MAX_DEPTH,
    ensures
        cells_at(
            b,
            from + list_bytes(cells, k).len(),
            depth,
            close,
            cells.take(k),
        ) == Ok::<(Seq<CellView>, int), Seq<char>>(
            (cells, from + list_bytes(cells, cells.len() as int).len() + 1),
        ),
    decreases c, 0int, cells.len() - k,
{
    let n = cells.len() as int;
    let at = from + list_bytes(cells, k).len();
    if k == n {
        assert(cells.take(k) =~= cells);
    } else {
        lemma_list_item(b, from, cells, n, k);
        lemma_child_nesting(cells, n, k);
        assert(populated(cells[k]));
        lemma_cell_read(b, at + 1, cells[k], depth);
        assert(cells.take(k).push(cells[k]) =~= cells.take(k + 1));
        lemma_list_read(b, from, c, cells, close, depth, k + 1);
    }
}

/// Whether bytes are ASCII.
spec fn ascii(b: Seq<u8>) -> bool {
    forall|i: int| 0 <= i < b.len() ==> #[trigger] b[i] < 128
}

proof fn lemma_ascii_concat(a: Seq<u8>, b: Seq<u8>)
    requires
        ascii(a),
        ascii(b),
    ensures
        ascii(a + b),
{
    assert forall|i: int| 0 <= i < (a + b).len() implies #[trigger] (a + b)[i] < 128 by {
        if i < a.len() {
            assert((a + b)[i] == a[i]);
        } else {
            assert((a + b)[i] == b[i - a.len()]);
        }
    }
}

proof fn lemma_number_ascii(n: nat)
    ensures
        ascii(number_bytes(n)),
{
    lemma_number_bytes(n);
}

proof fn lemma_geometry_ascii(w: u32, h: u32, x: u32, y: u32)
    ensures
        ascii(geometry_bytes(w, h, x, y)),
{
    lemma_number_ascii(w as nat);
    lemma_number_ascii(h as nat);
    lemma_number_ascii(x as nat);
    lemma_number_ascii(y as nat);
    let (bw, bh, bx, by) = (
        number_bytes(w as nat),
        number_bytes(h as nat),
        number_bytes(x as nat),
        number_bytes(y as nat),
    );
    lemma_ascii_concat(bw, seq![120u8]);
    lemma_ascii_concat(bw + seq![120u8], bh);
    lemma_ascii_concat(bw + seq![120u8] + bh, seq![44u8]);
    lemma_ascii_concat(bw + seq![120u8] + bh + seq![44u8], bx);
    lemma_ascii_concat(bw + seq![120u8] + bh + seq![44u8] + bx, seq![44u8]);
    lemma_ascii_concat(bw + seq![120u8] + bh + seq![44u8] + bx + seq![44u8], by);
}

proof fn lemma_cell_ascii(c: CellView)
    ensures
        ascii(cell_bytes(c)),
    decreases c, 1int, 0int,
{
    match c {
        CellView::Leaf { w, h, x, y, pane } => {
            let g = geometry_bytes(w, h, x, y);
            lemma_geometry_ascii(w, h, x, y);
            lemma_number_ascii(pane as nat);
            lemma_ascii_concat(g, seq![44u8]);
            lemma_ascii_concat(g + seq![44u8], number_bytes(pane as nat));
        },
        CellView::Split { w, h, x, y, horizontal, children } => {
            let g = geometry_bytes(w, h, x, y);
            let (open, close) = if horizontal {
                (seq![123u8], seq![125u8])
            } else {
                (seq![91u8], seq![93u8])
            };
            let l = list_bytes(children, children.len() as int);
            lemma_geometry_ascii(w, h, x, y);
            lemma_list_ascii(c, children, children.len() as int);
            lemma_ascii_concat(g, open);
            lemma_ascii_concat(g + open, l);
            lemma_ascii_concat(g + open + l, close);
            assert(cell_bytes(c) == g + open + l + close);
        },
    }
}

proof fn lemma_list_ascii(c: CellView, cells: Seq<CellView>, n: int)
    requires
        c matches CellView::Split { children, .. } && children == cells,
        0 <= n <= cells.len(),
    ensures
        ascii(list_bytes(cells, n)),
    decreases c, 0int, n,
{
    if n == 1 {
        lemma_cell_ascii(cells[0]);
    } else if n > 1 {
        lemma_list_ascii(c, cells, n - 1);
        lemma_cell_ascii(cells[n - 1]);
        let front = list_bytes(cells, n - 1);
        lemma_ascii_concat(front, seq![44u8]);
        lemma_ascii_concat(front + seq![44u8], cell_bytes(cells[n - 1]));
    }
}

proof fn lemma_latin(b: Seq<u8>)
    requires
        ascii(b),
    ensures
        encode_utf8(latin(b)) == b,
{
    let t = latin(b);
    assert forall|i: int| 0 <= i < t.len() implies '\0' <= #[trigger] t[i] <= '\u{7f}' by {
        assert(b[i] < 128);
    }
    is_ascii_chars_encode_utf8(t);
    assert(encode_utf8(t) =~= b) by {
        assert forall|i: int| 0 <= i < b.len() implies encode_utf8(t)[i] == b[i] by {
            assert(t[i] as u8 == b[i]);
        }
    }
}

proof fn lemma_hex_digit(n: int)
    requires
        0 <= n < 16,
    ensures
        digit_of(hex_byte(n) as char, true) == Some(n as nat),
        hex_byte(n) < 128,
        hex_byte(n) as char != ',',
        hex_byte(n) as char != '+',
{
}

proof fn lemma_checksum_read(n: u16)
    ensures
        parse_uint(latin(checksum_bytes(n)), true, u16::MAX as nat) == Some(n as nat),
        ascii(checksum_bytes(n)),
        forall|i: int| 0 <= i < 4 ==> #[trigger] latin(checksum_bytes(n))[i] != ',',
{
    let (a, b, c, d) = (n as int / 4096, n as int / 256 % 16, n as int / 16 % 16, n as int % 16);
    lemma_hex_digit(a);
    lemma_hex_digit(b);
    lemma_hex_digit(c);
    lemma_hex_digit(d);
    let t = latin(checksum_bytes(n));
    let t3 = t.drop_last();
    let t2 = t3.drop_last();
    let t1 = t2.drop_last();
    assert(t1.drop_last() =~= Seq::empty());
    assert(digits_value(t1.drop_last(), true) == 0);
    assert(digits_value(t1, true) == a);
    assert(digits_value(t2, true) == 16 * a + b);
    assert(digits_value(t3, true) == 16 * (16 * a + b) + c);
    assert(digits_value(t, true) == 16 * (16 * (16 * a + b) + c) + d);
    assert(n as int == 16 * (16 * (16 * a + b) + c) + d);
}

proof fn lemma_layout_text(l: LayoutView, tail: Seq<char>)
    ensures
        ({
            let s = printed(l) + tail;
            let b = encode_utf8(s);
            &&& find(s, ',', 0) == Some(4int)
            &&& s.take(4) == latin(checksum_bytes(l.checksum))
            &&& encode_utf8(s.take(4)).len() == 4
            &&& b == layout_bytes(l) + encode_utf8(tail)
        }),
{
    let s = printed(l) + tail;
    let sum = checksum_bytes(l.checksum);
    let cell = cell_bytes(l.root);
    lemma_checksum_read(l.checksum);
    lemma_cell_ascii(l.root);
    lemma_ascii_concat(sum, seq![44u8]);
    lemma_ascii_concat(sum + seq![44u8], cell);
    lemma_latin(layout_bytes(l));
    lemma_latin(sum);
    lemma_encode_concat(printed(l), tail);
    assert(s.take(4) =~= latin(sum));
    assert(s[4] == ',');
    lemma_find(s, ',', 0);
    assert forall|i: int| 0 <= i < 4 implies #[trigger] s[i] != ',' by {
        assert(s[i] == latin(sum)[i]);
    }
}

proof fn lemma_layout_read(l: LayoutView, tail: Seq<char>)
    requires
        populated(l.root),
        nesting(l.root) <= MAX_DEPTH,
        tail.len() > 0 ==> !('0' <= tail[0] <= '9'),
    ensures
        cell_at(layout_bytes(l) + encode_utf8(tail), 5, 0) == Ok::<(CellView, int), Seq<char>>(
            (l.root, layout_bytes(l).len() as int),
        ),
{
    let all = layout_bytes(l);
    let cell = cell_bytes(l.root);
    let b = all + encode_utf8(tail);
    assert(checksum_bytes(l.checksum).len() == 4);
    assert(b.subrange(5, 5int + cell.len()) =~= cell);
    assert(stands(b, 5, cell));
    if tail.len() > 0 {
        lemma_first_byte(tail);
        assert(b[all.len() as int] == encode_utf8(tail)[0]);
    } else {
        assert(encode_utf8(tail).len() == 0);
    }
    assert(no_digit(b, 5int + cell.len()));
    lemma_cell_read(b, 5, l.root, 0);
}

proof fn lemma_first_byte(s: Seq<char>)
    requires
        s.len() > 0,
        !('0' <= s[0] <= '9'),
    ensures
        encode_utf8(s).len() > 0,
        !(48 <= encode_utf8(s)[0] <= 57),
{
    encode_utf8_first_scalar(s);
    let b = encode_utf8(s);
    let first = b[0];
    if 48 <= first <= 57 {
        assert(first & 0x7f == first) by (bit_vector)
            requires
                48 <= first <= 57,
        ;
        assert(leading_bits_width_1(first) == first as u32);
        char_is_scalar(s[0]);
        char_u32_cast(s[0], first as u32);
    }
}

/// A layout that is printed as the grammar writes it is read back as it was, and no text behind it
/// is let pass, but for digits, which would lengthen its last number.
pub proof fn printed_layouts_are_read_back(l: LayoutView, tail: Seq<char>)
    requires
        populated(l.root),
        nesting(l.root) <= MAX_DEPTH,
        tail.len() > 0 ==> !('0' <= tail[0] <= '9'),
    ensures
        layout_of(printed(l)) == Ok::<LayoutView, Seq<char>>(l),
        tail.len() > 0 ==> layout_of(printed(l) + tail) is Err,
{
    let none = Seq::<char>::empty();
    lemma_checksum_read(l.checksum);
    lemma_layout_text(l, none);
    lemma_layout_read(l, none);
    assert(printed(l) + none =~= printed(l));
    assert(encode_utf8(none).len() == 0);
    lemma_layout_text(l, tail);
    lemma_layout_read(l, tail);
    if tail.len() > 0 {
        lemma_first_byte(tail);
    }
}

} // verus!
