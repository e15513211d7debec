//! What a terminal shows, in terms of what its grid holds.
use vstd::prelude::*;

#[allow(unused_imports)]
use crate::text::{lowercase, trim_spaces};
#[allow(unused_imports)]
use crate::vt::color::{
    default_palette, indexed_color, is_default_palette, is_themed, named_code, resolved, themed,
    Color, NamedColor, Palette, Rgb,
};
#[allow(unused_imports)]
use crate::vt::emulator::{
    color_after, cursor_after, glyph_after, link_after, modes_after, Operation, RawColor,
    SideEventView, SCROLLBACK,
};
#[allow(unused_imports)]
use crate::vt::osc::TermEventView;
#[allow(unused_imports)]
use crate::vt::terminal::{
    above, advanced, blank_terminal, cell_at, clamped, consume, cursor_cell, cursor_line,
    found_lines, from_content, line_matches, line_text, link_end, links_from, matches_from,
    mouse_bits, offsets_of, prompt_offsets_of, prompt_started, row_links, scrollback, side_step,
    side_steps, text_from, viewport, LinkSpanView, TerminalView,
};

verus! {

// ---------------------------------------------------------------------------
// Colors.
// ---------------------------------------------------------------------------

/// The color cube: for levels r, g and b from 0 to 5, the color at index 16 + 36 r + 6 g + b has
/// the red, green and blue of these levels, which are 0, 95, 135, 175, 215 and 255, under every
/// palette.
pub proof fn the_cube_is_red_green_blue(r: int, g: int, b: int, p: Palette)
    requires
        0 <= r < 6,
        0 <= g < 6,
        0 <= b < 6,
    ensures
        ({
            let levels = seq![0u8, 95, 135, 175, 215, 255];
            let c = indexed_color(16 + 36 * r + 6 * g + b, p);
            c.r == levels[r] && c.g == levels[g] && c.b == levels[b]
        }),
{
    let n = 36 * r + 6 * g + b;
    assert(n / 36 == r && n % 36 == 6 * g + b) by (nonlinear_arith)
        requires
            n == 36 * r + 6 * g + b,
            0 <= 6 * g + b < 36,
    ;
    assert((6 * g + b) / 6 == g) by (nonlinear_arith)
        requires
            0 <= b < 6,
    ;
    assert(n % 6 == b) by (nonlinear_arith)
        requires
            n == 6 * (6 * r + g) + b,
            0 <= b < 6,
    ;
}

/// The gray ramp: 24 grays in equal steps of ten, from 8 to 238, under every palette.
pub proof fn the_ramp_is_gray(k: int, p: Palette)
    requires
        0 <= k < 24,
    ensures
        ({
            let c = indexed_color(232 + k, p);
            c.r == 8 + 10 * k && c.g == c.r && c.b == c.r
        }),
{
}

/// The first 16 colors are the palette's.
pub proof fn system_colors_are_the_palettes(i: int, p: Palette)
    requires
        0 <= i < 16,
    ensures
        indexed_color(i, p) == p.ansi@[i],
{
}

/// The built-in colors: light gray on near-black, and the sixteen colors of xterm.
pub proof fn the_default_palette_is_xterms(p: Palette)
    requires
        is_default_palette(p),
    ensures
        p.fg == (Rgb { r: 0xcc, g: 0xcc, b: 0xcc }),
        p.bg == (Rgb { r: 0x11, g: 0x11, b: 0x11 }),
        p.ansi@ == seq![
            Rgb { r: 0, g: 0, b: 0 },
            Rgb { r: 0x80, g: 0, b: 0 },
            Rgb { r: 0, g: 0x80, b: 0 },
            Rgb { r: 0x80, g: 0x80, b: 0 },
            Rgb { r: 0, g: 0, b: 0x80 },
            Rgb { r: 0x80, g: 0, b: 0x80 },
            Rgb { r: 0, g: 0x80, b: 0x80 },
            Rgb { r: 0xc0, g: 0xc0, b: 0xc0 },
            Rgb { r: 0x80, g: 0x80, b: 0x80 },
            Rgb { r: 0xff, g: 0, b: 0 },
            Rgb { r: 0, g: 0xff, b: 0 },
            Rgb { r: 0xff, g: 0xff, b: 0 },
            Rgb { r: 0, g: 0, b: 0xff },
            Rgb { r: 0xff, g: 0, b: 0xff },
            Rgb { r: 0, g: 0xff, b: 0xff },
            Rgb { r: 0xff, g: 0xff, b: 0xff },
        ],
{
    assert forall|i: int| 0 <= i < 16 implies #[trigger] p.ansi@[i]
        == crate::vt::color::default_system_color(i) by {}
    let want = seq![
        Rgb { r: 0, g: 0, b: 0 },
        Rgb { r: 0x80, g: 0, b: 0 },
        Rgb { r: 0, g: 0x80, b: 0 },
        Rgb { r: 0x80, g: 0x80, b: 0 },
        Rgb { r: 0, g: 0, b: 0x80 },
        Rgb { r: 0x80, g: 0, b: 0x80 },
        Rgb { r: 0, g: 0x80, b: 0x80 },
        Rgb { r: 0xc0, g: 0xc0, b: 0xc0 },
        Rgb { r: 0x80, g: 0x80, b: 0x80 },
        Rgb { r: 0xff, g: 0, b: 0 },
        Rgb { r: 0, g: 0xff, b: 0 },
        Rgb { r: 0xff, g: 0xff, b: 0 },
        Rgb { r: 0, g: 0, b: 0xff },
        Rgb { r: 0xff, g: 0, b: 0xff },
        Rgb { r: 0, g: 0xff, b: 0xff },
        Rgb { r: 0xff, g: 0xff, b: 0xff },
    ];
    assert(p.ansi@ =~= want);
}

/// A theme sets the default colors and as many system colors as it gives; the others stay the
/// built-in ones.
pub proof fn themes_set_what_they_give(
    p: Palette,
    d: Palette,
    fg: Rgb,
    bg: Rgb,
    ansi: Seq<Rgb>,
    i: int,
)
    requires
        is_themed(p, fg, bg, ansi),
        is_default_palette(d),
        0 <= i < 16,
    ensures
        p.fg == fg,
        p.bg == bg,
        i < ansi.len() ==> p.ansi@[i] == ansi[i],
        i >= ansi.len() ==> p.ansi@[i] == d.ansi@[i],
{
    assert(p.ansi@[i] == p.ansi@[i] && d.ansi@[i] == d.ansi@[i]);
}

/// Bold brightens: a direct color and a color by index are what they are, bold or not; a system
/// color is the palette's, and bold takes its bright counterpart; the default colors are the
/// palette's, and bold text in the default color is bright white.
pub proof fn bold_brightens_system_colors(p: Palette, default: Rgb, c: Rgb, i: u8, bold: bool)
    ensures
        resolved(Color::Spec(c), p, default, bold) == c,
        resolved(Color::Indexed(i), p, default, bold) == indexed_color(i as int, p),
        i < 8 ==> resolved(Color::Named(NamedColor::System(i)), p, default, false)
            == p.ansi@[i as int],
        i < 8 ==> resolved(Color::Named(NamedColor::System(i)), p, default, true)
            == p.ansi@[i + 8],
        8 <= i < 16 ==> resolved(Color::Named(NamedColor::System(i)), p, default, bold)
            == p.ansi@[i as int],
        i < 8 ==> resolved(Color::Named(NamedColor::Dim(i)), p, default, false)
            == p.ansi@[i as int],
        i < 8 ==> resolved(Color::Named(NamedColor::Dim(i)), p, default, true) == p.ansi@[i + 8],
        resolved(Color::Named(NamedColor::Foreground), p, default, false) == default,
        resolved(Color::Named(NamedColor::Foreground), p, default, true) == p.ansi@[15],
        resolved(Color::Named(NamedColor::BrightForeground), p, default, bold) == default,
        resolved(Color::Named(NamedColor::DimForeground), p, default, bold) == default,
        resolved(Color::Named(NamedColor::Background), p, default, bold) == default,
        resolved(Color::Named(NamedColor::Cursor), p, default, bold) == p.fg,
{
}

/// What the emulator's color codes stand for.
pub proof fn color_codes_are_read(code: u16)
    ensures
        code < 16 ==> named_code(code) == NamedColor::System(code as u8),
        named_code(256) == NamedColor::Foreground,
        named_code(257) == NamedColor::Background,
        named_code(258) == NamedColor::Cursor,
        259 <= code <= 266 ==> named_code(code) == NamedColor::Dim((code - 259) as u8),
        named_code(267) == NamedColor::BrightForeground,
        named_code(268) == NamedColor::DimForeground,
{
}

// ---------------------------------------------------------------------------
// Cells.
// ---------------------------------------------------------------------------

/// The color that a grid color stands for, where it is not a semantic one.
pub proof fn cells_show_the_grid(t: TerminalView, line: int, col: int)
    ensures
        ({
            let c = cell_at(t, line, col);
            let g = glyph_after(t.ops, line, col);
            &&& c.ch == g.ch
            &&& c.bold == g.bold
            &&& c.italic == g.italic
            &&& c.underline == g.underline
            &&& c.inverse == g.inverse
            &&& c.wide == g.wide
        }),
{
}

/// The text is in its foreground color on its background color, and an inverse cell has them the
/// other way round: for direct colors, for colors by index, for system colors and for the default
/// ones.
pub proof fn cells_show_their_colors(t: TerminalView, line: int, col: int)
    ensures
        ({
            let cell = cell_at(t, line, col);
            let g = glyph_after(t.ops, line, col);
            let (text, ground) = if g.inverse {
                (cell.bg, cell.fg)
            } else {
                (cell.fg, cell.bg)
            };
            let front = color_after(t.ops, line, col, false);
            let back = color_after(t.ops, line, col, true);
            &&& front matches RawColor::Spec(c) ==> text == c
            &&& back matches RawColor::Spec(c) ==> ground == c
            &&& front matches RawColor::Indexed(i) ==> text == indexed_color(i as int, t.palette)
            &&& back matches RawColor::Indexed(i) ==> ground == indexed_color(i as int, t.palette)
            &&& front matches RawColor::Named(n) ==> n < 8 ==> text == t.palette.ansi@[if g.bold {
                n + 8
            } else {
                n as int
            }]
            &&& front matches RawColor::Named(n) ==> 8 <= n < 16 ==> text
                == t.palette.ansi@[n as int]
            &&& back matches RawColor::Named(n) ==> n < 16 ==> ground == t.palette.ansi@[n as int]
            &&& front == RawColor::Named(256) ==> text == (if g.bold {
                t.palette.ansi@[15]
            } else {
                t.palette.fg
            })
            &&& back == RawColor::Named(257) ==> ground == t.palette.bg
        }),
{
}

/// The screen is the grid's lines from 0 on, and scrolling up by a line shows each line one row
/// lower, as far as there is scrollback.
pub proof fn scrolling_shows_older_lines(t: TerminalView, offset: nat, r: int, c: int)
    requires
        offset <= t.history(),
        0 <= r < t.rows,
        0 <= c < t.cols,
    ensures
        viewport(t, offset)[r][c] == cell_at(t, r - offset, c),
        viewport(t, 0)[r][c].ch == glyph_after(t.ops, r, c).ch,
        offset < t.history() && r + 1 < t.rows ==> viewport(t, offset + 1)[r + 1] =~= viewport(
            t,
            offset,
        )[r],
{
}

// ---------------------------------------------------------------------------
// Text.
// ---------------------------------------------------------------------------

proof fn lemma_trimmed(s: Seq<char>)
    ensures
        trim_spaces(s).len() <= s.len(),
        trim_spaces(s) == s.take(trim_spaces(s).len() as int),
        forall|i: int| trim_spaces(s).len() <= i < s.len() ==> #[trigger] s[i] == ' ',
        trim_spaces(s).len() > 0 ==> trim_spaces(s).last() != ' ',
    decreases s.len(),
{
    if s.len() > 0 && s.last() == ' ' {
        let front = s.drop_last();
        lemma_trimmed(front);
        assert forall|i: int| trim_spaces(s).len() <= i < s.len() implies #[trigger] s[i] == ' ' by {
            if i < front.len() {
                assert(front[i] == s[i]);
            }
        }
        assert(front.take(trim_spaces(s).len() as int) =~= s.take(trim_spaces(s).len() as int));
    } else {
        assert(s.take(s.len() as int) =~= s);
    }
}

/// The text of a line is the characters of its cells from the left, up to the last that is no
/// space.
pub proof fn lines_are_the_characters_of_their_cells(t: TerminalView, line: int)
    ensures
        ({
            let s = line_text(t, line);
            &&& s.len() <= t.cols
            &&& forall|c: int|
                0 <= c < s.len() ==> #[trigger] s[c] == glyph_after(t.ops, line, c).ch
            &&& forall|c: int|
                s.len() <= c < t.cols ==> (#[trigger] glyph_after(t.ops, line, c)).ch == ' '
            &&& s.len() > 0 ==> s.last() != ' '
        }),
{
    let all = Seq::new(t.cols as nat, |c: int| glyph_after(t.ops, line, c).ch);
    lemma_trimmed(all);
    let s = line_text(t, line);
    assert forall|c: int| s.len() <= c < t.cols implies (#[trigger] glyph_after(t.ops, line, c)).ch
        == ' ' by {
        assert(all[c] == ' ');
    }
}

/// The text of the screen is that of its rows, from the top.
pub proof fn the_screen_is_its_rows(t: TerminalView, r: int)
    requires
        0 <= r < t.rows,
    ensures
        text_from(t, 0).len() == t.rows,
        text_from(t, 0)[r] == line_text(t, r),
{
}

proof fn lemma_from_content(lines: Seq<Seq<char>>)
    ensures
        ({
            let s = from_content(lines);
            &&& s.len() <= lines.len()
            &&& s == lines.skip(lines.len() - s.len())
            &&& forall|i: int| 0 <= i < lines.len() - s.len() ==> (#[trigger] lines[i]).len() == 0
            &&& s.len() > 0 ==> s[0].len() > 0
        }),
    decreases lines.len(),
{
    let s = from_content(lines);
    if lines.len() > 0 && lines[0].len() == 0 {
        let rest = lines.skip(1);
        lemma_from_content(rest);
        assert(rest.skip(rest.len() - s.len()) =~= lines.skip(lines.len() - s.len()));
        assert forall|i: int| 0 <= i < lines.len() - s.len() implies (#[trigger] lines[i]).len()
            == 0 by {
            if i > 0 {
                assert(rest[i - 1] == lines[i]);
            }
        }
    } else {
        assert(lines.skip(0) =~= lines);
    }
}

/// A capture is the newest lines, down to the bottom of the screen, oldest first: at most as many
/// as are asked for, all of them for 0; what it leaves out at its start is empty.
pub proof fn captures_are_the_newest_lines(t: TerminalView, max: nat)
    ensures
        ({
            let s = scrollback(t, max);
            let all = t.history() + t.rows;
            let most = if max == 0 || max > all {
                all
            } else {
                max as int
            };
            &&& s.len() <= most
            &&& forall|i: int|
                0 <= i < s.len() ==> #[trigger] s[i] == line_text(t, t.rows - s.len() + i)
            &&& forall|k: int|
                s.len() <= k < most ==> (#[trigger] line_text(t, t.rows - 1 - k)).len() == 0
            &&& s.len() > 0 ==> s[0].len() > 0
        }),
{
    let all = t.history() + t.rows;
    let most = if max == 0 || max > all {
        all
    } else {
        max as int
    };
    let lines = text_from(t, t.rows - most);
    lemma_from_content(lines);
    let s = scrollback(t, max);
    assert forall|k: int| s.len() <= k < most implies (#[trigger] line_text(
        t,
        t.rows - 1 - k,
    )).len() == 0 by {
        assert(lines[most - 1 - k].len() == 0);
    }
}

// ---------------------------------------------------------------------------
// Search.
// ---------------------------------------------------------------------------

/// Whether a line, lowercased, holds a text at some column.
spec fn held(t: TerminalView, needle: Seq<char>, k: int) -> bool {
    let line = lowercase(line_text(t, t.rows - 1 - k));
    exists|at: int|
        0 <= at && at + needle.len() <= line.len() && #[trigger] line.subrange(
            at,
            at + needle.len(),
        ) == needle
}

proof fn lemma_matches(t: TerminalView, needle: Seq<char>, k: int, room: nat)
    requires
        0 <= k,
        t.history() + t.rows <= u32::MAX,
    ensures
        ({
            let m = matches_from(t, needle, k, room);
            &&& m.len() <= room
            &&& forall|i: int|
                0 <= i < m.len() ==> k <= #[trigger] m[i] < t.history() + t.rows && held(
                    t,
                    needle,
                    m[i] as int,
                )
            &&& forall|i: int, j: int| 0 <= i < j < m.len() ==> #[trigger] m[i] < #[trigger] m[j]
            &&& forall|o: int|
                k <= o < t.history() + t.rows && #[trigger] held(t, needle, o) && (m.len() < room
                    || (m.len() > 0 && o <= m.last())) ==> m.contains(o as u32)
        }),
    decreases t.history() + t.rows - k,
{
    let m = matches_from(t, needle, k, room);
    if k < t.history() + t.rows && room > 0 {
        if line_matches(t, needle, k) {
            let rest = matches_from(t, needle, k + 1, (room - 1) as nat);
            lemma_matches(t, needle, k + 1, (room - 1) as nat);
            assert(m == seq![k as u32] + rest);
            assert(held(t, needle, k));
            assert forall|i: int| 0 <= i < m.len() implies k <= #[trigger] m[i] < t.history()
                + t.rows && held(t, needle, m[i] as int) by {
                if i > 0 {
                    assert(m[i] == rest[i - 1]);
                }
            }
            assert forall|i: int, j: int| 0 <= i < j < m.len() implies #[trigger] m[i]
                < #[trigger] m[j] by {
                assert(m[j] == rest[j - 1]);
                if i > 0 {
                    assert(m[i] == rest[i - 1]);
                }
            }
            assert forall|o: int|
                k <= o < t.history() + t.rows && #[trigger] held(t, needle, o) && (m.len() < room
                    || (m.len() > 0 && o <= m.last())) implies m.contains(o as u32) by {
                if o == k {
                    assert(m[0] == o as u32);
                } else {
                    if rest.len() > 0 {
                        assert(rest.last() == m.last());
                    }
                    assert(rest.contains(o as u32));
                    let i = choose|i: int| 0 <= i < rest.len() && rest[i] == o as u32;
                    assert(m[i + 1] == o as u32);
                }
            }
        } else {
            lemma_matches(t, needle, k + 1, room);
            assert(!held(t, needle, k));
        }
    }
}

/// A search finds every line that holds the query, whatever stands before it: for a query that is
/// not empty, an offset is reported exactly when the line that many lines above the bottom of the
/// screen, lowercased, holds the lowercased query at some column. Offsets ascend, and at most 500
/// are reported, those nearest to the bottom.
pub proof fn searches_find_every_line_that_holds_the_query(
    t: TerminalView,
    query: Seq<char>,
    k: int,
)
    requires
        query.len() > 0,
        0 <= k < t.history() + t.rows,
        t.history() + t.rows <= u32::MAX,
    ensures
        ({
            let found = found_lines(t, query);
            let line = lowercase(line_text(t, t.rows - 1 - k));
            let needle = lowercase(query);
            let holds = exists|at: int|
                0 <= at && at + needle.len() <= line.len() && #[trigger] line.subrange(
                    at,
                    at + needle.len(),
                ) == needle;
            &&& found.len() <= 500
            &&& forall|i: int, j: int|
                0 <= i < j < found.len() ==> #[trigger] found[i] < #[trigger] found[j]
            &&& found.contains(k as u32) ==> holds
            &&& holds && (found.len() < 500 || k <= found.last()) ==> found.contains(k as u32)
        }),
{
    let needle = lowercase(query);
    lemma_matches(t, needle, 0, 500);
    let found = found_lines(t, query);
    if found.contains(k as u32) {
        let i = choose|i: int| 0 <= i < found.len() && found[i] == k as u32;
        assert(held(t, needle, found[i] as int));
    }
    if held(t, needle, k) && (found.len() < 500 || k <= found.last()) {
        assert(found.contains(k as u32));
    }
}

/// An empty query finds nothing.
pub proof fn an_empty_query_finds_nothing(t: TerminalView, query: Seq<char>)
    requires
        query.len() == 0,
    ensures
        found_lines(t, query).len() == 0,
{
}

// ---------------------------------------------------------------------------
// Prompts.
// ---------------------------------------------------------------------------

proof fn lemma_above(prompts: Seq<u64>, line: u64)
    ensures
        ({
            let s = above(prompts, line);
            &&& s.len() <= prompts.len()
            &&& s == prompts.take(s.len() as int)
            &&& s.len() > 0 ==> s.last() < line
            &&& s.len() < prompts.len() ==> prompts[s.len() as int] >= line
        }),
    decreases prompts.len(),
{
    if prompts.len() > 0 && prompts.last() >= line {
        let front = prompts.drop_last();
        lemma_above(front, line);
        let s = above(prompts, line);
        assert(front.take(s.len() as int) =~= prompts.take(s.len() as int));
    } else {
        assert(prompts.take(prompts.len() as int) =~= prompts);
    }
}

/// A prompt is recorded at the cursor's line, counted from the oldest line, behind the prompts
/// above it; nothing else changes. Once the scrollback is full, none is recorded.
pub proof fn prompts_are_recorded_at_the_cursor(t: TerminalView)
    requires
        t.history() + t.rows <= u32::MAX,
    ensures
        ({
            let n = prompt_started(t);
            let row = cursor_after(t.ops).0;
            let line = t.history() + (if row > 0 {
                row as int
            } else {
                0
            });
            &&& n == (TerminalView { prompts: n.prompts, ..t })
            &&& t.history() >= SCROLLBACK ==> n.prompts.len() == 0
            &&& t.history() < SCROLLBACK ==> {
                &&& n.prompts.len() > 0
                &&& n.prompts.last() == line
                &&& n.prompts.len() <= t.prompts.len() + 1
                &&& n.prompts.drop_last() == t.prompts.take(n.prompts.len() - 1)
                &&& n.prompts.len() > 1 ==> n.prompts[n.prompts.len() - 2] < line
                &&& n.prompts.len() <= t.prompts.len() ==> t.prompts[n.prompts.len() - 1] >= line
            }
        }),
{
    let line = cursor_line(t);
    lemma_above(t.prompts, line);
    let n = prompt_started(t);
    if t.history() < SCROLLBACK {
        assert(n.prompts.drop_last() =~= above(t.prompts, line));
    }
}

proof fn lemma_offsets(t: TerminalView, n: int, o: u32)
    requires
        0 <= n <= t.prompts.len(),
        t.history() + t.rows <= u32::MAX,
    ensures
        offsets_of(t, n).contains(o) == (exists|i: int|
            0 <= i < n && (#[trigger] t.prompts[i]) + o == t.history() + t.rows - 1),
    decreases n,
{
    if n > 0 {
        lemma_offsets(t, n - 1, o);
        let bottom = t.history() + t.rows - 1;
        let rest = offsets_of(t, n - 1);
        let all = offsets_of(t, n);
        let line = t.prompts[n - 1];
        if rest.contains(o) {
            let k = choose|k: int| 0 <= k < rest.len() && rest[k] == o;
            if line <= bottom {
                assert(all[k + 1] == o);
            }
        }
        if line + o == bottom {
            assert(all[0] == o);
            assert(t.prompts[n - 1] + o == bottom);
        }
        if all.contains(o) && line <= bottom {
            let k = choose|k: int| 0 <= k < all.len() && all[k] == o;
            if k > 0 {
                assert(rest[k - 1] == o);
            } else {
                assert(t.prompts[n - 1] + o == bottom);
            }
        }
    }
}

/// A prompt offset is reported exactly where a prompt was recorded that many lines above the bottom
/// of the screen, while the scrollback is not full; the newest prompt comes first.
pub proof fn prompts_are_found_above_the_bottom(t: TerminalView, o: u32)
    requires
        t.history() + t.rows <= u32::MAX,
    ensures
        t.history() < SCROLLBACK ==> prompt_offsets_of(t).contains(o) == (exists|i: int|
            0 <= i < t.prompts.len() && (#[trigger] t.prompts[i]) + o == t.history() + t.rows - 1),
        t.history() >= SCROLLBACK ==> prompt_offsets_of(t).len() == 0,
        t.history() < SCROLLBACK && t.prompts.len() > 0 && t.prompts.last() < t.history() + t.rows
            ==> prompt_offsets_of(t).len() > 0 && prompt_offsets_of(t)[0] + t.prompts.last()
            == t.history() + t.rows - 1,
{
    lemma_offsets(t, t.prompts.len() as int, o);
}

// ---------------------------------------------------------------------------
// Links.
// ---------------------------------------------------------------------------

proof fn lemma_link_end(t: TerminalView, line: int, uri: Seq<char>, col: int)
    requires
        0 <= col < t.cols,
    ensures
        ({
            let end = link_end(t, line, uri, col);
            &&& col <= end < t.cols
            &&& forall|c: int| col < c <= end ==> #[trigger] link_after(t.ops, line, c) == Some(uri)
            &&& end + 1 < t.cols ==> link_after(t.ops, line, end + 1) != Some(uri)
        }),
    decreases t.cols - col,
{
    if col + 1 < t.cols && link_after(t.ops, line, col + 1) == Some(uri) {
        lemma_link_end(t, line, uri, col + 1);
    }
}

/// Whether a span covers a column of a row.
spec fn covers(s: LinkSpanView, row: int, col: int) -> bool {
    s.row == row && s.start <= col <= s.end
}

proof fn lemma_row_links(t: TerminalView, line: int, row: int, from: int)
    requires
        0 <= from,
        0 <= row <= u16::MAX,
    ensures
        ({
            let ls = row_links(t, line, row, from);
            &&& forall|i: int| #![trigger ls[i]]
                0 <= i < ls.len() ==> {
                    &&& ls[i].row == row
                    &&& from <= ls[i].start <= ls[i].end < t.cols
                    &&& forall|c: int|
                        ls[i].start <= c <= ls[i].end ==> #[trigger] link_after(t.ops, line, c)
                            == Some(ls[i].uri)
                    &&& ls[i].end + 1 < t.cols ==> link_after(t.ops, line, ls[i].end + 1) != Some(
                        ls[i].uri,
                    )
                }
            &&& forall|c: int|
                from <= c < t.cols && #[trigger] link_after(t.ops, line, c) is Some ==> exists|
                    i: int,
                | 0 <= i < ls.len() && covers(#[trigger] ls[i], row, c)
        }),
    decreases t.cols - from,
{
    let ls = row_links(t, line, row, from);
    if from < t.cols {
        match link_after(t.ops, line, from) {
            None => {
                lemma_row_links(t, line, row, from + 1);
            },
            Some(uri) => {
                let end = link_end(t, line, uri, from);
                lemma_link_end(t, line, uri, from);
                let rest = row_links(t, line, row, end + 1);
                lemma_row_links(t, line, row, end + 1);
                let first = LinkSpanView {
                    row: row as u16,
                    start: from as u16,
                    end: end as u16,
                    uri,
                };
                assert(ls == seq![first] + rest);
                assert forall|i: int| #![trigger ls[i]] 0 <= i < ls.len() implies {
                    &&& ls[i].row == row
                    &&& from <= ls[i].start <= ls[i].end < t.cols
                    &&& forall|c: int|
                        ls[i].start <= c <= ls[i].end ==> #[trigger] link_after(t.ops, line, c)
                            == Some(ls[i].uri)
                    &&& ls[i].end + 1 < t.cols ==> link_after(t.ops, line, ls[i].end + 1) != Some(
                        ls[i].uri,
                    )
                } by {
                    if i > 0 {
                        assert(ls[i] == rest[i - 1]);
                    }
                }
                assert forall|c: int|
                    from <= c < t.cols && #[trigger] link_after(t.ops, line, c) is Some implies exists|
                    i: int,
                | 0 <= i < ls.len() && covers(#[trigger] ls[i], row, c) by {
                    if c <= end {
                        assert(covers(ls[0], row, c));
                    } else {
                        let i = choose|i: int| 0 <= i < rest.len() && covers(
                            #[trigger] rest[i],
                            row,
                            c,
                        );
                        assert(ls[i + 1] == rest[i]);
                    }
                }
            },
        }
    }
}

proof fn lemma_links(t: TerminalView, offset: nat, row: int)
    requires
        0 <= row,
    ensures
        ({
            let ls = links_from(t, offset, row);
            &&& forall|i: int| #![trigger ls[i]]
                0 <= i < ls.len() ==> {
                    let line = ls[i].row - clamped(t, offset);
                    &&& row <= ls[i].row < t.rows
                    &&& ls[i].start <= ls[i].end < t.cols
                    &&& forall|c: int|
                        ls[i].start <= c <= ls[i].end ==> #[trigger] link_after(t.ops, line, c)
                            == Some(ls[i].uri)
                    &&& ls[i].end + 1 < t.cols ==> link_after(t.ops, line, ls[i].end + 1) != Some(
                        ls[i].uri,
                    )
                }
            &&& forall|r: int, c: int|
                row <= r < t.rows && 0 <= c < t.cols && (#[trigger] link_after(
                    t.ops,
                    r - clamped(t, offset),
                    c,
                )) is Some ==> exists|i: int|
                    0 <= i < ls.len() && covers(#[trigger] ls[i], r, c)
        }),
    decreases t.rows - row,
{
    if row < t.rows {
        let ls = links_from(t, offset, row);
        let a = row_links(t, row - clamped(t, offset), row, 0);
        let b = links_from(t, offset, row + 1);
        lemma_row_links(t, row - clamped(t, offset), row, 0);
        lemma_links(t, offset, row + 1);
        assert(ls == a + b);
        assert forall|i: int| #![trigger ls[i]] 0 <= i < ls.len() implies {
            let line = ls[i].row - clamped(t, offset);
            &&& row <= ls[i].row < t.rows
            &&& ls[i].start <= ls[i].end < t.cols
            &&& forall|c: int|
                ls[i].start <= c <= ls[i].end ==> #[trigger] link_after(t.ops, line, c) == Some(
                    ls[i].uri,
                )
            &&& ls[i].end + 1 < t.cols ==> link_after(t.ops, line, ls[i].end + 1) != Some(
                ls[i].uri,
            )
        } by {
            if i < a.len() {
                assert(ls[i] == a[i]);
            } else {
                assert(ls[i] == b[i - a.len()]);
            }
        }
        assert forall|r: int, c: int|
            row <= r < t.rows && 0 <= c < t.cols && (#[trigger] link_after(
                t.ops,
                r - clamped(t, offset),
                c,
            )) is Some implies exists|i: int| 0 <= i < ls.len() && covers(
            #[trigger] ls[i],
            r,
            c,
        ) by {
            if r == row {
                let i = choose|i: int| 0 <= i < a.len() && covers(#[trigger] a[i], r, c);
                assert(ls[i] == a[i]);
            } else {
                let i = choose|i: int| 0 <= i < b.len() && covers(#[trigger] b[i], r, c);
                assert(ls[i + a.len()] == b[i]);
            }
        }
    }
}

/// Hyperlinks are where the cells have them: each reported span is a run of cells of its row that
/// all link to its target, and the cell behind it does not; every cell of the viewport that links
/// somewhere is in a span.
pub proof fn links_are_runs_of_linked_cells(t: TerminalView, offset: nat, i: int, r: int, c: int)
    requires
        offset <= t.history(),
        0 <= r < t.rows,
        0 <= c < t.cols,
    ensures
        ({
            let ls = links_from(t, offset, 0);
            &&& 0 <= i < ls.len() ==> {
                &&& ls[i].row < t.rows
                &&& ls[i].start <= ls[i].end < t.cols
                &&& ls[i].start <= c <= ls[i].end ==> link_after(t.ops, ls[i].row - offset, c)
                    == Some(ls[i].uri)
                &&& ls[i].end + 1 < t.cols ==> link_after(
                    t.ops,
                    ls[i].row - offset,
                    ls[i].end + 1,
                ) != Some(ls[i].uri)
            }
            &&& link_after(t.ops, r - offset, c) matches Some(uri) ==> exists|k: int|
                0 <= k < ls.len() && (#[trigger] ls[k]).row == r && ls[k].start <= c <= ls[k].end
                    && ls[k].uri == uri
        }),
{
    lemma_links(t, offset, 0);
    let ls = links_from(t, offset, 0);
    if let Some(uri) = link_after(t.ops, r - offset, c) {
        let line = r - clamped(t, offset);
        assert(link_after(t.ops, line, c) is Some);
        let k = choose|k: int| 0 <= k < ls.len() && covers(#[trigger] ls[k], r, c);
        assert(ls[k].row == r);
    }
}

// ---------------------------------------------------------------------------
// Modes, cursor, and what is told.
// ---------------------------------------------------------------------------

/// The mouse mode is four bits: clicks, drag, motion and the SGR encoding.
pub proof fn mouse_bits_are_the_modes(t: TerminalView)
    ensures
        ({
            let b = mouse_bits(t) as int;
            let m = modes_after(t.ops);
            &&& b < 16
            &&& (b % 2 == 1) == m.mouse_clicks
            &&& (b / 2 % 2 == 1) == m.mouse_drag
            &&& (b / 4 % 2 == 1) == m.mouse_motion
            &&& (b / 8 % 2 == 1) == m.mouse_sgr
        }),
{
}

/// The cursor is where the grid has it, column first, and always on the screen.
pub proof fn the_cursor_is_the_grids(t: TerminalView)
    requires
        t.wf(),
    ensures
        ({
            let (line, col) = cursor_after(t.ops);
            let (x, y) = cursor_cell(t);
            &&& x < t.cols
            &&& y < t.rows
            &&& col < t.cols ==> x == col
            &&& t.cols <= col <= u16::MAX ==> x == t.cols - 1
            &&& 0 <= line < t.rows ==> y == line
            &&& line < 0 ==> y == 0
        }),
{
}

/// A bell is reported; a cursor shape from 0 to 6 is taken, and any other is not; nothing else
/// changes by either.
pub proof fn bells_and_shapes_are_taken(t: TerminalView, shape: u16)
    ensures
        side_step(t, SideEventView::Bell) == (t, seq![TermEventView::Bell]),
        ({
            let (n, es) = side_step(t, SideEventView::CursorStyle(shape));
            &&& es.len() == 0
            &&& n == (TerminalView { cursor_style: n.cursor_style, ..t })
            &&& shape <= 6 ==> n.cursor_style == shape
            &&& shape > 6 ==> n.cursor_style == t.cursor_style
        }),
{
    reveal(side_step);
}

/// A new terminal has the size that was asked for, at least one column and one row, the built-in
/// colors, no prompts and the default cursor.
pub proof fn new_terminals_are_blank(cols: u16, rows: u16)
    ensures
        ({
            let t = blank_terminal(cols, rows);
            &&& cols > 0 ==> t.cols == cols
            &&& rows > 0 ==> t.rows == rows
            &&& cols == 0 ==> t.cols == 1
            &&& rows == 0 ==> t.rows == 1
            &&& t.palette == default_palette()
            &&& t.prompts.len() == 0
            &&& t.partials.len() == 0
            &&& t.cursor_style == 0
            &&& cols > 1 ==> t.ops == seq![
                Operation::New { cols: cols as nat, rows: t.rows as nat },
            ]
        }),
{
}

proof fn lemma_steps_keep_ops(t: TerminalView, es: Seq<SideEventView>)
    ensures
        side_steps(t, es).0.ops == t.ops,
        side_steps(t, es).0.chunks == t.chunks,
    decreases es.len(),
{
    if es.len() > 0 {
        reveal(side_step);
        lemma_steps_keep_ops(side_step(t, es[0]).0, es.skip(1));
    }
}

/// The grid and the reader of sequences get the same bytes: whatever one chunk adds to the pieces
/// that the reader got, the grid is fed the same pieces in the same order, and nothing is taken
/// back from either.
pub proof fn the_grid_gets_what_is_read(t: TerminalView, bytes: Seq<u8>)
    ensures
        ({
            let n = advanced(t, bytes).0;
            let more = n.ops.len() - t.ops.len();
            &&& more >= 0
            &&& n.chunks.len() == t.chunks.len() + more
            &&& n.ops.take(t.ops.len() as int) == t.ops
            &&& n.chunks.take(t.chunks.len() as int) == t.chunks
            &&& forall|i: int|
                0 <= i < more ==> #[trigger] n.ops[t.ops.len() + i] == (Operation::Feed {
                    bytes: n.chunks[t.chunks.len() + i],
                })
        }),
{
    lemma_consumed(t, bytes);
}

proof fn lemma_consumed(t: TerminalView, bytes: Seq<u8>)
    ensures
        ({
            let n = consume(t, bytes).0;
            let more = n.ops.len() - t.ops.len();
            &&& more >= 0
            &&& n.chunks.len() == t.chunks.len() + more
            &&& n.ops.take(t.ops.len() as int) == t.ops
            &&& n.chunks.take(t.chunks.len() as int) == t.chunks
            &&& forall|i: int|
                0 <= i < more ==> #[trigger] n.ops[t.ops.len() + i] == (Operation::Feed {
                    bytes: n.chunks[t.chunks.len() + i],
                })
        }),
    decreases bytes.len(),
{
    let (es, n) = crate::vt::emulator::side_run(t.chunks, bytes);
    assert(t.ops.take(t.ops.len() as int) =~= t.ops);
    assert(t.chunks.take(t.chunks.len() as int) =~= t.chunks);
    if bytes.len() > 0 && 0 < n <= bytes.len() {
        let fed = TerminalView {
            ops: t.ops.push(Operation::Feed { bytes: bytes.take(n) }),
            chunks: t.chunks.push(bytes.take(n)),
            ..t
        };
        lemma_steps_keep_ops(fed, es);
        let mid = side_steps(fed, es).0;
        lemma_consumed(mid, bytes.skip(n));
        let last = consume(t, bytes).0;
        let (a, b) = (t.ops.len() as int, t.chunks.len() as int);
        assert(last.ops.take(a) =~= t.ops) by {
            assert(last.ops.take(a + 1).take(a) =~= last.ops.take(a));
            assert(fed.ops.take(a) =~= t.ops);
        }
        assert(last.chunks.take(b) =~= t.chunks) by {
            assert(last.chunks.take(b + 1).take(b) =~= last.chunks.take(b));
            assert(fed.chunks.take(b) =~= t.chunks);
        }
        assert forall|i: int| 0 <= i < last.ops.len() - a implies #[trigger] last.ops[a + i] == (
        Operation::Feed { bytes: last.chunks[b + i] }) by {
            if i == 0 {
                assert(last.ops.take(a + 1)[a] == last.ops[a]);
                assert(last.chunks.take(b + 1)[b] == last.chunks[b]);
            } else {
                assert(last.ops[mid.ops.len() + (i - 1)] == last.ops[a + i]);
            }
        }
    }
}

} // verus!
