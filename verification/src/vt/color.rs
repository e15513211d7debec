//! Logical terminal colors and their resolution against a palette.
use vstd::prelude::*;

verus! {

/// A concrete color.
#[derive(Debug, Clone, Copy, PartialEq, Eq, Structural)]
pub struct Rgb {
    pub r: u8,
    pub g: u8,
    pub b: u8,
}

/// A color that a terminal cell names rather than spells out.
#[derive(Debug, Clone, Copy, PartialEq, Eq, Structural)]
pub enum NamedColor {
    /// One of the 16 system colors (0..=15).
    System(u8),
    /// The dim variant of one of the first eight system colors (0..=7).
    Dim(u8),
    Foreground,
    BrightForeground,
    DimForeground,
    Background,
    Cursor,
}

/// A logical color, as the grid stores it.
#[derive(Debug, Clone, Copy, PartialEq, Eq, Structural)]
pub enum Color {
    Named(NamedColor),
    Spec(Rgb),
    Indexed(u8),
}

/// Runtime color palette: default foreground and background, and the 16 system colors. The color
/// cube and the grayscale ramp (indices 16..=255) are computed and not themeable.
#[derive(Debug, Clone, Copy, PartialEq, Eq)]
pub struct Palette {
    pub fg: Rgb,
    pub bg: Rgb,
    pub ansi: [Rgb; 16],
}

/// The built-in system color `i`.
pub open spec fn default_system_color(i: int) -> Rgb {
    let bright: u8 = if i == 8 {
        0x80
    } else if i > 8 {
        0xff
    } else if i == 7 {
        0xc0
    } else {
        0x80
    };
    if i == 8 {
        Rgb { r: bright, g: bright, b: bright }
    } else {
        Rgb {
            r: if (i % 8) % 2 == 1 {
                bright
            } else {
                0
            },
            g: if ((i % 8) / 2) % 2 == 1 {
                bright
            } else {
                0
            },
            b: if (i % 8) / 4 == 1 {
                bright
            } else {
                0
            },
        }
    }
}

/// The built-in palette.
pub open spec fn is_default_palette(p: Palette) -> bool {
    &&& p.fg == Rgb { r: 0xcc, g: 0xcc, b: 0xcc }
    &&& p.bg == Rgb { r: 0x11, g: 0x11, b: 0x11 }
    &&& forall|i: int| 0 <= i < 16 ==> #[trigger] p.ansi@[i] == default_system_color(i)
}

/// The built-in palette.
pub open spec fn default_palette() -> Palette {
    choose|p: Palette| is_default_palette(p)
}

/// There is one built-in palette.
pub proof fn lemma_default_palette(p: Palette)
    requires
        is_default_palette(p),
    ensures
        p == default_palette(),
{
    let q = default_palette();
    assert(p.ansi =~= q.ansi);
}

/// Whether a palette has these colors; system colors that are not given are the built-in ones.
pub open spec fn is_themed(p: Palette, fg: Rgb, bg: Rgb, ansi: Seq<Rgb>) -> bool {
    &&& p.fg == fg
    &&& p.bg == bg
    &&& forall|i: int|
        0 <= i < 16 ==> #[trigger] p.ansi@[i] == (if i < ansi.len() {
            ansi[i]
        } else {
            default_system_color(i)
        })
}

/// The palette with these colors.
pub open spec fn themed(fg: Rgb, bg: Rgb, ansi: Seq<Rgb>) -> Palette {
    choose|p: Palette| is_themed(p, fg, bg, ansi)
}

/// There is one palette with given colors.
pub proof fn lemma_themed(p: Palette, fg: Rgb, bg: Rgb, ansi: Seq<Rgb>)
    requires
        is_themed(p, fg, bg, ansi),
    ensures
        p == themed(fg, bg, ansi),
{
    let q = themed(fg, bg, ansi);
    assert(p.ansi =~= q.ansi);
}

impl Palette {
    /// The palette with these colors; system colors that are not given are the built-in ones.
    pub fn with_colors(fg: Rgb, bg: Rgb, ansi: &[Rgb]) -> (p: Palette)
        ensures
            is_themed(p, fg, bg, ansi@),
            p == themed(fg, bg, ansi@),
    {
        let d = Palette::default();
        let colors = [
            pick(ansi, &d, 0),
            pick(ansi, &d, 1),
            pick(ansi, &d, 2),
            pick(ansi, &d, 3),
            pick(ansi, &d, 4),
            pick(ansi, &d, 5),
            pick(ansi, &d, 6),
            pick(ansi, &d, 7),
            pick(ansi, &d, 8),
            pick(ansi, &d, 9),
            pick(ansi, &d, 10),
            pick(ansi, &d, 11),
            pick(ansi, &d, 12),
            pick(ansi, &d, 13),
            pick(ansi, &d, 14),
            pick(ansi, &d, 15),
        ];
        let p = Palette { fg, bg, ansi: colors };
        proof {
            lemma_themed(p, fg, bg, ansi@);
        }
        p
    }
}

fn pick(ansi: &[Rgb], d: &Palette, i: usize) -> (c: Rgb)
    requires
        i < 16,
        is_default_palette(*d),
    ensures
        c == (if i < ansi@.len() {
            ansi@[i as int]
        } else {
            default_system_color(i as int)
        }),
{
    if i < ansi.len() {
        ansi[i]
    } else {
        assert(d.ansi@[i as int] == default_system_color(i as int));
        d.ansi[i]
    }
}

fn rgb(r: u8, g: u8, b: u8) -> (c: Rgb)
    ensures
        c == (Rgb { r, g, b }),
{
    Rgb { r, g, b }
}

impl Default for Palette {
    /// The built-in palette: light gray on near-black, and the classic xterm system colors.
    fn default() -> (p: Self)
        ensures
            is_default_palette(p),
            p == default_palette(),
    {
        let ansi = [
            rgb(0x00, 0x00, 0x00),
            rgb(0x80, 0x00, 0x00),
            rgb(0x00, 0x80, 0x00),
            rgb(0x80, 0x80, 0x00),
            rgb(0x00, 0x00, 0x80),
            rgb(0x80, 0x00, 0x80),
            rgb(0x00, 0x80, 0x80),
            rgb(0xc0, 0xc0, 0xc0),
            rgb(0x80, 0x80, 0x80),
            rgb(0xff, 0x00, 0x00),
            rgb(0x00, 0xff, 0x00),
            rgb(0xff, 0xff, 0x00),
            rgb(0x00, 0x00, 0xff),
            rgb(0xff, 0x00, 0xff),
            rgb(0x00, 0xff, 0xff),
            rgb(0xff, 0xff, 0xff),
        ];
        let p = Palette { fg: rgb(0xcc, 0xcc, 0xcc), bg: rgb(0x11, 0x11, 0x11), ansi };
        proof {
            lemma_default_palette(p);
        }
        p
    }
}

/// A level of the 6x6x6 color cube.
pub open spec fn cube_step(v: int) -> u8 {
    if v == 0 {
        0
    } else {
        (55 + 40 * v) as u8
    }
}

/// Color `i` of the 256-color palette: the system colors from `p`, then the color cube, then the
/// grayscale ramp.
pub open spec fn indexed_color(i: int, p: Palette) -> Rgb {
    if i < 16 {
        p.ansi@[i]
    } else if i < 232 {
        Rgb {
            r: cube_step((i - 16) / 36),
            g: cube_step(((i - 16) % 36) / 6),
            b: cube_step((i - 16) % 6),
        }
    } else {
        let level = (8 + 10 * (i - 232)) as u8;
        Rgb { r: level, g: level, b: level }
    }
}

fn step(v: u8) -> (r: u8)
    requires
        v < 6,
    ensures
        r == cube_step(v as int),
{
    if v == 0 {
        0
    } else {
        55 + 40 * v
    }
}

/// Color `i` of the 256-color palette, with the 16 system colors from `palette`.
pub fn xterm_256(i: u8, palette: &Palette) -> (c: Rgb)
    ensures
        c == indexed_color(i as int, *palette),
{
    if i < 16 {
        palette.ansi[i as usize]
    } else if i < 232 {
        let n: u8 = i - 16;
        rgb(step(n / 36), step((n % 36) / 6), step(n % 6))
    } else {
        let level: u8 = 8 + 10 * (i - 232);
        rgb(level, level, level)
    }
}

/// The concrete color of a named one. Bold promotes a normal system color to its bright
/// counterpart, and the default foreground to bright white.
pub open spec fn named(n: NamedColor, p: Palette, default: Rgb, bold: bool) -> Rgb {
    match n {
        NamedColor::System(i) => indexed_color(
            if bold && i < 8 {
                i + 8
            } else {
                i as int
            },
            p,
        ),
        NamedColor::Dim(i) => indexed_color(
            if bold && i < 8 {
                i + 8
            } else {
                i as int
            },
            p,
        ),
        NamedColor::Foreground => if bold {
            indexed_color(15, p)
        } else {
            default
        },
        NamedColor::BrightForeground => default,
        NamedColor::DimForeground => default,
        NamedColor::Background => default,
        NamedColor::Cursor => p.fg,
    }
}

/// Resolves a named color.
pub fn named_color(n: NamedColor, palette: &Palette, default: Rgb, bold: bool) -> (c: Rgb)
    ensures
        c == named(n, *palette, default, bold),
{
    let idx: u8 = match n {
        NamedColor::System(i) => i,
        NamedColor::Dim(i) => i,
        NamedColor::Foreground => {
            return if bold {
                xterm_256(15, palette)
            } else {
                default
            };
        },
        NamedColor::BrightForeground => return default,
        NamedColor::DimForeground => return default,
        NamedColor::Background => return default,
        NamedColor::Cursor => return palette.fg,
    };
    let idx: u8 = if bold && idx < 8 {
        idx + 8
    } else {
        idx
    };
    xterm_256(idx, palette)
}

/// The concrete color of a logical one.
pub open spec fn resolved(c: Color, p: Palette, default: Rgb, bold: bool) -> Rgb {
    match c {
        Color::Spec(rgb) => rgb,
        Color::Indexed(i) => indexed_color(i as int, p),
        Color::Named(n) => named(n, p, default, bold),
    }
}

/// Resolves a logical color against a palette.
pub fn resolve_color(color: Color, palette: &Palette, default: Rgb, bold: bool) -> (c: Rgb)
    ensures
        c == resolved(color, *palette, default, bold),
{
    match color {
        Color::Spec(rgb) => rgb,
        Color::Indexed(i) => xterm_256(i, palette),
        Color::Named(n) => named_color(n, palette, default, bold),
    }
}

/// The named color that an emulator's color code stands for: the system colors count from 0, the
/// semantic colors from 256, the dim colors from 259.
pub open spec fn named_code(code: u16) -> NamedColor {
    if code < 16 {
        NamedColor::System(code as u8)
    } else if code == 257 {
        NamedColor::Background
    } else if code == 258 {
        NamedColor::Cursor
    } else if 259 <= code < 267 {
        NamedColor::Dim((code - 259) as u8)
    } else if code == 267 {
        NamedColor::BrightForeground
    } else if code == 268 {
        NamedColor::DimForeground
    } else {
        NamedColor::Foreground
    }
}

/// Reads an emulator's color code.
pub fn named_from_code(code: u16) -> (n: NamedColor)
    ensures
        n == named_code(code),
{
    if code < 16 {
        NamedColor::System(code as u8)
    } else if code == 257 {
        NamedColor::Background
    } else if code == 258 {
        NamedColor::Cursor
    } else if 259 <= code && code < 267 {
        NamedColor::Dim((code - 259) as u8)
    } else if code == 267 {
        NamedColor::BrightForeground
    } else if code == 268 {
        NamedColor::DimForeground
    } else {
        NamedColor::Foreground
    }
}

/// Re-theming never touches the computed part of the palette: indices from 16 on resolve the same
/// under every palette.
pub proof fn cube_and_ramp_ignore_the_palette(i: int, p: Palette, q: Palette)
    requires
        16 <= i < 256,
    ensures
        indexed_color(i, p) == indexed_color(i, q),
{
}

} // verus!
