//! Pictures as bitmap files.
use vstd::prelude::*;

verus! {

/// A number in `n` bytes, the lowest first.
pub open spec fn little(v: int, n: nat) -> Seq<u8>
    decreases n,
{
    if n == 0 {
        Seq::empty()
    } else {
        seq![(v % 256) as u8] + little(v / 256, (n - 1) as nat)
    }
}

/// The bytes of a row: three for each pixel, filled up to a multiple of four.
pub open spec fn row_bytes(w: int) -> int {
    (3 * w + 3) / 4 * 4
}

/// The header of a file: its size, where the pixels start, and the picture's format of 24 bits per
/// pixel without compression.
pub open spec fn header(w: int, h: int) -> Seq<u8> {
    seq![0x42u8, 0x4du8] + little(54 + row_bytes(w) * h, 4) + little(0, 4) + little(54, 4) + little(
        40,
        4,
    ) + little(w, 4) + little(h, 4) + little(1, 2) + little(24, 2) + Seq::new(24, |i: int| 0u8)
}

/// The byte of a picture in a row at an offset: blue, green and red of each pixel, then zeros.
pub open spec fn row_byte(w: int, rgba: Seq<u8>, y: int, k: int) -> u8 {
    if k < 3 * w {
        rgba[4 * (y * w + k / 3) + 2 - k % 3]
    } else {
        0u8
    }
}

/// A row of a picture.
pub open spec fn row(w: int, rgba: Seq<u8>, y: int) -> Seq<u8> {
    Seq::new(row_bytes(w) as nat, |k: int| row_byte(w, rgba, y, k))
}

/// The rows of a picture from the last one up to row `y`.
pub open spec fn rows_from(w: int, h: int, rgba: Seq<u8>, y: int) -> Seq<u8>
    decreases h - y,
{
    if y >= h {
        Seq::empty()
    } else {
        rows_from(w, h, rgba, y + 1) + row(w, rgba, y)
    }
}

/// A bitmap file of a picture, its rows from the bottom up.
pub open spec fn bitmap(w: int, h: int, rgba: Seq<u8>) -> Seq<u8> {
    header(w, h) + rows_from(w, h, rgba, 0)
}

fn push_little(out: &mut Vec<u8>, v: u32, n: u8)
    requires
        n <= 4,
    ensures
        final(out)@ == old(out)@ + little(v as int, n as nat),
{
    let ghost before = out@;
    let mut rest: u32 = v;
    let mut i: u8 = 0;
    assert(out@ =~= before);
    assert(before + little(v as int, n as nat) =~= out@ + little(v as int, n as nat));
    while i < n
        invariant
            i <= n,
            before + little(v as int, n as nat) == out@ + little(rest as int, (n - i) as nat),
        decreases n - i,
    {
        let ghost had = out@;
        let low: u8 = (rest % 256) as u8;
        out.push(low);
        assert(had + (seq![low] + little(rest as int / 256, (n - i - 1) as nat)) =~= out@ + little(
            rest as int / 256,
            (n - i - 1) as nat,
        ));
        rest = rest / 256;
        i = i + 1;
    }
    assert(out@ + little(rest as int, 0) =~= out@);
}

/// A pixel lies within the picture.
proof fn lemma_pixel(w: int, h: int, y: int, x: int)
    requires
        0 <= x < w,
        0 <= y < h,
    ensures
        0 <= y * w + x < w * h,
{
    assert(0 <= y * w + x < w * h) by (nonlinear_arith)
        requires
            0 <= x < w,
            0 <= y < h,
    ;
}

fn push_row(out: &mut Vec<u8>, w: u32, h: u32, rgba: &[u8], y: u32)
    requires
        y < h,
        4 * (w * h) <= rgba@.len(),
        row_bytes(w as int) <= u32::MAX,
    ensures
        final(out)@ == old(out)@ + row(w as int, rgba@, y as int),
{
    let ghost before = out@;
    let ghost full = row(w as int, rgba@, y as int);
    let _fits: usize = rgba.len();
    let mut x: u32 = 0;
    assert(full.take(0) =~= Seq::empty());
    assert(out@ =~= before + full.take(0));
    while x < w
        invariant
            x <= w,
            y < h,
            4 * (w * h) <= rgba@.len() <= usize::MAX,
            full == row(w as int, rgba@, y as int),
            out@ == before + full.take(3 * x),
        decreases w - x,
    {
        proof {
            lemma_pixel(w as int, h as int, y as int, x as int);
            assert(0 <= y * w <= y * w + x) by (nonlinear_arith)
                requires
                    0 <= y,
                    0 <= w,
                    0 <= x,
            ;
        }
        let start: usize = y as usize * w as usize;
        let o: usize = (start + x as usize) * 4;
        let ghost had = out@;
        out.push(rgba[o + 2]);
        out.push(rgba[o + 1]);
        out.push(rgba[o]);
        let ghost k = 3 * x;
        assert(full[k] == rgba@[o + 2]);
        assert(full[k + 1] == rgba@[o + 1]);
        assert(full[k + 2] == rgba@[o as int]);
        assert(before + full.take(k + 3) =~= out@);
        x = x + 1;
    }
    let mut written: u64 = 3 * (w as u64);
    while written % 4 != 0
        invariant
            3 * w <= written <= row_bytes(w as int),
            full == row(w as int, rgba@, y as int),
            out@ == before + full.take(written as int),
        decreases row_bytes(w as int) - written,
    {
        out.push(0);
        assert(full[written as int] == 0u8);
        assert(before + full.take(written + 1) =~= out@);
        written = written + 1;
    }
    assert(full.take(written as int) =~= full);
}

/// A bitmap file of a picture of `w` by `h` pixels, each four bytes of red, green, blue and
/// opacity. The file's size has to fit into its header.
pub fn write_bmp(w: u32, h: u32, rgba: &[u8]) -> (out: Vec<u8>)
    requires
        4 * (w * h) <= rgba@.len(),
        54 + row_bytes(w as int) * h <= u32::MAX,
        row_bytes(w as int) <= u32::MAX,
    ensures
        out@ == bitmap(w as int, h as int, rgba@),
{
    let row_len: u64 = (3 * (w as u64) + 3) / 4 * 4;
    let size: u64 = 54 + row_len * (h as u64);
    let mut out: Vec<u8> = Vec::new();
    out.push(0x42);
    out.push(0x4d);
    assert(out@ =~= seq![0x42u8, 0x4du8]);
    push_little(&mut out, size as u32, 4);
    push_little(&mut out, 0, 4);
    push_little(&mut out, 54, 4);
    push_little(&mut out, 40, 4);
    push_little(&mut out, w, 4);
    push_little(&mut out, h, 4);
    push_little(&mut out, 1, 2);
    push_little(&mut out, 24, 2);
    let ghost had = out@;
    let ghost zeros = Seq::new(24, |i: int| 0u8);
    let mut i: usize = 0;
    assert(out@ =~= had + zeros.take(0));
    while i < 24
        invariant
            i <= 24,
            zeros == Seq::new(24, |i: int| 0u8),
            out@ == had + zeros.take(i as int),
        decreases 24 - i,
    {
        out.push(0);
        i = i + 1;
        assert(out@ =~= had + zeros.take(i as int));
    }
    assert(zeros.take(24) =~= zeros);
    assert(out@ == header(w as int, h as int));
    let mut y: u32 = h;
    assert(out@ =~= header(w as int, h as int) + rows_from(w as int, h as int, rgba@, h as int));
    while y > 0
        invariant
            y <= h,
            4 * (w * h) <= rgba@.len(),
            row_bytes(w as int) <= u32::MAX,
            out@ == header(w as int, h as int) + rows_from(w as int, h as int, rgba@, y as int),
        decreases y,
    {
        y = y - 1;
        let ghost had = out@;
        push_row(&mut out, w, h, rgba, y);
        assert(out@ =~= header(w as int, h as int) + rows_from(
            w as int,
            h as int,
            rgba@,
            y as int,
        ));
    }
    out
}

/// The pixels that a picture of a pane takes: room for every cell, and never none.
pub open spec fn picture_side(cells: int, cell: int) -> int {
    if cells == 0 {
        1
    } else {
        cells * cell
    }
}

/// The size of the picture of a pane.
pub fn picture_size(cols: u16, rows: u16) -> (r: (u32, u32))
    ensures
        r.0 == picture_side(cols as int, 12),
        r.1 == picture_side(rows as int, 24),
{
    let w: u32 = cols as u32 * 12;
    let h: u32 = rows as u32 * 24;
    (
        if w == 0 {
            1
        } else {
            w
        },
        if h == 0 {
            1
        } else {
            h
        },
    )
}

// ---------------------------------------------------------------------------
// Laws.
// ---------------------------------------------------------------------------

/// A number takes as many bytes as are asked for.
proof fn lemma_little_len(v: int, n: nat)
    ensures
        little(v, n).len() == n,
    decreases n,
{
    if n > 0 {
        lemma_little_len(v / 256, (n - 1) as nat);
    }
}

/// A file is as long as its header says.
pub proof fn files_are_as_long_as_they_say(w: int, h: int, rgba: Seq<u8>)
    requires
        0 <= w,
        0 <= h,
    ensures
        header(w, h).len() == 54,
        bitmap(w, h, rgba).len() == 54 + row_bytes(w) * h,
{
    lemma_little_len(54 + row_bytes(w) * h, 4);
    lemma_little_len(0, 4);
    lemma_little_len(54, 4);
    lemma_little_len(40, 4);
    lemma_little_len(w, 4);
    lemma_little_len(h, 4);
    lemma_little_len(1, 2);
    lemma_little_len(24, 2);
    lemma_rows_len(w, h, rgba, 0);
}

proof fn lemma_rows_len(w: int, h: int, rgba: Seq<u8>, y: int)
    requires
        0 <= w,
        0 <= y <= h,
    ensures
        rows_from(w, h, rgba, y).len() == row_bytes(w) * (h - y),
    decreases h - y,
{
    if y < h {
        lemma_rows_len(w, h, rgba, y + 1);
        assert(row_bytes(w) * (h - y - 1) + row_bytes(w) == row_bytes(w) * (h - y))
            by (nonlinear_arith);
    } else {
        assert(row_bytes(w) * (h - y) == 0) by (nonlinear_arith)
            requires
                h == y,
        ;
    }
}

} // verus!
