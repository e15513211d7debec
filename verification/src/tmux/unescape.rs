//! Octal unescaping for `%output` data.
//!
//! tmux control mode writes every byte below 0x20, and `\` itself, as a backslash and exactly
//! three octal digits. Everything else, UTF-8 included, arrives as it is.
use vstd::prelude::*;

verus! {

/// Whether a byte is an octal digit.
pub open spec fn octal(b: u8) -> bool {
    48 <= b <= 55
}

/// The byte that an escape at the start of `d` stands for, where there is one: a backslash,
/// three octal digits, and a value that fits a byte.
pub open spec fn escape_at(d: Seq<u8>) -> Option<u8> {
    if d.len() >= 4 && d[0] == 92 && octal(d[1]) && octal(d[2]) && octal(d[3]) {
        let v = (d[1] - 48) * 64 + (d[2] - 48) * 8 + (d[3] - 48);
        if v <= 0xff {
            Some(v as u8)
        } else {
            None
        }
    } else {
        None
    }
}

/// The bytes that escaped data stands for: each escape becomes its byte, and any other byte
/// (a lone backslash too) stands for itself.
pub open spec fn unescaped(d: Seq<u8>) -> Seq<u8>
    decreases d.len(),
{
    if d.len() == 0 {
        Seq::empty()
    } else {
        match escape_at(d) {
            Some(v) => seq![v] + unescaped(d.skip(4)),
            None => seq![d[0]] + unescaped(d.skip(1)),
        }
    }
}

/// How control mode writes one byte.
pub open spec fn escape_byte(b: u8) -> Seq<u8> {
    if b < 0x20 || b == 92 {
        seq![92u8, (48 + b / 64) as u8, (48 + (b / 8) % 8) as u8, (48 + b % 8) as u8]
    } else {
        seq![b]
    }
}

/// How control mode writes a byte sequence.
pub open spec fn escaped(d: Seq<u8>) -> Seq<u8>
    decreases d.len(),
{
    if d.len() == 0 {
        Seq::empty()
    } else {
        escape_byte(d[0]) + escaped(d.skip(1))
    }
}

/// Unescaping gives back what control mode escaped, for every byte sequence.
pub proof fn unescape_inverts_escape(d: Seq<u8>)
    ensures
        unescaped(escaped(d)) == d,
    decreases d.len(),
{
    if d.len() > 0 {
        let rest = d.skip(1);
        let e = escaped(d);
        unescape_inverts_escape(rest);
        let b = d[0];
        if b < 0x20 || b == 92 {
            assert(e.skip(4) =~= escaped(rest));
            assert(escape_at(e) == Some(b));
        } else {
            assert(e.skip(1) =~= escaped(rest));
        }
        assert(seq![b] + rest =~= d);
    } else {
        assert(unescaped(escaped(d)) =~= d);
    }
}

/// Data without a backslash is not changed.
pub proof fn unescape_keeps_plain_bytes(d: Seq<u8>)
    requires
        forall|i: int| 0 <= i < d.len() ==> d[i] != 92,
    ensures
        unescaped(d) == d,
    decreases d.len(),
{
    if d.len() > 0 {
        unescape_keeps_plain_bytes(d.skip(1));
        assert(seq![d[0]] + d.skip(1) =~= d);
    } else {
        assert(unescaped(d) =~= d);
    }
}

/// Whether a byte is an octal digit.
fn is_octal(b: u8) -> (r: bool)
    ensures
        r == octal(b),
{
    48 <= b && b <= 55
}

/// Decodes control-mode octal escapes in `%output` data.
///
/// A backslash followed by exactly three octal digits with a value up to 0xff becomes that byte;
/// every other byte passes through.
pub fn unescape(data: &[u8]) -> (out: Vec<u8>)
    ensures
        out@ == unescaped(data@),
{
    let mut out: Vec<u8> = Vec::new();
    let mut i: usize = 0;
    let n: usize = data.len();
    assert(data@.skip(0) =~= data@);
    assert(out@ + unescaped(data@) =~= unescaped(data@));
    while i < n
        invariant
            i <= n,
            n == data@.len(),
            out@ + unescaped(data@.skip(i as int)) == unescaped(data@),
        decreases n - i,
    {
        let ghost d = data@.skip(i as int);
        let ghost before = out@;
        if data[i] == 92 && n - i >= 4 && is_octal(data[i + 1]) && is_octal(data[i + 2])
            && is_octal(data[i + 3]) {
            let value: u16 = (data[i + 1] - 48) as u16 * 64 + (data[i + 2] - 48) as u16 * 8 + (data[i
                + 3] - 48) as u16;
            if value <= 0xff {
                out.push(value as u8);
                assert(escape_at(d) == Some(value as u8));
                assert(d.skip(4) =~= data@.skip(i + 4));
                assert(out@ + unescaped(d.skip(4)) =~= before + unescaped(d));
                i = i + 4;
                continue;
            }
        }
        out.push(data[i]);
        assert(escape_at(d) is None);
        assert(d.skip(1) =~= data@.skip(i + 1));
        assert(out@ + unescaped(d.skip(1)) =~= before + unescaped(d));
        i = i + 1;
    }
    assert(data@.skip(i as int) =~= Seq::empty());
    assert(out@ + Seq::<u8>::empty() =~= out@);
    out
}

} // verus!
