//! Payload decoders: base64 and percent escapes.
use vstd::prelude::*;

verus! {

// ---------------------------------------------------------------------------
// Base64.
// ---------------------------------------------------------------------------

/// The value of a base64 alphabet character.
pub open spec fn sextet(c: u8) -> Option<u8> {
    if 65 <= c <= 90 {
        Some((c - 65) as u8)
    } else if 97 <= c <= 122 {
        Some((c - 97 + 26) as u8)
    } else if 48 <= c <= 57 {
        Some((c - 48 + 52) as u8)
    } else if c == 43 {
        Some(62)
    } else if c == 47 {
        Some(63)
    } else {
        None
    }
}

/// Padding and ASCII white space, which decoding skips.
pub open spec fn base64_skipped(c: u8) -> bool {
    c == 61 || c == 32 || c == 9 || c == 10 || c == 12 || c == 13
}

/// The six-bit groups that base64 text spells, or `None` where it holds a foreign character.
pub open spec fn sextets(s: Seq<u8>) -> Option<Seq<u8>>
    decreases s.len(),
{
    if s.len() == 0 {
        Some(Seq::empty())
    } else {
        match sextets(s.drop_last()) {
            None => None,
            Some(v) => if base64_skipped(s.last()) {
                Some(v)
            } else {
                match sextet(s.last()) {
                    Some(x) => Some(v.push(x)),
                    None => None,
                }
            },
        }
    }
}

/// Byte `i` of the bit stream that six-bit groups form.
pub open spec fn stream_byte(v: Seq<u8>, i: int) -> u8 {
    let q = i / 3 * 4;
    if i % 3 == 0 {
        (v[q] * 4 + v[q + 1] / 16) as u8
    } else if i % 3 == 1 {
        ((v[q + 1] % 16) * 16 + v[q + 2] / 4) as u8
    } else {
        ((v[q + 2] % 4) * 64 + v[q + 3]) as u8
    }
}

/// The whole bytes of the bit stream that six-bit groups form.
pub open spec fn stream_bytes(v: Seq<u8>) -> Seq<u8> {
    Seq::new((v.len() * 3 / 4) as nat, |i: int| stream_byte(v, i))
}

/// What base64 text decodes to, if it is well formed.
pub open spec fn base64_decoded(s: Seq<u8>) -> Option<Seq<u8>> {
    match sextets(s) {
        Some(v) => Some(stream_bytes(v)),
        None => None,
    }
}

proof fn lemma_sextets_bad(s: Seq<u8>, i: int)
    requires
        0 <= i < s.len(),
        !base64_skipped(s[i]),
        sextet(s[i]) is None,
    ensures
        sextets(s) is None,
    decreases s.len(),
{
    if i < s.len() - 1 {
        lemma_sextets_bad(s.drop_last(), i);
    }
}

fn sextet_of(c: u8) -> (r: Option<u8>)
    ensures
        r == sextet(c),
        r matches Some(v) ==> v < 64,
{
    if 65 <= c && c <= 90 {
        Some(c - 65)
    } else if 97 <= c && c <= 122 {
        Some(c - 97 + 26)
    } else if 48 <= c && c <= 57 {
        Some(c - 48 + 52)
    } else if c == 43 {
        Some(62)
    } else if c == 47 {
        Some(63)
    } else {
        None
    }
}

/// Decodes base64 (RFC 4648). Padding may be missing and white space is skipped; a character
/// outside the alphabet makes the input malformed.
pub fn base64_decode(input: &[u8]) -> (r: Option<Vec<u8>>)
    ensures
        match r {
            Some(v) => base64_decoded(input@) == Some(v@),
            None => base64_decoded(input@) == None::<Seq<u8>>,
        },
{
    let mut out: Vec<u8> = Vec::new();
    let mut phase: u8 = 0;
    let mut acc: u8 = 0;
    let mut i: usize = 0;
    let ghost mut v: Seq<u8> = Seq::empty();
    while i < input.len()
        invariant
            i <= input@.len(),
            sextets(input@.take(i as int)) == Some(v),
            forall|j: int| 0 <= j < v.len() ==> #[trigger] v[j] < 64,
            phase == v.len() % 4,
            out@ =~= stream_bytes(v),
            phase == 1 ==> acc == v.last(),
            phase == 2 ==> acc == v.last() % 16,
            phase == 3 ==> acc == v.last() % 4,
        decreases input@.len() - i,
    {
        let c: u8 = input[i];
        assert(input@.take(i + 1).drop_last() =~= input@.take(i as int));
        assert(input@.take(i + 1).last() == c);
        i = i + 1;
        if c == 61 || c == 32 || c == 9 || c == 10 || c == 12 || c == 13 {
            continue;
        }
        let x: u8 = match sextet_of(c) {
            Some(x) => x,
            None => {
                proof {
                    lemma_sextets_bad(input@, i - 1);
                }
                return None;
            },
        };
        let ghost w = v.push(x);
        if phase == 0 {
            acc = x;
            phase = 1;
        } else if phase == 1 {
            out.push(acc * 4 + x / 16);
            acc = x % 16;
            phase = 2;
        } else if phase == 2 {
            out.push(acc * 16 + x / 4);
            acc = x % 4;
            phase = 3;
        } else {
            out.push(acc * 64 + x);
            phase = 0;
        }
        proof {
            assert(out@ =~= stream_bytes(w));
            v = w;
        }
    }
    assert(input@.take(i as int) =~= input@);
    Some(out)
}

/// The base64 alphabet character of a six-bit value.
pub open spec fn base64_char(v: int) -> u8 {
    if v < 26 {
        (65 + v) as u8
    } else if v < 52 {
        (97 + v - 26) as u8
    } else if v < 62 {
        (48 + v - 52) as u8
    } else if v == 62 {
        43
    } else {
        47
    }
}

/// Standard padded base64.
pub open spec fn base64_encoded(b: Seq<u8>) -> Seq<u8>
    decreases b.len(),
{
    if b.len() == 0 {
        Seq::empty()
    } else if b.len() == 1 {
        seq![base64_char(b[0] as int / 4), base64_char((b[0] % 4) * 16), 61u8, 61u8]
    } else if b.len() == 2 {
        seq![
            base64_char(b[0] as int / 4),
            base64_char((b[0] % 4) * 16 + b[1] / 16),
            base64_char((b[1] % 16) * 4),
            61u8,
        ]
    } else {
        seq![
            base64_char(b[0] as int / 4),
            base64_char((b[0] % 4) * 16 + b[1] / 16),
            base64_char((b[1] % 16) * 4 + b[2] / 64),
            base64_char((b[2] % 64) as int),
        ] + base64_encoded(b.skip(3))
    }
}

proof fn lemma_sextets_concat(a: Seq<u8>, b: Seq<u8>)
    ensures
        match (sextets(a), sextets(b)) {
            (Some(x), Some(y)) => sextets(a + b) == Some(x + y),
            _ => sextets(a + b) is None,
        },
    decreases b.len(),
{
    if b.len() == 0 {
        assert(a + b =~= a);
        if let Some(x) = sextets(a) {
            assert(x + Seq::<u8>::empty() =~= x);
        }
    } else {
        lemma_sextets_concat(a, b.drop_last());
        assert((a + b).drop_last() =~= a + b.drop_last());
        if let (Some(x), Some(y)) = (sextets(a), sextets(b.drop_last())) {
            if let Some(z) = sextet(b.last()) {
                assert(x + y.push(z) =~= (x + y).push(z));
            }
        }
    }
}

proof fn lemma_sextets_one(c: u8)
    ensures
        base64_skipped(c) ==> sextets(seq![c]) == Some(Seq::<u8>::empty()),
        !base64_skipped(c) && sextet(c) is Some ==> sextets(seq![c]) == Some(seq![sextet(c)->0]),
{
    let s = seq![c];
    assert(s.drop_last() =~= Seq::empty());
    assert(sextets(s.drop_last()) == Some(Seq::<u8>::empty()));
    if let Some(x) = sextet(c) {
        assert(Seq::<u8>::empty().push(x) =~= seq![x]);
    }
}

proof fn lemma_sextets_four(a: u8, b: u8, c: u8, d: u8)
    ensures
        sextets(seq![a, b, c, d]) == match (
            sextets(seq![a]),
            sextets(seq![b]),
            sextets(seq![c]),
            sextets(seq![d]),
        ) {
            (Some(p), Some(q), Some(r), Some(s)) => Some(p + q + r + s),
            _ => None,
        },
{
    lemma_sextets_concat(seq![a], seq![b]);
    assert(seq![a] + seq![b] =~= seq![a, b]);
    lemma_sextets_concat(seq![a, b], seq![c]);
    assert(seq![a, b] + seq![c] =~= seq![a, b, c]);
    lemma_sextets_concat(seq![a, b, c], seq![d]);
    assert(seq![a, b, c] + seq![d] =~= seq![a, b, c, d]);
}

proof fn lemma_char(v: int)
    requires
        0 <= v < 64,
    ensures
        sextets(seq![base64_char(v)]) == Some(seq![v as u8]),
{
    lemma_sextets_one(base64_char(v));
}

proof fn lemma_encoded_one(b: Seq<u8>)
    requires
        b.len() == 1,
    ensures
        base64_decoded(base64_encoded(b)) == Some(b),
{
    let i0 = b[0] as int / 4;
    let i1 = (b[0] % 4) * 16;
    lemma_char(i0);
    lemma_char(i1);
    lemma_sextets_one(61);
    lemma_sextets_four(base64_char(i0), base64_char(i1), 61, 61);
    let v = seq![i0 as u8] + seq![i1 as u8] + Seq::<u8>::empty() + Seq::<u8>::empty();
    assert(v =~= seq![i0 as u8, i1 as u8]);
    assert(stream_bytes(v) =~= b);
}

proof fn lemma_encoded_two(b: Seq<u8>)
    requires
        b.len() == 2,
    ensures
        base64_decoded(base64_encoded(b)) == Some(b),
{
    let i0 = b[0] as int / 4;
    let i1 = (b[0] % 4) * 16 + b[1] / 16;
    let i2 = (b[1] % 16) * 4;
    lemma_char(i0);
    lemma_char(i1);
    lemma_char(i2);
    lemma_sextets_one(61);
    lemma_sextets_four(base64_char(i0), base64_char(i1), base64_char(i2), 61);
    let v = seq![i0 as u8] + seq![i1 as u8] + seq![i2 as u8] + Seq::<u8>::empty();
    assert(v =~= seq![i0 as u8, i1 as u8, i2 as u8]);
    assert(stream_bytes(v) =~= b);
}

proof fn lemma_encoded_group(b0: u8, b1: u8, b2: u8) -> (v: Seq<u8>)
    ensures
        v.len() == 4,
        sextets(
            seq![
                base64_char(b0 as int / 4),
                base64_char((b0 % 4) * 16 + b1 / 16),
                base64_char((b1 % 16) * 4 + b2 / 64),
                base64_char((b2 % 64) as int),
            ],
        ) == Some(v),
        stream_byte(v, 0) == b0,
        stream_byte(v, 1) == b1,
        stream_byte(v, 2) == b2,
{
    let i0 = b0 as int / 4;
    let i1 = (b0 % 4) * 16 + b1 / 16;
    let i2 = (b1 % 16) * 4 + b2 / 64;
    let i3 = (b2 % 64) as int;
    lemma_char(i0);
    lemma_char(i1);
    lemma_char(i2);
    lemma_char(i3);
    lemma_sextets_four(base64_char(i0), base64_char(i1), base64_char(i2), base64_char(i3));
    let v = seq![i0 as u8] + seq![i1 as u8] + seq![i2 as u8] + seq![i3 as u8];
    assert(v =~= seq![i0 as u8, i1 as u8, i2 as u8, i3 as u8]);
    v
}

proof fn lemma_stream_behind_group(v: Seq<u8>, w: Seq<u8>, i: int)
    requires
        v.len() == 4,
        3 <= i,
        i - 3 < stream_bytes(w).len(),
    ensures
        stream_byte(v + w, i) == stream_byte(w, i - 3),
{
    let q = i / 3 * 4;
    assert((i - 3) / 3 * 4 == q - 4);
    assert((i - 3) % 3 == i % 3);
    assert(i - 3 < w.len() * 3 / 4);
    if i % 3 == 0 {
        assert((v + w)[q] == w[q - 4]);
        assert((v + w)[q + 1] == w[q - 3]);
    } else if i % 3 == 1 {
        assert((v + w)[q + 1] == w[q - 3]);
        assert((v + w)[q + 2] == w[q - 2]);
    } else {
        assert((v + w)[q + 2] == w[q - 2]);
        assert((v + w)[q + 3] == w[q - 1]);
    }
}

proof fn lemma_stream_group(v: Seq<u8>, w: Seq<u8>, b: Seq<u8>)
    requires
        v.len() == 4,
        b.len() >= 3,
        stream_byte(v, 0) == b[0],
        stream_byte(v, 1) == b[1],
        stream_byte(v, 2) == b[2],
        stream_bytes(w) == b.skip(3),
    ensures
        stream_bytes(v + w) == b,
{
    let s = stream_bytes(v + w);
    assert(stream_bytes(w).len() == b.len() - 3);
    assert(s.len() == b.len());
    assert forall|i: int| 0 <= i < b.len() implies s[i] == b[i] by {
        if i >= 3 {
            lemma_stream_behind_group(v, w, i);
            assert(stream_bytes(w)[i - 3] == b.skip(3)[i - 3]);
        } else {
            assert(stream_byte(v + w, i) == stream_byte(v, i));
        }
    }
    assert(s =~= b);
}

/// Decoding gives back what base64 encoded, for every byte sequence.
pub proof fn base64_decode_inverts_encode(b: Seq<u8>)
    ensures
        base64_decoded(base64_encoded(b)) == Some(b),
    decreases b.len(),
{
    if b.len() == 0 {
        assert(stream_bytes(Seq::empty()) =~= b);
    } else if b.len() == 1 {
        lemma_encoded_one(b);
    } else if b.len() == 2 {
        lemma_encoded_two(b);
    } else {
        let rest = b.skip(3);
        base64_decode_inverts_encode(rest);
        let v = lemma_encoded_group(b[0], b[1], b[2]);
        let head = seq![
            base64_char(b[0] as int / 4),
            base64_char((b[0] % 4) * 16 + b[1] / 16),
            base64_char((b[1] % 16) * 4 + b[2] / 64),
            base64_char((b[2] % 64) as int),
        ];
        lemma_sextets_concat(head, base64_encoded(rest));
        lemma_stream_group(v, sextets(base64_encoded(rest))->0, b);
    }
}

/// Text without the padding at its end.
pub open spec fn unpadded(s: Seq<u8>) -> Seq<u8>
    decreases s.len(),
{
    if s.len() > 0 && s.last() == 61 {
        unpadded(s.drop_last())
    } else {
        s
    }
}

proof fn lemma_unpadded(s: Seq<u8>)
    ensures
        sextets(unpadded(s)) == sextets(s),
    decreases s.len(),
{
    if s.len() > 0 && s.last() == 61 {
        lemma_unpadded(s.drop_last());
    }
}

/// Padding may be missing: decoding gives back what base64 encoded without it, too.
pub proof fn base64_decodes_without_padding(b: Seq<u8>)
    ensures
        base64_decoded(unpadded(base64_encoded(b))) == Some(b),
{
    base64_decode_inverts_encode(b);
    lemma_unpadded(base64_encoded(b));
}

/// Whether a byte has no place in base64 text: it is no letter, digit, plus, slash, padding or
/// white space.
pub open spec fn foreign(c: u8) -> bool {
    !base64_skipped(c) && sextet(c) is None
}

/// Base64 text is refused exactly where it holds a foreign byte.
pub proof fn base64_refuses_foreign_bytes(s: Seq<u8>)
    ensures
        base64_decoded(s) is None <==> exists|i: int| 0 <= i < s.len() && foreign(#[trigger] s[i]),
    decreases s.len(),
{
    if exists|i: int| 0 <= i < s.len() && foreign(#[trigger] s[i]) {
        let i = choose|i: int| 0 <= i < s.len() && foreign(#[trigger] s[i]);
        lemma_sextets_bad(s, i);
    }
    if s.len() > 0 {
        let most = s.drop_last();
        base64_refuses_foreign_bytes(most);
        if base64_decoded(most) is None {
            let i = choose|i: int| 0 <= i < most.len() && foreign(#[trigger] most[i]);
            assert(foreign(s[i]));
        } else if base64_decoded(s) is None {
            assert(foreign(s[s.len() - 1]));
        }
    }
}

// ---------------------------------------------------------------------------
// Percent escapes.
// ---------------------------------------------------------------------------

/// The value of a hexadecimal digit.
pub open spec fn hex_digit(b: u8) -> Option<u8> {
    if 48 <= b <= 57 {
        Some((b - 48) as u8)
    } else if 97 <= b <= 102 {
        Some((b - 97 + 10) as u8)
    } else if 65 <= b <= 70 {
        Some((b - 65 + 10) as u8)
    } else {
        None
    }
}

/// The value of a hexadecimal digit.
pub fn hex_val(b: u8) -> (r: Option<u8>)
    ensures
        r == hex_digit(b),
        r matches Some(v) ==> v < 16,
{
    if 48 <= b && b <= 57 {
        Some(b - 48)
    } else if 97 <= b && b <= 102 {
        Some(b - 97 + 10)
    } else if 65 <= b && b <= 70 {
        Some(b - 65 + 10)
    } else {
        None
    }
}

/// The byte that a percent escape at the start of `b` stands for, where there is one.
pub open spec fn percent_at(b: Seq<u8>) -> Option<u8> {
    if b.len() >= 3 && b[0] == 37 {
        match (hex_digit(b[1]), hex_digit(b[2])) {
            (Some(hi), Some(lo)) => Some((hi * 16 + lo) as u8),
            _ => None,
        }
    } else {
        None
    }
}

/// The bytes that percent-escaped bytes stand for. Invalid escapes stand for themselves.
pub open spec fn percent_decoded(b: Seq<u8>) -> Seq<u8>
    decreases b.len(),
{
    if b.len() == 0 {
        Seq::empty()
    } else {
        match percent_at(b) {
            Some(v) => seq![v] + percent_decoded(b.skip(3)),
            None => seq![b[0]] + percent_decoded(b.skip(1)),
        }
    }
}

/// Decodes percent escapes (RFC 3986). Invalid escapes pass through.
pub fn percent_decode_bytes(bytes: &[u8]) -> (out: Vec<u8>)
    ensures
        out@ == percent_decoded(bytes@),
{
    let mut out: Vec<u8> = Vec::new();
    let mut i: usize = 0;
    let n: usize = bytes.len();
    assert(bytes@.skip(0) =~= bytes@);
    assert(out@ + percent_decoded(bytes@) =~= percent_decoded(bytes@));
    while i < n
        invariant
            i <= n,
            n == bytes@.len(),
            out@ + percent_decoded(bytes@.skip(i as int)) == percent_decoded(bytes@),
        decreases n - i,
    {
        let ghost d = bytes@.skip(i as int);
        let ghost before = out@;
        if bytes[i] == 37 && n - i >= 3 {
            if let (Some(hi), Some(lo)) = (hex_val(bytes[i + 1]), hex_val(bytes[i + 2])) {
                out.push(hi * 16 + lo);
                assert(percent_at(d) == Some((hi * 16 + lo) as u8));
                assert(d.skip(3) =~= bytes@.skip(i + 3));
                assert(out@ + percent_decoded(d.skip(3)) =~= before + percent_decoded(d));
                i = i + 3;
                continue;
            }
        }
        out.push(bytes[i]);
        assert(percent_at(d) is None);
        assert(d.skip(1) =~= bytes@.skip(i + 1));
        assert(out@ + percent_decoded(d.skip(1)) =~= before + percent_decoded(d));
        i = i + 1;
    }
    assert(bytes@.skip(i as int) =~= Seq::empty());
    assert(out@ + Seq::<u8>::empty() =~= out@);
    out
}

/// The uppercase hexadecimal digit of a four-bit value.
pub open spec fn hex_upper(v: int) -> u8 {
    if v < 10 {
        (48 + v) as u8
    } else {
        (65 + v - 10) as u8
    }
}

/// A percent-encoding of `b` that escapes the bytes that `escape` selects, and `%` in any case.
pub open spec fn percent_encoded(b: Seq<u8>, escape: spec_fn(u8) -> bool) -> Seq<u8>
    decreases b.len(),
{
    if b.len() == 0 {
        Seq::empty()
    } else if b[0] == 37 || escape(b[0]) {
        seq![37u8, hex_upper(b[0] as int / 16), hex_upper((b[0] % 16) as int)] + percent_encoded(
            b.skip(1),
            escape,
        )
    } else {
        seq![b[0]] + percent_encoded(b.skip(1), escape)
    }
}

/// Bytes without a percent sign stand for themselves.
pub proof fn lemma_no_escapes(b: Seq<u8>)
    requires
        !b.contains(37u8),
    ensures
        percent_decoded(b) == b,
    decreases b.len(),
{
    if b.len() > 0 {
        let rest = b.skip(1);
        assert(b.contains(b[0]));
        assert forall|x: u8| rest.contains(x) implies b.contains(x) by {
            let i = choose|i: int| 0 <= i < rest.len() && rest[i] == x;
            assert(b[i + 1] == x);
        }
        lemma_no_escapes(rest);
        assert(seq![b[0]] + rest =~= b);
    } else {
        assert(b =~= Seq::empty());
    }
}

/// Decoding gives back what percent-encoding wrote, whichever bytes it chose to escape.
pub proof fn percent_decode_inverts_encode(b: Seq<u8>, escape: spec_fn(u8) -> bool)
    ensures
        percent_decoded(percent_encoded(b, escape)) == b,
    decreases b.len(),
{
    if b.len() == 0 {
        assert(percent_decoded(percent_encoded(b, escape)) =~= b);
    } else {
        let rest = b.skip(1);
        let e = percent_encoded(b, escape);
        percent_decode_inverts_encode(rest, escape);
        if b[0] == 37 || escape(b[0]) {
            assert(e.skip(3) =~= percent_encoded(rest, escape));
            assert(percent_at(e) == Some(b[0]));
        } else {
            assert(e.skip(1) =~= percent_encoded(rest, escape));
        }
        assert(seq![b[0]] + rest =~= b);
    }
}

} // verus!
