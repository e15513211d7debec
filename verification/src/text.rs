//! Text and byte helpers that the protocol code shares.
//!
//! Text is modelled as `Seq<char>` and bytes as `Seq<u8>`. Searches are written as recursive
//! scans from an index, which is what the executable loops compute.
use vstd::prelude::*;
use vstd::string::*;
use vstd::utf8::*;

verus! {

// ---------------------------------------------------------------------------
// Conversions between strings, characters and bytes.
// ---------------------------------------------------------------------------

/// Appends one character: `String::push`. Trusted: the string afterwards is the string before
/// followed by `c`.
#[verifier::external_body]
pub(crate) fn push_char(s: &mut String, c: char)
    ensures
        final(s)@ == old(s)@.push(c),
{
    s.push(c);
}

/// What `String::from_utf8_lossy` makes of a byte sequence: the decoded text, with the
/// replacement character standing for each ill-formed part.
pub uninterp spec fn utf8_lossy(bytes: Seq<u8>) -> Seq<char>;

/// Decodes bytes with `String::from_utf8_lossy`. Trusted: the text is a function of the bytes,
/// and it is the plain UTF-8 decoding where the bytes are well formed.
#[verifier::external_body]
pub(crate) fn lossy(bytes: &[u8]) -> (s: String)
    ensures
        s@ == utf8_lossy(bytes@),
        valid_utf8(bytes@) ==> s@ == decode_utf8(bytes@),
{
    String::from_utf8_lossy(bytes).into_owned()
}

/// Decodes bytes with `std::str::from_utf8`. Trusted: it succeeds exactly on well-formed UTF-8,
/// and then gives the text that the bytes encode.
#[verifier::external_body]
pub(crate) fn from_utf8(bytes: &[u8]) -> (r: Option<String>)
    ensures
        r is Some <==> valid_utf8(bytes@),
        r matches Some(s) ==> s@ == decode_utf8(bytes@),
{
    std::str::from_utf8(bytes).ok().map(String::from)
}

/// What `{:?}` prints for a text: the text in double quotes, with escapes.
pub uninterp spec fn debug_text(s: Seq<char>) -> Seq<char>;

/// Formats a text with `{:?}` (`<str as Debug>::fmt`). Trusted: the result is a function of the
/// text.
#[verifier::external_body]
pub(crate) fn debug_str(s: &str) -> (r: String)
    ensures
        r@ == debug_text(s@),
{
    format!("{s:?}")
}

/// What `str::to_lowercase` makes of a text.
pub uninterp spec fn lowercase(s: Seq<char>) -> Seq<char>;

/// Unicode lowercase: `str::to_lowercase`. Trusted: the result is a function of the text.
#[verifier::external_body]
pub(crate) fn to_lowercase(s: &str) -> (r: String)
    ensures
        r@ == lowercase(s@),
{
    s.to_lowercase()
}

/// What `str::to_uppercase` makes of a text.
pub uninterp spec fn uppercase(s: Seq<char>) -> Seq<char>;

/// Unicode uppercase: `str::to_uppercase`. Trusted: the result is a function of the text.
#[verifier::external_body]
pub(crate) fn to_uppercase(s: &str) -> (r: String)
    ensures
        r@ == uppercase(s@),
{
    s.to_uppercase()
}

/// The contents of a list of byte strings.
pub open spec fn lines_view(lines: Seq<Vec<u8>>) -> Seq<Seq<u8>> {
    Seq::new(lines.len(), |i: int| lines[i]@)
}

/// The contents of a list of strings.
pub open spec fn texts_view(texts: Seq<String>) -> Seq<Seq<char>> {
    Seq::new(texts.len(), |i: int| texts[i]@)
}

/// The content of an optional string.
pub open spec fn opt_text(s: Option<String>) -> Option<Seq<char>> {
    match s {
        Some(t) => Some(t@),
        None => None,
    }
}

/// A copy of an optional string.
pub fn clone_opt(s: &Option<String>) -> (r: Option<String>)
    ensures
        opt_text(r) == opt_text(*s),
{
    match s {
        Some(t) => Some(t.clone()),
        None => None,
    }
}

/// The characters of a string.
pub fn chars_of(s: &str) -> (v: Vec<char>)
    ensures
        v@ == s@,
{
    let mut v: Vec<char> = Vec::new();
    for c in it: s.chars()
        invariant
            v@ =~= it.seq().take(it.index() as int),
            it.seq() == s@,
    {
        v.push(c);
    }
    v
}

/// The string made of the given characters.
pub fn string_of(v: &[char]) -> (s: String)
    ensures
        s@ == v@,
{
    let mut s = String::new();
    let mut i: usize = 0;
    while i < v.len()
        invariant
            i <= v@.len(),
            s@ =~= v@.take(i as int),
        decreases v@.len() - i,
    {
        push_char(&mut s, v[i]);
        i = i + 1;
    }
    assert(v@.take(i as int) =~= v@);
    s
}

/// A copy of a string slice, by characters.
pub fn to_string(s: &str) -> (r: String)
    ensures
        r@ == s@,
{
    s.to_owned()
}

/// Whether two byte slices hold the same bytes.
pub fn bytes_eq(a: &[u8], b: &[u8]) -> (r: bool)
    ensures
        r == (a@ == b@),
{
    if a.len() != b.len() {
        return false;
    }
    let mut i: usize = 0;
    while i < a.len()
        invariant
            i <= a@.len(),
            a@.len() == b@.len(),
            forall|j: int| 0 <= j < i ==> a@[j] == b@[j],
        decreases a@.len() - i,
    {
        if a[i] != b[i] {
            return false;
        }
        i = i + 1;
    }
    assert(a@ =~= b@);
    true
}

/// Whether two character slices hold the same characters.
pub fn chars_eq(a: &[char], b: &[char]) -> (r: bool)
    ensures
        r == (a@ == b@),
{
    if a.len() != b.len() {
        return false;
    }
    let mut i: usize = 0;
    while i < a.len()
        invariant
            i <= a@.len(),
            a@.len() == b@.len(),
            forall|j: int| 0 <= j < i ==> a@[j] == b@[j],
        decreases a@.len() - i,
    {
        if a[i] != b[i] {
            return false;
        }
        i = i + 1;
    }
    assert(a@ =~= b@);
    true
}

/// Whether two strings hold the same text.
pub fn str_eq(a: &str, b: &str) -> (r: bool)
    ensures
        r == (a@ == b@),
{
    let r = bytes_eq(a.as_bytes(), b.as_bytes());
    proof {
        encode_utf8_decode_utf8(a@);
        encode_utf8_decode_utf8(b@);
    }
    r
}

// ---------------------------------------------------------------------------
// Searching and splitting.
// ---------------------------------------------------------------------------

/// Index of the first `x` in `s` at or after `from`.
pub open spec fn find<T>(s: Seq<T>, x: T, from: int) -> Option<int>
    decreases s.len() - from,
{
    if from < 0 || from >= s.len() {
        None
    } else if s[from] == x {
        Some(from)
    } else {
        find(s, x, from + 1)
    }
}

/// What `find` means: the result is the least index at or after `from` that holds `x`.
pub proof fn lemma_find<T>(s: Seq<T>, x: T, from: int)
    requires
        0 <= from <= s.len(),
    ensures
        match find(s, x, from) {
            Some(i) => from <= i < s.len() && s[i] == x && forall|j: int| from <= j < i ==> s[j] != x,
            None => forall|j: int| from <= j < s.len() ==> s[j] != x,
        },
    decreases s.len() - from,
{
    if from < s.len() && s[from] != x {
        lemma_find(s, x, from + 1);
    }
}

/// Index of the first occurrence of `c` at or after `from`.
pub fn find_char(s: &[char], c: char, from: usize) -> (r: Option<usize>)
    requires
        from <= s@.len(),
    ensures
        match r {
            Some(i) => find(s@, c, from as int) == Some(i as int) && from <= i < s@.len(),
            None => find(s@, c, from as int) == None::<int>,
        },
{
    let mut i: usize = from;
    while i < s.len()
        invariant
            from <= i <= s@.len(),
            find(s@, c, from as int) == find(s@, c, i as int),
        decreases s@.len() - i,
    {
        if s[i] == c {
            return Some(i);
        }
        i = i + 1;
    }
    None
}

/// Index of the first occurrence of `b` at or after `from`.
pub fn find_byte(s: &[u8], b: u8, from: usize) -> (r: Option<usize>)
    requires
        from <= s@.len(),
    ensures
        match r {
            Some(i) => find(s@, b, from as int) == Some(i as int) && from <= i < s@.len(),
            None => find(s@, b, from as int) == None::<int>,
        },
{
    let mut i: usize = from;
    while i < s.len()
        invariant
            from <= i <= s@.len(),
            find(s@, b, from as int) == find(s@, b, i as int),
        decreases s@.len() - i,
    {
        if s[i] == b {
            return Some(i);
        }
        i = i + 1;
    }
    None
}

/// The part of `s` before the first `x`, or all of it.
pub open spec fn before<T>(s: Seq<T>, x: T) -> Seq<T> {
    match find(s, x, 0) {
        Some(i) => s.take(i),
        None => s,
    }
}

/// The part of `s` after the first `x`, or nothing.
pub open spec fn after<T>(s: Seq<T>, x: T) -> Seq<T> {
    match find(s, x, 0) {
        Some(i) => s.skip(i + 1),
        None => Seq::empty(),
    }
}

/// Splits at the first `c`; the second part is empty where there is none.
pub fn split_once<'a>(s: &'a [char], c: char) -> (r: (&'a [char], &'a [char]))
    ensures
        r.0@ == before(s@, c),
        r.1@ == after(s@, c),
{
    let n: usize = s.len();
    match find_char(s, c, 0) {
        Some(i) => {
            let a = vstd::slice::slice_subrange(s, 0, i);
            let b = vstd::slice::slice_subrange(s, i + 1, n);
            (a, b)
        },
        None => {
            let a = vstd::slice::slice_subrange(s, 0, n);
            let b = vstd::slice::slice_subrange(s, n, n);
            (a, b)
        },
    }
}

/// Whether `s` starts with `p`.
pub open spec fn has_prefix<T>(s: Seq<T>, p: Seq<T>) -> bool {
    p.len() <= s.len() && s.take(p.len() as int) == p
}

/// Whether `s` ends with `p`.
pub open spec fn has_suffix<T>(s: Seq<T>, p: Seq<T>) -> bool {
    p.len() <= s.len() && s.skip(s.len() - p.len()) == p
}

/// Whether the characters start with the string `p`.
pub fn starts_with(s: &[char], p: &str) -> (r: bool)
    ensures
        r == has_prefix(s@, p@),
{
    let p = chars_of(p);
    if p.len() > s.len() {
        return false;
    }
    chars_eq(vstd::slice::slice_subrange(s, 0, p.len()), p.as_slice())
}

/// Whether the characters end with the string `p`.
pub fn ends_with(s: &[char], p: &str) -> (r: bool)
    ensures
        r == has_suffix(s@, p@),
{
    let p = chars_of(p);
    if p.len() > s.len() {
        return false;
    }
    chars_eq(vstd::slice::slice_subrange(s, s.len() - p.len(), s.len()), p.as_slice())
}

/// Whether the bytes start with the bytes `p`.
pub fn bytes_start_with(s: &[u8], p: &[u8]) -> (r: bool)
    ensures
        r == has_prefix(s@, p@),
{
    if p.len() > s.len() {
        return false;
    }
    bytes_eq(vstd::slice::slice_subrange(s, 0, p.len()), p)
}

/// Whether the characters are exactly the string `p`.
pub fn is_text(s: &[char], p: &str) -> (r: bool)
    ensures
        r == (s@ == p@),
{
    let p = chars_of(p);
    chars_eq(s, p.as_slice())
}

/// Where a text first stands in another, at or after an index.
pub open spec fn find_text(s: Seq<char>, q: Seq<char>, from: int) -> Option<int>
    decreases s.len() - from,
{
    if from < 0 || from + q.len() > s.len() {
        None
    } else if s.subrange(from, from + q.len()) == q {
        Some(from)
    } else if from == s.len() {
        None
    } else {
        find_text(s, q, from + 1)
    }
}

/// Where a text first stands in another.
pub fn position_of(s: &[char], q: &str) -> (r: Option<usize>)
    ensures
        match r {
            Some(i) => find_text(s@, q@, 0) == Some(i as int) && i + q@.len() <= s@.len(),
            None => find_text(s@, q@, 0) is None,
        },
{
    position_from(s, q, 0)
}

/// Where a text first stands in another, at or behind an index.
pub fn position_from(s: &[char], q: &str, from: usize) -> (r: Option<usize>)
    ensures
        match r {
            Some(i) => find_text(s@, q@, from as int) == Some(i as int) && from <= i && i + q@.len()
                <= s@.len(),
            None => find_text(s@, q@, from as int) is None,
        },
{
    let m: usize = chars_of(q).len();
    let n: usize = s.len();
    if m > n {
        return None;
    }
    if from > n - m {
        return None;
    }
    let mut i: usize = from;
    while i <= n - m
        invariant
            m == q@.len(),
            n == s@.len(),
            m <= n,
            from <= i <= n - m + 1,
            find_text(s@, q@, from as int) == find_text(s@, q@, i as int),
        decreases n - m + 1 - i,
    {
        let rest = vstd::slice::slice_subrange(s, i, n);
        assert(rest@.take(m as int) =~= s@.subrange(i as int, i + m));
        if starts_with(rest, q) {
            return Some(i);
        }
        if i == n {
            return None;
        }
        i = i + 1;
    }
    None
}

/// Whether `q` occurs in `s`.
pub open spec fn occurs(s: Seq<char>, q: Seq<char>) -> bool {
    exists|i: int|
        0 <= i && i + q.len() <= s.len() && #[trigger] s.subrange(i, i + q.len()) == q
}

/// Whether `q` occurs in `s`.
pub fn contains_text(s: &[char], q: &[char]) -> (r: bool)
    ensures
        r == occurs(s@, q@),
{
    let n: usize = s.len();
    let m: usize = q.len();
    if m > n {
        return false;
    }
    let last: usize = n - m;
    let mut i: usize = 0;
    loop
        invariant
            n == s@.len(),
            m == q@.len(),
            last == n - m,
            i <= last,
            forall|j: int| 0 <= j < i ==> #[trigger] s@.subrange(j, j + q@.len()) != q@,
        decreases last - i,
    {
        if chars_eq(vstd::slice::slice_subrange(s, i, i + m), q) {
            return true;
        }
        if i == last {
            return false;
        }
        i = i + 1;
    }
}

/// The text without trailing spaces.
pub open spec fn trim_spaces(s: Seq<char>) -> Seq<char>
    decreases s.len(),
{
    if s.len() > 0 && s.last() == ' ' {
        trim_spaces(s.drop_last())
    } else {
        s
    }
}

/// Drops trailing spaces.
pub fn drop_trailing_spaces(s: Vec<char>) -> (r: Vec<char>)
    ensures
        r@ == trim_spaces(s@),
{
    let mut r = s;
    while r.len() > 0 && r[r.len() - 1] == ' '
        invariant
            trim_spaces(r@) == trim_spaces(s@),
        decreases r@.len(),
    {
        let ghost before = r@;
        let _ = r.pop();
        assert(r@ =~= before.drop_last());
    }
    r
}

/// Whether a text comes before another, character by character.
pub open spec fn text_before(a: Seq<char>, b: Seq<char>, i: int) -> bool
    decreases a.len() - i,
{
    if i < 0 || i >= b.len() {
        false
    } else if i >= a.len() {
        true
    } else if a[i] == b[i] {
        text_before(a, b, i + 1)
    } else {
        a[i] < b[i]
    }
}

/// Whether a text comes before another, character by character, as `str` orders them.
pub fn text_less(a: &str, b: &str) -> (r: bool)
    ensures
        r == text_before(a@, b@, 0),
{
    let a = chars_of(a);
    let b = chars_of(b);
    let mut i: usize = 0;
    while i < a.len() && i < b.len() && a[i] == b[i]
        invariant
            i <= a@.len(),
            i <= b@.len(),
            text_before(a@, b@, 0) == text_before(a@, b@, i as int),
        decreases a@.len() - i,
    {
        i = i + 1;
    }
    if i >= b.len() {
        false
    } else if i >= a.len() {
        true
    } else {
        a[i] < b[i]
    }
}

// ---------------------------------------------------------------------------
// White space.
// ---------------------------------------------------------------------------

/// ASCII white space as Rust has it: space, tab, line feed, form feed, carriage return.
pub open spec fn ascii_space(c: char) -> bool {
    c == ' ' || c == '\t' || c == '\n' || c == '\u{c}' || c == '\r'
}

/// Unicode `White_Space`.
pub open spec fn white_space(c: char) -> bool {
    ||| '\t' <= c <= '\r'
    ||| c == ' '
    ||| c == '\u{85}'
    ||| c == '\u{a0}'
    ||| c == '\u{1680}'
    ||| '\u{2000}' <= c <= '\u{200a}'
    ||| c == '\u{2028}'
    ||| c == '\u{2029}'
    ||| c == '\u{202f}'
    ||| c == '\u{205f}'
    ||| c == '\u{3000}'
}

/// Whether a character is ASCII white space.
pub fn is_ascii_space(c: char) -> (r: bool)
    ensures
        r == ascii_space(c),
{
    c == ' ' || c == '\t' || c == '\n' || c == '\u{c}' || c == '\r'
}

/// Whether a character is Unicode white space.
pub fn is_white_space(c: char) -> (r: bool)
    ensures
        r == white_space(c),
{
    ('\t' <= c && c <= '\r') || c == ' ' || c == '\u{85}' || c == '\u{a0}' || c == '\u{1680}' || (
    '\u{2000}' <= c && c <= '\u{200a}') || c == '\u{2028}' || c == '\u{2029}' || c == '\u{202f}'
        || c == '\u{205f}' || c == '\u{3000}'
}

/// First index at or after `from` that does not hold ASCII white space.
pub open spec fn skip_spaces(s: Seq<char>, from: int) -> int
    decreases s.len() - from,
{
    if 0 <= from < s.len() && ascii_space(s[from]) {
        skip_spaces(s, from + 1)
    } else {
        from
    }
}

/// First index at or after `from` that holds ASCII white space, or the end.
pub open spec fn word_end(s: Seq<char>, from: int) -> int
    decreases s.len() - from,
{
    if 0 <= from < s.len() && !ascii_space(s[from]) {
        word_end(s, from + 1)
    } else {
        from
    }
}

/// Bounds of the word (maximal run without ASCII white space) that starts at or after `from`.
pub open spec fn word_at(s: Seq<char>, from: int) -> Option<(int, int)> {
    let a = skip_spaces(s, from);
    if a >= s.len() {
        None
    } else {
        Some((a, word_end(s, a)))
    }
}

/// Bounds of the next word at or after `from`, as `split_ascii_whitespace` finds it.
pub fn next_word(s: &[char], from: usize) -> (r: Option<(usize, usize)>)
    requires
        from <= s@.len(),
    ensures
        match r {
            Some((a, b)) => word_at(s@, from as int) == Some((a as int, b as int)) && from <= a < b
                <= s@.len(),
            None => word_at(s@, from as int) == None::<(int, int)>,
        },
{
    let mut a: usize = from;
    while a < s.len() && is_ascii_space(s[a])
        invariant
            from <= a <= s@.len(),
            skip_spaces(s@, from as int) == skip_spaces(s@, a as int),
        decreases s@.len() - a,
    {
        a = a + 1;
    }
    if a >= s.len() {
        return None;
    }
    let mut b: usize = a;
    while b < s.len() && !is_ascii_space(s[b])
        invariant
            a <= b <= s@.len(),
            word_end(s@, a as int) == word_end(s@, b as int),
        decreases s@.len() - b,
    {
        b = b + 1;
    }
    assert(b > a);
    Some((a, b))
}

/// First index at or after `from` that does not hold white space.
pub open spec fn trim_start_at(s: Seq<char>, from: int) -> int
    decreases s.len() - from,
{
    if 0 <= from < s.len() && white_space(s[from]) {
        trim_start_at(s, from + 1)
    } else {
        from
    }
}

/// First index at or after `from` that holds white space, or the end.
pub open spec fn token_end(s: Seq<char>, from: int) -> int
    decreases s.len() - from,
{
    if 0 <= from < s.len() && !white_space(s[from]) {
        token_end(s, from + 1)
    } else {
        from
    }
}

/// Bounds of the token (maximal run without white space) that starts at or after `from`.
pub open spec fn token_at(s: Seq<char>, from: int) -> Option<(int, int)> {
    let a = trim_start_at(s, from);
    if a >= s.len() {
        None
    } else {
        Some((a, token_end(s, a)))
    }
}

/// Bounds of the next token at or after `from`, as `split_whitespace` finds it.
pub fn next_token(s: &[char], from: usize) -> (r: Option<(usize, usize)>)
    requires
        from <= s@.len(),
    ensures
        match r {
            Some((a, b)) => token_at(s@, from as int) == Some((a as int, b as int)) && from <= a
                < b <= s@.len(),
            None => token_at(s@, from as int) == None::<(int, int)>,
        },
{
    let mut a: usize = from;
    while a < s.len() && is_white_space(s[a])
        invariant
            from <= a <= s@.len(),
            trim_start_at(s@, from as int) == trim_start_at(s@, a as int),
        decreases s@.len() - a,
    {
        a = a + 1;
    }
    if a >= s.len() {
        return None;
    }
    let mut b: usize = a;
    while b < s.len() && !is_white_space(s[b])
        invariant
            a <= b <= s@.len(),
            token_end(s@, a as int) == token_end(s@, b as int),
        decreases s@.len() - b,
    {
        b = b + 1;
    }
    assert(b > a);
    Some((a, b))
}

/// Index after the last character before `to` that is not white space, or `from`.
pub open spec fn trim_end_at(s: Seq<char>, from: int, to: int) -> int
    decreases to - from,
{
    if from < to <= s.len() && white_space(s[to - 1]) {
        trim_end_at(s, from, to - 1)
    } else {
        to
    }
}

/// The text without leading and trailing white space.
pub open spec fn trimmed(s: Seq<char>) -> Seq<char> {
    let a = trim_start_at(s, 0);
    s.subrange(a, trim_end_at(s, a, s.len() as int))
}

/// The text without trailing white space.
pub open spec fn trimmed_end(s: Seq<char>) -> Seq<char> {
    s.take(trim_end_at(s, 0, s.len() as int))
}

/// `str::trim` on characters.
pub fn trim<'a>(s: &'a [char]) -> (r: &'a [char])
    ensures
        r@ == trimmed(s@),
{
    let mut a: usize = 0;
    while a < s.len() && is_white_space(s[a])
        invariant
            a <= s@.len(),
            trim_start_at(s@, 0) == trim_start_at(s@, a as int),
        decreases s@.len() - a,
    {
        a = a + 1;
    }
    let mut b: usize = s.len();
    while b > a && is_white_space(s[b - 1])
        invariant
            a <= b <= s@.len(),
            trim_end_at(s@, a as int, s@.len() as int) == trim_end_at(s@, a as int, b as int),
        decreases b,
    {
        b = b - 1;
    }
    vstd::slice::slice_subrange(s, a, b)
}

/// `str::trim_end` on characters.
pub fn trim_end<'a>(s: &'a [char]) -> (r: &'a [char])
    ensures
        r@ == trimmed_end(s@),
{
    let mut b: usize = s.len();
    while b > 0 && is_white_space(s[b - 1])
        invariant
            b <= s@.len(),
            trim_end_at(s@, 0, s@.len() as int) == trim_end_at(s@, 0, b as int),
        decreases b,
    {
        b = b - 1;
    }
    vstd::slice::slice_subrange(s, 0, b)
}

// ---------------------------------------------------------------------------
// Numbers.
// ---------------------------------------------------------------------------

/// The decimal digits of a number, without leading zeros.
pub open spec fn dec(n: nat) -> Seq<char>
    decreases n,
{
    if n < 10 {
        seq![(48 + n) as char]
    } else {
        dec(n / 10).push((48 + n % 10) as char)
    }
}

/// The character of a decimal digit.
pub fn digit_char(d: u64) -> (c: char)
    requires
        d < 10,
    ensures
        c == (48 + d) as char,
{
    (48u8 + d as u8) as char
}

/// Appends a number in decimal.
pub fn push_decimal(s: &mut String, n: u64)
    ensures
        final(s)@ == old(s)@ + dec(n as nat),
    decreases n,
{
    if n >= 10 {
        push_decimal(s, n / 10);
    }
    push_char(s, digit_char(n % 10));
    assert(s@ =~= old(s)@ + dec(n as nat));
}

/// A number in decimal.
pub fn decimal(n: u64) -> (s: String)
    ensures
        s@ == dec(n as nat),
{
    let mut s = String::new();
    push_decimal(&mut s, n);
    assert(s@ =~= dec(n as nat));
    s
}

/// The value of a digit in base ten or sixteen.
pub open spec fn digit_of(c: char, hex: bool) -> Option<nat> {
    if '0' <= c <= '9' {
        Some((c as nat - 48) as nat)
    } else if hex && 'a' <= c <= 'f' {
        Some((c as nat - 87) as nat)
    } else if hex && 'A' <= c <= 'F' {
        Some((c as nat - 55) as nat)
    } else {
        None
    }
}

/// Whether every character is a digit of the base.
pub open spec fn all_digits(s: Seq<char>, hex: bool) -> bool {
    forall|i: int| 0 <= i < s.len() ==> digit_of(#[trigger] s[i], hex) is Some
}

/// The number that a sequence of digits writes.
pub open spec fn digits_value(s: Seq<char>, hex: bool) -> nat
    decreases s.len(),
{
    if s.len() == 0 {
        0
    } else {
        let d = digit_of(s.last(), hex).unwrap_or(0);
        (if hex {
            16 * digits_value(s.drop_last(), hex)
        } else {
            10 * digits_value(s.drop_last(), hex)
        }) + d
    }
}

/// How Rust reads an unsigned integer no larger than `max`: an optional `+`, then digits.
pub open spec fn parse_uint(s: Seq<char>, hex: bool, max: nat) -> Option<nat> {
    let d = if s.len() > 0 && s[0] == '+' {
        s.skip(1)
    } else {
        s
    };
    if d.len() > 0 && all_digits(d, hex) && digits_value(d, hex) <= max {
        Some(digits_value(d, hex))
    } else {
        None
    }
}

/// The value of a digit character.
pub fn digit_value(c: char, hex: bool) -> (r: Option<u64>)
    ensures
        match r {
            Some(d) => digit_of(c, hex) == Some(d as nat) && d < 16 && (!hex ==> d < 10),
            None => digit_of(c, hex) == None::<nat>,
        },
{
    let n: u32 = c as u32;
    if '0' <= c && c <= '9' {
        Some((n - 48) as u64)
    } else if hex && 'a' <= c && c <= 'f' {
        Some((n - 87) as u64)
    } else if hex && 'A' <= c && c <= 'F' {
        Some((n - 55) as u64)
    } else {
        None
    }
}

/// Reads an unsigned integer no larger than `max`, as Rust's integer parsing does.
pub fn parse_number(s: &[char], hex: bool, max: u64) -> (r: Option<u64>)
    ensures
        match r {
            Some(n) => parse_uint(s@, hex, max as nat) == Some(n as nat),
            None => parse_uint(s@, hex, max as nat) == None::<nat>,
        },
{
    let d = if s.len() > 0 && s[0] == '+' {
        vstd::slice::slice_subrange(s, 1, s.len())
    } else {
        s
    };
    if d.len() == 0 {
        return None;
    }
    let ghost digits = if s@.len() > 0 && s@[0] == '+' {
        s@.skip(1)
    } else {
        s@
    };
    assert(d@ =~= digits);
    let mut n: u64 = 0;
    let mut i: usize = 0;
    let mut over: bool = false;
    while i < d.len()
        invariant
            i <= d@.len(),
            d@ == digits,
            digits == (if s@.len() > 0 && s@[0] == '+' {
                s@.skip(1)
            } else {
                s@
            }),
            forall|j: int| 0 <= j < i ==> digit_of(#[trigger] d@[j], hex) is Some,
            over ==> digits_value(d@.take(i as int), hex) > max,
            !over ==> n == digits_value(d@.take(i as int), hex) && n <= max,
        decreases d@.len() - i,
    {
        match digit_value(d[i], hex) {
            Some(v) => {
                assert(d@.take(i + 1).drop_last() =~= d@.take(i as int));
                if !over {
                    let w: u128 = if hex {
                        16 * (n as u128) + v as u128
                    } else {
                        10 * (n as u128) + v as u128
                    };
                    if w > max as u128 {
                        over = true;
                    } else {
                        n = w as u64;
                    }
                }
            },
            None => {
                assert(digit_of(d@[i as int], hex) is None);
                return None;
            },
        }
        i = i + 1;
    }
    assert(d@.take(i as int) =~= d@);
    if over {
        None
    } else {
        Some(n)
    }
}

/// How Rust reads a signed integer between `min` and `max`: an optional sign, then digits.
pub open spec fn parse_int(s: Seq<char>, min: int, max: int) -> Option<int> {
    let signed = s.len() > 0 && (s[0] == '+' || s[0] == '-');
    let d = if signed {
        s.skip(1)
    } else {
        s
    };
    let v = if signed && s[0] == '-' {
        -(digits_value(d, false) as int)
    } else {
        digits_value(d, false) as int
    };
    if d.len() > 0 && all_digits(d, false) && min <= v <= max {
        Some(v)
    } else {
        None
    }
}

/// Reads an `i32`, as Rust's integer parsing does.
pub fn parse_i32(s: &[char]) -> (r: Option<i32>)
    ensures
        match r {
            Some(n) => parse_int(s@, i32::MIN as int, i32::MAX as int) == Some(n as int),
            None => parse_int(s@, i32::MIN as int, i32::MAX as int) == None::<int>,
        },
{
    let signed = s.len() > 0 && (s[0] == '+' || s[0] == '-');
    let negative = signed && s[0] == '-';
    let d = if signed {
        vstd::slice::slice_subrange(s, 1, s.len())
    } else {
        s
    };
    assert(d@ =~= if signed {
        s@.skip(1)
    } else {
        s@
    });
    if d.len() > 0 && d[0] == '+' {
        assert(digit_of(d@[0], false) is None);
        return None;
    }
    let n: u64 = match parse_number(d, false, 2147483648) {
        Some(n) => n,
        None => return None,
    };
    if negative {
        Some((-(n as i64)) as i32)
    } else if n <= 2147483647 {
        Some(n as i32)
    } else {
        None
    }
}

// ---------------------------------------------------------------------------
// Filtering.
// ---------------------------------------------------------------------------

/// Control characters: C0, DEL and C1.
pub open spec fn control(c: char) -> bool {
    c < ' ' || '\u{7f}' <= c <= '\u{9f}'
}

/// Whether a character is a control character.
pub fn is_control(c: char) -> (r: bool)
    ensures
        r == control(c),
{
    c < ' ' || ('\u{7f}' <= c && c <= '\u{9f}')
}

/// The text without its control characters.
pub open spec fn without_controls(s: Seq<char>) -> Seq<char>
    decreases s.len(),
{
    if s.len() == 0 {
        s
    } else if control(s.last()) {
        without_controls(s.drop_last())
    } else {
        without_controls(s.drop_last()).push(s.last())
    }
}

/// Removes control characters.
pub fn strip_controls(s: &[char]) -> (r: Vec<char>)
    ensures
        r@ == without_controls(s@),
{
    let mut r: Vec<char> = Vec::new();
    let mut i: usize = 0;
    while i < s.len()
        invariant
            i <= s@.len(),
            r@ == without_controls(s@.take(i as int)),
        decreases s@.len() - i,
    {
        assert(s@.take(i + 1).drop_last() =~= s@.take(i as int));
        if !is_control(s[i]) {
            r.push(s[i]);
        }
        i = i + 1;
    }
    assert(s@.take(i as int) =~= s@);
    r
}

/// No control character is left, and text without them is not changed.
pub proof fn stripping_controls_is_exact(s: Seq<char>)
    ensures
        forall|i: int|
            0 <= i < without_controls(s).len() ==> !control(#[trigger] without_controls(s)[i]),
        (forall|i: int| 0 <= i < s.len() ==> !control(#[trigger] s[i])) ==> without_controls(s) == s,
    decreases s.len(),
{
    if s.len() > 0 {
        stripping_controls_is_exact(s.drop_last());
        let r = without_controls(s);
        let q = without_controls(s.drop_last());
        assert forall|i: int| 0 <= i < r.len() implies !control(#[trigger] r[i]) by {
            if i < q.len() {
                assert(r[i] == q[i]);
            }
        }
        if forall|i: int| 0 <= i < s.len() ==> !control(#[trigger] s[i]) {
            assert forall|i: int| 0 <= i < s.drop_last().len() implies !control(
                #[trigger] s.drop_last()[i],
            ) by {
                assert(s.drop_last()[i] == s[i]);
            }
            assert(s.drop_last().push(s.last()) =~= s);
        }
    }
}

/// Texts with a separator between them.
pub open spec fn joined(lines: Seq<Seq<char>>, sep: Seq<char>) -> Seq<char>
    decreases lines.len(),
{
    if lines.len() == 0 {
        Seq::empty()
    } else if lines.len() == 1 {
        lines[0]
    } else {
        joined(lines.drop_last(), sep) + sep + lines.last()
    }
}

/// Texts with a separator between them.
pub fn join_lines(lines: &Vec<String>, sep: &str) -> (s: String)
    ensures
        s@ == joined(texts_view(lines@), sep@),
{
    let ghost v = texts_view(lines@);
    if lines.len() == 0 {
        let s = String::new();
        assert(s@ =~= joined(v, sep@));
        return s;
    }
    let mut s = lines[0].clone();
    let mut i: usize = 1;
    assert(v.take(1).len() == 1);
    while i < lines.len()
        invariant
            1 <= i <= lines@.len(),
            v == texts_view(lines@),
            s@ == joined(v.take(i as int), sep@),
        decreases lines@.len() - i,
    {
        assert(v.take(i + 1).drop_last() =~= v.take(i as int));
        s.append(sep);
        s.append(lines[i].as_str());
        i = i + 1;
    }
    assert(v.take(i as int) =~= v);
    s
}

// ---------------------------------------------------------------------------
// ASCII case and last occurrences.
// ---------------------------------------------------------------------------

/// A character in ASCII lowercase.
pub open spec fn lower_char(c: char) -> char {
    if 'A' <= c <= 'Z' {
        (c as u32 + 32) as char
    } else {
        c
    }
}

/// Text in ASCII lowercase.
pub open spec fn ascii_lower(s: Seq<char>) -> Seq<char> {
    s.map_values(|c: char| lower_char(c))
}

/// `str::to_ascii_lowercase` on characters.
pub fn to_ascii_lower(s: &[char]) -> (r: Vec<char>)
    ensures
        r@ == ascii_lower(s@),
{
    let mut r: Vec<char> = Vec::new();
    let mut i: usize = 0;
    while i < s.len()
        invariant
            i <= s@.len(),
            r@ =~= ascii_lower(s@.take(i as int)),
        decreases s@.len() - i,
    {
        let c = s[i];
        r.push(
            if 'A' <= c && c <= 'Z' {
                (c as u8 + 32) as char
            } else {
                c
            },
        );
        i = i + 1;
    }
    assert(s@.take(i as int) =~= s@);
    r
}

/// Whether a character separates path components.
pub open spec fn path_sep(c: char) -> bool {
    c == '\\' || c == '/'
}

/// Whether a character separates path components.
pub fn is_path_sep(c: char) -> (r: bool)
    ensures
        r == path_sep(c),
{
    c == '\\' || c == '/'
}

/// Text without trailing path separators.
pub open spec fn trim_seps(s: Seq<char>) -> Seq<char>
    decreases s.len(),
{
    if s.len() > 0 && path_sep(s.last()) {
        trim_seps(s.drop_last())
    } else {
        s
    }
}

/// The part of a text behind its last path separator.
pub open spec fn last_component(s: Seq<char>) -> Seq<char>
    decreases s.len(),
{
    if s.len() == 0 || path_sep(s.last()) {
        Seq::empty()
    } else {
        last_component(s.drop_last()).push(s.last())
    }
}

/// The part of a text behind its last slash.
pub open spec fn behind_slash(s: Seq<char>) -> Seq<char>
    decreases s.len(),
{
    if s.len() == 0 || s.last() == '/' {
        Seq::empty()
    } else {
        behind_slash(s.drop_last()).push(s.last())
    }
}

/// A component holds no separator, and ends the text.
pub proof fn lemma_last_component(s: Seq<char>)
    ensures
        last_component(s).len() <= s.len(),
        last_component(s) == s.skip(s.len() - last_component(s).len()),
        last_component(s).len() < s.len() ==> path_sep(s[s.len() - last_component(s).len() - 1]),
        forall|i: int|
            0 <= i < last_component(s).len() ==> !path_sep(#[trigger] last_component(s)[i]),
    decreases s.len(),
{
    if s.len() > 0 && !path_sep(s.last()) {
        lemma_last_component(s.drop_last());
        let r = last_component(s);
        let q = last_component(s.drop_last());
        assert(r =~= s.skip(s.len() - r.len()));
        assert forall|i: int| 0 <= i < r.len() implies !path_sep(#[trigger] r[i]) by {
            if i < q.len() {
                assert(r[i] == q[i]);
            }
        }
    } else {
        assert(s.skip(s.len() as int) =~= Seq::empty());
    }
}

proof fn lemma_dec(n: nat)
    ensures
        dec(n).len() > 0,
        all_digits(dec(n), false),
        digits_value(dec(n), false) == n,
    decreases n,
{
    let s = dec(n);
    if n < 10 {
        assert(s.drop_last() =~= Seq::empty());
        assert(digits_value(s.drop_last(), false) == 0);
        assert(s.last() == (48 + n) as char);
        assert(digit_of(s.last(), false) == Some(n));
    } else {
        let front = dec(n / 10);
        let c = (48 + n % 10) as char;
        lemma_dec(n / 10);
        assert(s.drop_last() =~= front);
        assert(digit_of(c, false) == Some(n % 10));
        assert forall|i: int| 0 <= i < s.len() implies digit_of(#[trigger] s[i], false) is Some by {
            if i < front.len() {
                assert(s[i] == front[i]);
            }
        }
    }
}

/// A number is written in decimal digits, and read back as itself.
pub proof fn numbers_read_back(n: nat, max: nat)
    ensures
        dec(n).len() > 0,
        forall|i: int| 0 <= i < dec(n).len() ==> '0' <= #[trigger] dec(n)[i] <= '9',
        n <= max ==> parse_uint(dec(n), false, max) == Some(n),
        n > max ==> parse_uint(dec(n), false, max) is None,
{
    lemma_dec(n);
    let s = dec(n);
    assert forall|i: int| 0 <= i < s.len() implies '0' <= #[trigger] s[i] <= '9' by {
        assert(digit_of(s[i], false) is Some);
    }
    assert('0' <= s[0] <= '9');
}

proof fn lemma_trim_start(s: Seq<char>, from: int)
    requires
        0 <= from <= s.len(),
    ensures
        from <= trim_start_at(s, from) <= s.len(),
        forall|i: int| from <= i < trim_start_at(s, from) ==> white_space(#[trigger] s[i]),
        trim_start_at(s, from) < s.len() ==> !white_space(s[trim_start_at(s, from)]),
    decreases s.len() - from,
{
    if from < s.len() && white_space(s[from]) {
        lemma_trim_start(s, from + 1);
    }
}

proof fn lemma_trim_end(s: Seq<char>, from: int, to: int)
    requires
        0 <= from <= to <= s.len(),
    ensures
        from <= trim_end_at(s, from, to) <= to,
        forall|i: int| trim_end_at(s, from, to) <= i < to ==> white_space(#[trigger] s[i]),
        trim_end_at(s, from, to) > from ==> !white_space(s[trim_end_at(s, from, to) - 1]),
    decreases to - from,
{
    if from < to && white_space(s[to - 1]) {
        lemma_trim_end(s, from, to - 1);
    }
}

/// Trimming takes the white space off both ends, and nothing else.
pub proof fn trimming_is_exact(s: Seq<char>)
    ensures
        exists|a: int, b: int|
            {
                &&& 0 <= a <= b <= s.len()
                &&& trimmed(s) == #[trigger] s.subrange(a, b)
                &&& forall|i: int| 0 <= i < a || b <= i < s.len() ==> white_space(#[trigger] s[i])
                &&& a < b ==> !white_space(s[a]) && !white_space(s[b - 1])
            },
{
    let a = trim_start_at(s, 0);
    lemma_trim_start(s, 0);
    lemma_trim_end(s, a, s.len() as int);
    let b = trim_end_at(s, a, s.len() as int);
    assert(trimmed(s) == s.subrange(a, b));
    if a < b {
        assert(!white_space(s[b - 1]));
    }
}

} // verus!
