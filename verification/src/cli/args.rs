//! Reading command line arguments.
use vstd::prelude::*;
use vstd::string::*;
#[allow(unused_imports)]
use vstd::utf8::*;

use crate::text::{
    chars_of, find_char, is_control, parse_number, push_char, starts_with, str_eq, string_of,
    to_ascii_lower, trim,
};
#[allow(unused_imports)]
use crate::text::{
    all_digits, ascii_lower, control, digit_of, find, has_prefix, opt_text, parse_uint, texts_view,
    trimmed,
};

verus! {

// ---------------------------------------------------------------------------
// Flags and words.
// ---------------------------------------------------------------------------

/// Where an argument first stands.
pub fn flag_position(args: &[String], flag: &str) -> (r: Option<usize>)
    ensures
        match r {
            Some(i) => find(texts_view(args@), flag@, 0) == Some(i as int) && i < args@.len(),
            None => find(texts_view(args@), flag@, 0) is None,
        },
{
    let ghost v = texts_view(args@);
    let mut i: usize = 0;
    while i < args.len()
        invariant
            i <= args@.len(),
            v == texts_view(args@),
            find(v, flag@, 0) == find(v, flag@, i as int),
        decreases args@.len() - i,
    {
        if str_eq(args[i].as_str(), flag) {
            return Some(i);
        }
        i = i + 1;
    }
    None
}

/// Whether an argument is there.
pub open spec fn has(args: Seq<Seq<char>>, flag: Seq<char>) -> bool {
    find(args, flag, 0) is Some
}

/// Whether an argument is there.
pub fn has_flag(args: &[String], flag: &str) -> (r: bool)
    ensures
        r == has(texts_view(args@), flag@),
{
    flag_position(args, flag).is_some()
}

/// The argument behind the first one that is the flag.
pub open spec fn value_of(args: Seq<Seq<char>>, flag: Seq<char>) -> Option<Seq<char>> {
    match find(args, flag, 0) {
        Some(i) if i + 1 < args.len() => Some(args[i + 1]),
        _ => None,
    }
}

/// The argument behind the first one that is the flag.
pub fn flag_value(args: &[String], flag: &str) -> (r: Option<String>)
    ensures
        opt_text(r) == value_of(texts_view(args@), flag@),
{
    let _fits: usize = args.len();
    match flag_position(args, flag) {
        Some(i) => if i + 1 < args.len() {
            Some(args[i + 1].clone())
        } else {
            None
        },
        None => None,
    }
}

/// Whether an argument looks like a flag.
pub open spec fn dashed(a: Seq<char>) -> bool {
    a.len() > 0 && a[0] == '-'
}

/// Whether an argument looks like a flag.
pub fn is_dashed(a: &str) -> (r: bool)
    ensures
        r == dashed(a@),
{
    let c = chars_of(a);
    c.len() > 0 && c[0] == '-'
}

/// The arguments from an index on that are neither flags nor the target behind `-t`.
pub open spec fn named_words(args: Seq<Seq<char>>, from: int) -> Seq<Seq<char>>
    decreases args.len() + 1 - from,
{
    if from < 0 || from >= args.len() {
        Seq::empty()
    } else if args[from] == "-t"@ {
        named_words(args, from + 2)
    } else if dashed(args[from]) {
        named_words(args, from + 1)
    } else {
        seq![args[from]] + named_words(args, from + 1)
    }
}

/// The arguments that are neither flags nor the target behind `-t`.
pub fn words_of(args: &[String]) -> (r: Vec<String>)
    ensures
        texts_view(r@) == named_words(texts_view(args@), 0),
{
    let ghost v = texts_view(args@);
    let mut r: Vec<String> = Vec::new();
    let mut i: usize = 0;
    assert(texts_view(r@) =~= Seq::empty());
    assert(Seq::<Seq<char>>::empty() + named_words(v, 0) =~= named_words(v, 0));
    while i < args.len()
        invariant
            v == texts_view(args@),
            named_words(v, 0) == texts_view(r@) + named_words(v, i as int),
        decreases args@.len() - i,
    {
        let ghost had = texts_view(r@);
        if str_eq(args[i].as_str(), "-t") {
            assert(i + 1 >= v.len() ==> named_words(v, i + 2) == named_words(v, v.len() as int));
            i = if i + 1 < args.len() {
                i + 2
            } else {
                args.len()
            };
        } else {
            if !is_dashed(args[i].as_str()) {
                r.push(args[i].clone());
                assert(texts_view(r@) =~= had.push(v[i as int]));
                assert(had + (seq![v[i as int]] + named_words(v, i + 1)) =~= texts_view(r@)
                    + named_words(v, i + 1));
            }
            i = i + 1;
        }
    }
    assert(texts_view(r@) + named_words(v, i as int) =~= texts_view(r@));
    r
}

/// The arguments from an index on that are not flags.
pub open spec fn plain_words(args: Seq<Seq<char>>, from: int) -> Seq<Seq<char>>
    decreases args.len() - from,
{
    if from < 0 || from >= args.len() {
        Seq::empty()
    } else if dashed(args[from]) {
        plain_words(args, from + 1)
    } else {
        seq![args[from]] + plain_words(args, from + 1)
    }
}

/// The arguments that are not flags.
pub fn plain_words_of(args: &[String]) -> (r: Vec<String>)
    ensures
        texts_view(r@) == plain_words(texts_view(args@), 0),
{
    let ghost v = texts_view(args@);
    let mut r: Vec<String> = Vec::new();
    let mut i: usize = 0;
    assert(texts_view(r@) =~= Seq::empty());
    assert(Seq::<Seq<char>>::empty() + plain_words(v, 0) =~= plain_words(v, 0));
    while i < args.len()
        invariant
            v == texts_view(args@),
            i <= args@.len(),
            plain_words(v, 0) == texts_view(r@) + plain_words(v, i as int),
        decreases args@.len() - i,
    {
        let ghost had = texts_view(r@);
        if !is_dashed(args[i].as_str()) {
            r.push(args[i].clone());
            assert(texts_view(r@) =~= had.push(v[i as int]));
            assert(had + (seq![v[i as int]] + plain_words(v, i + 1)) =~= texts_view(r@)
                + plain_words(v, i + 1));
        }
        i = i + 1;
    }
    assert(texts_view(r@) + plain_words(v, i as int) =~= texts_view(r@));
    r
}

/// The arguments from an index on that are not flags and do not follow a `-t`.
pub open spec fn badge_words(args: Seq<Seq<char>>, from: int) -> Seq<Seq<char>>
    decreases args.len() - from,
{
    if from < 0 || from >= args.len() {
        Seq::empty()
    } else if dashed(args[from]) || (from > 0 && args[from - 1] == "-t"@) {
        badge_words(args, from + 1)
    } else {
        seq![args[from]] + badge_words(args, from + 1)
    }
}

/// The arguments that are not flags and do not follow a `-t`.
pub fn badge_words_of(args: &[String]) -> (r: Vec<String>)
    ensures
        texts_view(r@) == badge_words(texts_view(args@), 0),
{
    let ghost v = texts_view(args@);
    let mut r: Vec<String> = Vec::new();
    let mut i: usize = 0;
    assert(texts_view(r@) =~= Seq::empty());
    assert(Seq::<Seq<char>>::empty() + badge_words(v, 0) =~= badge_words(v, 0));
    while i < args.len()
        invariant
            v == texts_view(args@),
            i <= args@.len(),
            badge_words(v, 0) == texts_view(r@) + badge_words(v, i as int),
        decreases args@.len() - i,
    {
        let ghost had = texts_view(r@);
        if !(is_dashed(args[i].as_str()) || (i > 0 && str_eq(args[i - 1].as_str(), "-t"))) {
            r.push(args[i].clone());
            assert(texts_view(r@) =~= had.push(v[i as int]));
            assert(had + (seq![v[i as int]] + badge_words(v, i + 1)) =~= texts_view(r@)
                + badge_words(v, i + 1));
        }
        i = i + 1;
    }
    assert(texts_view(r@) + badge_words(v, i as int) =~= texts_view(r@));
    r
}

/// The value of a flag at an index, and the index of that value: the argument behind it, or an
/// empty text.
pub open spec fn taken(args: Seq<Seq<char>>, i: int) -> Seq<char> {
    if i + 1 < args.len() {
        args[i + 1]
    } else {
        Seq::empty()
    }
}

/// Steps to the argument behind the one at `i` and returns it, or an empty text.
pub fn take(args: &[String], i: &mut usize) -> (s: String)
    requires
        *old(i) < usize::MAX,
    ensures
        *final(i) == *old(i) + 1,
        s@ == taken(texts_view(args@), *old(i) as int),
{
    *i = *i + 1;
    if *i < args.len() {
        args[*i].clone()
    } else {
        let s = String::new();
        assert(s@ =~= Seq::empty());
        s
    }
}

// ---------------------------------------------------------------------------
// Targets, numbers and colors.
// ---------------------------------------------------------------------------

/// A text without a character in front, however often it stands there.
pub open spec fn without_front(s: Seq<char>, c: char) -> Seq<char>
    decreases s.len(),
{
    if s.len() > 0 && s[0] == c {
        without_front(s.skip(1), c)
    } else {
        s
    }
}

/// A text without a character in front, however often it stands there.
fn trim_front<'a>(s: &'a [char], c: char) -> (r: &'a [char])
    ensures
        r@ == without_front(s@, c),
{
    let mut i: usize = 0;
    assert(s@.skip(0) =~= s@);
    while i < s.len() && s[i] == c
        invariant
            i <= s@.len(),
            without_front(s@, c) == without_front(s@.skip(i as int), c),
        decreases s@.len() - i,
    {
        assert(s@.skip(i as int).skip(1) =~= s@.skip(i + 1));
        i = i + 1;
    }
    let r = vstd::slice::slice_subrange(s, i, s.len());
    assert(r@ =~= s@.skip(i as int));
    r
}

/// The number behind a sigil that may be missing.
pub open spec fn target_of(s: Seq<char>, sigil: char) -> Option<nat> {
    parse_uint(without_front(s, sigil), false, u64::MAX as nat)
}

/// Reads `%5` or `5` as a pane.
pub fn parse_pane(s: &str) -> (r: Option<u64>)
    ensures
        match r {
            Some(n) => target_of(s@, '%') == Some(n as nat),
            None => target_of(s@, '%') is None,
        },
{
    let c = chars_of(s);
    parse_number(trim_front(c.as_slice(), '%'), false, u64::MAX)
}

/// Reads `@3` or `3` as a window, by the number that a pane list prints.
pub fn parse_window(s: &str) -> (r: Option<u64>)
    ensures
        match r {
            Some(n) => target_of(s@, '@') == Some(n as nat),
            None => target_of(s@, '@') is None,
        },
{
    let c = chars_of(s);
    parse_number(trim_front(c.as_slice(), '@'), false, u64::MAX)
}

/// The pane or window behind `-t`.
pub open spec fn target(args: Seq<Seq<char>>, sigil: char) -> Option<nat> {
    match value_of(args, "-t"@) {
        Some(s) => target_of(s, sigil),
        None => None,
    }
}

/// The pane behind `-t`.
pub fn pane_target(args: &[String]) -> (r: Option<u64>)
    ensures
        match r {
            Some(n) => target(texts_view(args@), '%') == Some(n as nat),
            None => target(texts_view(args@), '%') is None,
        },
{
    match flag_value(args, "-t") {
        Some(s) => parse_pane(s.as_str()),
        None => None,
    }
}

/// The window behind `-t`.
pub fn window_target(args: &[String]) -> (r: Option<u64>)
    ensures
        match r {
            Some(n) => target(texts_view(args@), '@') == Some(n as nat),
            None => target(texts_view(args@), '@') is None,
        },
{
    match flag_value(args, "-t") {
        Some(s) => parse_window(s.as_str()),
        None => None,
    }
}

/// A color in the form `#rrggbb`: six hexadecimal digits, in lower case.
pub open spec fn canonical_color(s: Seq<char>) -> Option<Seq<char>> {
    let body = without_front(trimmed(s), '#');
    if body.len() == 6 && all_digits(body, true) {
        Some(seq!['#'] + ascii_lower(body))
    } else {
        None
    }
}

/// Reads `#rrggbb` or `rrggbb`; none where it is not six hexadecimal digits.
pub fn normalize_hex(s: &str) -> (r: Option<String>)
    ensures
        opt_text(r) == canonical_color(s@),
{
    let c = chars_of(s);
    let body = trim_front(trim(c.as_slice()), '#');
    if body.len() != 6 {
        return None;
    }
    let mut i: usize = 0;
    while i < body.len()
        invariant
            i <= body@.len(),
            body@ == without_front(trimmed(s@), '#'),
            forall|k: int| 0 <= k < i ==> digit_of(#[trigger] body@[k], true) is Some,
        decreases body@.len() - i,
    {
        if crate::text::digit_value(body[i], true).is_none() {
            assert(digit_of(body@[i as int], true) is None);
            return None;
        }
        i = i + 1;
    }
    let mut r = String::from_str("#");
    r.append(string_of(to_ascii_lower(body).as_slice()).as_str());
    proof {
        reveal_strlit("#");
        assert("#"@ =~= seq!['#']);
    }
    Some(r)
}

/// How many lines `-S` asks for: none, `-` and what is no number mean all of them, which is zero.
pub open spec fn scrollback_of(arg: Option<Seq<char>>) -> nat {
    match arg {
        None => 0,
        Some(s) => if s == "-"@ {
            0
        } else {
            match parse_uint(s, false, usize::MAX as nat) {
                Some(n) => n,
                None => 0,
            }
        },
    }
}

/// Reads the argument of `-S`.
pub fn parse_scrollback(arg: Option<&str>) -> (n: usize)
    ensures
        n == scrollback_of(
            match arg {
                Some(s) => Some(s@),
                None => None,
            },
        ),
{
    match arg {
        None => 0,
        Some(s) => {
            if str_eq(s, "-") {
                return 0;
            }
            let c = chars_of(s);
            match parse_number(c.as_slice(), false, usize::MAX as u64) {
                Some(n) => n as usize,
                None => 0,
            }
        },
    }
}

// ---------------------------------------------------------------------------
// Commands behind `--`.
// ---------------------------------------------------------------------------

/// A text with a backslash in front of every quote, up to an index.
pub open spec fn quotes_escaped(a: Seq<char>, n: int) -> Seq<char>
    decreases n,
{
    if n <= 0 {
        Seq::empty()
    } else if a[n - 1] == '"' {
        quotes_escaped(a, n - 1).push('\\').push('"')
    } else {
        quotes_escaped(a, n - 1).push(a[n - 1])
    }
}

/// Whether an argument has to be quoted: it is empty, or holds a space or a tab.
pub open spec fn needs_quotes(a: Seq<char>) -> bool {
    a.len() == 0 || exists|i: int| 0 <= i < a.len() && (#[trigger] a[i] == ' ' || a[i] == '\t')
}

/// An argument as it stands in a command line.
pub open spec fn requoted(a: Seq<char>) -> Seq<char> {
    if needs_quotes(a) {
        seq!['"'] + quotes_escaped(a, a.len() as int) + seq!['"']
    } else {
        a
    }
}

/// An argument as it stands in a command line.
fn requote(a: &str) -> (r: String)
    ensures
        r@ == requoted(a@),
{
    let c = chars_of(a);
    let mut blank = c.len() == 0;
    let mut i: usize = 0;
    while i < c.len()
        invariant
            i <= c@.len(),
            blank == (c@.len() == 0 || exists|k: int|
                0 <= k < i && (#[trigger] c@[k] == ' ' || c@[k] == '\t')),
        decreases c@.len() - i,
    {
        if c[i] == ' ' || c[i] == '\t' {
            blank = true;
        }
        i = i + 1;
    }
    if !blank {
        return String::from_str(a);
    }
    let mut r = String::new();
    push_char(&mut r, '"');
    let mut i: usize = 0;
    assert(r@ =~= seq!['"'] + quotes_escaped(c@, 0));
    while i < c.len()
        invariant
            i <= c@.len(),
            r@ == seq!['"'] + quotes_escaped(c@, i as int),
        decreases c@.len() - i,
    {
        let ghost had = r@;
        if c[i] == '"' {
            push_char(&mut r, '\\');
        }
        push_char(&mut r, c[i]);
        i = i + 1;
        assert(r@ =~= seq!['"'] + quotes_escaped(c@, i as int));
    }
    push_char(&mut r, '"');
    assert(r@ =~= seq!['"'] + quotes_escaped(c@, c@.len() as int) + seq!['"']);
    r
}

/// A command line made of the first `n` arguments.
pub open spec fn command_of(args: Seq<Seq<char>>, n: int) -> Seq<char>
    decreases n,
{
    if n <= 0 {
        Seq::empty()
    } else if n == 1 {
        requoted(args[0])
    } else {
        command_of(args, n - 1).push(' ') + requoted(args[n - 1])
    }
}

/// A command line made of arguments: those that a shell had unwrapped are quoted again, so that the
/// program that is started reads the same arguments.
pub fn join_command(args: &[String]) -> (s: String)
    ensures
        s@ == command_of(texts_view(args@), args@.len() as int),
{
    let ghost v = texts_view(args@);
    let mut s = String::new();
    let mut i: usize = 0;
    assert(s@ =~= command_of(v, 0));
    while i < args.len()
        invariant
            i <= args@.len(),
            v == texts_view(args@),
            s@ == command_of(v, i as int),
        decreases args@.len() - i,
    {
        if i > 0 {
            push_char(&mut s, ' ');
        }
        s.append(requote(args[i].as_str()).as_str());
        i = i + 1;
        assert(s@ =~= command_of(v, i as int));
    }
    s
}

/// The command line behind `--`, where there is one.
pub open spec fn trailing_command(args: Seq<Seq<char>>) -> Option<Seq<char>> {
    match find(args, "--"@, 0) {
        Some(i) => {
            let rest = args.skip(i + 1);
            let s = command_of(rest, rest.len() as int);
            if s.len() == 0 {
                None
            } else {
                Some(s)
            }
        },
        None => None,
    }
}

/// The command line behind `--`, where there is one.
pub fn command_behind(args: &[String]) -> (r: Option<String>)
    ensures
        opt_text(r) == trailing_command(texts_view(args@)),
{
    let _fits: usize = args.len();
    match flag_position(args, "--") {
        Some(i) => {
            let rest = vstd::slice::slice_subrange(args, i + 1, args.len());
            assert(texts_view(rest@) =~= texts_view(args@).skip(i + 1));
            let s = join_command(rest);
            let empty = chars_of(s.as_str()).len() == 0;
            if empty {
                None
            } else {
                Some(s)
            }
        },
        None => None,
    }
}

/// The arguments before `--`.
pub open spec fn options(args: Seq<Seq<char>>) -> Seq<Seq<char>> {
    match find(args, "--"@, 0) {
        Some(i) => args.take(i),
        None => args,
    }
}

/// The arguments before `--`.
pub fn options_of<'a>(args: &'a [String]) -> (r: &'a [String])
    ensures
        texts_view(r@) == options(texts_view(args@)),
{
    match flag_position(args, "--") {
        Some(i) => {
            let r = vstd::slice::slice_subrange(args, 0, i);
            assert(texts_view(r@) =~= texts_view(args@).take(i as int));
            r
        },
        None => args,
    }
}

/// What the arguments of `ssh-tmux` say from an index on: the first that is no option is the
/// target, and the last `--command` gives the command.
pub open spec fn ssh_scan(
    args: Seq<Seq<char>>,
    from: int,
    target: Option<Seq<char>>,
    command: Option<Seq<char>>,
) -> (Option<Seq<char>>, Option<Seq<char>>)
    decreases args.len() + 1 - from,
{
    if from < 0 || from >= args.len() {
        (target, command)
    } else if args[from] == "--command"@ {
        ssh_scan(
            args,
            from + 2,
            target,
            if from + 1 < args.len() {
                Some(args[from + 1])
            } else {
                None
            },
        )
    } else if target is None && !dashed(args[from]) {
        ssh_scan(args, from + 1, Some(args[from]), command)
    } else {
        ssh_scan(args, from + 1, target, command)
    }
}

/// The target and the command of `ssh-tmux`; none where there is neither.
pub open spec fn ssh_request(args: Seq<Seq<char>>) -> Option<(Seq<char>, Option<Seq<char>>)> {
    match ssh_scan(args, 0, None, None) {
        (Some(t), c) => Some((t, c)),
        (None, Some(c)) => Some((Seq::empty(), Some(c))),
        (None, None) => None,
    }
}

/// The mathematical value of a target and a command.
pub open spec fn ssh_view(r: Option<(String, Option<String>)>) -> Option<
    (Seq<char>, Option<Seq<char>>),
> {
    match r {
        Some((t, c)) => Some((t@, opt_text(c))),
        None => None,
    }
}

/// Reads the arguments of `ssh-tmux`: a target, and a command line that replaces the whole
/// transport.
pub fn parse_ssh_tmux(args: &[String]) -> (r: Option<(String, Option<String>)>)
    ensures
        ssh_view(r) == ssh_request(texts_view(args@)),
{
    let ghost v = texts_view(args@);
    let mut target: Option<String> = None;
    let mut command: Option<String> = None;
    let mut i: usize = 0;
    while i < args.len()
        invariant
            v == texts_view(args@),
            ssh_scan(v, 0, None, None) == ssh_scan(v, i as int, opt_text(target), opt_text(command)),
        decreases args@.len() - i,
    {
        if str_eq(args[i].as_str(), "--command") {
            if i + 1 < args.len() {
                command = Some(args[i + 1].clone());
                i = i + 2;
            } else {
                command = None;
                assert(ssh_scan(v, i + 2, opt_text(target), None) == ssh_scan(
                    v,
                    v.len() as int,
                    opt_text(target),
                    None,
                ));
                i = args.len();
            }
        } else {
            if target.is_none() && !is_dashed(args[i].as_str()) {
                target = Some(args[i].clone());
            }
            i = i + 1;
        }
    }
    match (target, command) {
        (Some(t), c) => Some((t, c)),
        (None, Some(c)) => {
            let t = String::new();
            assert(t@ =~= Seq::empty());
            Some((t, Some(c)))
        },
        (None, None) => None,
    }
}

// ---------------------------------------------------------------------------
// Addresses.
// ---------------------------------------------------------------------------

/// An upper-case hexadecimal digit.
pub open spec fn hex_upper(n: int) -> char {
    if n < 10 {
        (48 + n) as char
    } else {
        (55 + n) as char
    }
}

/// A byte in the query of an address.
pub open spec fn query_byte(b: u8) -> Seq<char> {
    if (65 <= b <= 90) || (97 <= b <= 122) || (48 <= b <= 57) || b == 45 || b == 95 || b == 46 || b
        == 126 {
        seq![b as char]
    } else if b == 32 {
        seq!['+']
    } else {
        seq!['%', hex_upper(b as int / 16), hex_upper(b as int % 16)]
    }
}

/// The first `n` bytes of a text in the query of an address.
pub open spec fn query_of(bytes: Seq<u8>, n: int) -> Seq<char>
    decreases n,
{
    if n <= 0 {
        Seq::empty()
    } else {
        query_of(bytes, n - 1) + query_byte(bytes[n - 1])
    }
}

fn hex_digit(n: u8) -> (c: char)
    requires
        n < 16,
    ensures
        c == hex_upper(n as int),
{
    if n < 10 {
        (48 + n) as char
    } else {
        (55 + n) as char
    }
}

/// Where `browse` leads: an address with a scheme is taken as it is, a single word with a dot is a
/// domain, and all else is a search.
pub open spec fn browse_url(input: Seq<char>) -> Seq<char> {
    let t = trimmed(input);
    if has_prefix(t, "http://"@) || has_prefix(t, "https://"@) {
        t
    } else if find(t, ' ', 0) is None && find(t, '.', 0) is Some {
        "https://"@ + t
    } else {
        let bytes = encode_utf8(t);
        "https://duckduckgo.com/?q="@ + query_of(bytes, bytes.len() as int)
    }
}

/// Where `browse` leads.
pub fn browse_target(input: &str) -> (r: String)
    ensures
        r@ == browse_url(input@),
{
    let c = chars_of(input);
    let t = trim(c.as_slice());
    let word = string_of(t);
    if starts_with(t, "http://") || starts_with(t, "https://") {
        return word;
    }
    if find_char(t, ' ', 0).is_none() && find_char(t, '.', 0).is_some() {
        let mut r = String::from_str("https://");
        r.append(word.as_str());
        return r;
    }
    let bytes = word.as_str().as_bytes();
    let ghost all = encode_utf8(t@);
    assert(bytes@ == all);
    let mut q = String::new();
    let mut i: usize = 0;
    assert(q@ =~= query_of(all, 0));
    while i < bytes.len()
        invariant
            i <= bytes@.len(),
            bytes@ == all,
            q@ == query_of(all, i as int),
        decreases bytes@.len() - i,
    {
        let b: u8 = bytes[i];
        let ghost had = q@;
        if (65 <= b && b <= 90) || (97 <= b && b <= 122) || (48 <= b && b <= 57) || b == 45 || b
            == 95 || b == 46 || b == 126 {
            push_char(&mut q, b as char);
        } else if b == 32 {
            push_char(&mut q, '+');
        } else {
            push_char(&mut q, '%');
            push_char(&mut q, hex_digit(b / 16));
            push_char(&mut q, hex_digit(b % 16));
        }
        assert(q@ =~= had + query_byte(b));
        i = i + 1;
    }
    let mut r = String::from_str("https://duckduckgo.com/?q=");
    r.append(q.as_str());
    r
}

// ---------------------------------------------------------------------------
// Fields of escape sequences.
// ---------------------------------------------------------------------------

/// The field of an escape sequence that carries a text: without control characters, and in a title
/// with commas in place of the semicolons that separate fields.
pub open spec fn field_text(s: Seq<char>, is_title: bool) -> Seq<char>
    decreases s.len(),
{
    if s.len() == 0 {
        Seq::empty()
    } else if control(s.last()) {
        field_text(s.drop_last(), is_title)
    } else if is_title && s.last() == ';' {
        field_text(s.drop_last(), is_title).push(',')
    } else {
        field_text(s.drop_last(), is_title).push(s.last())
    }
}

/// The field of an escape sequence that carries a text.
pub fn osc_field(s: &str, is_title: bool) -> (r: String)
    ensures
        r@ == field_text(s@, is_title),
{
    let c = chars_of(s);
    let mut r = String::new();
    let mut i: usize = 0;
    assert(r@ =~= Seq::empty());
    while i < c.len()
        invariant
            i <= c@.len(),
            r@ == field_text(c@.take(i as int), is_title),
        decreases c@.len() - i,
    {
        assert(c@.take(i + 1).drop_last() =~= c@.take(i as int));
        if !is_control(c[i]) {
            push_char(
                &mut r,
                if is_title && c[i] == ';' {
                    ','
                } else {
                    c[i]
                },
            );
        }
        i = i + 1;
    }
    assert(c@.take(i as int) =~= c@);
    r
}

// ---------------------------------------------------------------------------
// Laws.
// ---------------------------------------------------------------------------

/// No field ends its sequence or opens another: it holds no control character, and a title no
/// semicolon.
pub proof fn fields_stay_in_their_sequence(s: Seq<char>, is_title: bool)
    ensures
        forall|i: int|
            0 <= i < field_text(s, is_title).len() ==> !control(#[trigger] field_text(s, is_title)[i]),
        is_title ==> forall|i: int|
            0 <= i < field_text(s, is_title).len() ==> #[trigger] field_text(s, is_title)[i] != ';',
    decreases s.len(),
{
    if s.len() > 0 {
        fields_stay_in_their_sequence(s.drop_last(), is_title);
        let f = field_text(s, is_title);
        let g = field_text(s.drop_last(), is_title);
        assert forall|i: int| 0 <= i < f.len() implies !control(#[trigger] f[i]) && (is_title
            ==> f[i] != ';') by {
            if i < g.len() {
                assert(f[i] == g[i]);
            }
        }
    }
}

/// A color that was made canonical stays as it is.
pub proof fn canonical_colors_are_stable(s: Seq<char>)
    ensures
        canonical_color(s) matches Some(c) ==> canonical_color(c) == Some(c),
{
    if let Some(c) = canonical_color(s) {
        let body = without_front(trimmed(s), '#');
        let low = ascii_lower(body);
        assert forall|i: int| 0 <= i < 6 implies digit_of(#[trigger] low[i], true) is Some by {
            assert(digit_of(body[i], true) is Some);
        }
        assert(c.len() == 7 && c[0] == '#');
        reveal_with_fuel(crate::text::trim_start_at, 2);
        reveal_with_fuel(crate::text::trim_end_at, 2);
        assert(low[5] == c[6]);
        assert(digit_of(c[6], true) is Some);
        assert(trimmed(c) =~= c);
        assert(c.skip(1) =~= low);
        assert(digit_of(low[0], true) is Some);
        reveal_with_fuel(without_front, 2);
        assert(without_front(c, '#') == low);
        assert(ascii_lower(low) =~= low);
    }
}

} // verus!
