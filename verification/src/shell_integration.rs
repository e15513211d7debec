//! The PowerShell snippet with which shells report their state, and its place in a profile.
//!
//! The snippet wraps the user's prompt to emit, on every prompt inside this terminal, the start of
//! the prompt and the working directory. In a profile it stands between two marker lines, so that
//! installing it again replaces the block in place of adding another.
use vstd::prelude::*;
use vstd::string::*;

#[allow(unused_imports)]
use crate::hooks::line_ended;
use crate::text::{chars_of, position_from, position_of, push_char, string_of};
#[allow(unused_imports)]
use crate::text::{find_text, texts_view};

verus! {

pub const BEGIN_MARKER: &'static str = "# >>> gmux shell integration >>>";

pub const END_MARKER: &'static str = "# <<< gmux shell integration <<<";

/// The body of the snippet, between the markers. It wraps the existing prompt and keeps its output;
/// the guard keeps a profile that is read twice from wrapping twice.
pub open spec fn snippet() -> Seq<char> {
    "if ($env:TERM_PROGRAM -eq 'gmux' -and -not $global:__gmux_prompt) {\n"@
        + "    $global:__gmux_prompt = $function:prompt\n"@ + "    function global:prompt {\n"@
        + "        Write-Host -NoNewline \"$([char]27)]133;A$([char]7)\"\n"@
        + "        Write-Host -NoNewline \"$([char]27)]9;9;`\"$($PWD.Path)`\"$([char]7)\"\n"@
        + "        & $global:__gmux_prompt\n"@ + "    }\n"@ + "}"@
}

/// The whole block, markers and all.
pub open spec fn block_text() -> Seq<char> {
    BEGIN_MARKER@ + "\n"@ + snippet() + "\n"@ + END_MARKER@ + "\n"@
}

/// The whole block, as it is printed and as it stands in a profile.
pub fn block() -> (s: String)
    ensures
        s@ == block_text(),
{
    let mut s = String::from_str(BEGIN_MARKER);
    s.append("\n");
    let ghost head = s@;
    let mut body = String::from_str(
        "if ($env:TERM_PROGRAM -eq 'gmux' -and -not $global:__gmux_prompt) {\n",
    );
    body.append("    $global:__gmux_prompt = $function:prompt\n");
    body.append("    function global:prompt {\n");
    body.append("        Write-Host -NoNewline \"$([char]27)]133;A$([char]7)\"\n");
    body.append("        Write-Host -NoNewline \"$([char]27)]9;9;`\"$($PWD.Path)`\"$([char]7)\"\n");
    body.append("        & $global:__gmux_prompt\n");
    body.append("    }\n");
    body.append("}");
    assert(body@ == snippet());
    s.append(body.as_str());
    s.append("\n");
    s.append(END_MARKER);
    s.append("\n");
    s
}

/// The profiles to install into, below the documents folder: those of the two PowerShell versions
/// whose folders exist, or else that of the newer one.
pub open spec fn profiles(newer: bool, older: bool) -> Seq<Seq<char>> {
    if newer && older {
        seq!["PowerShell"@, "WindowsPowerShell"@]
    } else if older {
        seq!["WindowsPowerShell"@]
    } else {
        seq!["PowerShell"@]
    }
}

/// The folders whose `profile.ps1` gets the snippet, given which of the two exist.
pub fn install(newer: bool, older: bool) -> (r: Vec<String>)
    ensures
        texts_view(r@) == profiles(newer, older),
{
    let mut r: Vec<String> = Vec::new();
    if newer || !older {
        r.push(String::from_str("PowerShell"));
    }
    if older {
        r.push(String::from_str("WindowsPowerShell"));
    }
    assert(texts_view(r@) =~= profiles(newer, older));
    r
}

/// The first index at or after another that holds no line break.
pub open spec fn skip_breaks(s: Seq<char>, from: int) -> int
    decreases s.len() - from,
{
    if 0 <= from < s.len() && (s[from] == '\r' || s[from] == '\n') {
        skip_breaks(s, from + 1)
    } else {
        from
    }
}

/// Where the block of a profile stands: at the first opening marker, through the first closing one
/// behind it.
pub open spec fn block_at(existing: Seq<char>) -> Option<(int, int)> {
    match find_text(existing, BEGIN_MARKER@, 0) {
        Some(start) => match find_text(existing, END_MARKER@, start) {
            Some(end) => Some((start, end)),
            None => None,
        },
        None => None,
    }
}

/// A profile with the block, and whether it replaced another, through the line breaks behind it;
/// else the block stands on lines of its own at the end.
pub open spec fn installed(existing: Seq<char>) -> (Seq<char>, bool) {
    match block_at(existing) {
        Some((start, end)) => (
            existing.take(start) + block_text() + existing.skip(
                skip_breaks(existing, end + END_MARKER@.len()),
            ),
            true,
        ),
        None => (line_ended(existing) + block_text(), false),
    }
}

/// What was done, in words; the path of the profile follows.
pub open spec fn action_text(replaced: bool) -> Seq<char> {
    "shell-integration: "@ + (if replaced {
        "replaced"@
    } else {
        "added"@
    }) + " snippet in "@
}

/// Installs the block into the text of a profile: the new text, and what was done in words.
pub fn install_into(existing: &str) -> (r: (String, String))
    ensures
        r.0@ == installed(existing@).0,
        r.1@ == action_text(installed(existing@).1),
{
    let chars = chars_of(existing);
    let n: usize = chars.len();
    let mut done = String::from_str("shell-integration: ");
    if let Some(start) = position_of(chars.as_slice(), BEGIN_MARKER) {
        if let Some(end) = position_from(chars.as_slice(), END_MARKER, start) {
            let mut after: usize = end + chars_of(END_MARKER).len();
            let ghost from = after as int;
            while after < n && (chars[after] == '\r' || chars[after] == '\n')
                invariant
                    n == chars@.len(),
                    from <= after <= n,
                    0 <= from,
                    skip_breaks(chars@, from) == skip_breaks(chars@, after as int),
                decreases n - after,
            {
                after = after + 1;
            }
            let mut out = string_of(vstd::slice::slice_subrange(chars.as_slice(), 0, start));
            assert(out@ =~= existing@.take(start as int));
            out.append(block().as_str());
            let rest = string_of(vstd::slice::slice_subrange(chars.as_slice(), after, n));
            assert(rest@ =~= existing@.skip(after as int));
            out.append(rest.as_str());
            done.append("replaced");
            done.append(" snippet in ");
            return (out, done);
        }
    }
    let mut out = String::from_str(existing);
    if n > 0 && chars[n - 1] != '\n' {
        push_char(&mut out, '\n');
    }
    out.append(block().as_str());
    done.append("added");
    done.append(" snippet in ");
    (out, done)
}

// ---------------------------------------------------------------------------
// Laws.
// ---------------------------------------------------------------------------

/// Whether none of the first `n` characters is a given one.
spec fn lacks(s: Seq<char>, c: char, n: nat) -> bool
    decreases n,
{
    n == 0 || (s[n - 1] != c && lacks(s, c, (n - 1) as nat))
}

proof fn lemma_lacks(s: Seq<char>, c: char, n: nat)
    requires
        lacks(s, c, n),
    ensures
        forall|i: int| 0 <= i < n ==> #[trigger] s[i] != c,
    decreases n,
{
    if n > 0 {
        lemma_lacks(s, c, (n - 1) as nat);
    }
}

/// What the markers and the snippet are made of, as far as finding them again goes.
proof fn lemma_texts()
    ensures
        BEGIN_MARKER@.len() == 32,
        END_MARKER@.len() == 32,
        END_MARKER@[2] == '<',
        forall|i: int| 0 <= i < 32 ==> #[trigger] BEGIN_MARKER@[i] != '\n',
        forall|i: int| 0 <= i < 32 ==> #[trigger] END_MARKER@[i] != '\n',
        forall|i: int| 0 <= i < 32 ==> #[trigger] BEGIN_MARKER@[i] != '<',
        forall|i: int| 1 <= i < 32 ==> #[trigger] BEGIN_MARKER@[i] != '#',
        BEGIN_MARKER@[0] == '#',
        BEGIN_MARKER@[2] == '>',
        forall|i: int| 0 <= i < 32 ==> #[trigger] END_MARKER@[i] != '>',
        forall|i: int| 0 <= i < snippet().len() ==> #[trigger] snippet()[i] != '<',
        forall|i: int| 0 <= i < snippet().len() ==> #[trigger] snippet()[i] != '>',
{
    reveal_with_fuel(lacks, 33);
    reveal_strlit("# >>> gmux shell integration >>>");
    reveal_strlit("# <<< gmux shell integration <<<");
    lemma_lacks(BEGIN_MARKER@, '\n', 32);
    lemma_lacks(END_MARKER@, '\n', 32);
    lemma_lacks(BEGIN_MARKER@, '<', 32);
    lemma_lacks(END_MARKER@, '>', 32);
    let tail = BEGIN_MARKER@.skip(1);
    lemma_lacks(tail, '#', 31);
    assert forall|i: int| 1 <= i < 32 implies #[trigger] BEGIN_MARKER@[i] != '#' by {
        assert(tail[i - 1] == BEGIN_MARKER@[i]);
    }
    lemma_snippet();
}

/// Whether a text holds neither angle bracket.
spec fn no_angles(s: Seq<char>) -> bool {
    forall|i: int| 0 <= i < s.len() ==> #[trigger] s[i] != '<' && s[i] != '>'
}

proof fn lemma_no_angles_behind(a: Seq<char>, b: Seq<char>)
    requires
        no_angles(a),
        no_angles(b),
    ensures
        no_angles(a + b),
{
    assert forall|i: int| 0 <= i < (a + b).len() implies #[trigger] (a + b)[i] != '<' && (a + b)[i]
        != '>' by {
        if i < a.len() {
            assert((a + b)[i] == a[i]);
        } else {
            assert((a + b)[i] == b[i - a.len()]);
        }
    }
}

#[verifier::spinoff_prover]
proof fn lemma_guard()
    ensures
        no_angles("if ($env:TERM_PROGRAM -eq 'gmux' -and -not $global:__gmux_prompt) {\n"@),
{
    let s = "if ($env:TERM_PROGRAM -eq 'gmux' -and -not $global:__gmux_prompt) {\n"@;
    assert(lacks(s, '<', s.len())) by {
        reveal_strlit("if ($env:TERM_PROGRAM -eq 'gmux' -and -not $global:__gmux_prompt) {\n");
        reveal_with_fuel(lacks, 90);
    }
    assert(lacks(s, '>', s.len())) by {
        reveal_strlit("if ($env:TERM_PROGRAM -eq 'gmux' -and -not $global:__gmux_prompt) {\n");
        reveal_with_fuel(lacks, 90);
    }
    lemma_lacks(s, '<', s.len());
    lemma_lacks(s, '>', s.len());
}

#[verifier::spinoff_prover]
proof fn lemma_saved()
    ensures
        no_angles("    $global:__gmux_prompt = $function:prompt\n"@),
{
    let s = "    $global:__gmux_prompt = $function:prompt\n"@;
    assert(lacks(s, '<', s.len())) by {
        reveal_strlit("    $global:__gmux_prompt = $function:prompt\n");
        reveal_with_fuel(lacks, 90);
    }
    assert(lacks(s, '>', s.len())) by {
        reveal_strlit("    $global:__gmux_prompt = $function:prompt\n");
        reveal_with_fuel(lacks, 90);
    }
    lemma_lacks(s, '<', s.len());
    lemma_lacks(s, '>', s.len());
}

#[verifier::spinoff_prover]
proof fn lemma_opening()
    ensures
        no_angles("    function global:prompt {\n"@),
{
    let s = "    function global:prompt {\n"@;
    assert(lacks(s, '<', s.len())) by {
        reveal_strlit("    function global:prompt {\n");
        reveal_with_fuel(lacks, 90);
    }
    assert(lacks(s, '>', s.len())) by {
        reveal_strlit("    function global:prompt {\n");
        reveal_with_fuel(lacks, 90);
    }
    lemma_lacks(s, '<', s.len());
    lemma_lacks(s, '>', s.len());
}

#[verifier::spinoff_prover]
proof fn lemma_mark()
    ensures
        no_angles("        Write-Host -NoNewline \"$([char]27)]133;A$([char]7)\"\n"@),
{
    let s = "        Write-Host -NoNewline \"$([char]27)]133;A$([char]7)\"\n"@;
    assert(lacks(s, '<', s.len())) by {
        reveal_strlit("        Write-Host -NoNewline \"$([char]27)]133;A$([char]7)\"\n");
        reveal_with_fuel(lacks, 90);
    }
    assert(lacks(s, '>', s.len())) by {
        reveal_strlit("        Write-Host -NoNewline \"$([char]27)]133;A$([char]7)\"\n");
        reveal_with_fuel(lacks, 90);
    }
    lemma_lacks(s, '<', s.len());
    lemma_lacks(s, '>', s.len());
}

#[verifier::spinoff_prover]
proof fn lemma_directory()
    ensures
        no_angles("        Write-Host -NoNewline \"$([char]27)]9;9;`\"$($PWD.Path)`\"$([char]7)\"\n"@),
{
    let s = "        Write-Host -NoNewline \"$([char]27)]9;9;`\"$($PWD.Path)`\"$([char]7)\"\n"@;
    assert(lacks(s, '<', s.len())) by {
        reveal_strlit("        Write-Host -NoNewline \"$([char]27)]9;9;`\"$($PWD.Path)`\"$([char]7)\"\n");
        reveal_with_fuel(lacks, 90);
    }
    assert(lacks(s, '>', s.len())) by {
        reveal_strlit("        Write-Host -NoNewline \"$([char]27)]9;9;`\"$($PWD.Path)`\"$([char]7)\"\n");
        reveal_with_fuel(lacks, 90);
    }
    lemma_lacks(s, '<', s.len());
    lemma_lacks(s, '>', s.len());
}

#[verifier::spinoff_prover]
proof fn lemma_call()
    ensures
        no_angles("        & $global:__gmux_prompt\n"@),
{
    let s = "        & $global:__gmux_prompt\n"@;
    assert(lacks(s, '<', s.len())) by {
        reveal_strlit("        & $global:__gmux_prompt\n");
        reveal_with_fuel(lacks, 90);
    }
    assert(lacks(s, '>', s.len())) by {
        reveal_strlit("        & $global:__gmux_prompt\n");
        reveal_with_fuel(lacks, 90);
    }
    lemma_lacks(s, '<', s.len());
    lemma_lacks(s, '>', s.len());
}

#[verifier::spinoff_prover]
proof fn lemma_inner()
    ensures
        no_angles("    }\n"@),
{
    let s = "    }\n"@;
    assert(lacks(s, '<', s.len())) by {
        reveal_strlit("    }\n");
        reveal_with_fuel(lacks, 90);
    }
    assert(lacks(s, '>', s.len())) by {
        reveal_strlit("    }\n");
        reveal_with_fuel(lacks, 90);
    }
    lemma_lacks(s, '<', s.len());
    lemma_lacks(s, '>', s.len());
}

#[verifier::spinoff_prover]
proof fn lemma_outer()
    ensures
        no_angles("}"@),
{
    let s = "}"@;
    assert(lacks(s, '<', s.len())) by {
        reveal_strlit("}");
        reveal_with_fuel(lacks, 90);
    }
    assert(lacks(s, '>', s.len())) by {
        reveal_strlit("}");
        reveal_with_fuel(lacks, 90);
    }
    lemma_lacks(s, '<', s.len());
    lemma_lacks(s, '>', s.len());
}

proof fn lemma_snippet()
    ensures
        no_angles(snippet()),
{
    let a = "if ($env:TERM_PROGRAM -eq 'gmux' -and -not $global:__gmux_prompt) {\n"@;
    let b = "    $global:__gmux_prompt = $function:prompt\n"@;
    let c = "    function global:prompt {\n"@;
    let d = "        Write-Host -NoNewline \"$([char]27)]133;A$([char]7)\"\n"@;
    let e = "        Write-Host -NoNewline \"$([char]27)]9;9;`\"$($PWD.Path)`\"$([char]7)\"\n"@;
    let f = "        & $global:__gmux_prompt\n"@;
    let g = "    }\n"@;
    let h = "}"@;
    lemma_guard();
    lemma_saved();
    lemma_opening();
    lemma_mark();
    lemma_directory();
    lemma_call();
    lemma_inner();
    lemma_outer();
    lemma_no_angles_behind(a, b);
    lemma_no_angles_behind(a + b, c);
    lemma_no_angles_behind(a + b + c, d);
    lemma_no_angles_behind(a + b + c + d, e);
    lemma_no_angles_behind(a + b + c + d + e, f);
    lemma_no_angles_behind(a + b + c + d + e + f, g);
    lemma_no_angles_behind(a + b + c + d + e + f + g, h);
}

/// A text is found at an index where it stands and not before.
proof fn lemma_found(s: Seq<char>, q: Seq<char>, from: int, at: int)
    requires
        0 <= from <= at,
        at + q.len() <= s.len(),
        s.subrange(at, at + q.len()) == q,
        forall|i: int| from <= i < at ==> #[trigger] s.subrange(i, i + q.len()) != q,
    ensures
        find_text(s, q, from) == Some(at),
    decreases at - from,
{
    if from < at {
        lemma_found(s, q, from + 1, at);
    }
}

proof fn lemma_find_text(s: Seq<char>, q: Seq<char>, from: int)
    requires
        0 <= from,
    ensures
        match find_text(s, q, from) {
            Some(at) => from <= at && at + q.len() <= s.len() && s.subrange(at, at + q.len()) == q
                && forall|i: int| from <= i < at ==> #[trigger] s.subrange(i, i + q.len()) != q,
            None => forall|i: int|
                from <= i && i + q.len() <= s.len() ==> #[trigger] s.subrange(i, i + q.len()) != q,
        },
    decreases s.len() - from,
{
    if from + q.len() <= s.len() && s.subrange(from, from + q.len()) != q && from < s.len() {
        lemma_find_text(s, q, from + 1);
    }
}

proof fn lemma_skip_breaks(s: Seq<char>, from: int)
    requires
        0 <= from <= s.len(),
    ensures
        from <= skip_breaks(s, from) <= s.len(),
        skip_breaks(s, from) < s.len() ==> s[skip_breaks(s, from)] != '\r' && s[skip_breaks(s, from)]
            != '\n',
    decreases s.len() - from,
{
    if from < s.len() && (s[from] == '\r' || s[from] == '\n') {
        lemma_skip_breaks(s, from + 1);
    }
}

/// A profile in which the block stands first, and whose rest starts with no line break, stays as it
/// is.
proof fn lemma_reinstalled(head: Seq<char>, rest: Seq<char>)
    requires
        forall|i: int|
            0 <= i < head.len() ==> #[trigger] (head + block_text() + rest).subrange(i, i + 32)
                != BEGIN_MARKER@,
        rest.len() > 0 ==> rest[0] != '\r' && rest[0] != '\n',
    ensures
        installed(head + block_text() + rest) == (head + block_text() + rest, true),
{
    lemma_texts();
    let out = head + block_text() + rest;
    let start = head.len() as int;
    let body = BEGIN_MARKER@ + "\n"@ + snippet() + "\n"@;
    reveal_strlit("\n");
    let end = start + body.len();
    assert(block_text() =~= body + END_MARKER@ + "\n"@);
    assert(out.subrange(start, start + 32) =~= BEGIN_MARKER@);
    assert(out.subrange(end, end + 32) =~= END_MARKER@);
    lemma_found(out, BEGIN_MARKER@, 0, start);
    assert forall|i: int| start <= i < end implies #[trigger] out.subrange(i, i + 32)
        != END_MARKER@ by {
        if out.subrange(i, i + 32) == END_MARKER@ {
            assert(out.subrange(i, i + 32)[2] == '<');
            let k = i + 2 - start;
            assert(out[i + 2] == '<');
            if k < body.len() {
                assert(out[i + 2] == body[k]);
                if k < 32 {
                    assert(body[k] == BEGIN_MARKER@[k]);
                } else if k == 32 {
                } else if k < 33 + snippet().len() {
                    assert(body[k] == snippet()[k - 33]);
                }
            } else {
                // One or two characters before the marker: its third would be its first or second.
                assert(i == end - 2 || i == end - 1);
                reveal_strlit("# <<< gmux shell integration <<<");
                assert(out[i + 2] == END_MARKER@[i + 2 - end]);
            }
        }
    }
    lemma_found(out, END_MARKER@, start, end);
    assert(out[end + 32] == '\n');
    reveal_with_fuel(skip_breaks, 3);
    if rest.len() > 0 {
        assert(out[end + 33] == rest[0]);
    }
    assert(skip_breaks(out, end + 32) == end + 33);
    assert(out.take(start) =~= head);
    assert(out.skip(end + 33) =~= rest);
}

/// Installing twice is installing once, in every profile but one that opens a block and never closes
/// it.
pub proof fn installing_is_idempotent(existing: Seq<char>)
    requires
        find_text(existing, BEGIN_MARKER@, 0) is Some ==> block_at(existing) is Some,
    ensures
        installed(installed(existing).0) == (installed(existing).0, true),
        installed(existing).1 == (block_at(existing) is Some),
{
    lemma_texts();
    lemma_find_text(existing, BEGIN_MARKER@, 0);
    match block_at(existing) {
        Some((start, end)) => {
            lemma_find_text(existing, END_MARKER@, start);
            let next = skip_breaks(existing, end + 32);
            lemma_skip_breaks(existing, end + 32);
            let (head, rest) = (existing.take(start), existing.skip(next));
            let out = head + block_text() + rest;
            reveal_strlit("\n");
            assert forall|i: int| 0 <= i < head.len() implies #[trigger] out.subrange(i, i + 32)
                != BEGIN_MARKER@ by {
                let (new, was) = (out.subrange(i, i + 32), existing.subrange(i, i + 32));
                assert forall|k: int| 0 <= k < 32 implies #[trigger] new[k] == was[k] by {
                    if i + k >= start {
                        assert(existing.subrange(start, start + 32)[i + k - start]
                            == existing[i + k]);
                        assert(out[i + k] == BEGIN_MARKER@[i + k - start]);
                    }
                }
                assert(new =~= was);
            }
            lemma_reinstalled(head, rest);
        },
        None => {
            let head = line_ended(existing);
            let rest = Seq::<char>::empty();
            assert(head + block_text() + rest =~= head + block_text());
            assert forall|i: int| 0 <= i < head.len() implies #[trigger] (head + block_text()
                + rest).subrange(i, i + 32) != BEGIN_MARKER@ by {
                lemma_not_in_head(existing, BEGIN_MARKER@, head + block_text(), i);
            }
            lemma_reinstalled(head, rest);
        },
    }
}

/// The block stands once in a profile that had no opening marker, whatever else it held: a stray
/// closing marker brings no second block.
pub proof fn the_block_stands_once(existing: Seq<char>, i: int)
    requires
        find_text(existing, BEGIN_MARKER@, 0) is None,
        0 <= i,
        i + BEGIN_MARKER@.len() <= installed(installed(existing).0).0.len(),
    ensures
        installed(installed(existing).0).0.subrange(i, i + BEGIN_MARKER@.len()) == BEGIN_MARKER@
            <==> i == line_ended(existing).len(),
{
    lemma_texts();
    installing_is_idempotent(existing);
    lemma_find_text(existing, BEGIN_MARKER@, 0);
    let head = line_ended(existing);
    let start = head.len() as int;
    let out = head + block_text();
    assert(installed(existing).0 == out);
    reveal_strlit("\n");
    if i < start {
        lemma_not_in_head(existing, BEGIN_MARKER@, out, i);
    } else if i == start {
        assert(out.subrange(i, i + 32) =~= BEGIN_MARKER@);
    } else if out.subrange(i, i + 32) == BEGIN_MARKER@ {
        assert(out.subrange(i, i + 32)[0] == '#');
        assert(out.subrange(i, i + 32)[2] == '>');
        let body = BEGIN_MARKER@ + "\n"@ + snippet() + "\n"@;
        assert(block_text() =~= body + END_MARKER@ + "\n"@);
        let k = i - start;
        let n = snippet().len() as int;
        assert(out[i] == block_text()[k] && out[i + 2] == block_text()[k + 2]);
        if k < 32 {
            assert(block_text()[k] == BEGIN_MARKER@[k]);
        } else if k + 2 < 33 {
        } else if k + 2 < 33 + n {
            assert(block_text()[k + 2] == snippet()[k + 2 - 33]);
        } else if k + 2 < 34 + n {
            assert(block_text()[k + 2] == '\n');
        } else if k + 2 < 66 + n {
            assert(block_text()[k + 2] == END_MARKER@[k + 2 - 34 - n]);
        }
    }
}

/// A marker that does not occur in a text, and has no line break, does not start in it either once
/// more lines follow.
proof fn lemma_not_in_head(existing: Seq<char>, q: Seq<char>, out: Seq<char>, i: int)
    requires
        q.len() == 32,
        forall|k: int| 0 <= k < 32 ==> #[trigger] q[k] != '\n',
        forall|k: int| 0 <= k && k + 32 <= existing.len() ==> #[trigger] existing.subrange(k, k + 32) != q,
        0 <= i < line_ended(existing).len(),
        out == line_ended(existing) + block_text(),
        out.len() >= i + 32,
    ensures
        out.subrange(i, i + 32) != q,
{
    let head = line_ended(existing);
    let part = out.subrange(i, i + 32);
    if part == q {
        if i + 32 <= existing.len() {
            assert(existing.subrange(i, i + 32) =~= part);
        } else {
            let k = head.len() - 1 - i;
            assert(head.last() == '\n');
            assert(out[i + k] == '\n');
            if k < 32 {
                assert(part[k] == q[k]);
            } else {
                assert(head.len() >= i + 33);
                assert(existing.len() >= i + 32);
            }
        }
    }
}

/// In a profile that had neither marker, installing appends the block to it, on lines of its own,
/// and installing again leaves one closing marker, at the block's end.
pub proof fn the_block_is_closed_once(existing: Seq<char>, i: int)
    requires
        find_text(existing, BEGIN_MARKER@, 0) is None,
        find_text(existing, END_MARKER@, 0) is None,
        0 <= i,
        i + END_MARKER@.len() <= installed(installed(existing).0).0.len(),
    ensures
        installed(existing) == (line_ended(existing) + block_text(), false),
        installed(installed(existing).0) == (installed(existing).0, true),
        installed(installed(existing).0).0.subrange(i, i + END_MARKER@.len()) == END_MARKER@ <==> i
            == line_ended(existing).len() + block_text().len() - END_MARKER@.len() - 1,
{
    lemma_texts();
    installing_is_idempotent(existing);
    lemma_find_text(existing, END_MARKER@, 0);
    reveal_strlit("\n");
    let head = line_ended(existing);
    let start = head.len() as int;
    let out = head + block_text();
    let body = BEGIN_MARKER@ + "\n"@ + snippet() + "\n"@;
    let end = start + body.len();
    assert(block_text() =~= body + END_MARKER@ + "\n"@);
    assert(out.len() == end + 33);
    assert(out.subrange(end, end + 32) =~= END_MARKER@);
    let part = out.subrange(i, i + 32);
    if i < start {
        lemma_not_in_head(existing, END_MARKER@, out, i);
    } else if i < end {
        if part == END_MARKER@ {
            lemma_no_end_in_body(head, i);
        }
    } else if i > end {
        assert(i == end + 1);
        assert(out[end + 32] == '\n');
        assert(part[31] == out[end + 32]);
    }
}

proof fn lemma_no_end_in_body(head: Seq<char>, i: int)
    requires
        head.len() <= i < head.len() + block_text().len() - 33,
        i + 32 <= (head + block_text()).len(),
    ensures
        (head + block_text()).subrange(i, i + 32) != END_MARKER@,
{
    lemma_texts();
    reveal_strlit("\n");
    let out = head + block_text();
    let start = head.len() as int;
    let body = BEGIN_MARKER@ + "\n"@ + snippet() + "\n"@;
    let end = start + body.len();
    assert(block_text() =~= body + END_MARKER@ + "\n"@);
    if out.subrange(i, i + 32) == END_MARKER@ {
        assert(out.subrange(i, i + 32)[2] == '<');
        let k = i + 2 - start;
        assert(out[i + 2] == '<');
        if k < body.len() {
            assert(out[i + 2] == body[k]);
            if k < 32 {
                assert(body[k] == BEGIN_MARKER@[k]);
            } else if k == 32 {
            } else if k < 33 + snippet().len() {
                assert(body[k] == snippet()[k - 33]);
            }
        } else {
            assert(i == end - 2 || i == end - 1);
            reveal_strlit("# <<< gmux shell integration <<<");
            assert(out[i + 2] == END_MARKER@[i + 2 - end]);
        }
    }
}

/// The newer version's profile is installed into where its folder exists or neither does, the older
/// one's where its folder exists, the newer first.
pub proof fn profiles_are_those_whose_folders_exist(newer: bool, older: bool)
    ensures
        profiles(newer, older).contains("PowerShell"@) == (newer || !older),
        profiles(newer, older).contains("WindowsPowerShell"@) == older,
        newer || !older ==> profiles(newer, older)[0] == "PowerShell"@,
        profiles(newer, older).len() == if newer && older {
            2int
        } else {
            1
        },
{
    reveal_strlit("PowerShell");
    reveal_strlit("WindowsPowerShell");
    assert("PowerShell"@.len() == 10 && "WindowsPowerShell"@.len() == 17);
    let p = profiles(newer, older);
    if newer || !older {
        assert(p[0] == "PowerShell"@);
    }
    if older {
        assert(p[p.len() - 1] == "WindowsPowerShell"@);
    }
}

/// Installing keeps what stands before the block and behind it. Of a block that was there, from its
/// opening marker through its closing one, nothing stays, nor do the line breaks behind it.
pub proof fn installing_keeps_the_rest(
    head: Seq<char>,
    inside: Seq<char>,
    breaks: Seq<char>,
    rest: Seq<char>,
)
    requires
        find_text(head + BEGIN_MARKER@ + inside + END_MARKER@ + breaks + rest, BEGIN_MARKER@, 0)
            == Some(head.len() as int),
        find_text(
            head + BEGIN_MARKER@ + inside + END_MARKER@ + breaks + rest,
            END_MARKER@,
            head.len() as int,
        ) == Some((head.len() + BEGIN_MARKER@.len() + inside.len()) as int),
        forall|i: int| 0 <= i < breaks.len() ==> breaks[i] == '\r' || breaks[i] == '\n',
        rest.len() > 0 ==> rest[0] != '\r' && rest[0] != '\n',
    ensures
        installed(head + BEGIN_MARKER@ + inside + END_MARKER@ + breaks + rest) == (
            head + block_text() + rest,
            true,
        ),
{
    let all = head + BEGIN_MARKER@ + inside + END_MARKER@ + breaks + rest;
    let from = (head.len() + BEGIN_MARKER@.len() + inside.len() + END_MARKER@.len()) as int;
    let to = from + breaks.len();
    assert forall|i: int| from <= i < to implies all[i] == '\r' || all[i] == '\n' by {
        assert(all[i] == breaks[i - from]);
    }
    if rest.len() > 0 {
        assert(all[to] == rest[0]);
    }
    lemma_skipped(all, from, to);
    assert(all.take(head.len() as int) =~= head);
    assert(all.skip(to) =~= rest);
}

proof fn lemma_skipped(s: Seq<char>, from: int, to: int)
    requires
        0 <= from <= to <= s.len(),
        forall|i: int| from <= i < to ==> s[i] == '\r' || s[i] == '\n',
        to < s.len() ==> s[to] != '\r' && s[to] != '\n',
    ensures
        skip_breaks(s, from) == to,
    decreases to - from,
{
    if from < to {
        lemma_skipped(s, from + 1, to);
    }
}

/// The block opens and closes with the markers, and between them the prompt marks itself and tells
/// its directory before the prompt that was there runs.
pub proof fn the_block_marks_prompts()
    ensures
        exists|a: Seq<char>, b: Seq<char>| #[trigger]
            (BEGIN_MARKER@ + "\n"@ + a
                + "        Write-Host -NoNewline \"$([char]27)]133;A$([char]7)\"\n"@
                + "        Write-Host -NoNewline \"$([char]27)]9;9;`\"$($PWD.Path)`\"$([char]7)\"\n"@
                + "        & $global:__gmux_prompt\n"@ + b + "\n"@ + END_MARKER@ + "\n"@)
                == block_text(),
{
    let a = "if ($env:TERM_PROGRAM -eq 'gmux' -and -not $global:__gmux_prompt) {\n"@
        + "    $global:__gmux_prompt = $function:prompt\n"@ + "    function global:prompt {\n"@;
    let b = "    }\n"@ + "}"@;
    assert((BEGIN_MARKER@ + "\n"@ + a
        + "        Write-Host -NoNewline \"$([char]27)]133;A$([char]7)\"\n"@
        + "        Write-Host -NoNewline \"$([char]27)]9;9;`\"$($PWD.Path)`\"$([char]7)\"\n"@
        + "        & $global:__gmux_prompt\n"@ + b + "\n"@ + END_MARKER@ + "\n"@) =~= block_text());
}

} // verus!
