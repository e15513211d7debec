//! How answers are shown.
use vstd::prelude::*;
use vstd::string::*;

use crate::proto::{PaneInfo, Response, ResultBody};
#[allow(unused_imports)]
use crate::proto::{infos_view, PaneInfoView, ResponseView, ResultView};
use crate::text::push_decimal;
#[allow(unused_imports)]
use crate::text::dec;

verus! {

/// What a command leaves behind: its exit code, and what it prints to either stream.
pub struct Said {
    pub code: i32,
    pub out: String,
    pub err: String,
}

/// The mathematical value of a [`Said`].
pub struct SaidView {
    pub code: int,
    pub out: Seq<char>,
    pub err: Seq<char>,
}

impl Said {
    pub open spec fn view(&self) -> SaidView {
        SaidView { code: self.code as int, out: self.out@, err: self.err@ }
    }
}

/// A line about a pane: its number and that of its window, its size, a star where it is active and
/// an exclamation mark where it wants attention, its directory and its title.
pub open spec fn pane_line(p: PaneInfoView) -> Seq<char> {
    "%"@ + dec(p.id as nat) + "\t@"@ + dec(p.window as nat) + "\t"@ + dec(p.cols as nat) + "x"@ + dec(
        p.rows as nat,
    ) + "\t"@ + (if p.active {
        "*"@
    } else {
        ""@
    }) + (if p.attention {
        "!"@
    } else {
        ""@
    }) + "\t"@ + (match p.cwd {
        Some(d) => d,
        None => "-"@,
    }) + "\t"@ + p.title + "\n"@
}

/// The lines about the first `n` panes.
pub open spec fn pane_lines(panes: Seq<PaneInfoView>, n: int) -> Seq<char>
    decreases n,
{
    if n <= 0 {
        Seq::empty()
    } else {
        pane_lines(panes, n - 1) + pane_line(panes[n - 1])
    }
}

fn push_pane(s: &mut String, p: &PaneInfo)
    ensures
        final(s)@ == old(s)@ + pane_line(p@),
{
    let ghost before = s@;
    let mut t = String::from_str("%");
    push_decimal(&mut t, p.id);
    t.append("\t@");
    push_decimal(&mut t, p.window);
    t.append("\t");
    push_decimal(&mut t, p.cols as u64);
    t.append("x");
    push_decimal(&mut t, p.rows as u64);
    t.append("\t");
    t.append(
        if p.active {
            "*"
        } else {
            ""
        },
    );
    t.append(
        if p.attention {
            "!"
        } else {
            ""
        },
    );
    t.append("\t");
    match &p.cwd {
        Some(d) => t.append(d.as_str()),
        None => t.append("-"),
    }
    t.append("\t");
    t.append(p.title.as_str());
    t.append("\n");
    assert(t@ == pane_line(p@));
    s.append(t.as_str());
}

/// The pane list as it is printed.
pub fn print_panes(panes: &Vec<PaneInfo>) -> (s: String)
    ensures
        s@ == pane_lines(infos_view(panes@), panes@.len() as int),
{
    let mut s = String::new();
    let mut i: usize = 0;
    assert(s@ =~= Seq::empty());
    while i < panes.len()
        invariant
            i <= panes@.len(),
            s@ == pane_lines(infos_view(panes@), i as int),
        decreases panes@.len() - i,
    {
        push_pane(&mut s, &panes[i]);
        i = i + 1;
    }
    s
}

/// What a result prints. Results for drawing clients print nothing.
pub open spec fn shown(body: ResultView) -> Seq<char> {
    match body {
        ResultView::Hello { server_version, protocol } => "gmux "@ + server_version
            + " (protocol v"@ + dec(protocol as nat) + ")\n"@,
        ResultView::Panes(panes) => pane_lines(panes, panes.len() as int),
        ResultView::Text(t) => t + "\n"@,
        ResultView::PaneId(id) => "%"@ + dec(id as nat) + "\n"@,
        ResultView::Busy(b) => if b {
            "true\n"@
        } else {
            "false\n"@
        },
        ResultView::Imported { created, already_open, capped } => "opened "@ + dec(created) + ", "@
            + dec(already_open) + " already open, "@ + dec(capped) + " left out\n"@,
        _ => ""@,
    }
}

/// What a result prints.
pub fn print_result(body: &ResultBody) -> (s: String)
    ensures
        s@ == shown(body@),
{
    match body {
        ResultBody::Hello { server_version, protocol } => {
            let mut s = String::from_str("gmux ");
            s.append(server_version.as_str());
            s.append(" (protocol v");
            push_decimal(&mut s, *protocol as u64);
            s.append(")\n");
            s
        },
        ResultBody::Panes(panes) => print_panes(panes),
        ResultBody::Text(t) => {
            let mut s = t.clone();
            s.append("\n");
            s
        },
        ResultBody::PaneId(id) => {
            let mut s = String::from_str("%");
            push_decimal(&mut s, *id);
            s.append("\n");
            s
        },
        ResultBody::Busy(b) => String::from_str(
            if *b {
                "true\n"
            } else {
                "false\n"
            },
        ),
        ResultBody::Imported { created, already_open, capped } => {
            let mut s = String::from_str("opened ");
            push_decimal(&mut s, *created as u64);
            s.append(", ");
            push_decimal(&mut s, *already_open as u64);
            s.append(" already open, ");
            push_decimal(&mut s, *capped as u64);
            s.append(" left out\n");
            s
        },
        _ => String::from_str(""),
    }
}

/// A complaint on the error stream.
pub open spec fn complaint(code: int, text: Seq<char>) -> SaidView {
    SaidView { code, out: ""@, err: "gmux: "@ + text + "\n"@ }
}

/// A complaint on the error stream.
pub fn complain(code: i32, text: &str) -> (s: Said)
    ensures
        s@ == complaint(code as int, text@),
{
    let mut err = String::from_str("gmux: ");
    err.append(text);
    err.append("\n");
    Said { code, out: String::from_str(""), err }
}

/// What an answer leaves behind: an error wins over a result.
pub open spec fn answered(r: ResponseView) -> SaidView {
    match (r.error, r.result) {
        (Some(e), _) => complaint(1, e),
        (None, Some(body)) => SaidView { code: 0, out: shown(body), err: ""@ },
        (None, None) => complaint(1, "empty response"@),
    }
}

/// What the end of a request leaves behind: an answer, or why there is none.
pub fn run(reply: &Result<Response, String>) -> (s: Said)
    ensures
        s@ == (match *reply {
            Ok(r) => answered(r@),
            Err(e) => complaint(1, e@),
        }),
{
    match reply {
        Ok(r) => match (&r.error, &r.result) {
            (Some(e), _) => complain(1, e.as_str()),
            (None, Some(body)) => Said {
                code: 0,
                out: print_result(body),
                err: String::from_str(""),
            },
            (None, None) => complain(1, "empty response"),
        },
        Err(e) => complain(1, e.as_str()),
    }
}

} // verus!
