//! What the server sends unasked: the wires of its event stream, and who gets which.
use vstd::prelude::*;
use vstd::string::*;

use crate::proto::{Call, NotifyWire, Response};
#[allow(unused_imports)]
use crate::proto::{wires_view, CallView, NotifyWireView};
use crate::text::str_eq;
#[allow(unused_imports)]
use crate::text::texts_view;

verus! {

/// The wire of a pane's exit.
pub open spec fn exit_wire(pane: u64) -> NotifyWireView {
    NotifyWireView { pane, title: "pane-exited"@, body: Seq::empty(), urgency: 1 }
}

/// The wire of a pane's damage.
pub open spec fn output_wire(pane: u64) -> NotifyWireView {
    NotifyWireView { pane, title: "pane-output"@, body: Seq::empty(), urgency: 0 }
}

/// The wire of new clipboard text.
pub open spec fn clipboard_wire(pane: u64, text: Seq<char>) -> NotifyWireView {
    NotifyWireView { pane, title: "clipboard-set"@, body: text, urgency: 0 }
}

/// The wire of a pane's exit: the reserved title `pane-exited`.
pub fn exit_notify(pane: u64) -> (n: NotifyWire)
    ensures
        n@ == exit_wire(pane),
{
    NotifyWire { pane, title: String::from_str("pane-exited"), body: String::new(), urgency: 1 }
}

/// The wire of a pane's damage: the reserved title `pane-output`. It goes only to those who
/// subscribed to output.
pub fn output_notify(pane: u64) -> (n: NotifyWire)
    ensures
        n@ == output_wire(pane),
{
    NotifyWire { pane, title: String::from_str("pane-output"), body: String::new(), urgency: 0 }
}

/// The wire of new clipboard text: the reserved title `clipboard-set`. It goes to every
/// subscriber.
pub fn clipboard_notify(pane: u64, text: String) -> (n: NotifyWire)
    ensures
        n@ == clipboard_wire(pane, text@),
{
    NotifyWire { pane, title: String::from_str("clipboard-set"), body: text, urgency: 0 }
}

/// The wires that are no damage.
pub open spec fn undamaged(batch: Seq<NotifyWireView>) -> Seq<NotifyWireView>
    decreases batch.len(),
{
    if batch.len() == 0 {
        Seq::empty()
    } else if batch.last().title == "pane-output"@ {
        undamaged(batch.drop_last())
    } else {
        undamaged(batch.drop_last()).push(batch.last())
    }
}

/// What a subscriber gets of a batch; none where nothing is left for them.
pub open spec fn pushed_to(batch: Seq<NotifyWireView>, output: bool) -> Option<
    Seq<NotifyWireView>,
> {
    let wires = if output {
        batch
    } else {
        undamaged(batch)
    };
    if wires.len() == 0 {
        None
    } else {
        Some(wires)
    }
}

/// What a subscriber gets of a batch: all of it, or with `output` off all but the damage. None
/// where nothing is left for them; they then get no line.
pub fn push_for(batch: &Vec<NotifyWire>, output: bool) -> (r: Option<Vec<NotifyWire>>)
    ensures
        match r {
            Some(w) => pushed_to(wires_view(batch@), output) == Some(wires_view(w@)),
            None => pushed_to(wires_view(batch@), output) is None,
        },
{
    let ghost all = wires_view(batch@);
    let mut wires: Vec<NotifyWire> = Vec::new();
    let mut i: usize = 0;
    assert(wires_view(wires@) =~= Seq::empty());
    assert(all.take(0) =~= Seq::empty());
    while i < batch.len()
        invariant
            i <= batch@.len(),
            all == wires_view(batch@),
            wires_view(wires@) == (if output {
                all.take(i as int)
            } else {
                undamaged(all.take(i as int))
            }),
        decreases batch@.len() - i,
    {
        let ghost before = wires@;
        assert(all.take(i + 1).drop_last() =~= all.take(i as int));
        assert(all.take(i + 1).last() == batch@[i as int]@);
        if output || !str_eq(batch[i].title.as_str(), "pane-output") {
            let n = batch[i].copy();
            wires.push(n);
            assert(wires_view(wires@) =~= wires_view(before).push(n@));
            assert(all.take(i + 1) =~= all.take(i as int).push(n@));
        }
        i = i + 1;
    }
    assert(all.take(i as int) =~= all);
    if wires.len() == 0 {
        None
    } else {
        Some(wires)
    }
}

// ---------------------------------------------------------------------------
// Restored screens.
// ---------------------------------------------------------------------------

/// The divider between restored history and the fresh shell, dimmed.
pub open spec fn divider() -> Seq<char> {
    "\x1b[90m\u{2500}\u{2500}\u{2500} gmux: restored (process not running) \u{2500}\u{2500}\u{2500}\x1b[0m\r\n"@
}

/// Lines, each with its terminator.
pub open spec fn terminated(lines: Seq<Seq<char>>) -> Seq<char>
    decreases lines.len(),
{
    if lines.len() == 0 {
        Seq::empty()
    } else {
        terminated(lines.drop_last()) + lines.last() + "\r\n"@
    }
}

/// Whether every line is empty.
pub open spec fn all_blank(lines: Seq<Seq<char>>) -> bool {
    forall|i: int| 0 <= i < lines.len() ==> (#[trigger] lines[i]).len() == 0
}

/// What a restored pane shows before its shell: the saved lines and a divider; none where there is
/// nothing to show.
pub open spec fn replay_of(screen: Seq<Seq<char>>) -> Option<Seq<char>> {
    if all_blank(screen) {
        None
    } else {
        Some(terminated(screen) + divider())
    }
}

/// What a restored pane shows before its shell.
pub fn restore_replay(screen: &Vec<String>) -> (r: Option<String>)
    ensures
        match r {
            Some(s) => replay_of(texts_view(screen@)) == Some(s@),
            None => replay_of(texts_view(screen@)) is None,
        },
{
    let ghost lines = texts_view(screen@);
    let mut blank = true;
    let mut out = String::new();
    let mut i: usize = 0;
    assert(lines.take(0) =~= Seq::empty());
    assert(out@ =~= Seq::empty());
    while i < screen.len()
        invariant
            i <= screen@.len(),
            lines == texts_view(screen@),
            out@ == terminated(lines.take(i as int)),
            blank == forall|j: int| 0 <= j < i ==> (#[trigger] lines[j]).len() == 0,
        decreases screen@.len() - i,
    {
        assert(lines.take(i + 1).drop_last() =~= lines.take(i as int));
        assert(lines[i as int] == screen@[i as int]@);
        out.append(screen[i].as_str());
        out.append("\r\n");
        if !screen[i].as_str().is_empty() {
            blank = false;
        }
        i = i + 1;
    }
    assert(lines.take(i as int) =~= lines);
    if blank {
        return None;
    }
    out.append(
        "\x1b[90m\u{2500}\u{2500}\u{2500} gmux: restored (process not running) \u{2500}\u{2500}\u{2500}\x1b[0m\r\n",
    );
    Some(out)
}

/// Whether a connection becomes a stream once a call was answered, and whether the stream carries
/// pane damage.
pub fn subscription(call: &Call, answer: &Response) -> (r: Option<bool>)
    ensures
        r == (match call@ {
            CallView::Subscribe { output } if answer@.error is None => Some(output),
            _ => None,
        }),
{
    match call {
        Call::Subscribe { output } => if answer.error.is_none() {
            Some(*output)
        } else {
            None
        },
        _ => None,
    }
}

// ---------------------------------------------------------------------------
// Laws.
// ---------------------------------------------------------------------------

/// A subscriber without output gets every wire of a batch but the damage, in order; one with
/// output gets all of it. Clipboard text, exits and notifications reach everyone.
pub proof fn only_damage_is_held_back(batch: Seq<NotifyWireView>, i: int)
    requires
        0 <= i < batch.len(),
    ensures
        pushed_to(batch, true) == Some(batch),
        undamaged(batch).contains(batch[i]) == (batch[i].title != "pane-output"@),
        batch[i].title != "pane-output"@ ==> pushed_to(batch, false) is Some,
{
    lemma_undamaged(batch, i);
    if undamaged(batch).contains(batch[i]) {
        let k = choose|k: int|
            0 <= k < undamaged(batch).len() && undamaged(batch)[k] == batch[i];
        lemma_no_damage(batch, k);
    }
}

proof fn lemma_undamaged(batch: Seq<NotifyWireView>, i: int)
    requires
        0 <= i < batch.len(),
    ensures
        batch[i].title != "pane-output"@ ==> undamaged(batch).contains(batch[i]),
    decreases batch.len(),
{
    let front = batch.drop_last();
    if batch[i].title != "pane-output"@ {
        if i == batch.len() - 1 {
            assert(undamaged(batch)[undamaged(front).len() as int] == batch[i]);
        } else {
            lemma_undamaged(front, i);
            let k = choose|k: int|
                0 <= k < undamaged(front).len() && undamaged(front)[k] == front[i];
            assert(undamaged(batch)[k] == batch[i]);
        }
    }
}

proof fn lemma_no_damage(batch: Seq<NotifyWireView>, k: int)
    requires
        0 <= k < undamaged(batch).len(),
    ensures
        undamaged(batch)[k].title != "pane-output"@,
    decreases batch.len(),
{
    let front = batch.drop_last();
    if k < undamaged(front).len() {
        lemma_no_damage(front, k);
    }
}

} // verus!
