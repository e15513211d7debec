//! Notifications that a program in a pane raises through its output.
use vstd::prelude::*;
use vstd::string::*;

use crate::cli::args::{osc_field, take};
#[allow(unused_imports)]
use crate::cli::args::{field_text, taken};
use crate::hooks::HookAgent;
#[allow(unused_imports)]
use crate::hooks::HookAgentView;
use crate::json::{compact, parse, Json};
#[allow(unused_imports)]
use crate::json::{
    compact_text, field, fields_view, json_of, lemma_object, text_value, JsonView,
};
use crate::text::{chars_of, push_char, str_eq};
#[allow(unused_imports)]
use crate::text::texts_view;

verus! {

/// What the arguments of `notify` say from an index on: a title and a body. A subtitle stands in
/// front of the body that was given before it.
pub open spec fn notice_scan(
    args: Seq<Seq<char>>,
    from: int,
    title: Seq<char>,
    body: Seq<char>,
) -> (Seq<char>, Seq<char>)
    decreases args.len() + 1 - from,
{
    if from < 0 || from >= args.len() {
        (title, body)
    } else {
        let value = taken(args, from);
        if args[from] == "--title"@ {
            notice_scan(args, from + 2, value, body)
        } else if args[from] == "--body"@ {
            notice_scan(args, from + 2, title, value)
        } else if args[from] == "--subtitle"@ {
            notice_scan(
                args,
                from + 2,
                title,
                if body.len() == 0 {
                    value
                } else {
                    value + " — "@ + body
                },
            )
        } else if args[from] == "--urgency"@ {
            notice_scan(args, from + 2, title, body)
        } else {
            notice_scan(args, from + 1, title, body)
        }
    }
}

/// The escape sequence of a notification, without what opens and ends it.
pub open spec fn notice_body(title: Seq<char>, body: Seq<char>) -> Seq<char> {
    "]777;notify;"@ + field_text(title, true) + ";"@ + field_text(body, false)
}

/// The escape sequence that `notify` prints.
pub open spec fn notice_sequence(args: Seq<Seq<char>>) -> Seq<char> {
    let (title, body) = notice_scan(args, 0, Seq::empty(), Seq::empty());
    seq!['\u{1b}'] + notice_body(title, body) + seq!['\u{7}']
}

fn sequence_body(title: &str, body: &str) -> (s: String)
    ensures
        s@ == notice_body(title@, body@),
{
    let mut s = String::from_str("]777;notify;");
    s.append(osc_field(title, true).as_str());
    s.append(";");
    s.append(osc_field(body, false).as_str());
    s
}

/// The escape sequence that `notify` prints.
pub fn notify(args: &[String]) -> (s: String)
    ensures
        s@ == notice_sequence(texts_view(args@)),
{
    let ghost v = texts_view(args@);
    let mut title = String::new();
    let mut body = String::new();
    let mut i: usize = 0;
    let _fits: usize = args.len();
    assert(title@ =~= Seq::empty() && body@ =~= Seq::empty());
    while i < args.len()
        invariant
            v == texts_view(args@),
            args@.len() <= usize::MAX,
            notice_scan(v, 0, Seq::empty(), Seq::empty()) == notice_scan(
                v,
                i as int,
                title@,
                body@,
            ),
        decreases args@.len() + 1 - i,
    {
        let ghost at = i as int;
        let ghost had = body@;
        if str_eq(args[i].as_str(), "--title") {
            title = take(args, &mut i);
        } else if str_eq(args[i].as_str(), "--body") {
            body = take(args, &mut i);
        } else if str_eq(args[i].as_str(), "--subtitle") {
            let mut s = take(args, &mut i);
            if chars_of(body.as_str()).len() > 0 {
                s.append(" — ");
                s.append(body.as_str());
            }
            body = s;
        } else if str_eq(args[i].as_str(), "--urgency") {
            let _reserved = take(args, &mut i);
        }
        if i < args.len() {
            i = i + 1;
        } else {
            assert(notice_scan(v, at + 2, title@, body@) == notice_scan(
                v,
                i as int,
                title@,
                body@,
            ));
        }
    }
    let mut s = String::new();
    push_char(&mut s, '\u{1b}');
    s.append(sequence_body(title.as_str(), body.as_str()).as_str());
    push_char(&mut s, '\u{7}');
    assert(s@ =~= seq!['\u{1b}'] + notice_body(title@, body@) + seq!['\u{7}']);
    s
}

/// The message of an event that an agent reports, or a stand-in.
pub open spec fn event_message(event: Option<JsonView>) -> Seq<char> {
    match event {
        Some(j) => match text_value(field(j, "message"@)) {
            Some(m) => m,
            None => "needs your attention"@,
        },
        None => "needs your attention"@,
    }
}

/// The name of an agent in its notifications.
pub open spec fn agent_title(agent: Seq<char>, hook: HookAgentView) -> Seq<char> {
    if agent == "codex"@ {
        "Codex"@
    } else if agent == "gemini"@ {
        "Gemini"@
    } else {
        hook.title
    }
}

/// What the hook of an agent answers to an event: an object that holds the sequence for the agent to
/// print.
pub open spec fn hook_answer(
    agent: Seq<char>,
    hook: HookAgentView,
    event: Option<JsonView>,
) -> JsonView {
    JsonView::Object(
        seq![
            (
                "terminalSequence"@,
                JsonView::Text(notice_body(agent_title(agent, hook), event_message(event))),
            ),
        ],
    )
}

/// What the hook of an agent answers to an event.
pub fn answer_event(agent: &str, hook: &HookAgent, event: &Option<Json>) -> (j: Json)
    ensures
        j@ == hook_answer(
            agent@,
            hook@,
            match *event {
                Some(e) => Some(e@),
                None => None,
            },
        ),
{
    let message = match event {
        Some(e) => match e.get_str("message") {
            Some(m) => m,
            None => String::from_str("needs your attention"),
        },
        None => String::from_str("needs your attention"),
    };
    let title = if str_eq(agent, "codex") {
        "Codex"
    } else if str_eq(agent, "gemini") {
        "Gemini"
    } else {
        hook.title.as_str()
    };
    let mut fields: Vec<(String, Json)> = Vec::new();
    let text = Json::Text(sequence_body(title, message.as_str()));
    fields.push((String::from_str("terminalSequence"), text));
    proof {
        lemma_object(fields);
    }
    assert(fields_view(fields@) =~= seq![("terminalSequence"@, text@)]);
    Json::Object(fields)
}

/// What the hook of an agent prints for an event that it reads.
pub fn internal_hook(agent: Option<&str>, hook: &HookAgent, input: &str) -> (s: String)
    ensures
        s@ == compact_text(
            hook_answer(
                match agent {
                    Some(a) => a@,
                    None => hook@.word,
                },
                hook@,
                json_of(input@),
            ),
        ),
{
    let agent = match agent {
        Some(a) => a,
        None => hook.word.as_str(),
    };
    compact(&answer_event(agent, hook, &parse(input)))
}

} // verus!
