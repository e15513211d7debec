//! Configuring coding agents so that their notifications reach this terminal.
//!
//! Out of the box an agent does little in a terminal that it does not know. Each one is configured
//! to emit an escape sequence that the terminal turns into a notification. The functions take the
//! text of a configuration file and give its new text; what is already there is kept.
use vstd::prelude::*;
use vstd::string::*;

use crate::json::{compact, find_field, pretty, read, set_field, Json};
#[allow(unused_imports)]
use crate::json::{
    compact_text, field, field_index, fields_view, items_view, json_read, lemma_array, lemma_object,
    pretty_text, with_field, JsonView,
};
use crate::text::{chars_of, contains_text, push_char, str_eq, trim};
#[allow(unused_imports)]
use crate::text::{occurs, trimmed};

verus! {

/// The agent that reports its events through hooks: what the user calls it, a shorter word for it,
/// the folder of its settings below the home directory, and its name in notifications.
pub struct HookAgent {
    pub word: String,
    pub alias: String,
    pub folder: String,
    pub title: String,
}

/// The mathematical value of a [`HookAgent`].
pub struct HookAgentView {
    pub word: Seq<char>,
    pub alias: Seq<char>,
    pub folder: Seq<char>,
    pub title: Seq<char>,
}

impl HookAgent {
    pub open spec fn view(&self) -> HookAgentView {
        HookAgentView {
            word: self.word@,
            alias: self.alias@,
            folder: self.folder@,
            title: self.title@,
        }
    }
}

/// An agent that can be configured.
#[derive(Debug, Clone, Copy, PartialEq, Eq, Structural)]
pub enum Agent {
    /// The one that reports its events through hooks.
    Claude,
    Codex,
    Gemini,
    Aider,
}

/// The agents that a word names.
pub open spec fn agents_of(word: Seq<char>, hook: HookAgentView) -> Option<Seq<Agent>> {
    if word == "codex"@ {
        Some(seq![Agent::Codex])
    } else if word == "gemini"@ {
        Some(seq![Agent::Gemini])
    } else if word == hook.word || word == hook.alias {
        Some(seq![Agent::Claude])
    } else if word == "aider"@ {
        Some(seq![Agent::Aider])
    } else if word == "all"@ {
        Some(seq![Agent::Claude, Agent::Codex, Agent::Gemini, Agent::Aider])
    } else {
        None
    }
}

/// The agents to set up for a word, in order; an error for an unknown one.
pub fn setup(agent: &str, hook: &HookAgent) -> (r: Result<Vec<Agent>, String>)
    ensures
        match r {
            Ok(v) => agents_of(agent@, hook@) == Some(v@),
            Err(e) => agents_of(agent@, hook@) is None && e@ == "unknown agent '"@ + agent@
                + "' (expected: "@ + hook@.word + ", codex, gemini, aider, all)"@,
        },
{
    let mut v: Vec<Agent> = Vec::new();
    if str_eq(agent, "codex") {
        v.push(Agent::Codex);
        assert(v@ =~= seq![Agent::Codex]);
    } else if str_eq(agent, "gemini") {
        v.push(Agent::Gemini);
        assert(v@ =~= seq![Agent::Gemini]);
    } else if str_eq(agent, hook.word.as_str()) || str_eq(agent, hook.alias.as_str()) {
        v.push(Agent::Claude);
        assert(v@ =~= seq![Agent::Claude]);
    } else if str_eq(agent, "aider") {
        v.push(Agent::Aider);
        assert(v@ =~= seq![Agent::Aider]);
    } else if str_eq(agent, "all") {
        v.push(Agent::Claude);
        v.push(Agent::Codex);
        v.push(Agent::Gemini);
        v.push(Agent::Aider);
        assert(v@ =~= seq![Agent::Claude, Agent::Codex, Agent::Gemini, Agent::Aider]);
    } else {
        let mut e = String::from_str("unknown agent '");
        e.append(agent);
        e.append("' (expected: ");
        e.append(hook.word.as_str());
        e.append(", codex, gemini, aider, all)");
        return Err(e);
    }
    Ok(v)
}

/// Where an agent's configuration lies below the home directory, folder and file; an empty folder
/// is the home directory itself.
pub fn config_file(agent: Agent, hook: &HookAgent) -> (r: (String, String))
    ensures
        (r.0@, r.1@) == (match agent {
            Agent::Claude => (hook@.folder, "settings.json"@),
            Agent::Codex => (".codex"@, "config.toml"@),
            Agent::Gemini => (".gemini"@, "settings.json"@),
            Agent::Aider => (""@, ".aider.conf.yml"@),
        }),
{
    match agent {
        Agent::Claude => (hook.folder.clone(), String::from_str("settings.json")),
        Agent::Codex => (String::from_str(".codex"), String::from_str("config.toml")),
        Agent::Gemini => (String::from_str(".gemini"), String::from_str("settings.json")),
        Agent::Aider => (String::from_str(""), String::from_str(".aider.conf.yml")),
    }
}

/// What a setup did.
pub struct Change {
    /// The new text of the file; none where it stays as it is.
    pub text: Option<String>,
    /// What was done, in words; the path of the file follows.
    pub done: String,
}

/// The mathematical value of a [`Change`].
pub struct ChangeView {
    pub text: Option<Seq<char>>,
    pub done: Seq<char>,
}

impl Change {
    pub open spec fn view(&self) -> ChangeView {
        ChangeView { text: crate::text::opt_text(self.text), done: self.done@ }
    }
}

/// The mathematical value of a setup's outcome.
pub open spec fn change_view(r: Result<Change, String>) -> Result<ChangeView, Seq<char>> {
    match r {
        Ok(c) => Ok(c@),
        Err(e) => Err(e@),
    }
}

/// A change that writes a text.
pub open spec fn writes(text: Seq<char>, done: Seq<char>) -> Result<ChangeView, Seq<char>> {
    Ok(ChangeView { text: Some(text), done })
}

// ---------------------------------------------------------------------------
// JSON configurations.
// ---------------------------------------------------------------------------

/// The object that a configuration text holds: a blank text holds an empty one.
pub open spec fn object_of(text: Seq<char>) -> Result<Seq<(Seq<char>, JsonView)>, Seq<char>> {
    if trimmed(text).len() == 0 {
        Ok(Seq::empty())
    } else {
        match json_read(text) {
            Err(e) => Err(e),
            Ok(JsonView::Object(fields)) => Ok(fields),
            Ok(_) => Err("expected a JSON object at the top level"@),
        }
    }
}

fn bad(msg: &str) -> (e: String)
    ensures
        e@ == msg@,
{
    String::from_str(msg)
}

fn read_json_object(text: &str) -> (r: Result<Vec<(String, Json)>, String>)
    ensures
        match r {
            Ok(fields) => object_of(text@) == Ok::<Seq<(Seq<char>, JsonView)>, Seq<char>>(
                fields_view(fields@),
            ),
            Err(e) => object_of(text@) == Err::<Seq<(Seq<char>, JsonView)>, Seq<char>>(e@),
        },
{
    let chars = chars_of(text);
    if trim(chars.as_slice()).len() == 0 {
        let none: Vec<(String, Json)> = Vec::new();
        assert(fields_view(none@) =~= Seq::empty());
        return Ok(none);
    }
    match read(text) {
        Err(e) => Err(e),
        Ok(Json::Object(fields)) => {
            proof {
                lemma_object(fields);
            }
            Ok(fields)
        },
        Ok(_) => Err(bad("expected a JSON object at the top level")),
    }
}

/// The value of a field, or one to start from.
pub open spec fn field_or(fields: Seq<(Seq<char>, JsonView)>, name: Seq<char>, start: JsonView) -> JsonView {
    match field_index(fields, name, 0) {
        Some(i) => fields[i].1,
        None => start,
    }
}

/// Takes the value of a field out, leaving null; or gives one to start from.
fn take_field(fields: &mut Vec<(String, Json)>, name: &str, start: Json) -> (j: Json)
    ensures
        j@ == field_or(fields_view(old(fields)@), name@, start@),
        forall|v: JsonView| #[trigger]
            with_field(fields_view(final(fields)@), name@, v) == with_field(
                fields_view(old(fields)@),
                name@,
                v,
            ),
{
    match find_field(fields, name) {
        Some(i) => {
            let ghost before = fields_view(fields@);
            let mut j = Json::Null;
            let f = &mut fields[i];
            std::mem::swap(&mut j, &mut f.1);
            let ghost now = fields_view(fields@);
            assert(now =~= before.update(i as int, (before[i as int].0, JsonView::Null)));
            proof {
                lemma_blanked(before, name@, i as int);
            }
            assert forall|v: JsonView| #[trigger] with_field(now, name@, v) == with_field(
                before,
                name@,
                v,
            ) by {
                assert(now.update(i as int, (name@, v)) =~= before.update(i as int, (name@, v)));
            }
            j
        },
        None => start,
    }
}

/// Blanking the value of a field leaves its place.
proof fn lemma_blanked(fields: Seq<(Seq<char>, JsonView)>, name: Seq<char>, i: int)
    requires
        field_index(fields, name, 0) == Some(i),
        0 <= i < fields.len(),
    ensures
        field_index(fields.update(i, (fields[i].0, JsonView::Null)), name, 0) == Some(i),
{
    lemma_same_names(fields, fields.update(i, (fields[i].0, JsonView::Null)), name, 0);
}

proof fn lemma_same_names(
    a: Seq<(Seq<char>, JsonView)>,
    b: Seq<(Seq<char>, JsonView)>,
    name: Seq<char>,
    from: int,
)
    requires
        a.len() == b.len(),
        0 <= from <= a.len(),
        forall|k: int| 0 <= k < a.len() ==> (#[trigger] a[k]).0 == b[k].0,
    ensures
        field_index(a, name, from) == field_index(b, name, from),
    decreases a.len() - from,
{
    if from < a.len() {
        assert(a[from].0 == b[from].0);
        lemma_same_names(a, b, name, from + 1);
    }
}

/// The settings of the Gemini agent; they cannot be set where `general` is something else than an
/// object.
pub open spec fn gemini_fields(root: Seq<(Seq<char>, JsonView)>) -> Result<
    Seq<(Seq<char>, JsonView)>,
    Seq<char>,
> {
    match field_or(root, "general"@, JsonView::Object(Seq::empty())) {
        JsonView::Object(f) => Ok(
            with_field(
                root,
                "general"@,
                JsonView::Object(
                    with_field(
                        with_field(f, "enableNotifications"@, JsonView::Bool(true)),
                        "notificationMethod"@,
                        JsonView::Text("osc777"@),
                    ),
                ),
            ),
        ),
        _ => Err("general is not an object"@),
    }
}

/// What setting up the Gemini agent does to its configuration text.
pub open spec fn gemini_change(text: Seq<char>) -> Result<ChangeView, Seq<char>> {
    match object_of(text) {
        Err(e) => Err(e),
        Ok(root) => match gemini_fields(root) {
            Err(e) => Err(e),
            Ok(fields) => writes(
                pretty_text(JsonView::Object(fields)),
                "gemini: set general.notificationMethod=\"osc777\" in "@,
            ),
        },
    }
}

/// Putting back what a field held changes nothing.
proof fn lemma_put_back(fields: Seq<(Seq<char>, JsonView)>, name: Seq<char>, start: JsonView)
    ensures
        field_or(fields, name, start) != start ==> with_field(
            fields,
            name,
            field_or(fields, name, start),
        ) == fields,
{
    lemma_field_found(fields, name, 0);
    if let Some(i) = field_index(fields, name, 0) {
        assert(fields.update(i, fields[i]) =~= fields);
    }
}

/// Sets the notification method in the settings of the Gemini agent; they stay as they are where
/// that fails.
pub fn gemini_settings(root: &mut Vec<(String, Json)>) -> (r: Result<(), String>)
    ensures
        match r {
            Ok(_) => gemini_fields(fields_view(old(root)@)) == Ok::<
                Seq<(Seq<char>, JsonView)>,
                Seq<char>,
            >(fields_view(final(root)@)),
            Err(e) => gemini_fields(fields_view(old(root)@)) == Err::<
                Seq<(Seq<char>, JsonView)>,
                Seq<char>,
            >(e@) && fields_view(final(root)@) == fields_view(old(root)@),
        },
{
    let none: Vec<(String, Json)> = Vec::new();
    proof {
        lemma_object(none);
        assert(fields_view(none@) =~= Seq::empty());
        lemma_put_back(fields_view(root@), "general"@, JsonView::Object(Seq::empty()));
    }
    match take_field(root, "general", Json::Object(none)) {
        Json::Object(fields) => {
            let mut f = fields;
            proof {
                lemma_object(f);
            }
            set_field(&mut f, "enableNotifications", Json::Bool(true));
            set_field(&mut f, "notificationMethod", Json::Text(String::from_str("osc777")));
            proof {
                lemma_object(f);
            }
            set_field(root, "general", Json::Object(f));
            Ok(())
        },
        other => {
            set_field(root, "general", other);
            Err(bad("general is not an object"))
        },
    }
}

/// The new settings of the Gemini agent; it fails where the text is no JSON object, or where
/// `general` is none.
pub fn setup_gemini(text: &str) -> (r: Result<Change, String>)
    ensures
        change_view(r) == gemini_change(text@),
{
    let mut root = match read_json_object(text) {
        Ok(f) => f,
        Err(e) => {
            return Err(e);
        },
    };
    if let Err(e) = gemini_settings(&mut root) {
        return Err(e);
    }
    proof {
        lemma_object(root);
    }
    Ok(
        Change {
            text: Some(pretty(&Json::Object(root))),
            done: String::from_str("gemini: set general.notificationMethod=\"osc777\" in "),
        },
    )
}

/// The command that the hook of an agent runs.
pub open spec fn hook_command(word: Seq<char>) -> Seq<char> {
    "gmux _hook "@ + word
}

/// The hook of an agent.
pub open spec fn hook_entry(command: Seq<char>) -> JsonView {
    JsonView::Object(
        seq![
            (
                "hooks"@,
                JsonView::Array(
                    seq![
                        JsonView::Object(
                            seq![
                                ("type"@, JsonView::Text("command"@)),
                                ("command"@, JsonView::Text(command)),
                            ],
                        ),
                    ],
                ),
            ),
        ],
    )
}

/// Whether one of the first `n` hooks runs the command.
pub open spec fn has_hook(hooks: Seq<JsonView>, command: Seq<char>, n: int) -> bool
    decreases n,
{
    n > 0 && (has_hook(hooks, command, n - 1) || occurs(compact_text(hooks[n - 1]), command))
}

/// The settings of an agent with hooks: one for its notifications is added unless it is there. Also
/// tells whether it was there.
pub open spec fn claude_fields(root: Seq<(Seq<char>, JsonView)>, command: Seq<char>) -> Result<
    (Seq<(Seq<char>, JsonView)>, bool),
    Seq<char>,
> {
    match field_or(root, "hooks"@, JsonView::Object(Seq::empty())) {
        JsonView::Object(hooks) => match field_or(
            hooks,
            "Notification"@,
            JsonView::Array(Seq::empty()),
        ) {
            JsonView::Array(list) => {
                let present = has_hook(list, command, list.len() as int);
                let list = if present {
                    list
                } else {
                    list.push(hook_entry(command))
                };
                Ok(
                    (
                        with_field(
                            root,
                            "hooks"@,
                            JsonView::Object(
                                with_field(hooks, "Notification"@, JsonView::Array(list)),
                            ),
                        ),
                        present,
                    ),
                )
            },
            _ => Err("hooks.Notification is not an array"@),
        },
        _ => Err("hooks is not an object"@),
    }
}

/// What setting up an agent with hooks does to its configuration text.
pub open spec fn claude_change(text: Seq<char>, word: Seq<char>) -> Result<ChangeView, Seq<char>> {
    match object_of(text) {
        Err(e) => Err(e),
        Ok(root) => match claude_fields(root, hook_command(word)) {
            Err(e) => Err(e),
            Ok((fields, present)) => writes(
                pretty_text(JsonView::Object(fields)),
                word + ": "@ + (if present {
                    "kept existing"@
                } else {
                    "added"@
                }) + " Notification hook -> `"@ + hook_command(word) + "` in "@,
            ),
        },
    }
}

fn new_hook(command: &str) -> (j: Json)
    ensures
        j@ == hook_entry(command@),
{
    let mut inner: Vec<(String, Json)> = Vec::new();
    inner.push((String::from_str("type"), Json::Text(String::from_str("command"))));
    inner.push((String::from_str("command"), Json::Text(String::from_str(command))));
    proof {
        lemma_object(inner);
    }
    assert(fields_view(inner@) =~= seq![
        ("type"@, JsonView::Text("command"@)),
        ("command"@, JsonView::Text(command@)),
    ]);
    let mut list: Vec<Json> = Vec::new();
    let command = Json::Object(inner);
    list.push(command);
    proof {
        lemma_array(list);
    }
    assert(items_view(list@) =~= seq![command@]);
    let mut outer: Vec<(String, Json)> = Vec::new();
    let hooks = Json::Array(list);
    outer.push((String::from_str("hooks"), hooks));
    proof {
        lemma_object(outer);
    }
    assert(fields_view(outer@) =~= seq![("hooks"@, hooks@)]);
    Json::Object(outer)
}

/// Adds a hook that runs a command to the settings of an agent, unless one is there. Returns whether
/// it was there.
pub fn claude_settings(root: &mut Vec<(String, Json)>, command: &str) -> (r: Result<bool, String>)
    ensures
        match r {
            Ok(present) => claude_fields(fields_view(old(root)@), command@) == Ok::<
                (Seq<(Seq<char>, JsonView)>, bool),
                Seq<char>,
            >((fields_view(final(root)@), present)),
            Err(e) => claude_fields(fields_view(old(root)@), command@) == Err::<
                (Seq<(Seq<char>, JsonView)>, bool),
                Seq<char>,
            >(e@) && fields_view(final(root)@) == fields_view(old(root)@),
        },
{
    let none: Vec<(String, Json)> = Vec::new();
    proof {
        lemma_object(none);
        assert(fields_view(none@) =~= Seq::empty());
        lemma_put_back(fields_view(root@), "hooks"@, JsonView::Object(Seq::empty()));
    }
    let mut hooks = match take_field(root, "hooks", Json::Object(none)) {
        Json::Object(h) => {
            proof {
                lemma_object(h);
            }
            h
        },
        other => {
            set_field(root, "hooks", other);
            return Err(bad("hooks is not an object"));
        },
    };
    let empty: Vec<Json> = Vec::new();
    let ghost found = fields_view(hooks@);
    proof {
        lemma_array(empty);
        assert(items_view(empty@) =~= Seq::empty());
        lemma_put_back(found, "Notification"@, JsonView::Array(Seq::empty()));
    }
    let mut list = match take_field(&mut hooks, "Notification", Json::Array(empty)) {
        Json::Array(a) => {
            proof {
                lemma_array(a);
            }
            a
        },
        other => {
            set_field(&mut hooks, "Notification", other);
            proof {
                lemma_object(hooks);
            }
            set_field(root, "hooks", Json::Object(hooks));
            return Err(bad("hooks.Notification is not an array"));
        },
    };
    let ghost before = items_view(list@);
    let mut present = false;
    let mut i: usize = 0;
    let needle = chars_of(command);
    while i < list.len()
        invariant
            i <= list@.len(),
            before == items_view(list@),
            needle@ == command@,
            present == has_hook(before, command@, i as int),
        decreases list@.len() - i,
    {
        let text = compact(&list[i]);
        let text = chars_of(text.as_str());
        if contains_text(text.as_slice(), needle.as_slice()) {
            present = true;
        }
        i = i + 1;
    }
    if !present {
        let hook = new_hook(command);
        list.push(hook);
        assert(items_view(list@) =~= before.push(hook@));
    }
    proof {
        lemma_array(list);
    }
    set_field(&mut hooks, "Notification", Json::Array(list));
    proof {
        lemma_object(hooks);
    }
    set_field(root, "hooks", Json::Object(hooks));
    Ok(present)
}

/// The new settings of the agent with hooks.
pub fn setup_claude(text: &str, hook: &HookAgent) -> (r: Result<Change, String>)
    ensures
        change_view(r) == claude_change(text@, hook@.word),
{
    let mut command = String::from_str("gmux _hook ");
    command.append(hook.word.as_str());
    let mut root = match read_json_object(text) {
        Ok(f) => f,
        Err(e) => {
            return Err(e);
        },
    };
    let present = match claude_settings(&mut root, command.as_str()) {
        Ok(p) => p,
        Err(e) => {
            return Err(e);
        },
    };
    let mut done = hook.word.clone();
    done.append(": ");
    done.append(
        if present {
            "kept existing"
        } else {
            "added"
        },
    );
    done.append(" Notification hook -> `");
    done.append(command.as_str());
    done.append("` in ");
    proof {
        lemma_object(root);
    }
    Ok(Change { text: Some(pretty(&Json::Object(root))), done })
}

// ---------------------------------------------------------------------------
// TOML configurations.
// ---------------------------------------------------------------------------

/// Whether a key can be set below a name in a TOML text: nothing, a table or an inline table stands
/// there; or why the text is not TOML.
pub uninterp spec fn toml_slot(text: Seq<char>, name: Seq<char>) -> Result<bool, Seq<char>>;

/// Looks what stands under a name in a TOML text: `str::parse::<toml_edit::DocumentMut>`, then
/// `Table::get` and `Item::is_table_like`. Trusted: the answer, or the error in words, is a
/// function of the text and the name; what it is on given ones is not stated.
#[verifier::external_body]
fn toml_takes_key(text: &str, name: &str) -> (r: Result<bool, String>)
    ensures
        match r {
            Ok(b) => toml_slot(text@, name@) == Ok::<bool, Seq<char>>(b),
            Err(e) => toml_slot(text@, name@) == Err::<bool, Seq<char>>(e@),
        },
{
    let doc = text.parse::<toml_edit::DocumentMut>().map_err(|e| e.to_string())?;
    Ok(doc.get(name).is_none_or(|item| item.is_table_like()))
}

/// A TOML text with a key below a name set to a string.
pub uninterp spec fn toml_with(
    text: Seq<char>,
    name: Seq<char>,
    key: Seq<char>,
    value: Seq<char>,
) -> Seq<char>;

/// Sets a key below a name in a TOML text to a string, keeping all else as it is written:
/// `toml_edit`'s `IndexMut` on a document, and its `Display`. Trusted: the new text is a function
/// of the arguments; what it is on given ones is not stated. Setting the key panics where something
/// else than a table stands under the name, which `requires` leaves out.
#[verifier::external_body]
fn toml_set(text: &str, name: &str, key: &str, value: &str) -> (s: String)
    requires
        toml_slot(text@, name@) == Ok::<bool, Seq<char>>(true),
    ensures
        s@ == toml_with(text@, name@, key@, value@),
{
    let mut doc = text.parse::<toml_edit::DocumentMut>().unwrap_or_default();
    doc[name][key] = toml_edit::value(value);
    doc.to_string()
}

/// What setting up Codex does to its configuration text.
pub open spec fn codex_change(text: Seq<char>) -> Result<ChangeView, Seq<char>> {
    match toml_slot(text, "tui"@) {
        Err(e) => Err(e),
        Ok(_) => writes(
            toml_with(text, "tui"@, "notification_method"@, "osc9"@),
            "codex: set tui.notification_method=\"osc9\" in "@,
        ),
    }
}

/// The new configuration of Codex; none where something else than a table stands under `tui`, which
/// it cannot use either.
pub fn setup_codex(text: &str) -> (r: Option<Result<Change, String>>)
    ensures
        r is None == (toml_slot(text@, "tui"@) == Ok::<bool, Seq<char>>(false)),
        r matches Some(c) ==> change_view(c) == codex_change(text@),
{
    match toml_takes_key(text, "tui") {
        Err(e) => Some(Err(e)),
        Ok(false) => None,
        Ok(true) => Some(
            Ok(
                Change {
                    text: Some(toml_set(text, "tui", "notification_method", "osc9")),
                    done: String::from_str("codex: set tui.notification_method=\"osc9\" in "),
                },
            ),
        ),
    }
}

// ---------------------------------------------------------------------------
// Aider.
// ---------------------------------------------------------------------------

/// A text that ends a line, or is empty.
pub open spec fn line_ended(text: Seq<char>) -> Seq<char> {
    if text.len() > 0 && text.last() != '\n' {
        text.push('\n')
    } else {
        text
    }
}

/// The configuration of Aider with its notifications on.
pub open spec fn aider_text(text: Seq<char>) -> Seq<char> {
    line_ended(text) + "notifications: true\n"@
        + "notifications-command: gmux notify --title aider --body \"needs input\"\n"@
}

/// What setting up Aider does to its configuration text.
pub open spec fn aider_change(text: Seq<char>) -> ChangeView {
    if occurs(text, "notifications-command:"@) {
        ChangeView { text: None, done: "aider: notifications-command already present in "@ }
    } else {
        ChangeView {
            text: Some(aider_text(text)),
            done: "aider: added notifications-command in "@,
        }
    }
}

/// The new configuration of Aider: two keys are appended unless the command is there.
pub fn setup_aider(text: &str) -> (c: Change)
    ensures
        c@ == aider_change(text@),
{
    let chars = chars_of(text);
    let needle = chars_of("notifications-command:");
    if contains_text(chars.as_slice(), needle.as_slice()) {
        return Change {
            text: None,
            done: String::from_str("aider: notifications-command already present in "),
        };
    }
    let mut out = String::from_str(text);
    if chars.len() > 0 && chars[chars.len() - 1] != '\n' {
        push_char(&mut out, '\n');
    }
    out.append("notifications: true\n");
    out.append("notifications-command: gmux notify --title aider --body \"needs input\"\n");
    Change {
        text: Some(out),
        done: String::from_str("aider: added notifications-command in "),
    }
}

// ---------------------------------------------------------------------------
// Laws.
// ---------------------------------------------------------------------------

/// Setting up Aider twice is setting it up once, and keeps what was there.
pub proof fn aider_setup_is_idempotent(text: Seq<char>)
    ensures
        aider_change(text).text matches Some(t) ==> {
            &&& aider_change(t).text is None
            &&& text.len() <= t.len()
            &&& t.take(text.len() as int) == text
        },
{
    if let Some(t) = aider_change(text).text {
        reveal_strlit("notifications: true\n");
        reveal_strlit("notifications-command:");
        reveal_strlit("notifications-command: gmux notify --title aider --body \"needs input\"\n");
        let at = line_ended(text).len() + "notifications: true\n"@.len();
        let n = "notifications-command:"@.len();
        assert(t.subrange(at as int, (at + n) as int) =~= "notifications-command:"@);
        assert(occurs(t, "notifications-command:"@));
        assert(t.take(text.len() as int) =~= text);
    }
}

/// Every field but the one that is set keeps its value.
pub proof fn settings_are_kept(
    fields: Seq<(Seq<char>, JsonView)>,
    name: Seq<char>,
    value: JsonView,
    i: int,
)
    requires
        0 <= i < fields.len(),
        fields[i].0 != name,
    ensures
        with_field(fields, name, value).len() >= fields.len(),
        with_field(fields, name, value)[i] == fields[i],
{
    lemma_field_found(fields, name, 0);
}

proof fn lemma_field_found(fields: Seq<(Seq<char>, JsonView)>, name: Seq<char>, from: int)
    requires
        0 <= from <= fields.len(),
    ensures
        field_index(fields, name, from) matches Some(i) ==> from <= i < fields.len()
            && fields[i].0 == name,
    decreases fields.len() - from,
{
    if from < fields.len() {
        lemma_field_found(fields, name, from + 1);
    }
}

/// A field that was set is found again, and setting it again changes nothing.
proof fn lemma_set_twice(fields: Seq<(Seq<char>, JsonView)>, name: Seq<char>, v: JsonView, start: JsonView)
    ensures
        field_or(with_field(fields, name, v), name, start) == v,
        field(JsonView::Object(with_field(fields, name, v)), name) == Some(v),
        with_field(with_field(fields, name, v), name, v) == with_field(fields, name, v),
{
    let set = with_field(fields, name, v);
    lemma_field_found(fields, name, 0);
    match field_index(fields, name, 0) {
        Some(i) => {
            lemma_same_names(fields, set, name, 0);
            assert(set.update(i, (name, v)) =~= set);
            assert(field_index(set, name, 0) == Some(i));
        },
        None => {
            lemma_found_last(fields, name, v, 0);
            assert(set.update(fields.len() as int, (name, v)) =~= set);
        },
    }
}

proof fn lemma_found_last(fields: Seq<(Seq<char>, JsonView)>, name: Seq<char>, v: JsonView, from: int)
    requires
        0 <= from <= fields.len(),
        field_index(fields, name, from) is None,
    ensures
        field_index(fields.push((name, v)), name, from) == Some(fields.len() as int),
    decreases fields.len() - from,
{
    if from < fields.len() {
        lemma_found_last(fields, name, v, from + 1);
    }
}

/// Setting up the Gemini agent puts its notification method where it reads it, or fails.
pub proof fn gemini_setup_sets_the_method(root: Seq<(Seq<char>, JsonView)>)
    ensures
        gemini_fields(root) matches Ok(fields) ==> {
            let general = field(JsonView::Object(fields), "general"@);
            &&& general is Some
            &&& field(general->0, "notificationMethod"@) == Some(JsonView::Text("osc777"@))
        },
        gemini_fields(root) is Err == !(field_or(
            root,
            "general"@,
            JsonView::Object(Seq::empty()),
        ) is Object),
{
    if let Ok(fields) = gemini_fields(root) {
        let f = field_or(root, "general"@, JsonView::Object(Seq::empty()))->Object_0;
        let e = with_field(f, "enableNotifications"@, JsonView::Bool(true));
        let text = JsonView::Text("osc777"@);
        let set = JsonView::Object(with_field(e, "notificationMethod"@, text));
        lemma_set_twice(e, "notificationMethod"@, text, JsonView::Null);
        lemma_set_twice(root, "general"@, set, JsonView::Null);
    }
}

/// Setting up an agent with hooks twice is setting it up once, as far as the printed hook holds its
/// command.
pub proof fn claude_setup_is_idempotent(root: Seq<(Seq<char>, JsonView)>, command: Seq<char>)
    ensures
        occurs(compact_text(hook_entry(command)), command) && claude_fields(root, command) is Ok
            ==> claude_fields(claude_fields(root, command)->Ok_0.0, command) == Ok::<
            (Seq<(Seq<char>, JsonView)>, bool),
            Seq<char>,
        >((claude_fields(root, command)->Ok_0.0, true)),
{
    if occurs(compact_text(hook_entry(command)), command) && claude_fields(root, command) is Ok {
        let hooks = field_or(root, "hooks"@, JsonView::Object(Seq::empty()))->Object_0;
        let list = field_or(hooks, "Notification"@, JsonView::Array(Seq::empty()))->Array_0;
        let n = list.len() as int;
        let new_list = if has_hook(list, command, n) {
            list
        } else {
            list.push(hook_entry(command))
        };
        if !has_hook(list, command, n) {
            assert(new_list[n] == hook_entry(command));
            assert(has_hook(new_list, command, n + 1));
        }
        let new_hooks = with_field(hooks, "Notification"@, JsonView::Array(new_list));
        lemma_set_twice(
            hooks,
            "Notification"@,
            JsonView::Array(new_list),
            JsonView::Array(Seq::empty()),
        );
        lemma_set_twice(
            root,
            "hooks"@,
            JsonView::Object(new_hooks),
            JsonView::Object(Seq::empty()),
        );
    }
}

/// Setting up an agent with hooks keeps those that are there, in their order, and adds at most its
/// own.
pub proof fn claude_setup_keeps_other_hooks(root: Seq<(Seq<char>, JsonView)>, command: Seq<char>)
    ensures
        claude_fields(root, command) matches Ok((fields, present)) ==> {
            let before = field_or(
                field_or(root, "hooks"@, JsonView::Object(Seq::empty()))->Object_0,
                "Notification"@,
                JsonView::Array(Seq::empty()),
            )->Array_0;
            let after = field_or(
                field_or(fields, "hooks"@, JsonView::Object(Seq::empty()))->Object_0,
                "Notification"@,
                JsonView::Array(Seq::empty()),
            )->Array_0;
            after == if present {
                before
            } else {
                before.push(hook_entry(command))
            }
        },
{
    if claude_fields(root, command) is Ok {
        let hooks = field_or(root, "hooks"@, JsonView::Object(Seq::empty()))->Object_0;
        let list = field_or(hooks, "Notification"@, JsonView::Array(Seq::empty()))->Array_0;
        let new_list = if has_hook(list, command, list.len() as int) {
            list
        } else {
            list.push(hook_entry(command))
        };
        let new_hooks = with_field(hooks, "Notification"@, JsonView::Array(new_list));
        lemma_set_twice(
            hooks,
            "Notification"@,
            JsonView::Array(new_list),
            JsonView::Array(Seq::empty()),
        );
        lemma_set_twice(
            root,
            "hooks"@,
            JsonView::Object(new_hooks),
            JsonView::Object(Seq::empty()),
        );
    }
}

/// Each word sets up the agent that goes by it, `all` sets up every one, and an unknown word none.
pub proof fn words_choose_their_agents(word: Seq<char>, hook: HookAgentView)
    requires
        hook.word != "codex"@ && hook.word != "gemini"@ && hook.word != "aider"@ && hook.word
            != "all"@,
        hook.alias != "codex"@ && hook.alias != "gemini"@ && hook.alias != "aider"@ && hook.alias
            != "all"@,
    ensures
        agents_of("codex"@, hook) == Some(seq![Agent::Codex]),
        agents_of("gemini"@, hook) == Some(seq![Agent::Gemini]),
        agents_of("aider"@, hook) == Some(seq![Agent::Aider]),
        agents_of(hook.word, hook) == Some(seq![Agent::Claude]),
        agents_of(hook.alias, hook) == Some(seq![Agent::Claude]),
        agents_of("all"@, hook) == Some(
            seq![Agent::Claude, Agent::Codex, Agent::Gemini, Agent::Aider],
        ),
        agents_of(word, hook) is None == (word != "codex"@ && word != "gemini"@ && word != "aider"@
            && word != "all"@ && word != hook.word && word != hook.alias),
{
    reveal_strlit("codex");
    reveal_strlit("gemini");
    reveal_strlit("aider");
    reveal_strlit("all");
    assert("codex"@[0] == 'c');
    assert("aider"@[0] == 'a');
    assert("codex"@.len() == 5 && "gemini"@.len() == 6 && "aider"@.len() == 5 && "all"@.len() == 3);
}

/// Setting one field leaves what is found under every other name.
proof fn lemma_set_other(
    fields: Seq<(Seq<char>, JsonView)>,
    name: Seq<char>,
    value: JsonView,
    other: Seq<char>,
)
    requires
        other != name,
    ensures
        field(JsonView::Object(with_field(fields, name, value)), other) == field(
            JsonView::Object(fields),
            other,
        ),
{
    let set = with_field(fields, name, value);
    lemma_field_found(fields, name, 0);
    assert forall|i: int| 0 <= i < fields.len() implies (#[trigger] set[i]).0 == fields[i].0 by {}
    lemma_index_kept(fields, set, name, other, 0);
    lemma_field_found(fields, other, 0);
}

proof fn lemma_index_kept(
    fields: Seq<(Seq<char>, JsonView)>,
    set: Seq<(Seq<char>, JsonView)>,
    name: Seq<char>,
    other: Seq<char>,
    from: int,
)
    requires
        other != name,
        0 <= from <= fields.len() <= set.len(),
        set.len() <= fields.len() + 1,
        set.len() > fields.len() ==> set.last().0 == name,
        forall|i: int| 0 <= i < fields.len() ==> (#[trigger] set[i]).0 == fields[i].0,
    ensures
        field_index(set, other, from) == field_index(fields, other, from),
    decreases fields.len() - from,
{
    if from < fields.len() {
        assert(set[from].0 == fields[from].0);
        lemma_index_kept(fields, set, name, other, from + 1);
    } else {
        reveal_with_fuel(field_index, 2);
    }
}

/// Setting up the Gemini agent turns its notifications on, and changes nothing else: each other
/// setting, under `general` or not, is what it was.
pub proof fn gemini_setup_turns_notifications_on(root: Seq<(Seq<char>, JsonView)>, name: Seq<char>)
    ensures
        gemini_fields(root) matches Ok(fields) ==> {
            let before = field(JsonView::Object(root), "general"@);
            let after = field(JsonView::Object(fields), "general"@);
            &&& after is Some
            &&& field(after->0, "enableNotifications"@) == Some(JsonView::Bool(true))
            &&& field(after->0, "notificationMethod"@) == Some(JsonView::Text("osc777"@))
            &&& name != "enableNotifications"@ && name != "notificationMethod"@ ==> field(
                after->0,
                name,
            ) == (if before is Some {
                field(before->0, name)
            } else {
                None
            })
            &&& name != "general"@ ==> field(JsonView::Object(fields), name) == field(
                JsonView::Object(root),
                name,
            )
        },
{
    if let Ok(fields) = gemini_fields(root) {
        reveal_strlit("enableNotifications");
        reveal_strlit("notificationMethod");
        assert("enableNotifications"@[0] == 'e' && "notificationMethod"@[0] == 'n');
        let f = field_or(root, "general"@, JsonView::Object(Seq::empty()))->Object_0;
        let e = with_field(f, "enableNotifications"@, JsonView::Bool(true));
        let text = JsonView::Text("osc777"@);
        let set = with_field(e, "notificationMethod"@, text);
        lemma_set_twice(f, "enableNotifications"@, JsonView::Bool(true), JsonView::Null);
        lemma_set_twice(e, "notificationMethod"@, text, JsonView::Null);
        lemma_set_other(e, "notificationMethod"@, text, "enableNotifications"@);
        lemma_set_twice(root, "general"@, JsonView::Object(set), JsonView::Null);
        if name != "enableNotifications"@ && name != "notificationMethod"@ {
            lemma_set_other(e, "notificationMethod"@, text, name);
            lemma_set_other(f, "enableNotifications"@, JsonView::Bool(true), name);
        }
        if name != "general"@ {
            lemma_set_other(root, "general"@, JsonView::Object(set), name);
        }
    }
}

/// Whether the printed form of one of some hooks holds a command.
pub open spec fn holds_command(hooks: Seq<JsonView>, command: Seq<char>) -> bool {
    exists|i: int| 0 <= i < hooks.len() && occurs(compact_text(#[trigger] hooks[i]), command)
}

proof fn lemma_has_hook(hooks: Seq<JsonView>, command: Seq<char>, n: int)
    requires
        0 <= n <= hooks.len(),
    ensures
        has_hook(hooks, command, n) <==> exists|i: int|
            0 <= i < n && occurs(compact_text(#[trigger] hooks[i]), command),
    decreases n,
{
    if n > 0 {
        lemma_has_hook(hooks, command, n - 1);
        if has_hook(hooks, command, n) {
            if occurs(compact_text(hooks[n - 1]), command) {
            } else {
                let i = choose|i: int|
                    0 <= i < n - 1 && occurs(compact_text(#[trigger] hooks[i]), command);
                assert(0 <= i < n && occurs(compact_text(hooks[i]), command));
            }
        }
    }
}

/// After an agent with hooks is set up, one of its notification hooks runs `gmux _hook` with its
/// word: one that was there and holds that command, or else a new one behind the others. Every
/// other setting is what it was.
pub proof fn set_up_agents_run_the_hook(
    root: Seq<(Seq<char>, JsonView)>,
    word: Seq<char>,
    name: Seq<char>,
)
    ensures
        claude_fields(root, hook_command(word)) matches Ok((fields, present)) ==> {
            let hooks = field(JsonView::Object(fields), "hooks"@);
            let list = field(hooks->0, "Notification"@);
            let command = "gmux _hook "@ + word;
            let made = field(list->0->Array_0.last(), "hooks"@);
            &&& hooks is Some && list is Some && list->0 is Array
            &&& present ==> holds_command(list->0->Array_0, command)
            &&& !present ==> list->0->Array_0.len() > 0 && made is Some && made->0 is Array
                && made->0->Array_0.len() == 1 && field(made->0->Array_0[0], "type"@) == Some(
                JsonView::Text("command"@),
            ) && field(made->0->Array_0[0], "command"@) == Some(JsonView::Text(command))
            &&& name != "hooks"@ ==> field(JsonView::Object(fields), name) == field(
                JsonView::Object(root),
                name,
            )
        },
{
    if claude_fields(root, hook_command(word)) is Ok {
        let command = hook_command(word);
        let hooks = field_or(root, "hooks"@, JsonView::Object(Seq::empty()))->Object_0;
        let list = field_or(hooks, "Notification"@, JsonView::Array(Seq::empty()))->Array_0;
        let n = list.len() as int;
        lemma_has_hook(list, command, n);
        let new_list = if has_hook(list, command, n) {
            list
        } else {
            list.push(hook_entry(command))
        };
        let new_hooks = with_field(hooks, "Notification"@, JsonView::Array(new_list));
        lemma_set_twice(hooks, "Notification"@, JsonView::Array(new_list), JsonView::Null);
        lemma_set_twice(root, "hooks"@, JsonView::Object(new_hooks), JsonView::Null);
        if name != "hooks"@ {
            lemma_set_other(root, "hooks"@, JsonView::Object(new_hooks), name);
        }
        reveal_strlit("type");
        reveal_strlit("command");
        assert("type"@.len() == 4 && "command"@.len() == 7);
        reveal_with_fuel(field_index, 3);
        if !has_hook(list, command, n) {
            assert(new_list.last() == hook_entry(command));
        }
    }
}

/// Setting up Codex sets `tui.notification_method` to `osc9`; setting up Aider appends the two keys
/// on lines of their own, and only where the command is not there yet.
pub proof fn other_agents_notify_through_the_terminal(text: Seq<char>)
    ensures
        toml_slot(text, "tui"@) is Ok ==> codex_change(text) is Ok && codex_change(text)->Ok_0.text
            == Some(toml_with(text, "tui"@, "notification_method"@, "osc9"@)),
        aider_change(text).text is None == occurs(text, "notifications-command:"@),
        aider_change(text).text matches Some(t) ==> t == text + (if text.len() == 0 || text.last()
            == '\n' {
            Seq::<char>::empty()
        } else {
            seq!['\n']
        }) + "notifications: true\n"@
            + "notifications-command: gmux notify --title aider --body \"needs input\"\n"@,
{
    assert(text.push('\n') =~= text + seq!['\n']);
    assert(text + Seq::<char>::empty() =~= text);
}

} // verus!
