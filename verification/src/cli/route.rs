//! What the program is asked to be: a window, a daemon, or a command.
use vstd::prelude::*;
use vstd::string::*;

use crate::cli::dispatch::{dispatch, Plan};
#[allow(unused_imports)]
use crate::cli::dispatch::{planned, PlanView};
use crate::cli::notice::notify;
#[allow(unused_imports)]
use crate::cli::notice::notice_sequence;
use crate::hooks::HookAgent;
#[allow(unused_imports)]
use crate::hooks::HookAgentView;
use crate::text::{join_lines, str_eq};
#[allow(unused_imports)]
use crate::text::{joined, opt_text, texts_view};

verus! {

/// What the program is asked to be.
pub enum Route {
    /// A window with the default shell.
    Window,
    /// A window that runs a command line.
    Run(String),
    /// The multiplexer itself, without a window.
    Daemon,
    /// Print an escape sequence.
    Print(String),
    /// Set up agents.
    Hooks(String),
    /// Print the shell snippet.
    Snippet,
    /// Install the shell snippet.
    Install,
    /// Answer an event of an agent, which may be named.
    Hook(Option<String>),
    /// Show how the program is used.
    Help,
    /// A command of the automation interface.
    Api(Plan),
    /// The command was not understood.
    Usage(String),
}

/// The mathematical value of a [`Route`].
pub enum RouteView {
    Window,
    Run(Seq<char>),
    Daemon,
    Print(Seq<char>),
    Hooks(Seq<char>),
    Snippet,
    Install,
    Hook(Option<Seq<char>>),
    Help,
    Api(PlanView),
    Usage(Seq<char>),
}

impl Route {
    pub open spec fn view(&self) -> RouteView {
        match *self {
            Route::Window => RouteView::Window,
            Route::Run(s) => RouteView::Run(s@),
            Route::Daemon => RouteView::Daemon,
            Route::Print(s) => RouteView::Print(s@),
            Route::Hooks(s) => RouteView::Hooks(s@),
            Route::Snippet => RouteView::Snippet,
            Route::Install => RouteView::Install,
            Route::Hook(a) => RouteView::Hook(opt_text(a)),
            Route::Help => RouteView::Help,
            Route::Api(p) => RouteView::Api(p@),
            Route::Usage(s) => RouteView::Usage(s@),
        }
    }
}

/// What `hooks` asks for.
pub open spec fn hooks_route(args: Seq<Seq<char>>, hook: HookAgentView) -> RouteView {
    if args.len() >= 2 && args[0] == "setup"@ {
        RouteView::Hooks(args[1])
    } else {
        RouteView::Usage("usage: gmux hooks setup <"@ + hook.word + "|codex|gemini|aider|all>"@)
    }
}

/// What `hooks` asks for.
pub fn cmd_hooks(args: &[String], hook: &HookAgent) -> (r: Route)
    ensures
        r@ == hooks_route(texts_view(args@), hook@),
{
    if args.len() >= 2 && str_eq(args[0].as_str(), "setup") {
        Route::Hooks(args[1].clone())
    } else {
        let mut s = String::from_str("usage: gmux hooks setup <");
        s.append(hook.word.as_str());
        s.append("|codex|gemini|aider|all>");
        Route::Usage(s)
    }
}

/// What `shell-integration` asks for.
pub open spec fn snippet_route(args: Seq<Seq<char>>) -> RouteView {
    if args.len() == 0 || args[0] == "--print"@ {
        RouteView::Snippet
    } else if args[0] == "--install"@ {
        RouteView::Install
    } else {
        RouteView::Usage("usage: gmux shell-integration [--print|--install]"@)
    }
}

/// What `shell-integration` asks for.
pub fn cmd_shell_integration(args: &[String]) -> (r: Route)
    ensures
        r@ == snippet_route(texts_view(args@)),
{
    if args.len() == 0 || str_eq(args[0].as_str(), "--print") {
        Route::Snippet
    } else if str_eq(args[0].as_str(), "--install") {
        Route::Install
    } else {
        Route::Usage(String::from_str("usage: gmux shell-integration [--print|--install]"))
    }
}

/// What the arguments of the program ask for. What is no command is a command line to run.
pub open spec fn routed(args: Seq<Seq<char>>, hook: HookAgentView) -> RouteView {
    if args.len() == 0 {
        RouteView::Window
    } else {
        let (sub, rest) = (args[0], args.skip(1));
        if sub == "--daemon"@ {
            RouteView::Daemon
        } else if sub == "notify"@ {
            RouteView::Print(notice_sequence(rest))
        } else if sub == "hooks"@ {
            hooks_route(rest, hook)
        } else if sub == "shell-integration"@ {
            snippet_route(rest)
        } else if sub == "_hook"@ {
            RouteView::Hook(
                if rest.len() > 0 {
                    Some(rest[0])
                } else {
                    None
                },
            )
        } else if sub == "--help"@ || sub == "-h"@ || sub == "help"@ {
            RouteView::Help
        } else if planned(sub, rest) is NotApi {
            RouteView::Run(joined(args, " "@))
        } else {
            RouteView::Api(planned(sub, rest))
        }
    }
}

/// What the arguments of the program ask for.
pub fn route(args: &Vec<String>, hook: &HookAgent) -> (r: Route)
    ensures
        r@ == routed(texts_view(args@), hook@),
{
    if args.len() == 0 {
        return Route::Window;
    }
    let sub = args[0].as_str();
    let rest = vstd::slice::slice_subrange(args.as_slice(), 1, args.len());
    assert(texts_view(rest@) =~= texts_view(args@).skip(1));
    if str_eq(sub, "--daemon") {
        Route::Daemon
    } else if str_eq(sub, "notify") {
        Route::Print(notify(rest))
    } else if str_eq(sub, "hooks") {
        cmd_hooks(rest, hook)
    } else if str_eq(sub, "shell-integration") {
        cmd_shell_integration(rest)
    } else if str_eq(sub, "_hook") {
        Route::Hook(
            if rest.len() > 0 {
                Some(rest[0].clone())
            } else {
                None
            },
        )
    } else if str_eq(sub, "--help") || str_eq(sub, "-h") || str_eq(sub, "help") {
        Route::Help
    } else {
        match dispatch(sub, rest) {
            Plan::NotApi => Route::Run(join_lines(args, " ")),
            p => Route::Api(p),
        }
    }
}

/// The path of Windows PowerShell.
pub const WINDOWS_POWERSHELL: &'static str =
    "C:\\Windows\\System32\\WindowsPowerShell\\v1.0\\powershell.exe";

/// The command line of the default shell: the newer PowerShell where it is on the path, else Windows
/// PowerShell where it is there, else the command interpreter.
pub open spec fn shell_of(newer: bool, older: bool) -> Seq<char> {
    if newer {
        "pwsh.exe -NoLogo"@
    } else if older {
        WINDOWS_POWERSHELL@ + " -NoLogo"@
    } else {
        "cmd.exe"@
    }
}

/// The command line of the default shell.
pub fn default_shell(newer: bool, older: bool) -> (s: String)
    ensures
        s@ == shell_of(newer, older),
{
    if newer {
        String::from_str("pwsh.exe -NoLogo")
    } else if older {
        let mut s = String::from_str(WINDOWS_POWERSHELL);
        s.append(" -NoLogo");
        s
    } else {
        String::from_str("cmd.exe")
    }
}

} // verus!
