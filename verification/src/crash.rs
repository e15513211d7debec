//! The text of crash reports, which stay on the machine.
use vstd::prelude::*;
use vstd::string::*;

use crate::proto::SERVER_VERSION;
use crate::text::push_decimal;
#[allow(unused_imports)]
use crate::text::dec;

verus! {

/// The name of the file that collects the reports of a process.
pub open spec fn file_name(component: Seq<char>, pid: nat) -> Seq<char> {
    component + "-"@ + dec(pid) + ".txt"@
}

/// The name of the file that collects the reports of a process.
pub fn report_name(component: &str, pid: u32) -> (s: String)
    ensures
        s@ == file_name(component@, pid as nat),
{
    let mut s = String::from_str(component);
    s.append("-");
    push_decimal(&mut s, pid as u64);
    s.append(".txt");
    s
}

/// A report: when and in which component it happened, the message, the place and the calls.
pub open spec fn report_text(
    component: Seq<char>,
    unix: nat,
    message: Seq<char>,
    location: Seq<char>,
    calls: Seq<char>,
) -> Seq<char> {
    "--- gmux "@ + SERVER_VERSION@ + " "@ + component + " panic (unix "@ + dec(unix) + ") ---\n"@
        + "message:  "@ + message + "\n"@ + "location: "@ + location + "\n"@ + calls + "\n"@
}

/// A report. `unix` is the time in seconds since the epoch, and `calls` lists the calls.
pub fn write_report(component: &str, unix: u64, message: &str, location: &str, calls: &str) -> (s:
    String)
    ensures
        s@ == report_text(component@, unix as nat, message@, location@, calls@),
{
    let mut s = String::from_str("--- gmux ");
    s.append(SERVER_VERSION);
    s.append(" ");
    s.append(component);
    s.append(" panic (unix ");
    push_decimal(&mut s, unix);
    s.append(") ---\n");
    s.append("message:  ");
    s.append(message);
    s.append("\n");
    s.append("location: ");
    s.append(location);
    s.append("\n");
    s.append(calls);
    s.append("\n");
    s
}

/// A report tells its component and time first, each in its place, and names the message, the place
/// and the calls on lines of their own.
pub proof fn reports_tell_what_happened(
    component: Seq<char>,
    unix: nat,
    message: Seq<char>,
    location: Seq<char>,
    calls: Seq<char>,
)
    ensures
        exists|head: Seq<char>| #[trigger]
            (head + "message:  "@ + message + "\n"@ + "location: "@ + location + "\n"@ + calls
                + "\n"@) == report_text(component, unix, message, location, calls) && head
                == "--- gmux "@ + SERVER_VERSION@ + " "@ + component + " panic (unix "@ + dec(unix)
                + ") ---\n"@,
{
    let head = "--- gmux "@ + SERVER_VERSION@ + " "@ + component + " panic (unix "@ + dec(unix)
        + ") ---\n"@;
    assert((head + "message:  "@ + message + "\n"@ + "location: "@ + location + "\n"@ + calls
        + "\n"@) =~= report_text(component, unix, message, location, calls));
}

} // verus!
