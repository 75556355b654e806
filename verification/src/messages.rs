use vstd::prelude::*;
use crate::text::{chars_of, decimal, has_prefix, push_decimal, starts_with_chars};

verus! {

/// "PID <pid> terminated."
pub open spec fn terminated_text(pid: u32) -> Seq<char> {
    "PID "@ + decimal(pid as nat) + " terminated."@
}

/// The status line after a process was terminated.
pub fn terminated(pid: u32) -> (msg: String)
    ensures
        msg@ == terminated_text(pid),
{
    let mut m = String::from_str("PID ");
    push_decimal(&mut m, pid as u128);
    m.append(" terminated.");
    m
}

/// "Terminated process tree for PID <pid> (<count> processes)."
pub open spec fn tree_terminated_text(pid: u32, count: usize) -> Seq<char> {
    "Terminated process tree for PID "@ + decimal(pid as nat) + " ("@ + decimal(count as nat) + " processes)."@
}

/// The status line after a process tree was terminated.
pub fn tree_terminated(pid: u32, count: usize) -> (msg: String)
    ensures
        msg@ == tree_terminated_text(pid, count),
{
    let mut m = String::from_str("Terminated process tree for PID ");
    push_decimal(&mut m, pid as u128);
    m.append(" (");
    push_decimal(&mut m, count as u128);
    m.append(" processes).");
    m
}

/// "Process PID <pid> suspended." or "... resumed."
pub open spec fn suspension_text(pid: u32, suspended: bool) -> Seq<char> {
    "Process PID "@ + decimal(pid as nat) + if suspended { " suspended."@ } else { " resumed."@ }
}

/// The status line after a process was suspended or resumed.
pub fn suspension_changed(pid: u32, suspended: bool) -> (msg: String)
    ensures
        msg@ == suspension_text(pid, suspended),
{
    let mut m = String::from_str("Process PID ");
    push_decimal(&mut m, pid as u128);
    if suspended {
        m.append(" suspended.");
    } else {
        m.append(" resumed.");
    }
    m
}

/// "Failed to suspend process PID <pid>" or "Failed to resume process PID <pid>".
pub open spec fn suspension_failure_text(pid: u32, suspending: bool) -> Seq<char> {
    (if suspending { "Failed to suspend process PID "@ } else { "Failed to resume process PID "@ }) + decimal(pid as nat)
}

/// The error when a process could not be suspended or resumed.
pub fn suspension_failure(pid: u32, suspending: bool) -> (msg: String)
    ensures
        msg@ == suspension_failure_text(pid, suspending),
{
    let mut m = if suspending {
        String::from_str("Failed to suspend process PID ")
    } else {
        String::from_str("Failed to resume process PID ")
    };
    push_decimal(&mut m, pid as u128);
    m
}

/// "Error: <detail>".
pub open spec fn error_text(detail: Seq<char>) -> Seq<char> {
    "Error: "@ + detail
}

/// The status line for a failed action.
pub fn error_status(detail: &str) -> (msg: String)
    ensures
        msg@ == error_text(detail@),
{
    let mut m = String::from_str("Error: ");
    m.append(detail);
    m
}

/// "Boost Mode enabled. Suspended <n> background apps." or
/// "Boost Mode disabled. Resumed <n> apps."
pub open spec fn boost_text(enabled: bool, n: usize) -> Seq<char> {
    if enabled {
        "Boost Mode enabled. Suspended "@ + decimal(n as nat) + " background apps."@
    } else {
        "Boost Mode disabled. Resumed "@ + decimal(n as nat) + " apps."@
    }
}

/// The status line after boost mode was switched.
pub fn boost_status(enabled: bool, n: usize) -> (msg: String)
    ensures
        msg@ == boost_text(enabled, n),
{
    if enabled {
        let mut m = String::from_str("Boost Mode enabled. Suspended ");
        push_decimal(&mut m, n as u128);
        m.append(" background apps.");
        m
    } else {
        let mut m = String::from_str("Boost Mode disabled. Resumed ");
        push_decimal(&mut m, n as u128);
        m.append(" apps.");
        m
    }
}

/// "Failed to activate Boost Mode: <detail>".
pub open spec fn boost_failure_text(detail: Seq<char>) -> Seq<char> {
    "Failed to activate Boost Mode: "@ + detail
}

/// The status line when boost mode could not be switched on.
pub fn boost_failure(detail: &str) -> (msg: String)
    ensures
        msg@ == boost_failure_text(detail@),
{
    let mut m = String::from_str("Failed to activate Boost Mode: ");
    m.append(detail);
    m
}

/// "Removed '<name>' from startup."
pub open spec fn startup_removed_text(name: Seq<char>) -> Seq<char> {
    "Removed '"@ + name + "' from startup."@
}

/// The status line after a startup program was removed.
pub fn startup_removed(name: &str) -> (msg: String)
    ensures
        msg@ == startup_removed_text(name@),
{
    let mut m = String::from_str("Removed '");
    m.append(name);
    m.append("' from startup.");
    m
}

/// The web search opened for a process name.
pub open spec fn search_url_text(name: Seq<char>) -> Seq<char> {
    "https://www.google.com/search?q="@ + name + "+process+security+info"@
}

/// The address of a web search about a process.
pub fn search_url(name: &str) -> (url: String)
    ensures
        url@ == search_url_text(name@),
{
    let mut m = String::from_str("https://www.google.com/search?q=");
    m.append(name);
    m.append("+process+security+info");
    m
}

/// A status line reads as an error when it starts with "Error" or "Failed".
pub open spec fn is_error_text(msg: Seq<char>) -> bool {
    has_prefix(msg, "Error"@) || has_prefix(msg, "Failed"@)
}

/// Whether the status line is shown as an error.
pub fn is_error_status(msg: &str) -> (r: bool)
    ensures
        r == is_error_text(msg@),
{
    let m = chars_of(msg);
    starts_with_chars(&m, &chars_of("Error")) || starts_with_chars(&m, &chars_of("Failed"))
}

} // verus!
