//! Messages to the service manager.

use vstd::prelude::*;
use vstd::string::*;

verus! {

/// Says that the daemon is ready.
pub fn ready() -> (message: String)
    ensures
        message@ == "READY=1\nSTATUS=watching for coredumps\n"@,
{
    String::from_str("READY=1\nSTATUS=watching for coredumps\n")
}

/// Says that the daemon is alive.
pub fn watchdog() -> (message: String)
    ensures
        message@ == "WATCHDOG=1\n"@,
{
    String::from_str("WATCHDOG=1\n")
}

/// Says that the daemon is about to stop.
pub fn stopping() -> (message: String)
    ensures
        message@ == "STOPPING=1\n"@,
{
    String::from_str("STOPPING=1\n")
}

/// Says what the daemon is doing.
pub fn status(s: &str) -> (message: String)
    ensures
        message@ == "STATUS="@ + s@ + "\n"@,
{
    let mut message = String::from_str("STATUS=");
    message.append(s);
    message.append("\n");
    message
}

} // verus!
