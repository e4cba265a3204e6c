//! Names of the TCP connection states.

use vstd::prelude::*;
use vstd::string::StringExecFns;

verus! {

/// The name of the TCP state with the operating system's code `code`;
/// `UNKNOWN` for a code outside the table.
pub open spec fn tcp_state_name(code: u32) -> Seq<char> {
    if code == 1 {
        "CLOSED"@
    } else if code == 2 {
        "LISTEN"@
    } else if code == 3 {
        "SYN_SENT"@
    } else if code == 4 {
        "SYN_RCVD"@
    } else if code == 5 {
        "ESTABLISHED"@
    } else if code == 6 {
        "FIN_WAIT1"@
    } else if code == 7 {
        "FIN_WAIT2"@
    } else if code == 8 {
        "CLOSE_WAIT"@
    } else if code == 9 {
        "CLOSING"@
    } else if code == 10 {
        "LAST_ACK"@
    } else if code == 11 {
        "TIME_WAIT"@
    } else if code == 12 {
        "DELETE_TCB"@
    } else {
        "UNKNOWN"@
    }
}

/// The state name of a record without a connection state.
pub open spec fn stateless_name() -> Seq<char> {
    "-"@
}

/// Maps a TCP state code to its name.
pub fn map_tcp_state(code: u32) -> (name: String)
    ensures
        name@ == tcp_state_name(code),
{
    let name: &str = if code == 1 {
        "CLOSED"
    } else if code == 2 {
        "LISTEN"
    } else if code == 3 {
        "SYN_SENT"
    } else if code == 4 {
        "SYN_RCVD"
    } else if code == 5 {
        "ESTABLISHED"
    } else if code == 6 {
        "FIN_WAIT1"
    } else if code == 7 {
        "FIN_WAIT2"
    } else if code == 8 {
        "CLOSE_WAIT"
    } else if code == 9 {
        "CLOSING"
    } else if code == 10 {
        "LAST_ACK"
    } else if code == 11 {
        "TIME_WAIT"
    } else if code == 12 {
        "DELETE_TCB"
    } else {
        "UNKNOWN"
    };
    String::from_str(name)
}

} // verus!
