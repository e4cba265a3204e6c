//! Filtering of a table of socket records.
//!
//! Each option of a run that restricts the table is one constraint. A
//! constraint that is not set holds of every record. A record is kept if and
//! only if every constraint holds of it.

use vstd::prelude::*;
use crate::address::{is_valid_address, validate_address};
use crate::args::Args;
use crate::get_process_name::SYSTEM_PID;
use crate::name_pattern::{name_matches, NamePattern};
use crate::range_filter::{filter_range, range_error, range_matches, validate_range_args};
use crate::rpderror::{RpdError, RpdErrorView};
use crate::socket::{Protocol, Socket, SocketView};
use crate::text::{equal_ignoring_case, same_ignoring_case};

verus! {

/// The local port of the record is the one asked for.
pub open spec fn port_holds(args: Args, socket: SocketView) -> bool {
    args.port is Some ==> socket.local_port == args.port->0
}

/// The record has a remote port, and it is the one asked for.
pub open spec fn remote_port_holds(args: Args, socket: SocketView) -> bool {
    args.remote_port is Some ==> socket.remote_port == Some(args.remote_port->0)
}

/// The process name of the record matches the pattern asked for.
pub open spec fn process_name_holds(args: Args, socket: SocketView) -> bool {
    args.process_name is Some ==> name_matches(args.process_name->0@, socket.process_name)
}

/// The record belongs to the process asked for.
pub open spec fn pid_holds(args: Args, socket: SocketView) -> bool {
    args.pid is Some ==> socket.pid == args.pid->0
}

/// The state of the record is the one asked for, in any case.
pub open spec fn state_holds(args: Args, socket: SocketView) -> bool {
    args.state is Some ==> same_ignoring_case(socket.state, args.state->0@)
}

/// The local address of the record is the one asked for, in any case.
pub open spec fn local_address_holds(args: Args, socket: SocketView) -> bool {
    args.local_address is Some ==> same_ignoring_case(
        socket.local_address,
        args.local_address->0@,
    )
}

/// The record has a remote address, and it is the one asked for, in any
/// case.
pub open spec fn remote_address_holds(args: Args, socket: SocketView) -> bool {
    args.remote_address is Some ==> socket.remote_address is Some && same_ignoring_case(
        socket.remote_address->0,
        args.remote_address->0@,
    )
}

/// The record is at least as old as asked for.
pub open spec fn older_than_holds(args: Args, socket: SocketView) -> bool {
    args.older_than is Some ==> socket.uptime_seconds >= args.older_than->0
}

/// The record is at most as old as asked for.
pub open spec fn younger_than_holds(args: Args, socket: SocketView) -> bool {
    args.younger_than is Some ==> socket.uptime_seconds <= args.younger_than->0
}

/// The record does not belong to the system process, where those are
/// excluded.
pub open spec fn no_system_holds(args: Args, socket: SocketView) -> bool {
    args.no_system ==> socket.pid != SYSTEM_PID
}

/// The record lies in the range asked for.
pub open spec fn range_holds(args: Args, socket: SocketView) -> bool {
    args.range is Some ==> range_matches(args.range->0.deep_view(), socket, args.ip_version)
}

/// Whether a record passes the filters of `args`: every constraint holds of
/// it.
pub open spec fn row_passes(args: Args, socket: SocketView) -> bool {
    &&& range_holds(args, socket)
    &&& port_holds(args, socket)
    &&& remote_port_holds(args, socket)
    &&& process_name_holds(args, socket)
    &&& pid_holds(args, socket)
    &&& state_holds(args, socket)
    &&& local_address_holds(args, socket)
    &&& remote_address_holds(args, socket)
    &&& older_than_holds(args, socket)
    &&& younger_than_holds(args, socket)
    &&& no_system_holds(args, socket)
}

/// Why the filters of `args` are rejected, if they are: the local address
/// is checked first, then the remote address, then the range query.
pub open spec fn filter_error(args: Args) -> Option<RpdErrorView> {
    if args.local_address is Some && !is_valid_address(args.local_address->0@, args.ip_version) {
        Some(RpdErrorView::InvalidLocalAddressErr(args.local_address->0@))
    } else if args.remote_address is Some && !is_valid_address(
        args.remote_address->0@,
        args.ip_version,
    ) {
        Some(RpdErrorView::InvalidRemoteAddressErr(args.remote_address->0@))
    } else if args.range is Some {
        range_error(args.range->0.deep_view(), args.ip_version)
    } else {
        None
    }
}

/// The records of `table` that pass the filters of `args`, in their order.
pub open spec fn filtered(table: Seq<Socket>, args: Args) -> Seq<Socket> {
    table.filter(|s: Socket| row_passes(args, s@))
}

/// A record is in the filtered table if and only if it is in the table and
/// every one of the constraints holds of it, each by itself.
pub proof fn lemma_filtered_is_conjunction(table: Seq<Socket>, args: Args, socket: Socket)
    ensures
        filtered(table, args).contains(socket) <==> {
            &&& table.contains(socket)
            &&& range_holds(args, socket@)
            &&& port_holds(args, socket@)
            &&& remote_port_holds(args, socket@)
            &&& process_name_holds(args, socket@)
            &&& pid_holds(args, socket@)
            &&& state_holds(args, socket@)
            &&& local_address_holds(args, socket@)
            &&& remote_address_holds(args, socket@)
            &&& older_than_holds(args, socket@)
            &&& younger_than_holds(args, socket@)
            &&& no_system_holds(args, socket@)
        },
{
    let keep = |s: Socket| row_passes(args, s@);
    let kept = table.filter(keep);
    if kept.contains(socket) {
        let i = choose|i: int| 0 <= i < kept.len() && kept[i] == socket;
        table.lemma_filter_pred(keep, i);
        table.lemma_filter_contains_rev(keep, socket);
    }
    if table.contains(socket) && row_passes(args, socket@) {
        let i = choose|i: int| 0 <= i < table.len() && table[i] == socket;
        table.lemma_filter_contains(keep, i);
    }
}

/// Where no filter is set, every record passes.
pub proof fn lemma_no_filter_keeps_all(args: Args, socket: SocketView)
    requires
        args.active_filters() == 0,
    ensures
        row_passes(args, socket),
{
    reveal(crate::args::one_if);
}

/// A filter on the remote port keeps no record without a remote port, and
/// so no well-formed UDP record.
pub proof fn lemma_remote_port_filter_drops_udp(args: Args, socket: SocketView)
    requires
        socket.wf(),
        socket.protocol == Protocol::Udp,
        args.remote_port is Some,
    ensures
        !row_passes(args, socket),
{
}

/// The process-name pattern of `args`, made ready.
fn ready_pattern(args: &Args) -> (ready: Option<NamePattern>)
    ensures
        ready is Some <==> args.process_name is Some,
        ready matches Some(p) ==> p.pattern() == args.process_name->0@,
{
    match &args.process_name {
        Some(pattern) => Some(NamePattern::new(pattern.as_str())),
        None => None,
    }
}

/// Checks the constraints on the numbers of a record.
fn numbers_pass(args: &Args, socket: &Socket) -> (passes: bool)
    ensures
        passes == (port_holds(*args, socket@) && remote_port_holds(*args, socket@) && pid_holds(
            *args,
            socket@,
        ) && older_than_holds(*args, socket@) && younger_than_holds(*args, socket@)
            && no_system_holds(*args, socket@)),
{
    if let Some(port) = args.port {
        if socket.local_port != port {
            return false;
        }
    }
    if let Some(port) = args.remote_port {
        match socket.remote_port {
            Some(remote_port) => {
                if remote_port != port {
                    return false;
                }
            },
            None => {
                return false;
            },
        }
    }
    if let Some(pid) = args.pid {
        if socket.pid != pid {
            return false;
        }
    }
    if let Some(seconds) = args.older_than {
        if socket.uptime_seconds < seconds as u64 {
            return false;
        }
    }
    if let Some(seconds) = args.younger_than {
        if socket.uptime_seconds > seconds as u64 {
            return false;
        }
    }
    if args.no_system && socket.pid == SYSTEM_PID {
        return false;
    }
    true
}

/// Checks the constraints on the texts of a record.
fn texts_pass(args: &Args, socket: &Socket) -> (passes: bool)
    ensures
        passes == (state_holds(*args, socket@) && local_address_holds(*args, socket@)
            && remote_address_holds(*args, socket@)),
{
    if let Some(state) = &args.state {
        if !equal_ignoring_case(socket.state.as_str(), state.as_str()) {
            return false;
        }
    }
    if let Some(address) = &args.local_address {
        if !equal_ignoring_case(socket.local_address.as_str(), address.as_str()) {
            return false;
        }
    }
    if let Some(address) = &args.remote_address {
        match &socket.remote_address {
            Some(remote_address) => {
                if !equal_ignoring_case(remote_address.as_str(), address.as_str()) {
                    return false;
                }
            },
            None => {
                return false;
            },
        }
    }
    true
}

/// Checks a record against the filters of `args`, with the process-name
/// pattern already made ready.
fn row_passes_with(args: &Args, pattern: &Option<NamePattern>, socket: &Socket) -> (passes: bool)
    requires
        pattern is Some <==> args.process_name is Some,
        pattern matches Some(p) ==> p.pattern() == args.process_name->0@,
    ensures
        passes == row_passes(*args, socket@),
{
    if let Some(range_args) = &args.range {
        if !filter_range(range_args, socket, &args.ip_version) {
            return false;
        }
    }
    if !numbers_pass(args, socket) {
        return false;
    }
    if let Some(ready) = pattern {
        if !ready.matches(socket.process_name.as_str()) {
            return false;
        }
    }
    texts_pass(args, socket)
}

/// Checks the filters of `args` before they are applied.
fn validate_filters(args: &Args) -> (checked: Result<(), RpdError>)
    ensures
        match checked {
            Ok(_) => filter_error(*args) is None,
            Err(e) => filter_error(*args) == Some(e@),
        },
{
    if let Some(address) = &args.local_address {
        if !validate_address(address, &args.ip_version) {
            return Err(RpdError::InvalidLocalAddressErr(address.clone()));
        }
    }
    if let Some(address) = &args.remote_address {
        if !validate_address(address, &args.ip_version) {
            return Err(RpdError::InvalidRemoteAddressErr(address.clone()));
        }
    }
    if let Some(range_args) = &args.range {
        return validate_range_args(range_args, &args.ip_version);
    }
    Ok(())
}

impl Socket {
    /// Tells whether a record passes the filters of `args`.
    pub fn filter_socket_row(args: &Args, socket: &Socket) -> (passes: bool)
        ensures
            passes == row_passes(*args, socket@),
    {
        let pattern = ready_pattern(args);
        row_passes_with(args, &pattern, socket)
    }

    /// Keeps the records of `socket_table` that pass the filters of `args`,
    /// in their order. `argc` is the number of filters that are set: with
    /// none set the table stays as it is. With some set, the filters are
    /// checked first, and a rejected filter leaves the table as it is.
    pub fn filter_socket_table(socket_table: &mut Vec<Socket>, args: &Args, argc: usize) -> (done:
        Result<(), RpdError>)
        ensures
            match done {
                Ok(_) => if argc == 0 {
                    *final(socket_table) == *old(socket_table)
                } else {
                    filter_error(*args) is None && final(socket_table)@ == filtered(
                        old(socket_table)@,
                        *args,
                    )
                },
                Err(e) => argc > 0 && filter_error(*args) == Some(e@) && *final(socket_table)
                    == *old(socket_table),
            },
    {
        if argc == 0 {
            return Ok(());
        }
        match validate_filters(args) {
            Ok(_) => {},
            Err(e) => {
                return Err(e);
            },
        }
        let pattern = ready_pattern(args);
        let mut source: Vec<Socket> = Vec::new();
        std::mem::swap(socket_table, &mut source);
        let ghost keep = |s: Socket| row_passes(*args, s@);
        let ghost all = source@;
        proof {
            reveal(Seq::filter);
            assert(all.take(0) =~= Seq::<Socket>::empty());
        }
        let ghost mut i: int = 0;
        for socket in it: source
            invariant
                i == it.index(),
                it.seq() == all,
                keep == |s: Socket| row_passes(*args, s@),
                pattern is Some <==> args.process_name is Some,
                pattern matches Some(p) ==> p.pattern() == args.process_name->0@,
                socket_table@ == all.take(i).filter(keep),
        {
            proof {
                reveal(Seq::filter);
                assert(all.take(i + 1).drop_last() =~= all.take(i));
            }
            if row_passes_with(args, &pattern, &socket) {
                socket_table.push(socket);
            }
            proof {
                i = i + 1;
            }
        }
        assert(all.take(i) =~= all);
        Ok(())
    }
}

} // verus!
