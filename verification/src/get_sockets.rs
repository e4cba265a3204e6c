//! The snapshot of the connection tables and the socket records of a run.

use std::collections::HashMap;
use vstd::prelude::*;
use crate::args::Args;
use crate::get_process_name::ProcessOwner;
use crate::rpderror::{RpdError, RpdErrorView};
use crate::socket::{Socket, SocketView, views};
use crate::table_row::sockets_of;
use crate::tcp_table::{get_tcp_sockets, get_tcp_sockets_ipv6, tcp6_rows, tcp_rows};
use crate::text::{lowercase, str_equal, to_lowercase};
use crate::udp_table::{get_udp_sockets, get_udp_sockets_ipv6, udp6_rows, udp_rows};

verus! {

/// What was read from the operating system at one point in time: the four
/// connection tables as the system returned them, the owners of the
/// processes that the tables name, and the system time. A table that was not
/// read, or could not be read, is an empty buffer.
pub struct Snapshot {
    pub tcp_table: Vec<u8>,
    pub udp_table: Vec<u8>,
    pub tcp_table_ipv6: Vec<u8>,
    pub udp_table_ipv6: Vec<u8>,
    pub processes: HashMap<u32, ProcessOwner>,
    /// The system time, in 100-nanosecond ticks.
    pub now: u64,
}

/// The tables that a run lists.
#[derive(Clone, Copy, Debug, PartialEq, Eq, Structural)]
pub struct TableSelection {
    /// The tables of IPv6 instead of those of IPv4.
    pub ipv6: bool,
    pub tcp: bool,
    pub udp: bool,
}

/// Whether the IP version of `args` is one that can be listed: 4, 6, or
/// none, which stands for 4.
pub open spec fn ip_version_is_valid(args: Args) -> bool {
    args.ip_version is None || args.ip_version == Some(4u8) || args.ip_version == Some(6u8)
}

/// Whether the protocol of `args` is one that can be listed: `tcp` or `udp`
/// in any case, or none, which stands for both.
pub open spec fn mode_is_valid(args: Args) -> bool {
    args.mode is None || lowercase(args.mode->0@) == "tcp"@ || lowercase(args.mode->0@) == "udp"@
}

/// Why no tables can be listed for `args`: the IP version is checked first,
/// then the protocol.
pub open spec fn selection_error(args: Args) -> Option<RpdErrorView> {
    if !ip_version_is_valid(args) {
        Some(RpdErrorView::InvalidIpVersionErr)
    } else if !mode_is_valid(args) {
        Some(RpdErrorView::InvalidProtocolErr(lowercase(args.mode->0@)))
    } else {
        None
    }
}

/// The tables that `args` asks for.
pub open spec fn selected_tables(args: Args) -> TableSelection {
    TableSelection {
        ipv6: args.ip_version == Some(6u8),
        tcp: args.mode is None || lowercase(args.mode->0@) == "tcp"@,
        udp: args.mode is None || lowercase(args.mode->0@) == "udp"@,
    }
}

/// The socket records of the selected tables of a snapshot: those of the
/// TCP table, then those of the UDP table.
pub open spec fn snapshot_sockets(snapshot: Snapshot, selection: TableSelection) -> Seq<SocketView> {
    let directory = snapshot.processes@;
    let tcp = if !selection.tcp {
        Seq::empty()
    } else if selection.ipv6 {
        sockets_of(tcp6_rows(snapshot.tcp_table_ipv6@), directory, snapshot.now)
    } else {
        sockets_of(tcp_rows(snapshot.tcp_table@), directory, snapshot.now)
    };
    let udp = if !selection.udp {
        Seq::empty()
    } else if selection.ipv6 {
        sockets_of(udp6_rows(snapshot.udp_table_ipv6@), directory, snapshot.now)
    } else {
        sockets_of(udp_rows(snapshot.udp_table@), directory, snapshot.now)
    };
    tcp + udp
}

/// Whether the records of `table` from the place `from` on are well formed.
pub open spec fn well_formed_from(table: Seq<Socket>, from: int) -> bool {
    forall|i: int| from <= i < table.len() ==> (#[trigger] table[i]).wf()
}

/// Decides which tables a run lists, or why it can list none.
pub fn select_tables(args: &Args) -> (selection: Result<TableSelection, RpdError>)
    ensures
        match selection {
            Ok(s) => selection_error(*args) is None && s == selected_tables(*args),
            Err(e) => selection_error(*args) == Some(e@),
        },
{
    let ipv6: bool = match args.ip_version {
        Some(v) => {
            if v == 6 {
                true
            } else if v == 4 {
                false
            } else {
                return Err(RpdError::InvalidIpVersionErr());
            }
        },
        None => false,
    };
    match &args.mode {
        None => Ok(TableSelection { ipv6, tcp: true, udp: true }),
        Some(mode) => {
            let lowered = to_lowercase(mode.as_str());
            proof {
                reveal_strlit("tcp");
                reveal_strlit("udp");
                assert("tcp"@[0] != "udp"@[0]);
            }
            if str_equal(lowered.as_str(), "tcp") {
                Ok(TableSelection { ipv6, tcp: true, udp: false })
            } else if str_equal(lowered.as_str(), "udp") {
                Ok(TableSelection { ipv6, tcp: false, udp: true })
            } else {
                Err(RpdError::InvalidProtocolErr(lowered))
            }
        },
    }
}

/// Appends the socket records of the tables that `args` asks for to
/// `sockets`. Where `args` names an IP version or a protocol that cannot be
/// listed, `sockets` stays as it is.
pub fn get_sockets(sockets: &mut Vec<Socket>, args: &Args, snapshot: &Snapshot) -> (done: Result<
    (),
    RpdError,
>)
    ensures
        match done {
            Ok(_) => selection_error(*args) is None && views(final(sockets)@) == views(
                old(sockets)@,
            ) + snapshot_sockets(*snapshot, selected_tables(*args)) && well_formed_from(
                final(sockets)@,
                old(sockets)@.len() as int,
            ),
            Err(e) => selection_error(*args) == Some(e@) && *final(sockets) == *old(sockets),
        },
{
    let selection = match select_tables(args) {
        Ok(s) => s,
        Err(e) => {
            return Err(e);
        },
    };
    if selection.tcp {
        let mut found = if selection.ipv6 {
            get_tcp_sockets_ipv6(snapshot.tcp_table_ipv6.as_slice(), &snapshot.processes, snapshot.now)
        } else {
            get_tcp_sockets(snapshot.tcp_table.as_slice(), &snapshot.processes, snapshot.now)
        };
        let ghost before = sockets@;
        let ghost added = found@;
        sockets.append(&mut found);
        assert(views(sockets@) =~= views(before) + views(added));
        assert(well_formed_from(sockets@, before.len() as int)) by {
            assert forall|i: int| before.len() <= i < sockets@.len() implies (
            #[trigger] sockets@[i]).wf() by {
                assert(sockets@[i] == added[i - before.len()]);
            }
        }
    }
    let ghost middle = sockets@;
    if selection.udp {
        let mut found = if selection.ipv6 {
            get_udp_sockets_ipv6(snapshot.udp_table_ipv6.as_slice(), &snapshot.processes, snapshot.now)
        } else {
            get_udp_sockets(snapshot.udp_table.as_slice(), &snapshot.processes, snapshot.now)
        };
        let ghost added = found@;
        sockets.append(&mut found);
        assert(views(sockets@) =~= views(middle) + views(added));
        assert(well_formed_from(sockets@, old(sockets)@.len() as int)) by {
            assert forall|i: int| old(sockets)@.len() <= i < sockets@.len() implies (
            #[trigger] sockets@[i]).wf() by {
                if i < middle.len() {
                    assert(sockets@[i] == middle[i]);
                } else {
                    assert(sockets@[i] == added[i - middle.len()]);
                }
            }
        }
    }
    assert(views(sockets@) =~= views(old(sockets)@) + snapshot_sockets(
        *snapshot,
        selected_tables(*args),
    ));
    Ok(())
}

} // verus!
