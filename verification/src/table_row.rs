//! Rows of the operating system's connection tables, decoded, and the socket
//! records made of them.

use std::collections::HashMap;
use vstd::prelude::*;
use vstd::string::StringExecFns;
use crate::get_process_name::{named_owner, OwnerView, ProcessOwner};
use crate::get_uptime::{get_socket_uptime, uptime_seconds};
use crate::socket::{clone_text, Protocol, Socket, SocketView, text_view, views};
use crate::tally::first_occurrences;

verus! {

/// One row of a connection table, with its numbers in host form and its
/// addresses as text.
#[derive(Clone, Debug, PartialEq, Eq)]
pub struct TableRow {
    pub protocol: Protocol,
    pub state: String,
    pub local_address: String,
    pub local_port: u16,
    pub remote_address: Option<String>,
    pub remote_port: Option<u16>,
    /// The process that the operating system names as owner; 0 marks a row
    /// without a real owner.
    pub pid: u32,
    /// When the connection was created, in 100-nanosecond ticks.
    pub create_timestamp: i64,
}

/// A table row by value.
pub struct TableRowView {
    pub protocol: Protocol,
    pub state: Seq<char>,
    pub local_address: Seq<char>,
    pub local_port: u16,
    pub remote_address: Option<Seq<char>>,
    pub remote_port: Option<u16>,
    pub pid: u32,
    pub create_timestamp: i64,
}

impl View for TableRow {
    type V = TableRowView;

    open spec fn view(&self) -> TableRowView {
        TableRowView {
            protocol: self.protocol,
            state: self.state@,
            local_address: self.local_address@,
            local_port: self.local_port,
            remote_address: text_view(self.remote_address),
            remote_port: self.remote_port,
            pid: self.pid,
            create_timestamp: self.create_timestamp,
        }
    }
}

/// The length in bytes of the header of a connection table: the number of
/// rows, then padding up to the first row.
pub const TABLE_HEADER_LEN: usize = 8;

/// The number of rows that a table buffer holds, for rows of `row_len`
/// bytes: the number that its header declares, if the buffer is long enough
/// for all of them, and none otherwise.
pub open spec fn table_rows(buffer: Seq<u8>, row_len: nat) -> nat {
    if buffer.len() < 4 {
        0
    } else {
        let declared = crate::bytes::le_u32(buffer, 0);
        if buffer.len() >= TABLE_HEADER_LEN + declared * row_len {
            declared
        } else {
            0
        }
    }
}

/// Reads the number of rows of a table buffer.
pub fn count_rows(buffer: &[u8], row_len: usize) -> (rows: usize)
    ensures
        rows == table_rows(buffer@, row_len as nat),
        rows > 0 ==> TABLE_HEADER_LEN + rows * row_len <= buffer.len(),
{
    if buffer.len() < 4 {
        return 0;
    }
    let declared: u128 = crate::bytes::read_le_u32(buffer, 0) as u128;
    assert(declared * row_len <= 0xffff_ffff * 0xffff_ffff_ffff_ffff) by (nonlinear_arith)
        requires
            declared <= 0xffff_ffff,
            row_len <= 0xffff_ffff_ffff_ffff,
    ;
    let needed: u128 = TABLE_HEADER_LEN as u128 + declared * row_len as u128;
    if buffer.len() as u128 >= needed {
        declared as usize
    } else {
        0
    }
}

/// The owner of process `pid` according to `directory`; a process that the
/// directory does not hold is `unknown`.
pub open spec fn owner_of(pid: u32, directory: Map<u32, ProcessOwner>) -> OwnerView {
    if directory.contains_key(pid) {
        directory[pid]@
    } else {
        named_owner("unknown"@)
    }
}

/// The socket record of a table row, for the owners in `directory` and the
/// system time `now`.
pub open spec fn socket_of(row: TableRowView, directory: Map<u32, ProcessOwner>, now: u64) -> SocketView {
    SocketView {
        process_name: owner_of(row.pid, directory).process_name,
        pid: row.pid,
        local_port: row.local_port,
        remote_port: row.remote_port,
        protocol: row.protocol,
        local_address: row.local_address,
        remote_address: row.remote_address,
        state: row.state,
        executable_path: owner_of(row.pid, directory).executable_path,
        uptime_seconds: uptime_seconds(row.create_timestamp as int, now as int) as u64,
    }
}

/// The socket records of the rows of a table: one for each row with a real
/// owner, in the order of the rows. Rows of process 0 are left out.
pub open spec fn sockets_of(rows: Seq<TableRowView>, directory: Map<u32, ProcessOwner>, now: u64) -> Seq<
    SocketView,
> {
    rows.filter_map(
        |row: TableRowView|
            if row.pid != 0 {
                Some(socket_of(row, directory, now))
            } else {
                None
            },
    )
}

/// Whether the peer fields of a row agree with its protocol: a TCP row has
/// a peer port and a peer address, a UDP row has neither.
pub open spec fn row_is_consistent(row: TableRowView) -> bool {
    &&& row.remote_port is Some <==> row.protocol == Protocol::Tcp
    &&& row.remote_address is Some <==> row.protocol == Protocol::Tcp
}

/// The socket records made of consistent rows are well formed: each has a
/// real owner, and peer fields that agree with its protocol.
pub proof fn lemma_sockets_are_well_formed(
    rows: Seq<TableRowView>,
    directory: Map<u32, ProcessOwner>,
    now: u64,
)
    requires
        forall|i: int| 0 <= i < rows.len() ==> row_is_consistent(#[trigger] rows[i]),
    ensures
        forall|i: int|
            0 <= i < sockets_of(rows, directory, now).len() ==> (#[trigger] sockets_of(
                rows,
                directory,
                now,
            )[i]).wf(),
    decreases rows.len(),
{
    if rows.len() > 0 {
        let front = rows.drop_last();
        assert forall|i: int| 0 <= i < front.len() implies row_is_consistent(
            #[trigger] front[i],
        ) by {
            assert(front[i] == rows[i]);
        }
        lemma_sockets_are_well_formed(front, directory, now);
        let made = sockets_of(rows, directory, now);
        let before = sockets_of(front, directory, now);
        assert forall|i: int| 0 <= i < made.len() implies (#[trigger] made[i]).wf() by {
            if i < before.len() {
                assert(made[i] == before[i]);
            } else {
                assert(row_is_consistent(rows[rows.len() - 1]));
            }
        }
    }
}

/// The rows of a table by value.
pub open spec fn row_views(rows: Seq<TableRow>) -> Seq<TableRowView> {
    rows.map_values(|r: TableRow| r@)
}

/// Makes the socket record of a table row.
pub fn socket_from_row(row: &TableRow, directory: &HashMap<u32, ProcessOwner>, now: u64) -> (socket:
    Socket)
    ensures
        socket@ == socket_of(row@, directory@, now),
{
    broadcast use vstd::std_specs::hash::group_hash_axioms;

    let (process_name, executable_path) = match directory.get(&row.pid) {
        Some(owner) => (owner.process_name.clone(), clone_text(&owner.executable_path)),
        None => (String::from_str("unknown"), None),
    };
    Socket {
        process_name,
        pid: row.pid,
        local_port: row.local_port,
        remote_port: row.remote_port,
        protocol: row.protocol,
        local_address: row.local_address.clone(),
        remote_address: clone_text(&row.remote_address),
        state: row.state.clone(),
        executable_path,
        uptime_seconds: get_socket_uptime(row.create_timestamp, now),
    }
}

/// Makes the socket records of the rows of a table.
pub fn sockets_from_rows(rows: &Vec<TableRow>, directory: &HashMap<u32, ProcessOwner>, now: u64) -> (sockets:
    Vec<Socket>)
    ensures
        views(sockets@) == sockets_of(row_views(rows@), directory@, now),
{
    let ghost keep = |row: TableRowView|
        if row.pid != 0 {
            Some(socket_of(row, directory@, now))
        } else {
            None
        };
    let mut sockets: Vec<Socket> = Vec::new();
    let mut i: usize = 0;
    assert(row_views(rows@).take(0) =~= Seq::<TableRowView>::empty());
    assert(views(sockets@) =~= Seq::<SocketView>::empty());
    while i < rows.len()
        invariant
            i <= rows.len(),
            keep == |row: TableRowView|
                if row.pid != 0 {
                    Some(socket_of(row, directory@, now))
                } else {
                    None
                },
            views(sockets@) == row_views(rows@).take(i as int).filter_map(keep),
        decreases rows.len() - i,
    {
        proof {
            let longer = row_views(rows@).take(i + 1);
            assert(longer.drop_last() =~= row_views(rows@).take(i as int));
            assert(longer.last() == rows@[i as int]@);
        }
        let ghost before = sockets@;
        if rows[i].pid != 0 {
            let socket = socket_from_row(&rows[i], directory, now);
            sockets.push(socket);
            assert(views(sockets@) =~= views(before) + seq![socket@]);
        }
        i = i + 1;
    }
    assert(row_views(rows@).take(i as int) =~= row_views(rows@));
    sockets
}

/// The process that owns a row, unless it is process 0.
pub open spec fn real_owner(row: TableRowView) -> Option<u32> {
    if row.pid != 0 {
        Some(row.pid)
    } else {
        None
    }
}

/// The processes that own the rows of a table: each process other than
/// process 0 that owns a row, once, in the order of its first row.
pub fn owning_pids(rows: &Vec<TableRow>) -> (pids: Vec<u32>)
    ensures
        pids@ == first_occurrences(row_views(rows@).filter_map(|r: TableRowView| real_owner(r))),
{
    let ghost all = row_views(rows@);
    let ghost pick = |r: TableRowView| real_owner(r);
    let mut pids: Vec<u32> = Vec::new();
    let mut i: usize = 0;
    proof {
        assert(all.take(0) =~= Seq::<TableRowView>::empty());
    }
    while i < rows.len()
        invariant
            i <= rows.len(),
            all == row_views(rows@),
            pick == |r: TableRowView| real_owner(r),
            pids@ == first_occurrences(all.take(i as int).filter_map(pick)),
        decreases rows.len() - i,
    {
        let pid: u32 = rows[i].pid;
        let ghost before = all.take(i as int).filter_map(pick);
        proof {
            assert(all.take(i + 1).drop_last() =~= all.take(i as int));
            assert(all.take(i + 1).last() == rows@[i as int]@);
        }
        if pid != 0 {
            proof {
                assert(all.take(i + 1).filter_map(pick) =~= before.push(pid));
                assert(before.push(pid).drop_last() =~= before);
            }
            let mut known: bool = false;
            let mut j: usize = 0;
            while j < pids.len() && !known
                invariant
                    j <= pids.len(),
                    known ==> pids@.contains(pid),
                    !known ==> forall|k: int| 0 <= k < j ==> pids@[k] != pid,
                decreases pids.len() - j,
            {
                if pids[j] == pid {
                    known = true;
                }
                j = j + 1;
            }
            if !known {
                pids.push(pid);
            }
        }
        i = i + 1;
    }
    proof {
        assert(all.take(i as int) =~= all);
    }
    pids
}

} // verus!
