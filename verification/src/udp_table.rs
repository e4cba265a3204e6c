//! The UDP endpoint tables of the operating system, for IPv4 and IPv6.
//!
//! The layout follows that of the TCP tables. A UDP endpoint has no peer and
//! no connection state.

use std::collections::HashMap;
use vstd::prelude::*;
use vstd::string::StringExecFns;
use crate::address::{ipv4_text, ipv6_text};
use crate::bytes::{be_u16, le_i64, le_u32, read_be_u16, read_le_i64, read_le_u32};
use crate::connection_state::stateless_name;
use crate::get_process_name::ProcessOwner;
use crate::socket::{Protocol, Socket, views};
use crate::table_row::{
    count_rows,
    lemma_sockets_are_well_formed,
    row_views,
    sockets_from_rows,
    sockets_of,
    table_rows,
    TableRow,
    TableRowView,
    TABLE_HEADER_LEN,
};
use crate::tcp_table::{ipv4_at, ipv4_text_at, ipv6_at, ipv6_text_at};

verus! {

/// The length in bytes of a row of the IPv4 UDP table.
pub const UDP_ROW_LEN: usize = 160;

/// The length in bytes of a row of the IPv6 UDP table.
pub const UDP6_ROW_LEN: usize = 176;

/// The row of the IPv4 UDP table that starts at `at`: local address, local
/// port, owning process and creation time, at the offsets 0, 4, 8 and 16.
pub open spec fn udp_row(buffer: Seq<u8>, at: int) -> TableRowView {
    TableRowView {
        protocol: Protocol::Udp,
        state: stateless_name(),
        local_address: ipv4_text(ipv4_at(buffer, at)),
        local_port: be_u16(buffer, at + 4) as u16,
        remote_address: None,
        remote_port: None,
        pid: le_u32(buffer, at + 8) as u32,
        create_timestamp: le_i64(buffer, at + 16) as i64,
    }
}

/// The row of the IPv6 UDP table that starts at `at`: local address, local
/// port, owning process and creation time, at the offsets 0, 20, 24 and 32.
pub open spec fn udp6_row(buffer: Seq<u8>, at: int) -> TableRowView {
    TableRowView {
        protocol: Protocol::Udp,
        state: stateless_name(),
        local_address: ipv6_text(ipv6_at(buffer, at)),
        local_port: be_u16(buffer, at + 20) as u16,
        remote_address: None,
        remote_port: None,
        pid: le_u32(buffer, at + 24) as u32,
        create_timestamp: le_i64(buffer, at + 32) as i64,
    }
}

/// The rows of an IPv4 UDP table.
pub open spec fn udp_rows(buffer: Seq<u8>) -> Seq<TableRowView> {
    Seq::new(
        table_rows(buffer, UDP_ROW_LEN as nat),
        |k: int| udp_row(buffer, TABLE_HEADER_LEN + k * UDP_ROW_LEN),
    )
}

/// The rows of an IPv6 UDP table.
pub open spec fn udp6_rows(buffer: Seq<u8>) -> Seq<TableRowView> {
    Seq::new(
        table_rows(buffer, UDP6_ROW_LEN as nat),
        |k: int| udp6_row(buffer, TABLE_HEADER_LEN + k * UDP6_ROW_LEN),
    )
}

/// Decodes the rows of an IPv4 UDP table.
pub fn decode_udp_table(buffer: &[u8]) -> (rows: Vec<TableRow>)
    ensures
        row_views(rows@) == udp_rows(buffer@),
{
    let count: usize = count_rows(buffer, UDP_ROW_LEN);
    let mut rows: Vec<TableRow> = Vec::new();
    let mut k: usize = 0;
    let mut at: usize = TABLE_HEADER_LEN;
    while k < count
        invariant
            k <= count,
            k < count ==> at == 8 + k * 160,
            count == table_rows(buffer@, UDP_ROW_LEN as nat),
            count > 0 ==> 8 + count * 160 <= buffer.len(),
            rows@.len() == k,
            forall|j: int|
                0 <= j < k ==> (#[trigger] rows@[j])@ == udp_row(
                    buffer@,
                    TABLE_HEADER_LEN + j * UDP_ROW_LEN,
                ),
        decreases count - k,
    {
        rows.push(
            TableRow {
                protocol: Protocol::Udp,
                state: String::from_str("-"),
                local_address: ipv4_text_at(buffer, at),
                local_port: read_be_u16(buffer, at + 4),
                remote_address: None,
                remote_port: None,
                pid: read_le_u32(buffer, at + 8),
                create_timestamp: read_le_i64(buffer, at + 16),
            },
        );
        k = k + 1;
        if k < count {
            at = at + UDP_ROW_LEN;
        }
    }
    assert(row_views(rows@) =~= udp_rows(buffer@));
    rows
}

/// Decodes the rows of an IPv6 UDP table.
pub fn decode_udp_table_ipv6(buffer: &[u8]) -> (rows: Vec<TableRow>)
    ensures
        row_views(rows@) == udp6_rows(buffer@),
{
    let count: usize = count_rows(buffer, UDP6_ROW_LEN);
    let mut rows: Vec<TableRow> = Vec::new();
    let mut k: usize = 0;
    let mut at: usize = TABLE_HEADER_LEN;
    while k < count
        invariant
            k <= count,
            k < count ==> at == 8 + k * 176,
            count == table_rows(buffer@, UDP6_ROW_LEN as nat),
            count > 0 ==> 8 + count * 176 <= buffer.len(),
            rows@.len() == k,
            forall|j: int|
                0 <= j < k ==> (#[trigger] rows@[j])@ == udp6_row(
                    buffer@,
                    TABLE_HEADER_LEN + j * UDP6_ROW_LEN,
                ),
        decreases count - k,
    {
        rows.push(
            TableRow {
                protocol: Protocol::Udp,
                state: String::from_str("-"),
                local_address: ipv6_text_at(buffer, at),
                local_port: read_be_u16(buffer, at + 20),
                remote_address: None,
                remote_port: None,
                pid: read_le_u32(buffer, at + 24),
                create_timestamp: read_le_i64(buffer, at + 32),
            },
        );
        k = k + 1;
        if k < count {
            at = at + UDP6_ROW_LEN;
        }
    }
    assert(row_views(rows@) =~= udp6_rows(buffer@));
    rows
}

/// The socket records of an IPv4 UDP table: one for each row with a real
/// owner, named after `directory`, with its age at the system time `now`.
pub fn get_udp_sockets(buffer: &[u8], directory: &HashMap<u32, ProcessOwner>, now: u64) -> (sockets:
    Vec<Socket>)
    ensures
        views(sockets@) == sockets_of(udp_rows(buffer@), directory@, now),
        forall|i: int| 0 <= i < sockets.len() ==> (#[trigger] sockets[i]).wf(),
{
    let rows = decode_udp_table(buffer);
    let sockets = sockets_from_rows(&rows, directory, now);
    proof {
        lemma_sockets_are_well_formed(udp_rows(buffer@), directory@, now);
        assert forall|i: int| 0 <= i < sockets.len() implies (#[trigger] sockets[i]).wf() by {
            assert(views(sockets@)[i] == sockets[i]@);
        }
    }
    sockets
}

/// The socket records of an IPv6 UDP table: one for each row with a real
/// owner, named after `directory`, with its age at the system time `now`.
pub fn get_udp_sockets_ipv6(buffer: &[u8], directory: &HashMap<u32, ProcessOwner>, now: u64) -> (sockets:
    Vec<Socket>)
    ensures
        views(sockets@) == sockets_of(udp6_rows(buffer@), directory@, now),
        forall|i: int| 0 <= i < sockets.len() ==> (#[trigger] sockets[i]).wf(),
{
    let rows = decode_udp_table_ipv6(buffer);
    let sockets = sockets_from_rows(&rows, directory, now);
    proof {
        lemma_sockets_are_well_formed(udp6_rows(buffer@), directory@, now);
        assert forall|i: int| 0 <= i < sockets.len() implies (#[trigger] sockets[i]).wf() by {
            assert(views(sockets@)[i] == sockets[i]@);
        }
    }
    sockets
}

} // verus!
