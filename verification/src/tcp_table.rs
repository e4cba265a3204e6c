//! The TCP connection tables of the operating system, for IPv4 and IPv6.
//!
//! A table is a header that holds the number of rows, followed by rows of a
//! fixed length. Counts, states, process ids and timestamps are
//! little-endian; ports and addresses are in network byte order.

use std::collections::HashMap;
use vstd::prelude::*;
use crate::address::{
    ipv4_text,
    ipv4_value,
    ipv6_text,
    lemma_ipv4_text_is_read,
    lemma_ipv6_text_is_read,
    parse_ipv4,
    parse_ipv6,
    Ipv4Address,
    Ipv6Address,
};
use crate::bytes::{be_u16, le_i64, le_u32, read_be_u16, read_le_i64, read_le_u32};
use crate::connection_state::{map_tcp_state, tcp_state_name};
use crate::get_process_name::ProcessOwner;
use crate::socket::{Protocol, Socket, views};
use crate::table_row::{
    count_rows,
    lemma_sockets_are_well_formed,
    row_views,
    sockets_from_rows,
    sockets_of,
    table_rows,
    TableRow,
    TableRowView,
    TABLE_HEADER_LEN,
};

verus! {

/// The length in bytes of a row of the IPv4 TCP table.
pub const TCP_ROW_LEN: usize = 160;

/// The length in bytes of a row of the IPv6 TCP table.
pub const TCP6_ROW_LEN: usize = 192;

/// The value of the IPv4 address whose four bytes are at `at`.
pub open spec fn ipv4_at(buffer: Seq<u8>, at: int) -> nat {
    ipv4_value(
        buffer[at] as nat,
        buffer[at + 1] as nat,
        buffer[at + 2] as nat,
        buffer[at + 3] as nat,
    )
}

/// The groups of the IPv6 address whose sixteen bytes are at `at`.
pub open spec fn ipv6_at(buffer: Seq<u8>, at: int) -> Seq<u16> {
    Seq::new(8, |i: int| (buffer[at + 2 * i] * 256 + buffer[at + 2 * i + 1]) as u16)
}

/// The text that a table gives for an IPv4 address is read back as that
/// address: range queries and sorting see the address that the table holds.
pub proof fn lemma_ipv4_of_table_is_read(buffer: Seq<u8>, at: int)
    ensures
        parse_ipv4(ipv4_text(ipv4_at(buffer, at))) == Some(ipv4_at(buffer, at)),
{
    lemma_ipv4_text_is_read(ipv4_at(buffer, at) as u32);
}

/// The text that a table gives for an IPv6 address is read back as that
/// address.
pub proof fn lemma_ipv6_of_table_is_read(buffer: Seq<u8>, at: int)
    ensures
        parse_ipv6(ipv6_text(ipv6_at(buffer, at))) == Some(ipv6_at(buffer, at)),
{
    lemma_ipv6_text_is_read(ipv6_at(buffer, at));
}

/// The row of the IPv4 TCP table that starts at `at`: state, local address,
/// local port, remote address, remote port, owning process and creation
/// time, at the offsets 0, 4, 8, 12, 16, 20 and 24.
pub open spec fn tcp_row(buffer: Seq<u8>, at: int) -> TableRowView {
    TableRowView {
        protocol: Protocol::Tcp,
        state: tcp_state_name(le_u32(buffer, at) as u32),
        local_address: ipv4_text(ipv4_at(buffer, at + 4)),
        local_port: be_u16(buffer, at + 8) as u16,
        remote_address: Some(ipv4_text(ipv4_at(buffer, at + 12))),
        remote_port: Some(be_u16(buffer, at + 16) as u16),
        pid: le_u32(buffer, at + 20) as u32,
        create_timestamp: le_i64(buffer, at + 24) as i64,
    }
}

/// The row of the IPv6 TCP table that starts at `at`: local address, local
/// port, remote address, remote port, state, owning process and creation
/// time, at the offsets 0, 20, 24, 44, 48, 52 and 56.
pub open spec fn tcp6_row(buffer: Seq<u8>, at: int) -> TableRowView {
    TableRowView {
        protocol: Protocol::Tcp,
        state: tcp_state_name(le_u32(buffer, at + 48) as u32),
        local_address: ipv6_text(ipv6_at(buffer, at)),
        local_port: be_u16(buffer, at + 20) as u16,
        remote_address: Some(ipv6_text(ipv6_at(buffer, at + 24))),
        remote_port: Some(be_u16(buffer, at + 44) as u16),
        pid: le_u32(buffer, at + 52) as u32,
        create_timestamp: le_i64(buffer, at + 56) as i64,
    }
}

/// The rows of an IPv4 TCP table.
pub open spec fn tcp_rows(buffer: Seq<u8>) -> Seq<TableRowView> {
    Seq::new(
        table_rows(buffer, TCP_ROW_LEN as nat),
        |k: int| tcp_row(buffer, TABLE_HEADER_LEN + k * TCP_ROW_LEN),
    )
}

/// The rows of an IPv6 TCP table.
pub open spec fn tcp6_rows(buffer: Seq<u8>) -> Seq<TableRowView> {
    Seq::new(
        table_rows(buffer, TCP6_ROW_LEN as nat),
        |k: int| tcp6_row(buffer, TABLE_HEADER_LEN + k * TCP6_ROW_LEN),
    )
}

/// The text of the IPv4 address whose bytes are at `at`.
pub(crate) fn ipv4_text_at(buffer: &[u8], at: usize) -> (text: String)
    requires
        at + 4 <= buffer.len(),
    ensures
        text@ == ipv4_text(ipv4_at(buffer@, at as int)),
{
    Ipv4Address::from_octets(buffer[at], buffer[at + 1], buffer[at + 2], buffer[at + 3]).to_text()
}

/// The text of the IPv6 address whose bytes are at `at`.
pub(crate) fn ipv6_text_at(buffer: &[u8], at: usize) -> (text: String)
    requires
        at + 16 <= buffer.len(),
    ensures
        text@ == ipv6_text(ipv6_at(buffer@, at as int)),
{
    let address = Ipv6Address::from_bytes(buffer, at);
    assert(address.groups@ =~= ipv6_at(buffer@, at as int));
    address.to_text()
}

/// Decodes the rows of an IPv4 TCP table.
pub fn decode_tcp_table(buffer: &[u8]) -> (rows: Vec<TableRow>)
    ensures
        row_views(rows@) == tcp_rows(buffer@),
{
    let count: usize = count_rows(buffer, TCP_ROW_LEN);
    let mut rows: Vec<TableRow> = Vec::new();
    let mut k: usize = 0;
    let mut at: usize = TABLE_HEADER_LEN;
    while k < count
        invariant
            k <= count,
            k < count ==> at == 8 + k * 160,
            count == table_rows(buffer@, TCP_ROW_LEN as nat),
            count > 0 ==> 8 + count * 160 <= buffer.len(),
            rows@.len() == k,
            forall|j: int|
                0 <= j < k ==> (#[trigger] rows@[j])@ == tcp_row(
                    buffer@,
                    TABLE_HEADER_LEN + j * TCP_ROW_LEN,
                ),
        decreases count - k,
    {
        rows.push(
            TableRow {
                protocol: Protocol::Tcp,
                state: map_tcp_state(read_le_u32(buffer, at)),
                local_address: ipv4_text_at(buffer, at + 4),
                local_port: read_be_u16(buffer, at + 8),
                remote_address: Some(ipv4_text_at(buffer, at + 12)),
                remote_port: Some(read_be_u16(buffer, at + 16)),
                pid: read_le_u32(buffer, at + 20),
                create_timestamp: read_le_i64(buffer, at + 24),
            },
        );
        k = k + 1;
        if k < count {
            at = at + TCP_ROW_LEN;
        }
    }
    assert(row_views(rows@) =~= tcp_rows(buffer@));
    rows
}

/// Decodes the rows of an IPv6 TCP table.
pub fn decode_tcp_table_ipv6(buffer: &[u8]) -> (rows: Vec<TableRow>)
    ensures
        row_views(rows@) == tcp6_rows(buffer@),
{
    let count: usize = count_rows(buffer, TCP6_ROW_LEN);
    let mut rows: Vec<TableRow> = Vec::new();
    let mut k: usize = 0;
    let mut at: usize = TABLE_HEADER_LEN;
    while k < count
        invariant
            k <= count,
            k < count ==> at == 8 + k * 192,
            count == table_rows(buffer@, TCP6_ROW_LEN as nat),
            count > 0 ==> 8 + count * 192 <= buffer.len(),
            rows@.len() == k,
            forall|j: int|
                0 <= j < k ==> (#[trigger] rows@[j])@ == tcp6_row(
                    buffer@,
                    TABLE_HEADER_LEN + j * TCP6_ROW_LEN,
                ),
        decreases count - k,
    {
        rows.push(
            TableRow {
                protocol: Protocol::Tcp,
                state: map_tcp_state(read_le_u32(buffer, at + 48)),
                local_address: ipv6_text_at(buffer, at),
                local_port: read_be_u16(buffer, at + 20),
                remote_address: Some(ipv6_text_at(buffer, at + 24)),
                remote_port: Some(read_be_u16(buffer, at + 44)),
                pid: read_le_u32(buffer, at + 52),
                create_timestamp: read_le_i64(buffer, at + 56),
            },
        );
        k = k + 1;
        if k < count {
            at = at + TCP6_ROW_LEN;
        }
    }
    assert(row_views(rows@) =~= tcp6_rows(buffer@));
    rows
}

/// The socket records of an IPv4 TCP table: one for each row with a real
/// owner, named after `directory`, with its age at the system time `now`.
pub fn get_tcp_sockets(buffer: &[u8], directory: &HashMap<u32, ProcessOwner>, now: u64) -> (sockets:
    Vec<Socket>)
    ensures
        views(sockets@) == sockets_of(tcp_rows(buffer@), directory@, now),
        forall|i: int| 0 <= i < sockets.len() ==> (#[trigger] sockets[i]).wf(),
{
    let rows = decode_tcp_table(buffer);
    let sockets = sockets_from_rows(&rows, directory, now);
    proof {
        lemma_sockets_are_well_formed(tcp_rows(buffer@), directory@, now);
        assert forall|i: int| 0 <= i < sockets.len() implies (#[trigger] sockets[i]).wf() by {
            assert(views(sockets@)[i] == sockets[i]@);
        }
    }
    sockets
}

/// The socket records of an IPv6 TCP table: one for each row with a real
/// owner, named after `directory`, with its age at the system time `now`.
pub fn get_tcp_sockets_ipv6(buffer: &[u8], directory: &HashMap<u32, ProcessOwner>, now: u64) -> (sockets:
    Vec<Socket>)
    ensures
        views(sockets@) == sockets_of(tcp6_rows(buffer@), directory@, now),
        forall|i: int| 0 <= i < sockets.len() ==> (#[trigger] sockets[i]).wf(),
{
    let rows = decode_tcp_table_ipv6(buffer);
    let sockets = sockets_from_rows(&rows, directory, now);
    proof {
        lemma_sockets_are_well_formed(tcp6_rows(buffer@), directory@, now);
        assert forall|i: int| 0 <= i < sockets.len() implies (#[trigger] sockets[i]).wf() by {
            assert(views(sockets@)[i] == sockets[i]@);
        }
    }
    sockets
}

} // verus!
