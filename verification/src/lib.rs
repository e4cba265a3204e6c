//! Socket-table acquisition and query engine: decoding of the operating
//! system's connection tables into socket records, filtering, range queries,
//! sorting, reverse-DNS enrichment and summary statistics.
//!
//! The library computes on plain values and is verified with Verus. Whatever
//! has to be asked of the operating system or the network is the caller's:
//! the caller hands in the bytes of a table, the time, the owner of a
//! process, or the answer of a reverse lookup.
//!
//! - Records: [`socket`], with the rows they are made of in [`table_row`].
//! - Reading the tables: [`tcp_table`], [`udp_table`], [`get_sockets`],
//!   [`get_process_name`], [`nt_to_dos`], [`get_uptime`],
//!   [`connection_state`], [`bytes`].
//! - Queries: [`filter`], [`range_filter`], [`name_pattern`], [`sort`],
//!   with the options of a run in [`args`] and their defaults in [`config`].
//! - Enrichment: [`dns_lookup`].
//! - Summary: [`stats`], counting with [`tally`].
//! - Texts: [`address`], [`decimal`], [`text`], [`print_utils`].
//! - Failures: [`rpderror`].

pub mod address;
pub mod args;
pub mod bytes;
pub mod config;
pub mod connection_state;
pub mod decimal;
pub mod dns_lookup;
pub mod filter;
pub mod get_process_name;
pub mod get_sockets;
pub mod get_uptime;
pub mod name_pattern;
pub mod nt_to_dos;
pub mod print_utils;
pub mod range_filter;
pub mod rpderror;
pub mod socket;
pub mod sort;
pub mod stats;
pub mod table_row;
pub mod tally;
pub mod tcp_table;
pub mod text;
pub mod udp_table;
