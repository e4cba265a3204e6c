//! Summary statistics of a table of socket records.

use vstd::prelude::*;
use vstd::string::StringExecFns;
use crate::socket::{Protocol, Socket, SocketView, views};
use crate::tally::{distinct, has_eligible, is_top, keys_of, Tally};
use crate::text::str_equal;

verus! {

/// The summary of a table.
#[derive(Debug, PartialEq, Eq)]
pub struct Stats {
    /// The number of records.
    pub connection_count: usize,
    pub tcp_count: usize,
    pub udp_count: usize,
    /// The number of records in the state `ESTABLISHED`.
    pub established_count: usize,
    /// The number of records in the state `LISTEN`.
    pub listen_count: usize,
    /// The number of different owners, each a process id with its name.
    pub pid_count: usize,
    pub local_port_count: usize,
    pub remote_port_count: usize,
    pub local_address_count: usize,
    pub remote_address_count: usize,
    /// The least age of a record, in seconds; zero for the empty table.
    pub youngest_connection: u64,
    /// The greatest age of a record, in seconds; zero for the empty table.
    pub oldest_connection: u64,
    /// The owner of the most records, with their number; process 0 without
    /// a name and zero for the empty table.
    pub top_pid: ((u32, String), usize),
    /// The remote address of the most records, with their number; loopback
    /// and unspecified addresses are passed over. The empty text and zero
    /// where no other remote address occurs.
    pub top_remote_address: (String, usize),
}

/// The number of records of `table` with the protocol `protocol`.
pub open spec fn protocol_count(table: Seq<SocketView>, protocol: Protocol) -> nat {
    table.filter(|s: SocketView| s.protocol == protocol).len()
}

/// The number of records of `table` in the state `state`.
pub open spec fn state_count(table: Seq<SocketView>, state: Seq<char>) -> nat {
    table.filter(|s: SocketView| s.state == state).len()
}

/// The owners of the records of `table`, one for each record.
pub open spec fn owners(table: Seq<SocketView>) -> Seq<(u32, Seq<char>)> {
    table.map_values(|s: SocketView| (s.pid, s.process_name))
}

/// The local ports of the records of `table`, one for each record.
pub open spec fn local_ports(table: Seq<SocketView>) -> Seq<u16> {
    table.map_values(|s: SocketView| s.local_port)
}

/// The local addresses of the records of `table`, one for each record.
pub open spec fn local_addresses(table: Seq<SocketView>) -> Seq<Seq<char>> {
    table.map_values(|s: SocketView| s.local_address)
}

/// The remote ports of the records of `table` that have one.
pub open spec fn remote_ports(table: Seq<SocketView>) -> Seq<u16> {
    table.filter_map(|s: SocketView| s.remote_port)
}

/// The remote addresses of the records of `table` that have one.
pub open spec fn remote_addresses(table: Seq<SocketView>) -> Seq<Seq<char>> {
    table.filter_map(|s: SocketView| s.remote_address)
}

/// The least age of a record of `table`; zero for the empty table.
pub open spec fn least_uptime(table: Seq<SocketView>) -> u64
    decreases table.len(),
{
    if table.len() == 0 {
        0
    } else if table.len() == 1 {
        table[0].uptime_seconds
    } else {
        let before = least_uptime(table.drop_last());
        if table.last().uptime_seconds < before {
            table.last().uptime_seconds
        } else {
            before
        }
    }
}

/// The greatest age of a record of `table`; zero for the empty table.
pub open spec fn greatest_uptime(table: Seq<SocketView>) -> u64
    decreases table.len(),
{
    if table.len() == 0 {
        0
    } else {
        let before = greatest_uptime(table.drop_last());
        if table.last().uptime_seconds > before {
            table.last().uptime_seconds
        } else {
            before
        }
    }
}

/// The remote addresses that are never the top remote address: the IPv4
/// loopback address and the unspecified addresses of IPv4 and IPv6.
pub open spec fn passed_over() -> Set<Seq<char>> {
    set!["127.0.0.1"@, "0.0.0.0"@, "::"@]
}

/// Whether `stats` is the summary of `table`.
pub open spec fn summarizes(stats: Stats, table: Seq<SocketView>) -> bool {
    &&& stats.connection_count == table.len()
    &&& stats.tcp_count == protocol_count(table, Protocol::Tcp)
    &&& stats.udp_count == protocol_count(table, Protocol::Udp)
    &&& stats.established_count == state_count(table, "ESTABLISHED"@)
    &&& stats.listen_count == state_count(table, "LISTEN"@)
    &&& stats.pid_count == distinct(owners(table))
    &&& stats.local_port_count == distinct(local_ports(table))
    &&& stats.remote_port_count == distinct(remote_ports(table))
    &&& stats.local_address_count == distinct(local_addresses(table))
    &&& stats.remote_address_count == distinct(remote_addresses(table))
    &&& stats.youngest_connection == least_uptime(table)
    &&& stats.oldest_connection == greatest_uptime(table)
    &&& if table.len() == 0 {
        stats.top_pid.0.0 == 0 && stats.top_pid.0.1@.len() == 0 && stats.top_pid.1 == 0
    } else {
        is_top(
            owners(table),
            Set::empty(),
            (stats.top_pid.0.0, stats.top_pid.0.1@),
            stats.top_pid.1 as nat,
        )
    }
    &&& if has_eligible(remote_addresses(table), passed_over()) {
        is_top(
            remote_addresses(table),
            passed_over(),
            stats.top_remote_address.0@,
            stats.top_remote_address.1 as nat,
        )
    } else {
        stats.top_remote_address.0@.len() == 0 && stats.top_remote_address.1 == 0
    }
}

/// Every record is a TCP record or a UDP record: the two counts add up to
/// the number of records.
pub proof fn lemma_protocol_counts_add_up(table: Seq<SocketView>)
    ensures
        protocol_count(table, Protocol::Tcp) + protocol_count(table, Protocol::Udp) == table.len(),
    decreases table.len(),
{
    reveal(Seq::filter);
    if table.len() > 0 {
        lemma_protocol_counts_add_up(table.drop_last());
    }
}

/// Taking some of the values of a sequence gives no more values than the
/// sequence has.
pub proof fn lemma_filter_map_len<A, B>(values: Seq<A>, f: spec_fn(A) -> Option<B>)
    ensures
        values.filter_map(f).len() <= values.len(),
    decreases values.len(),
{
    if values.len() > 0 {
        lemma_filter_map_len(values.drop_last(), f);
    }
}

/// One where `holds`, zero where it does not.
fn one_where(holds: bool) -> (n: usize)
    ensures
        n == if holds {
            1usize
        } else {
            0usize
        },
{
    if holds {
        1
    } else {
        0
    }
}

/// The counts and the extremes of the first records of a table.
struct Counters {
    tcp: usize,
    udp: usize,
    established: usize,
    listen: usize,
    youngest: u64,
    oldest: u64,
}

impl Counters {
    /// Whether the counters are those of `table`.
    spec fn of(&self, table: Seq<SocketView>) -> bool {
        &&& self.tcp == protocol_count(table, Protocol::Tcp)
        &&& self.udp == protocol_count(table, Protocol::Udp)
        &&& self.established == state_count(table, "ESTABLISHED"@)
        &&& self.listen == state_count(table, "LISTEN"@)
        &&& self.youngest == least_uptime(table)
        &&& self.oldest == greatest_uptime(table)
        &&& self.tcp <= table.len()
        &&& self.udp <= table.len()
        &&& self.established <= table.len()
        &&& self.listen <= table.len()
    }

    /// Takes one more record into the counters; `first` tells that it is
    /// the first record of the table.
    fn count(&mut self, socket: &Socket, first: bool, Ghost(before): Ghost<Seq<SocketView>>)
        requires
            old(self).of(before),
            before.len() < usize::MAX,
            first <==> before.len() == 0,
        ensures
            final(self).of(before.push(socket@)),
    {
        let ghost after = before.push(socket@);
        proof {
            reveal(Seq::filter);
            assert(after.drop_last() =~= before);
        }
        self.tcp = self.tcp + one_where(socket.protocol == Protocol::Tcp);
        self.udp = self.udp + one_where(socket.protocol == Protocol::Udp);
        self.established = self.established + one_where(
            str_equal(socket.state.as_str(), "ESTABLISHED"),
        );
        self.listen = self.listen + one_where(str_equal(socket.state.as_str(), "LISTEN"));
        if first || socket.uptime_seconds < self.youngest {
            self.youngest = socket.uptime_seconds;
        }
        if socket.uptime_seconds > self.oldest {
            self.oldest = socket.uptime_seconds;
        }
    }
}

/// Summarizes a table of socket records in one pass.
pub fn get_socket_stats(socket_table: &Vec<Socket>) -> (stats: Stats)
    ensures
        summarizes(stats, views(socket_table@)),
{
    let ghost table = views(socket_table@);
    let mut counters = Counters {
        tcp: 0,
        udp: 0,
        established: 0,
        listen: 0,
        youngest: 0,
        oldest: 0,
    };
    let mut pids: Tally<(u32, String)> = Tally::new();
    let mut local_port_tally: Tally<u16> = Tally::new();
    let mut remote_port_tally: Tally<u16> = Tally::new();
    let mut local_address_tally: Tally<String> = Tally::new();
    let mut remote_address_tally: Tally<String> = Tally::new();
    let mut i: usize = 0;
    proof {
        reveal(Seq::filter);
        assert(table.take(0) =~= Seq::<SocketView>::empty());
        assert(owners(table.take(0)) =~= Seq::empty());
        assert(local_ports(table.take(0)) =~= Seq::empty());
        assert(local_addresses(table.take(0)) =~= Seq::empty());
    }
    while i < socket_table.len()
        invariant
            i <= socket_table.len(),
            table == views(socket_table@),
            counters.of(table.take(i as int)),
            pids.wf(),
            local_port_tally.wf(),
            remote_port_tally.wf(),
            local_address_tally.wf(),
            remote_address_tally.wf(),
            pids.counted() == owners(table.take(i as int)),
            local_port_tally.counted() == local_ports(table.take(i as int)),
            remote_port_tally.counted() == remote_ports(table.take(i as int)),
            local_address_tally.counted() == local_addresses(table.take(i as int)),
            remote_address_tally.counted() == remote_addresses(table.take(i as int)),
        decreases socket_table.len() - i,
    {
        let socket = &socket_table[i];
        let ghost before = table.take(i as int);
        let ghost after = table.take(i + 1);
        proof {
            assert(after =~= before.push(socket@));
            assert(after.drop_last() =~= before);
            assert(owners(after) =~= owners(before).push((socket.pid, socket.process_name@)));
            assert(local_ports(after) =~= local_ports(before).push(socket.local_port));
            assert(local_addresses(after) =~= local_addresses(before).push(
                socket.local_address@,
            ));
            lemma_filter_map_len(before, |s: SocketView| s.remote_port);
            lemma_filter_map_len(before, |s: SocketView| s.remote_address);
        }
        counters.count(socket, i == 0, Ghost(before));
        pids.add((socket.pid, socket.process_name.clone()));
        local_port_tally.add(socket.local_port);
        local_address_tally.add(socket.local_address.clone());
        if let Some(port) = socket.remote_port {
            remote_port_tally.add(port);
        }
        if let Some(address) = &socket.remote_address {
            remote_address_tally.add(address.clone());
        }
        i = i + 1;
    }
    proof {
        assert(table.take(i as int) =~= table);
    }
    let no_owner: Vec<(u32, String)> = Vec::new();
    let top_pid = match pids.top_excluding(&no_owner) {
        Some((owner, count)) => ((owner.0, owner.1.clone()), count),
        None => ((0, String::new()), 0),
    };
    let mut skipped: Vec<String> = Vec::new();
    skipped.push(String::from_str("127.0.0.1"));
    skipped.push(String::from_str("0.0.0.0"));
    skipped.push(String::from_str("::"));
    let top_remote_address = match remote_address_tally.top_excluding(&skipped) {
        Some((address, count)) => (address.clone(), count),
        None => (String::new(), 0),
    };
    proof {
        assert(keys_of(no_owner@).to_set() =~= Set::<(u32, Seq<char>)>::empty());
        assert(keys_of(skipped@) =~= seq!["127.0.0.1"@, "0.0.0.0"@, "::"@]);
        assert(keys_of(skipped@).to_set() =~= passed_over()) by {
            let listed = keys_of(skipped@);
            assert forall|k: Seq<char>| listed.to_set().contains(k) <==> passed_over().contains(
                k,
            ) by {
                if passed_over().contains(k) {
                    assert(listed[0] == "127.0.0.1"@);
                    assert(listed[1] == "0.0.0.0"@);
                    assert(listed[2] == "::"@);
                }
            }
        }
        if table.len() > 0 {
            assert(owners(table)[0] == (table[0].pid, table[0].process_name));
            assert(has_eligible(owners(table), Set::<(u32, Seq<char>)>::empty()));
        }
    }
    Stats {
        connection_count: socket_table.len(),
        tcp_count: counters.tcp,
        udp_count: counters.udp,
        established_count: counters.established,
        listen_count: counters.listen,
        pid_count: pids.distinct_count(),
        local_port_count: local_port_tally.distinct_count(),
        remote_port_count: remote_port_tally.distinct_count(),
        local_address_count: local_address_tally.distinct_count(),
        remote_address_count: remote_address_tally.distinct_count(),
        youngest_connection: counters.youngest,
        oldest_connection: counters.oldest,
        top_pid,
        top_remote_address,
    }
}

} // verus!
