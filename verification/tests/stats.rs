use r_port_doctor::socket::{Protocol, Socket};
use r_port_doctor::stats::get_socket_stats;
use r_port_doctor::tally::Tally;

fn tcp(pid: u32, name: &str, local_port: u16, remote: &str, remote_port: u16, uptime: u64) -> Socket {
    Socket {
        process_name: name.to_string(),
        pid,
        local_port,
        remote_port: Some(remote_port),
        protocol: Protocol::Tcp,
        local_address: "192.168.1.10".to_string(),
        remote_address: Some(remote.to_string()),
        state: "ESTABLISHED".to_string(),
        executable_path: None,
        uptime_seconds: uptime,
    }
}

fn udp(pid: u32, name: &str, local_port: u16, uptime: u64) -> Socket {
    Socket {
        process_name: name.to_string(),
        pid,
        local_port,
        remote_port: None,
        protocol: Protocol::Udp,
        local_address: "0.0.0.0".to_string(),
        remote_address: None,
        state: "-".to_string(),
        executable_path: None,
        uptime_seconds: uptime,
    }
}

#[test]
fn stats_count_protocols() {
    let table = vec![
        tcp(1, "a", 1, "1.1.1.1", 1, 5),
        tcp(1, "a", 2, "1.1.1.2", 1, 7),
        tcp(2, "b", 3, "1.1.1.1", 2, 9),
        udp(3, "c", 53, 11),
        udp(3, "c", 54, 3),
    ];
    let stats = get_socket_stats(&table);
    assert_eq!(stats.tcp_count, 3);
    assert_eq!(stats.udp_count, 2);
    assert_eq!(stats.connection_count, 5);
    assert_eq!(stats.pid_count, 3);
    assert_eq!(stats.top_pid, ((1, "a".to_string()), 2));
    assert_eq!(stats.top_remote_address, ("1.1.1.1".to_string(), 2));
    assert_eq!(stats.youngest_connection, 3);
    assert_eq!(stats.oldest_connection, 11);
    assert_eq!(stats.local_port_count, 5);
    assert_eq!(stats.remote_port_count, 2);
    assert_eq!(stats.local_address_count, 2);
    assert_eq!(stats.remote_address_count, 2);
    assert_eq!(stats.established_count, 3);
    assert_eq!(stats.listen_count, 0);
}

#[test]
fn stats_of_the_empty_table_are_zero() {
    let stats = get_socket_stats(&Vec::new());
    assert_eq!(stats.connection_count, 0);
    assert_eq!(stats.tcp_count, 0);
    assert_eq!(stats.udp_count, 0);
    assert_eq!(stats.established_count, 0);
    assert_eq!(stats.listen_count, 0);
    assert_eq!(stats.pid_count, 0);
    assert_eq!(stats.local_port_count, 0);
    assert_eq!(stats.remote_port_count, 0);
    assert_eq!(stats.local_address_count, 0);
    assert_eq!(stats.remote_address_count, 0);
    assert_eq!(stats.youngest_connection, 0);
    assert_eq!(stats.oldest_connection, 0);
    assert_eq!(stats.top_pid, ((0, String::new()), 0));
    assert_eq!(stats.top_remote_address, (String::new(), 0));
}

#[test]
fn stats_of_one_record() {
    let mut listener = tcp(9, "web", 80, "0.0.0.0", 0, 42);
    listener.state = "LISTEN".to_string();
    let stats = get_socket_stats(&vec![listener]);
    assert_eq!(stats.connection_count, 1);
    assert_eq!(stats.listen_count, 1);
    assert_eq!(stats.established_count, 0);
    assert_eq!(stats.youngest_connection, 42);
    assert_eq!(stats.oldest_connection, 42);
    assert_eq!(stats.top_pid, ((9, "web".to_string()), 1));
    assert_eq!(stats.remote_address_count, 1);
    assert_eq!(stats.top_remote_address, (String::new(), 0));
}

#[test]
fn owners_differ_by_pid_and_by_name() {
    let table = vec![
        tcp(1, "a", 1, "9.9.9.9", 1, 0),
        tcp(1, "b", 1, "9.9.9.9", 1, 0),
        tcp(2, "a", 1, "9.9.9.9", 1, 0),
        tcp(1, "a", 1, "9.9.9.9", 1, 0),
    ];
    let stats = get_socket_stats(&table);
    assert_eq!(stats.pid_count, 3);
    assert_eq!(stats.top_pid, ((1, "a".to_string()), 2));
    assert_eq!(stats.local_port_count, 1);
    assert_eq!(stats.remote_port_count, 1);
    assert_eq!(stats.local_address_count, 1);
    assert_eq!(stats.remote_address_count, 1);
    assert_eq!(stats.top_remote_address, ("9.9.9.9".to_string(), 4));
}

#[test]
fn ties_go_to_the_key_seen_first() {
    let table = vec![
        tcp(5, "e", 1, "3.3.3.3", 1, 0),
        tcp(6, "f", 1, "4.4.4.4", 1, 0),
        tcp(6, "f", 1, "4.4.4.4", 1, 0),
        tcp(5, "e", 1, "3.3.3.3", 1, 0),
        tcp(7, "g", 1, "5.5.5.5", 1, 0),
    ];
    let stats = get_socket_stats(&table);
    assert_eq!(stats.top_pid, ((5, "e".to_string()), 2));
    assert_eq!(stats.top_remote_address, ("3.3.3.3".to_string(), 2));
    let mut reversed = table;
    reversed.reverse();
    let stats = get_socket_stats(&reversed);
    assert_eq!(stats.top_pid, ((5, "e".to_string()), 2));
    assert_eq!(stats.top_remote_address, ("3.3.3.3".to_string(), 2));
    reversed.remove(1);
    let stats = get_socket_stats(&reversed);
    assert_eq!(stats.top_pid, ((6, "f".to_string()), 2));
    assert_eq!(stats.top_remote_address, ("4.4.4.4".to_string(), 2));
}

#[test]
fn loopback_and_unspecified_are_never_the_top_remote_address() {
    let table = vec![
        tcp(1, "a", 1, "127.0.0.1", 1, 0),
        tcp(1, "a", 2, "127.0.0.1", 1, 0),
        tcp(1, "a", 3, "0.0.0.0", 1, 0),
        tcp(1, "a", 4, "0.0.0.0", 1, 0),
        tcp(1, "a", 5, "::", 1, 0),
        tcp(1, "a", 6, "::", 1, 0),
        tcp(1, "a", 7, "8.8.8.8", 1, 0),
    ];
    let stats = get_socket_stats(&table);
    assert_eq!(stats.top_remote_address, ("8.8.8.8".to_string(), 1));
    assert_eq!(stats.remote_address_count, 4);
    let stats = get_socket_stats(&table[..6].to_vec());
    assert_eq!(stats.top_remote_address, (String::new(), 0));
    assert_eq!(stats.remote_address_count, 3);
    let stats = get_socket_stats(&vec![tcp(1, "a", 1, "::1", 1, 0)]);
    assert_eq!(stats.top_remote_address, ("::1".to_string(), 1));
}

#[test]
fn extremes_are_least_and_greatest_age() {
    let table = vec![udp(1, "a", 1, 500), udp(1, "a", 2, 0), udp(1, "a", 3, u64::MAX), udp(1, "a", 4, 7)];
    let stats = get_socket_stats(&table);
    assert_eq!(stats.youngest_connection, 0);
    assert_eq!(stats.oldest_connection, u64::MAX);
    let stats = get_socket_stats(&vec![udp(1, "a", 1, 500), udp(1, "a", 1, 900)]);
    assert_eq!(stats.youngest_connection, 500);
    assert_eq!(stats.oldest_connection, 900);
    assert_eq!(stats.remote_port_count, 0);
    assert_eq!(stats.remote_address_count, 0);
}

#[test]
fn tally_counts_keys_in_order_of_first_occurrence() {
    let mut tally: Tally<u16> = Tally::new();
    assert_eq!(tally.distinct_count(), 0);
    assert_eq!(tally.top_excluding(&Vec::new()), None);
    for key in [7u16, 3, 7, 9, 3, 3] {
        tally.add(key);
    }
    assert_eq!(tally.distinct_count(), 3);
    assert_eq!(tally.top_excluding(&Vec::new()), Some((&3, 3)));
    assert_eq!(tally.top_excluding(&vec![3]), Some((&7, 2)));
    assert_eq!(tally.top_excluding(&vec![3, 7]), Some((&9, 1)));
    assert_eq!(tally.top_excluding(&vec![9, 3, 7, 1]), None);
    let mut names: Tally<String> = Tally::new();
    for name in ["b", "a", "b", "a"] {
        names.add(name.to_string());
    }
    assert_eq!(names.distinct_count(), 2);
    assert_eq!(names.top_excluding(&Vec::new()), Some((&"b".to_string(), 2)));
}
