use r_port_doctor::args::{names_output_field, validate_field_args, Args};
use r_port_doctor::config::{apply_config, Config};
use r_port_doctor::name_pattern::{name_matches_pattern, NamePattern};
use r_port_doctor::range_filter::{
    check_address_range, check_field_range, filter_range, max_ipv4, max_ipv6, min_ipv4, min_ipv6,
    validate_range_args, validate_range_fields, RangeValue,
};
use r_port_doctor::address::{Ipv4Address, Ipv6Address};
use r_port_doctor::rpderror::RpdError;
use r_port_doctor::socket::{Protocol, Socket};
use r_port_doctor::sort::{parse_sort_field, reverse_table, sort_ascending, sort_by, SortField};

fn tcp(pid: u32, name: &str, local_port: u16, remote: &str, remote_port: u16, uptime: u64) -> Socket {
    Socket {
        process_name: name.to_string(),
        pid,
        local_port,
        remote_port: Some(remote_port),
        protocol: Protocol::Tcp,
        local_address: "192.168.1.10".to_string(),
        remote_address: Some(remote.to_string()),
        state: "ESTABLISHED".to_string(),
        executable_path: None,
        uptime_seconds: uptime,
    }
}

fn udp(pid: u32, name: &str, local_port: u16, uptime: u64) -> Socket {
    Socket {
        process_name: name.to_string(),
        pid,
        local_port,
        remote_port: None,
        protocol: Protocol::Udp,
        local_address: "0.0.0.0".to_string(),
        remote_address: None,
        state: "-".to_string(),
        executable_path: None,
        uptime_seconds: uptime,
    }
}

fn words(list: &[&str]) -> Vec<String> {
    list.iter().map(|w| w.to_string()).collect()
}

fn sample() -> Vec<Socket> {
    let mut listener = tcp(4, "SYSTEM", 445, "0.0.0.0", 0, 5000);
    listener.state = "LISTEN".to_string();
    listener.local_address = "0.0.0.0".to_string();
    vec![
        tcp(100, "chrome.exe", 50001, "142.250.1.1", 443, 120),
        tcp(100, "Chrome.exe", 50002, "142.250.1.2", 443, 60),
        tcp(200, "sshd", 22, "10.0.0.7", 61000, 86400),
        listener,
        udp(300, "dnsmasq", 53, 10),
        udp(4, "SYSTEM", 137, 7000),
    ]
}

fn pids_after(args: &Args) -> Vec<u16> {
    let mut table = sample();
    assert_eq!(Socket::filter_socket_table(&mut table, args, args.get_argc()), Ok(()));
    table.iter().map(|s| s.local_port).collect()
}

#[test]
fn argc_counts_the_filters_that_are_set() {
    assert_eq!(Args::default().get_argc(), 0);
    let args = Args {
        mode: Some("tcp".to_string()),
        ip_version: Some(4),
        json: true,
        sort_by: Some(words(&["asc", "pid"])),
        resolve_hostname: true,
        compact: true,
        fields: Some(words(&["pid"])),
        uptime_format: Some("clock".to_string()),
        stats: true,
        ..Args::default()
    };
    assert_eq!(args.get_argc(), 0);
    let args = Args {
        port: Some(1),
        remote_port: Some(2),
        process_name: Some("x".to_string()),
        pid: Some(3),
        state: Some("LISTEN".to_string()),
        local_address: Some("1.1.1.1".to_string()),
        remote_address: Some("2.2.2.2".to_string()),
        no_system: true,
        older_than: Some(1),
        younger_than: Some(2),
        range: Some(words(&["pid", "1", "2"])),
        ..Args::default()
    };
    assert_eq!(args.get_argc(), 11);
    assert_eq!(Args { no_system: true, pid: Some(0), ..Args::default() }.get_argc(), 2);
}

#[test]
fn filter_on_port_keeps_only_that_port() {
    let mut table = vec![tcp(10, "a.exe", 80, "1.1.1.1", 5000, 1), tcp(11, "b.exe", 443, "1.1.1.1", 5001, 2)];
    let args = Args { port: Some(80), ..Args::default() };
    let argc = args.get_argc();
    assert_eq!(argc, 1);
    assert_eq!(Socket::filter_socket_table(&mut table, &args, argc), Ok(()));
    assert_eq!(table.len(), 1);
    assert_eq!(table[0].local_port, 80);
    assert_eq!(table[0].pid, 10);
}

#[test]
fn each_filter_keeps_what_it_asks_for() {
    assert_eq!(pids_after(&Args { port: Some(22), ..Args::default() }), vec![22]);
    assert_eq!(pids_after(&Args { remote_port: Some(443), ..Args::default() }), vec![50001, 50002]);
    assert_eq!(pids_after(&Args { pid: Some(4), ..Args::default() }), vec![445, 137]);
    assert_eq!(pids_after(&Args { state: Some("listen".to_string()), ..Args::default() }), vec![445]);
    assert_eq!(pids_after(&Args { state: Some("-".to_string()), ..Args::default() }), vec![53, 137]);
    assert_eq!(
        pids_after(&Args { local_address: Some("0.0.0.0".to_string()), ..Args::default() }),
        vec![445, 53, 137]
    );
    assert_eq!(
        pids_after(&Args { remote_address: Some("10.0.0.7".to_string()), ..Args::default() }),
        vec![22]
    );
    assert_eq!(pids_after(&Args { older_than: Some(5000), ..Args::default() }), vec![22, 445, 137]);
    assert_eq!(pids_after(&Args { younger_than: Some(60), ..Args::default() }), vec![50002, 53]);
    assert_eq!(pids_after(&Args { no_system: true, ..Args::default() }), vec![50001, 50002, 22, 53]);
    assert_eq!(
        pids_after(&Args { range: Some(words(&["port", "50", "500"])), ..Args::default() }),
        vec![445, 53, 137]
    );
}

#[test]
fn filters_hold_together() {
    let args = Args { remote_port: Some(443), pid: Some(100), younger_than: Some(100), ..Args::default() };
    assert_eq!(pids_after(&args), vec![50002]);
    let args = Args { pid: Some(4), no_system: true, ..Args::default() };
    assert_eq!(pids_after(&args), Vec::<u16>::new());
    let args = Args {
        pid: Some(4),
        state: Some("LISTEN".to_string()),
        range: Some(words(&["uptime", "0", "6000"])),
        ..Args::default()
    };
    assert_eq!(pids_after(&args), vec![445]);
    let args = Args { older_than: Some(100), younger_than: Some(6000), process_name: Some("s".to_string()), ..Args::default() };
    assert_eq!(pids_after(&args), vec![445]);
    for socket in sample() {
        let passes = Socket::filter_socket_row(&args, &socket);
        let each = socket.uptime_seconds >= 100
            && socket.uptime_seconds <= 6000
            && socket.process_name.to_lowercase().contains('s');
        assert_eq!(passes, each, "{:?}", socket);
    }
}

#[test]
fn no_filter_keeps_every_record() {
    let mut table = sample();
    assert_eq!(Socket::filter_socket_table(&mut table, &Args::default(), 0), Ok(()));
    assert_eq!(table, sample());
    for socket in sample() {
        assert!(Socket::filter_socket_row(&Args::default(), &socket));
    }
}

#[test]
fn a_count_of_zero_skips_filters_and_checks() {
    let mut table = sample();
    let args = Args { port: Some(22), local_address: Some("nonsense".to_string()), ..Args::default() };
    assert_eq!(Socket::filter_socket_table(&mut table, &args, 0), Ok(()));
    assert_eq!(table, sample());
}

#[test]
fn process_name_pattern_is_searched_without_regard_to_case() {
    assert_eq!(pids_after(&Args { process_name: Some("chrome".to_string()), ..Args::default() }), vec![50001, 50002]);
    assert_eq!(pids_after(&Args { process_name: Some("CHROME".to_string()), ..Args::default() }), vec![50001, 50002]);
    assert_eq!(pids_after(&Args { process_name: Some("^s".to_string()), ..Args::default() }), vec![22, 445, 137]);
    assert_eq!(pids_after(&Args { process_name: Some("d$".to_string()), ..Args::default() }), vec![22]);
    assert_eq!(pids_after(&Args { process_name: Some("ssh|dns".to_string()), ..Args::default() }), vec![22, 53]);
    assert_eq!(pids_after(&Args { process_name: Some("".to_string()), ..Args::default() }), vec![50001, 50002, 22, 445, 53, 137]);
    assert!(name_matches_pattern("x|CHROME", "chrome.exe"));
    assert!(name_matches_pattern("note", "Notepad.exe"));
    assert!(name_matches_pattern("\\.EXE$", "notepad.exe"));
    assert!(!name_matches_pattern("^pad", "notepad.exe"));
    assert!(!name_matches_pattern("notepad", "note"));
}

#[test]
fn a_pattern_that_is_no_expression_keeps_nothing() {
    assert_eq!(pids_after(&Args { process_name: Some("chrome(".to_string()), ..Args::default() }), Vec::<u16>::new());
    assert_eq!(pids_after(&Args { process_name: Some("[".to_string()), ..Args::default() }), Vec::<u16>::new());
    assert!(!name_matches_pattern("(", "("));
    assert!(!name_matches_pattern("*", "anything"));
    let ready = NamePattern::new("a{2,1}");
    assert!(!ready.matches("aa"));
    let ready = NamePattern::new("a{1,2}");
    assert!(ready.matches("xAy"));
    assert!(!ready.matches("xyz"));
}

#[test]
fn remote_filters_drop_udp_records() {
    let records = vec![udp(1, "a", 53, 1), udp(2, "b", 0, 2)];
    for port in [0u16, 53, 65535] {
        let mut table = records.clone();
        let args = Args { remote_port: Some(port), ..Args::default() };
        assert_eq!(Socket::filter_socket_table(&mut table, &args, 1), Ok(()));
        assert!(table.is_empty());
    }
    let mut table = records.clone();
    let args = Args { remote_address: Some("0.0.0.0".to_string()), ..Args::default() };
    assert_eq!(Socket::filter_socket_table(&mut table, &args, 1), Ok(()));
    assert!(table.is_empty());
    for socket in &records {
        assert!(!filter_range(&words(&["remote-port", "0", "65535"]), socket, &None));
        assert!(!filter_range(&words(&["remote-address", "0.0.0.0", "255.255.255.255"]), socket, &None));
        assert!(filter_range(&words(&["port", "0", "65535"]), socket, &None));
    }
}

#[test]
fn invalid_addresses_are_rejected_before_filtering() {
    let mut table = sample();
    let args = Args {
        local_address: Some("300.1.1.1".to_string()),
        remote_address: Some("also bad".to_string()),
        range: Some(words(&["colour", "1", "2"])),
        ..Args::default()
    };
    assert_eq!(
        Socket::filter_socket_table(&mut table, &args, args.get_argc()),
        Err(RpdError::InvalidLocalAddressErr("300.1.1.1".to_string()))
    );
    assert_eq!(table, sample());
    let args = Args { local_address: Some("1.1.1.1".to_string()), ..args };
    assert_eq!(
        Socket::filter_socket_table(&mut table, &args, args.get_argc()),
        Err(RpdError::InvalidRemoteAddressErr("also bad".to_string()))
    );
    let args = Args { remote_address: None, ..args };
    assert_eq!(
        Socket::filter_socket_table(&mut table, &args, args.get_argc()),
        Err(RpdError::InvalidRangeFieldErr("colour".to_string()))
    );
    let args = Args { local_address: Some("::1".to_string()), range: None, ..Args::default() };
    assert_eq!(
        Socket::filter_socket_table(&mut table, &args, args.get_argc()),
        Err(RpdError::InvalidLocalAddressErr("::1".to_string()))
    );
    let args = Args { ip_version: Some(6), ..args };
    assert_eq!(Socket::filter_socket_table(&mut table, &args, args.get_argc()), Ok(()));
    assert!(table.is_empty());
    assert_eq!(table.len(), 0);
}

#[test]
fn range_on_pid_keeps_what_lies_inside() {
    let mut table = vec![
        tcp(50, "a", 1, "1.1.1.1", 1, 1),
        tcp(200, "b", 2, "1.1.1.1", 2, 1),
        tcp(600, "c", 3, "1.1.1.1", 3, 1),
    ];
    let args = Args { range: Some(words(&["pid", "100", "500"])), ..Args::default() };
    assert_eq!(Socket::filter_socket_table(&mut table, &args, args.get_argc()), Ok(()));
    assert_eq!(table.iter().map(|s| s.pid).collect::<Vec<_>>(), vec![200]);
}

#[test]
fn range_bounds_are_inclusive() {
    let range = words(&["uptime", "10", "20"]);
    for (uptime, inside) in [(9u64, false), (10, true), (15, true), (20, true), (21, false), (0, false), (u64::MAX, false)] {
        assert_eq!(filter_range(&range, &tcp(1, "a", 1, "1.1.1.1", 1, uptime), &None), inside, "{}", uptime);
    }
    let range = words(&["UPTIME", "18446744073709551615", "18446744073709551615"]);
    assert!(filter_range(&range, &tcp(1, "a", 1, "1.1.1.1", 1, u64::MAX), &None));
    assert!(!filter_range(&range, &tcp(1, "a", 1, "1.1.1.1", 1, u64::MAX - 1), &None));
    let range = words(&["port", "443", "443"]);
    assert!(filter_range(&range, &tcp(1, "a", 443, "1.1.1.1", 1, 0), &None));
    assert!(!filter_range(&range, &tcp(1, "a", 444, "1.1.1.1", 1, 0), &None));
    let range = words(&["remote-port", "1", "2"]);
    assert!(filter_range(&range, &tcp(1, "a", 443, "1.1.1.1", 2, 0), &None));
    assert!(!filter_range(&range, &tcp(1, "a", 443, "1.1.1.1", 3, 0), &None));
    let range = words(&["pid", "+7", "007"]);
    assert!(filter_range(&range, &tcp(7, "a", 443, "1.1.1.1", 2, 0), &None));
    assert!(!filter_range(&range, &tcp(8, "a", 443, "1.1.1.1", 2, 0), &None));
}

#[test]
fn unreadable_bounds_stand_for_the_extremes() {
    let socket = tcp(70000, "a", 9, "1.1.1.1", 2, 5);
    assert!(filter_range(&words(&["pid", "x", "y"]), &socket, &None));
    assert!(filter_range(&words(&["pid", "", "70000"]), &socket, &None));
    assert!(!filter_range(&words(&["pid", "", "69999"]), &socket, &None));
    assert!(filter_range(&words(&["pid", "70000", "99999999999"]), &socket, &None));
    assert!(filter_range(&words(&["pid", "-1", "4294967296"]), &socket, &None));
    assert!(filter_range(&words(&["pid"]), &socket, &None));
    assert!(filter_range(&words(&["pid", "70000"]), &socket, &None));
    assert!(!filter_range(&words(&["pid", "70001"]), &socket, &None));
    assert!(filter_range(&words(&["port", "9", "65536"]), &socket, &None));
    assert!(!filter_range(&words(&["port", "10", "65536"]), &socket, &None));
    assert!(filter_range(&words(&["local-address", "?", "192.168.1.10"]), &socket, &None));
    assert!(!filter_range(&words(&["local-address", "?", "192.168.1.9"]), &socket, &None));
    assert!(filter_range(&words(&["local-address", "192.168.1.10", "?"]), &socket, &None));
}

#[test]
fn unknown_range_fields_keep_nothing() {
    let socket = tcp(1, "a", 9, "1.1.1.1", 2, 5);
    assert!(!filter_range(&words(&["colour", "0", "9"]), &socket, &None));
    assert!(!filter_range(&words(&["", "0", "9"]), &socket, &None));
    assert!(!filter_range(&Vec::new(), &socket, &None));
    assert!(!filter_range(&words(&["process-name", "a", "z"]), &socket, &None));
}

#[test]
fn address_ranges_compare_address_values() {
    let mut socket = tcp(1, "a", 9, "10.0.0.200", 2, 5);
    socket.local_address = "9.255.255.255".to_string();
    let range = words(&["remote-address", "10.0.0.99", "10.0.1.0"]);
    assert!(filter_range(&range, &socket, &None));
    assert!(filter_range(&range, &socket, &Some(4)));
    assert!(!filter_range(&range, &socket, &Some(6)));
    assert!(!filter_range(&range, &socket, &Some(5)));
    let range = words(&["local-address", "10.0.0.0", "10.255.255.255"]);
    assert!(!filter_range(&range, &socket, &None));
    socket.local_address = "10.0.0.0".to_string();
    assert!(filter_range(&range, &socket, &None));
    socket.local_address = "not an address".to_string();
    assert!(!filter_range(&words(&["local-address", "0.0.0.0", "255.255.255.255"]), &socket, &None));
    socket.local_address = "fe80::2".to_string();
    socket.remote_address = Some("::ffff:1.2.3.4".to_string());
    assert!(filter_range(&words(&["local-address", "fe80::1", "fe80::ffff"]), &socket, &Some(6)));
    assert!(!filter_range(&words(&["local-address", "fe80::3", "fe80::ffff"]), &socket, &Some(6)));
    assert!(filter_range(&words(&["remote-address", "::", "::ffff:1.2.3.4"]), &socket, &Some(6)));
    assert!(!filter_range(&words(&["remote-address", "::", "::ffff:1.2.3.3"]), &socket, &Some(6)));
    assert!(filter_range(&words(&["remote-address", "bad", "worse"]), &socket, &Some(6)));
    assert!(!filter_range(&words(&["local-address", "fe80::1", "fe80::ffff"]), &socket, &None));
}

#[test]
fn field_and_address_ranges_use_the_defaults() {
    assert!(check_field_range(1u16, 5u16, &words(&["port"]), 3u16));
    assert!(!check_field_range(1u16, 5u16, &words(&["port"]), 6u16));
    assert!(!check_field_range(1u16, 5u16, &words(&["port"]), 0u16));
    assert!(check_field_range(0u32, 100u32, &words(&["pid", "10", "?"]), 100u32));
    assert!(!check_field_range(0u32, 100u32, &words(&["pid", "10", "?"]), 101u32));
    assert!(!check_field_range(0u64, 100u64, &words(&["uptime", "10", "?"]), 9u64));
    let low = Ipv4Address { bits: 10 };
    let high = Ipv4Address { bits: 20 };
    assert!(check_address_range(low, high, &words(&["local-address", "?", "?"]), &"0.0.0.15".to_string()));
    assert!(!check_address_range(low, high, &words(&["local-address", "?", "?"]), &"0.0.0.21".to_string()));
    assert!(!check_address_range(low, high, &words(&["local-address", "?", "?"]), &"15".to_string()));
    assert!(check_address_range(min_ipv4(), max_ipv4(), &Vec::new(), &"255.255.255.255".to_string()));
    assert!(check_address_range(min_ipv6(), max_ipv6(), &Vec::new(), &"ffff:ffff:ffff:ffff:ffff:ffff:ffff:ffff".to_string()));
    assert!(check_address_range(min_ipv6(), max_ipv6(), &Vec::new(), &"::".to_string()));
    assert!(!check_address_range(min_ipv6(), max_ipv6(), &Vec::new(), &"1.2.3.4".to_string()));
    assert_eq!(min_ipv4().bits, 0);
    assert_eq!(max_ipv4().bits, u32::MAX);
    assert_eq!(min_ipv6().groups, [0; 8]);
    assert_eq!(max_ipv6().groups, [0xffff; 8]);
}

#[test]
fn range_values_are_read_and_ordered() {
    assert_eq!(u16::parse_text("65535"), Some(65535));
    assert_eq!(u16::parse_text("65536"), None);
    assert_eq!(u16::parse_text("+0"), Some(0));
    assert_eq!(u16::parse_text("-0"), None);
    assert_eq!(u16::parse_text(""), None);
    assert_eq!(u16::parse_text("+"), None);
    assert_eq!(u16::parse_text("++1"), None);
    assert_eq!(u16::parse_text("1 "), None);
    assert_eq!(u16::parse_text("0x10"), None);
    assert_eq!(u16::parse_text("１"), None);
    assert_eq!(u32::parse_text("4294967295"), Some(u32::MAX));
    assert_eq!(u32::parse_text("4294967296"), None);
    assert_eq!(u32::parse_text("00000000000000000000000000042"), Some(42));
    assert_eq!(u64::parse_text("18446744073709551615"), Some(u64::MAX));
    assert_eq!(u64::parse_text("18446744073709551616"), None);
    assert_eq!(u64::parse_text("99999999999999999999999999"), None);
    assert_eq!(Ipv4Address::parse_text("1.2.3.4").map(|a| a.bits), Some(0x01020304));
    assert_eq!(Ipv6Address::parse_text("::2").map(|a| a.groups[7]), Some(2));
    assert!(3u16.at_most(3));
    assert!(!4u16.at_most(3));
    assert!(Ipv4Address { bits: 1 }.at_most(Ipv4Address { bits: 2 }));
    assert!(!Ipv4Address { bits: 3 }.at_most(Ipv4Address { bits: 2 }));
    let low = Ipv6Address::parse("1::ffff").unwrap();
    let high = Ipv6Address::parse("2::").unwrap();
    assert!(low.at_most(high));
    assert!(!high.at_most(low));
    assert!(high.at_most(high));
}

#[test]
fn range_arguments_are_validated() {
    assert_eq!(validate_range_args(&words(&["pid", "1", "2"]), &None), Ok(()));
    assert_eq!(validate_range_args(&words(&["PORT", "1", "65535"]), &None), Ok(()));
    assert_eq!(validate_range_args(&words(&["Remote-Port", "0", "0"]), &None), Ok(()));
    assert_eq!(validate_range_args(&words(&["uptime", "5", "1"]), &None), Ok(()));
    assert_eq!(validate_range_args(&words(&["local-address", "1.1.1.1", "2.2.2.2"]), &None), Ok(()));
    assert_eq!(validate_range_args(&words(&["remote-address", "::1", "::2"]), &Some(6)), Ok(()));
    assert_eq!(
        validate_range_args(&words(&["Colour", "1", "2"]), &None),
        Err(RpdError::InvalidRangeFieldErr("Colour".to_string()))
    );
    assert_eq!(validate_range_args(&Vec::new(), &None), Err(RpdError::InvalidRangeFieldErr(String::new())));
    assert_eq!(
        validate_range_args(&words(&["port", "65536", "x"]), &None),
        Err(RpdError::InvalidRangeMinErr("65536".to_string(), "port".to_string()))
    );
    assert_eq!(
        validate_range_args(&words(&["Pid", "1", "x"]), &None),
        Err(RpdError::InvalidRangeMaxErr("x".to_string(), "Pid".to_string()))
    );
    assert_eq!(
        validate_range_args(&words(&["uptime"]), &None),
        Err(RpdError::InvalidRangeMinErr(String::new(), "uptime".to_string()))
    );
    assert_eq!(
        validate_range_args(&words(&["uptime", "1"]), &None),
        Err(RpdError::InvalidRangeMaxErr(String::new(), "uptime".to_string()))
    );
    assert_eq!(
        validate_range_args(&words(&["local-address", "::1", "::2"]), &None),
        Err(RpdError::InvalidRangeMinErr("::1".to_string(), "local-address".to_string()))
    );
    assert_eq!(
        validate_range_args(&words(&["local-address", "1.1.1.1", "2.2.2.2"]), &Some(7)),
        Err(RpdError::InvalidRangeMinErr("1.1.1.1".to_string(), "local-address".to_string()))
    );
    assert_eq!(
        validate_range_fields::<u16>((Some("1".to_string()), Some("70000".to_string()))),
        (true, false)
    );
    assert_eq!(validate_range_fields::<u32>((None, Some("70000".to_string()))), (false, true));
    assert_eq!(
        validate_range_fields::<Ipv4Address>((Some("1.2.3.4".to_string()), Some("::".to_string()))),
        (true, false)
    );
}

#[test]
fn sort_by_uptime_ascending_and_descending() {
    let mut table = vec![
        tcp(1, "a", 1, "1.1.1.1", 1, 50),
        tcp(2, "b", 2, "1.1.1.1", 2, 10),
        tcp(3, "c", 3, "1.1.1.1", 3, 30),
    ];
    let args = Args { sort_by: Some(words(&["asc", "uptime"])), ..Args::default() };
    assert_eq!(Socket::sort_socket_table(&mut table, &args), Ok(()));
    assert_eq!(table.iter().map(|s| s.uptime_seconds).collect::<Vec<_>>(), vec![10, 30, 50]);
    let args = Args { sort_by: Some(words(&["DESC", "Uptime"])), ..Args::default() };
    assert_eq!(Socket::sort_socket_table(&mut table, &args), Ok(()));
    assert_eq!(table.iter().map(|s| s.uptime_seconds).collect::<Vec<_>>(), vec![50, 30, 10]);
}

fn sorted_ports(field: &str, order: &str, ip_version: Option<u8>) -> Vec<u16> {
    let mut table = sample();
    table[2].local_address = "9.9.9.9".to_string();
    let args = Args { sort_by: Some(words(&[order, field])), ip_version, ..Args::default() };
    assert_eq!(Socket::sort_socket_table(&mut table, &args), Ok(()));
    table.iter().map(|s| s.local_port).collect()
}

#[test]
fn sorting_orders_by_each_field() {
    assert_eq!(sorted_ports("pid", "asc", None), vec![445, 137, 50001, 50002, 22, 53]);
    assert_eq!(sorted_ports("port", "asc", None), vec![22, 53, 137, 445, 50001, 50002]);
    assert_eq!(sorted_ports("remote-port", "asc", None), vec![445, 53, 137, 50001, 50002, 22]);
    assert_eq!(sorted_ports("process-name", "asc", None), vec![50002, 445, 137, 50001, 53, 22]);
    assert_eq!(sorted_ports("uptime", "asc", None), vec![53, 50002, 50001, 445, 137, 22]);
    assert_eq!(sorted_ports("local-address", "asc", None), vec![445, 53, 137, 22, 50001, 50002]);
    assert_eq!(sorted_ports("remote-address", "asc", None), vec![445, 53, 137, 22, 50001, 50002]);
    assert_eq!(sorted_ports("remote-address", "asc", Some(6)), vec![50001, 50002, 22, 445, 53, 137]);
}

#[test]
fn descending_is_the_reverse_of_ascending() {
    for field in ["pid", "port", "remote-port", "process-name", "uptime", "local-address", "remote-address"] {
        for version in [None, Some(4), Some(6)] {
            let mut backwards = sorted_ports(field, "asc", version);
            backwards.reverse();
            assert_eq!(sorted_ports(field, "desc", version), backwards, "{}", field);
        }
    }
}

#[test]
fn sorting_is_stable() {
    let mut table: Vec<Socket> = (0..40u16).map(|i| tcp((i % 3) as u32, "p", i, "1.1.1.1", 1, 0)).collect();
    sort_ascending(&mut table, SortField::Pid, false);
    let order: Vec<(u32, u16)> = table.iter().map(|s| (s.pid, s.local_port)).collect();
    let mut expected: Vec<(u32, u16)> = (0..40u16).map(|i| ((i % 3) as u32, i)).collect();
    expected.sort();
    assert_eq!(order, expected);
    sort_ascending(&mut table, SortField::Uptime, false);
    assert_eq!(table.iter().map(|s| (s.pid, s.local_port)).collect::<Vec<_>>(), expected);
}

#[test]
fn sort_keys_treat_missing_values_as_least() {
    let mut table = vec![
        tcp(1, "b", 1, "2.2.2.2", 5, 0),
        udp(2, "", 2, 0),
        tcp(3, "a", 3, "junk", 0, 0),
        tcp(4, "B", 4, "1.1.1.1", 1, 0),
    ];
    sort_ascending(&mut table, SortField::RemotePort, false);
    assert_eq!(table.iter().map(|s| s.pid).collect::<Vec<_>>(), vec![2, 3, 4, 1]);
    sort_ascending(&mut table, SortField::RemoteAddress, false);
    assert_eq!(table.iter().map(|s| s.pid).collect::<Vec<_>>(), vec![2, 3, 4, 1]);
    sort_ascending(&mut table, SortField::ProcessName, false);
    assert_eq!(table.iter().map(|s| s.pid).collect::<Vec<_>>(), vec![2, 4, 3, 1]);
    reverse_table(&mut table);
    assert_eq!(table.iter().map(|s| s.pid).collect::<Vec<_>>(), vec![1, 3, 4, 2]);
    let mut none: Vec<Socket> = Vec::new();
    sort_ascending(&mut none, SortField::Pid, true);
    reverse_table(&mut none);
    assert!(none.is_empty());
}

#[test]
fn process_names_sort_by_code_point() {
    let names = ["b", "a", "", "ab", "B", "\u{e9}", "z", "a\u{10000}", "a\u{ffff}", "aa"];
    let mut table: Vec<Socket> = names.iter().enumerate().map(|(i, n)| tcp(i as u32, n, 0, "1.1.1.1", 0, 0)).collect();
    sort_ascending(&mut table, SortField::ProcessName, false);
    let mut expected: Vec<String> = names.iter().map(|n| n.to_string()).collect();
    expected.sort();
    assert_eq!(table.iter().map(|s| s.process_name.clone()).collect::<Vec<_>>(), expected);
}

#[test]
fn invalid_sort_words_are_rejected() {
    let mut table = sample();
    let args = Args { sort_by: Some(words(&["up", "Colour"])), ..Args::default() };
    assert_eq!(
        Socket::sort_socket_table(&mut table, &args),
        Err(RpdError::InvalidSortFieldErr("colour".to_string()))
    );
    let args = Args { sort_by: Some(words(&["Up", "pid"])), ..Args::default() };
    assert_eq!(
        Socket::sort_socket_table(&mut table, &args),
        Err(RpdError::InvalidSortOrderErr("up".to_string()))
    );
    let args = Args { sort_by: Some(words(&["asc"])), ..Args::default() };
    assert_eq!(Socket::sort_socket_table(&mut table, &args), Err(RpdError::InvalidSortFieldErr(String::new())));
    let args = Args { sort_by: Some(Vec::new()), ..Args::default() };
    assert_eq!(Socket::sort_socket_table(&mut table, &args), Err(RpdError::InvalidSortFieldErr(String::new())));
    assert_eq!(table, sample());
    assert_eq!(Socket::sort_socket_table(&mut table, &Args::default()), Ok(()));
    assert_eq!(table, sample());
    assert_eq!(
        sort_by("ASC", &mut table, SortField::Pid, false),
        Err(RpdError::InvalidSortOrderErr("ASC".to_string()))
    );
    assert_eq!(sort_by("desc", &mut table, SortField::Port, false), Ok(()));
    assert_eq!(table[0].local_port, 50002);
    assert_eq!(parse_sort_field("process-name"), Some(SortField::ProcessName));
    assert_eq!(parse_sort_field("PID"), None);
    assert_eq!(parse_sort_field("state"), None);
}

#[test]
fn output_fields_are_validated() {
    assert_eq!(validate_field_args(None), Ok(()));
    assert_eq!(validate_field_args(Some(&Vec::new())), Ok(()));
    let all = words(&["pid", "Process-Name", "PORT", "protocol", "local-address", "remote-address", "state", "uptime"]);
    assert_eq!(validate_field_args(Some(&all)), Ok(()));
    assert_eq!(
        validate_field_args(Some(&words(&["pid", "port", "PID"]))),
        Err(RpdError::RepeatedFieldArgErr("PID".to_string()))
    );
    assert_eq!(
        validate_field_args(Some(&words(&["pid", "colour", "pid"]))),
        Err(RpdError::InvalidFieldArgErr("colour".to_string()))
    );
    assert_eq!(
        validate_field_args(Some(&words(&["Colour", "colour"]))),
        Err(RpdError::InvalidFieldArgErr("Colour".to_string()))
    );
    assert_eq!(
        validate_field_args(Some(&words(&["process_name"]))),
        Err(RpdError::InvalidFieldArgErr("process_name".to_string()))
    );
    assert!(names_output_field("state"));
    assert!(!names_output_field("State"));
    assert!(!names_output_field(""));
}

#[test]
fn defaults_fill_only_unset_options() {
    let config = Config {
        port: Some(80),
        remote_port: Some(443),
        mode: Some("tcp".to_string()),
        process_name: Some("svchost".to_string()),
        pid: Some(4),
        state: Some("LISTEN".to_string()),
        ip_version: Some(6),
        local_address: Some("::1".to_string()),
        remote_address: Some("::2".to_string()),
        uptime_format: Some("human".to_string()),
    };
    let mut args = Args::default();
    apply_config(Some(config.clone()), &mut args);
    assert_eq!(args.port, Some(80));
    assert_eq!(args.remote_port, Some(443));
    assert_eq!(args.mode.as_deref(), Some("tcp"));
    assert_eq!(args.process_name.as_deref(), Some("svchost"));
    assert_eq!(args.pid, Some(4));
    assert_eq!(args.state.as_deref(), Some("LISTEN"));
    assert_eq!(args.ip_version, Some(6));
    assert_eq!(args.local_address.as_deref(), Some("::1"));
    assert_eq!(args.remote_address.as_deref(), Some("::2"));
    assert_eq!(args.uptime_format.as_deref(), Some("human"));
    assert_eq!(args.get_argc(), 7);
    let mut args = Args {
        port: Some(1),
        mode: Some("udp".to_string()),
        ip_version: Some(4),
        stats: true,
        sort_by: Some(words(&["asc", "pid"])),
        ..Args::default()
    };
    apply_config(Some(config), &mut args);
    assert_eq!(args.port, Some(1));
    assert_eq!(args.mode.as_deref(), Some("udp"));
    assert_eq!(args.ip_version, Some(4));
    assert_eq!(args.pid, Some(4));
    assert!(args.stats);
    assert_eq!(args.sort_by, Some(words(&["asc", "pid"])));
    let mut args = Args { pid: Some(9), ..Args::default() };
    apply_config(None, &mut args);
    assert_eq!(args.pid, Some(9));
    assert_eq!(args.port, None);
    apply_config(Some(Config::default()), &mut args);
    assert_eq!(args.pid, Some(9));
    assert_eq!(args.port, None);
}
