use r_port_doctor::args::Args;
use r_port_doctor::bytes::{read_be_u16, read_le_i64, read_le_u32};
use r_port_doctor::connection_state::map_tcp_state;
use r_port_doctor::get_process_name::{
    image_file_name, owner_from_enumeration, owner_from_image_path, OwnerLookup, ProcessOwner,
};
use r_port_doctor::get_sockets::{get_sockets, select_tables, Snapshot, TableSelection};
use r_port_doctor::get_uptime::get_socket_uptime;
use r_port_doctor::nt_to_dos::{to_dos_path, DeviceMap};
use r_port_doctor::rpderror::RpdError;
use r_port_doctor::socket::{Protocol, Socket};
use r_port_doctor::table_row::{count_rows, owning_pids, sockets_from_rows};
use r_port_doctor::tcp_table::{
    decode_tcp_table, decode_tcp_table_ipv6, get_tcp_sockets, get_tcp_sockets_ipv6,
};
use r_port_doctor::udp_table::{
    decode_udp_table, decode_udp_table_ipv6, get_udp_sockets, get_udp_sockets_ipv6,
};
use std::collections::HashMap;

fn header(rows: u32) -> Vec<u8> {
    let mut buffer = rows.to_le_bytes().to_vec();
    buffer.extend_from_slice(&[0xaa; 4]);
    buffer
}

fn tcp_row(state: u32, local: [u8; 4], local_port: u16, remote: [u8; 4], remote_port: u16, pid: u32, created: i64) -> Vec<u8> {
    let mut row = Vec::new();
    row.extend_from_slice(&state.to_le_bytes());
    row.extend_from_slice(&local);
    row.extend_from_slice(&local_port.to_be_bytes());
    row.extend_from_slice(&[0x55, 0x66]);
    row.extend_from_slice(&remote);
    row.extend_from_slice(&remote_port.to_be_bytes());
    row.extend_from_slice(&[0x77, 0x88]);
    row.extend_from_slice(&pid.to_le_bytes());
    row.extend_from_slice(&created.to_le_bytes());
    row.extend_from_slice(&[0x11; 128]);
    assert_eq!(row.len(), 160);
    row
}

fn tcp6_row(state: u32, local: [u8; 16], local_port: u16, remote: [u8; 16], remote_port: u16, pid: u32, created: i64) -> Vec<u8> {
    let mut row = Vec::new();
    row.extend_from_slice(&local);
    row.extend_from_slice(&7u32.to_le_bytes());
    row.extend_from_slice(&local_port.to_be_bytes());
    row.extend_from_slice(&[0x55, 0x66]);
    row.extend_from_slice(&remote);
    row.extend_from_slice(&9u32.to_le_bytes());
    row.extend_from_slice(&remote_port.to_be_bytes());
    row.extend_from_slice(&[0x77, 0x88]);
    row.extend_from_slice(&state.to_le_bytes());
    row.extend_from_slice(&pid.to_le_bytes());
    row.extend_from_slice(&created.to_le_bytes());
    row.extend_from_slice(&[0x11; 128]);
    assert_eq!(row.len(), 192);
    row
}

fn udp_row(local: [u8; 4], local_port: u16, pid: u32, created: i64) -> Vec<u8> {
    let mut row = Vec::new();
    row.extend_from_slice(&local);
    row.extend_from_slice(&local_port.to_be_bytes());
    row.extend_from_slice(&[0x55, 0x66]);
    row.extend_from_slice(&pid.to_le_bytes());
    row.extend_from_slice(&[0x99; 4]);
    row.extend_from_slice(&created.to_le_bytes());
    row.extend_from_slice(&[0x22; 8]);
    row.extend_from_slice(&[0x11; 128]);
    assert_eq!(row.len(), 160);
    row
}

fn udp6_row(local: [u8; 16], local_port: u16, pid: u32, created: i64) -> Vec<u8> {
    let mut row = Vec::new();
    row.extend_from_slice(&local);
    row.extend_from_slice(&3u32.to_le_bytes());
    row.extend_from_slice(&local_port.to_be_bytes());
    row.extend_from_slice(&[0x55, 0x66]);
    row.extend_from_slice(&pid.to_le_bytes());
    row.extend_from_slice(&[0x99; 4]);
    row.extend_from_slice(&created.to_le_bytes());
    row.extend_from_slice(&[0x22; 8]);
    row.extend_from_slice(&[0x11; 128]);
    assert_eq!(row.len(), 176);
    row
}

fn loopback6() -> [u8; 16] {
    let mut bytes = [0u8; 16];
    bytes[15] = 1;
    bytes
}

fn owner(name: &str, path: Option<&str>) -> ProcessOwner {
    ProcessOwner { process_name: name.to_string(), executable_path: path.map(|p| p.to_string()) }
}

const SECOND: i64 = 10_000_000;

#[test]
fn numbers_are_read_in_their_byte_order() {
    let bytes = [0x01, 0xbb, 0x78, 0x56, 0x34, 0x12, 0xff, 0xff, 0xff, 0xff, 0xff, 0xff, 0xff, 0x7f, 0x80];
    assert_eq!(read_be_u16(&bytes, 0), 443);
    assert_eq!(read_be_u16(&bytes, 1), 0xbb78);
    assert_eq!(read_le_u32(&bytes, 2), 0x1234_5678);
    assert_eq!(read_le_u32(&bytes, 6), u32::MAX);
    assert_eq!(read_le_i64(&bytes, 6), i64::MAX);
    assert_eq!(read_le_i64(&bytes, 7), i64::from_le_bytes([0xff, 0xff, 0xff, 0xff, 0xff, 0xff, 0x7f, 0x80]));
    assert_eq!(read_le_i64(&[0xff; 8], 0), -1);
    assert_eq!(read_le_i64(&[0, 0, 0, 0, 0, 0, 0, 0x80], 0), i64::MIN);
    assert_eq!(read_le_i64(&[0x80, 0x96, 0x98, 0, 0, 0, 0, 0], 0), 10_000_000);
}

#[test]
fn uptime_is_whole_seconds_since_creation() {
    assert_eq!(get_socket_uptime(0, 25_000_000), 2);
    assert_eq!(get_socket_uptime(5_000_000, 25_000_000), 2);
    assert_eq!(get_socket_uptime(5_000_001, 25_000_000), 1);
    assert_eq!(get_socket_uptime(1_000, 1_000), 0);
    assert_eq!(get_socket_uptime(133_000_000_000_000_000, 133_000_000_600_000_000), 60);
}

#[test]
fn uptime_is_never_negative() {
    assert_eq!(get_socket_uptime(30_000_000, 25_000_000), 0);
    assert_eq!(get_socket_uptime(i64::MAX, 0), 0);
}

#[test]
fn uptime_survives_extreme_timestamps() {
    assert_eq!(get_socket_uptime(i64::MIN, u64::MAX), 2_767_011_611_056);
    assert_eq!(get_socket_uptime(-10_000_000, 0), 1);
    assert_eq!(get_socket_uptime(0, u64::MAX), u64::MAX / 10_000_000);
}

#[test]
fn tcp_states_have_their_names() {
    let names = [
        "UNKNOWN", "CLOSED", "LISTEN", "SYN_SENT", "SYN_RCVD", "ESTABLISHED", "FIN_WAIT1",
        "FIN_WAIT2", "CLOSE_WAIT", "CLOSING", "LAST_ACK", "TIME_WAIT", "DELETE_TCB", "UNKNOWN",
    ];
    for (code, name) in names.iter().enumerate() {
        assert_eq!(map_tcp_state(code as u32), *name);
    }
    assert_eq!(map_tcp_state(100), "UNKNOWN");
    assert_eq!(map_tcp_state(u32::MAX), "UNKNOWN");
}

#[test]
fn tcp_table_rows_are_decoded() {
    let mut buffer = header(2);
    buffer.extend(tcp_row(5, [192, 168, 1, 10], 443, [10, 0, 0, 1], 51000, 1234, 7 * SECOND));
    buffer.extend(tcp_row(2, [0, 0, 0, 0], 80, [0, 0, 0, 0], 0, 4, -3));
    let rows = decode_tcp_table(&buffer);
    assert_eq!(rows.len(), 2);
    assert_eq!(rows[0].protocol, Protocol::Tcp);
    assert_eq!(rows[0].state, "ESTABLISHED");
    assert_eq!(rows[0].local_address, "192.168.1.10");
    assert_eq!(rows[0].local_port, 443);
    assert_eq!(rows[0].remote_address.as_deref(), Some("10.0.0.1"));
    assert_eq!(rows[0].remote_port, Some(51000));
    assert_eq!(rows[0].pid, 1234);
    assert_eq!(rows[0].create_timestamp, 7 * SECOND);
    assert_eq!(rows[1].state, "LISTEN");
    assert_eq!(rows[1].local_address, "0.0.0.0");
    assert_eq!(rows[1].local_port, 80);
    assert_eq!(rows[1].remote_port, Some(0));
    assert_eq!(rows[1].pid, 4);
    assert_eq!(rows[1].create_timestamp, -3);
}

#[test]
fn tcp6_table_rows_are_decoded() {
    let mut remote = [0u8; 16];
    remote[0] = 0x20;
    remote[1] = 0x01;
    remote[2] = 0x0d;
    remote[3] = 0xb8;
    remote[15] = 0x42;
    let mut buffer = header(1);
    buffer.extend(tcp6_row(11, loopback6(), 8080, remote, 65535, 77, i64::MAX));
    let rows = decode_tcp_table_ipv6(&buffer);
    assert_eq!(rows.len(), 1);
    assert_eq!(rows[0].state, "TIME_WAIT");
    assert_eq!(rows[0].local_address, "::1");
    assert_eq!(rows[0].local_port, 8080);
    assert_eq!(rows[0].remote_address.as_deref(), Some("2001:db8::42"));
    assert_eq!(rows[0].remote_port, Some(65535));
    assert_eq!(rows[0].pid, 77);
    assert_eq!(rows[0].create_timestamp, i64::MAX);
}

#[test]
fn udp_table_rows_are_decoded() {
    let mut buffer = header(2);
    buffer.extend(udp_row([127, 0, 0, 1], 53, 900, 5));
    buffer.extend(udp_row([0, 0, 0, 0], 5353, 0, 6));
    let rows = decode_udp_table(&buffer);
    assert_eq!(rows.len(), 2);
    assert_eq!(rows[0].protocol, Protocol::Udp);
    assert_eq!(rows[0].state, "-");
    assert_eq!(rows[0].local_address, "127.0.0.1");
    assert_eq!(rows[0].local_port, 53);
    assert_eq!(rows[0].remote_address, None);
    assert_eq!(rows[0].remote_port, None);
    assert_eq!(rows[0].pid, 900);
    assert_eq!(rows[0].create_timestamp, 5);
    assert_eq!(rows[1].local_port, 5353);
    assert_eq!(rows[1].pid, 0);
}

#[test]
fn udp6_table_rows_are_decoded() {
    let mut buffer = header(1);
    buffer.extend(udp6_row([0u8; 16], 500, 31, i64::MIN));
    let rows = decode_udp_table_ipv6(&buffer);
    assert_eq!(rows.len(), 1);
    assert_eq!(rows[0].protocol, Protocol::Udp);
    assert_eq!(rows[0].state, "-");
    assert_eq!(rows[0].local_address, "::");
    assert_eq!(rows[0].local_port, 500);
    assert_eq!(rows[0].remote_address, None);
    assert_eq!(rows[0].pid, 31);
    assert_eq!(rows[0].create_timestamp, i64::MIN);
}

#[test]
fn short_or_empty_buffers_hold_no_rows() {
    assert!(decode_tcp_table(&[]).is_empty());
    assert!(decode_tcp_table(&[1, 0, 0]).is_empty());
    assert!(decode_tcp_table(&header(0)).is_empty());
    assert!(decode_tcp_table(&0u32.to_le_bytes()).is_empty());
    let mut truncated = header(2);
    truncated.extend(tcp_row(5, [1, 1, 1, 1], 1, [2, 2, 2, 2], 2, 3, 4));
    assert!(decode_tcp_table(&truncated).is_empty());
    let mut short = header(1);
    short.extend(vec![0u8; 159]);
    assert!(decode_tcp_table(&short).is_empty());
    assert!(decode_udp_table(&short).is_empty());
    assert!(decode_tcp_table_ipv6(&short).is_empty());
    assert!(decode_udp_table_ipv6(&short).is_empty());
    assert!(decode_tcp_table(&header(u32::MAX)).is_empty());
}

#[test]
fn row_count_follows_the_header() {
    let mut buffer = header(3);
    buffer.extend(vec![0u8; 3 * 160]);
    assert_eq!(count_rows(&buffer, 160), 3);
    assert_eq!(count_rows(&buffer, 176), 0);
    buffer.extend(vec![0u8; 500]);
    assert_eq!(count_rows(&buffer, 160), 3);
    assert_eq!(count_rows(&[9, 9, 9], 160), 0);
}

#[test]
fn sockets_take_name_and_path_from_the_directory() {
    let mut buffer = header(3);
    buffer.extend(tcp_row(5, [192, 168, 1, 10], 443, [10, 0, 0, 1], 51000, 1234, 40 * SECOND));
    buffer.extend(tcp_row(2, [0, 0, 0, 0], 135, [0, 0, 0, 0], 0, 0, 0));
    buffer.extend(tcp_row(2, [0, 0, 0, 0], 445, [0, 0, 0, 0], 0, 4, 90 * SECOND));
    let mut directory = HashMap::new();
    directory.insert(1234, owner("chrome.exe", Some("C:\\Program Files\\chrome.exe")));
    directory.insert(4, owner("SYSTEM", None));
    let sockets = get_tcp_sockets(&buffer, &directory, (100 * SECOND) as u64);
    assert_eq!(
        sockets,
        vec![
            Socket {
                process_name: "chrome.exe".to_string(),
                pid: 1234,
                local_port: 443,
                remote_port: Some(51000),
                protocol: Protocol::Tcp,
                local_address: "192.168.1.10".to_string(),
                remote_address: Some("10.0.0.1".to_string()),
                state: "ESTABLISHED".to_string(),
                executable_path: Some("C:\\Program Files\\chrome.exe".to_string()),
                uptime_seconds: 60,
            },
            Socket {
                process_name: "SYSTEM".to_string(),
                pid: 4,
                local_port: 445,
                remote_port: Some(0),
                protocol: Protocol::Tcp,
                local_address: "0.0.0.0".to_string(),
                remote_address: Some("0.0.0.0".to_string()),
                state: "LISTEN".to_string(),
                executable_path: None,
                uptime_seconds: 10,
            },
        ]
    );
}

#[test]
fn rows_of_process_zero_are_left_out() {
    let mut buffer = header(2);
    buffer.extend(udp_row([0, 0, 0, 0], 1, 0, 0));
    buffer.extend(udp_row([0, 0, 0, 0], 2, 9, 0));
    let sockets = get_udp_sockets(&buffer, &HashMap::new(), 0);
    assert_eq!(sockets.len(), 1);
    assert_eq!(sockets[0].pid, 9);
    assert_eq!(sockets[0].local_port, 2);
}

#[test]
fn a_process_outside_the_directory_is_unknown() {
    let mut buffer = header(1);
    buffer.extend(udp_row([10, 1, 2, 3], 68, 555, 0));
    let sockets = get_udp_sockets(&buffer, &HashMap::new(), 30_000_000);
    assert_eq!(sockets.len(), 1);
    assert_eq!(sockets[0].process_name, "unknown");
    assert_eq!(sockets[0].executable_path, None);
    assert_eq!(sockets[0].protocol, Protocol::Udp);
    assert_eq!(sockets[0].remote_port, None);
    assert_eq!(sockets[0].remote_address, None);
    assert_eq!(sockets[0].state, "-");
    assert_eq!(sockets[0].uptime_seconds, 3);
}

#[test]
fn ipv6_tables_give_ipv6_sockets() {
    let mut tcp = header(1);
    tcp.extend(tcp6_row(5, loopback6(), 9000, loopback6(), 9001, 8, 0));
    let mut udp = header(1);
    udp.extend(udp6_row(loopback6(), 123, 8, 0));
    let mut directory = HashMap::new();
    directory.insert(8, owner("ntp.exe", None));
    let tcp_sockets = get_tcp_sockets_ipv6(&tcp, &directory, 0);
    let udp_sockets = get_udp_sockets_ipv6(&udp, &directory, 0);
    assert_eq!(tcp_sockets.len(), 1);
    assert_eq!(tcp_sockets[0].local_address, "::1");
    assert_eq!(tcp_sockets[0].remote_address.as_deref(), Some("::1"));
    assert_eq!(tcp_sockets[0].remote_port, Some(9001));
    assert_eq!(tcp_sockets[0].process_name, "ntp.exe");
    assert_eq!(udp_sockets.len(), 1);
    assert_eq!(udp_sockets[0].local_address, "::1");
    assert_eq!(udp_sockets[0].local_port, 123);
    assert_eq!(udp_sockets[0].remote_address, None);
}

#[test]
fn owning_pids_are_listed_once_without_zero() {
    let mut buffer = header(5);
    for pid in [7u32, 0, 3, 7, 3] {
        buffer.extend(udp_row([0, 0, 0, 0], 1, pid, 0));
    }
    let rows = decode_udp_table(&buffer);
    assert_eq!(owning_pids(&rows), vec![7, 3]);
    assert_eq!(owning_pids(&Vec::new()), Vec::<u32>::new());
    assert_eq!(sockets_from_rows(&rows, &HashMap::new(), 0).len(), 4);
}

fn devices() -> DeviceMap {
    let mut devices = DeviceMap::new();
    devices.insert("\\Device\\HarddiskVolume3".to_string(), "C:".to_string());
    devices.insert("\\Device\\HarddiskVolume5".to_string(), "D:".to_string());
    devices
}

#[test]
fn kernel_paths_become_drive_paths() {
    let devices = devices();
    assert_eq!(
        to_dos_path("\\Device\\HarddiskVolume3\\Windows\\System32\\svchost.exe", &devices),
        Some("C:\\Windows\\System32\\svchost.exe".to_string())
    );
    assert_eq!(
        to_dos_path("\\Device\\HarddiskVolume5\\tools\\a.exe", &devices),
        Some("D:\\tools\\a.exe".to_string())
    );
    assert_eq!(to_dos_path("\\Device\\HarddiskVolume3", &devices), Some("C:".to_string()));
    assert_eq!(to_dos_path("\\Device\\HarddiskVolume3\\", &devices), Some("C:\\".to_string()));
}

#[test]
fn unknown_devices_have_no_drive_path() {
    let devices = devices();
    assert_eq!(to_dos_path("\\Device\\HarddiskVolume9\\x.exe", &devices), None);
    assert_eq!(to_dos_path("", &devices), None);
    assert_eq!(to_dos_path("C:\\Windows\\x.exe", &devices), None);
    assert_eq!(to_dos_path("\\Device\\HarddiskVolume3\\x.exe", &DeviceMap::new()), None);
}

#[test]
fn a_later_device_entry_replaces_an_earlier_one() {
    let mut devices = devices();
    devices.insert("\\Device\\HarddiskVolume3".to_string(), "Z:".to_string());
    assert_eq!(devices.get("\\Device\\HarddiskVolume3").map(|d| d.as_str()), Some("Z:"));
    assert_eq!(devices.get("\\Device\\HarddiskVolume5").map(|d| d.as_str()), Some("D:"));
    assert_eq!(devices.get("\\Device\\Other"), None);
    assert_eq!(
        to_dos_path("\\Device\\HarddiskVolume3\\a\\b", &devices),
        Some("Z:\\a\\b".to_string())
    );
}

#[test]
fn image_file_name_is_the_last_part_trimmed() {
    assert_eq!(image_file_name("\\Device\\HarddiskVolume3\\Windows\\notepad.exe"), "notepad.exe");
    assert_eq!(image_file_name("notepad.exe"), "notepad.exe");
    assert_eq!(image_file_name("\\a\\ b c.exe \t"), "b c.exe");
    assert_eq!(image_file_name("\\a\\"), "");
    assert_eq!(image_file_name(""), "");
    assert_eq!(image_file_name("\\x\\caf\u{e9}.exe\u{a0}"), "caf\u{e9}.exe");
}

#[test]
fn owner_comes_from_the_image_path() {
    let devices = devices();
    assert_eq!(
        owner_from_image_path(77, Some("\\Device\\HarddiskVolume3\\bin\\app.exe"), &devices),
        OwnerLookup::Found(owner("app.exe", Some("C:\\bin\\app.exe")))
    );
    assert_eq!(
        owner_from_image_path(77, Some("\\Device\\Unmapped\\bin\\app.exe"), &devices),
        OwnerLookup::Found(owner("app.exe", None))
    );
    assert_eq!(
        owner_from_image_path(4, Some("\\Device\\HarddiskVolume3\\ntoskrnl.exe"), &devices),
        OwnerLookup::Found(owner("ntoskrnl.exe", Some("C:\\ntoskrnl.exe")))
    );
}

#[test]
fn owner_falls_back_when_the_image_path_is_missing() {
    let devices = devices();
    assert_eq!(owner_from_image_path(4, None, &devices), OwnerLookup::Found(owner("SYSTEM", None)));
    assert_eq!(owner_from_image_path(4, Some(""), &devices), OwnerLookup::Found(owner("SYSTEM", None)));
    assert_eq!(owner_from_image_path(5, None, &devices), OwnerLookup::Enumerate);
    assert_eq!(owner_from_image_path(5, Some(""), &devices), OwnerLookup::Enumerate);
    assert_eq!(owner_from_enumeration(Some("svc.exe".to_string())), owner("svc.exe", None));
    assert_eq!(owner_from_enumeration(None), owner("unknown", None));
}

fn snapshot() -> Snapshot {
    let mut tcp = header(1);
    tcp.extend(tcp_row(5, [1, 1, 1, 1], 10, [2, 2, 2, 2], 20, 100, 0));
    let mut udp = header(1);
    udp.extend(udp_row([3, 3, 3, 3], 30, 200, 0));
    let mut tcp6 = header(1);
    tcp6.extend(tcp6_row(2, loopback6(), 40, [0u8; 16], 0, 300, 0));
    let mut udp6 = header(1);
    udp6.extend(udp6_row(loopback6(), 50, 400, 0));
    Snapshot {
        tcp_table: tcp,
        udp_table: udp,
        tcp_table_ipv6: tcp6,
        udp_table_ipv6: udp6,
        processes: HashMap::new(),
        now: 0,
    }
}

fn ports(sockets: &[Socket]) -> Vec<u16> {
    sockets.iter().map(|s| s.local_port).collect()
}

#[test]
fn get_sockets_lists_ipv4_tcp_then_udp_by_default() {
    let mut sockets = Vec::new();
    assert_eq!(get_sockets(&mut sockets, &Args::default(), &snapshot()), Ok(()));
    assert_eq!(ports(&sockets), vec![10, 30]);
    let args = Args { ip_version: Some(4), ..Args::default() };
    assert_eq!(get_sockets(&mut sockets, &args, &snapshot()), Ok(()));
    assert_eq!(ports(&sockets), vec![10, 30, 10, 30]);
}

#[test]
fn get_sockets_follows_version_and_mode() {
    let mut sockets = Vec::new();
    let args = Args { ip_version: Some(6), ..Args::default() };
    assert_eq!(get_sockets(&mut sockets, &args, &snapshot()), Ok(()));
    assert_eq!(ports(&sockets), vec![40, 50]);
    let mut sockets = Vec::new();
    let args = Args { mode: Some("TCP".to_string()), ..Args::default() };
    assert_eq!(get_sockets(&mut sockets, &args, &snapshot()), Ok(()));
    assert_eq!(ports(&sockets), vec![10]);
    let mut sockets = Vec::new();
    let args = Args { mode: Some("Udp".to_string()), ip_version: Some(6), ..Args::default() };
    assert_eq!(get_sockets(&mut sockets, &args, &snapshot()), Ok(()));
    assert_eq!(ports(&sockets), vec![50]);
}

#[test]
fn get_sockets_rejects_unknown_version_and_mode() {
    let mut sockets = Vec::new();
    let args = Args { ip_version: Some(5), mode: Some("icmp".to_string()), ..Args::default() };
    assert_eq!(get_sockets(&mut sockets, &args, &snapshot()), Err(RpdError::InvalidIpVersionErr()));
    let args = Args { mode: Some("ICMP".to_string()), ..Args::default() };
    assert_eq!(
        get_sockets(&mut sockets, &args, &snapshot()),
        Err(RpdError::InvalidProtocolErr("icmp".to_string()))
    );
    assert!(sockets.is_empty());
    assert_eq!(
        select_tables(&Args { mode: Some("udp".to_string()), ..Args::default() }),
        Ok(TableSelection { ipv6: false, tcp: false, udp: true })
    );
    assert_eq!(
        select_tables(&Args { ip_version: Some(6), ..Args::default() }),
        Ok(TableSelection { ipv6: true, tcp: true, udp: true })
    );
}
