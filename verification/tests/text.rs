use r_port_doctor::config::{
    config_value, get_default_config_content, kind_of_setting, line_sets_key, read_lines,
    set_config_value, write_setting_line, Config,
};
use r_port_doctor::decimal::{parse_number, push_decimal};
use r_port_doctor::print_utils::{ansi_hyperlink, folder, get_formatted_uptime};
use r_port_doctor::rpderror::RpdError;
use r_port_doctor::socket::{clone_text, Protocol, Socket};
use r_port_doctor::text::{
    char_is_whitespace, chars_of, equal_ignoring_case, join, skip_whitespace, split_bounds,
    str_equal, string_of, trim_bounds,
};

fn decimal(n: u64) -> String {
    let mut out = String::from(">");
    push_decimal(&mut out, n);
    out
}

#[test]
fn numbers_are_written_in_decimal() {
    assert_eq!(decimal(0), ">0");
    assert_eq!(decimal(7), ">7");
    assert_eq!(decimal(10), ">10");
    assert_eq!(decimal(65535), ">65535");
    assert_eq!(decimal(1_000_000_007), ">1000000007");
    assert_eq!(decimal(u64::MAX), ">18446744073709551615");
}

#[test]
fn numbers_are_read_from_decimal() {
    assert_eq!(parse_number("0", 0), Some(0));
    assert_eq!(parse_number("1", 0), None);
    assert_eq!(parse_number("255", 255), Some(255));
    assert_eq!(parse_number("256", 255), None);
    assert_eq!(parse_number("+255", 255), Some(255));
    assert_eq!(parse_number("0255", 255), Some(255));
    assert_eq!(parse_number("", 255), None);
    assert_eq!(parse_number("+", 255), None);
    assert_eq!(parse_number("-1", 255), None);
    assert_eq!(parse_number("1+", 255), None);
    assert_eq!(parse_number("12a", 255), None);
    assert_eq!(parse_number(" 12", 255), None);
    assert_eq!(parse_number("1.0", 255), None);
    assert_eq!(parse_number("18446744073709551615", u64::MAX), Some(u64::MAX));
    assert_eq!(parse_number("18446744073709551616", u64::MAX), None);
    assert_eq!(parse_number("184467440737095516150", u64::MAX), None);
    for n in [0u64, 9, 10, 99, 100, 12345, u64::MAX] {
        assert_eq!(parse_number(&decimal(n)[1..], u64::MAX), Some(n));
    }
}

#[test]
fn texts_are_compared_by_their_characters() {
    assert!(str_equal("", ""));
    assert!(str_equal("abc", "abc"));
    assert!(!str_equal("abc", "abd"));
    assert!(!str_equal("abc", "ab"));
    assert!(!str_equal("ab", "abc"));
    assert!(str_equal("caf\u{e9}", "caf\u{e9}"));
    assert!(!str_equal("cafe\u{301}", "caf\u{e9}"));
    assert!(equal_ignoring_case("LISTEN", "listen"));
    assert!(equal_ignoring_case("Fe80::A", "fe80::a"));
    assert!(equal_ignoring_case("\u{c9}T\u{c9}", "\u{e9}t\u{e9}"));
    assert!(!equal_ignoring_case("LISTEN", "listen "));
    assert!(!equal_ignoring_case("a", "b"));
}

#[test]
fn characters_go_to_and_from_text() {
    let chars = chars_of("a\u{e9}\u{10000}z");
    assert_eq!(chars, vec!['a', '\u{e9}', '\u{10000}', 'z']);
    assert_eq!(string_of(&chars, 0, 4), "a\u{e9}\u{10000}z");
    assert_eq!(string_of(&chars, 1, 3), "\u{e9}\u{10000}");
    assert_eq!(string_of(&chars, 2, 2), "");
    assert_eq!(chars_of(""), Vec::<char>::new());
}

#[test]
fn texts_are_split_at_a_separator() {
    let chars = chars_of("a.bc..d.");
    assert_eq!(split_bounds(&chars, 0, chars.len(), '.'), vec![(0, 1), (2, 4), (5, 5), (6, 7), (8, 8)]);
    assert_eq!(split_bounds(&chars, 2, 4, '.'), vec![(2, 4)]);
    assert_eq!(split_bounds(&chars, 1, 5, '.'), vec![(1, 1), (2, 4), (5, 5)]);
    assert_eq!(split_bounds(&chars, 3, 3, '.'), vec![(3, 3)]);
    assert_eq!(split_bounds(&Vec::new(), 0, 0, '.'), vec![(0, 0)]);
}

#[test]
fn white_space_is_trimmed() {
    let chars = chars_of(" \t a b \u{a0}\n");
    assert_eq!(trim_bounds(&chars, 0, chars.len()), (3, 6));
    assert_eq!(skip_whitespace(&chars, 0, chars.len()), 3);
    assert_eq!(skip_whitespace(&chars, 4, chars.len()), 5);
    assert_eq!(trim_bounds(&chars, 3, 6), (3, 6));
    assert_eq!(trim_bounds(&chars, 0, 3), (3, 3));
    assert_eq!(trim_bounds(&chars, 6, chars.len()), (9, 9));
    let plain = chars_of("ab");
    assert_eq!(trim_bounds(&plain, 0, 2), (0, 2));
    assert_eq!(trim_bounds(&plain, 0, 0), (0, 0));
}

#[test]
fn white_space_is_what_the_standard_library_takes_for_it() {
    for code in 0..0x11_0000u32 {
        if let Some(c) = char::from_u32(code) {
            assert_eq!(char_is_whitespace(c), c.is_whitespace(), "{:x}", code);
        }
    }
}

#[test]
fn lines_are_joined() {
    assert_eq!(join(&Vec::new(), '\n'), "");
    assert_eq!(join(&vec!["a".to_string()], '\n'), "a");
    assert_eq!(join(&vec!["a".to_string(), String::new(), "b".to_string()], '\n'), "a\n\nb");
    assert_eq!(join(&vec![String::new(), String::new()], ','), ",");
}

#[test]
fn uptime_formats() {
    let up = 100_000u64;
    assert_eq!(get_formatted_uptime(&None, up), Ok("27:46:40".to_string()));
    assert_eq!(get_formatted_uptime(&Some("clock".to_string()), up), Ok("27:46:40".to_string()));
    assert_eq!(get_formatted_uptime(&Some("CLOCK".to_string()), 3_661), Ok("01:01:01".to_string()));
    assert_eq!(get_formatted_uptime(&None, 0), Ok("00:00:00".to_string()));
    assert_eq!(get_formatted_uptime(&None, 360_000), Ok("100:00:00".to_string()));
    assert_eq!(get_formatted_uptime(&Some("human".to_string()), up), Ok(" 1d 27h 46m 40s".to_string()));
    assert_eq!(get_formatted_uptime(&Some("Human".to_string()), 5), Ok(" 0d  0h  0m  5s".to_string()));
    assert_eq!(get_formatted_uptime(&Some("human".to_string()), 8_640_000), Ok("100d 2400h  0m  0s".to_string()));
    assert_eq!(get_formatted_uptime(&Some("hours".to_string()), up), Ok("27h".to_string()));
    assert_eq!(get_formatted_uptime(&Some("minutes".to_string()), up), Ok("1666m".to_string()));
    assert_eq!(get_formatted_uptime(&Some("seconds".to_string()), up), Ok("100000s".to_string()));
    assert_eq!(get_formatted_uptime(&Some("seconds".to_string()), u64::MAX), Ok("18446744073709551615s".to_string()));
    assert_eq!(
        get_formatted_uptime(&Some("Weeks".to_string()), up),
        Err(RpdError::InvalidUptimeFormatErr("Weeks".to_string()))
    );
    assert_eq!(
        get_formatted_uptime(&Some(String::new()), up),
        Err(RpdError::InvalidUptimeFormatErr(String::new()))
    );
}

#[test]
fn links_point_to_the_folder_of_the_file() {
    assert_eq!(ansi_hyperlink("a.exe", None, 10), "a.exe");
    assert_eq!(
        ansi_hyperlink("a.exe", Some("C:\\Tools\\bin\\a.exe"), 8),
        "   \u{1b}]8;;C:/Tools/bin\u{1b}\\a.exe\u{1b}]8;;\u{1b}\\"
    );
    assert_eq!(
        ansi_hyperlink("a.exe", Some("/opt/x/a.exe"), 5),
        "\u{1b}]8;;/opt/x\u{1b}\\a.exe\u{1b}]8;;\u{1b}\\"
    );
    assert_eq!(
        ansi_hyperlink("long-name.exe", Some("a.exe"), 3),
        "\u{1b}]8;;\u{1b}\\long-name.exe\u{1b}]8;;\u{1b}\\"
    );
    assert_eq!(ansi_hyperlink("\u{e9}", Some(""), 4), "  \u{1b}]8;;\u{1b}\\\u{e9}\u{1b}]8;;\u{1b}\\");
    assert_eq!(folder("C:\\Windows\\System32\\svchost.exe"), "C:/Windows/System32");
    assert_eq!(folder("a/b\\c"), "a/b");
    assert_eq!(folder("a/"), "a");
    assert_eq!(folder("/a"), "");
    assert_eq!(folder("a"), "");
    assert_eq!(folder(""), "");
}

#[test]
fn messages_name_the_offending_text() {
    assert_eq!(RpdError::ParseArgsErr("usage".to_string()).message(), "usage");
    assert_eq!(RpdError::RepeatedFieldArgErr("pid".to_string()).message(), "error: Repeated field 'pid'");
    assert!(RpdError::InvalidFieldArgErr("colour".to_string()).message().starts_with("error: Invalid field: 'colour'\n\nAvailable fields:"));
    assert_eq!(RpdError::ConfigDirNotFoundErr().message(), "error: Config directory not found");
    assert!(RpdError::InvalidConfigKeyErr("k".to_string()).message().starts_with("error: Invalid configuration key: 'k'\n\nUse '--help'"));
    assert_eq!(RpdError::UpdateConfigErr("denied".to_string()).message(), "error: denied");
    assert!(RpdError::InvalidIpVersionErr().message().starts_with("error: Invalid IP version"));
    assert!(RpdError::InvalidProtocolErr("icmp".to_string()).message().starts_with("error: Invalid protocol: 'icmp'"));
    assert!(RpdError::InvalidUptimeFormatErr("w".to_string()).message().starts_with("error: Invalid uptime format: 'w'"));
    assert_eq!(
        RpdError::InvalidRangeFieldErr("colour".to_string()).message(),
        "error: Invalid <FIELD> value 'colour' provided for range filtering"
    );
    assert_eq!(
        RpdError::InvalidRangeMinErr("x".to_string(), "pid".to_string()).message(),
        "error: Invalid <MIN> value 'x' provided for pid range filtering"
    );
    assert_eq!(
        RpdError::InvalidRangeMaxErr("y".to_string(), "port".to_string()).message(),
        "error: Invalid <MAX> value 'y' provided for port range filtering"
    );
    assert_eq!(
        RpdError::InvalidLocalAddressErr("1.2".to_string()).message(),
        "error: Invalid local address provided: '1.2'"
    );
    assert_eq!(
        RpdError::InvalidRemoteAddressErr("3.4".to_string()).message(),
        "error: Invalid remote address provided: '3.4'"
    );
    assert!(RpdError::InvalidSortFieldErr("f".to_string()).message().starts_with("error: Invalid sort field argument: 'f'"));
    assert!(RpdError::InvalidSortOrderErr("up".to_string()).message().starts_with("error: Invalid sort order argument: 'up'"));
}

#[test]
fn records_are_copied_whole() {
    let socket = Socket {
        process_name: "p".to_string(),
        pid: 1,
        local_port: 2,
        remote_port: Some(3),
        protocol: Protocol::Tcp,
        local_address: "a".to_string(),
        remote_address: Some("b".to_string()),
        state: "c".to_string(),
        executable_path: Some("d".to_string()),
        uptime_seconds: 4,
    };
    assert_eq!(socket.duplicate(), socket);
    assert_eq!(clone_text(&Some("x".to_string())), Some("x".to_string()));
    assert_eq!(clone_text(&None), None);
}

#[test]
fn default_settings_set_nothing() {
    let content = get_default_config_content();
    assert!(content.starts_with("\n# Default configuration for r-port-doctor\n"));
    assert!(content.ends_with("# uptime_format = \"human\"\n    "));
    assert_eq!(content.lines().count(), 24);
    assert!(content.lines().all(|l| l.trim().is_empty() || l.starts_with('#')));
    for key in ["port", "remote_port", "mode", "process_name", "pid", "state", "ip_version", "local_address", "remote_address", "uptime_format"] {
        assert_eq!(content.lines().filter(|l| line_sets_key(l, key)).count(), 1, "{}", key);
    }
}

#[test]
fn settings_have_kinds_and_values() {
    for key in ["port", "remote_port", "pid", "ip_version"] {
        assert_eq!(kind_of_setting(key), Some(false));
    }
    for key in ["mode", "process_name", "state", "local_address", "remote_address", "uptime_format"] {
        assert_eq!(kind_of_setting(key), Some(true));
    }
    assert_eq!(kind_of_setting("Port"), None);
    assert_eq!(kind_of_setting(""), None);
    assert_eq!(kind_of_setting("json"), None);
    let config = Config {
        port: Some(80),
        remote_port: None,
        mode: Some("TCP".to_string()),
        process_name: None,
        pid: Some(4_000_000_000),
        state: Some("LISTEN".to_string()),
        ip_version: Some(6),
        local_address: Some("::1".to_string()),
        remote_address: Some("::".to_string()),
        uptime_format: Some("human".to_string()),
    };
    assert_eq!(config_value(&config, "port"), Some("80".to_string()));
    assert_eq!(config_value(&config, "remote_port"), None);
    assert_eq!(config_value(&config, "mode"), Some("TCP".to_string()));
    assert_eq!(config_value(&config, "process_name"), None);
    assert_eq!(config_value(&config, "pid"), Some("4000000000".to_string()));
    assert_eq!(config_value(&config, "state"), Some("LISTEN".to_string()));
    assert_eq!(config_value(&config, "ip_version"), Some("6".to_string()));
    assert_eq!(config_value(&config, "local_address"), Some("::1".to_string()));
    assert_eq!(config_value(&config, "remote_address"), Some("::".to_string()));
    assert_eq!(config_value(&config, "uptime_format"), Some("human".to_string()));
    assert_eq!(config_value(&config, "json"), None);
}

#[test]
fn lines_of_a_text() {
    assert_eq!(read_lines(""), Vec::<String>::new());
    assert_eq!(read_lines("a"), vec!["a"]);
    assert_eq!(read_lines("a\n"), vec!["a"]);
    assert_eq!(read_lines("a\nb"), vec!["a", "b"]);
    assert_eq!(read_lines("a\r\nb\r\n"), vec!["a", "b"]);
    assert_eq!(read_lines("\n"), vec![""]);
    assert_eq!(read_lines("\n\n"), vec!["", ""]);
    assert_eq!(read_lines("a\n\nb\n"), vec!["a", "", "b"]);
    assert_eq!(read_lines("a\rb\n"), vec!["a\rb"]);
    assert_eq!(read_lines("a\r\r\n"), vec!["a\r"]);
    assert_eq!(read_lines("a\nb\r"), vec!["a", "b\r"]);
    for text in ["", "a", "a\n", "\n", "a\r\nb", "foo\nbar\n\r\nbaz\r", " x \n\n y", "\r\n\r\n"] {
        let expected: Vec<String> = text.lines().map(String::from).collect();
        assert_eq!(read_lines(text), expected, "{:?}", text);
    }
}

#[test]
fn setting_lines_are_recognised() {
    assert!(line_sets_key("port = 80", "port"));
    assert!(line_sets_key("# port = 80", "port"));
    assert!(line_sets_key("#port=80", "port"));
    assert!(line_sets_key("  #   port   =", "port"));
    assert!(line_sets_key("\tport\t=\t1  ", "port"));
    assert!(line_sets_key("port==", "port"));
    assert!(!line_sets_key("port", "port"));
    assert!(!line_sets_key("port 80", "port"));
    assert!(!line_sets_key("ports = 80", "port"));
    assert!(!line_sets_key("remote_port = 80", "port"));
    assert!(!line_sets_key("## port = 80", "port"));
    assert!(!line_sets_key("# # port = 80", "port"));
    assert!(!line_sets_key("", "port"));
    assert!(!line_sets_key("#", "port"));
    assert!(!line_sets_key("= 80", "port"));
    assert!(!line_sets_key("Port = 80", "port"));
    assert!(line_sets_key("remote_port = 80", "remote_port"));
    assert!(line_sets_key("=", ""));
}

#[test]
fn setting_lines_are_written() {
    assert_eq!(write_setting_line("port", Some(&"8080".to_string()), false), "port = 8080");
    assert_eq!(write_setting_line("mode", Some(&"TCP".to_string()), true), "mode = \"TCP\"");
    assert_eq!(write_setting_line("mode", None, true), "# mode =");
    assert_eq!(write_setting_line("port", None, false), "# port =");
    assert_eq!(write_setting_line("state", Some(&String::new()), true), "state = \"\"");
}

#[test]
fn a_setting_is_set_in_place() {
    let content = get_default_config_content();
    let updated = set_config_value(&content, "port", Some(&"8080".to_string())).unwrap();
    let lines: Vec<&str> = updated.lines().collect();
    assert_eq!(lines.len(), 24);
    assert_eq!(lines[4], "port = 8080");
    assert_eq!(lines[6], "# remote_port = 443");
    assert_eq!(lines[23], "    ");
    assert!(!updated.ends_with('\n'));
    let updated = set_config_value(&updated, "mode", Some(&"udp".to_string())).unwrap();
    assert_eq!(updated.lines().nth(8), Some("mode = \"udp\""));
    assert_eq!(updated.lines().nth(4), Some("port = 8080"));
    let updated = set_config_value(&updated, "port", None).unwrap();
    assert_eq!(updated.lines().nth(4), Some("# port ="));
    assert_eq!(updated.lines().nth(8), Some("mode = \"udp\""));
    let updated = set_config_value(&updated, "port", Some(&"1".to_string())).unwrap();
    assert_eq!(updated.lines().nth(4), Some("port = 1"));
    assert_eq!(updated.lines().count(), 24);
}

#[test]
fn a_missing_setting_is_added_at_the_end() {
    assert_eq!(set_config_value("", "pid", Some(&"4".to_string())), Ok("pid = 4".to_string()));
    assert_eq!(set_config_value("", "state", None), Ok("# state =".to_string()));
    assert_eq!(
        set_config_value("port = 1\r\n\r\nmode = \"tcp\"\r\n", "pid", Some(&"4".to_string())),
        Ok("port = 1\n\nmode = \"tcp\"\npid = 4".to_string())
    );
    assert_eq!(
        set_config_value("# note\nremote_port = 5", "port", Some(&"6".to_string())),
        Ok("# note\nremote_port = 5\nport = 6".to_string())
    );
}

#[test]
fn every_line_of_a_setting_is_replaced() {
    assert_eq!(
        set_config_value("port = 1\n  # port = 2\nx\nport=3\n", "port", Some(&"9".to_string())),
        Ok("port = 9\nport = 9\nx\nport = 9".to_string())
    );
}

#[test]
fn an_unknown_setting_is_rejected() {
    assert_eq!(
        set_config_value("port = 1", "colour", Some(&"red".to_string())),
        Err(RpdError::InvalidConfigKeyErr("colour".to_string()))
    );
    assert_eq!(set_config_value("", "", None), Err(RpdError::InvalidConfigKeyErr(String::new())));
    assert_eq!(
        set_config_value("", "PORT", None),
        Err(RpdError::InvalidConfigKeyErr("PORT".to_string()))
    );
}
