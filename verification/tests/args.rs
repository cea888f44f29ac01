use tcp_ping::address::{ConfigError, Family, IpAddress, Target};
use tcp_ping::args::{parse_arg_list, parse_port};

fn words(list: &[&str]) -> Vec<String> {
    list.iter().map(|w| w.to_string()).collect()
}

#[test]
fn ports() {
    let cases: [(&str, Option<u16>); 18] = [
        ("80", Some(80)),
        ("0", Some(0)),
        ("65535", Some(65535)),
        ("65536", None),
        ("+443", Some(443)),
        ("00080", Some(80)),
        ("000000000000000000000000065535", Some(65535)),
        ("99999999999999999999999999", None),
        ("", None),
        ("+", None),
        ("-", None),
        ("-1", None),
        ("++1", None),
        ("8 0", None),
        (" 80", None),
        ("80 ", None),
        ("0x50", None),
        ("\u{661}", None),
    ];
    for (text, expected) in cases {
        assert_eq!(parse_port(text), expected, "{:?}", text);
    }
}

#[test]
fn address_and_port_are_read() {
    assert_eq!(
        parse_arg_list(&words(&["ping", "-4", "10.0.0.1", "-p", "8080"])),
        Ok(Target { address: IpAddress::V4(0x0a00_0001), port: 8080 })
    );
    assert_eq!(
        parse_arg_list(&words(&["ping", "-p", "22", "-6", "::1"])),
        Ok(Target { address: IpAddress::V6(1), port: 22 })
    );
}

#[test]
fn defaults_are_local_host_and_port_80() {
    assert_eq!(
        parse_arg_list(&words(&["ping", "a", "b", "c", "d"])),
        Ok(Target { address: IpAddress::V4(0x7f00_0001), port: 80 })
    );
    assert_eq!(
        parse_arg_list(&words(&["ping", "-x", "-p", "81", "more"])),
        Ok(Target { address: IpAddress::V4(0x7f00_0001), port: 81 })
    );
}

#[test]
fn later_words_win() {
    assert_eq!(
        parse_arg_list(&words(&["ping", "-4", "1.1.1.1", "-6", "::2", "-p", "1", "-p", "2"])),
        Ok(Target { address: IpAddress::V6(2), port: 2 })
    );
}

#[test]
fn a_value_is_not_read_as_an_option() {
    assert_eq!(
        parse_arg_list(&words(&["ping", "-p", "-4", "1.2.3.4", "x"])),
        Err(ConfigError::InvalidPort { text: "-4".to_string() })
    );
}

#[test]
fn too_few_words() {
    assert_eq!(parse_arg_list(&words(&[])), Err(ConfigError::TooFewArguments));
    assert_eq!(
        parse_arg_list(&words(&["ping", "-4", "1.2.3.4", "-p"])),
        Err(ConfigError::TooFewArguments)
    );
}

#[test]
fn bad_values() {
    assert_eq!(
        parse_arg_list(&words(&["ping", "-4", "::1", "-p", "80"])),
        Err(ConfigError::InvalidAddress { host: "::1".to_string(), family: Family::V4 })
    );
    assert_eq!(
        parse_arg_list(&words(&["ping", "-6", "1.2.3.4", "-p", "80"])),
        Err(ConfigError::InvalidAddress { host: "1.2.3.4".to_string(), family: Family::V6 })
    );
    assert_eq!(
        parse_arg_list(&words(&["ping", "-4", "1.2.3.4", "-p", "65536"])),
        Err(ConfigError::InvalidPort { text: "65536".to_string() })
    );
}

#[test]
fn an_option_without_its_value() {
    assert_eq!(
        parse_arg_list(&words(&["ping", "-4", "1.2.3.4", "x", "-p"])),
        Err(ConfigError::MissingValue { option: "-p".to_string() })
    );
    assert_eq!(
        parse_arg_list(&words(&["ping", "x", "y", "z", "-6"])),
        Err(ConfigError::MissingValue { option: "-6".to_string() })
    );
}
