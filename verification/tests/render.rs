use tcp_ping::address::{parse_address, ConfigError, Family, IpAddress, Target};
use tcp_ping::ping::{do_tcp_ping, Line, TrialResult};
use tcp_ping::render::{
    address_string, failure_line, groups_of_bits, millis, render_line, summary_line, target_string, trial_line,
};
use tcp_ping::stats::Summary;

fn v6(g: [u16; 8]) -> IpAddress {
    let mut value: u128 = 0;
    for x in g {
        value = value * 65536 + x as u128;
    }
    IpAddress::V6(value)
}

fn shown(g: [u16; 8]) -> String {
    target_string(Target { address: v6(g), port: 80 })
}

#[test]
fn latencies_have_three_decimal_places() {
    assert_eq!(millis(0), "0.000");
    assert_eq!(millis(1), "0.000");
    assert_eq!(millis(499), "0.000");
    assert_eq!(millis(500), "0.001");
    assert_eq!(millis(999), "0.001");
    assert_eq!(millis(1_000), "0.001");
    assert_eq!(millis(1_499), "0.001");
    assert_eq!(millis(1_500), "0.002");
    assert_eq!(millis(62_500), "0.063");
    assert_eq!(millis(999_499), "0.999");
    assert_eq!(millis(999_500), "1.000");
    assert_eq!(millis(1_000_000), "1.000");
    assert_eq!(millis(1_234_567), "1.235");
    assert_eq!(millis(12_345_678_901), "12345.679");
    assert_eq!(millis(10_000_000), "10.000");
    assert_eq!(millis(100_100_100), "100.100");
    assert_eq!(millis(u64::MAX), "18446744073709.552");
}

#[test]
fn trial_lines() {
    assert_eq!(trial_line(0), "TCP ping elapsed 0.000 ms");
    assert_eq!(trial_line(253_416), "TCP ping elapsed 0.253 ms");
    assert_eq!(trial_line(31_007_900), "TCP ping elapsed 31.008 ms");
    assert_eq!(
        render_line(Line::Trial { latency: 2_000_000_000 }),
        "TCP ping elapsed 2000.000 ms"
    );
}

#[test]
fn summary_lines() {
    let summary = Summary { min: 100_000, avg: 123_456, max: 1_999_999 };
    assert_eq!(summary_line(summary), "tcp ping min/avg/max = 0.100/0.123/2.000 ms");
    assert_eq!(render_line(Line::Summary { summary }), "tcp ping min/avg/max = 0.100/0.123/2.000 ms");
    let single = Summary { min: 5_000, avg: 5_000, max: 5_000 };
    assert_eq!(summary_line(single), "tcp ping min/avg/max = 0.005/0.005/0.005 ms");
}

#[test]
fn ipv4_targets() {
    let show = |bits: u32, port: u16| target_string(Target { address: IpAddress::V4(bits), port });
    assert_eq!(show(0x7f00_0001, 80), "127.0.0.1:80");
    assert_eq!(show(0, 0), "0.0.0.0:0");
    assert_eq!(show(0xffff_ffff, 65535), "255.255.255.255:65535");
    assert_eq!(show(0xc0a8_0a64, 8080), "192.168.10.100:8080");
    assert_eq!(show(0x0a00_0009, 9), "10.0.0.9:9");
}

#[test]
fn ipv6_targets() {
    assert_eq!(shown([0, 0, 0, 0, 0, 0, 0, 0]), "[::]:80");
    assert_eq!(shown([0, 0, 0, 0, 0, 0, 0, 1]), "[::1]:80");
    assert_eq!(shown([1, 0, 0, 0, 0, 0, 0, 0]), "[1::]:80");
    assert_eq!(shown([8, 9, 10, 11, 12, 13, 14, 15]), "[8:9:a:b:c:d:e:f]:80");
    assert_eq!(
        shown([0xffff, 0xffff, 0xffff, 0xffff, 0xffff, 0xffff, 0xffff, 0xffff]),
        "[ffff:ffff:ffff:ffff:ffff:ffff:ffff:ffff]:80"
    );
    assert_eq!(shown([0x2001, 0xdb8, 0, 0, 0, 0x8a2e, 0x370, 0x7334]), "[2001:db8::8a2e:370:7334]:80");
    assert_eq!(shown([0xfe80, 0, 0, 0, 0, 0, 0, 0x1]), "[fe80::1]:80");
}

#[test]
fn ipv6_gap_is_the_first_of_the_longest_runs() {
    assert_eq!(shown([1, 2, 3, 4, 5, 6, 0, 8]), "[1:2:3:4:5:6:0:8]:80");
    assert_eq!(shown([1, 0, 0, 4, 5, 0, 0, 8]), "[1::4:5:0:0:8]:80");
    assert_eq!(shown([1, 0, 0, 4, 0, 0, 0, 8]), "[1:0:0:4::8]:80");
    assert_eq!(shown([0, 0, 3, 4, 5, 6, 0, 0]), "[::3:4:5:6:0:0]:80");
    assert_eq!(shown([0, 2, 3, 4, 5, 6, 0, 0]), "[0:2:3:4:5:6::]:80");
    assert_eq!(shown([0, 2, 0, 4, 0, 6, 0, 8]), "[0:2:0:4:0:6:0:8]:80");
    assert_eq!(shown([0xae, 0, 0, 0, 0, 0xffff, 0x0102, 0x0304]), "[ae::ffff:102:304]:80");
}

#[test]
fn ipv6_mapped_addresses_end_in_a_dotted_quad() {
    assert_eq!(shown([0, 0, 0, 0, 0, 0xffff, 0xc000, 0x0280]), "[::ffff:192.0.2.128]:80");
    assert_eq!(shown([0, 0, 0, 0, 0, 0xffff, 0, 0]), "[::ffff:0.0.0.0]:80");
    assert_eq!(shown([0, 0, 0, 0, 0, 0, 0xc000, 0x0280]), "[::c000:280]:80");
    assert_eq!(shown([0, 0, 0, 0, 1, 0xffff, 0xc000, 0x0280]), "[::1:ffff:c000:280]:80");
}

#[test]
fn groups_of_an_address() {
    assert_eq!(groups_of_bits(0), vec![0, 0, 0, 0, 0, 0, 0, 0]);
    assert_eq!(groups_of_bits(u128::MAX), vec![0xffff; 8]);
    assert_eq!(
        groups_of_bits(0x0001_0002_0003_0004_0005_0006_0007_0008),
        vec![1, 2, 3, 4, 5, 6, 7, 8]
    );
}

#[test]
fn failure_lines() {
    let v4 = Target { address: IpAddress::V4(0x7f00_0001), port: 9 };
    assert_eq!(failure_line(v4), "Failed connect to 127.0.0.1:9 !");
    let v6 = Target { address: IpAddress::V6(1), port: 65000 };
    assert_eq!(failure_line(v6), "Failed connect to [::1]:65000 !");
    assert_eq!(render_line(Line::Failure { target: v6 }), "Failed connect to [::1]:65000 !");
}

#[test]
fn report_of_a_whole_series_as_text() {
    let target = Target { address: IpAddress::V4(0x7f00_0001), port: 4000 };
    let results = vec![
        TrialResult::connected(250_400),
        TrialResult::connected(0),
        TrialResult::connected(120_600),
    ];
    let report = do_tcp_ping(target, 0, 3, &results).unwrap();
    let text: Vec<String> = report.lines().into_iter().map(render_line).collect();
    assert_eq!(
        text,
        vec![
            "TCP ping elapsed 0.250 ms",
            "TCP ping elapsed 0.000 ms",
            "TCP ping elapsed 0.121 ms",
            "tcp ping min/avg/max = 0.000/0.124/0.250 ms",
        ]
    );
}

#[test]
fn shown_mean_lies_between_shown_least_and_greatest() {
    let target = Target { address: IpAddress::V4(1), port: 1 };
    let mut seed: u64 = 12345;
    let mut results = Vec::new();
    for _ in 0..50 {
        seed = seed.wrapping_mul(6364136223846793005).wrapping_add(1442695040888963407);
        results.push(TrialResult::connected(seed >> 40));
    }
    let report = do_tcp_ping(target, 1, 50, &results).unwrap();
    let line = report.lines().pop().unwrap();
    let text = render_line(line);
    let values = text
        .strip_prefix("tcp ping min/avg/max = ")
        .unwrap()
        .strip_suffix(" ms")
        .unwrap()
        .split('/')
        .map(|v| v.parse::<f64>().unwrap())
        .collect::<Vec<f64>>();
    assert_eq!(values.len(), 3);
    assert!(values[0] <= values[1] && values[1] <= values[2]);
}

#[test]
fn error_messages() {
    let host = String::from("x");
    assert_eq!(
        ConfigError::InvalidAddress { host: host.clone(), family: Family::V4 }.message(),
        "Parse IPv4 address failed."
    );
    assert_eq!(
        ConfigError::InvalidAddress { host, family: Family::V6 }.message(),
        "Parse IPv6 address failed."
    );
    assert_eq!(ConfigError::InvalidPort { text: String::new() }.message(), "Parse port failed.");
    assert_eq!(ConfigError::TooFewArguments.message(), "too few arguments");
    assert_eq!(
        ConfigError::MissingValue { option: String::from("-p") }.message(),
        "Option without a value."
    );
    assert_eq!(ConfigError::ZeroCount.message(), "Number of ping iterations is zero.");
}

#[test]
fn shown_addresses_are_read_back() {
    let mut seed: u64 = 0xfeed_beef_1234_5678;
    let mut next = || {
        seed = seed.wrapping_mul(6364136223846793005).wrapping_add(1442695040888963407);
        seed >> 16
    };
    for _ in 0..2000 {
        let bits = next() as u32;
        let address = IpAddress::V4(bits);
        assert_eq!(parse_address(&address_string(address), Family::V4), Some(address));
    }
    for _ in 0..4000 {
        let mut bits: u128 = 0;
        for _ in 0..8 {
            let r = next();
            let group = if r % 3 == 0 { 0 } else { (r >> 8) as u16 as u128 };
            bits = bits * 65536 + group;
        }
        let address = IpAddress::V6(bits);
        let text = address_string(address);
        assert_eq!(parse_address(&text, Family::V6), Some(address), "{}", text);
        let low = IpAddress::V6(bits & 0xffff_ffff_ffff);
        assert_eq!(parse_address(&address_string(low), Family::V6), Some(low));
    }
}
