use relay_scanner::codec::format_address;
use relay_scanner::codec::parse_address;
use relay_scanner::codec::parse_or_addresses;

#[test]
fn format_ipv4_host() {
    assert_eq!(format_address("10.0.0.1", 443), "10.0.0.1:443");
}

#[test]
fn format_hostname_max_port() {
    assert_eq!(format_address("example.com", 65535), "example.com:65535");
}

#[test]
fn format_ipv6_host_is_bracketed() {
    assert_eq!(format_address("2001:db8::1", 9001), "[2001:db8::1]:9001");
}

#[test]
fn round_trip_ipv4() {
    let raw = format_address("10.0.0.1", 443);
    let parsed = parse_address(&raw);
    assert_eq!(parsed, Some(("10.0.0.1".to_string(), 443)));
}

#[test]
fn round_trip_ipv6() {
    let raw = format_address("2001:db8::1", 9001);
    let parsed = parse_address(&raw);
    assert_eq!(parsed, Some(("2001:db8::1".to_string(), 9001)));
}

#[test]
fn round_trip_port_zero() {
    let raw = format_address("host", 0);
    assert_eq!(raw, "host:0");
    assert_eq!(parse_address(&raw), Some(("host".to_string(), 0)));
}

#[test]
fn parse_bracketed_ipv6() {
    let parsed = parse_address("[2001:db8::1]:9001");
    assert_eq!(parsed, Some(("2001:db8::1".to_string(), 9001)));
}

#[test]
fn parse_rejects_missing_port() {
    assert_eq!(parse_address("no-port-here"), None);
}

#[test]
fn parse_rejects_port_too_large() {
    assert_eq!(parse_address("host:99999"), None);
}

#[test]
fn parse_rejects_empty_port() {
    assert_eq!(parse_address("host:"), None);
}

#[test]
fn parse_rejects_non_numeric_port() {
    assert_eq!(parse_address("2001:db8::beef"), None);
}

#[test]
fn parse_accepts_leading_zeros() {
    assert_eq!(parse_address("host:00443"), Some(("host".to_string(), 443)));
}

#[test]
fn parse_unbracketed_ipv6_with_port_splits_at_last_colon() {
    let parsed = parse_address("2001:db8::1:443");
    assert_eq!(parsed, Some(("2001:db8::1".to_string(), 443)));
}

#[test]
fn parse_strips_brackets_only_when_paired() {
    assert_eq!(parse_address("[host:443"), Some(("[host".to_string(), 443)));
    assert_eq!(parse_address("host]:443"), Some(("host]".to_string(), 443)));
}

#[test]
fn parse_list_keeps_order_and_drops_malformed() {
    let addrs = vec![
        "10.0.0.1:443".to_string(),
        "bogus".to_string(),
        "[2001:db8::1]:9001".to_string(),
    ];
    let parsed = parse_or_addresses(&addrs);
    assert_eq!(
        parsed,
        vec![("10.0.0.1".to_string(), 443), ("2001:db8::1".to_string(), 9001)]
    );
}
