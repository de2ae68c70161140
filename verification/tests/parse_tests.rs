use ipchecker::format_address;
use ipchecker::format_cidr;
use ipchecker::get_ip_info;
use ipchecker::parse_cidr;
use ipchecker::parse_ip_address;
use ipchecker::IpAddress;
use ipchecker::IpParseError;

#[test]
fn parse_ipv4_values() {
    assert_eq!(parse_ip_address("192.168.1.100").unwrap(), IpAddress::V4(0xc0a8_0164));
    assert_eq!(parse_ip_address("0.0.0.0").unwrap(), IpAddress::V4(0));
    assert_eq!(parse_ip_address("255.255.255.255").unwrap(), IpAddress::V4(0xffff_ffff));
}

#[test]
fn parse_ipv4_rejects_malformed_text() {
    assert!(parse_ip_address("").is_err());
    assert!(parse_ip_address("1.2.3").is_err());
    assert!(parse_ip_address("1.2.3.4.5").is_err());
    assert!(parse_ip_address("256.1.1.1").is_err());
    assert!(parse_ip_address("01.2.3.4").is_err());
    assert!(parse_ip_address("1.2.3.x").is_err());
    assert!(parse_ip_address("not-an-ip").is_err());
}

#[test]
fn parse_ipv6_values() {
    assert_eq!(parse_ip_address("::").unwrap(), IpAddress::V6(0));
    assert_eq!(parse_ip_address("::1").unwrap(), IpAddress::V6(1));
    assert_eq!(
        parse_ip_address("2001:db8::").unwrap(),
        IpAddress::V6(0x2001_0db8_0000_0000_0000_0000_0000_0000)
    );
    assert_eq!(
        parse_ip_address("1:2:3:4:5:6:7:8").unwrap(),
        IpAddress::V6(0x0001_0002_0003_0004_0005_0006_0007_0008)
    );
    assert_eq!(
        parse_ip_address("1:2:3:4:5:6:7::").unwrap(),
        IpAddress::V6(0x0001_0002_0003_0004_0005_0006_0007_0000)
    );
    assert_eq!(
        parse_ip_address("::ffff:192.168.0.1").unwrap(),
        IpAddress::V6(0xffff_c0a8_0001)
    );
    assert_eq!(
        parse_ip_address("1:2:3:4:5:6:7.8.9.10").unwrap(),
        IpAddress::V6(0x0001_0002_0003_0004_0005_0006_0708_090a)
    );
    assert_eq!(
        parse_ip_address("ABCD::ef01").unwrap(),
        IpAddress::V6(0xabcd_0000_0000_0000_0000_0000_0000_ef01)
    );
}

#[test]
fn parse_ipv6_gap_positions() {
    assert_eq!(
        parse_ip_address("1::").unwrap(),
        IpAddress::V6(0x0001_0000_0000_0000_0000_0000_0000_0000)
    );
    assert_eq!(
        parse_ip_address("::1:2:3:4:5:6:7").unwrap(),
        IpAddress::V6(0x0000_0001_0002_0003_0004_0005_0006_0007)
    );
    assert_eq!(
        parse_ip_address("1:2:3::6:7:8").unwrap(),
        IpAddress::V6(0x0001_0002_0003_0000_0000_0006_0007_0008)
    );
    assert!(parse_ip_address("::1:2:3:4:5:6:7:8").is_err());
    assert!(parse_ip_address("1:2:3:4:5:6:7:8:").is_err());
    assert!(parse_ip_address("1::2:").is_err());
    assert!(parse_ip_address(":1::2").is_err());
}

#[test]
fn parse_ipv6_rejects_malformed_text() {
    assert!(parse_ip_address(":").is_err());
    assert!(parse_ip_address(":::").is_err());
    assert!(parse_ip_address("1:2").is_err());
    assert!(parse_ip_address("1:2:3:4:5:6:7").is_err());
    assert!(parse_ip_address("1:2:3:4:5:6:7:8:9").is_err());
    assert!(parse_ip_address("1:2:3:4:5:6:7:8::").is_err());
    assert!(parse_ip_address("1::2::3").is_err());
    assert!(parse_ip_address("12345::").is_err());
    assert!(parse_ip_address("1:2:3:4:5:6:7:1.2.3.4").is_err());
    assert!(parse_ip_address("g::1").is_err());
    assert!(parse_ip_address("1.2.3.4::").is_err());
}

#[test]
fn parse_cidr_accepts_valid_notation() {
    let (ip, prefix) = parse_cidr("192.168.1.0/24").unwrap();
    assert_eq!(ip, IpAddress::V4(0xc0a8_0100));
    assert_eq!(prefix, 24);

    let (ip, prefix) = parse_cidr("2001:db8::/32").unwrap();
    assert_eq!(ip, IpAddress::V6(0x2001_0db8_0000_0000_0000_0000_0000_0000));
    assert_eq!(prefix, 32);

    // the full widths and zero are legal prefixes
    assert_eq!(parse_cidr("1.2.3.4/0").unwrap().1, 0);
    assert_eq!(parse_cidr("1.2.3.4/32").unwrap().1, 32);
    assert_eq!(parse_cidr("::1/128").unwrap().1, 128);

    // u8-style prefix numerals: a plus sign and leading zeros are accepted
    assert_eq!(parse_cidr("1.2.3.4/+24").unwrap().1, 24);
    assert_eq!(parse_cidr("1.2.3.4/024").unwrap().1, 24);
}

#[test]
fn parse_cidr_rejects_out_of_range_prefix() {
    // prefix exceeds IPv4 max of 32
    match parse_cidr("192.168.1.0/33") {
        Err(IpParseError::InvalidCidr(t)) => assert_eq!(t, "192.168.1.0/33"),
        _ => panic!("expected InvalidCidr"),
    }
    assert!(parse_cidr("::1/129").is_err());
    assert!(parse_cidr("1.2.3.4/256").is_err());
    assert!(parse_cidr("1.2.3.4/999999999999").is_err());
}

#[test]
fn parse_cidr_rejects_bad_shape() {
    match parse_cidr("192.168.1.0") {
        Err(IpParseError::InvalidCidr(t)) => assert_eq!(t, "192.168.1.0"),
        _ => panic!("expected InvalidCidr"),
    }
    assert!(parse_cidr("192.168.1.0/24/8").is_err());
    assert!(parse_cidr("192.168.1.0/").is_err());
    assert!(parse_cidr("/24").is_err());
    assert!(parse_cidr("1.2.3.4/-1").is_err());
    assert!(parse_cidr("1.2.3.4/ 24").is_err());
}

#[test]
fn parse_cidr_cites_bad_address_text() {
    // citing the original text
    match parse_cidr("not-an-ip/24") {
        Err(IpParseError::InvalidFormat(t)) => assert_eq!(t, "not-an-ip"),
        _ => panic!("expected InvalidFormat"),
    }
}

#[test]
fn error_messages_carry_the_input() {
    let e = parse_ip_address("nope").unwrap_err();
    assert_eq!(e.message(), "Invalid IP address format: nope");
    let e = parse_cidr("1.2.3.4").unwrap_err();
    assert_eq!(e.message(), "Invalid CIDR notation: 1.2.3.4");
}

#[test]
fn format_ipv4_addresses() {
    assert_eq!(format_address(&IpAddress::V4(0xc0a8_0164)), "192.168.1.100");
    assert_eq!(format_address(&IpAddress::V4(0)), "0.0.0.0");
    assert_eq!(format_address(&IpAddress::V4(0xffff_ffff)), "255.255.255.255");
}

#[test]
fn format_ipv6_addresses() {
    assert_eq!(format_address(&IpAddress::V6(0)), "::");
    assert_eq!(format_address(&IpAddress::V6(1)), "::1");
    assert_eq!(
        format_address(&IpAddress::V6(0x2001_0db8_0000_0000_0000_0000_0000_0001)),
        "2001:db8::1"
    );
    assert_eq!(
        format_address(&IpAddress::V6(0x0001_0002_0003_0004_0005_0006_0007_0008)),
        "1:2:3:4:5:6:7:8"
    );
    // the leftmost of two equally long zero runs is elided
    let ip = parse_ip_address("2001:0db8:0:0:1:0:0:1").unwrap();
    assert_eq!(format_address(&ip), "2001:db8::1:0:0:1");
    // a single zero group is not elided
    let ip = parse_ip_address("1:2:3:0:5:6:7:8").unwrap();
    assert_eq!(format_address(&ip), "1:2:3:0:5:6:7:8");
}

#[test]
fn cidr_round_trips_through_text() {
    for s in [
        "192.168.1.0/24",
        "0.0.0.0/0",
        "255.255.255.255/32",
        "10.0.0.1/8",
        "::/0",
        "::1/128",
        "2001:db8::/32",
        "2001:db8:1234:5678::1/64",
        "ff02::1/16",
    ] {
        let (ip, prefix) = parse_cidr(s).unwrap();
        let text = format_cidr(&ip, prefix);
        assert_eq!(text, s);
        let (ip2, prefix2) = parse_cidr(&text).unwrap();
        assert_eq!(ip2, ip);
        assert_eq!(prefix2, prefix);
    }
}

#[test]
fn ip_info_classifies_addresses() {
    let info = |s: &str| get_ip_info(&parse_ip_address(s).unwrap());
    assert_eq!(info("127.0.0.1"), "IPv4 Loopback");
    assert_eq!(info("127.255.255.255"), "IPv4 Loopback");
    assert_eq!(info("10.1.2.3"), "IPv4 Private");
    assert_eq!(info("172.16.0.1"), "IPv4 Private");
    assert_eq!(info("172.31.255.255"), "IPv4 Private");
    assert_eq!(info("172.32.0.0"), "IPv4 Public");
    assert_eq!(info("192.168.1.1"), "IPv4 Private");
    assert_eq!(info("224.0.0.1"), "IPv4 Multicast");
    assert_eq!(info("255.255.255.255"), "IPv4 Broadcast");
    assert_eq!(info("8.8.8.8"), "IPv4 Public");
    assert_eq!(info("::1"), "IPv6 Loopback");
    assert_eq!(info("ff02::1"), "IPv6 Multicast");
    assert_eq!(info("2001:db8::"), "IPv6");
}
