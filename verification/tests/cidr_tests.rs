use ipchecker::evaluate_cidr_overlap;
use ipchecker::format_address;
use ipchecker::get_network_address;
use ipchecker::networks_overlap;
use ipchecker::parse_ip_address;
use ipchecker::IpAddress;

fn addr(s: &str) -> IpAddress {
    parse_ip_address(s).unwrap()
}

#[test]
fn test_get_network_address_ipv4() {
    let ip = addr("192.168.1.100");
    let network = get_network_address(ip, 24);
    assert_eq!(format_address(&network), "192.168.1.0");

    let ip = addr("10.0.5.200");
    let network = get_network_address(ip, 16);
    assert_eq!(format_address(&network), "10.0.0.0");

    let ip = addr("172.16.32.1");
    let network = get_network_address(ip, 12);
    assert_eq!(format_address(&network), "172.16.0.0");
}

#[test]
fn test_get_network_address_ipv6() {
    let ip = addr("2001:db8:1234:5678::1");
    let network = get_network_address(ip, 64);
    assert_eq!(format_address(&network), "2001:db8:1234:5678::");

    let ip = addr("2001:db8:abcd:ef01::1");
    let network = get_network_address(ip, 32);
    assert_eq!(format_address(&network), "2001:db8::");
}

#[test]
fn test_networks_overlap_ipv4_overlapping() {
    let ip1 = addr("192.168.1.0");
    let ip2 = addr("192.168.0.0");

    // 192.168.1.0/24 is contained in 192.168.0.0/16
    let result = networks_overlap(ip1, 24, ip2, 16);
    assert!(result);

    // Test the reverse order
    let result = networks_overlap(ip2, 16, ip1, 24);
    assert!(result);
}

#[test]
fn test_networks_overlap_ipv4_same_network() {
    let ip1 = addr("192.168.1.0");
    let ip2 = addr("192.168.1.0");

    // Same network should overlap
    let result = networks_overlap(ip1, 24, ip2, 24);
    assert!(result);
}

#[test]
fn test_networks_overlap_ipv4_partial_overlap() {
    let ip1 = addr("192.168.1.0");
    let ip2 = addr("192.168.1.128");

    // 192.168.1.0/25 and 192.168.1.128/25 should not overlap
    let result = networks_overlap(ip1, 25, ip2, 25);
    assert!(!result);

    // But 192.168.1.0/24 and 192.168.1.128/25 should overlap
    let result = networks_overlap(ip1, 24, ip2, 25);
    assert!(result);
}

#[test]
fn test_networks_overlap_ipv4_no_overlap() {
    let ip1 = addr("192.168.1.0");
    let ip2 = addr("10.0.0.0");

    // Completely different networks
    let result = networks_overlap(ip1, 24, ip2, 8);
    assert!(!result);
}

#[test]
fn test_networks_overlap_ipv6_overlapping() {
    let ip1 = addr("2001:db8::");
    let ip2 = addr("2001:db8:1::");

    // 2001:db8:1::/48 is contained in 2001:db8::/32
    let result = networks_overlap(ip1, 32, ip2, 48);
    assert!(result);
}

#[test]
fn test_networks_overlap_ipv6_no_overlap() {
    let ip1 = addr("2001:db8::");
    let ip2 = addr("2002:db8::");

    // Different IPv6 networks
    let result = networks_overlap(ip1, 32, ip2, 32);
    assert!(!result);
}

#[test]
fn test_networks_overlap_different_ip_versions() {
    let ipv4 = addr("192.168.1.0");
    let ipv6 = addr("2001:db8::");

    // IPv4 and IPv6 should never overlap
    let result = networks_overlap(ipv4, 24, ipv6, 32);
    assert!(!result);

    let result = networks_overlap(ipv6, 32, ipv4, 24);
    assert!(!result);
}

#[test]
fn test_check_cidr_overlap_integration() {
    // Test with overlapping networks
    let result = evaluate_cidr_overlap("192.168.1.0/24", "192.168.0.0/16");
    assert!(result.is_ok());

    // Test with non-overlapping networks
    let result = evaluate_cidr_overlap("192.168.1.0/24", "10.0.0.0/8");
    assert!(result.is_ok());

    // Test with invalid CIDR notation
    let result = evaluate_cidr_overlap("invalid", "192.168.0.0/16");
    assert!(result.is_err());

    // Test with invalid prefix length
    let result = evaluate_cidr_overlap("192.168.1.0/33", "192.168.0.0/16");
    assert!(result.is_err());
}

#[test]
fn test_edge_cases() {
    // Test with /0 prefix (entire IP space)
    let ip1 = addr("0.0.0.0");
    let ip2 = addr("192.168.1.0");
    let result = networks_overlap(ip1, 0, ip2, 24);
    assert!(result); // /0 contains everything

    // Test with maximum prefix lengths
    let ip1 = addr("192.168.1.1");
    let ip2 = addr("192.168.1.2");
    let result = networks_overlap(ip1, 32, ip2, 32);
    assert!(!result); // /32 are individual hosts
}

#[test]
fn scenario_nested_prefixes_overlap() {
    assert_eq!(evaluate_cidr_overlap("192.168.1.0/24", "192.168.0.0/16").unwrap(), true);
    assert_eq!(evaluate_cidr_overlap("192.168.1.0/24", "192.168.1.128/25").unwrap(), true);
    assert_eq!(evaluate_cidr_overlap("2001:db8::/32", "2001:db8:1::/48").unwrap(), true);
}

#[test]
fn scenario_disjoint_blocks_do_not_overlap() {
    assert_eq!(evaluate_cidr_overlap("192.168.1.0/25", "192.168.1.128/25").unwrap(), false);
    assert_eq!(evaluate_cidr_overlap("2001:db8::/32", "2002:db8::/32").unwrap(), false);
}

#[test]
fn overlap_is_symmetric_on_samples() {
    let pairs = [
        ("10.0.0.0/8", "10.128.0.0/9"),
        ("192.168.1.0/25", "192.168.1.128/25"),
        ("2001:db8::/32", "2001:db8:1::/48"),
        ("192.168.1.0/24", "2001:db8::/32"),
    ];
    for (a, b) in pairs.iter() {
        assert_eq!(
            evaluate_cidr_overlap(a, b).unwrap(),
            evaluate_cidr_overlap(b, a).unwrap()
        );
    }
}

#[test]
fn prefix_zero_overlaps_everything_in_family() {
    assert_eq!(evaluate_cidr_overlap("255.255.255.255/0", "1.2.3.4/32").unwrap(), true);
    assert_eq!(evaluate_cidr_overlap("::/0", "ff02::1/128").unwrap(), true);
}

#[test]
fn single_host_overlap_is_equality() {
    assert_eq!(evaluate_cidr_overlap("1.2.3.4/32", "1.2.3.4/32").unwrap(), true);
    assert_eq!(evaluate_cidr_overlap("1.2.3.4/32", "1.2.3.5/32").unwrap(), false);
    assert_eq!(evaluate_cidr_overlap("2001:db8::1/128", "2001:db8::1/128").unwrap(), true);
    assert_eq!(evaluate_cidr_overlap("2001:db8::1/128", "2001:db8::2/128").unwrap(), false);
}

#[test]
fn network_address_zeroes_host_bits() {
    let ip = addr("255.255.255.255");
    assert_eq!(get_network_address(ip, 0), addr("0.0.0.0"));
    assert_eq!(get_network_address(ip, 32), ip);
    let ip6 = addr("ffff:ffff:ffff:ffff:ffff:ffff:ffff:ffff");
    assert_eq!(get_network_address(ip6, 0), addr("::"));
    assert_eq!(get_network_address(ip6, 128), ip6);
    assert_eq!(get_network_address(ip6, 64), addr("ffff:ffff:ffff:ffff::"));
}
