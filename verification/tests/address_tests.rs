use mdns_discovery::address::{normalize_address, parse_ipv4, parse_ipv6, NetworkAddress};

#[test]
fn ipv4_literal_normalizes_to_its_octets() {
    assert_eq!(
        normalize_address("10.0.0.5"),
        Ok(NetworkAddress::V4([10, 0, 0, 5]))
    );
}

#[test]
fn ipv6_literal_normalizes_to_its_groups() {
    assert_eq!(
        normalize_address("fe80::1"),
        Ok(NetworkAddress::V6([0xfe80, 0, 0, 0, 0, 0, 0, 1]))
    );
}

#[test]
fn ipv4_edge_values() {
    assert_eq!(parse_ipv4("0.0.0.0"), Some([0, 0, 0, 0]));
    assert_eq!(parse_ipv4("255.255.255.255"), Some([255, 255, 255, 255]));
    assert_eq!(parse_ipv4("192.168.1.20"), Some([192, 168, 1, 20]));
}

#[test]
fn ipv4_rejects_malformed_literals() {
    assert_eq!(parse_ipv4("256.0.0.1"), None);
    assert_eq!(parse_ipv4("1.2.3"), None);
    assert_eq!(parse_ipv4("1.2.3.4.5"), None);
    assert_eq!(parse_ipv4("01.2.3.4"), None);
    assert_eq!(parse_ipv4("1.2.3."), None);
    assert_eq!(parse_ipv4(""), None);
    assert_eq!(parse_ipv4("a.b.c.d"), None);
}

#[test]
fn ipv6_full_and_compressed_forms() {
    assert_eq!(
        parse_ipv6("1:2:3:4:5:6:7:8"),
        Some([1, 2, 3, 4, 5, 6, 7, 8])
    );
    assert_eq!(parse_ipv6("::"), Some([0; 8]));
    assert_eq!(parse_ipv6("::1"), Some([0, 0, 0, 0, 0, 0, 0, 1]));
    assert_eq!(parse_ipv6("1::"), Some([1, 0, 0, 0, 0, 0, 0, 0]));
    assert_eq!(
        parse_ipv6("2001:db8::ff00:42:8329"),
        Some([0x2001, 0xdb8, 0, 0, 0, 0xff00, 0x42, 0x8329])
    );
    assert_eq!(
        parse_ipv6("ABCD:ef01::9"),
        Some([0xabcd, 0xef01, 0, 0, 0, 0, 0, 9])
    );
}

#[test]
fn ipv6_rejects_malformed_literals() {
    assert_eq!(parse_ipv6("1:2:3:4:5:6:7"), None);
    assert_eq!(parse_ipv6("1:2:3:4:5:6:7:8:9"), None);
    assert_eq!(parse_ipv6("1:2:3:4:5:6:7:8::"), None);
    assert_eq!(parse_ipv6(":::"), None);
    assert_eq!(parse_ipv6("1::2::3"), None);
    assert_eq!(parse_ipv6("::g"), None);
    assert_eq!(parse_ipv6("12345::"), None);
    assert_eq!(parse_ipv6(":"), None);
    assert_eq!(parse_ipv6(""), None);
}

#[test]
fn malformed_literal_is_a_recoverable_error() {
    assert!(normalize_address("not-an-address").is_err());
    assert!(normalize_address("fe80::1::2").is_err());
    assert!(normalize_address("10.0.0.256").is_err());
}
