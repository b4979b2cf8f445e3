use mdns_discovery::address::NetworkAddress;
use mdns_discovery::records::{scan_records, to_ip_addr, DnsRecord, RecordData};

fn rec(name: &str, data: RecordData) -> DnsRecord {
    DnsRecord { name: String::from(name), data }
}

#[test]
fn to_ip_addr_reads_address_records_only() {
    assert_eq!(
        to_ip_addr(&rec("h", RecordData::A([1, 2, 3, 4]))),
        Some(NetworkAddress::V4([1, 2, 3, 4]))
    );
    assert_eq!(
        to_ip_addr(&rec("h", RecordData::Aaaa([0xfe80, 0, 0, 0, 0, 0, 0, 1]))),
        Some(NetworkAddress::V6([0xfe80, 0, 0, 0, 0, 0, 0, 1]))
    );
    assert_eq!(to_ip_addr(&rec("h", RecordData::Other)), None);
}

#[test]
fn identity_and_address_may_arrive_in_separate_records() {
    let records = vec![
        rec("host.local", RecordData::A([192, 168, 1, 20])),
        rec("AA:BB:CC@_apple-mobdev2._tcp.local", RecordData::Other),
    ];
    let scan = scan_records(&records);
    assert_eq!(scan.address, Some(NetworkAddress::V4([192, 168, 1, 20])));
    let id = scan.identity.unwrap();
    assert_eq!(id.mac, "AA:BB:CC");
    assert!(!id.pairable);
}

#[test]
fn last_explicit_a_record_wins() {
    let records = vec![
        rec("host.local", RecordData::Aaaa([0xfe80, 0, 0, 0, 0, 0, 0, 1])),
        rec("AA:BB:CC@_apple-pairable._tcp.local", RecordData::Other),
        rec("host.local", RecordData::A([10, 0, 0, 1])),
        rec("host.local", RecordData::A([10, 0, 0, 2])),
    ];
    let scan = scan_records(&records);
    assert_eq!(scan.address, Some(NetworkAddress::V4([10, 0, 0, 2])));
    let id = scan.identity.unwrap();
    assert_eq!(id.mac, "AA:BB:CC");
    assert!(id.pairable);
}

#[test]
fn response_without_address_yields_none() {
    let records = vec![rec("AA:BB:CC@_apple-mobdev2._tcp.local", RecordData::Other)];
    let scan = scan_records(&records);
    assert_eq!(scan.address, None);
    assert!(scan.identity.is_some());
}

#[test]
fn later_matching_name_overrides_earlier() {
    let records = vec![
        rec("host.local", RecordData::A([10, 0, 0, 1])),
        rec("AA:BB:CC@_apple-mobdev2._tcp.local", RecordData::Other),
        rec("DD:EE:FF@_apple-pairable._tcp.local", RecordData::Other),
    ];
    let scan = scan_records(&records);
    let id = scan.identity.unwrap();
    assert_eq!(id.mac, "DD:EE:FF");
    assert!(id.pairable);
}
