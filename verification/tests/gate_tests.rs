use mdns_discovery::address::NetworkAddress;
use mdns_discovery::discovery::{extract_push, Extraction};
use mdns_discovery::registry::{DeviceRegistry, RegisterOutcome};

fn extract_ready(name: &str, literal: &str, flavor: bool) -> (String, bool, NetworkAddress) {
    match extract_push(name, literal, flavor) {
        Extraction::Ready { mac, pairable, address } => (mac, pairable, address),
        _ => panic!("advertisement should be complete"),
    }
}

#[test]
fn new_device_is_inserted_once_with_its_fields() {
    let (mac, pairable, address) =
        extract_ready("AA:BB:CC@_apple-mobdev2._tcp.local", "192.168.1.20", false);
    assert_eq!(mac, "AA:BB:CC");
    assert!(!pairable);

    let mut registry = DeviceRegistry::new();
    let service_name = String::from("_apple-mobdev2._tcp.local");
    let outcome = registry.register_if_new(
        Some(String::from("UDID-1")),
        address,
        service_name,
        pairable,
    );
    assert_eq!(outcome, RegisterOutcome::Added);
    assert_eq!(registry.len(), 1);

    let entry = registry.entry_for(&String::from("UDID-1")).unwrap();
    assert_eq!(entry.udid, "UDID-1");
    assert_eq!(entry.address, NetworkAddress::V4([192, 168, 1, 20]));
    assert_eq!(entry.service_name, "_apple-mobdev2._tcp.local");
    assert_eq!(entry.kind, "Network");
    assert!(!entry.pairable);
}

#[test]
fn known_device_is_skipped_not_reinserted() {
    let mut registry = DeviceRegistry::new();
    let first = registry.register_if_new(
        Some(String::from("UDID-1")),
        NetworkAddress::V4([192, 168, 1, 20]),
        String::from("_apple-mobdev2._tcp.local"),
        false,
    );
    assert_eq!(first, RegisterOutcome::Added);

    let second = registry.register_if_new(
        Some(String::from("UDID-1")),
        NetworkAddress::V4([192, 168, 1, 21]),
        String::from("_apple-mobdev2._tcp.local"),
        false,
    );
    assert_eq!(second, RegisterOutcome::AlreadyKnown);
    assert_eq!(registry.len(), 1);
    let entry = registry.entry_for(&String::from("UDID-1")).unwrap();
    assert_eq!(entry.address, NetworkAddress::V4([192, 168, 1, 20]));
}

#[test]
fn failed_resolution_is_discarded() {
    let mut registry = DeviceRegistry::new();
    let outcome = registry.register_if_new(
        None,
        NetworkAddress::V4([10, 0, 0, 1]),
        String::from("_apple-mobdev2._tcp.local"),
        false,
    );
    assert_eq!(outcome, RegisterOutcome::Discarded);
    assert_eq!(registry.len(), 0);
}

#[test]
fn name_without_at_never_reaches_resolution() {
    match extract_push("NOMAC_apple-mobdev2._tcp.local", "192.168.1.20", false) {
        Extraction::Irrelevant => {},
        _ => panic!("a name without the separator must be ignored"),
    }
}

#[test]
fn malformed_address_skips_the_advertisement() {
    match extract_push("AA:BB:CC@_apple-mobdev2._tcp.local", "not-an-address", false) {
        Extraction::BadAddress => {},
        _ => panic!("a malformed literal must be reported"),
    }
}

#[test]
fn distinct_devices_are_both_registered() {
    let mut registry = DeviceRegistry::new();
    let a = registry.register_if_new(
        Some(String::from("UDID-1")),
        NetworkAddress::V4([10, 0, 0, 1]),
        String::from("_apple-mobdev2._tcp.local"),
        false,
    );
    let b = registry.register_if_new(
        Some(String::from("UDID-2")),
        NetworkAddress::V6([0xfe80, 0, 0, 0, 0, 0, 0, 1]),
        String::from("_apple-mobdev2._tcp.local"),
        true,
    );
    assert_eq!(a, RegisterOutcome::Added);
    assert_eq!(b, RegisterOutcome::Added);
    assert_eq!(registry.len(), 2);
    assert!(registry.contains(&String::from("UDID-2")));
    assert!(!registry.contains(&String::from("UDID-3")));
}
