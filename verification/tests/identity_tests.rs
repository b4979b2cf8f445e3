use mdns_discovery::identity::{resolve_instance_name, push_identity};

#[test]
fn mac_is_prefix_before_first_at() {
    let id = resolve_instance_name("AA:BB:CC@_apple-mobdev2._tcp.local").unwrap();
    assert_eq!(id.mac, "AA:BB:CC");
    assert!(!id.pairable);
}

#[test]
fn mac_stops_at_first_at_of_several() {
    let id = resolve_instance_name("AA@BB@_apple-mobdev2._tcp.local").unwrap();
    assert_eq!(id.mac, "AA");
}

#[test]
fn name_without_at_yields_no_identity() {
    assert!(resolve_instance_name("NOMAC_apple-mobdev2._tcp.local").is_none());
}

#[test]
fn name_with_wrong_suffix_yields_no_identity() {
    assert!(resolve_instance_name("AA:BB:CC@_other-service._tcp.local").is_none());
}

#[test]
fn pairable_iff_pairable_suffix() {
    let id = resolve_instance_name("AA:BB:CC@_apple-pairable._tcp.local").unwrap();
    assert!(id.pairable);
    assert_eq!(id.mac, "AA:BB:CC");
    let id = resolve_instance_name("AA:BB:CC@_apple-mobdev2._tcp.local").unwrap();
    assert!(!id.pairable);
}

#[test]
fn empty_mac_fragment_is_kept() {
    let id = resolve_instance_name("@_apple-mobdev2._tcp.local").unwrap();
    assert_eq!(id.mac, "");
}

#[test]
fn push_identity_uses_subscription_flavor() {
    let id = push_identity("AA:BB:CC@anything", true).unwrap();
    assert_eq!(id.mac, "AA:BB:CC");
    assert!(id.pairable);
    assert!(push_identity("no-separator", false).is_none());
}
