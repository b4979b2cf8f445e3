//! The per-advertisement step of the discovery loop: extract identity and
//! address from what a backend yielded, before the registry is consulted.
//!
//! The loop itself runs in the surrounding program: it pulls advertisements
//! from a backend indefinitely, feeds each through an extraction below,
//! resolves the hardware address to a device identifier through the external
//! registry, and hands the result to `DeviceRegistry::register_if_new`.

use vstd::prelude::*;
use crate::address::{NetworkAddress, normalize_address, ipv4_of, ipv6_of};
use crate::identity::{mac_of, push_identity};
use crate::records::{DnsRecord, scan_addr, scan_identity, scan_records};
use crate::text::has_char;

verus! {

/// What one advertisement yields before identity resolution.
pub enum Extraction {
    /// No identity or no address in scope: the advertisement is ignored.
    Irrelevant,
    /// The name matched but the address literal fits no grammar: the
    /// advertisement is skipped rather than aborting discovery.
    BadAddress,
    /// A complete advertisement, ready for the registration gate.
    Ready { mac: String, pairable: bool, address: NetworkAddress },
}

/// Extracts from one push-style advertisement.  The subscription that
/// yielded it fixes the flavor; a name without `@` is ignored; the address
/// literal is classified by its shape and parsed.
pub fn extract_push(name: &str, address_literal: &str, pairable_flavor: bool) -> (r:
    Extraction)
    ensures
        match r {
            Extraction::Irrelevant => !has_char(name@, '@'),
            Extraction::BadAddress => has_char(name@, '@') && (if has_char(
                address_literal@,
                ':',
            ) {
                ipv6_of(address_literal@) is None
            } else {
                ipv4_of(address_literal@) is None
            }),
            Extraction::Ready { mac, pairable, address } => has_char(name@, '@') && mac@
                == mac_of(name@) && pairable == pairable_flavor && (match address {
                NetworkAddress::V4(o) => !has_char(address_literal@, ':') && ipv4_of(
                    address_literal@,
                ) == Some(o@),
                NetworkAddress::V6(g) => has_char(address_literal@, ':') && ipv6_of(
                    address_literal@,
                ) == Some(g@),
            }),
        },
{
    let id = match push_identity(name, pairable_flavor) {
        Some(id) => id,
        None => {
            return Extraction::Irrelevant;
        },
    };
    match normalize_address(address_literal) {
        Ok(address) => Extraction::Ready { mac: id.mac, pairable: id.pairable, address },
        Err(_) => Extraction::BadAddress,
    }
}

/// Extracts from one poll-style response: the whole record set is scanned,
/// and the advertisement is ignored unless it yields both an address and an
/// identity.
pub fn extract_poll(records: &Vec<DnsRecord>) -> (r: Extraction)
    ensures
        match r {
            Extraction::Irrelevant => scan_addr(records@) is None || scan_identity(records@)
                is None,
            Extraction::BadAddress => false,
            Extraction::Ready { mac, pairable, address } => scan_addr(records@)
                == Some(address) && scan_identity(records@) == Some((mac@, pairable)),
        },
{
    let scan = scan_records(records);
    match scan.address {
        Some(address) => match scan.identity {
            Some(id) => Extraction::Ready { mac: id.mac, pairable: id.pairable, address },
            None => Extraction::Irrelevant,
        },
        None => Extraction::Irrelevant,
    }
}

} // verus!
