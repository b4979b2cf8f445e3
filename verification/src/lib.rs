//! Verified core of an mDNS/DNS-SD device-discovery service.
//!
//! The library extracts a device's hardware address and network address from
//! service advertisements, normalizes backend address representations into a
//! tagged IPv4/IPv6 value, and gates device registration so that a device is
//! inserted into the registry at most once.

pub mod address;
pub mod discovery;
pub mod identity;
pub mod records;
pub mod registry;
pub mod text;
