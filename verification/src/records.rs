//! Poll-style record scanning: one response bundles a full record set for a
//! host, and address and identity information may arrive in separate records.

use vstd::prelude::*;
use crate::address::NetworkAddress;
use crate::identity::{ParsedIdentity, identity_of, resolve_instance_name};

verus! {

/// The payload of one DNS record, reduced to what discovery reads.
#[derive(Clone, Copy, Debug, PartialEq)]
pub enum RecordData {
    A([u8; 4]),
    Aaaa([u16; 8]),
    Other,
}

/// One DNS record of a poll-style response.
#[derive(Debug)]
pub struct DnsRecord {
    pub name: String,
    pub data: RecordData,
}

/// The address a record carries, if any.
pub open spec fn record_ip(r: DnsRecord) -> Option<NetworkAddress> {
    match r.data {
        RecordData::A(o) => Some(NetworkAddress::V4(o)),
        RecordData::Aaaa(g) => Some(NetworkAddress::V6(g)),
        RecordData::Other => None,
    }
}

/// The address of the first record that carries one.
pub open spec fn first_ip(rs: Seq<DnsRecord>) -> Option<NetworkAddress>
    decreases rs.len(),
{
    if rs.len() == 0 {
        None
    } else if record_ip(rs[0]) is Some {
        record_ip(rs[0])
    } else {
        first_ip(rs.drop_first())
    }
}

/// The octets of the last explicit A record, if any.
pub open spec fn last_a(rs: Seq<DnsRecord>) -> Option<[u8; 4]>
    decreases rs.len(),
{
    if rs.len() == 0 {
        None
    } else {
        match rs.last().data {
            RecordData::A(o) => Some(o),
            _ => last_a(rs.drop_last()),
        }
    }
}

/// The address a poll response resolves to: the last explicit A record
/// overrides; otherwise the first record carrying any address; a response
/// with no address record yields none.
pub open spec fn scan_addr(rs: Seq<DnsRecord>) -> Option<NetworkAddress> {
    match first_ip(rs) {
        None => None,
        Some(a0) => match last_a(rs) {
            Some(o) => Some(NetworkAddress::V4(o)),
            None => Some(a0),
        },
    }
}

/// The identity a poll response resolves to: that of the last record whose
/// name yields one.
pub open spec fn scan_identity(rs: Seq<DnsRecord>) -> Option<(Seq<char>, bool)>
    decreases rs.len(),
{
    if rs.len() == 0 {
        None
    } else if identity_of(rs.last().name@) is Some {
        identity_of(rs.last().name@)
    } else {
        scan_identity(rs.drop_last())
    }
}

/// Appending a record extends `first_ip` only where no earlier record
/// carried an address.
proof fn lemma_first_ip_push(rs: Seq<DnsRecord>, x: DnsRecord)
    ensures
        first_ip(rs.push(x)) == match first_ip(rs) {
            Some(a) => Some(a),
            None => record_ip(x),
        },
    decreases rs.len(),
{
    let p = rs.push(x);
    if rs.len() == 0 {
        assert(p.len() == 1);
        assert(p[0] == x);
        if record_ip(x) is Some {
            assert(first_ip(p) == record_ip(x));
        } else {
            assert(p.drop_first() =~= Seq::<DnsRecord>::empty());
            assert(first_ip(p.drop_first()) is None);
            assert(first_ip(p) is None);
        }
        assert(first_ip(rs) is None);
    } else {
        assert(p[0] == rs[0]);
        let t = rs.drop_first();
        assert(p.drop_first() =~= t.push(x));
        lemma_first_ip_push(t, x);
        if record_ip(rs[0]) is Some {
            assert(first_ip(p) == record_ip(p[0]));
            assert(first_ip(rs) == record_ip(rs[0]));
        } else {
            assert(first_ip(p) == first_ip(p.drop_first()));
            assert(first_ip(p.drop_first()) == first_ip(t.push(x)));
            assert(first_ip(rs) == first_ip(t));
        }
    }
}

/// The address a record carries, if any.
pub fn to_ip_addr(record: &DnsRecord) -> (r: Option<NetworkAddress>)
    ensures
        r == record_ip(*record),
{
    match record.data {
        RecordData::A(o) => Some(NetworkAddress::V4(o)),
        RecordData::Aaaa(g) => Some(NetworkAddress::V6(g)),
        RecordData::Other => None,
    }
}

/// What one poll response yields after its whole record set is scanned.
pub struct ScanResult {
    pub address: Option<NetworkAddress>,
    pub identity: Option<ParsedIdentity>,
}

/// Scans a full record set: the address per `scan_addr` (last explicit A
/// record wins) and the identity per `scan_identity` (last matching name
/// wins).
pub fn scan_records(records: &Vec<DnsRecord>) -> (r: ScanResult)
    ensures
        r.address == scan_addr(records@),
        match r.identity {
            Some(id) => scan_identity(records@) == Some((id.mac@, id.pairable)),
            None => scan_identity(records@) is None,
        },
{
    let n = records.len();
    let mut base: Option<NetworkAddress> = None;
    let mut override_a: Option<[u8; 4]> = None;
    let mut ident: Option<ParsedIdentity> = None;
    let mut i: usize = 0;
    while i < n
        invariant
            i <= n,
            n == records@.len(),
            base == first_ip(records@.take(i as int)),
            override_a == last_a(records@.take(i as int)),
            match ident {
                Some(id) => scan_identity(records@.take(i as int)) == Some((id.mac@, id.pairable)),
                None => scan_identity(records@.take(i as int)) is None,
            },
        decreases n - i,
    {
        proof {
            assert(records@.take(i + 1).drop_last() =~= records@.take(i as int));
            assert(records@.take(i + 1).last() == records@[i as int]);
            assert(records@.take(i as int).push(records@[i as int]) =~= records@.take(i + 1));
            lemma_first_ip_push(records@.take(i as int), records@[i as int]);
        }
        let rec = &records[i];
        if base.is_none() {
            base = to_ip_addr(rec);
        }
        match rec.data {
            RecordData::A(o) => {
                override_a = Some(o);
            },
            _ => {},
        }
        match resolve_instance_name(rec.name.as_str()) {
            Some(id) => {
                ident = Some(id);
            },
            None => {},
        }
        i += 1;
    }
    proof {
        assert(records@.take(n as int) =~= records@);
    }
    let address = match base {
        None => None,
        Some(a0) => match override_a {
            Some(o) => Some(NetworkAddress::V4(o)),
            None => Some(a0),
        },
    };
    ScanResult { address, identity: ident }
}

} // verus!
