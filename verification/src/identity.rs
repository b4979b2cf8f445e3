//! Instance-name resolution: matching the two service flavors and extracting
//! the hardware-address fragment standing before `@`.

use vstd::prelude::*;
use vstd::string::StrSliceExecFns;
use crate::text::{has_char, first_index, lemma_first_index, contains_seq, contains_sub,
    find_char};

verus! {

/// The fully-qualified suffix of the default service flavor.
pub open spec fn default_suffix() -> Seq<char> {
    "_apple-mobdev2._tcp.local"@
}

/// The fully-qualified suffix of the pairable service flavor.
pub open spec fn pairable_suffix() -> Seq<char> {
    "_apple-pairable._tcp.local"@
}

/// The fully-qualified default service name.
pub fn default_service_name() -> (r: &'static str)
    ensures
        r@ == default_suffix(),
{
    "_apple-mobdev2._tcp.local"
}

/// The fully-qualified pairable service name.
pub fn pairable_service_name() -> (r: &'static str)
    ensures
        r@ == pairable_suffix(),
{
    "_apple-pairable._tcp.local"
}

/// The hardware-address fragment of an instance name: everything strictly
/// before the first `@`.
pub open spec fn mac_of(s: Seq<char>) -> Seq<char> {
    s.subrange(0, first_index(s, '@'))
}

/// `mac_of` is the substring strictly before the first `@`: for any index `i`
/// holding `@` with none before it, the fragment is exactly the prefix up to
/// `i`.
pub proof fn lemma_mac_before_first_at(name: Seq<char>, i: int)
    requires
        0 <= i < name.len(),
        name[i] == '@',
        forall|j: int| 0 <= j < i ==> name[j] != '@',
    ensures
        mac_of(name) == name.subrange(0, i),
{
    assert(has_char(name, '@'));
    lemma_first_index(name, '@');
    let fi = first_index(name, '@');
    if fi < i {
        assert(name[fi] == '@');
        assert(false);
    }
    if fi > i {
        assert(name[i] != '@');
        assert(false);
    }
}

/// An identity fragment resolved from one instance name.
#[derive(Debug)]
pub struct ParsedIdentity {
    pub mac: String,
    pub pairable: bool,
}

/// The identity an instance name yields, if any: the name must hold `@` and
/// one of the two flavor suffixes; the pairable flavor wins when both occur.
pub open spec fn identity_of(name: Seq<char>) -> Option<(Seq<char>, bool)> {
    if has_char(name, '@') && contains_seq(name, pairable_suffix()) {
        Some((mac_of(name), true))
    } else if has_char(name, '@') && contains_seq(name, default_suffix()) {
        Some((mac_of(name), false))
    } else {
        None
    }
}

/// Resolves a DNS-SD instance name against the two service flavors.  An
/// identity comes out exactly for names that hold `@` and one of the two
/// suffixes; its `pairable` flag is true if and only if the pairable suffix
/// matched.
pub fn resolve_instance_name(name: &str) -> (r: Option<ParsedIdentity>)
    ensures
        match r {
            Some(id) => identity_of(name@) == Some((id.mac@, id.pairable)),
            None => identity_of(name@) is None,
        },
        !has_char(name@, '@') ==> r is None,
        r is Some ==> r.unwrap().pairable == contains_seq(name@, pairable_suffix()),
{
    let at = match find_char(name, '@') {
        Some(i) => i,
        None => {
            return None;
        },
    };
    proof {
        lemma_first_index(name@, '@');
    }
    let pairable = contains_sub(name, pairable_service_name());
    if !pairable && !contains_sub(name, default_service_name()) {
        return None;
    }
    let mac = name.substring_char(0, at).to_owned();
    assert(mac@ == mac_of(name@));
    Some(ParsedIdentity { mac, pairable })
}

/// Extracts the identity from a push-style advertisement.  The flavor is
/// already fixed by the subscription that yielded the advertisement, so only
/// the presence of `@` is tested; the fragment before the first `@` is the
/// hardware address.
pub fn push_identity(name: &str, pairable_flavor: bool) -> (r: Option<ParsedIdentity>)
    ensures
        match r {
            Some(id) => has_char(name@, '@') && id.mac@ == mac_of(name@) && id.pairable
                == pairable_flavor,
            None => !has_char(name@, '@'),
        },
{
    let at = match find_char(name, '@') {
        Some(i) => i,
        None => {
            return None;
        },
    };
    proof {
        lemma_first_index(name@, '@');
    }
    let mac = name.substring_char(0, at).to_owned();
    assert(mac@ == mac_of(name@));
    Some(ParsedIdentity { mac, pairable: pairable_flavor })
}

} // verus!
