//! The registration gate: a registry of known devices keyed by device
//! identifier, with a transactional check-then-insert operation.

use vstd::prelude::*;
use crate::address::NetworkAddress;

verus! {

/// The fixed device-kind label given to every device registered by
/// discovery.
pub open spec fn network_kind() -> Seq<char> {
    "Network"@
}

/// One registered device.
pub struct DeviceEntry {
    pub udid: String,
    pub address: NetworkAddress,
    pub service_name: String,
    pub kind: String,
    pub pairable: bool,
}

/// True when some entry carries the identifier `udid`.
pub open spec fn has_device(entries: Seq<DeviceEntry>, udid: Seq<char>) -> bool {
    exists|i: int| 0 <= i < entries.len() && #[trigger] entries[i].udid@ == udid
}

/// What registration concludes for one advertisement.
#[derive(Clone, Copy, Debug, PartialEq, Eq, Structural)]
pub enum RegisterOutcome {
    /// Identity resolution failed; the advertisement is dropped silently.
    Discarded,
    /// The identifier is already registered; idempotent skip.
    AlreadyKnown,
    /// The device was inserted.
    Added,
}

/// The outcome owed to a resolution result, held against the known devices.
pub open spec fn gate_decision(entries: Seq<DeviceEntry>, resolved: Option<Seq<char>>)
    -> RegisterOutcome {
    match resolved {
        None => RegisterOutcome::Discarded,
        Some(u) => if has_device(entries, u) {
            RegisterOutcome::AlreadyKnown
        } else {
            RegisterOutcome::Added
        },
    }
}

/// The registry of known devices.  Entries carry pairwise distinct
/// identifiers; `register_if_new` preserves that.
pub struct DeviceRegistry {
    entries: Vec<DeviceEntry>,
}

impl View for DeviceRegistry {
    type V = Seq<DeviceEntry>;

    closed spec fn view(&self) -> Seq<DeviceEntry> {
        self.entries@
    }
}

impl DeviceRegistry {
    /// Pairwise distinct device identifiers.
    pub open spec fn wf(self) -> bool {
        forall|i: int, j: int| 0 <= i < j < self@.len() ==> #[trigger] self@[i].udid@ != #[trigger] self@[j].udid@
    }

    /// An empty registry.
    pub fn new() -> (r: DeviceRegistry)
        ensures
            r@.len() == 0,
            r.wf(),
    {
        DeviceRegistry { entries: Vec::new() }
    }

    /// How many devices are registered.
    pub fn len(&self) -> (n: usize)
        ensures
            n == self@.len(),
    {
        self.entries.len()
    }

    /// Membership test on the device identifier.
    pub fn contains(&self, udid: &String) -> (r: bool)
        ensures
            r == has_device(self@, udid@),
    {
        let n = self.entries.len();
        let mut i: usize = 0;
        while i < n
            invariant
                i <= n,
                n == self@.len(),
                forall|j: int| 0 <= j < i ==> #[trigger] self@[j].udid@ != udid@,
            decreases n - i,
        {
            if self.entries[i].udid.eq(udid) {
                assert(self@[i as int].udid@ == udid@);
                return true;
            }
            i += 1;
        }
        false
    }

    /// The entry registered under `udid`, if any, for callers that need the
    /// recorded address or flags.
    pub fn entry_for(&self, udid: &String) -> (r: Option<&DeviceEntry>)
        ensures
            match r {
                Some(e) => has_device(self@, udid@) && exists|i: int|
                    0 <= i < self@.len() && self@[i] == *e && #[trigger] self@[i].udid@ == udid@,
                None => !has_device(self@, udid@),
            },
    {
        let n = self.entries.len();
        let mut i: usize = 0;
        while i < n
            invariant
                i <= n,
                n == self@.len(),
                forall|j: int| 0 <= j < i ==> #[trigger] self@[j].udid@ != udid@,
            decreases n - i,
        {
            if self.entries[i].udid.eq(udid) {
                assert(self@[i as int].udid@ == udid@);
                return Some(&self.entries[i]);
            }
            i += 1;
        }
        None
    }

    /// Inserts a device not yet registered.  The caller has checked
    /// membership; `register_if_new` is the checked, transactional form.
    pub fn insert_network_device(
        &mut self,
        udid: String,
        address: NetworkAddress,
        service_name: String,
        kind: String,
        pairable: bool,
    )
        requires
            old(self).wf(),
            !has_device(old(self)@, udid@),
        ensures
            final(self).wf(),
            final(self)@ == old(self)@.push(
                (DeviceEntry { udid, address, service_name, kind, pairable }),
            ),
    {
        let ghost pre = self@;
        let ghost u = udid@;
        self.entries.push(DeviceEntry { udid, address, service_name, kind, pairable });
        proof {
            assert forall|i: int, j: int| 0 <= i < j < self@.len() implies #[trigger] self@[i].udid@
                != #[trigger] self@[j].udid@ by {
                if j == self@.len() - 1 {
                    assert(!(#[trigger] pre[i].udid@ == u));
                }
            }
        }
    }

    /// The registration gate, one indivisible unit of work: resolve-result
    /// in, verdict out.  A failed resolution is discarded; a known identifier
    /// is skipped; an unknown one is inserted with the service name, the
    /// fixed "Network" kind label and the pairable flag.
    pub fn register_if_new(
        &mut self,
        resolved: Option<String>,
        address: NetworkAddress,
        service_name: String,
        pairable: bool,
    ) -> (r: RegisterOutcome)
        requires
            old(self).wf(),
        ensures
            final(self).wf(),
            r == gate_decision(
                old(self)@,
                match resolved {
                    Some(u) => Some(u@),
                    None => None,
                },
            ),
            r != RegisterOutcome::Added ==> final(self)@ == old(self)@,
            r == RegisterOutcome::Added ==> resolved is Some && final(self)@.len()
                == old(self)@.len() + 1 && final(self)@.subrange(0, old(self)@.len() as int)
                == old(self)@ && final(self)@.last().udid@ == resolved.unwrap()@
                && final(self)@.last().address == address
                && final(self)@.last().service_name@ == service_name@
                && final(self)@.last().kind@ == network_kind()
                && final(self)@.last().pairable == pairable
                && has_device(final(self)@, resolved.unwrap()@),
    {
        let udid = match resolved {
            Some(u) => u,
            None => {
                return RegisterOutcome::Discarded;
            },
        };
        if self.contains(&udid) {
            return RegisterOutcome::AlreadyKnown;
        }
        let ghost u = udid@;
        let kind = "Network".to_owned();
        self.insert_network_device(udid, address, service_name, kind, pairable);
        proof {
            assert(self@.subrange(0, old(self)@.len() as int) =~= old(self)@);
            assert(self@[self@.len() - 1].udid@ == u);
            assert(has_device(self@, u));
        }
        RegisterOutcome::Added
    }
}

/// Once an advertisement has been added under an identifier, a second
/// advertisement resolving to the same identifier is skipped, never added:
/// across the two, the insertion happens at most once.
pub proof fn lemma_insert_at_most_once(
    first: Seq<DeviceEntry>,
    second: Seq<DeviceEntry>,
    udid: Seq<char>,
)
    requires
        second.len() == first.len() + 1,
        second.last().udid@ == udid,
    ensures
        gate_decision(second, Some(udid)) == RegisterOutcome::AlreadyKnown,
{
    assert(second[second.len() - 1].udid@ == udid);
    assert(has_device(second, udid));
}

} // verus!
