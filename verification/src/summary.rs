//! The summary of an instance: its numbers of days, interventions,
//! resources and scenarios, as 32-bit integers; and the sixteen bytes of
//! the identifier of a reading.
use vstd::prelude::*;

verus! {

/// The numbers of days, interventions, resources and scenarios of an
/// instance.
#[derive(Copy, Clone, Debug, PartialEq, Eq, Structural)]
pub struct MaintenanceSummary {
    ndays: u32,
    ninterventions: u32,
    nresources: u32,
    nscenarios: u32,
}

impl MaintenanceSummary {
    pub closed spec fn spec_ndays(&self) -> u32 {
        self.ndays
    }

    pub closed spec fn spec_ninterventions(&self) -> u32 {
        self.ninterventions
    }

    pub closed spec fn spec_nresources(&self) -> u32 {
        self.nresources
    }

    pub closed spec fn spec_nscenarios(&self) -> u32 {
        self.nscenarios
    }

    /// The summary of the given numbers, each kept to its 32 low bits.
    pub fn new(ndays: usize, ninterventions: usize, nresources: usize, nscenarios: usize) -> (r:
        Self)
        ensures
            r.spec_ndays() == ndays as u32,
            r.spec_ninterventions() == ninterventions as u32,
            r.spec_nresources() == nresources as u32,
            r.spec_nscenarios() == nscenarios as u32,
    {
        MaintenanceSummary {
            ndays: ndays as u32,
            ninterventions: ninterventions as u32,
            nresources: nresources as u32,
            nscenarios: nscenarios as u32,
        }
    }

    pub fn ndays(&self) -> (r: u32)
        ensures
            r == self.spec_ndays(),
    {
        self.ndays
    }

    pub fn ninterventions(&self) -> (r: u32)
        ensures
            r == self.spec_ninterventions(),
    {
        self.ninterventions
    }

    pub fn nresources(&self) -> (r: u32)
        ensures
            r == self.spec_nresources(),
    {
        self.nresources
    }

    pub fn nscenarios(&self) -> (r: u32)
        ensures
            r == self.spec_nscenarios(),
    {
        self.nscenarios
    }
}

/// The sixteen bytes of an identifier, taken from the bytes of a message:
/// its first sixteen bytes (the rest are left aside).
pub fn id_bytes(bytes: &[u8]) -> (r: [u8; 16])
    requires
        bytes@.len() >= 16,
    ensures
        r@ == bytes@.take(16),
{
    let mut r = [0u8; 16];
    let mut i: usize = 0;
    while i < 16
        invariant
            0 <= i <= 16,
            bytes@.len() >= 16,
            forall|j: int| 0 <= j < i ==> r@[j] == bytes@[j],
            r@.len() == 16,
        decreases 16 - i,
    {
        r[i] = bytes[i];
        i = i + 1;
    }
    assert(r@ =~= bytes@.take(16));
    r
}

} // verus!
