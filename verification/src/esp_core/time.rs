//! Monotonic device time.

use vstd::prelude::*;

verus! {

/// Monotonic microseconds since the device epoch.
#[derive(Debug, Clone, Copy, PartialEq, Eq, PartialOrd, Ord, Hash, Structural)]
pub struct Micros(pub u64);

impl Micros {
    /// The device epoch.
    pub fn zero() -> (r: Micros)
        ensures
            r == Micros(0),
    {
        Micros(0)
    }

    /// This instant plus `micros`, saturating.
    pub open spec fn plus(self, micros: nat) -> Micros {
        Micros(
            if self.0 + micros > u64::MAX {
                u64::MAX
            } else {
                (self.0 + micros) as u64
            },
        )
    }

    /// This instant plus `micros`, saturating.
    pub fn add_micros(self, micros: u64) -> (r: Micros)
        ensures
            r == self.plus(micros as nat),
    {
        Micros(self.0.saturating_add(micros))
    }
}

} // verus!
