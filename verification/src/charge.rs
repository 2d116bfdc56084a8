//! Byte charges for retained map entries.
use vstd::prelude::*;

verus! {

/// The charge for one map entry of a type: sixteen times its size, as a B-tree
/// node may hold that many places for it.
pub open spec fn node_bytes<T>() -> nat {
    if 16 * vstd::layout::size_of::<T>() > usize::MAX {
        usize::MAX as nat
    } else {
        16 * vstd::layout::size_of::<T>()
    }
}

/// Compute [`node_bytes`].
pub fn node_charge<T>() -> (r: usize)
    ensures
        r == node_bytes::<T>(),
{
    match core::mem::size_of::<T>().checked_mul(16) {
        Some(bytes) => bytes,
        None => usize::MAX,
    }
}

/// A byte count as far as a machine word can hold it.
pub open spec fn clamp(bytes: nat) -> nat {
    if bytes > usize::MAX {
        usize::MAX as nat
    } else {
        bytes
    }
}

/// The bytes of some equal parts.
pub fn times(count: usize, bytes: usize) -> (r: usize)
    ensures
        r == clamp(count as nat * bytes as nat),
{
    match count.checked_mul(bytes) {
        Some(total) => total,
        None => usize::MAX,
    }
}

/// A limit on retained bytes, and what has been asked of it.
#[derive(Clone, Copy, Debug)]
pub struct Admission {
    /// The most that may be retained.
    pub limit: usize,
    /// The last admitted charge.
    pub last: usize,
    /// The highest admitted charge.
    pub peak: usize,
}

impl Admission {
    /// A limit of which nothing has been asked.
    pub fn new(limit: usize) -> (r: Self)
        ensures
            r == (Admission { limit, last: 0, peak: 0 }),
    {
        Admission { limit, last: 0, peak: 0 }
    }

    /// The admission after a charge that the limit covers.
    pub open spec fn admitting(self, charge: nat) -> Admission {
        Admission {
            limit: self.limit,
            last: charge as usize,
            peak: if charge > self.peak {
                charge as usize
            } else {
                self.peak
            },
        }
    }

    /// Whether the limit covers a charge; a charge that it covers is recorded.
    pub fn cover(&mut self, charge: usize) -> (r: bool)
        ensures
            r == (charge <= old(self).limit),
            r ==> *final(self) == old(self).admitting(charge as nat),
            !r ==> *final(self) == *old(self),
    {
        if charge > self.limit {
            return false;
        }
        self.last = charge;
        if charge > self.peak {
            self.peak = charge;
        }
        true
    }
}

} // verus!
