use vstd::prelude::*;

verus! {

/// Bit pattern of positive infinity; every finite non-negative double lies below it.
pub const INFINITY_BITS: u64 = 0x7FF0_0000_0000_0000;

/// Bit pattern of negative zero.
pub const NEGATIVE_ZERO_BITS: u64 = 0x8000_0000_0000_0000;

/// A point on the simulation timeline, held as the IEEE-754 bit pattern of a double.
/// Build one with `from_bits`, which stores negative zero as positive zero so that equal
/// instants have equal bits; a raw negative-zero pattern counts as a negative time.
#[derive(Clone, Copy, Debug, PartialEq, Eq, Structural)]
pub struct SimTime {
    pub bits: u64,
}

impl SimTime {
    /// The instant is a finite, non-negative double.
    pub open spec fn valid(self) -> bool {
        self.bits < INFINITY_BITS
    }

    /// For a valid instant `self`: `self <= d` as doubles. Finite non-negative doubles are
    /// ordered as their bit patterns; a negative or NaN deadline admits none of them.
    pub open spec fn at_or_before(self, d: SimTime) -> bool {
        d.bits <= INFINITY_BITS && self.bits <= d.bits
    }

    /// For a valid instant `self`: `self < d` as doubles.
    pub open spec fn before(self, d: SimTime) -> bool {
        d.bits <= INFINITY_BITS && self.bits < d.bits
    }

    /// Builds an instant from the bit pattern of a double (`f64::to_bits`).
    pub fn from_bits(bits: u64) -> (r: SimTime)
        ensures
            r.bits == (if bits == NEGATIVE_ZERO_BITS { 0 } else { bits }),
    {
        if bits == NEGATIVE_ZERO_BITS {
            SimTime { bits: 0 }
        } else {
            SimTime { bits }
        }
    }

    /// The instant zero, where every engine's clock starts.
    pub fn zero() -> (r: SimTime)
        ensures
            r.bits == 0,
            r.valid(),
    {
        SimTime { bits: 0 }
    }

    /// The bit pattern of the double this instant stands for.
    pub fn to_bits(&self) -> (r: u64)
        ensures
            r == self.bits,
    {
        self.bits
    }

    pub fn is_valid(&self) -> (r: bool)
        ensures
            r == self.valid(),
    {
        self.bits < INFINITY_BITS
    }

    pub fn is_at_or_before(&self, d: &SimTime) -> (r: bool)
        ensures
            r == self.at_or_before(*d),
    {
        d.bits <= INFINITY_BITS && self.bits <= d.bits
    }

    pub fn is_before(&self, d: &SimTime) -> (r: bool)
        ensures
            r == self.before(*d),
    {
        d.bits <= INFINITY_BITS && self.bits < d.bits
    }
}

} // verus!
