//! The divisor of the approximate coordinate strategy.
use vstd::prelude::*;

verus! {

/// A divisor that is always one: the approximate strategy stores its
/// coordinates as they are. Units can be multiplied and divided, which
/// gives the unit again; they have no sum, difference or remainder.
#[derive(Debug, Clone, Copy, Default, PartialEq, Eq, Structural, PartialOrd)]
pub struct Unit;

impl Unit {
    /// Returns one, the only unit.
    pub fn one() -> (r: Unit)
        ensures
            r == Unit,
    {
        Unit
    }

    /// The product of two units.
    pub fn mul(self, rhs: Unit) -> (r: Unit)
        ensures
            r == Unit,
    {
        Unit
    }

    /// The quotient of two units.
    pub fn div(self, rhs: Unit) -> (r: Unit)
        ensures
            r == Unit,
    {
        Unit
    }
}

} // verus!
