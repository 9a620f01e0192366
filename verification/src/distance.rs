//! A distance that is either a finite amount or infinite.

use std::cmp::Ordering;
use std::ops::Add;
use vstd::prelude::*;
use vstd::std_specs::cmp::PartialOrdSpecImpl;
use vstd::std_specs::ops::AddSpecImpl;

verus! {

/// A non-negative distance, or infinity.
#[derive(Clone, Copy, Debug, PartialEq, Eq, Structural)]
pub enum Distance {
    Inf,
    Dist(u32),
}

impl Distance {
    /// The amount of a finite distance; infinity is mapped past every `u32`.
    pub open spec fn rank(self) -> int {
        match self {
            Distance::Inf => u32::MAX + 1,
            Distance::Dist(x) => x as int,
        }
    }

    /// `self <= other` in the order where infinity is above every finite value.
    pub open spec fn spec_le(self, other: Distance) -> bool {
        self.rank() <= other.rank()
    }

    /// `self < other` in the order where infinity is above every finite value.
    pub open spec fn spec_lt(self, other: Distance) -> bool {
        self.rank() < other.rank()
    }

    /// The sum of two distances: infinite as soon as one operand is, or as soon
    /// as the finite sum no longer fits in a `u32`.
    pub open spec fn spec_plus(self, other: Distance) -> Distance {
        match (self, other) {
            (Distance::Dist(x), Distance::Dist(y)) => if x + y <= u32::MAX {
                Distance::Dist((x + y) as u32)
            } else {
                Distance::Inf
            },
            _ => Distance::Inf,
        }
    }

    /// Replaces the distance by the finite amount `value`.
    pub fn set_dist(&mut self, value: u32)
        ensures
            *final(self) == Distance::Dist(value),
    {
        *self = Distance::Dist(value);
    }

    /// Three-way comparison; infinity equals itself and exceeds every finite value.
    pub fn compare(&self, other: &Distance) -> (r: Ordering)
        ensures
            r == Ordering::Less <==> self.spec_lt(*other),
            r == Ordering::Equal <==> *self == *other,
            r == Ordering::Greater <==> other.spec_lt(*self),
    {
        match (*self, *other) {
            (Distance::Inf, Distance::Inf) => Ordering::Equal,
            (Distance::Dist(_), Distance::Inf) => Ordering::Less,
            (Distance::Inf, Distance::Dist(_)) => Ordering::Greater,
            (Distance::Dist(x), Distance::Dist(y)) => if x < y {
                Ordering::Less
            } else if x == y {
                Ordering::Equal
            } else {
                Ordering::Greater
            },
        }
    }
}

impl PartialOrd for Distance {
    fn partial_cmp(&self, other: &Distance) -> (r: Option<Ordering>) {
        Some(self.compare(other))
    }
}

impl PartialOrdSpecImpl for Distance {
    open spec fn obeys_partial_cmp_spec() -> bool {
        true
    }

    open spec fn partial_cmp_spec(&self, other: &Distance) -> Option<Ordering> {
        if self.rank() < other.rank() {
            Some(Ordering::Less)
        } else if self.rank() == other.rank() {
            Some(Ordering::Equal)
        } else {
            Some(Ordering::Greater)
        }
    }
}

impl Add for Distance {
    type Output = Distance;

    fn add(self, rhs: Distance) -> (r: Distance) {
        match (self, rhs) {
            (Distance::Dist(x), Distance::Dist(y)) => match x.checked_add(y) {
                Some(z) => Distance::Dist(z),
                None => Distance::Inf,
            },
            _ => Distance::Inf,
        }
    }
}

impl AddSpecImpl for Distance {
    open spec fn obeys_add_spec() -> bool {
        true
    }

    open spec fn add_req(self, rhs: Distance) -> bool {
        true
    }

    open spec fn add_spec(self, rhs: Distance) -> Distance {
        self.spec_plus(rhs)
    }
}

} // verus!
