//! Spacetime coordinates and the causal partial order on them.
//!
//! Spatial components are carried as IEEE-754 binary64 bit patterns, so that a
//! coordinate has one exact byte encoding. The squared Minkowski interval
//! `s^2 = (c dt)^2 - dx^2 - dy^2 - dz^2` is real arithmetic and is evaluated by
//! the caller; this module takes its sign and decides the order.

use vstd::prelude::*;

verus! {

/// A point of the shared frame: coordinate time in nanoseconds and a position
/// in meters, each spatial component as the bit pattern of a binary64 value.
#[derive(Clone, Copy, Debug, PartialEq, Eq, Structural)]
pub struct SpacetimeCoord {
    /// Nanoseconds of coordinate time.
    pub t: u128,
    /// Bit pattern of the x component in meters.
    pub x_bits: u64,
    /// Bit pattern of the y component in meters.
    pub y_bits: u64,
    /// Bit pattern of the z component in meters.
    pub z_bits: u64,
}

/// Sign of the squared Minkowski interval between two coordinates.
#[derive(Clone, Copy, Debug, PartialEq, Eq, Structural)]
pub enum Separation {
    /// `s^2 > 0`: one point lies strictly inside the other's light cone.
    Timelike,
    /// `s^2 = 0`: the points lie on each other's light cone.
    Lightlike,
    /// `s^2 < 0`: no signal at or below light speed connects the points.
    Spacelike,
}

/// Outcome of comparing two coordinates in the causal partial order.
#[derive(Clone, Copy, Debug, PartialEq, Eq, Structural)]
pub enum CausalOrder {
    Less,
    Equal,
    Greater,
    Incomparable,
}

/// The causal order of `a` relative to `b` given the sign of their interval:
/// spacelike pairs are incomparable, every other pair is ordered by
/// coordinate time.
pub open spec fn causal_order(a: SpacetimeCoord, b: SpacetimeCoord, separation: Separation) -> CausalOrder {
    if separation == Separation::Spacelike {
        CausalOrder::Incomparable
    } else if a.t < b.t {
        CausalOrder::Less
    } else if a.t > b.t {
        CausalOrder::Greater
    } else {
        CausalOrder::Equal
    }
}

impl SpacetimeCoord {
    /// The origin of the frame: time zero at position `(+0.0, +0.0, +0.0)`.
    pub fn origin() -> (c: SpacetimeCoord)
        ensures
            c.t == 0,
            c.x_bits == 0,
            c.y_bits == 0,
            c.z_bits == 0,
    {
        SpacetimeCoord { t: 0, x_bits: 0, y_bits: 0, z_bits: 0 }
    }

    /// Compares `self` with `other` in the causal partial order, given the
    /// sign of the interval between them.
    ///
    /// A timelike pair with `self.t < other.t` is `Less`; a spacelike pair is
    /// `Incomparable` whatever the times are.
    pub fn partial_compare(&self, other: &SpacetimeCoord, separation: Separation) -> (r: CausalOrder)
        ensures
            r == causal_order(*self, *other, separation),
            separation == Separation::Spacelike ==> r == CausalOrder::Incomparable,
            separation == Separation::Timelike && self.t < other.t ==> r == CausalOrder::Less,
            separation != Separation::Spacelike ==> (r == CausalOrder::Equal <==> self.t == other.t),
    {
        match separation {
            Separation::Spacelike => CausalOrder::Incomparable,
            _ => {
                if self.t < other.t {
                    CausalOrder::Less
                } else if self.t > other.t {
                    CausalOrder::Greater
                } else {
                    CausalOrder::Equal
                }
            }
        }
    }
}

} // verus!
