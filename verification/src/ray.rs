//! Rays: an origin and a direction, evaluated parametrically.

use vstd::prelude::*;
use crate::vec3::{in_range, scale, sv_add, sv_dot_raw, sv_scale, Vec3, MAX_COORD};

verus! {

/// A ray: origin point plus direction vector. The direction need not be
/// unit length; callers normalize where an algorithm requires it.
#[derive(Clone, Copy, PartialEq, Eq, Structural, Debug)]
pub struct Ray {
    pub origin: Vec3,
    pub direction: Vec3,
}

impl Ray {
    pub fn new(origin: Vec3, direction: Vec3) -> (r: Ray)
        ensures
            r.origin == origin,
            r.direction == direction,
    {
        Ray { origin: origin, direction: direction }
    }

    /// A direction a material can scatter from: within coordinate range
    /// and no shorter than a thousandth of a unit, so that normalizing it
    /// keeps the fixed-point rounding error small (the resolution's
    /// analogue of "do not normalize a zero vector").
    pub open spec fn wf_direction(&self) -> bool {
        &&& in_range(self.direction@, MAX_COORD as int)
        &&& sv_dot_raw(self.direction@, self.direction@) >= 1_000_000_000_000
    }

    /// The point reached after parameter `t` along the direction:
    /// `origin + t * direction`.
    pub fn at(&self, t: i64) -> (p: Vec3)
        requires
            -MAX_COORD <= t <= MAX_COORD,
            in_range(self.origin@, MAX_COORD as int),
            in_range(self.direction@, MAX_COORD as int),
        ensures
            p@ == sv_add(self.origin@, sv_scale(t as int, self.direction@)),
    {
        self.origin.add(scale(t, self.direction))
    }
}

} // verus!
