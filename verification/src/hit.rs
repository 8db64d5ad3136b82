//! Hit records: what the external intersection system reports of a
//! ray-surface hit. Materials read them and never write them.

use vstd::prelude::*;
use crate::vec3::{in_range, Vec3, MAX_COORD, UNIT_COORD};

verus! {

/// A ray-surface intersection: the hit point, the surface normal (unit
/// length, oriented against the incoming ray by the intersector), whether
/// the ray approached from outside the surface, and the parametric hit
/// distance.
#[derive(Clone, Copy, PartialEq, Eq, Structural, Debug)]
pub struct HitRecord {
    pub point: Vec3,
    pub normal: Vec3,
    pub front_face: bool,
    pub t: i64,
}

impl HitRecord {
    /// What scattering needs of a record: the point within coordinate range
    /// and the normal within the slack allowed for unit vectors.
    pub open spec fn wf(&self) -> bool {
        &&& in_range(self.point@, MAX_COORD as int)
        &&& in_range(self.normal@, UNIT_COORD as int)
    }

    pub fn new(point: Vec3, normal: Vec3, front_face: bool, t: i64) -> (r: HitRecord)
        ensures
            r.point == point,
            r.normal == normal,
            r.front_face == front_face,
            r.t == t,
    {
        HitRecord { point: point, normal: normal, front_face: front_face, t: t }
    }
}

} // verus!
