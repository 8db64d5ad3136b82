//! Material scattering: how a ray that struck a surface is re-emitted and
//! what fraction of light survives.
//!
//! Three behaviors share one contract: Lambertian diffuse scattering,
//! specular reflection with fuzz, and dielectric refraction. Each scatter
//! call is a function of its arguments and of the draws it takes from an
//! explicitly passed random generator.

use vstd::prelude::*;
use crate::hit::HitRecord;
use crate::ray::Ray;
use crate::rng::Rng;
use crate::vec3::{
    dot, fpdiv, in_range, isqrt, lemma_isqrt_agrees, lemma_mul_bounds, lemma_tdiv_bound,
    random_in_unit_sphere, random_unit_vector, reflect, scale, spec_isqrt, spec_reflect,
    spec_sphere_pick, spec_sphere_state, spec_unit, sphere_sample, sv, sv_add, sv_dot, sv_dot_raw,
    sv_len_sq, sv_near_zero, sv_neg, sv_scale, sv_sub, tdiv, unit_sample, unit_vector, Vec3, V3,
    SCALE, UNIT_COORD,
};
use vstd::arithmetic::div_mod::{
    lemma_div_is_ordered_by_denominator, lemma_div_of0, lemma_div_pos_is_pos,
};

verus! {

/// What scattering asks of its inputs: a direction that can be normalized
/// and a hit record within coordinate range.
pub open spec fn scatter_inputs_wf(ray_in: &Ray, record: &HitRecord) -> bool {
    &&& ray_in.wf_direction()
    &&& record.wf()
}

/// The scattering contract shared by all materials. On success the
/// attenuation color and the outgoing ray are written through the two
/// `&mut` parameters and the call returns true; absorption returns false.
pub trait Material {
    /// The material's parameters admit scattering within the fixed-point
    /// ranges.
    spec fn wf(&self) -> bool;

    fn scatter(
        &self,
        ray_in: &Ray,
        record: &HitRecord,
        attenuation: &mut Vec3,
        scattered: &mut Ray,
        rng: &mut Rng,
    ) -> (is_scattered: bool)
        requires
            self.wf(),
            scatter_inputs_wf(ray_in, record),
        ensures
            final(scattered).origin == record.point,
    ;
}

/// Diffuse material: scatters toward the normal plus a random unit vector,
/// never absorbs, attenuates by its albedo.
pub struct Lambertian {
    pub albedo: Vec3,
}

/// The diffuse scatter direction for a given unit sample: normal plus
/// sample, or the normal itself when that sum is degenerate (near zero).
pub open spec fn lambertian_scatter_dir(normal: V3, u: V3) -> V3 {
    if sv_near_zero(sv_add(normal, u)) {
        normal
    } else {
        sv_add(normal, u)
    }
}

/// The diffuse scatter direction stays in the unit normal's hemisphere up
/// to the sampler's rounding allowance: its raw dot product against the
/// normal is at least -1.5e12 (that is, at least -1.5e-6 in real terms;
/// it would be non-negative with exact arithmetic). In the degenerate
/// branch the direction is the normal itself, with dot product one.
pub proof fn lemma_lambertian_hemisphere(n: V3, u: V3)
    requires
        sv_dot_raw(n, n) == (SCALE as int) * (SCALE as int),
        sv_dot_raw(u, u) <= (SCALE as int) * (SCALE as int) + 3_000_000_000_000,
    ensures
        sv_dot_raw(lambertian_scatter_dir(n, u), n) >= -1_500_000_000_000,
{
    assert(2 * (u.x * n.x) >= -(u.x * u.x + n.x * n.x)) by (nonlinear_arith);
    assert(2 * (u.y * n.y) >= -(u.y * u.y + n.y * n.y)) by (nonlinear_arith);
    assert(2 * (u.z * n.z) >= -(u.z * u.z + n.z * n.z)) by (nonlinear_arith);
    assert((n.x + u.x) * n.x == n.x * n.x + u.x * n.x) by (nonlinear_arith);
    assert((n.y + u.y) * n.y == n.y * n.y + u.y * n.y) by (nonlinear_arith);
    assert((n.z + u.z) * n.z == n.z * n.z + u.z * n.z) by (nonlinear_arith);
}

impl Lambertian {
    pub fn new(albedo: Vec3) -> (m: Lambertian)
        ensures
            m.albedo == albedo,
    {
        Lambertian { albedo: albedo }
    }
}

impl Material for Lambertian {
    open spec fn wf(&self) -> bool {
        true
    }

    fn scatter(
        &self,
        ray_in: &Ray,
        record: &HitRecord,
        attenuation: &mut Vec3,
        scattered: &mut Ray,
        rng: &mut Rng,
    ) -> (is_scattered: bool)
        ensures
            is_scattered,
            *final(attenuation) == self.albedo,
            final(scattered).direction@ == lambertian_scatter_dir(
                record.normal@,
                spec_unit(spec_sphere_pick(old(rng).state as int, 64)),
            ),
            final(rng).state as int == spec_sphere_state(old(rng).state as int, 64),
            exists|u: V3|
                unit_sample(u) && final(scattered).direction@ == lambertian_scatter_dir(
                    record.normal@,
                    u,
                ),
            sv_dot_raw(record.normal@, record.normal@) == (SCALE as int) * (SCALE as int)
                ==> sv_dot_raw(final(scattered).direction@, record.normal@)
                >= -1_500_000_000_000,
    {
        let ru = random_unit_vector(rng);
        let mut direction = record.normal.add(ru);
        if direction.near_zero() {
            direction = record.normal;
        }
        *scattered = Ray::new(record.point, direction);
        *attenuation = self.albedo;
        proof {
            assert(unit_sample(ru@) && direction@ == lambertian_scatter_dir(record.normal@, ru@));
            if sv_dot_raw(record.normal@, record.normal@) == (SCALE as int) * (SCALE as int) {
                lemma_lambertian_hemisphere(record.normal@, ru@);
            }
        }
        true
    }
}

/// Specular material: reflects the incoming direction and perturbs it by
/// `fuzz` times a random point in the unit sphere; absorbs when the
/// perturbed direction points into the surface.
pub struct Metal {
    pub albedo: Vec3,
    pub fuzz: i64,
}

/// Fuzz as stored: inputs above one are capped to one at construction.
pub open spec fn spec_clamp_fuzz(f: int) -> int {
    if f < SCALE as int {
        f
    } else {
        SCALE as int
    }
}

impl Metal {
    /// The lower bound on `fuzz` is a machine limit of the fixed-point
    /// perturbation arithmetic; values above one are capped, never
    /// rejected.
    pub fn new(albedo: Vec3, fuzz: i64) -> (m: Metal)
        requires
            -SCALE <= fuzz,
        ensures
            m.albedo == albedo,
            m.fuzz as int == spec_clamp_fuzz(fuzz as int),
    {
        let f = if fuzz < SCALE {
            fuzz
        } else {
            SCALE
        };
        Metal { albedo: albedo, fuzz: f }
    }
}

impl Material for Metal {
    open spec fn wf(&self) -> bool {
        -SCALE <= self.fuzz <= SCALE
    }

    fn scatter(
        &self,
        ray_in: &Ray,
        record: &HitRecord,
        attenuation: &mut Vec3,
        scattered: &mut Ray,
        rng: &mut Rng,
    ) -> (is_scattered: bool)
        ensures
            *final(attenuation) == self.albedo,
            final(scattered).direction@ == sv_add(
                spec_reflect(spec_unit(ray_in.direction@), record.normal@),
                sv_scale(self.fuzz as int, spec_sphere_pick(old(rng).state as int, 64)),
            ),
            final(rng).state as int == spec_sphere_state(old(rng).state as int, 64),
            exists|p: V3|
                sphere_sample(p) && final(scattered).direction@ == sv_add(
                    spec_reflect(spec_unit(ray_in.direction@), record.normal@),
                    sv_scale(self.fuzz as int, p),
                ),
            is_scattered == (sv_dot(final(scattered).direction@, record.normal@) > 0),
            self.fuzz == 0 ==> final(scattered).direction@ == spec_reflect(
                spec_unit(ray_in.direction@),
                record.normal@,
            ),
    {
        let unit_dir = unit_vector(ray_in.direction);
        let reflected = reflect(unit_dir, record.normal);
        let p = random_in_unit_sphere(rng);
        let fuzzed = scale(self.fuzz, p);
        let direction = reflected.add(fuzzed);
        *scattered = Ray::new(record.point, direction);
        *attenuation = self.albedo;
        let d = dot(direction, record.normal);
        proof {
            assert(sphere_sample(p@) && direction@ == sv_add(
                spec_reflect(spec_unit(ray_in.direction@), record.normal@),
                sv_scale(self.fuzz as int, p@),
            ));
            if self.fuzz == 0 {
                assert(0 * p@.x == 0 && 0 * p@.y == 0 && 0 * p@.z == 0);
                lemma_div_of0(SCALE as int);
                assert(sv_scale(0, p@) == sv(0, 0, 0));
                assert(direction@ == reflected@);
            }
        }
        d > 0
    }
}

/// Refractive material: bends the incoming direction by Snell's law; glass
/// does not tint light, so the attenuation is always one per channel. This
/// model has no total-internal-reflection fallback and no reflectance
/// approximation, deliberately.
pub struct Dialectric {
    pub refraction_index: i64,
}

/// Refraction ratio across the boundary: the inverse index when the ray
/// enters the medium from outside, the index itself when it leaves.
pub open spec fn spec_ratio(ri: int, front_face: bool) -> int {
    if front_face {
        tdiv((SCALE as int) * (SCALE as int), ri)
    } else {
        ri
    }
}

impl Dialectric {
    /// The data model asks for a positive refraction index; the bounds are
    /// the machine limits of the fixed-point ratio arithmetic (indices
    /// between one hundredth and one hundred).
    pub fn new(refraction_index: i64) -> (m: Dialectric)
        requires
            SCALE / 100 <= refraction_index <= 100 * SCALE,
        ensures
            m.refraction_index == refraction_index,
    {
        Dialectric { refraction_index: refraction_index }
    }
}

impl Material for Dialectric {
    open spec fn wf(&self) -> bool {
        SCALE / 100 <= self.refraction_index <= 100 * SCALE
    }

    fn scatter(
        &self,
        ray_in: &Ray,
        record: &HitRecord,
        attenuation: &mut Vec3,
        scattered: &mut Ray,
        rng: &mut Rng,
    ) -> (is_scattered: bool)
        ensures
            is_scattered,
            (*final(attenuation))@ == sv(SCALE as int, SCALE as int, SCALE as int),
            final(scattered).direction@ == spec_refract(
                spec_unit(ray_in.direction@),
                record.normal@,
                spec_ratio(self.refraction_index as int, record.front_face),
            ),
            final(rng).state == old(rng).state,
    {
        *attenuation = Vec3::new(SCALE, SCALE, SCALE);
        let refraction_ratio: i64 = if record.front_face {
            proof {
                lemma_div_pos_is_pos(1_000_000_000_000_000_000int, self.refraction_index as int);
                lemma_div_is_ordered_by_denominator(
                    1_000_000_000_000_000_000int,
                    10_000_000int,
                    self.refraction_index as int,
                );
                lemma_div_is_ordered_by_denominator(
                    1_000_000_000_000_000_000int,
                    self.refraction_index as int,
                    100_000_000_000int,
                );
            }
            fpdiv(1_000_000_000_000_000_000i128, self.refraction_index as i128)
        } else {
            self.refraction_index
        };
        let unit_direction = unit_vector(ray_in.direction);
        let refracted = refract(unit_direction, record.normal, refraction_ratio);
        *scattered = Ray::new(record.point, refracted);
        true
    }
}

/// Any two fuzz inputs at or above one construct the same stored
/// parameter; since scattering reads only the stored fields, the two
/// metals behave identically.
pub proof fn lemma_fuzz_clamp(f1: int, f2: int)
    requires
        SCALE as int <= f1,
        SCALE as int <= f2,
    ensures
        spec_clamp_fuzz(f1) == spec_clamp_fuzz(f2),
{
}

/// The perpendicular part of a refraction carried exactly, before any
/// rounding: `uv + dot(-uv, n) * n`, with each component holding an extra
/// factor of `SCALE * SCALE`.
pub open spec fn refract_perp_raw(uv: V3, n: V3) -> V3 {
    let c = -sv_dot_raw(uv, n);
    let s2 = (SCALE as int) * (SCALE as int);
    sv(s2 * uv.x + c * n.x, s2 * uv.y + c * n.y, s2 * uv.z + c * n.z)
}

/// For a unit normal the perpendicular part of the refraction is exactly
/// orthogonal to the normal.
pub proof fn lemma_refract_perp_orthogonal(uv: V3, n: V3)
    requires
        sv_dot_raw(n, n) == (SCALE as int) * (SCALE as int),
    ensures
        sv_dot_raw(refract_perp_raw(uv, n), n) == 0,
{
    let s2 = (SCALE as int) * (SCALE as int);
    let c = -sv_dot_raw(uv, n);
    assert((s2 * uv.x + c * n.x) * n.x == s2 * (uv.x * n.x) + c * (n.x * n.x)) by (nonlinear_arith);
    assert((s2 * uv.y + c * n.y) * n.y == s2 * (uv.y * n.y) + c * (n.y * n.y)) by (nonlinear_arith);
    assert((s2 * uv.z + c * n.z) * n.z == s2 * (uv.z * n.z) + c * (n.z * n.z)) by (nonlinear_arith);
    assert(s2 * (uv.x * n.x) + s2 * (uv.y * n.y) + s2 * (uv.z * n.z) == s2 * (uv.x * n.x + uv.y
        * n.y + uv.z * n.z)) by (nonlinear_arith);
    assert(c * (n.x * n.x) + c * (n.y * n.y) + c * (n.z * n.z) == c * (n.x * n.x + n.y * n.y + n.z
        * n.z)) by (nonlinear_arith);
    assert(s2 * -c + c * s2 == 0) by (nonlinear_arith);
}

/// Pythagoras for the refracted direction: subtracting a multiple of the
/// normal from a vector orthogonal to it adds the squared lengths.
pub proof fn lemma_refract_pythagoras(p: V3, n: V3, s: int)
    requires
        sv_dot_raw(p, n) == 0,
    ensures
        sv_dot_raw(sv_sub(p, sv(s * n.x, s * n.y, s * n.z)), sv_sub(p, sv(s * n.x, s * n.y, s
            * n.z))) == sv_dot_raw(p, p) + (s * s) * sv_dot_raw(n, n),
{
    let q = sv_sub(p, sv(s * n.x, s * n.y, s * n.z));
    assert((p.x - s * n.x) * (p.x - s * n.x) == p.x * p.x - 2 * (s * (p.x * n.x)) + (s * s) * (n.x
        * n.x)) by (nonlinear_arith);
    assert((p.y - s * n.y) * (p.y - s * n.y) == p.y * p.y - 2 * (s * (p.y * n.y)) + (s * s) * (n.y
        * n.y)) by (nonlinear_arith);
    assert((p.z - s * n.z) * (p.z - s * n.z) == p.z * p.z - 2 * (s * (p.z * n.z)) + (s * s) * (n.z
        * n.z)) by (nonlinear_arith);
    assert(s * (p.x * n.x) + s * (p.y * n.y) + s * (p.z * n.z) == s * (p.x * n.x + p.y * n.y + p.z
        * n.z)) by (nonlinear_arith);
    assert((s * s) * (n.x * n.x) + (s * s) * (n.y * n.y) + (s * s) * (n.z * n.z) == (s * s) * (n.x
        * n.x + n.y * n.y + n.z * n.z)) by (nonlinear_arith);
}

/// Unit length of the refracted direction at the exact level: whenever the
/// parallel magnitude squares to exactly what remains of the target
/// squared length, the refracted direction has exactly the target squared
/// length. With the target taken as the squared unit length in the carried
/// scale, this is the unit-length property of refraction.
pub proof fn lemma_refract_unit_exact(p: V3, n: V3, s: int, target: int)
    requires
        sv_dot_raw(p, n) == 0,
        (s * s) * sv_dot_raw(n, n) == target - sv_dot_raw(p, p),
    ensures
        sv_dot_raw(sv_sub(p, sv(s * n.x, s * n.y, s * n.z)), sv_sub(p, sv(s * n.x, s * n.y, s
            * n.z))) == target,
{
    lemma_refract_pythagoras(p, n, s);
}

/// The smaller of two integers.
pub open spec fn spec_min(a: int, b: int) -> int {
    if a < b {
        a
    } else {
        b
    }
}

/// The vector form of Snell's law over the fixed-point model, mirroring the
/// executable `refract` step for step: clamp the cosine, form the
/// perpendicular part, take the square root of the (absolute) radicand for
/// the parallel magnitude.
pub open spec fn spec_refract(uv: V3, n: V3, eta: int) -> V3 {
    let cos_theta = spec_min(sv_dot(sv_neg(uv), n), SCALE as int);
    let perp = sv_scale(eta, sv_add(uv, sv_scale(cos_theta, n)));
    let radicand = SCALE as int - sv_len_sq(perp);
    let mag = if radicand >= 0 {
        radicand
    } else {
        -radicand
    };
    let par_len = spec_isqrt(mag * SCALE as int);
    sv_sub(perp, sv_scale(par_len, n))
}

/// Refract `uv` about `normal` with refraction ratio `etai_over_etat`:
/// `cos = min(dot(-uv, normal), 1)`; perpendicular part
/// `eta * (uv + cos * normal)`; parallel part
/// `-sqrt(|1 - |perp|^2|) * normal`. The clamp and the absolute value guard
/// against overshoot near grazing angles.
pub fn refract(uv: Vec3, normal: Vec3, etai_over_etat: i64) -> (r: Vec3)
    requires
        in_range(uv@, UNIT_COORD as int),
        in_range(normal@, UNIT_COORD as int),
        0 < etai_over_etat <= 100 * SCALE,
    ensures
        r@ == spec_refract(uv@, normal@, etai_over_etat as int),
{
    let neg_uv = uv.neg();
    let d = dot(neg_uv, normal);
    proof {
        lemma_mul_bounds(neg_uv@.x, normal@.x, UNIT_COORD as int, UNIT_COORD as int);
        lemma_mul_bounds(neg_uv@.y, normal@.y, UNIT_COORD as int, UNIT_COORD as int);
        lemma_mul_bounds(neg_uv@.z, normal@.z, UNIT_COORD as int, UNIT_COORD as int);
        lemma_tdiv_bound(
            sv_dot_raw(neg_uv@, normal@),
            SCALE as int,
            12_000_000_000_000_000_000int,
        );
    }
    let cos_theta: i64 = if d < SCALE {
        d
    } else {
        SCALE
    };
    let scaled_n = scale(cos_theta, normal);
    proof {
        lemma_mul_bounds(cos_theta as int, normal@.x, 12_000_000_000int, UNIT_COORD as int);
        lemma_mul_bounds(cos_theta as int, normal@.y, 12_000_000_000int, UNIT_COORD as int);
        lemma_mul_bounds(cos_theta as int, normal@.z, 12_000_000_000int, UNIT_COORD as int);
        lemma_tdiv_bound(
            cos_theta as int * normal@.x,
            SCALE as int,
            24_000_000_000_000_000_000int,
        );
        lemma_tdiv_bound(
            cos_theta as int * normal@.y,
            SCALE as int,
            24_000_000_000_000_000_000int,
        );
        lemma_tdiv_bound(
            cos_theta as int * normal@.z,
            SCALE as int,
            24_000_000_000_000_000_000int,
        );
    }
    let inner = uv.add(scaled_n);
    let perp = scale(etai_over_etat, inner);
    proof {
        lemma_mul_bounds(etai_over_etat as int, inner@.x, 100_000_000_000int, 26_000_000_000int);
        lemma_mul_bounds(etai_over_etat as int, inner@.y, 100_000_000_000int, 26_000_000_000int);
        lemma_mul_bounds(etai_over_etat as int, inner@.z, 100_000_000_000int, 26_000_000_000int);
        lemma_tdiv_bound(
            etai_over_etat as int * inner@.x,
            SCALE as int,
            2_600_000_000_000_000_000_000int,
        );
        lemma_tdiv_bound(
            etai_over_etat as int * inner@.y,
            SCALE as int,
            2_600_000_000_000_000_000_000int,
        );
        lemma_tdiv_bound(
            etai_over_etat as int * inner@.z,
            SCALE as int,
            2_600_000_000_000_000_000_000int,
        );
    }
    let lsq = perp.length_squared();
    proof {
        lemma_mul_bounds(perp@.x, perp@.x, 2_600_000_000_000int, 2_600_000_000_000int);
        lemma_mul_bounds(perp@.y, perp@.y, 2_600_000_000_000int, 2_600_000_000_000int);
        lemma_mul_bounds(perp@.z, perp@.z, 2_600_000_000_000int, 2_600_000_000_000int);
        lemma_tdiv_bound(
            sv_dot_raw(perp@, perp@),
            SCALE as int,
            20_280_000_000_000_000_000_000_000int,
        );
    }
    let radicand: i64 = SCALE - lsq;
    let mag: i64 = if radicand >= 0 {
        radicand
    } else {
        -radicand
    };
    let par_raw: i128 = (mag as i128) * (SCALE as i128);
    proof {
        lemma_mul_bounds(mag as int, SCALE as int, 20_280_000_000_000_000int, SCALE as int);
    }
    let root: u64 = isqrt(par_raw as u128);
    proof {
        lemma_isqrt_agrees(root as int, par_raw as int);
        assert(root as int <= 5_000_000_000_000int) by (nonlinear_arith)
            requires
                0 <= root as int,
                (root as int) * (root as int) <= par_raw as int,
                (par_raw as int) <= 20_280_000_000_000_000_000_000_000int,
        ;
    }
    let par_len: i64 = root as i64;
    let par = scale(par_len, normal);
    perp.sub(par)
}

} // verus!
