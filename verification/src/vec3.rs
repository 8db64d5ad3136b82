//! Three-component vectors in fixed-point arithmetic.
//!
//! A scalar is an `i64` counting multiples of `1 / SCALE`. The mathematical
//! model of a vector is `V3`, a triple of unbounded integers; every
//! executable operation states its result exactly over that model, with the
//! rounding of each division spelled out by `tdiv` (division truncating
//! toward zero).

use vstd::prelude::*;
use crate::rng::{spec_lcg_next, spec_sample, Rng};
use vstd::arithmetic::div_mod::{
    lemma_div_by_multiple, lemma_div_is_ordered, lemma_div_pos_is_pos, lemma_fundamental_div_mod,
    lemma_mod_bound,
};

verus! {

/// Number of fixed-point units per whole unit: a scalar `s: i64` stands for
/// the real number `s / SCALE`.
pub const SCALE: i64 = 1_000_000_000;

/// Components whose absolute value is below this bound (that is, below
/// `1e-8`) are treated as zero by the near-zero predicate.
pub const NEAR_ZERO_EPS: i64 = 10;

/// Bound on vector components accepted by the geometric operations; wide
/// enough for scene coordinates, tight enough that all intermediates fit
/// the machine words.
pub const MAX_COORD: i64 = 10_000_000_000_000;

/// Bound on the components of vectors that are unit length up to rounding
/// (twice `SCALE`, leaving generous slack).
pub const UNIT_COORD: i64 = 2_000_000_000;

/// Mathematical model of a vector: three unbounded integers, each counting
/// fixed-point units.
pub ghost struct V3 {
    pub x: int,
    pub y: int,
    pub z: int,
}

/// A three-component fixed-point vector; also read as a color (r, g, b).
#[derive(Clone, Copy, PartialEq, Eq, Structural, Debug)]
pub struct Vec3 {
    pub x: i64,
    pub y: i64,
    pub z: i64,
}

impl View for Vec3 {
    type V = V3;

    open spec fn view(&self) -> V3 {
        V3 { x: self.x as int, y: self.y as int, z: self.z as int }
    }
}

/// Integer division truncating toward zero (the rounding used by every
/// fixed-point operation), defined for positive divisors.
pub open spec fn tdiv(n: int, d: int) -> int {
    if n >= 0 {
        n / d
    } else {
        -((-n) / d)
    }
}

pub open spec fn sv(x: int, y: int, z: int) -> V3 {
    V3 { x: x, y: y, z: z }
}

pub open spec fn sv_add(a: V3, b: V3) -> V3 {
    sv(a.x + b.x, a.y + b.y, a.z + b.z)
}

pub open spec fn sv_sub(a: V3, b: V3) -> V3 {
    sv(a.x - b.x, a.y - b.y, a.z - b.z)
}

pub open spec fn sv_neg(a: V3) -> V3 {
    sv(-a.x, -a.y, -a.z)
}

/// Sum of the component products. When both arguments count fixed-point
/// units this is the dot product in units of `SCALE * SCALE`.
pub open spec fn sv_dot_raw(a: V3, b: V3) -> int {
    a.x * b.x + a.y * b.y + a.z * b.z
}

/// Dot product in fixed-point units.
pub open spec fn sv_dot(a: V3, b: V3) -> int {
    tdiv(sv_dot_raw(a, b), SCALE as int)
}

/// Scalar multiplication in fixed-point units.
pub open spec fn sv_scale(k: int, a: V3) -> V3 {
    sv(
        tdiv(k * a.x, SCALE as int),
        tdiv(k * a.y, SCALE as int),
        tdiv(k * a.z, SCALE as int),
    )
}

/// Cross product in fixed-point units.
pub open spec fn sv_cross(a: V3, b: V3) -> V3 {
    sv(
        tdiv(a.y * b.z - a.z * b.y, SCALE as int),
        tdiv(a.z * b.x - a.x * b.z, SCALE as int),
        tdiv(a.x * b.y - a.y * b.x, SCALE as int),
    )
}

/// Squared length in fixed-point units.
pub open spec fn sv_len_sq(a: V3) -> int {
    sv_dot(a, a)
}

pub open spec fn in_range(a: V3, bound: int) -> bool {
    &&& -bound <= a.x <= bound
    &&& -bound <= a.y <= bound
    &&& -bound <= a.z <= bound
}

/// All three components are below `1e-8` in absolute value.
pub open spec fn sv_near_zero(a: V3) -> bool {
    &&& -(NEAR_ZERO_EPS as int) < a.x < NEAR_ZERO_EPS as int
    &&& -(NEAR_ZERO_EPS as int) < a.y < NEAR_ZERO_EPS as int
    &&& -(NEAR_ZERO_EPS as int) < a.z < NEAR_ZERO_EPS as int
}

/// `r` is the integer square root of `n`.
pub open spec fn is_isqrt(r: int, n: int) -> bool {
    &&& 0 <= r
    &&& r * r <= n
    &&& n < (r + 1) * (r + 1)
}

/// The integer square root, as a total spec-level function.
pub open spec fn spec_isqrt(n: int) -> int {
    choose|r: int| is_isqrt(r, n)
}

/// Length of a vector in fixed-point units: the integer square root of the
/// raw squared length (which is in units of `SCALE * SCALE`).
pub open spec fn spec_length(v: V3) -> int {
    spec_isqrt(sv_dot_raw(v, v))
}

/// Normalization: each component is scaled up by `SCALE` and divided by the
/// fixed-point length.
pub open spec fn spec_unit(v: V3) -> V3 {
    sv(
        tdiv(v.x * SCALE as int, spec_length(v)),
        tdiv(v.y * SCALE as int, spec_length(v)),
        tdiv(v.z * SCALE as int, spec_length(v)),
    )
}

/// Mirror of `v` about the normal `n`: `v - 2 * dot(v, n) * n`, with the
/// raw dot product divided out by `SCALE * SCALE` per component.
pub open spec fn spec_reflect(v: V3, n: V3) -> V3 {
    let d = sv_dot_raw(v, n);
    let s2 = (SCALE as int) * (SCALE as int);
    sv(
        v.x - tdiv(2 * d * n.x, s2),
        v.y - tdiv(2 * d * n.y, s2),
        v.z - tdiv(2 * d * n.z, s2),
    )
}

/// The quotient of a truncating division lies within the quotient of the
/// magnitude bound.
pub proof fn lemma_tdiv_bound(n: int, d: int, m: int)
    requires
        0 < d,
        0 <= m,
        -m <= n <= m,
    ensures
        -(m / d) <= tdiv(n, d) <= m / d,
{
    if n >= 0 {
        lemma_div_is_ordered(n, m, d);
        lemma_div_pos_is_pos(n, d);
        lemma_div_pos_is_pos(m, d);
    } else {
        lemma_div_is_ordered(-n, m, d);
        lemma_div_pos_is_pos(-n, d);
        lemma_div_pos_is_pos(m, d);
    }
}

/// A truncating division is exact up to a remainder below the divisor.
pub proof fn lemma_tdiv_rem(n: int, d: int)
    requires
        0 < d,
    ensures
        -(d - 1) <= n - d * tdiv(n, d) <= d - 1,
{
    if n >= 0 {
        lemma_fundamental_div_mod(n, d);
        lemma_mod_bound(n, d);
    } else {
        lemma_fundamental_div_mod(-n, d);
        lemma_mod_bound(-n, d);
        assert(d * -((-n) / d) == -(d * ((-n) / d))) by (nonlinear_arith);
    }
}

/// The product of two bounded factors is bounded by the product of the
/// bounds.
pub proof fn lemma_mul_bounds(a: int, b: int, ca: int, cb: int)
    by (nonlinear_arith)
    requires
        0 <= ca,
        0 <= cb,
        -ca <= a <= ca,
        -cb <= b <= cb,
    ensures
        -(ca * cb) <= a * b <= ca * cb,
{
}

/// The integer square root of a given value is unique, so a witness pins
/// down `spec_isqrt`.
pub proof fn lemma_isqrt_agrees(r: int, n: int)
    requires
        is_isqrt(r, n),
    ensures
        spec_isqrt(n) == r,
{
    assert(exists|q: int| is_isqrt(q, n));
    let c = spec_isqrt(n);
    assert(is_isqrt(c, n));
    assert(c == r) by (nonlinear_arith)
        requires
            0 <= r,
            0 <= c,
            r * r <= n < (r + 1) * (r + 1),
            c * c <= n < (c + 1) * (c + 1),
    ;
}

/// Truncating division of an `i128` by a positive divisor; the workhorse of
/// the fixed-point operations.
pub(crate) fn fpdiv(n: i128, d: i128) -> (q: i64)
    requires
        0 < d,
        -170_141_183_460_469_231_731_687_303_715_884_105_727i128 <= n,
        -(i64::MAX as int) <= tdiv(n as int, d as int) <= i64::MAX as int,
    ensures
        q as int == tdiv(n as int, d as int),
{
    if n >= 0 {
        let uq: u128 = (n as u128) / (d as u128);
        proof {
            lemma_div_pos_is_pos(n as int, d as int);
        }
        uq as i64
    } else {
        let m: i128 = -n;
        let uq: u128 = (m as u128) / (d as u128);
        proof {
            lemma_div_pos_is_pos(m as int, d as int);
        }
        -(uq as i64)
    }
}

/// Integer square root by binary search.
pub(crate) fn isqrt(n: u128) -> (r: u64)
    ensures
        is_isqrt(r as int, n as int),
{
    let mut lo: u128 = 0;
    let mut hi: u128 = 0x1_0000_0000_0000_0000;
    proof {
        assert((0x1_0000_0000_0000_0000int) * (0x1_0000_0000_0000_0000int) > u128::MAX as int)
            by (nonlinear_arith);
    }
    while hi - lo > 1
        invariant
            lo < hi <= 0x1_0000_0000_0000_0000u128,
            (lo as int) * (lo as int) <= n as int,
            (hi as int) * (hi as int) > n as int,
        decreases hi - lo,
    {
        let mid = lo + (hi - lo) / 2;
        proof {
            assert((mid as int) * (mid as int) <= u128::MAX as int) by (nonlinear_arith)
                requires
                    0 <= mid as int <= 0xFFFF_FFFF_FFFF_FFFFu64 as int,
            ;
        }
        if mid * mid <= n {
            lo = mid;
        } else {
            hi = mid;
        }
    }
    lo as u64
}

impl Vec3 {
    pub fn new(x: i64, y: i64, z: i64) -> (v: Vec3)
        ensures
            v@ == sv(x as int, y as int, z as int),
    {
        Vec3 { x: x, y: y, z: z }
    }

    pub fn add(self, other: Vec3) -> (r: Vec3)
        requires
            in_range(self@, 4_000_000_000_000_000_000),
            in_range(other@, 4_000_000_000_000_000_000),
        ensures
            r@ == sv_add(self@, other@),
    {
        Vec3 { x: self.x + other.x, y: self.y + other.y, z: self.z + other.z }
    }

    pub fn sub(self, other: Vec3) -> (r: Vec3)
        requires
            in_range(self@, 4_000_000_000_000_000_000),
            in_range(other@, 4_000_000_000_000_000_000),
        ensures
            r@ == sv_sub(self@, other@),
    {
        Vec3 { x: self.x - other.x, y: self.y - other.y, z: self.z - other.z }
    }

    pub fn neg(self) -> (r: Vec3)
        requires
            in_range(self@, 4_000_000_000_000_000_000),
        ensures
            r@ == sv_neg(self@),
    {
        Vec3 { x: -self.x, y: -self.y, z: -self.z }
    }

    /// Squared length in fixed-point units.
    pub fn length_squared(&self) -> (r: i64)
        requires
            in_range(self@, MAX_COORD as int),
        ensures
            r as int == sv_len_sq(self@),
            0 <= r,
    {
        proof {
            lemma_raw_dot_self_nonneg(self@);
        }
        dot(*self, *self)
    }

    /// Length in fixed-point units: the integer square root of the raw
    /// squared length.
    pub fn length(&self) -> (r: i64)
        requires
            in_range(self@, MAX_COORD as int),
        ensures
            r as int == spec_length(self@),
            0 <= r <= 20_000_000_000_000i64,
    {
        let raw: i128 = raw_dot(*self, *self);
        proof {
            lemma_raw_dot_self_nonneg(self@);
        }
        let root: u64 = isqrt(raw as u128);
        proof {
            lemma_isqrt_agrees(root as int, raw as int);
            assert(root as int <= 20_000_000_000_000int) by (nonlinear_arith)
                requires
                    0 <= root as int,
                    (root as int) * (root as int) <= raw as int,
                    raw as int <= 300_000_000_000_000_000_000_000_000int,
            ;
        }
        root as i64
    }

    /// True when every component is below `1e-8` in absolute value, the
    /// threshold for a degenerate scatter direction.
    pub fn near_zero(&self) -> (b: bool)
        ensures
            b == sv_near_zero(self@),
    {
        -NEAR_ZERO_EPS < self.x && self.x < NEAR_ZERO_EPS
            && -NEAR_ZERO_EPS < self.y && self.y < NEAR_ZERO_EPS
            && -NEAR_ZERO_EPS < self.z && self.z < NEAR_ZERO_EPS
    }
}

/// A raw dot product of a vector with itself is a sum of squares.
proof fn lemma_raw_dot_self_nonneg(a: V3)
    ensures
        sv_dot_raw(a, a) >= 0,
{
    assert(a.x * a.x >= 0 && a.y * a.y >= 0 && a.z * a.z >= 0) by (nonlinear_arith);
}

/// Raw dot product (units of `SCALE * SCALE`), exact in an `i128`.
pub(crate) fn raw_dot(a: Vec3, b: Vec3) -> (r: i128)
    requires
        in_range(a@, MAX_COORD as int),
        in_range(b@, MAX_COORD as int),
    ensures
        r as int == sv_dot_raw(a@, b@),
        -300_000_000_000_000_000_000_000_000i128 <= r <= 300_000_000_000_000_000_000_000_000i128,
{
    proof {
        lemma_mul_bounds(a.x as int, b.x as int, MAX_COORD as int, MAX_COORD as int);
        lemma_mul_bounds(a.y as int, b.y as int, MAX_COORD as int, MAX_COORD as int);
        lemma_mul_bounds(a.z as int, b.z as int, MAX_COORD as int, MAX_COORD as int);
    }
    (a.x as i128) * (b.x as i128) + (a.y as i128) * (b.y as i128) + (a.z as i128) * (b.z as i128)
}

/// Dot product in fixed-point units.
pub fn dot(a: Vec3, b: Vec3) -> (r: i64)
    requires
        in_range(a@, MAX_COORD as int),
        in_range(b@, MAX_COORD as int),
    ensures
        r as int == sv_dot(a@, b@),
        sv_dot_raw(a@, b@) >= 0 ==> r >= 0,
{
    let raw: i128 = raw_dot(a, b);
    proof {
        lemma_tdiv_bound(raw as int, SCALE as int, 300_000_000_000_000_000_000_000_000int);
        if raw as int >= 0 {
            lemma_div_pos_is_pos(raw as int, SCALE as int);
        }
    }
    fpdiv(raw, SCALE as i128)
}

/// Scalar multiplication in fixed-point units.
pub fn scale(k: i64, v: Vec3) -> (r: Vec3)
    requires
        -MAX_COORD <= k <= MAX_COORD,
        in_range(v@, MAX_COORD as int),
    ensures
        r@ == sv_scale(k as int, v@),
        in_range(r@, 100_000_000_000_000_000int),
        (-(SCALE as int) <= k && k <= SCALE as int && in_range(v@, SCALE as int)) ==> in_range(
            r@,
            SCALE as int,
        ),
{
    proof {
        lemma_mul_bounds(k as int, v.x as int, MAX_COORD as int, MAX_COORD as int);
        lemma_mul_bounds(k as int, v.y as int, MAX_COORD as int, MAX_COORD as int);
        lemma_mul_bounds(k as int, v.z as int, MAX_COORD as int, MAX_COORD as int);
        lemma_tdiv_bound(k as int * v.x as int, SCALE as int, 100_000_000_000_000_000_000_000_000int);
        lemma_tdiv_bound(k as int * v.y as int, SCALE as int, 100_000_000_000_000_000_000_000_000int);
        lemma_tdiv_bound(k as int * v.z as int, SCALE as int, 100_000_000_000_000_000_000_000_000int);
        if -(SCALE as int) <= k as int <= SCALE as int && in_range(v@, SCALE as int) {
            lemma_mul_bounds(k as int, v.x as int, SCALE as int, SCALE as int);
            lemma_mul_bounds(k as int, v.y as int, SCALE as int, SCALE as int);
            lemma_mul_bounds(k as int, v.z as int, SCALE as int, SCALE as int);
            lemma_tdiv_bound(k as int * v.x as int, SCALE as int, 1_000_000_000_000_000_000int);
            lemma_tdiv_bound(k as int * v.y as int, SCALE as int, 1_000_000_000_000_000_000int);
            lemma_tdiv_bound(k as int * v.z as int, SCALE as int, 1_000_000_000_000_000_000int);
        }
    }
    let x = fpdiv((k as i128) * (v.x as i128), SCALE as i128);
    let y = fpdiv((k as i128) * (v.y as i128), SCALE as i128);
    let z = fpdiv((k as i128) * (v.z as i128), SCALE as i128);
    Vec3 { x: x, y: y, z: z }
}

/// Cross product in fixed-point units.
pub fn cross(a: Vec3, b: Vec3) -> (r: Vec3)
    requires
        in_range(a@, MAX_COORD as int),
        in_range(b@, MAX_COORD as int),
    ensures
        r@ == sv_cross(a@, b@),
{
    proof {
        lemma_mul_bounds(a.y as int, b.z as int, MAX_COORD as int, MAX_COORD as int);
        lemma_mul_bounds(a.z as int, b.y as int, MAX_COORD as int, MAX_COORD as int);
        lemma_mul_bounds(a.z as int, b.x as int, MAX_COORD as int, MAX_COORD as int);
        lemma_mul_bounds(a.x as int, b.z as int, MAX_COORD as int, MAX_COORD as int);
        lemma_mul_bounds(a.x as int, b.y as int, MAX_COORD as int, MAX_COORD as int);
        lemma_mul_bounds(a.y as int, b.x as int, MAX_COORD as int, MAX_COORD as int);
        lemma_tdiv_bound(
            a.y as int * b.z as int - a.z as int * b.y as int,
            SCALE as int,
            200_000_000_000_000_000_000_000_000int,
        );
        lemma_tdiv_bound(
            a.z as int * b.x as int - a.x as int * b.z as int,
            SCALE as int,
            200_000_000_000_000_000_000_000_000int,
        );
        lemma_tdiv_bound(
            a.x as int * b.y as int - a.y as int * b.x as int,
            SCALE as int,
            200_000_000_000_000_000_000_000_000int,
        );
    }
    let x = fpdiv((a.y as i128) * (b.z as i128) - (a.z as i128) * (b.y as i128), SCALE as i128);
    let y = fpdiv((a.z as i128) * (b.x as i128) - (a.x as i128) * (b.z as i128), SCALE as i128);
    let z = fpdiv((a.x as i128) * (b.y as i128) - (a.y as i128) * (b.x as i128), SCALE as i128);
    Vec3 { x: x, y: y, z: z }
}

/// Normalize `v` to unit length. The caller must pass a vector that is not
/// the zero vector.
pub fn unit_vector(v: Vec3) -> (u: Vec3)
    requires
        in_range(v@, MAX_COORD as int),
        sv_dot_raw(v@, v@) > 0,
    ensures
        u@ == spec_unit(v@),
        in_range(u@, SCALE as int),
        sv_dot_raw(v@, v@) >= 1_000_000_000_000 ==> sv_dot_raw(u@, u@) <= (SCALE as int) * (
        SCALE as int) + 3_000_000_000_000,
{
    let raw: i128 = raw_dot(v, v);
    let root: u64 = isqrt(raw as u128);
    proof {
        lemma_isqrt_agrees(root as int, raw as int);
        if root == 0 {
            assert((raw as int) < 1) by (nonlinear_arith)
                requires
                    root as int == 0,
                    (raw as int) < (root as int + 1) * (root as int + 1),
            ;
        }
        assert(root as int >= 1);
        assert(root as int <= 20_000_000_000_000int) by (nonlinear_arith)
            requires
                0 <= root as int,
                (root as int) * (root as int) <= raw as int,
                raw as int <= 300_000_000_000_000_000_000_000_000int,
        ;
        assert(-(root as int) <= v@.x <= root as int && -(root as int) <= v@.y <= root as int
            && -(root as int) <= v@.z <= root as int) by (nonlinear_arith)
            requires
                0 <= root as int,
                (raw as int) < (root as int + 1) * (root as int + 1),
                raw as int == v@.x * v@.x + v@.y * v@.y + v@.z * v@.z,
        ;
        lemma_unit_component_bound(v@.x, root as int);
        lemma_unit_component_bound(v@.y, root as int);
        lemma_unit_component_bound(v@.z, root as int);
    }
    let l: i128 = root as i128;
    let x = fpdiv((v.x as i128) * (SCALE as i128), l);
    let y = fpdiv((v.y as i128) * (SCALE as i128), l);
    let z = fpdiv((v.z as i128) * (SCALE as i128), l);
    let u = Vec3 { x: x, y: y, z: z };
    proof {
        if sv_dot_raw(v@, v@) >= 1_000_000_000_000 {
            if (root as int) < 1_000_000 {
                assert((raw as int) < 1_000_000_000_000int) by (nonlinear_arith)
                    requires
                        0 <= root as int,
                        root as int <= 999_999,
                        (raw as int) < (root as int + 1) * (root as int + 1),
                ;
            }
            lemma_unit_accuracy(v@, root as int, u@);
        }
    }
    u
}

/// For samples no shorter than a thousandth of a unit, the normalized
/// vector's raw squared length exceeds the unit value by at most the
/// stated rounding allowance.
proof fn lemma_unit_accuracy(c: V3, l: int, u: V3)
    requires
        1_000_000 <= l,
        is_isqrt(l, sv_dot_raw(c, c)),
        u.x == tdiv(c.x * SCALE as int, l),
        u.y == tdiv(c.y * SCALE as int, l),
        u.z == tdiv(c.z * SCALE as int, l),
    ensures
        sv_dot_raw(u, u) <= (SCALE as int) * (SCALE as int) + 3_000_000_000_000,
{
    let s = SCALE as int;
    let raw = sv_dot_raw(c, c);
    lemma_tdiv_shrink(c.x * s, l);
    lemma_tdiv_shrink(c.y * s, l);
    lemma_tdiv_shrink(c.z * s, l);
    lemma_sq_le(u.x * l, c.x * s);
    lemma_sq_le(u.y * l, c.y * s);
    lemma_sq_le(u.z * l, c.z * s);
    assert((u.x * l) * (u.x * l) == (l * l) * (u.x * u.x)) by (nonlinear_arith);
    assert((u.y * l) * (u.y * l) == (l * l) * (u.y * u.y)) by (nonlinear_arith);
    assert((u.z * l) * (u.z * l) == (l * l) * (u.z * u.z)) by (nonlinear_arith);
    assert((c.x * s) * (c.x * s) == (s * s) * (c.x * c.x)) by (nonlinear_arith);
    assert((c.y * s) * (c.y * s) == (s * s) * (c.y * c.y)) by (nonlinear_arith);
    assert((c.z * s) * (c.z * s) == (s * s) * (c.z * c.z)) by (nonlinear_arith);
    lemma_mul_dist3(l * l, u.x * u.x, u.y * u.y, u.z * u.z);
    lemma_mul_dist3(s * s, c.x * c.x, c.y * c.y, c.z * c.z);
    assert((l * l) * sv_dot_raw(u, u) <= (s * s) * raw);
    assert((s * s) * raw <= (s * s) * ((l + 1) * (l + 1) - 1)) by (nonlinear_arith)
        requires
            raw <= (l + 1) * (l + 1) - 1,
            0 < s,
    ;
    assert((s * s) * ((l + 1) * (l + 1) - 1) <= (s * s + 3_000_000_000_000) * (l * l))
        by (nonlinear_arith)
        requires
            1_000_000 <= l,
            s == 1_000_000_000,
    ;
    assert(sv_dot_raw(u, u) <= s * s + 3_000_000_000_000) by (nonlinear_arith)
        requires
            (l * l) * sv_dot_raw(u, u) <= (s * s + 3_000_000_000_000) * (l * l),
            1 <= l,
    ;
}

/// A truncating quotient scaled back by the divisor never passes the
/// dividend and never crosses zero.
proof fn lemma_tdiv_shrink(n: int, d: int)
    requires
        0 < d,
    ensures
        n >= 0 ==> 0 <= tdiv(n, d) * d <= n,
        n < 0 ==> n <= tdiv(n, d) * d <= 0,
{
    if n >= 0 {
        lemma_fundamental_div_mod(n, d);
        lemma_mod_bound(n, d);
        lemma_div_pos_is_pos(n, d);
        assert((n / d) * d == d * (n / d)) by (nonlinear_arith);
        assert(0 <= (n / d) * d) by (nonlinear_arith)
            requires
                0 <= n / d,
                0 < d,
        ;
    } else {
        lemma_fundamental_div_mod(-n, d);
        lemma_mod_bound(-n, d);
        lemma_div_pos_is_pos(-n, d);
        assert((-((-n) / d)) * d == -(d * ((-n) / d))) by (nonlinear_arith);
        assert(0 <= ((-n) / d) * d) by (nonlinear_arith)
            requires
                0 <= (-n) / d,
                0 < d,
        ;
        assert(((-n) / d) * d == d * ((-n) / d)) by (nonlinear_arith);
    }
}

/// Squaring preserves order on a pair bracketed on one side of zero.
proof fn lemma_sq_le(a: int, b: int)
    by (nonlinear_arith)
    requires
        (0 <= a <= b) || (b <= a <= 0),
    ensures
        a * a <= b * b,
{
}

/// A component no larger than the length, scaled by `SCALE` and divided by
/// the length, stays within `SCALE`.
proof fn lemma_unit_component_bound(c: int, l: int)
    requires
        1 <= l,
        -l <= c <= l,
    ensures
        -(SCALE as int) <= tdiv(c * SCALE as int, l) <= SCALE as int,
{
    lemma_mul_bounds(c, SCALE as int, l, SCALE as int);
    lemma_tdiv_bound(c * SCALE as int, l, l * SCALE as int);
    lemma_div_by_multiple(SCALE as int, l);
    assert(l * SCALE as int == SCALE as int * l) by (nonlinear_arith);
}

/// Mirror `v` about the unit normal `n`.
pub fn reflect(v: Vec3, n: Vec3) -> (r: Vec3)
    requires
        in_range(v@, MAX_COORD as int),
        in_range(n@, UNIT_COORD as int),
    ensures
        r@ == spec_reflect(v@, n@),
        in_range(v@, SCALE as int) ==> in_range(r@, 25_000_000_000int),
{
    proof {
        lemma_mul_bounds(v.x as int, n.x as int, MAX_COORD as int, UNIT_COORD as int);
        lemma_mul_bounds(v.y as int, n.y as int, MAX_COORD as int, UNIT_COORD as int);
        lemma_mul_bounds(v.z as int, n.z as int, MAX_COORD as int, UNIT_COORD as int);
    }
    let d: i128 = (v.x as i128) * (n.x as i128) + (v.y as i128) * (n.y as i128) + (v.z as i128)
        * (n.z as i128);
    proof {
        lemma_reflect_term_bound(v@, n@, d as int, n@.x);
        lemma_reflect_term_bound(v@, n@, d as int, n@.y);
        lemma_reflect_term_bound(v@, n@, d as int, n@.z);
    }
    let tx = fpdiv(2 * d * (n.x as i128), 1_000_000_000_000_000_000i128);
    let ty = fpdiv(2 * d * (n.y as i128), 1_000_000_000_000_000_000i128);
    let tz = fpdiv(2 * d * (n.z as i128), 1_000_000_000_000_000_000i128);
    let r = Vec3 { x: v.x - tx, y: v.y - ty, z: v.z - tz };
    proof {
        if in_range(v@, SCALE as int) {
            lemma_reflect_unit_bound(v@, n@, d as int, n@.x);
            lemma_reflect_unit_bound(v@, n@, d as int, n@.y);
            lemma_reflect_unit_bound(v@, n@, d as int, n@.z);
        }
    }
    r
}

/// Bounds for one component term of `reflect` under the general coordinate
/// bound.
proof fn lemma_reflect_term_bound(v: V3, n: V3, d: int, nc: int)
    requires
        in_range(v, MAX_COORD as int),
        in_range(n, UNIT_COORD as int),
        -UNIT_COORD as int <= nc <= UNIT_COORD as int,
        d == sv_dot_raw(v, n),
    ensures
        -240_000_000_000_000_000_000_000_000_000_000i128 as int <= 2 * d * nc
            <= 240_000_000_000_000_000_000_000_000_000_000i128 as int,
        -240_000_000_000_000i64 as int <= tdiv(2 * d * nc, 1_000_000_000_000_000_000int)
            <= 240_000_000_000_000i64 as int,
{
    lemma_mul_bounds(v.x, n.x, MAX_COORD as int, UNIT_COORD as int);
    lemma_mul_bounds(v.y, n.y, MAX_COORD as int, UNIT_COORD as int);
    lemma_mul_bounds(v.z, n.z, MAX_COORD as int, UNIT_COORD as int);
    lemma_mul_bounds(2 * d, nc, 120_000_000_000_000_000_000_000int, UNIT_COORD as int);
    lemma_tdiv_bound(
        2 * d * nc,
        1_000_000_000_000_000_000int,
        240_000_000_000_000_000_000_000_000_000_000int,
    );
}

/// The reflection of `v` about `n` carried exactly, before any rounding:
/// each component holds an extra factor of `SCALE * SCALE`.
pub open spec fn reflect_raw(v: V3, n: V3) -> V3 {
    let d = sv_dot_raw(v, n);
    let s2 = (SCALE as int) * (SCALE as int);
    sv(s2 * v.x - 2 * d * n.x, s2 * v.y - 2 * d * n.y, s2 * v.z - 2 * d * n.z)
}

/// Three products sharing a factor sum to the factor times the sum.
proof fn lemma_mul_dist3(k: int, a: int, b: int, c: int)
    by (nonlinear_arith)
    ensures
        k * a + k * b + k * c == k * (a + b + c),
{
}

/// Reflection about a unit normal flips the dot product against that
/// normal: at the exact (unrounded) level,
/// `dot(reflect(v, n), n) == -dot(v, n)`.
pub proof fn lemma_reflect_flips_dot(v: V3, n: V3)
    requires
        sv_dot_raw(n, n) == (SCALE as int) * (SCALE as int),
    ensures
        sv_dot_raw(reflect_raw(v, n), n) == -((SCALE as int) * (SCALE as int) * sv_dot_raw(v, n)),
{
    let s2 = (SCALE as int) * (SCALE as int);
    let d = sv_dot_raw(v, n);
    assert((s2 * v.x - 2 * d * n.x) * n.x == s2 * (v.x * n.x) - 2 * (d * (n.x * n.x)))
        by (nonlinear_arith);
    assert((s2 * v.y - 2 * d * n.y) * n.y == s2 * (v.y * n.y) - 2 * (d * (n.y * n.y)))
        by (nonlinear_arith);
    assert((s2 * v.z - 2 * d * n.z) * n.z == s2 * (v.z * n.z) - 2 * (d * (n.z * n.z)))
        by (nonlinear_arith);
    lemma_mul_dist3(s2, v.x * n.x, v.y * n.y, v.z * n.z);
    lemma_mul_dist3(d, n.x * n.x, n.y * n.y, n.z * n.z);
    assert(s2 * d - 2 * (d * s2) == -(s2 * d)) by (nonlinear_arith);
}

/// Expansion of one squared component of the exact reflection.
proof fn lemma_square_of_difference(s2: int, d: int, vc: int, nc: int)
    ensures
        (s2 * vc - 2 * d * nc) * (s2 * vc - 2 * d * nc) == (s2 * s2) * (vc * vc) - 4 * ((s2 * d) * (
        vc * nc)) + 4 * ((d * d) * (nc * nc)),
{
    let a = s2 * vc;
    let b = 2 * d * nc;
    assert((a - b) * (a - b) == a * a - 2 * (a * b) + b * b) by (nonlinear_arith);
    assert(a * a == (s2 * s2) * (vc * vc)) by (nonlinear_arith)
        requires
            a == s2 * vc,
    ;
    assert(a * b == 2 * ((s2 * d) * (vc * nc))) by (nonlinear_arith)
        requires
            a == s2 * vc,
            b == 2 * d * nc,
    ;
    assert(b * b == 4 * ((d * d) * (nc * nc))) by (nonlinear_arith)
        requires
            b == 2 * d * nc,
    ;
}

/// Reflection about a unit normal preserves length: at the exact
/// (unrounded) level the squared length of the reflection equals the
/// squared length of `v`, up to the carried scaling factor.
pub proof fn lemma_reflect_keeps_length(v: V3, n: V3)
    requires
        sv_dot_raw(n, n) == (SCALE as int) * (SCALE as int),
    ensures
        sv_dot_raw(reflect_raw(v, n), reflect_raw(v, n)) == ((SCALE as int) * (SCALE as int)) * ((
        SCALE as int) * (SCALE as int)) * sv_dot_raw(v, v),
{
    let s2 = (SCALE as int) * (SCALE as int);
    let d = sv_dot_raw(v, n);
    let k1 = s2 * s2;
    let k2 = s2 * d;
    let k3 = d * d;
    lemma_square_of_difference(s2, d, v.x, n.x);
    lemma_square_of_difference(s2, d, v.y, n.y);
    lemma_square_of_difference(s2, d, v.z, n.z);
    lemma_mul_dist3(k1, v.x * v.x, v.y * v.y, v.z * v.z);
    lemma_mul_dist3(k2, v.x * n.x, v.y * n.y, v.z * n.z);
    lemma_mul_dist3(k3, n.x * n.x, n.y * n.y, n.z * n.z);
    assert(k2 * d == k3 * s2) by (nonlinear_arith)
        requires
            k2 == s2 * d,
            k3 == d * d,
    ;
}

/// Each component of the computed reflection differs from the exact one by
/// less than one rounding unit of the carried scale.
pub proof fn lemma_reflect_rounding(v: V3, n: V3)
    ensures
        -((SCALE as int) * (SCALE as int) - 1) <= (SCALE as int) * (SCALE as int) * spec_reflect(
            v,
            n,
        ).x - reflect_raw(v, n).x <= (SCALE as int) * (SCALE as int) - 1,
        -((SCALE as int) * (SCALE as int) - 1) <= (SCALE as int) * (SCALE as int) * spec_reflect(
            v,
            n,
        ).y - reflect_raw(v, n).y <= (SCALE as int) * (SCALE as int) - 1,
        -((SCALE as int) * (SCALE as int) - 1) <= (SCALE as int) * (SCALE as int) * spec_reflect(
            v,
            n,
        ).z - reflect_raw(v, n).z <= (SCALE as int) * (SCALE as int) - 1,
{
    let s2 = (SCALE as int) * (SCALE as int);
    let d = sv_dot_raw(v, n);
    lemma_tdiv_rem(2 * d * n.x, s2);
    lemma_tdiv_rem(2 * d * n.y, s2);
    lemma_tdiv_rem(2 * d * n.z, s2);
    assert(s2 * (v.x - tdiv(2 * d * n.x, s2)) == s2 * v.x - s2 * tdiv(2 * d * n.x, s2))
        by (nonlinear_arith);
    assert(s2 * (v.y - tdiv(2 * d * n.y, s2)) == s2 * v.y - s2 * tdiv(2 * d * n.y, s2))
        by (nonlinear_arith);
    assert(s2 * (v.z - tdiv(2 * d * n.z, s2)) == s2 * v.z - s2 * tdiv(2 * d * n.z, s2))
        by (nonlinear_arith);
}

/// The computed reflection flips the dot product against a unit normal up
/// to the representation's rounding: the raw dot products of the
/// reflection and of `v` against `n` cancel to within `3 * SCALE`, three
/// billionths of a unit in real terms.
pub proof fn lemma_reflect_dot_bound(v: V3, n: V3)
    requires
        sv_dot_raw(n, n) == (SCALE as int) * (SCALE as int),
    ensures
        -3 * (SCALE as int) <= sv_dot_raw(spec_reflect(v, n), n) + sv_dot_raw(v, n) <= 3 * (
        SCALE as int),
{
    let s = SCALE as int;
    let s2 = s * s;
    let d = sv_dot_raw(v, n);
    let r = spec_reflect(v, n);
    let rr = reflect_raw(v, n);
    lemma_reflect_rounding(v, n);
    lemma_reflect_flips_dot(v, n);
    let ex = s2 * r.x - rr.x;
    let ey = s2 * r.y - rr.y;
    let ez = s2 * r.z - rr.z;
    assert(s2 * (r.x * n.x) == (s2 * r.x) * n.x) by (nonlinear_arith);
    assert(s2 * (r.y * n.y) == (s2 * r.y) * n.y) by (nonlinear_arith);
    assert(s2 * (r.z * n.z) == (s2 * r.z) * n.z) by (nonlinear_arith);
    assert((s2 * r.x) * n.x == rr.x * n.x + ex * n.x) by (nonlinear_arith)
        requires
            s2 * r.x == rr.x + ex,
    ;
    assert((s2 * r.y) * n.y == rr.y * n.y + ey * n.y) by (nonlinear_arith)
        requires
            s2 * r.y == rr.y + ey,
    ;
    assert((s2 * r.z) * n.z == rr.z * n.z + ez * n.z) by (nonlinear_arith)
        requires
            s2 * r.z == rr.z + ez,
    ;
    lemma_mul_dist3(s2, r.x * n.x, r.y * n.y, r.z * n.z);
    assert(s2 * (sv_dot_raw(r, n) + d) == s2 * sv_dot_raw(r, n) + s2 * d) by (nonlinear_arith);
    assert(s2 * (sv_dot_raw(r, n) + d) == ex * n.x + ey * n.y + ez * n.z);
    assert(-s <= n.x <= s && -s <= n.y <= s && -s <= n.z <= s) by (nonlinear_arith)
        requires
            n.x * n.x + n.y * n.y + n.z * n.z == s * s,
            0 < s,
    ;
    lemma_mul_bounds(ex, n.x, s2 - 1, s);
    lemma_mul_bounds(ey, n.y, s2 - 1, s);
    lemma_mul_bounds(ez, n.z, s2 - 1, s);
    assert(-3 * s <= sv_dot_raw(r, n) + d <= 3 * s) by (nonlinear_arith)
        requires
            s2 * (sv_dot_raw(r, n) + d) == ex * n.x + ey * n.y + ez * n.z,
            -((s2 - 1) * s) <= ex * n.x <= (s2 - 1) * s,
            -((s2 - 1) * s) <= ey * n.y <= (s2 - 1) * s,
            -((s2 - 1) * s) <= ez * n.z <= (s2 - 1) * s,
            s2 == s * s,
            0 < s,
    ;
}

/// A candidate direction accepted by the sphere sampler: strictly inside
/// the unit sphere, and no shorter than a thousandth of a unit, so that
/// normalizing it keeps the fixed-point rounding error small. (The
/// excluded inner ball carries a negligible one-billionth of the sphere's
/// volume.)
pub open spec fn sphere_sample(u: V3) -> bool {
    &&& in_range(u, SCALE as int)
    &&& 1_000_000_000_000 <= sv_dot_raw(u, u) < (SCALE as int) * (SCALE as int)
}

/// A direction produced by normalizing some point inside the unit sphere.
pub open spec fn unit_sample(u: V3) -> bool {
    exists|c: V3| sphere_sample(c) && u == spec_unit(c)
}

/// The sampler's acceptance test on a drawn candidate: squared length
/// between a thousandth squared and one.
pub open spec fn sphere_accept(c: V3) -> bool {
    1_000_000_000_000 <= sv_dot_raw(c, c) < 1_000_000_000_000_000_000
}

/// The generator state after one three-component draw.
pub open spec fn spec_draw3_state(s: int) -> int {
    spec_lcg_next(spec_lcg_next(spec_lcg_next(s)))
}

/// The candidate drawn from generator state `s`: three successive samples.
pub open spec fn spec_draw3(s: int) -> V3 {
    sv(
        spec_sample(spec_lcg_next(s)),
        spec_sample(spec_lcg_next(spec_lcg_next(s))),
        spec_sample(spec_lcg_next(spec_lcg_next(spec_lcg_next(s)))),
    )
}

/// The point the rejection sampler returns when started at generator
/// state `s` with the given number of attempts left: the first accepted
/// draw, or the fixed interior fallback when every attempt is rejected.
#[verifier::opaque]
pub open spec fn spec_sphere_pick(s: int, attempts: nat) -> V3
    decreases attempts,
{
    if attempts == 0 {
        sv(SCALE as int / 2, 0, 0)
    } else if sphere_accept(spec_draw3(s)) {
        spec_draw3(s)
    } else {
        spec_sphere_pick(spec_draw3_state(s), (attempts - 1) as nat)
    }
}

/// The generator state the rejection sampler leaves behind.
#[verifier::opaque]
pub open spec fn spec_sphere_state(s: int, attempts: nat) -> int
    decreases attempts,
{
    if attempts == 0 {
        s
    } else if sphere_accept(spec_draw3(s)) {
        spec_draw3_state(s)
    } else {
        spec_sphere_state(spec_draw3_state(s), (attempts - 1) as nat)
    }
}

/// One unfolding step of the rejection sampler's recursion.
proof fn lemma_sphere_step(s: int, attempts: nat)
    requires
        1 <= attempts,
    ensures
        sphere_accept(spec_draw3(s)) ==> spec_sphere_pick(s, attempts) == spec_draw3(s)
            && spec_sphere_state(s, attempts) == spec_draw3_state(s),
        !sphere_accept(spec_draw3(s)) ==> spec_sphere_pick(s, attempts) == spec_sphere_pick(
            spec_draw3_state(s),
            (attempts - 1) as nat,
        ) && spec_sphere_state(s, attempts) == spec_sphere_state(
            spec_draw3_state(s),
            (attempts - 1) as nat,
        ),
{
    reveal(spec_sphere_pick);
    reveal(spec_sphere_state);
}

/// The rejection sampler's base case: no attempts left, the fixed interior
/// fallback comes back and the state is unchanged.
proof fn lemma_sphere_base(s: int)
    ensures
        spec_sphere_pick(s, 0) == sv(SCALE as int / 2, 0, 0),
        spec_sphere_state(s, 0) == s,
{
    reveal(spec_sphere_pick);
    reveal(spec_sphere_state);
}

/// Rejection-sample a point strictly inside the unit sphere: draw each
/// component uniformly from `[-1, 1]` until the squared length lies in
/// the accepted band. A fixed number of attempts bounds the loop
/// (acceptance is likelier than half per draw, so running out is
/// astronomically rare); a fixed interior point keeps the function total
/// when it happens. The result and the generator state left behind are
/// pinned exactly, so every run is reproducible from the seed.
#[verifier::rlimit(50)]
pub fn random_in_unit_sphere(rng: &mut Rng) -> (v: Vec3)
    ensures
        v@ == spec_sphere_pick(old(rng).state as int, 64),
        final(rng).state as int == spec_sphere_state(old(rng).state as int, 64),
        sphere_sample(v@),
{
    let ghost s0: int = rng.state as int;
    let mut attempts: u32 = 64;
    while attempts > 0
        invariant
            attempts <= 64,
            s0 == old(rng).state as int,
            spec_sphere_pick(s0, 64) == spec_sphere_pick(rng.state as int, attempts as nat),
            spec_sphere_state(s0, 64) == spec_sphere_state(rng.state as int, attempts as nat),
        decreases attempts,
    {
        let ghost s: int = rng.state as int;
        let x = rng.next_unit();
        let y = rng.next_unit();
        let z = rng.next_unit();
        let c = Vec3 { x: x, y: y, z: z };
        proof {
            assert(c@ == spec_draw3(s));
            assert(rng.state as int == spec_draw3_state(s));
            lemma_sphere_step(s, attempts as nat);
        }
        let raw = raw_dot(c, c);
        if 1_000_000_000_000i128 <= raw && raw < 1_000_000_000_000_000_000i128 {
            return c;
        }
        attempts = attempts - 1;
    }
    proof {
        lemma_sphere_base(rng.state as int);
        assert(500_000_000int * 500_000_000int == 250_000_000_000_000_000int) by (nonlinear_arith);
    }
    Vec3 { x: SCALE / 2, y: 0, z: 0 }
}

/// A direction on the unit sphere surface: the normalization of the
/// sampled interior point. The result and the generator state left behind
/// are pinned exactly; the squared length is one up to the stated
/// rounding allowance.
pub fn random_unit_vector(rng: &mut Rng) -> (v: Vec3)
    ensures
        v@ == spec_unit(spec_sphere_pick(old(rng).state as int, 64)),
        final(rng).state as int == spec_sphere_state(old(rng).state as int, 64),
        unit_sample(v@),
        in_range(v@, SCALE as int),
        sv_dot_raw(v@, v@) <= (SCALE as int) * (SCALE as int) + 3_000_000_000_000,
{
    let c = random_in_unit_sphere(rng);
    let u = unit_vector(c);
    proof {
        assert(sphere_sample(c@) && u@ == spec_unit(c@));
    }
    u
}

/// Bounds for one component term of `reflect` when `v` is unit length up to
/// rounding.
proof fn lemma_reflect_unit_bound(v: V3, n: V3, d: int, nc: int)
    requires
        in_range(v, SCALE as int),
        in_range(n, UNIT_COORD as int),
        -UNIT_COORD as int <= nc <= UNIT_COORD as int,
        d == sv_dot_raw(v, n),
    ensures
        -24_000_000_000int <= tdiv(2 * d * nc, 1_000_000_000_000_000_000int) <= 24_000_000_000int,
{
    lemma_mul_bounds(v.x, n.x, SCALE as int, UNIT_COORD as int);
    lemma_mul_bounds(v.y, n.y, SCALE as int, UNIT_COORD as int);
    lemma_mul_bounds(v.z, n.z, SCALE as int, UNIT_COORD as int);
    lemma_mul_bounds(2 * d, nc, 12_000_000_000_000_000_000int, UNIT_COORD as int);
    lemma_tdiv_bound(2 * d * nc, 1_000_000_000_000_000_000int, 24_000_000_000_000_000_000_000_000_000int);
}

} // verus!
