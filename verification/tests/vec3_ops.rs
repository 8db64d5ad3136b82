use riaw::vec3::{cross, dot, reflect, unit_vector, Vec3, SCALE};

// One fixed-point unit is 1e-9 of a real unit; SCALE units make 1.0.
const S: i64 = SCALE;

#[test]
fn near_zero_boundary() {
    // (1e-9, -1e-9, 0) is below the 1e-8 threshold in every component.
    assert!(Vec3::new(1, -1, 0).near_zero());
    // (1e-7, 0, 0) is not.
    assert!(!Vec3::new(100, 0, 0).near_zero());
    // The boundary itself (exactly 1e-8) is not below the threshold.
    assert!(!Vec3::new(10, 0, 0).near_zero());
    assert!(Vec3::new(9, 9, -9).near_zero());
}

#[test]
fn add_sub_neg_exact() {
    let a = Vec3::new(1, 2, 3);
    let b = Vec3::new(10, -20, 30);
    assert_eq!(a.add(b), Vec3::new(11, -18, 33));
    assert_eq!(a.sub(b), Vec3::new(-9, 22, -27));
    assert_eq!(b.neg(), Vec3::new(-10, 20, -30));
}

#[test]
fn dot_and_cross_exact() {
    // (1, 2, 3) . (4, -5, 6) = 4 - 10 + 18 = 12
    let a = Vec3::new(S, 2 * S, 3 * S);
    let b = Vec3::new(4 * S, -5 * S, 6 * S);
    assert_eq!(dot(a, b), 12 * S);
    // (1, 0, 0) x (0, 1, 0) = (0, 0, 1)
    let x = Vec3::new(S, 0, 0);
    let y = Vec3::new(0, S, 0);
    assert_eq!(cross(x, y), Vec3::new(0, 0, S));
}

#[test]
fn length_of_pythagorean_triple() {
    // |(3, 4, 0)| = 5 exactly.
    let v = Vec3::new(3 * S, 4 * S, 0);
    assert_eq!(v.length_squared(), 25 * S);
    assert_eq!(v.length(), 5 * S);
}

#[test]
fn unit_vector_has_unit_length() {
    let u = unit_vector(Vec3::new(S, 2 * S, -2 * S));
    // (1, 2, -2) / 3 is exact in this representation.
    assert_eq!(u, Vec3::new(333333333, 666666666, -666666666));
    let w = unit_vector(Vec3::new(123456789, -987654321, 555555555));
    // Unit up to rounding: within a few billionths.
    assert!((w.length() - S).abs() <= 5);
}

#[test]
fn reflect_about_axis_normal() {
    // Mirroring (0.3, 0.4, -0.5) about the z-axis normal flips z only.
    let v = Vec3::new(300_000_000, 400_000_000, -500_000_000);
    let n = Vec3::new(0, 0, S);
    assert_eq!(reflect(v, n), Vec3::new(300_000_000, 400_000_000, 500_000_000));
}

#[test]
fn reflect_flips_dot_and_keeps_length() {
    // An exactly-unit normal that is not axis aligned: (1, 2, 2) / 3.
    // 333333333^2 + 2 * 666666666^2 falls short of SCALE^2, so use the
    // axis-aligned exact normals plus a scaled Pythagorean one:
    // (0.6, 0.8, 0) is exactly unit length.
    let n = Vec3::new(600_000_000, 800_000_000, 0);
    assert_eq!(dot(n, n), S);
    let v = Vec3::new(250_000_000, -125_000_000, 975_000_000);
    let r = reflect(v, n);
    // dot(r, n) == -dot(v, n) within a few billionths.
    assert!((dot(r, n) + dot(v, n)).abs() <= 5);
    // |r| == |v| within a few billionths.
    assert!((r.length() - v.length()).abs() <= 5);
}
