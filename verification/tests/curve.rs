use zerosync::bn254::{G1Affine, G2Affine, BN254};
use zerosync::field::Fp;
use zerosync::fp2::Fp2;

fn small(x: u64) -> [u64; 4] {
    [x, 0, 0, 0]
}

fn g1_points_equal(a: &G1Affine, b: &G1Affine) -> bool {
    a.infinity == b.infinity && (a.infinity || (a.x == b.x && a.y == b.y))
}

fn g2_coords_equal(a: &G2Affine, b: &G2Affine) -> bool {
    a.infinity == b.infinity && (a.infinity || (a.x.c0 == b.x.c0 && a.x.c1 == b.x.c1 && a.y.c0
        == b.y.c0 && a.y.c1 == b.y.c1))
}

#[test]
fn test_point_on_curve() {
    let curve = BN254::new();
    let g1 = curve.g1_generator();
    assert!(curve.is_on_curve(&g1));
}

#[test]
fn test_point_addition() {
    let curve = BN254::new();
    let g1 = curve.g1_generator();

    let p2 = g1.add(&g1);
    assert!(curve.is_on_curve(&p2));

    let p3 = p2.add(&g1);
    assert!(curve.is_on_curve(&p3));
}

#[test]
fn test_scalar_multiplication() {
    let curve = BN254::new();
    let g1 = curve.g1_generator();

    let p2 = g1.scalar_mul(2);
    let p2_add = g1.add(&g1);
    assert!(g1_points_equal(&p2, &p2_add));

    let p3 = g1.scalar_mul(3);
    let p3_add = g1.add(&g1).add(&g1);
    assert!(g1_points_equal(&p3, &p3_add));
}

#[test]
fn test_fp2_arithmetic() {
    let curve = BN254::new();
    let c = curve.constants;

    let a = Fp::new(small(2), &c);
    let b = Fp::new(small(3), &c);
    let x = Fp::new(small(5), &c);
    let d = Fp::new(small(7), &c);

    let fp2_a = Fp2::new(a, b);
    let fp2_b = Fp2::new(x, d);

    // (2 + 3u)(5 + 7u) = (10 - 21) + (14 + 15)u = -11 + 29u
    let prod = fp2_a.mul(&fp2_b);
    let expected_c0 = Fp::new(small(10), &c).sub(&Fp::new(small(21), &c));
    let expected_c1 = Fp::new(small(29), &c);
    assert_eq!(prod.c0, expected_c0);
    assert_eq!(prod.c1, expected_c1);

    // (2 + 3u)^2 = (4 - 9) + 12u = -5 + 12u
    let sq = fp2_a.square();
    let expected_c0 = Fp::new(small(4), &c).sub(&Fp::new(small(9), &c));
    let expected_c1 = Fp::new(small(12), &c);
    assert_eq!(sq.c0, expected_c0);
    assert_eq!(sq.c1, expected_c1);
}

#[test]
fn test_g2_generator() {
    let curve = BN254::new();
    let g2 = curve.g2_generator();
    assert!(!g2.infinity);
}

#[test]
fn test_g2_point_addition() {
    let curve = BN254::new();
    let g = curve.g2_generator();

    let p2 = g.add(&g);
    assert!(curve.is_on_curve_g2(&p2));

    let p2_double = g.double();
    assert!(curve.is_on_curve_g2(&p2_double));
    assert!(g2_coords_equal(&p2, &p2_double));

    let identity = G2Affine::identity(&curve.constants);
    let p_plus_identity = g.add(&identity);
    assert!(g2_coords_equal(&p_plus_identity, &g));

    let neg_g = g.neg();
    let p_plus_neg = g.add(&neg_g);
    assert!(p_plus_neg.infinity);
}

#[test]
fn test_g2_scalar_multiplication() {
    let curve = BN254::new();
    let g = curve.g2_generator();

    let p2 = g.scalar_mul(2);
    let p3 = g.scalar_mul(3);
    let p4 = g.scalar_mul(4);

    assert!(curve.is_on_curve_g2(&p2));
    assert!(curve.is_on_curve_g2(&p3));
    assert!(curve.is_on_curve_g2(&p4));

    let p2_plus_p2 = p2.add(&p2);
    assert!(g2_coords_equal(&p2_plus_p2, &p4));

    let p2_plus_g = p2.add(&g);
    assert!(g2_coords_equal(&p2_plus_g, &p3));
}

#[test]
fn test_g2_generator_correctness() {
    let curve = BN254::new();
    let g = curve.g2_generator();

    assert!(curve.is_on_curve_g2(&g));
    assert!(!g.infinity);
    assert!(!g.x.c0.is_zero());
    assert!(!g.x.c1.is_zero());
    assert!(!g.y.c0.is_zero());
    assert!(!g.y.c1.is_zero());
}

#[test]
fn test_windowed_scalar_multiplication_g1() {
    let curve = BN254::new();
    let g = curve.g1_generator();

    let scalars: [u64; 5] = [1, 2, 10, 100, 123456789];
    for &scalar in scalars.iter() {
        let p1 = g.windowed_mul(&small(scalar));
        let p2 = g.scalar_mul(scalar);
        assert!(g1_points_equal(&p1, &p2));
        assert!(curve.is_on_curve(&p1));
    }
}

#[test]
fn test_windowed_scalar_multiplication_g2() {
    let curve = BN254::new();
    let g = curve.g2_generator();

    let scalars: [u64; 5] = [1, 2, 10, 100, 123456789];
    for &scalar in scalars.iter() {
        let p1 = g.windowed_mul(&small(scalar));
        let p2 = g.scalar_mul(scalar);
        assert!(g2_coords_equal(&p1, &p2));
        assert!(curve.is_on_curve_g2(&p1));
    }
}

#[test]
fn test_curve_group_identities() {
    let curve = BN254::new();
    let g = curve.g1_generator();
    let identity = G1Affine::identity(&curve.constants);

    // P + O = P
    let p_plus_o = g.add(&identity);
    assert!(g1_points_equal(&p_plus_o, &g));
    // O + P = P
    let o_plus_p = identity.add(&g);
    assert!(g1_points_equal(&o_plus_p, &g));
    // P + (-P) = O
    let p_plus_neg = g.add(&g.neg());
    assert!(p_plus_neg.infinity);
    // P + P = double(P)
    let p_plus_p = g.add(&g);
    assert!(g1_points_equal(&p_plus_p, &g.double()));
    // scalar multiplication is additive: (m + n) P == m P + n P
    let m5 = g.scalar_mul(5);
    let m9 = g.scalar_mul(9);
    let m14 = g.scalar_mul(14);
    assert!(g1_points_equal(&m14, &m5.add(&m9)));
    // generator satisfies y^2 = x^3 + 3 over the base modulus
    assert!(curve.is_on_curve(&g));
    // G1 * 2 == G1 + G1 and G1 * 3 == G1 + G1 + G1
    assert!(g1_points_equal(&g.scalar_mul(2), &g.add(&g)));
    assert!(g1_points_equal(&g.scalar_mul(3), &g.add(&g).add(&g)));
}
