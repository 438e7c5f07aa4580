use zerosync::field::Fp;
use zerosync::montgomery::MontgomeryConstants;
use zerosync::polynomial::{evaluate_polynomial, Polynomial};

fn poly_equal(a: &Polynomial, b: &Polynomial) -> bool {
    a.coefficients().len() == b.coefficients().len()
        && a.coefficients().iter().zip(b.coefficients().iter()).all(|(x, y)| x == y)
}

fn small(x: u64) -> [u64; 4] {
    [x, 0, 0, 0]
}

fn ctx17() -> MontgomeryConstants {
    MontgomeryConstants::new(&small(17)).unwrap()
}

#[test]
fn test_polynomial_creation() {
    let c = ctx17();
    let coefficients = vec![
        Fp::new(small(1), &c),
        Fp::new(small(0), &c),
        Fp::new(small(0), &c),
        Fp::new(small(4), &c),
    ];  // 4x^3 + 1

    let poly = Polynomial::new(coefficients);
    assert_eq!(poly.degree(), 3);
}

#[test]
fn test_polynomial_zero() {
    let c = ctx17();
    let zero_poly = Polynomial::new(vec![Fp::new(small(0), &c)]);
    assert_eq!(zero_poly.degree(), 0);
    assert!(zero_poly.is_zero());
}

#[test]
fn test_polynomial_evaluation() {
    let c = ctx17();
    let poly = Polynomial::new(vec![
        Fp::new(small(1), &c),
        Fp::new(small(2), &c),
        Fp::new(small(3), &c),
    ]);  // 3x^2 + 2x + 1

    let x = Fp::new(small(2), &c);
    let result = evaluate_polynomial(&poly, &x);

    // At x = 2: 3*4 + 2*2 + 1 = 17 = 0 (mod 17)
    let expected = Fp::new(small(0), &c);
    assert_eq!(result, expected);
}

#[test]
fn test_polynomial_degree() {
    let c = ctx17();
    let coefficients = vec![
        Fp::new(small(1), &c),
        Fp::new(small(0), &c),
        Fp::new(small(0), &c),
        Fp::new(small(4), &c),
    ];  // 4x^3 + 1

    let poly = Polynomial::new(coefficients);
    assert_eq!(poly.degree(), 3);

    let zero_poly = Polynomial::new(vec![Fp::new(small(0), &c)]);
    assert_eq!(zero_poly.degree(), 0);
}

#[test]
fn test_polynomial_composition() {
    let c = ctx17();
    let outer = Polynomial::new(vec![Fp::new(small(1), &c), Fp::new(small(1), &c)]);  // x + 1
    let inner = Polynomial::new(vec![Fp::new(small(2), &c), Fp::new(small(1), &c)]);  // x + 2

    let x = Fp::new(small(3), &c);
    let inner_result = evaluate_polynomial(&inner, &x);

    let composed_result = evaluate_polynomial(&outer, &inner_result);
    assert_eq!(composed_result, Fp::new(small(6), &c));  // (3 + 2) + 1 = 6
}

#[test]
fn test_polynomial_trimming() {
    let c = ctx17();
    let poly = Polynomial::new(vec![
        Fp::new(small(3), &c),
        Fp::new(small(5), &c),
        Fp::new(small(0), &c),
        Fp::new(small(0), &c),
    ]);
    assert_eq!(poly.degree(), 1);
    assert_eq!(poly.coefficients().len(), 2);
}

#[test]
fn test_polynomial_empty_input() {
    let poly = Polynomial::new(Vec::new());
    assert_eq!(poly.degree(), 0);
    assert!(poly.is_zero());
}

#[test]
fn test_polynomial_addition() {
    let c = ctx17();
    let p1 = Polynomial::new(vec![Fp::new(small(1), &c), Fp::new(small(2), &c)]);  // 2x + 1
    let p2 = Polynomial::new(vec![Fp::new(small(3), &c), Fp::new(small(4), &c)]);  // 4x + 3

    let result = p1.add(&p2);
    let expected = Polynomial::new(vec![
        Fp::new(small(4), &c),  // (1 + 3) mod 17
        Fp::new(small(6), &c),  // (2 + 4) mod 17
    ]);
    assert!(poly_equal(&result, &expected));
}

#[test]
fn test_polynomial_multiplication() {
    let c = ctx17();
    let p1 = Polynomial::new(vec![Fp::new(small(1), &c), Fp::new(small(2), &c)]);  // 2x + 1
    let p2 = Polynomial::new(vec![Fp::new(small(3), &c), Fp::new(small(4), &c)]);  // 4x + 3

    let result = p1.mul(&p2);
    // (2x + 1)(4x + 3) = 8x^2 + 10x + 3
    let expected = Polynomial::new(vec![
        Fp::new(small(3), &c),
        Fp::new(small(10), &c),
        Fp::new(small(8), &c),
    ]);
    assert!(poly_equal(&result, &expected));
}

#[test]
fn test_polynomial_associativity() {
    let c = ctx17();
    let p1 = Polynomial::new(vec![Fp::new(small(1), &c), Fp::new(small(2), &c)]);  // 2x + 1
    let p2 = Polynomial::new(vec![Fp::new(small(3), &c), Fp::new(small(4), &c)]);  // 4x + 3
    let p3 = Polynomial::new(vec![Fp::new(small(5), &c), Fp::new(small(6), &c)]);  // 6x + 5

    // (p1 + p2) + p3 = p1 + (p2 + p3)
    let left = p1.add(&p2).add(&p3);
    let right = p1.add(&p2.add(&p3));
    assert!(poly_equal(&left, &right));

    // p1 * (p2 + p3) = (p1 * p2) + (p1 * p3)
    let left = p1.mul(&p2.add(&p3));
    let right = p1.mul(&p2).add(&p1.mul(&p3));
    assert!(poly_equal(&left, &right));
}

#[test]
fn test_polynomial_scalar_multiplication() {
    let c = ctx17();
    let poly = Polynomial::new(vec![
        Fp::new(small(1), &c),
        Fp::new(small(2), &c),
        Fp::new(small(3), &c),
    ]);  // 3x^2 + 2x + 1

    let scalar = Fp::new(small(2), &c);
    let result = poly.mul(&Polynomial::new(vec![scalar]));

    let expected = Polynomial::new(vec![
        Fp::new(small(2), &c),
        Fp::new(small(4), &c),
        Fp::new(small(6), &c),
    ]);  // 6x^2 + 4x + 2
    assert!(poly_equal(&result, &expected));
}

#[test]
fn test_polynomial_derivative() {
    let c = ctx17();
    let poly = Polynomial::new(vec![
        Fp::new(small(1), &c),
        Fp::new(small(2), &c),
        Fp::new(small(3), &c),
    ]);  // 3x^2 + 2x + 1

    let derivative = poly.derivative();
    // Derivative: 6x + 2
    let expected = Polynomial::new(vec![Fp::new(small(2), &c), Fp::new(small(6), &c)]);
    assert!(poly_equal(&derivative, &expected));
}

#[test]
fn test_polynomial_properties() {
    let c = ctx17();
    let p1 = Polynomial::new(vec![Fp::new(small(1), &c), Fp::new(small(2), &c)]);  // 2x + 1
    let p2 = Polynomial::new(vec![Fp::new(small(3), &c), Fp::new(small(4), &c)]);  // 4x + 3
    let p3 = Polynomial::new(vec![Fp::new(small(5), &c), Fp::new(small(6), &c)]);  // 6x + 5

    let left = p1.add(&p2).add(&p3);
    let right = p1.add(&p2.add(&p3));
    assert!(poly_equal(&left, &right));

    let left = p1.mul(&p2.add(&p3));
    let right = p1.mul(&p2).add(&p1.mul(&p3));
    assert!(poly_equal(&left, &right));
}

#[test]
fn test_polynomial_mul_trims_to_zero() {
    let c = ctx17();
    let zero = Polynomial::zero(&c);
    let p = Polynomial::new(vec![Fp::new(small(5), &c), Fp::new(small(7), &c)]);
    let result = p.mul(&zero);
    assert!(result.is_zero());
}
