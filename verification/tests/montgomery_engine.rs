use zerosync::field::Fp;
use zerosync::montgomery::{mont_mul, MontgomeryConstants, MontgomeryForm};

fn small(x: u64) -> [u64; 4] {
    [x, 0, 0, 0]
}

#[test]
fn test_basic_conversion() {
    let modulus = small(17);
    let constants = MontgomeryConstants::new(&modulus).unwrap();

    let mont_form = MontgomeryForm::new(small(5), constants);

    // convert back to regular form by multiplying with one
    let one_limbs = small(1);
    let result_limbs = mont_mul(&mont_form.value, &one_limbs, &modulus, &constants.n_prime);
    assert_eq!(result_limbs, small(5));
}

#[test]
fn test_addition() {
    let modulus = small(17);
    let constants = MontgomeryConstants::new(&modulus).unwrap();

    let a_mont = MontgomeryForm::new(small(5), constants);
    let b_mont = MontgomeryForm::new(small(7), constants);
    let result = a_mont.add(&b_mont);

    let one_limbs = small(1);
    let result_limbs = mont_mul(&result.value, &one_limbs, &modulus, &constants.n_prime);
    // 5 + 7 = 12
    assert_eq!(result_limbs, small(12));
}

#[test]
fn test_subtraction() {
    let modulus = small(17);
    let constants = MontgomeryConstants::new(&modulus).unwrap();

    let a_mont = MontgomeryForm::new(small(12), constants);
    let b_mont = MontgomeryForm::new(small(7), constants);
    let result = a_mont.sub(&b_mont);

    let one_limbs = small(1);
    let result_limbs = mont_mul(&result.value, &one_limbs, &modulus, &constants.n_prime);
    // 12 - 7 = 5
    assert_eq!(result_limbs, small(5));

    let a_mont = MontgomeryForm::new(small(5), constants);
    let b_mont = MontgomeryForm::new(small(10), constants);
    let result = a_mont.sub(&b_mont);
    let result_limbs = mont_mul(&result.value, &one_limbs, &modulus, &constants.n_prime);
    // 5 - 10 = -5 = 12 mod 17
    assert_eq!(result_limbs, small(12));
}

#[test]
fn test_multiplication() {
    let modulus = small(17);
    let constants = MontgomeryConstants::new(&modulus).unwrap();

    let a_mont = MontgomeryForm::new(small(5), constants);
    let b_mont = MontgomeryForm::new(small(7), constants);
    let mut result = a_mont.mul(&b_mont);
    result.reduce();

    let one_limbs = small(1);
    let result_limbs = mont_mul(&result.value, &one_limbs, &modulus, &constants.n_prime);
    // 5 * 7 = 35 = 1 mod 17
    assert_eq!(result_limbs, small(1));
}

#[test]
fn fp_test_field_arithmetic() {
    let r = Fp::bn254_scalar(0).context().clone();
    let a = Fp::bn254_scalar(5);
    let b = Fp::bn254_scalar(7);

    let c = a.add(&b);
    assert_eq!(c.get_value(), small(12));

    let d = b.sub(&a);
    assert_eq!(d.get_value(), small(2));

    let e = a.mul(&b);
    assert_eq!(e.get_value(), small(35));

    let a_inv = a.inverse().unwrap();
    let f = b.div(&a);
    let expected = Fp::new(small(7), &r).mul(&a_inv);
    assert_eq!(f, expected);

    let g = a.square();
    assert_eq!(g.get_value(), small(25));

    let h = a.pow(3);
    assert_eq!(h.get_value(), small(125));
}

#[test]
fn test_form_equality_reduces_first() {
    let modulus = small(17);
    let constants = MontgomeryConstants::new(&modulus).unwrap();

    let a = MontgomeryForm::new(small(5), constants);
    let b = MontgomeryForm::new(small(7), constants);
    // an unreduced lazy product still compares equal to the reduced one
    let lazy = a.mul(&b);
    let mut eager = a.mul(&b);
    eager.reduce();
    assert!(lazy.eq_value(&eager));
    assert!(!lazy.eq_value(&a));

    let other = MontgomeryConstants::new(&small(19)).unwrap();
    let c = MontgomeryForm::new(small(5), other);
    assert!(!a.eq_value(&c));
}

#[test]
fn test_lazy_precision_tracking() {
    let modulus = small(17);
    let constants = MontgomeryConstants::new(&modulus).unwrap();
    assert_eq!(constants.extra_bits, 64);

    let a = MontgomeryForm::new(small(5), constants);
    let b = MontgomeryForm::new(small(7), constants);
    // margins add up plus one while within the budget
    let p1 = a.mul(&b);
    assert_eq!(p1.extra_precision, 1);
    let p2 = p1.mul(&p1);
    assert_eq!(p2.extra_precision, 3);
    let mut r = p2;
    r.reduce();
    assert_eq!(r.extra_precision, 0);
}
