use zerosync::field::Fp;
use zerosync::limbs::ct_lt;
use zerosync::montgomery::{mont_mul, MontgomeryConstants, MontgomeryForm};
use zerosync::util::{bytes_to_limbs, to_bytes, to_fixed_bytes};

const BN254_MODULUS: [u64; 4] = [
    0x3c208c16d87cfd47,
    0x97816a916871ca8d,
    0xb85045b68181585d,
    0x30644e72e131a029,
];

fn ctx(modulus: [u64; 4]) -> MontgomeryConstants {
    MontgomeryConstants::new(&modulus).unwrap()
}

fn small(x: u64) -> [u64; 4] {
    [x, 0, 0, 0]
}

#[test]
fn test_field_basic_arithmetic() {
    let c = ctx(small(17));
    let a = Fp::new(small(5), &c);
    let b = Fp::new(small(3), &c);
    let cc = Fp::new(small(7), &c);

    let sum = a.add(&b);
    assert_eq!(sum, Fp::new(small(8), &c));

    let diff = a.sub(&b);
    assert_eq!(diff, Fp::new(small(2), &c));

    let prod = a.mul(&b);
    assert_eq!(prod, Fp::new(small(15), &c));

    let left = a.add(&b).add(&cc);
    let right = a.add(&b.add(&cc));
    assert_eq!(left, right);

    let prod1 = a.mul(&b);
    let prod2 = b.mul(&a);
    assert_eq!(prod1, prod2);
}

#[test]
fn test_field_edge_cases() {
    let c = ctx(BN254_MODULUS);
    let zero = Fp::new(small(0), &c);
    let a = Fp::new(small(5), &c);

    assert_eq!(a.add(&zero), a);
    assert_eq!(a.mul(&zero), zero);

    let one = Fp::new(small(1), &c);
    assert_eq!(a.mul(&one), a);

    let large = Fp::new(BN254_MODULUS, &c);
    assert_eq!(large, zero);
}

#[test]
fn test_montgomery_form() {
    let c = ctx(BN254_MODULUS);
    let a = Fp::new(small(5), &c);
    let one = Fp::new(small(1), &c);
    let result = a.mul(&one);
    assert_eq!(result, a);
}

#[test]
fn test_field_exponentiation() {
    let c = ctx(BN254_MODULUS);
    let base = Fp::new(small(2), &c);

    assert_eq!(base.pow(0), Fp::new(small(1), &c));
    assert_eq!(base.pow(1), base);
    assert_eq!(base.pow(2), base.mul(&base));

    let expected = Fp::new(small(16), &c);
    assert_eq!(base.pow(4), expected);
}

#[test]
fn test_constant_time_comparison() {
    let a = [1u64, 2, 3, 4];
    let b = [1u64, 2, 3, 5];
    let c = [1u64, 2, 3, 4];

    assert!(ct_lt(&a, &b));
    assert!(!ct_lt(&b, &a));
    assert!(!ct_lt(&a, &c));
}

#[test]
fn test_montgomery_multiplication() {
    let modulus = [
        0xFFFFFFFFFFFFFFFF,
        0xFFFFFFFFFFFFFFFF,
        0xFFFFFFFFFFFFFFFF,
        0x0FFFFFFFFFFFFFFF,
    ];
    let c = MontgomeryConstants::new(&modulus).unwrap();
    let a = [1u64, 0, 0, 0];
    let b = [2u64, 0, 0, 0];

    let result = mont_mul(&a, &b, &modulus, &c.n_prime);
    assert_eq!(result.len(), 4);
}

#[test]
fn test_field_arithmetic() {
    let c = ctx(small(17));
    let a = Fp::new(small(5), &c);
    let b = Fp::new(small(3), &c);

    let sum = a.add(&b);
    let product = a.mul(&b);
    let diff = a.sub(&b);

    // 5 + 3 = 8 mod 17
    assert_eq!(sum, Fp::new(small(8), &c));
    // 5 * 3 = 15 mod 17
    assert_eq!(product, Fp::new(small(15), &c));
    // 5 - 3 = 2 mod 17
    assert_eq!(diff, Fp::new(small(2), &c));
}

#[test]
fn test_field_creation() {
    let c = ctx(small(17));
    let a = Fp::new(small(5), &c);
    assert_eq!(a.from_montgomery(), small(5));
}

#[test]
fn test_field_addition() {
    let c = ctx(small(17));
    let a = Fp::new(small(5), &c);
    let b = Fp::new(small(7), &c);
    let sum = a.add(&b);
    assert_eq!(sum.from_montgomery(), small(12));

    let x = Fp::new(small(10), &c);
    let y = Fp::new(small(9), &c);
    let sum2 = x.add(&y);
    // (10 + 9) mod 17 = 2
    assert_eq!(sum2.from_montgomery(), small(2));
}

#[test]
fn test_field_subtraction() {
    let c = ctx(small(17));
    let a = Fp::new(small(12), &c);
    let b = Fp::new(small(7), &c);
    let diff = a.sub(&b);
    assert_eq!(diff.from_montgomery(), small(5));

    let x = Fp::new(small(5), &c);
    let diff2 = x.sub(&b);
    // (5 - 7) mod 17 = 15
    assert_eq!(diff2.from_montgomery(), small(15));
}

#[test]
fn test_field_multiplication() {
    let c = ctx(small(17));
    let a = Fp::new(small(5), &c);
    let b = Fp::new(small(7), &c);
    let prod = a.mul(&b);
    // (5 * 7) mod 17 = 1
    assert_eq!(prod.from_montgomery(), small(1));
}

#[test]
fn test_field_inverse() {
    let c = ctx(small(17));
    let a = Fp::new(small(5), &c);
    let a_inv = a.inverse().unwrap();
    let prod = a.mul(&a_inv);
    assert_eq!(prod.from_montgomery(), small(1));
}

#[test]
fn test_field_properties() {
    let c = ctx(BN254_MODULUS);
    let zero = Fp::zero(&c);
    let one = Fp::one(&c);

    assert!(zero.is_zero());
    assert!(!zero.is_one());
    assert!(!one.is_zero());
    assert!(one.is_one());

    let a = Fp::from_u64(42, &c);
    assert_eq!(a.add(&zero), a);
    assert_eq!(zero.add(&a), a);
    assert_eq!(a.mul(&one), a);
    assert_eq!(one.mul(&a), a);

    let neg_a = a.neg();
    assert_eq!(a.add(&neg_a), zero);

    let a_inv = a.inverse().unwrap();
    assert_eq!(a.mul(&a_inv), one);
}

#[test]
fn test_batch_inversion() {
    let c = ctx(BN254_MODULUS);
    let a = Fp::from_u64(5, &c);
    let b = Fp::from_u64(7, &c);
    let d = Fp::from_u64(11, &c);

    let a_inv = a.inverse().unwrap();
    let b_inv = b.inverse().unwrap();
    let d_inv = d.inverse().unwrap();

    let mut elements = vec![a, b, d];
    Fp::batch_invert(&mut elements).unwrap();

    assert_eq!(elements[0], a_inv);
    assert_eq!(elements[1], b_inv);
    assert_eq!(elements[2], d_inv);

    // a set containing the zero element is rejected and left unchanged
    let mut with_zero = vec![a, Fp::zero(&c), d];
    assert!(Fp::batch_invert(&mut with_zero).is_err());
    assert_eq!(with_zero[0], a);
    assert!(with_zero[1].is_zero());
}

#[test]
fn test_lazy_reduction_chain() {
    let c = ctx(small(17));
    // chained lazy multiplications, one final reduction
    let a = MontgomeryForm::new(small(5), c);
    let b = MontgomeryForm::new(small(7), c);
    let d = MontgomeryForm::new(small(3), c);
    let mut lazy = a.mul(&b).mul(&d).mul(&b).mul(&d);
    lazy.reduce();
    // eagerly reduced chain of the same operands
    let mut e = a.mul(&b);
    e.reduce();
    let mut e = e.mul(&d);
    e.reduce();
    let mut e = e.mul(&b);
    e.reduce();
    let mut e = e.mul(&d);
    e.reduce();
    assert_eq!(lazy.value, e.value);
    // canonical check: 5*7*3*7*3 mod 17 = 2205 mod 17 = 12
    let fp = Fp::new(small(5), &c)
        .mul(&Fp::new(small(7), &c))
        .mul(&Fp::new(small(3), &c))
        .mul(&Fp::new(small(7), &c))
        .mul(&Fp::new(small(3), &c));
    assert_eq!(fp.from_montgomery(), small(2205 % 17));
}

#[test]
fn test_random_element_is_reduced() {
    let c = ctx(small(17));
    let r = Fp::random(&c);
    let v = r.from_montgomery();
    assert!(v[0] < 17 && v[1] == 0 && v[2] == 0 && v[3] == 0);
}

#[test]
fn test_even_modulus_rejected() {
    assert!(MontgomeryConstants::new(&small(16)).is_err());
    assert!(MontgomeryConstants::new(&small(17)).is_ok());
}

#[test]
fn test_non_coprime_inverse_is_none() {
    let c = ctx(small(15));
    let a = Fp::new(small(5), &c);
    assert!(a.inverse().is_none());
    let b = Fp::new(small(2), &c);
    assert!(b.inverse().is_some());
}

#[test]
fn test_byte_conversions() {
    let limbs = [0x0123456789abcdefu64, 0xfedcba9876543210, 5, 7];
    let bytes = to_bytes(&limbs);
    assert_eq!(bytes.len(), 32);
    assert_eq!(bytes[0], 0xef);
    assert_eq!(bytes[7], 0x01);
    let back = bytes_to_limbs(&bytes);
    assert_eq!(back, vec![limbs[0], limbs[1], limbs[2], limbs[3]]);

    let fixed: [u8; 4] = to_fixed_bytes(&[1u8, 2]);
    assert_eq!(fixed, [1, 2, 0, 0]);
}
