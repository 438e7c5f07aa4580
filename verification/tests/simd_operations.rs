use zerosync::simd::{field_add_avx2, field_mul_avx2};

#[test]
fn test_simd_operations() {
    let a = [1u64, 2, 3, 4];
    let b = [5u64, 6, 7, 8];
    let modulus = [17u64, 17, 17, 17];

    let result = field_mul_avx2(&a, &b, &modulus);
    assert_eq!(result.len(), 4);
    for i in 0..4 {
        assert!(result[i] < modulus[i]);
    }

    let result = field_add_avx2(&a, &b, &modulus);
    assert_eq!(result.len(), 4);
    for i in 0..4 {
        assert!(result[i] < modulus[i]);
    }
}

#[test]
fn test_simd_field_addition() {
    let a = [1u64, 2, 3, 4];
    let b = [5u64, 6, 7, 8];
    let modulus = [17u64, 17, 17, 17];

    let result = field_add_avx2(&a, &b, &modulus);

    assert_eq!(result[0], (1 + 5) % 17);
    assert_eq!(result[1], (2 + 6) % 17);
    assert_eq!(result[2], (3 + 7) % 17);
    assert_eq!(result[3], (4 + 8) % 17);
}

#[test]
fn test_simd_field_multiplication() {
    let a = [1u64, 2, 3, 4];
    let b = [2u64, 3, 4, 5];
    let modulus = [17u64, 17, 17, 17];

    let result = field_mul_avx2(&a, &b, &modulus);

    assert_eq!(result[0], (1 * 2) % 17);
    assert_eq!(result[1], (2 * 3) % 17);
    assert_eq!(result[2], (3 * 4) % 17);
    assert_eq!(result[3], (4 * 5) % 17);
}

#[test]
fn test_simd_edge_cases() {
    let modulus = [17u64, 17, 17, 17];

    let a = [1u64, 2, 3, 4];
    let zero = [0u64, 0, 0, 0];
    let result = field_mul_avx2(&a, &zero, &modulus);
    assert_eq!(result, [0u64, 0, 0, 0]);

    let one = [1u64, 1, 1, 1];
    let result = field_mul_avx2(&a, &one, &modulus);
    for i in 0..4 {
        assert_eq!(result[i], a[i] % 17);
    }

    let result = field_add_avx2(&a, &zero, &modulus);
    for i in 0..4 {
        assert_eq!(result[i], a[i] % 17);
    }
}

#[test]
fn test_simd_associativity() {
    let modulus = [
        0xFFFFFFFFFFFFFFFF,
        0xFFFFFFFFFFFFFFFF,
        0xFFFFFFFFFFFFFFFF,
        0x0FFFFFFFFFFFFFFF,
    ];
    let a = [1u64, 2, 3, 4];
    let b = [2u64, 3, 4, 5];
    let c = [3u64, 4, 5, 6];

    let ab = field_add_avx2(&a, &b, &modulus);
    let abc1 = field_add_avx2(&ab, &c, &modulus);

    let bc = field_add_avx2(&b, &c, &modulus);
    let abc2 = field_add_avx2(&a, &bc, &modulus);

    assert_eq!(abc1, abc2);

    let ab = field_mul_avx2(&a, &b, &modulus);
    let abc1 = field_mul_avx2(&ab, &c, &modulus);

    let bc = field_mul_avx2(&b, &c, &modulus);
    let abc2 = field_mul_avx2(&a, &bc, &modulus);

    assert_eq!(abc1, abc2);
}

#[test]
fn test_simd_distributivity() {
    let modulus = [
        0xFFFFFFFFFFFFFFFF,
        0xFFFFFFFFFFFFFFFF,
        0xFFFFFFFFFFFFFFFF,
        0x0FFFFFFFFFFFFFFF,
    ];
    let a = [1u64, 2, 3, 4];
    let b = [2u64, 3, 4, 5];
    let c = [3u64, 4, 5, 6];

    let b_plus_c = field_add_avx2(&b, &c, &modulus);
    let left = field_mul_avx2(&a, &b_plus_c, &modulus);

    let a_times_b = field_mul_avx2(&a, &b, &modulus);
    let a_times_c = field_mul_avx2(&a, &c, &modulus);
    let right = field_add_avx2(&a_times_b, &a_times_c, &modulus);

    assert_eq!(left, right);
}
