//! Construction, addition and multiplication across limb counts.

use bigint_rs::Uint;

#[test]
fn lib_test_basic_addition() {
    let a = Uint::<4>::from_u64(0x1234_5678_9ABC_DEF0);
    let b = Uint::<4>::from_u64(0x0FED_CBA9_8765_4321);
    let result = a.add(&b);

    // 0x1234_5678_9ABC_DEF0 + 0x0FED_CBA9_8765_4321 = 0x2222_2222_2222_2211
    assert_eq!(result.limbs[0], 0x2222_2222_2222_2211);
    assert_eq!(result.limbs[1], 0);
}

#[test]
fn lib_test_addition_with_carry() {
    let a = Uint::<4>::from_u64(u64::MAX);
    let b = Uint::<4>::from_u64(1);
    let result = a.add(&b);

    // u64::MAX + 1 should overflow to next limb
    assert_eq!(result.limbs[0], 0);
    assert_eq!(result.limbs[1], 1);
}

#[test]
fn lib_test_basic_multiplication() {
    let a = Uint::<4>::from_u64(0x1000);
    let b = Uint::<4>::from_u64(0x2000);
    let result = a.mul(&b);

    // 0x1000 * 0x2000 = 0x2000000
    assert_eq!(result.limbs[0], 0x2000000);
    assert_eq!(result.limbs[1], 0);
}

#[test]
fn lib_test_multiplication_large() {
    let a = Uint::<4>::from_u64(0xFFFF_FFFF);
    let b = Uint::<4>::from_u64(0xFFFF_FFFF);
    let result = a.mul(&b);

    // 0xFFFF_FFFF * 0xFFFF_FFFF = 0xFFFFFFFE00000001
    assert_eq!(result.limbs[0], 0xFFFFFFFE00000001);
    assert_eq!(result.limbs[1], 0);
}

#[test]
fn lib_test_zero() {
    let zero = Uint::<4>::zero();
    let a = Uint::<4>::from_u64(42);

    let add_result = a.add(&zero);
    let mul_result = a.mul(&zero);

    assert_eq!(add_result.limbs[0], 42);
    assert_eq!(mul_result.limbs[0], 0);
}

#[test]
fn lib_test_different_limb_sizes() {
    // Test with 1 limb (64-bit)
    let a1 = Uint::<1>::from_u64(100);
    let b1 = Uint::<1>::from_u64(200);
    let result1 = a1.add(&b1);
    assert_eq!(result1.limbs[0], 300);

    // Test with 8 limbs (512-bit)
    let a8 = Uint::<8>::from_u64(100);
    let b8 = Uint::<8>::from_u64(200);
    let result8 = a8.add(&b8);
    assert_eq!(result8.limbs[0], 300);
    for i in 1..8 {
        assert_eq!(result8.limbs[i], 0);
    }
}

#[test]
fn uint_test_basic_addition() {
    let a = Uint::<4>::from_u64(0x1234_5678_9ABC_DEF0);
    let b = Uint::<4>::from_u64(0x0FED_CBA9_8765_4321);
    let result = a.add(&b);

    assert_eq!(result.limbs[0], 0x2222_2222_2222_2211);
    assert_eq!(result.limbs[1], 0);
}

#[test]
fn uint_test_addition_with_carry() {
    let a = Uint::<4>::from_u64(u64::MAX);
    let b = Uint::<4>::from_u64(1);
    let result = a.add(&b);

    assert_eq!(result.limbs[0], 0);
    assert_eq!(result.limbs[1], 1);
}

#[test]
fn uint_test_basic_multiplication() {
    let a = Uint::<4>::from_u64(0x1000);
    let b = Uint::<4>::from_u64(0x2000);
    let result = a.mul(&b);

    assert_eq!(result.limbs[0], 0x2000000);
    assert_eq!(result.limbs[1], 0);
}

#[test]
fn uint_test_multiplication_large() {
    let a = Uint::<4>::from_u64(0xFFFF_FFFF);
    let b = Uint::<4>::from_u64(0xFFFF_FFFF);
    let result = a.mul(&b);

    assert_eq!(result.limbs[0], 0xFFFFFFFE00000001);
    assert_eq!(result.limbs[1], 0);
}

#[test]
fn uint_test_zero() {
    let zero = Uint::<4>::zero();
    let a = Uint::<4>::from_u64(42);

    let add_result = a.add(&zero);
    let mul_result = a.mul(&zero);

    assert_eq!(add_result.limbs[0], 42);
    assert_eq!(mul_result.limbs[0], 0);
}

#[test]
fn uint_test_different_limb_sizes() {
    let a1 = Uint::<1>::from_u64(100);
    let b1 = Uint::<1>::from_u64(200);
    let result1 = a1.add(&b1);
    assert_eq!(result1.limbs[0], 300);

    let a8 = Uint::<8>::from_u64(100);
    let b8 = Uint::<8>::from_u64(200);
    let result8 = a8.add(&b8);
    assert_eq!(result8.limbs[0], 300);
    for i in 1..8 {
        assert_eq!(result8.limbs[i], 0);
    }
}

#[test]
fn test_mixed_limb_sizes() {
    // Test larger + smaller (should work)
    let a4 = Uint::<4>::from_u64(1000);
    let b2 = Uint::<2>::from_u64(2000);
    let result = a4.add(&b2);
    assert_eq!(result.limbs[0], 3000);
    assert_eq!(result.limbs[1], 0);

    // Test multiplication with different sizes
    let mul_result = a4.mul(&b2);
    assert_eq!(mul_result.limbs[0], 2_000_000);
    assert_eq!(mul_result.limbs[1], 0);
}

#[test]
fn test_max_multiplication_preserves_high_bits() {
    // Test u64::MAX * u64::MAX to ensure high bits are preserved
    let max_val = u64::MAX;
    let a = Uint::<2>::from_u64(max_val);
    let b = Uint::<2>::from_u64(max_val);
    let result = a.mul(&b);

    // u64::MAX * u64::MAX = 0xFFFFFFFFFFFFFFFE0000000000000001
    assert_eq!(result.limbs[0], 0x0000000000000001);
    assert_eq!(result.limbs[1], 0xFFFFFFFFFFFFFFFE);
}

#[test]
fn test_large_multiplication_with_carry() {
    // Test multiplication that generates significant carries
    let a = Uint::<4>::from_u64(0xFFFFFFFFFFFFFFFF);
    let b = Uint::<4>::from_u64(0xFFFFFFFFFFFFFFFF);
    let result = a.mul(&b);

    // Should produce: limbs[0] = 1, limbs[1] = 0xFFFFFFFFFFFFFFFE
    assert_eq!(result.limbs[0], 1);
    assert_eq!(result.limbs[1], 0xFFFFFFFFFFFFFFFE);
    assert_eq!(result.limbs[2], 0);
    assert_eq!(result.limbs[3], 0);
}
