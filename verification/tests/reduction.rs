//! The bit-width-bounded modular helpers and the boundary conventions of
//! their masking, plus scenarios for the algebraic laws.

use bigint_rs::Uint;
use bigint_rs::Uint1024;
use bigint_rs::Uint64;

#[test]
fn test_addmod_basic() {
    let a = Uint::<2>::from_u64(5);
    let b = Uint::<2>::from_u64(7);
    let r = a.addmod_bits(&b, 8);
    assert_eq!(r.limbs[0], 12);
    assert_eq!(r.limbs[1], 0);
}

#[test]
fn test_addmod_bitsize_zero_is_zero() {
    let a = Uint::<2>::from_u64(u64::MAX);
    let b = Uint::<2>::from_u64(u64::MAX);
    let r = a.addmod_bits(&b, 0);
    assert_eq!(r.limbs[0], 0);
    assert_eq!(r.limbs[1], 0);
}

#[test]
fn test_addmod_multiple_of_64_keeps_whole_limbs() {
    // MAX + MAX = 2^65 - 2; mod 2^64 the carry limb is zeroed, no partial
    // mask touches the boundary limb
    let a = Uint::<4>::from_u64(u64::MAX);
    let b = Uint::<4>::from_u64(u64::MAX);
    let r = a.addmod_bits(&b, 64);
    assert_eq!(r.limbs[0], 0xFFFF_FFFF_FFFF_FFFE);
    assert_eq!(r.limbs[1], 0);
    assert_eq!(r.limbs[2], 0);
    assert_eq!(r.limbs[3], 0);
}

#[test]
fn test_addmod_straddling_boundary() {
    // MAX + MAX = 2^65 - 2 needs 65 bits: with bitsize 65 the carry bit
    // survives in the boundary limb
    let a = Uint::<4>::from_u64(u64::MAX);
    let b = Uint::<4>::from_u64(u64::MAX);
    let r = a.addmod_bits(&b, 65);
    assert_eq!(r.limbs[0], 0xFFFF_FFFF_FFFF_FFFE);
    assert_eq!(r.limbs[1], 1);
    assert_eq!(r.limbs[2], 0);
    assert_eq!(r.limbs[3], 0);
}

#[test]
fn test_addmod_masks_middle_limb() {
    // an all-ones value reduced to 100 bits: the boundary limb keeps only
    // its low 36 bits, everything above is forced to zero
    let a = Uint::<4> { limbs: [u64::MAX; 4] };
    let z = Uint::<4>::zero();
    let r = a.addmod_bits(&z, 100);
    assert_eq!(r.limbs[0], u64::MAX);
    assert_eq!(r.limbs[1], 0xF_FFFF_FFFF);
    assert_eq!(r.limbs[2], 0);
    assert_eq!(r.limbs[3], 0);
}

#[test]
fn test_mulmod_48_bits() {
    let a = Uint::<4>::from_u64(0xFFFF_FFFF_FFFF);
    let b = Uint::<4>::from_u64(0x1000);
    let r = a.mulmod_bits(&b, 48);
    assert_eq!(r.limbs[0], 0xFFFF_FFFF_F000);
    assert_eq!(r.limbs[1], 0);
    assert_eq!(r.limbs[2], 0);
    assert_eq!(r.limbs[3], 0);
}

#[test]
fn test_mulmod_32_bits() {
    let a = Uint::<2>::from_u64(0xFFFF_FFFF);
    let b = Uint::<2>::from_u64(2);
    let r = a.mulmod_bits(&b, 32);
    assert_eq!(r.limbs[0], 0xFFFF_FFFE);
    assert_eq!(r.limbs[1], 0);
}

#[test]
fn test_mulmod_bitsize_zero_is_zero() {
    let a = Uint::<2>::from_u64(123);
    let b = Uint::<2>::from_u64(456);
    let r = a.mulmod_bits(&b, 0);
    assert_eq!(r.limbs[0], 0);
    assert_eq!(r.limbs[1], 0);
}

#[test]
fn test_mulmod_carry_stays_in_column() {
    // MAX * MAX = 0xFFFFFFFFFFFFFFFE_0000000000000001, but the column at
    // position 0 keeps only its low 64 bits and its carry never reaches
    // position 1: the column-wise multiply yields [1, 0]
    let a = Uint::<2>::from_u64(u64::MAX);
    let b = Uint::<2>::from_u64(u64::MAX);
    let r = a.mulmod_bits(&b, 128);
    assert_eq!(r.limbs[0], 1);
    assert_eq!(r.limbs[1], 0);
}

#[test]
fn test_mulmod_matches_product_when_columns_fit() {
    // (3*2^64 + 4) * (5*2^64 + 2): every column sum fits in 64 bits, so
    // the result is the exact product reduced mod 2^128
    let a = Uint::<2> { limbs: [4, 3] };
    let b = Uint::<2> { limbs: [2, 5] };
    let r = a.mulmod_bits(&b, 128);
    assert_eq!(r.limbs[0], 8);
    assert_eq!(r.limbs[1], 26);
}

#[test]
fn test_mul_truncates_high_product() {
    // MAX * 2 at the top limb: the product's bit above the capacity is
    // silently discarded
    let a = Uint::<4> { limbs: [0, 0, 0, u64::MAX] };
    let b = Uint::<2>::from_u64(2);
    let r = a.mul(&b);
    assert_eq!(r.limbs[0], 0);
    assert_eq!(r.limbs[1], 0);
    assert_eq!(r.limbs[2], 0);
    assert_eq!(r.limbs[3], 0xFFFF_FFFF_FFFF_FFFE);
}

#[test]
fn test_add_carry_ripples_through_limbs() {
    // all-ones plus one wraps the whole value to zero
    let a = Uint::<4> { limbs: [u64::MAX; 4] };
    let b = Uint::<4>::from_u64(1);
    let r = a.add(&b);
    for i in 0..4 {
        assert_eq!(r.limbs[i], 0);
    }
}

#[test]
fn test_add_identity_and_annihilator() {
    let a = Uint::<4> { limbs: [0xDEAD_BEEF, 7, u64::MAX, 42] };
    let zero = Uint::<4>::zero();
    let one = Uint::<2>::from_u64(1);
    assert_eq!(a.add(&zero), a);
    assert_eq!(a.mul(&one), a);
    assert_eq!(a.mul(&zero), Uint::<4>::zero());
}

#[test]
fn test_from_u64_places_low_limb() {
    let a = Uint::<4>::from_u64(0xABCD);
    assert_eq!(a.limbs[0], 0xABCD);
    for i in 1..4 {
        assert_eq!(a.limbs[i], 0);
    }
}

#[test]
fn test_width_aliases() {
    let a = Uint64::from_u64(9);
    let b = Uint64::from_u64(8);
    assert_eq!(a.mul(&b).limbs[0], 72);

    let c = Uint1024::from_u64(3);
    let d = Uint1024::from_u64(4);
    let s = c.add(&d);
    assert_eq!(s.limbs[0], 7);
    for i in 1..16 {
        assert_eq!(s.limbs[i], 0);
    }
}

#[test]
fn test_mixed_size_ignores_absent_high_limbs() {
    // a wide operand plus a narrow one behaves as if the narrow one had
    // zero high limbs
    let a = Uint::<4> { limbs: [10, 20, 30, 40] };
    let b2 = Uint::<2> { limbs: [1, 2] };
    let b4 = Uint::<4> { limbs: [1, 2, 0, 0] };
    assert_eq!(a.add(&b2), a.add(&b4));
    assert_eq!(a.mul(&b2), a.mul(&b4));
}
