//! Algebraic laws of the arithmetic operations, stated over the limb model
//! and proved once for every operand width.
//!
//! Each law takes the sequences of an operation's operands and result,
//! assumes exactly what the operation's contract promises of them, and
//! concludes the algebraic fact.

use vstd::prelude::*;
use vstd::arithmetic::power2::pow2;
use vstd::arithmetic::power2::lemma_pow2_adds;
use vstd::arithmetic::power2::lemma_pow2_pos;
use vstd::arithmetic::div_mod::lemma_fundamental_div_mod;
use vstd::arithmetic::div_mod::lemma_mod_mod;
use vstd::arithmetic::div_mod::lemma_small_mod;
use crate::limbs::limbs_value;
use crate::limbs::limbs_for_bits;
use crate::limbs::masked_seq;
use crate::limbs::lemma_prefix_value_bound;
use crate::limbs::lemma_prefix_value_zero_above;
use crate::limbs::lemma_limbs_value_injective;
use crate::limbs::lemma_limbs_value_all_zero;
use crate::limbs::lemma_masked_seq_value;
use crate::columns::col_sum;
use crate::columns::col_product_seq;
use crate::columns::conv_value;
use crate::columns::lemma_col_product_prefix;
use crate::columns::lemma_conv_value_is_product;
use crate::columns::lemma_conv_value_mod;

verus! {

/// Adding a zero value is the identity: any result whose limbs denote the
/// wrapped sum of `a` and a value of zero has exactly the limbs of `a`.
pub proof fn lemma_add_zero_identity(a: Seq<u64>, z: Seq<u64>, r: Seq<u64>)
    requires
        limbs_value(z) == 0,
        r.len() == a.len(),
        limbs_value(r) == (limbs_value(a) + limbs_value(z)) % pow2(64 * a.len()),
    ensures
        r == a,
{
    lemma_prefix_value_bound(a, a.len() as int);
    lemma_pow2_pos(64 * a.len());
    lemma_small_mod(limbs_value(a), pow2(64 * a.len()));
    lemma_limbs_value_injective(r, a);
}

/// Multiplying by a value of one is the identity: any result whose limbs
/// denote the truncated product of `a` and a value of one has exactly the
/// limbs of `a`.
pub proof fn lemma_mul_one_identity(a: Seq<u64>, one: Seq<u64>, r: Seq<u64>)
    requires
        limbs_value(one) == 1,
        r.len() == a.len(),
        limbs_value(r) == (limbs_value(a) * limbs_value(one)) % pow2(64 * a.len()),
    ensures
        r == a,
{
    assert(limbs_value(a) * limbs_value(one) == limbs_value(a));
    lemma_prefix_value_bound(a, a.len() as int);
    lemma_pow2_pos(64 * a.len());
    lemma_small_mod(limbs_value(a), pow2(64 * a.len()));
    lemma_limbs_value_injective(r, a);
}

/// Multiplying by a zero value annihilates: any result whose limbs denote
/// the truncated product of `a` and a value of zero has every limb zero.
pub proof fn lemma_mul_zero_annihilates(a: Seq<u64>, z: Seq<u64>, r: Seq<u64>)
    requires
        limbs_value(z) == 0,
        r.len() == a.len(),
        limbs_value(r) == (limbs_value(a) * limbs_value(z)) % pow2(64 * a.len()),
    ensures
        limbs_value(r) == 0,
        forall|i: int| 0 <= i < r.len() ==> r[i] == 0u64,
{
    assert(limbs_value(a) * limbs_value(z) == 0);
    lemma_pow2_pos(64 * a.len());
    lemma_small_mod(0, pow2(64 * a.len()));
    lemma_limbs_value_all_zero(r);
}

/// When no column of the exact schoolbook convolution overflows 64 bits,
/// the column-wise modular multiply agrees with the full product reduced
/// to `bitsize` bits: its masked output denotes `(a * b) mod 2^bitsize`.
pub proof fn lemma_mulmod_bits_exact(a: Seq<u64>, b: Seq<u64>, bitsize: nat, r: Seq<u64>)
    requires
        a.len() == b.len(),
        bitsize <= 64 * a.len(),
        forall|i: int| 0 <= i < limbs_for_bits(bitsize) ==> col_sum(a, b, i) < pow2(64),
        r == masked_seq(col_product_seq(a, b, limbs_for_bits(bitsize) as int), bitsize),
    ensures
        limbs_value(r) == (limbs_value(a) * limbs_value(b)) % pow2(bitsize),
{
    let n = a.len() as int;
    let nl = limbs_for_bits(bitsize) as int;
    lemma_fundamental_div_mod((bitsize + 63) as int, 64);
    assert(bitsize <= 64 * nl);
    assert(nl <= n);
    // the raw column-product limbs denote the first nl exact columns
    let raw = col_product_seq(a, b, nl);
    lemma_col_product_prefix(a, b, nl, nl);
    lemma_prefix_value_zero_above(raw, nl, n);
    assert(limbs_value(raw) == conv_value(a, b, nl));
    // masking reduces that value modulo 2^bitsize
    lemma_masked_seq_value(raw, bitsize);
    // all columns together denote the full product
    lemma_conv_value_is_product(a, b);
    assert(conv_value(a, b, n + n) == limbs_value(a) * limbs_value(b));
    // columns at nl and above vanish modulo 2^(64*nl), hence modulo 2^bitsize
    lemma_conv_value_mod(a, b, nl, n + n);
    let c = pow2((64 * nl - bitsize) as nat);
    lemma_pow2_pos(bitsize);
    lemma_pow2_pos((64 * nl - bitsize) as nat);
    lemma_pow2_adds(bitsize, (64 * nl - bitsize) as nat);
    assert(pow2((64 * nl) as nat) == pow2(bitsize) * c);
    lemma_mod_mod(conv_value(a, b, n + n) as int, pow2(bitsize) as int, c as int);
    lemma_mod_mod(conv_value(a, b, nl) as int, pow2(bitsize) as int, c as int);
}

} // verus!
