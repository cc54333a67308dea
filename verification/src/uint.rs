//! The fixed-width unsigned integer type and its operations.

use vstd::prelude::*;
use vstd::arithmetic::power2::pow2;
use vstd::arithmetic::power2::lemma_pow2_adds;
use vstd::arithmetic::power2::lemma_pow2_pos;
use vstd::arithmetic::power2::lemma2_to64;
use vstd::arithmetic::power2::lemma2_to64_rest;
use vstd::arithmetic::div_mod::lemma_fundamental_div_mod;
use vstd::arithmetic::div_mod::lemma_fundamental_div_mod_converse_mod;
use crate::limbs::prefix_value;
use crate::limbs::limbs_value;
use crate::limbs::lemma_prefix_value_agrees;
use crate::limbs::lemma_prefix_value_bound;
use crate::limbs::lemma_prefix_value_zero_above;
use crate::limbs::lemma_prefix_value_update;
use crate::limbs::lemma_limbs_value_update;
use crate::limbs::lemma_limbs_value_split;
use crate::limbs::limbs_for_bits;
use crate::limbs::mask_limb;
use crate::limbs::masked_seq;
use crate::limbs::lemma_masked_seq_value;
use crate::columns::col_fold;
use crate::columns::col_limb;
use crate::columns::col_product_seq;
use vstd::arithmetic::div_mod::lemma_fundamental_div_mod_converse_div;
use vstd::arithmetic::div_mod::lemma_mod_mod;
use vstd::bits::low_bits_mask;
use vstd::bits::lemma_u64_shl_is_mul;
use vstd::bits::lemma_u64_pow2_no_overflow;
use vstd::bits::lemma_u64_low_bits_mask_is_mod;

verus! {

/// An unsigned integer of exactly `LIMBS * 64` bits, stored as little-endian
/// 64-bit limbs.  The denoted value is `limbs_value(self@)`.
#[derive(Debug, Clone, Copy, PartialEq, Eq)]
pub struct Uint<const LIMBS: usize> {
    pub limbs: [u64; LIMBS],
}

impl<const LIMBS: usize> View for Uint<LIMBS> {
    type V = Seq<u64>;

    open spec fn view(&self) -> Seq<u64> {
        self.limbs@
    }
}

/// A 64-bit unsigned integer of one limb.
pub type Uint64 = Uint<1>;

/// A 128-bit unsigned integer of two limbs.
pub type Uint128 = Uint<2>;

/// A 256-bit unsigned integer of four limbs.
pub type Uint256 = Uint<4>;

/// A 512-bit unsigned integer of eight limbs.
pub type Uint512 = Uint<8>;

/// A 1024-bit unsigned integer of sixteen limbs.
pub type Uint1024 = Uint<16>;

impl<const LIMBS: usize> Uint<LIMBS> {
    /// The value with every limb zero.
    pub fn zero() -> (r: Self)
        ensures
            r@.len() == LIMBS,
            forall|i: int| 0 <= i < LIMBS ==> r@[i] == 0u64,
            limbs_value(r@) == 0,
    {
        let limbs = [0u64; LIMBS];
        proof {
            lemma_prefix_value_zero_above(limbs@, 0, LIMBS as int);
        }
        Uint { limbs }
    }

    /// The value `x`, placed in the least significant limb.
    pub fn from_u64(x: u64) -> (r: Self)
        requires
            LIMBS >= 1,
        ensures
            r@.len() == LIMBS,
            r@[0] == x,
            forall|i: int| 1 <= i < LIMBS ==> r@[i] == 0u64,
            limbs_value(r@) == x,
    {
        let mut limbs = [0u64; LIMBS];
        limbs[0] = x;
        proof {
            lemma_prefix_value_zero_above(limbs@, 1, LIMBS as int);
            lemma2_to64();
            assert(prefix_value(limbs@, 0) == 0);
            assert(prefix_value(limbs@, 1) == x);
        }
        Uint { limbs }
    }

    /// Limb-wise sum with ripple carry; the carry out of the top limb is
    /// discarded, so the result wraps modulo `2^(64*LIMBS)`.  The other
    /// operand may have fewer limbs; its missing high limbs count as zero.
    pub fn add<const OTHER_LIMBS: usize>(&self, other: &Uint<OTHER_LIMBS>) -> (r: Self)
        requires
            OTHER_LIMBS <= LIMBS,
        ensures
            r@.len() == LIMBS,
            limbs_value(r@) == (limbs_value(self@) + limbs_value(other@)) % pow2(
                64 * (LIMBS as nat),
            ),
    {
        let mut out = [0u64; LIMBS];
        let mut carry: u64 = 0;
        let ghost bext = Seq::new(
            LIMBS as nat,
            |j: int| if j < OTHER_LIMBS { other.limbs@[j] } else { 0u64 },
        );
        let mut i: usize = 0;
        while i < LIMBS
            invariant
                i <= LIMBS,
                carry <= 1,
                OTHER_LIMBS <= LIMBS,
                out@.len() == LIMBS,
                bext.len() == LIMBS,
                forall|j: int| 0 <= j < OTHER_LIMBS ==> bext[j] == other@[j],
                forall|j: int| OTHER_LIMBS <= j < LIMBS ==> bext[j] == 0u64,
                prefix_value(out@, i as int) + (carry as nat) * pow2(64 * (i as nat))
                    == prefix_value(self@, i as int) + prefix_value(bext, i as int),
            decreases LIMBS - i,
        {
            let o: u64 = if i < OTHER_LIMBS {
                other.limbs[i]
            } else {
                0
            };
            let s: u128 = self.limbs[i] as u128 + o as u128 + carry as u128;
            let lo: u64 = (s % 0x1_0000_0000_0000_0000u128) as u64;
            let hi: u64 = (s / 0x1_0000_0000_0000_0000u128) as u64;
            proof {
                lemma2_to64_rest();
                lemma_fundamental_div_mod(s as int, 0x1_0000_0000_0000_0000);
                assert((s as nat) == (lo as nat) + pow2(64) * (hi as nat));
                let p = pow2(64 * (i as nat));
                lemma_pow2_adds(64 * (i as nat), 64);
                assert(pow2(64 * ((i + 1) as nat)) == p * pow2(64));
                lemma_prefix_value_update(out@, i as int, lo, i as int);
                let out2 = out@.update(i as int, lo);
                assert(prefix_value(out2, i as int) == prefix_value(out@, i as int));
                assert(prefix_value(out2, i + 1) == prefix_value(out2, i as int) + (lo as nat)
                    * p);
                assert((lo as nat) * p + (hi as nat) * (p * pow2(64)) == ((lo as nat) + pow2(64)
                    * (hi as nat)) * p) by (nonlinear_arith);
                assert(((self.limbs@[i as int] as nat) + (o as nat) + (carry as nat)) * p
                    == (self.limbs@[i as int] as nat) * p + (o as nat) * p + (carry as nat)
                    * p) by (nonlinear_arith);
            }
            out[i] = lo;
            carry = hi;
            i = i + 1;
        }
        proof {
            lemma_prefix_value_agrees(bext, other@, OTHER_LIMBS as int);
            lemma_prefix_value_zero_above(bext, OTHER_LIMBS as int, LIMBS as int);
            lemma_prefix_value_bound(out@, LIMBS as int);
            lemma_pow2_pos(64 * (LIMBS as nat));
            lemma_fundamental_div_mod_converse_mod(
                (limbs_value(self@) + limbs_value(other@)) as int,
                pow2(64 * (LIMBS as nat)) as int,
                carry as int,
                limbs_value(out@) as int,
            );
        }
        Uint { limbs: out }
    }

    /// Schoolbook (convolution) product, truncated to the receiver's
    /// capacity: partial products that would land at limb `LIMBS` or above
    /// are discarded, so the result is the full product reduced modulo
    /// `2^(64*LIMBS)`.  The other operand may have fewer limbs.
    pub fn mul<const OTHER_LIMBS: usize>(&self, other: &Uint<OTHER_LIMBS>) -> (r: Self)
        requires
            OTHER_LIMBS <= LIMBS,
        ensures
            r@.len() == LIMBS,
            limbs_value(r@) == (limbs_value(self@) * limbs_value(other@)) % pow2(
                64 * (LIMBS as nat),
            ),
    {
        let ghost pn = pow2(64 * (LIMBS as nat));
        let ghost bv = limbs_value(other@);
        let mut out = [0u64; LIMBS];
        let ghost mut dropped: nat = 0nat;
        proof {
            lemma_prefix_value_zero_above(out@, 0, LIMBS as int);
            assert(prefix_value(out@, 0) == 0);
            assert(prefix_value(self@, 0) == 0);
        }
        let mut i: usize = 0;
        while i < LIMBS
            invariant
                i <= LIMBS,
                OTHER_LIMBS <= LIMBS,
                out@.len() == LIMBS,
                pn == pow2(64 * (LIMBS as nat)),
                bv == limbs_value(other@),
                limbs_value(out@) + dropped * pn == prefix_value(self@, i as int) * bv,
            decreases LIMBS - i,
        {
            let a_i: u64 = self.limbs[i];
            let mut carry: u64 = 0;
            let jmax: usize = if OTHER_LIMBS < LIMBS - i {
                OTHER_LIMBS
            } else {
                LIMBS - i
            };
            let ghost pw_i = pow2(64 * (i as nat));
            let mut j: usize = 0;
            proof {
                assert(prefix_value(other@, 0) == 0);
            }
            while j < jmax
                invariant
                    j <= jmax,
                    i < LIMBS,
                    i + jmax <= LIMBS,
                    jmax <= OTHER_LIMBS,
                    OTHER_LIMBS <= LIMBS,
                    out@.len() == LIMBS,
                    a_i == self@[i as int],
                    pw_i == pow2(64 * (i as nat)),
                    pn == pow2(64 * (LIMBS as nat)),
                    bv == limbs_value(other@),
                    limbs_value(out@) + (carry as nat) * pow2(64 * ((i + j) as nat)) + dropped
                        * pn == prefix_value(self@, i as int) * bv + (a_i as nat) * pw_i
                        * prefix_value(other@, j as int),
                decreases jmax - j,
            {
                let p = i + j;
                let b_j: u64 = other.limbs[j];
                proof {
                    assert((a_i as nat) * (b_j as nat) <= 0xffff_ffff_ffff_ffff
                        * 0xffff_ffff_ffff_ffff) by (nonlinear_arith)
                        requires
                            a_i <= 0xffff_ffff_ffff_ffffu64,
                            b_j <= 0xffff_ffff_ffff_ffffu64,
                    ;
                }
                let s: u128 = out[p] as u128 + (a_i as u128) * (b_j as u128) + carry as u128;
                let lo: u64 = (s % 0x1_0000_0000_0000_0000u128) as u64;
                let hi: u64 = (s / 0x1_0000_0000_0000_0000u128) as u64;
                proof {
                    let pw_j = pow2(64 * (j as nat));
                    let pw_p = pow2(64 * ((i + j) as nat));
                    let pw_p1 = pow2(64 * ((i + j + 1) as nat));
                    lemma_pow2_adds(64 * (i as nat), 64 * (j as nat));
                    lemma_pow2_adds(64 * ((i + j) as nat), 64);
                    lemma2_to64_rest();
                    lemma_fundamental_div_mod(s as int, 0x1_0000_0000_0000_0000);
                    assert((s as nat) == (lo as nat) + pow2(64) * (hi as nat));
                    let vold = limbs_value(out@);
                    let out2 = out@.update((i + j) as int, lo);
                    lemma_limbs_value_update(out@, (i + j) as int, lo);
                    let vnew = limbs_value(out2);
                    let pbj = prefix_value(other@, j as int);
                    let pbj1 = prefix_value(other@, j + 1);
                    assert(pbj1 == pbj + (b_j as nat) * pw_j);
                    assert(vnew + (hi as nat) * pw_p1 == vold + (carry as nat) * pw_p + ((
                    a_i as nat) * (b_j as nat)) * pw_p) by (nonlinear_arith)
                        requires
                            vnew + (out@[(i + j) as int] as nat) * pw_p == vold + (lo as nat)
                                * pw_p,
                            (s as nat) == (lo as nat) + pow2(64) * (hi as nat),
                            (s as nat) == (out@[(i + j) as int] as nat) + (a_i as nat) * (
                            b_j as nat) + (carry as nat),
                            pw_p1 == pw_p * pow2(64),
                    ;
                    assert(((a_i as nat) * (b_j as nat)) * pw_p == (a_i as nat) * pw_i * ((
                    b_j as nat) * pw_j)) by (nonlinear_arith)
                        requires
                            pw_p == pw_i * pw_j,
                    ;
                    assert((a_i as nat) * pw_i * pbj + (a_i as nat) * pw_i * ((b_j as nat)
                        * pw_j) == (a_i as nat) * pw_i * pbj1) by (nonlinear_arith)
                        requires
                            pbj1 == pbj + (b_j as nat) * pw_j,
                    ;
                }
                out[p] = lo;
                carry = hi;
                j = j + 1;
            }
            if jmax < OTHER_LIMBS {
                // the row hit the top limb: everything further in this row
                // carries weight at least 2^(64*LIMBS) and is discarded
                proof {
                    let ssuf = limbs_value(other@.skip(jmax as int));
                    lemma_limbs_value_split(other@, jmax as int);
                    lemma_pow2_adds(64 * (i as nat), 64 * (jmax as nat));
                    assert((a_i as nat) * pw_i * bv == (a_i as nat) * pw_i * prefix_value(
                        other@,
                        jmax as int,
                    ) + ((a_i as nat) * ssuf) * pn) by (nonlinear_arith)
                        requires
                            bv == prefix_value(other@, jmax as int) + pow2(64 * (jmax as nat))
                                * ssuf,
                            pw_i * pow2(64 * (jmax as nat)) == pn,
                    ;
                    assert((dropped + (carry as nat) + (a_i as nat) * ssuf) * pn == dropped
                        * pn + (carry as nat) * pn + ((a_i as nat) * ssuf) * pn)
                        by (nonlinear_arith);
                    dropped = dropped + (carry as nat) + (a_i as nat) * ssuf;
                }
            } else {
                // the row ran to the other operand's top limb: ripple the
                // remaining carry upward
                let mut p2: usize = i + jmax;
                while p2 < LIMBS && carry > 0
                    invariant
                        i + jmax <= p2 <= LIMBS,
                        out@.len() == LIMBS,
                        a_i == self@[i as int],
                        i < LIMBS,
                        pw_i == pow2(64 * (i as nat)),
                        pn == pow2(64 * (LIMBS as nat)),
                        bv == limbs_value(other@),
                        limbs_value(out@) + (carry as nat) * pow2(64 * (p2 as nat)) + dropped
                            * pn == prefix_value(self@, i as int) * bv + (a_i as nat) * pw_i
                            * bv,
                    decreases LIMBS - p2,
                {
                    let s2: u128 = out[p2] as u128 + carry as u128;
                    let lo2: u64 = (s2 % 0x1_0000_0000_0000_0000u128) as u64;
                    let hi2: u64 = (s2 / 0x1_0000_0000_0000_0000u128) as u64;
                    proof {
                        let pw_p = pow2(64 * (p2 as nat));
                        let pw_p1 = pow2(64 * ((p2 + 1) as nat));
                        lemma_pow2_adds(64 * (p2 as nat), 64);
                        lemma2_to64_rest();
                        lemma_fundamental_div_mod(s2 as int, 0x1_0000_0000_0000_0000);
                        assert((s2 as nat) == (lo2 as nat) + pow2(64) * (hi2 as nat));
                        let vold = limbs_value(out@);
                        let out2 = out@.update(p2 as int, lo2);
                        lemma_limbs_value_update(out@, p2 as int, lo2);
                        let vnew = limbs_value(out2);
                        assert(vnew + (hi2 as nat) * pw_p1 + dropped * pn == prefix_value(
                            self@,
                            i as int,
                        ) * bv + (a_i as nat) * pw_i * bv) by (nonlinear_arith)
                            requires
                                vnew + (out@[p2 as int] as nat) * pw_p == vold + (lo2 as nat)
                                    * pw_p,
                                (s2 as nat) == (lo2 as nat) + pow2(64) * (hi2 as nat),
                                (s2 as nat) == (out@[p2 as int] as nat) + (carry as nat),
                                vold + (carry as nat) * pw_p + dropped * pn == prefix_value(
                                    self@,
                                    i as int,
                                ) * bv + (a_i as nat) * pw_i * bv,
                                pw_p1 == pw_p * pow2(64),
                        ;
                    }
                    out[p2] = lo2;
                    carry = hi2;
                    p2 = p2 + 1;
                }
                proof {
                    if carry > 0 {
                        assert((dropped + (carry as nat)) * pn == dropped * pn + (carry as nat)
                            * pn) by (nonlinear_arith);
                        dropped = dropped + (carry as nat);
                    }
                }
            }
            proof {
                assert(prefix_value(self@, i + 1) == prefix_value(self@, i as int) + (
                a_i as nat) * pw_i);
                assert((prefix_value(self@, i as int) + (a_i as nat) * pw_i) * bv
                    == prefix_value(self@, i as int) * bv + (a_i as nat) * pw_i * bv)
                    by (nonlinear_arith);
            }
            i = i + 1;
        }
        proof {
            lemma_prefix_value_bound(out@, LIMBS as int);
            lemma_pow2_pos(64 * (LIMBS as nat));
            lemma_fundamental_div_mod_converse_mod(
                (limbs_value(self@) * limbs_value(other@)) as int,
                pn as int,
                dropped as int,
                limbs_value(out@) as int,
            );
        }
        Uint { limbs: out }
    }

    /// Reduces `x` to its low `bitsize` bits: zeroes every limb wholly
    /// above the boundary and, when `bitsize` is not a multiple of 64,
    /// keeps only the low `bitsize % 64` bits of the boundary limb.
    fn mask_to_bits(x: &Self, bitsize: usize) -> (r: Self)
        requires
            bitsize <= 64 * (LIMBS as int),
        ensures
            r@.len() == LIMBS,
            r@ == masked_seq(x@, bitsize as nat),
    {
        let mut out = x.limbs;
        let rbits: usize = bitsize % 64;
        let nl: usize = bitsize / 64 + if rbits == 0 {
            0
        } else {
            1
        };
        proof {
            lemma_fundamental_div_mod(bitsize as int, 64);
            if rbits == 0 {
                lemma_fundamental_div_mod_converse_div(
                    (bitsize + 63) as int,
                    64,
                    (bitsize as int) / 64,
                    63,
                );
            } else {
                lemma_fundamental_div_mod_converse_div(
                    (bitsize + 63) as int,
                    64,
                    (bitsize as int) / 64 + 1,
                    rbits - 1,
                );
            }
            assert(nl as int == limbs_for_bits(bitsize as nat) as int);
        }
        if rbits != 0 {
            proof {
                lemma_u64_pow2_no_overflow(rbits as nat);
                lemma_u64_shl_is_mul(1u64, rbits as u64);
                lemma_pow2_pos(rbits as nat);
            }
            let mask: u64 = (1u64 << rbits) - 1;
            proof {
                assert(mask as nat == low_bits_mask(rbits as nat));
                lemma_u64_low_bits_mask_is_mod(x.limbs@[nl - 1], rbits as nat);
            }
            out[nl - 1] = out[nl - 1] & mask;
            proof {
                assert(out@[nl - 1] == mask_limb(x@, bitsize as nat, nl - 1));
            }
        }
        let mut k: usize = nl;
        while k < LIMBS
            invariant
                nl <= k <= LIMBS,
                nl as int == limbs_for_bits(bitsize as nat) as int,
                out@.len() == LIMBS,
                x@.len() == LIMBS,
                forall|t: int| 0 <= t < nl ==> out@[t] == mask_limb(x@, bitsize as nat, t),
                forall|t: int| nl <= t < k ==> out@[t] == 0u64,
            decreases LIMBS - k,
        {
            out[k] = 0;
            k = k + 1;
        }
        proof {
            assert(out@ =~= masked_seq(x@, bitsize as nat));
        }
        Uint { limbs: out }
    }

    /// `(self + other) mod 2^bitsize`: the same-size wrapping sum, reduced
    /// to its low `bitsize` bits.  A `bitsize` of zero yields zero; a
    /// `bitsize` that is an exact multiple of 64 applies no partial mask to
    /// the boundary limb.
    pub fn addmod_bits(&self, other: &Self, bitsize: usize) -> (r: Self)
        requires
            bitsize <= 64 * (LIMBS as int),
        ensures
            r@.len() == LIMBS,
            limbs_value(r@) == (limbs_value(self@) + limbs_value(other@)) % pow2(
                bitsize as nat,
            ),
            limbs_value(r@) < pow2(bitsize as nat),
            forall|i: int|
                limbs_for_bits(bitsize as nat) <= i < LIMBS ==> r@[i] == 0u64,
    {
        let sum = self.add(other);
        let r = Self::mask_to_bits(&sum, bitsize);
        proof {
            lemma_masked_seq_value(sum@, bitsize as nat);
            let a = pow2(bitsize as nat);
            let b = pow2((64 * (LIMBS as int) - bitsize) as nat);
            lemma_pow2_pos(bitsize as nat);
            lemma_pow2_pos((64 * (LIMBS as int) - bitsize) as nat);
            lemma_pow2_adds(bitsize as nat, (64 * (LIMBS as int) - bitsize) as nat);
            assert(a * b == pow2(64 * (LIMBS as nat)));
            lemma_mod_mod(
                (limbs_value(self@) + limbs_value(other@)) as int,
                a as int,
                b as int,
            );
        }
        r
    }

    /// `self * other` reduced to `bitsize` bits, computed column by column:
    /// only the limb positions below `ceil(bitsize/64)` are produced, each
    /// as the fold described by `col_fold`, with no carry ever leaving its
    /// column; the boundary limb is then masked as in `addmod_bits` and
    /// every limb above it is zero.
    pub fn mulmod_bits(&self, other: &Self, bitsize: usize) -> (r: Self)
        requires
            bitsize <= 64 * (LIMBS as int),
        ensures
            r@.len() == LIMBS,
            r@ == masked_seq(
                col_product_seq(self@, other@, limbs_for_bits(bitsize as nat) as int),
                bitsize as nat,
            ),
            limbs_value(r@) < pow2(bitsize as nat),
            forall|i: int|
                limbs_for_bits(bitsize as nat) <= i < LIMBS ==> r@[i] == 0u64,
    {
        let mut out = [0u64; LIMBS];
        let rbits: usize = bitsize % 64;
        let nl: usize = bitsize / 64 + if rbits == 0 {
            0
        } else {
            1
        };
        proof {
            lemma_fundamental_div_mod(bitsize as int, 64);
            if rbits == 0 {
                lemma_fundamental_div_mod_converse_div(
                    (bitsize + 63) as int,
                    64,
                    (bitsize as int) / 64,
                    63,
                );
            } else {
                lemma_fundamental_div_mod_converse_div(
                    (bitsize + 63) as int,
                    64,
                    (bitsize as int) / 64 + 1,
                    rbits - 1,
                );
            }
            assert(nl as int == limbs_for_bits(bitsize as nat) as int);
        }
        let mut i: usize = 0;
        while i < nl
            invariant
                i <= nl,
                nl <= LIMBS,
                out@.len() == LIMBS,
                forall|t: int| 0 <= t < i ==> out@[t] == col_limb(self@, other@, t),
                forall|t: int| i <= t < LIMBS ==> out@[t] == 0u64,
            decreases nl - i,
        {
            let mut carry: u64 = 0;
            let mut j: usize = 0;
            proof {
                assert(col_fold(self@, other@, i as int, 0) == (0nat, 0nat));
            }
            while j <= i
                invariant
                    j <= i + 1,
                    i < nl,
                    nl <= LIMBS,
                    out@.len() == LIMBS,
                    out@[i as int] as nat == col_fold(self@, other@, i as int, j as int).0,
                    carry as nat == col_fold(self@, other@, i as int, j as int).1,
                    forall|t: int| 0 <= t < i ==> out@[t] == col_limb(self@, other@, t),
                    forall|t: int| i < t < LIMBS ==> out@[t] == 0u64,
                decreases i + 1 - j,
            {
                let a_j: u64 = self.limbs[j];
                let b_ij: u64 = other.limbs[i - j];
                proof {
                    assert((a_j as nat) * (b_ij as nat) <= 0xffff_ffff_ffff_ffff
                        * 0xffff_ffff_ffff_ffff) by (nonlinear_arith)
                        requires
                            a_j <= 0xffff_ffff_ffff_ffffu64,
                            b_ij <= 0xffff_ffff_ffff_ffffu64,
                    ;
                }
                let s: u128 = out[i] as u128 + (a_j as u128) * (b_ij as u128) + carry as u128;
                proof {
                    lemma2_to64_rest();
                    assert(col_fold(self@, other@, i as int, j + 1).0 == (s as nat) % pow2(
                        64,
                    ));
                    assert(col_fold(self@, other@, i as int, j + 1).1 == (s as nat) / pow2(
                        64,
                    ));
                }
                out[i] = (s % 0x1_0000_0000_0000_0000u128) as u64;
                carry = (s / 0x1_0000_0000_0000_0000u128) as u64;
                j = j + 1;
            }
            i = i + 1;
        }
        let raw = Uint { limbs: out };
        let r = Self::mask_to_bits(&raw, bitsize);
        proof {
            assert(out@ =~= col_product_seq(self@, other@, nl as int));
            lemma_masked_seq_value(out@, bitsize as nat);
            lemma_pow2_pos(bitsize as nat);
        }
        r
    }
}

} // verus!
