//! The mathematical model of a limb sequence.
//!
//! A sequence of 64-bit limbs, least significant first, denotes the natural
//! number `sum limbs[i] * 2^(64*i)`.  `prefix_value` gives the value of the
//! first `k` limbs, which is the shape every ripple-carry loop invariant
//! takes; `limbs_value` is the value of the whole sequence.

use vstd::prelude::*;
use vstd::arithmetic::power2::pow2;
use vstd::arithmetic::power2::lemma_pow2_adds;
use vstd::arithmetic::power2::lemma_pow2_pos;
use vstd::arithmetic::power2::lemma2_to64;
use vstd::arithmetic::power2::lemma2_to64_rest;
use vstd::arithmetic::mul::lemma_mul_inequality;
use vstd::arithmetic::div_mod::lemma_fundamental_div_mod;
use vstd::arithmetic::div_mod::lemma_fundamental_div_mod_converse_div;
use vstd::arithmetic::div_mod::lemma_fundamental_div_mod_converse_mod;
use vstd::arithmetic::div_mod::lemma_fundamental_div_mod_converse;
use vstd::arithmetic::div_mod::lemma_mod_multiples_vanish;
use vstd::arithmetic::div_mod::lemma_small_mod;

verus! {

/// The number denoted by the first `k` limbs of `s`, least significant first.
pub open spec fn prefix_value(s: Seq<u64>, k: int) -> nat
    decreases k,
{
    if k <= 0 {
        0
    } else {
        prefix_value(s, k - 1) + (s[k - 1] as nat) * pow2((64 * (k - 1)) as nat)
    }
}

/// The number denoted by the whole limb sequence `s`.
pub open spec fn limbs_value(s: Seq<u64>) -> nat {
    prefix_value(s, s.len() as int)
}

/// A prefix value depends only on the limbs below `k`.
pub proof fn lemma_prefix_value_agrees(s: Seq<u64>, t: Seq<u64>, k: int)
    requires
        forall|i: int| 0 <= i < k ==> s[i] == t[i],
    ensures
        prefix_value(s, k) == prefix_value(t, k),
    decreases k,
{
    if k > 0 {
        lemma_prefix_value_agrees(s, t, k - 1);
    }
}

/// The value of `k` limbs is below `2^(64*k)`.
pub proof fn lemma_prefix_value_bound(s: Seq<u64>, k: int)
    requires
        0 <= k,
    ensures
        prefix_value(s, k) < pow2((64 * k) as nat),
    decreases k,
{
    if k == 0 {
        lemma2_to64();
    } else {
        lemma_prefix_value_bound(s, k - 1);
        let p = pow2((64 * (k - 1)) as nat);
        lemma_mul_inequality(s[k - 1] as int, 0xffff_ffff_ffff_ffffu64 as int, p as int);
        lemma_pow2_adds((64 * (k - 1)) as nat, 64);
        lemma2_to64_rest();
        assert(prefix_value(s, k) <= p - 1 + 0xffff_ffff_ffff_ffff * p);
        assert(p - 1 + 0xffff_ffff_ffff_ffff * p == 0x1_0000_0000_0000_0000 * p - 1);
        assert(pow2((64 * k) as nat) == pow2(64) * p);
    }
}

/// Limbs that are zero from `m` on contribute nothing to a prefix value.
pub proof fn lemma_prefix_value_zero_above(s: Seq<u64>, m: int, k: int)
    requires
        0 <= m <= k,
        forall|i: int| m <= i < k ==> s[i] == 0,
    ensures
        prefix_value(s, k) == prefix_value(s, m),
    decreases k,
{
    if k > m {
        lemma_prefix_value_zero_above(s, m, k - 1);
    }
}

/// How overwriting the limb at `p` moves a prefix value.
pub proof fn lemma_prefix_value_update(s: Seq<u64>, p: int, x: u64, k: int)
    requires
        0 <= p < s.len(),
        k <= s.len(),
    ensures
        p < k ==> prefix_value(s.update(p, x), k) + (s[p] as nat) * pow2((64 * p) as nat)
            == prefix_value(s, k) + (x as nat) * pow2((64 * p) as nat),
        k <= p ==> prefix_value(s.update(p, x), k) == prefix_value(s, k),
    decreases k,
{
    if k <= 0 {
    } else {
        lemma_prefix_value_update(s, p, x, k - 1);
        if p == k - 1 {
            assert(s.update(p, x)[k - 1] == x);
        } else if p < k - 1 {
            assert(s.update(p, x)[k - 1] == s[k - 1]);
        }
    }
}

/// A prefix value splits at `k` into the low `k` limbs and a shifted prefix
/// of the remaining limbs.
pub proof fn lemma_prefix_value_split(s: Seq<u64>, k: int, m: int)
    requires
        0 <= k <= m <= s.len(),
    ensures
        prefix_value(s, m) == prefix_value(s, k) + pow2((64 * k) as nat) * prefix_value(
            s.skip(k),
            m - k,
        ),
    decreases m - k,
{
    if m == k {
        assert(prefix_value(s.skip(k), 0) == 0);
    } else {
        lemma_prefix_value_split(s, k, m - 1);
        let pk = pow2((64 * k) as nat);
        let pr = pow2((64 * (m - 1 - k)) as nat);
        lemma_pow2_adds((64 * k) as nat, (64 * (m - 1 - k)) as nat);
        assert(pow2((64 * (m - 1)) as nat) == pk * pr);
        assert(prefix_value(s, m) == prefix_value(s, m - 1) + (s[m - 1] as nat) * pow2(
            (64 * (m - 1)) as nat,
        ));
        assert(s.skip(k)[m - 1 - k] == s[m - 1]);
        assert(prefix_value(s.skip(k), m - k) == prefix_value(s.skip(k), m - 1 - k) + (s[m
            - 1] as nat) * pr);
        assert(pk * prefix_value(s.skip(k), m - k) == pk * prefix_value(s.skip(k), m - 1 - k)
            + (s[m - 1] as nat) * (pk * pr)) by (nonlinear_arith)
            requires
                prefix_value(s.skip(k), m - k) == prefix_value(s.skip(k), m - 1 - k) + (s[m
                    - 1] as nat) * pr,
        ;
        assert((s[m - 1] as nat) * pow2((64 * (m - 1)) as nat) == (s[m - 1] as nat) * (pk
            * pr));
        assert(prefix_value(s, m) == prefix_value(s, k) + pk * prefix_value(s.skip(k), m - 1
            - k) + (s[m - 1] as nat) * (pk * pr));
    }
}

/// The value of a limb sequence splits at `k` into the low `k` limbs and the
/// value of the remaining limbs shifted up by `64 * k` bits.
pub proof fn lemma_limbs_value_split(s: Seq<u64>, k: int)
    requires
        0 <= k <= s.len(),
    ensures
        limbs_value(s) == prefix_value(s, k) + pow2((64 * k) as nat) * limbs_value(s.skip(k)),
{
    lemma_prefix_value_split(s, k, s.len() as int);
}

/// How overwriting the limb at `p` moves the value of the whole sequence.
pub proof fn lemma_limbs_value_update(s: Seq<u64>, p: int, x: u64)
    requires
        0 <= p < s.len(),
    ensures
        limbs_value(s.update(p, x)) + (s[p] as nat) * pow2((64 * p) as nat)
            == limbs_value(s) + (x as nat) * pow2((64 * p) as nat),
{
    lemma_prefix_value_update(s, p, x, s.len() as int);
}

/// Equal prefix values force equal limbs: each limb is in turn the
/// quotient of the prefix value by its weight.
proof fn lemma_prefix_value_injective(s: Seq<u64>, t: Seq<u64>, k: int)
    requires
        0 <= k,
        prefix_value(s, k) == prefix_value(t, k),
    ensures
        forall|i: int| 0 <= i < k ==> s[i] == t[i],
    decreases k,
{
    if k > 0 {
        let p = pow2((64 * (k - 1)) as nat);
        lemma_prefix_value_bound(s, k - 1);
        lemma_prefix_value_bound(t, k - 1);
        lemma_pow2_pos((64 * (k - 1)) as nat);
        lemma_fundamental_div_mod_converse(
            prefix_value(s, k) as int,
            p as int,
            s[k - 1] as int,
            prefix_value(s, k - 1) as int,
        );
        lemma_fundamental_div_mod_converse(
            prefix_value(t, k) as int,
            p as int,
            t[k - 1] as int,
            prefix_value(t, k - 1) as int,
        );
        assert(s[k - 1] == t[k - 1]);
        lemma_prefix_value_injective(s, t, k - 1);
    }
}

/// A limb sequence is determined by its value: two sequences of the same
/// length denoting the same number are equal limb for limb.
pub proof fn lemma_limbs_value_injective(s: Seq<u64>, t: Seq<u64>)
    requires
        s.len() == t.len(),
        limbs_value(s) == limbs_value(t),
    ensures
        s == t,
{
    lemma_prefix_value_injective(s, t, s.len() as int);
    assert(s =~= t);
}

/// A limb sequence denoting zero has every limb zero.
pub proof fn lemma_limbs_value_all_zero(s: Seq<u64>)
    requires
        limbs_value(s) == 0,
    ensures
        forall|i: int| 0 <= i < s.len() ==> s[i] == 0u64,
{
    let z = Seq::<u64>::new(s.len(), |i: int| 0u64);
    lemma_prefix_value_zero_above(z, 0, s.len() as int);
    assert(prefix_value(z, 0) == 0);
    lemma_limbs_value_injective(s, z);
}

/// How many limbs are needed to hold `bitsize` bits.
pub open spec fn limbs_for_bits(bitsize: nat) -> nat {
    (bitsize + 63) / 64
}

/// What a limb of `s` becomes when the value is reduced to its low
/// `bitsize` bits: limbs wholly above the boundary become zero, and a
/// boundary limb that straddles it keeps only its low `bitsize % 64` bits.
pub open spec fn mask_limb(s: Seq<u64>, bitsize: nat, i: int) -> u64 {
    let nl = limbs_for_bits(bitsize) as int;
    if i < nl {
        if i == nl - 1 && bitsize % 64 != 0 {
            (((s[i] as nat) % pow2(bitsize % 64)) as u64)
        } else {
            s[i]
        }
    } else {
        0u64
    }
}

/// `s` reduced to its low `bitsize` bits, limb by limb.
pub open spec fn masked_seq(s: Seq<u64>, bitsize: nat) -> Seq<u64> {
    Seq::new(s.len(), |i: int| mask_limb(s, bitsize, i))
}

/// Masking a limb sequence to `bitsize` bits computes its value modulo
/// `2^bitsize`.
pub proof fn lemma_masked_seq_value(s: Seq<u64>, bitsize: nat)
    requires
        bitsize <= 64 * s.len(),
    ensures
        limbs_value(masked_seq(s, bitsize)) == limbs_value(s) % pow2(bitsize),
{
    let n = s.len() as int;
    let m = masked_seq(s, bitsize);
    if bitsize == 0 {
        assert(limbs_for_bits(0) == 0);
        assert(forall|i: int| 0 <= i < n ==> m[i] == 0u64);
        lemma_prefix_value_zero_above(m, 0, n);
        assert(prefix_value(m, 0) == 0);
        lemma2_to64();
        assert(limbs_value(s) % pow2(0) == 0);
    } else {
        let d = (bitsize - 1) as int;
        lemma_fundamental_div_mod(d, 64);
        let q = d / 64;
        let r = (bitsize - 64 * q) as nat;
        assert(1 <= r <= 64);
        lemma_fundamental_div_mod_converse_div((bitsize + 63) as int, 64, q + 1, r - 1);
        assert(limbs_for_bits(bitsize) == q + 1);
        if r == 64 {
            lemma_fundamental_div_mod_converse_mod(bitsize as int, 64, q + 1, 0);
            assert(bitsize % 64 == 0);
        } else {
            lemma_fundamental_div_mod_converse_mod(bitsize as int, 64, q, r as int);
            assert(bitsize % 64 == r);
        }
        assert(q + 1 <= n);
        // split the value at the boundary limb
        lemma_limbs_value_split(s, q + 1);
        let v2 = limbs_value(s.skip(q + 1));
        assert(prefix_value(s, q + 1) == prefix_value(s, q) + (s[q] as nat) * pow2(
            (64 * q) as nat,
        ));
        // split the boundary limb at bit r
        lemma_pow2_pos(r);
        lemma_fundamental_div_mod(s[q] as int, pow2(r) as int);
        let l = (s[q] as nat) % pow2(r);
        let h = (s[q] as nat) / pow2(r);
        assert((s[q] as nat) == pow2(r) * h + l);
        if r == 64 {
            lemma2_to64_rest();
            lemma_small_mod(s[q] as nat, pow2(64));
            assert(l == s[q] as nat);
        }
        assert(m[q] as nat == l);
        // the masked value is the low part
        lemma_prefix_value_agrees(m, s, q);
        lemma_prefix_value_zero_above(m, q + 1, n);
        assert(limbs_value(m) == prefix_value(s, q) + l * pow2((64 * q) as nat));
        // the low part is below 2^bitsize ...
        lemma_prefix_value_bound(s, q);
        lemma_pow2_adds((64 * q) as nat, r);
        assert(pow2(bitsize) == pow2((64 * q) as nat) * pow2(r));
        assert(limbs_value(m) < pow2(bitsize)) by (nonlinear_arith)
            requires
                limbs_value(m) == prefix_value(s, q) + l * pow2((64 * q) as nat),
                prefix_value(s, q) < pow2((64 * q) as nat),
                l < pow2(r),
                pow2(bitsize) == pow2((64 * q) as nat) * pow2(r),
        ;
        // ... and everything above it is a multiple of 2^bitsize
        lemma_pow2_adds(bitsize, (64 - r) as nat);
        assert(pow2((64 * (q + 1)) as nat) == pow2(bitsize) * pow2((64 - r) as nat));
        let x = h + pow2((64 - r) as nat) * v2;
        assert(limbs_value(s) == limbs_value(m) + pow2(bitsize) * x) by (nonlinear_arith)
            requires
                limbs_value(s) == prefix_value(s, q) + (s[q] as nat) * pow2((64 * q) as nat)
                    + pow2((64 * (q + 1)) as nat) * v2,
                (s[q] as nat) == pow2(r) * h + l,
                pow2(bitsize) == pow2((64 * q) as nat) * pow2(r),
                pow2((64 * (q + 1)) as nat) == pow2(bitsize) * pow2((64 - r) as nat),
                limbs_value(m) == prefix_value(s, q) + l * pow2((64 * q) as nat),
                x == h + pow2((64 - r) as nat) * v2,
        ;
        lemma_mod_multiples_vanish(x as int, limbs_value(m) as int, pow2(bitsize) as int);
        lemma_small_mod(limbs_value(m), pow2(bitsize));
    }
}

} // verus!
