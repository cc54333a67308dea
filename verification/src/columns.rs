//! The column-wise product accumulation used by the modular multiply.
//!
//! For each output position `i` the products `a[j] * b[i-j]` are folded into
//! a single 64-bit accumulator: every step adds the next full product and
//! the previous step's high half, keeps the low 64 bits, and hands the new
//! high half to the next step.  No carry ever leaves the column.  This
//! module also relates the fold to the exact column sums of the schoolbook
//! convolution, which is what the equivalence law for the modular multiply
//! rests on.

use vstd::prelude::*;
use vstd::arithmetic::power2::pow2;
use vstd::arithmetic::power2::lemma_pow2_adds;
use vstd::arithmetic::power2::lemma_pow2_pos;
use vstd::arithmetic::power2::lemma2_to64;
use vstd::arithmetic::power2::lemma2_to64_rest;
use vstd::arithmetic::div_mod::lemma_basic_div;
use vstd::arithmetic::div_mod::lemma_mod_multiples_vanish;
use vstd::arithmetic::div_mod::lemma_small_mod;
use crate::limbs::prefix_value;
use crate::limbs::limbs_value;
use crate::limbs::lemma_prefix_value_zero_above;
use crate::limbs::lemma_limbs_value_split;

verus! {

/// The folded column accumulator at position `i` after the first `j`
/// products: `.0` is the low 64-bit accumulator, `.1` the pending high half.
pub open spec fn col_fold(a: Seq<u64>, b: Seq<u64>, i: int, j: int) -> (nat, nat)
    decreases j,
{
    if j <= 0 {
        (0, 0)
    } else {
        let prev = col_fold(a, b, i, j - 1);
        let s = prev.0 + (a[j - 1] as nat) * (b[i - j + 1] as nat) + prev.1;
        (s % pow2(64), s / pow2(64))
    }
}

/// The limb the column-wise multiply leaves at position `i`, before masking.
pub open spec fn col_limb(a: Seq<u64>, b: Seq<u64>, i: int) -> u64 {
    col_fold(a, b, i, i + 1).0 as u64
}

/// The raw output of the column-wise multiply: the folded column at every
/// position below `nl`, zero above.
pub open spec fn col_product_seq(a: Seq<u64>, b: Seq<u64>, nl: int) -> Seq<u64> {
    Seq::new(a.len(), |i: int| if i < nl { col_limb(a, b, i) } else { 0u64 })
}

/// One term of the schoolbook convolution, zero when either index is out
/// of range.
pub open spec fn conv_term(a: Seq<u64>, b: Seq<u64>, i: int, j: int) -> nat {
    if 0 <= j < a.len() && 0 <= i - j < b.len() {
        (a[j] as nat) * (b[i - j] as nat)
    } else {
        0
    }
}

/// The exact sum of the first `j` terms of the column at position `i`.
pub open spec fn col_psum(a: Seq<u64>, b: Seq<u64>, i: int, j: int) -> nat
    decreases j,
{
    if j <= 0 {
        0
    } else {
        col_psum(a, b, i, j - 1) + conv_term(a, b, i, j - 1)
    }
}

/// The exact sum of the column at position `i` of the schoolbook
/// convolution: `sum of a[j] * b[i-j] over j`.
pub open spec fn col_sum(a: Seq<u64>, b: Seq<u64>, i: int) -> nat {
    col_psum(a, b, i, i + 1)
}

/// The number denoted by the first `k` exact columns, each at its weight.
pub open spec fn conv_value(a: Seq<u64>, b: Seq<u64>, k: int) -> nat
    decreases k,
{
    if k <= 0 {
        0
    } else {
        conv_value(a, b, k - 1) + col_sum(a, b, k - 1) * pow2((64 * (k - 1)) as nat)
    }
}

/// Column partial sums grow with the number of terms.
proof fn lemma_col_psum_mono(a: Seq<u64>, b: Seq<u64>, i: int, j1: int, j2: int)
    requires
        j1 <= j2,
    ensures
        col_psum(a, b, i, j1) <= col_psum(a, b, i, j2),
    decreases j2 - j1,
{
    if j1 < j2 {
        lemma_col_psum_mono(a, b, i, j1, j2 - 1);
    }
}

/// When a column's exact sum fits in 64 bits, the fold computes it exactly
/// and leaves no pending high half.
pub proof fn lemma_col_fold_exact(a: Seq<u64>, b: Seq<u64>, i: int, j: int)
    requires
        0 <= i < a.len(),
        i < b.len(),
        0 <= j <= i + 1,
        col_sum(a, b, i) < pow2(64),
    ensures
        col_fold(a, b, i, j) == (col_psum(a, b, i, j), 0nat),
    decreases j,
{
    if j > 0 {
        lemma_col_fold_exact(a, b, i, j - 1);
        assert(conv_term(a, b, i, j - 1) == (a[j - 1] as nat) * (b[i - j + 1] as nat));
        lemma_col_psum_mono(a, b, i, j, i + 1);
        let s = col_psum(a, b, i, j - 1) + (a[j - 1] as nat) * (b[i - j + 1] as nat) + 0;
        assert(s == col_psum(a, b, i, j));
        lemma_pow2_pos(64);
        lemma_small_mod(s, pow2(64));
        lemma_basic_div(s as int, pow2(64) as int);
    }
}

/// The value of the raw column-product limbs is the value of the exact
/// columns, as long as every column in range fits in 64 bits.
pub proof fn lemma_col_product_prefix(a: Seq<u64>, b: Seq<u64>, nl: int, k: int)
    requires
        a.len() == b.len(),
        0 <= k <= nl <= a.len(),
        forall|i: int| 0 <= i < nl ==> col_sum(a, b, i) < pow2(64),
    ensures
        prefix_value(col_product_seq(a, b, nl), k) == conv_value(a, b, k),
    decreases k,
{
    if k > 0 {
        lemma_col_product_prefix(a, b, nl, k - 1);
        lemma_col_fold_exact(a, b, k - 1, k);
        lemma2_to64_rest();
        assert(col_product_seq(a, b, nl)[k - 1] as nat == col_sum(a, b, k - 1));
    }
}

/// Shifts a column partial sum to the tail of `a`: the first term splits
/// off and the rest is the same sum one position down.
proof fn lemma_col_psum_shift(a: Seq<u64>, b: Seq<u64>, i: int, j: int)
    requires
        a.len() >= 1,
        j >= 1,
    ensures
        col_psum(a, b, i, j) == conv_term(a, b, i, 0) + col_psum(a.drop_first(), b, i - 1, j
            - 1),
    decreases j,
{
    let t = a.drop_first();
    if j == 1 {
        assert(col_psum(a, b, i, 0) == 0);
        assert(col_psum(t, b, i - 1, 0) == 0);
        assert(col_psum(a, b, i, 1) == conv_term(a, b, i, 0));
    } else {
        lemma_col_psum_shift(a, b, i, j - 1);
        assert(conv_term(a, b, i, j - 1) == conv_term(t, b, i - 1, j - 2));
        assert(col_psum(a, b, i, j) == col_psum(a, b, i, j - 1) + conv_term(a, b, i, j - 1));
        assert(col_psum(t, b, i - 1, j - 1) == col_psum(t, b, i - 1, j - 2) + conv_term(
            t,
            b,
            i - 1,
            j - 2,
        ));
    }
}

/// With an empty left operand every column is empty.
proof fn lemma_col_psum_empty(a: Seq<u64>, b: Seq<u64>, i: int, j: int)
    requires
        a.len() == 0,
    ensures
        col_psum(a, b, i, j) == 0,
    decreases j,
{
    if j > 0 {
        lemma_col_psum_empty(a, b, i, j - 1);
    }
}

/// With an empty left operand the convolution denotes zero.
proof fn lemma_conv_value_empty(a: Seq<u64>, b: Seq<u64>, k: int)
    requires
        a.len() == 0,
    ensures
        conv_value(a, b, k) == 0,
    decreases k,
{
    if k > 0 {
        lemma_conv_value_empty(a, b, k - 1);
        lemma_col_psum_empty(a, b, k - 1, k);
        assert(col_sum(a, b, k - 1) == 0);
        assert(conv_value(a, b, k) == conv_value(a, b, k - 1) + col_sum(a, b, k - 1) * pow2(
            (64 * (k - 1)) as nat,
        ));
    }
}

/// Shifts the convolution value to the tail of `a`: the head limb
/// contributes `a[0]` times a prefix of `b`, and the tail contributes one
/// position higher.
proof fn lemma_conv_value_shift(a: Seq<u64>, b: Seq<u64>, k: int)
    requires
        a.len() >= 1,
        0 <= k,
    ensures
        conv_value(a, b, k) == (a[0] as nat) * prefix_value(
            b,
            if k <= b.len() {
                k
            } else {
                b.len() as int
            },
        ) + pow2(64) * conv_value(a.drop_first(), b, k - 1),
    decreases k,
{
    let t = a.drop_first();
    let lb = b.len() as int;
    if k == 0 {
        assert(prefix_value(b, 0) == 0);
        assert(conv_value(a, b, 0) == 0);
        assert(conv_value(t, b, -1) == 0);
    } else {
        lemma_conv_value_shift(a, b, k - 1);
        assert(conv_value(a, b, k) == conv_value(a, b, k - 1) + col_sum(a, b, k - 1) * pow2(
            (64 * (k - 1)) as nat,
        ));
        lemma_col_psum_shift(a, b, k - 1, k);
        assert(col_sum(a, b, k - 1) == conv_term(a, b, k - 1, 0) + col_sum(t, b, k - 2));
        let m1 = if k - 1 <= lb {
            k - 1
        } else {
            lb
        };
        let m = if k <= lb {
            k
        } else {
            lb
        };
        let pk1 = pow2((64 * (k - 1)) as nat);
        assert(m == if k <= b.len() {
            k
        } else {
            b.len() as int
        });
        if k == 1 {
            assert(conv_value(t, b, 0) == 0);
            assert(conv_value(t, b, -1) == 0);
            assert(col_sum(t, b, -1) == 0);
            assert(conv_value(a, b, 0) == 0);
            assert(conv_value(a, b, 1) == col_sum(a, b, 0) * pow2(0));
            lemma2_to64();
            if lb >= 1 {
                assert(prefix_value(b, 0) == 0);
                assert(prefix_value(b, 1) == (b[0] as nat) * pow2(0));
                assert(conv_term(a, b, 0, 0) == (a[0] as nat) * (b[0] as nat));
                assert((a[0] as nat) * ((b[0] as nat) * 1) == (a[0] as nat) * (
                b[0] as nat)) by (nonlinear_arith);
            } else {
                assert(conv_term(a, b, 0, 0) == 0);
                assert(prefix_value(b, 0) == 0);
            }
            assert(conv_value(a, b, k) == (a[0] as nat) * prefix_value(b, m) + pow2(64)
                * conv_value(t, b, k - 1));
        } else {
            // tail contribution: one weight step up
            let pk2 = pow2((64 * (k - 2)) as nat);
            lemma_pow2_adds(64, (64 * (k - 2)) as nat);
            assert(pk1 == pow2(64) * pk2);
            assert(conv_value(t, b, k - 1) == conv_value(t, b, k - 2) + col_sum(t, b, k - 2)
                * pk2);
            assert(pow2(64) * conv_value(t, b, k - 1) == pow2(64) * conv_value(t, b, k - 2)
                + col_sum(t, b, k - 2) * pk1) by (nonlinear_arith)
                requires
                    conv_value(t, b, k - 1) == conv_value(t, b, k - 2) + col_sum(t, b, k - 2)
                        * pk2,
                    pk1 == pow2(64) * pk2,
            ;
            // head contribution: one more limb of b, or nothing past its end
            if k - 1 < lb {
                assert(m1 == k - 1 && m == k);
                assert(prefix_value(b, m) == prefix_value(b, m1) + (b[k - 1] as nat) * pk1);
                assert(conv_term(a, b, k - 1, 0) == (a[0] as nat) * (b[k - 1] as nat));
                assert((a[0] as nat) * prefix_value(b, m) == (a[0] as nat) * prefix_value(
                    b,
                    m1,
                ) + ((a[0] as nat) * (b[k - 1] as nat)) * pk1) by (nonlinear_arith)
                    requires
                        prefix_value(b, m) == prefix_value(b, m1) + (b[k - 1] as nat) * pk1,
                ;
            } else {
                assert(m1 == lb && m == lb);
                assert(conv_term(a, b, k - 1, 0) == 0);
            }
            assert((conv_term(a, b, k - 1, 0) + col_sum(t, b, k - 2)) * pk1 == conv_term(
                a,
                b,
                k - 1,
                0,
            ) * pk1 + col_sum(t, b, k - 2) * pk1) by (nonlinear_arith);
            assert(conv_value(a, b, k) == (a[0] as nat) * prefix_value(b, m) + pow2(64)
                * conv_value(t, b, k - 1));
        }
    }
}

/// The convolution of all columns denotes the product of the two values.
pub proof fn lemma_conv_value_is_product(a: Seq<u64>, b: Seq<u64>)
    ensures
        conv_value(a, b, a.len() + b.len() as int) == limbs_value(a) * limbs_value(b),
    decreases a.len(),
{
    if a.len() == 0 {
        lemma_conv_value_empty(a, b, b.len() as int);
        assert(limbs_value(a) == 0);
    } else {
        let t = a.drop_first();
        let k = a.len() + b.len();
        lemma_conv_value_shift(a, b, k as int);
        assert(k >= b.len());
        assert(prefix_value(b, b.len() as int) == limbs_value(b));
        lemma_conv_value_is_product(t, b);
        assert(t.len() + b.len() == k - 1);
        lemma_limbs_value_split(a, 1);
        assert(prefix_value(a, 0) == 0);
        assert(prefix_value(a, 1) == (a[0] as nat) * pow2(0));
        lemma2_to64();
        assert(a.skip(1) == t);
        assert(limbs_value(a) == (a[0] as nat) + pow2(64) * limbs_value(t));
        assert(((a[0] as nat) + pow2(64) * limbs_value(t)) * limbs_value(b) == (
        a[0] as nat) * limbs_value(b) + pow2(64) * (limbs_value(t) * limbs_value(b)))
            by (nonlinear_arith);
    }
}

/// Columns at or above `m` only move the convolution value by multiples of
/// `2^(64*m)`.
pub proof fn lemma_conv_value_mod(a: Seq<u64>, b: Seq<u64>, m: int, k: int)
    requires
        0 <= m <= k,
    ensures
        conv_value(a, b, k) % pow2((64 * m) as nat) == conv_value(a, b, m) % pow2(
            (64 * m) as nat,
        ),
    decreases k - m,
{
    if k > m {
        lemma_conv_value_mod(a, b, m, k - 1);
        let pm = pow2((64 * m) as nat);
        let pr = pow2((64 * (k - 1 - m)) as nat);
        lemma_pow2_adds((64 * m) as nat, (64 * (k - 1 - m)) as nat);
        assert(pow2((64 * (k - 1)) as nat) == pm * pr);
        let x = col_sum(a, b, k - 1) * pr;
        assert(conv_value(a, b, k) == pm * x + conv_value(a, b, k - 1)) by (nonlinear_arith)
            requires
                conv_value(a, b, k) == conv_value(a, b, k - 1) + col_sum(a, b, k - 1) * (pm
                    * pr),
                x == col_sum(a, b, k - 1) * pr,
        ;
        lemma_pow2_pos((64 * m) as nat);
        lemma_mod_multiples_vanish(x as int, conv_value(a, b, k - 1) as int, pm as int);
    }
}

} // verus!
