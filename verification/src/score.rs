use vstd::prelude::*;
use vstd::arithmetic::div_mod::*;
use vstd::arithmetic::mul::*;
use vstd::arithmetic::power2::*;

verus! {

// The inverse document frequency of a term is log10(n_docs / (df + 1/10000)),
// and the score of a term in a document is the term's relative frequency in
// the document times that idf, scaled by 10^9 and rounded to a 32-bit integer.
// Everything here is exact integer arithmetic: logarithms are computed in
// fixed point with `LOG_ONE` as the unit, by the classic square-and-compare
// digit recurrence, so the whole computation has a closed-form specification.

/// 2^57: the fixed-point unit of the mantissa while log digits are extracted.
pub const MANTISSA_ONE: u128 = 0x200000000000000;

/// 2^40: the fixed-point unit of a computed base-10 logarithm.
pub const LOG_ONE: u64 = 0x10000000000;

/// The reciprocal of the idf smoothing constant: epsilon is 1/10000.
pub const EPSILON_RECIP: u64 = 10000;

/// The score scale: a unit score is this many stored units.
pub const SCORE_SCALE: u64 = 1000000000;

pub open spec fn pow10(e: nat) -> nat
    decreases e,
{
    if e == 0 {
        1
    } else {
        10 * pow10((e - 1) as nat)
    }
}

/// The decimal exponent of m: the largest e with 10^e <= m (for m >= 1).
pub open spec fn dec_exp(m: nat) -> nat
    decreases m,
    via dec_exp_decreases
{
    if m < 10 {
        0
    } else {
        1 + dec_exp(m / 10)
    }
}

#[via_fn]
proof fn dec_exp_decreases(m: nat) {
    if m >= 10 {
        lemma_div_decreases(m as int, 10);
    }
}

/// The first k binary digits of the fractional part of
/// log10(x / MANTISSA_ONE), extracted by the digit recurrence: squaring
/// the mantissa doubles its logarithm, and a spilled factor of ten marks
/// a one digit.
pub open spec fn frac_bits(x: nat, k: nat) -> nat
    decreases k,
{
    if k == 0 {
        0
    } else {
        let y = (x * x) / (MANTISSA_ONE as nat);
        if y >= 10 * (MANTISSA_ONE as nat) {
            pow2((k - 1) as nat) + frac_bits(y / 10, (k - 1) as nat)
        } else {
            frac_bits(y, (k - 1) as nat)
        }
    }
}

/// log10(m) in fixed point, in units of 1/LOG_ONE.
pub open spec fn log10_fix(m: nat) -> nat {
    dec_exp(m) * (LOG_ONE as nat) + frac_bits(
        (m * (MANTISSA_ONE as nat)) / pow10(dec_exp(m)),
        40,
    )
}

/// The fixed-point idf of a term: log10(n_docs / (df + 1/10000)) in units of
/// 1/LOG_ONE, rewritten over integers as
/// log10(10000 * n_docs) - log10(10000 * df + 1).
pub open spec fn idf_fix(n_docs: nat, df: nat) -> int {
    log10_fix((EPSILON_RECIP as nat) * n_docs) - log10_fix((EPSILON_RECIP as nat) * df + 1)
}

/// Division rounded to the nearest integer, halves away from zero, for den > 0.
pub open spec fn round_div(num: int, den: int) -> int {
    if num >= 0 {
        (2 * num + den) / (2 * den)
    } else {
        -((2 * (-num) + den) / (2 * den))
    }
}

/// Saturation of an integer into the stored 32-bit score range.
pub open spec fn clamp_score(v: int) -> i32 {
    if v > i32::MAX as int {
        i32::MAX
    } else if v < i32::MIN as int {
        i32::MIN
    } else {
        v as i32
    }
}

/// The stored score of a term in a document: the term's relative frequency
/// (count / total) times the fixed-point idf, scaled by SCORE_SCALE and
/// rounded, saturating at the i32 range.
pub open spec fn score_of(count: nat, total: nat, n_docs: nat, df: nat) -> i32 {
    clamp_score(
        round_div(
            (count as int) * (SCORE_SCALE as int) * idf_fix(n_docs, df),
            (total as int) * (LOG_ONE as int),
        ),
    )
}

proof fn lemma_pow10_pos(e: nat)
    ensures
        pow10(e) >= 1,
    decreases e,
{
    if e > 0 {
        lemma_pow10_pos((e - 1) as nat);
    }
}

proof fn lemma_pow10_14()
    ensures
        pow10(14) == 100000000000000,
{
    reveal_with_fuel(pow10, 15);
}

proof fn lemma_pow10_increases(e1: nat, e2: nat)
    requires
        e1 <= e2,
    ensures
        pow10(e1) <= pow10(e2),
    decreases e2,
{
    if e1 < e2 && e2 > 0 {
        lemma_pow10_increases(e1, (e2 - 1) as nat);
        lemma_pow10_pos((e2 - 1) as nat);
    }
}

/// A value between two adjacent powers of ten pins the decimal exponent.
proof fn lemma_dec_exp_unique(m: nat, e: nat)
    requires
        pow10(e) <= m,
        m < 10 * pow10(e),
    ensures
        dec_exp(m) == e,
    decreases e,
{
    if e == 0 {
    } else {
        lemma_pow10_pos((e - 1) as nat);
        let p1 = pow10((e - 1) as nat);
        // pow10(e - 1) <= m / 10
        lemma_div_is_ordered(10 * p1 as int, m as int, 10);
        lemma_div_multiples_vanish(p1 as int, 10);
        // m / 10 < 10 * pow10(e - 1), from m <= 100 * pow10(e - 1) - 1
        lemma_div_is_ordered(m as int, 10 * (10 * p1 as int) - 1, 10);
        lemma_fundamental_div_mod_converse(10 * (10 * p1 as int) - 1, 10, 10 * p1 as int - 1, 9);
        lemma_dec_exp_unique(m / 10, (e - 1) as nat);
    }
}

/// a < b * c and c > 0 give a / c < b.
proof fn lemma_div_strict_bound(a: int, b: int, c: int)
    requires
        0 <= a,
        0 < c,
        a < b * c,
    ensures
        a / c < b,
    decreases c,
{
    lemma_div_is_ordered(a, b * c - 1, c);
    assert((b - 1) * c + (c - 1) == b * c - 1) by (nonlinear_arith);
    lemma_fundamental_div_mod_converse(b * c - 1, c, b - 1, c - 1);
}

proof fn lemma_frac_bits_bound(x: nat, k: nat)
    ensures
        frac_bits(x, k) < pow2(k),
    decreases k,
{
    lemma_pow2_pos(k);
    if k > 0 {
        let y = (x * x) / (MANTISSA_ONE as nat);
        lemma_frac_bits_bound(y, (k - 1) as nat);
        lemma_frac_bits_bound(y / 10, (k - 1) as nat);
        lemma_pow2_unfold(k);
    }
}

/// log10(m) in fixed point for 1 <= m < 2^46, in units of 1/LOG_ONE.
pub fn log10_fixed(m: u64) -> (r: u64)
    requires
        1 <= m < 0x400000000000,
    ensures
        r == log10_fix(m as nat),
        r < 14 * LOG_ONE,
{
    let mut e: u64 = 0;
    let mut p: u64 = 1;
    while m / p >= 10
        invariant
            1 <= m < 0x400000000000,
            p == pow10(e as nat),
            1 <= p <= m,
            e <= 13,
        decreases m - p,
    {
        proof {
            lemma_fundamental_div_mod(m as int, p as int);
            lemma_mul_inequality(10, (m / p) as int, p as int);
            // 10 * p <= m < 10^14 keeps the exponent below 14.
            lemma_pow10_14();
            if e + 1 >= 14 {
                lemma_pow10_increases(14, (e + 1) as nat);
            }
        }
        p = p * 10;
        e = e + 1;
    }
    proof {
        // m / p < 10 gives m < 10 * p, so e is the decimal exponent of m.
        lemma_fundamental_div_mod(m as int, p as int);
        lemma_mul_inequality((m / p) as int, 9, p as int);
        lemma_dec_exp_unique(m as nat, e as nat);
        // e <= 13, else pow10(e) would exceed 2^46.
        lemma_pow10_14();
        if e >= 14 {
            lemma_pow10_increases(14, e as nat);
        }
    }
    proof {
        assert((m as int) * (MANTISSA_ONE as int) < 0x80000000000000000000000000) by (nonlinear_arith)
            requires
                m < 0x400000000000,
                MANTISSA_ONE == 0x200000000000000,
        ;
    }
    let x0: u128 = ((m as u128) * MANTISSA_ONE) / (p as u128);
    proof {
        // MANTISSA_ONE <= x0 < 10 * MANTISSA_ONE
        lemma_mul_inequality(p as int, m as int, MANTISSA_ONE as int);
        lemma_div_is_ordered((p as int) * MANTISSA_ONE as int, (m as int) * MANTISSA_ONE as int, p as int);
        lemma_div_multiples_vanish(MANTISSA_ONE as int, p as int);
        assert((m as int) * (MANTISSA_ONE as int) < (10 * MANTISSA_ONE as int) * p as int)
            by (nonlinear_arith)
            requires
                m < 10 * p as int,
                0 < p,
                0 < MANTISSA_ONE,
        ;
        lemma_div_strict_bound((m as int) * MANTISSA_ONE as int, 10 * MANTISSA_ONE as int, p as int);
    }
    let ghost start = x0 as nat;
    let mut x: u128 = x0;
    let mut acc: u64 = 0;
    let mut i: u64 = 0;
    proof {
        lemma_pow2_pos(0);
    }
    while i < 40
        invariant
            i <= 40,
            MANTISSA_ONE <= x < 10 * MANTISSA_ONE,
            acc < pow2(i as nat),
            acc * pow2((40 - i) as nat) + frac_bits(x as nat, (40 - i) as nat) == frac_bits(
                start,
                40,
            ),
        decreases 40 - i,
    {
        let ghost k = (40 - i) as nat;
        let ghost xo = x as nat;
        let ghost ao = acc as nat;
        proof {
            assert((x as int) * (x as int) < 0x19000000000000000000000000000000
                && (x as int) * (x as int) < (100 * MANTISSA_ONE as int) * MANTISSA_ONE as int
                && (MANTISSA_ONE as int) * (MANTISSA_ONE as int) <= (x as int) * x as int)
                by (nonlinear_arith)
                requires
                    MANTISSA_ONE <= x < 10 * MANTISSA_ONE as int,
                    MANTISSA_ONE == 0x200000000000000,
            ;
            lemma_pow2_strictly_increases(i as nat, 41);
            lemma2_to64_rest();
        }
        let y: u128 = (x * x) / MANTISSA_ONE;
        proof {
            // MANTISSA_ONE <= y < 100 * MANTISSA_ONE
            lemma_div_is_ordered(
                (MANTISSA_ONE as int) * MANTISSA_ONE as int,
                (x as int) * x as int,
                MANTISSA_ONE as int,
            );
            lemma_div_multiples_vanish(MANTISSA_ONE as int, MANTISSA_ONE as int);
            lemma_div_strict_bound(
                (x as int) * x as int,
                100 * MANTISSA_ONE as int,
                MANTISSA_ONE as int,
            );
        }
        if y >= 10 * MANTISSA_ONE {
            proof {
                lemma_div_is_ordered(10 * MANTISSA_ONE as int, y as int, 10);
                lemma_div_multiples_vanish(MANTISSA_ONE as int, 10);
                lemma_div_strict_bound(y as int, 10 * MANTISSA_ONE as int, 10);
            }
            x = y / 10;
            acc = acc * 2 + 1;
        } else {
            x = y;
            acc = acc * 2;
        }
        i = i + 1;
        proof {
            lemma_pow2_unfold(k);
            lemma_pow2_pos((k - 1) as nat);
            assert(acc < pow2(i as nat)) by {
                lemma_pow2_unfold(i as nat);
            }
            // Fold one extracted digit into the accumulator equation.
            assert(ao * pow2(k) == (2 * ao) * pow2((k - 1) as nat)) by (nonlinear_arith)
                requires
                    pow2(k) == 2 * pow2((k - 1) as nat),
            ;
            assert((2 * ao + 1) * pow2((k - 1) as nat) == (2 * ao) * pow2((k - 1) as nat) + pow2(
                (k - 1) as nat,
            )) by (nonlinear_arith);
        }
    }
    proof {
        assert(pow2(0) == 1) by {
            lemma2_to64();
        }
        lemma_frac_bits_bound(start, 40);
        assert(pow2(40) == 0x10000000000) by {
            lemma2_to64_rest();
        }
        lemma_mul_inequality(e as int, 13, LOG_ONE as int);
        assert((acc as nat) * pow2(0) == acc as nat) by (nonlinear_arith)
            requires
                pow2(0) == 1,
        ;
        assert(acc == frac_bits(start, 40));
    }
    e * LOG_ONE + acc
}

/// The fixed-point idf of a term that occurs in df of n_docs documents,
/// in units of 1/LOG_ONE.
pub fn idf_fixed(n_docs: u64, df: u64) -> (r: i64)
    requires
        1 <= df <= n_docs,
        n_docs < 0x100000000,
    ensures
        r == idf_fix(n_docs as nat, df as nat),
        -14 * (LOG_ONE as int) < r < 14 * (LOG_ONE as int),
{
    let la = log10_fixed(EPSILON_RECIP * n_docs);
    let lb = log10_fixed(EPSILON_RECIP * df + 1);
    (la as i64) - (lb as i64)
}

/// The stored score for a term occurring count times among the total tokens
/// of one document, in df of n_docs documents.
pub fn score_for(count: u64, total: u64, n_docs: u64, df: u64) -> (r: i32)
    requires
        1 <= count <= total,
        total < 0x100000000,
        1 <= df <= n_docs,
        n_docs < 0x100000000,
    ensures
        r == score_of(count as nat, total as nat, n_docs as nat, df as nat),
{
    let idf = idf_fixed(n_docs, df);
    let neg = idf < 0;
    let mag: u64 = if idf < 0 {
        (-idf) as u64
    } else {
        idf as u64
    };
    proof {
        assert((count as int) * (SCORE_SCALE as int) < 0x4000000000000000) by (nonlinear_arith)
            requires
                count < 0x100000000,
                SCORE_SCALE == 1000000000,
        ;
        assert(((count as int) * (SCORE_SCALE as int)) * (mag as int)
            < 0x4000000000000000000000000000) by (nonlinear_arith)
            requires
                0 <= (count as int) * (SCORE_SCALE as int) < 0x4000000000000000,
                0 <= mag < 0xe0000000000,
        ;
        assert((total as int) * (LOG_ONE as int) < 0x1000000000000000000) by (nonlinear_arith)
            requires
                total < 0x100000000,
                LOG_ONE == 0x10000000000,
        ;
        lemma_mul_strictly_positive(total as int, LOG_ONE as int);
    }
    let num: u128 = (count as u128) * (SCORE_SCALE as u128) * (mag as u128);
    let den: u128 = (total as u128) * (LOG_ONE as u128);
    let q: u128 = (2 * num + den) / (2 * den);
    proof {
        // The signed numerator of the spec is the signed magnitude of num.
        let inum = (count as int) * (SCORE_SCALE as int) * (idf as int);
        assert(inum == (if neg {
            -(num as int)
        } else {
            num as int
        }) && (neg ==> inum < 0) && (!neg ==> inum >= 0)) by (nonlinear_arith)
            requires
                1 <= count,
                inum == (count as int) * (SCORE_SCALE as int) * (idf as int),
                num == (count as int) * (SCORE_SCALE as int) * (mag as int),
                neg == (idf < 0),
                mag == if neg {
                    -(idf as int)
                } else {
                    idf as int
                },
        ;
        let v = round_div(inum, den as int);
        if neg {
            assert(v == -(q as int));
        } else {
            assert(v == q as int);
        }
    }
    if neg {
        if q >= 2147483648 {
            i32::MIN
        } else {
            (-(q as i64)) as i32
        }
    } else {
        if q >= 2147483648 {
            i32::MAX
        } else {
            q as i32
        }
    }
}

} // verus!
