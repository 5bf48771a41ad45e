use vstd::prelude::*;

use vstd::arithmetic::div_mod::{
    lemma_div_denominator, lemma_div_is_ordered, lemma_div_multiples_vanish,
    lemma_multiply_divide_lt,
};
use vstd::arithmetic::power2::{
    lemma_pow2_adds, lemma_pow2_pos, lemma_pow2_strictly_increases, lemma2_to64, pow2,
};

verus! {

/// All association scores are integers scaled by this factor: a score of
/// `LOG_SCALE` stands for 1.
pub const LOG_SCALE: u64 = 1_000_000;

/// The natural logarithm of 2, scaled by `LOG_SCALE` and rounded down.
pub const LN2_SCALED: u64 = 693_147;

/// The fixed-point scale used while extracting fractional bits: 2^31.
pub const MANTISSA_ONE: u64 = 0x8000_0000;

/// Twice `MANTISSA_ONE`: the mantissa lives in `[MANTISSA_ONE, MANTISSA_TWO)`.
pub const MANTISSA_TWO: u64 = 0x1_0000_0000;

/// The number of fractional bits of the base-two logarithm that are computed.
pub const FRAC_BITS: u64 = 20;

/// 2^FRAC_BITS.
pub const FRAC_ONE: u64 = 0x10_0000;

/// The exponent of the largest power of two that is at most `x`.
pub open spec fn spec_floor_log2(x: nat) -> nat
    decreases x,
{
    if x < 2 {
        0
    } else {
        1 + spec_floor_log2(x / 2)
    }
}

/// `it` fractional bits of the base-two logarithm of the fixed-point
/// mantissa `m` (scaled by `MANTISSA_ONE`), read as one integer, obtained
/// by repeated squaring.
pub open spec fn spec_frac_bits(m: nat, it: nat) -> nat
    decreases it,
{
    if it == 0 {
        0
    } else {
        let s = (m * m) / (MANTISSA_ONE as nat);
        if s >= MANTISSA_TWO {
            pow2((it - 1) as nat) + spec_frac_bits(s / 2, (it - 1) as nat)
        } else {
            spec_frac_bits(s, (it - 1) as nat)
        }
    }
}

/// The natural logarithm of `x`, scaled by `LOG_SCALE`, computed in fixed
/// point: the base-two logarithm to `FRAC_BITS` fractional bits, times the
/// scaled logarithm of two.
pub open spec fn spec_lnfix(x: nat) -> nat {
    let k = spec_floor_log2(x);
    let m = (x * (MANTISSA_ONE as nat)) / pow2(k);
    let frac = spec_frac_bits(m, FRAC_BITS as nat);
    ((k * (FRAC_ONE as nat) + frac) * (LN2_SCALED as nat)) / (FRAC_ONE as nat)
}

proof fn lemma_floor_log2_bounds(x: nat)
    requires
        x >= 1,
    ensures
        pow2(spec_floor_log2(x)) <= x,
        x < pow2(spec_floor_log2(x) + 1),
    decreases x,
{
    lemma2_to64();
    if x < 2 {
        assert(pow2(0) == 1 && pow2(1) == 2);
    } else {
        lemma_floor_log2_bounds(x / 2);
        let k = spec_floor_log2(x / 2);
        lemma_pow2_adds(1, k);
        lemma_pow2_adds(1, k + 1);
        assert(pow2(k + 1) == 2 * pow2(k));
        assert(pow2(k + 2) == 2 * pow2(k + 1));
        assert(pow2(k) <= x / 2);
        assert(x / 2 < pow2(k + 1));
        assert(2 * (x / 2) <= x) by (nonlinear_arith);
        assert(x < 2 * (x / 2) + 2) by (nonlinear_arith);
    }
}

fn floor_log2(x: u64) -> (k: u64)
    requires
        x >= 1,
    ensures
        k == spec_floor_log2(x as nat),
        k <= 63,
{
    let mut t: u64 = x;
    let mut k: u64 = 0;
    proof {
        lemma2_to64();
        vstd::arithmetic::div_mod::lemma_div_basics(x as int);
    }
    while t >= 2
        invariant
            1 <= t,
            spec_floor_log2(x as nat) == k + spec_floor_log2(t as nat),
            t as nat == (x as nat) / pow2(k as nat),
            k <= 63,
        decreases t,
    {
        proof {
            lemma_pow2_pos(k as nat);
            lemma_pow2_adds(k as nat, 1);
            lemma2_to64();
            lemma_div_denominator(x as int, pow2(k as nat) as int, 2);
            assert((x as nat) / pow2((k + 1) as nat) == (t as nat) / 2);
            // k stays below 64: pow2(k + 1) <= x < pow2(64)
            assert(pow2((k + 1) as nat) * 1 <= pow2((k + 1) as nat) * ((t as nat) / 2)) by (nonlinear_arith)
                requires
                    (t as nat) / 2 >= 1,
                    pow2((k + 1) as nat) > 0,
            ;
            assert(pow2((k + 1) as nat) * ((x as nat) / pow2((k + 1) as nat)) <= x as nat) by {
                vstd::arithmetic::div_mod::lemma_fundamental_div_mod(
                    x as int,
                    pow2((k + 1) as nat) as int,
                );
                vstd::arithmetic::div_mod::lemma_mod_division_less_than_divisor(
                    x as int,
                    pow2((k + 1) as nat) as int,
                );
            }
            assert(x < pow2(64)) by {
                lemma2_to64();
            }
            if k + 1 > 63 {
                lemma_pow2_strictly_increases(63, (k + 1) as nat);
                assert(false);
            }
        }
        t = t / 2;
        k = k + 1;
    }
    proof {
        assert(spec_floor_log2(t as nat) == 0);
    }
    k
}

fn pow2_exec(k: u64) -> (r: u64)
    requires
        k <= 63,
    ensures
        r as nat == pow2(k as nat),
        r >= 1,
{
    let mut p: u64 = 1;
    let mut i: u64 = 0;
    proof {
        lemma2_to64();
        lemma2_to64_rest_helper();
    }
    while i < k
        invariant
            i <= k <= 63,
            p as nat == pow2(i as nat),
            1 <= p,
        decreases k - i,
    {
        proof {
            lemma_pow2_adds(i as nat, 1);
            lemma2_to64();
            if i + 1 <= 63 {
                lemma_pow2_either_small((i + 1) as u64);
            }
        }
        p = p * 2;
        i = i + 1;
    }
    p
}

proof fn lemma2_to64_rest_helper()
    ensures
        pow2(63) == 0x8000000000000000,
{
    vstd::arithmetic::power2::lemma2_to64_rest();
}

proof fn lemma_pow2_either_small(e: u64)
    requires
        e <= 63,
    ensures
        pow2(e as nat) <= 0x8000000000000000,
{
    lemma2_to64_rest_helper();
    if e < 63 {
        lemma_pow2_strictly_increases(e as nat, 63);
    }
}

fn frac_bits(m0: u64) -> (acc: u64)
    requires
        MANTISSA_ONE <= m0 < MANTISSA_TWO,
    ensures
        acc == spec_frac_bits(m0 as nat, FRAC_BITS as nat),
        acc < FRAC_ONE,
{
    let mut m: u64 = m0;
    let mut acc: u64 = 0;
    let mut it: u64 = 0;
    proof {
        lemma2_to64();
    }
    while it < FRAC_BITS
        invariant
            it <= FRAC_BITS,
            MANTISSA_ONE <= m < MANTISSA_TWO,
            acc < pow2(it as nat),
            spec_frac_bits(m0 as nat, FRAC_BITS as nat) == acc * pow2((FRAC_BITS - it) as nat)
                + spec_frac_bits(m as nat, (FRAC_BITS - it) as nat),
        decreases FRAC_BITS - it,
    {
        let ghost r: nat = (FRAC_BITS - it) as nat;
        proof {
            assert((m as u128) * (m as u128) < 0x1_0000_0000_0000_0000u128) by (nonlinear_arith)
                requires
                    m < 0x1_0000_0000u64,
            ;
            assert((m as u128) * (m as u128) >= 0x4000_0000_0000_0000u128) by (nonlinear_arith)
                requires
                    m >= 0x8000_0000u64,
            ;
        }
        let sq: u128 = (m as u128) * (m as u128);
        proof {
            assert(sq / (MANTISSA_ONE as u128) < 0x2_0000_0000u128) by (nonlinear_arith)
                requires
                    sq < 0x1_0000_0000_0000_0000u128,
            ;
            assert(sq / (MANTISSA_ONE as u128) >= 0x8000_0000u128) by (nonlinear_arith)
                requires
                    sq >= 0x4000_0000_0000_0000u128,
            ;
        }
        let s: u64 = (sq / (MANTISSA_ONE as u128)) as u64;
        proof {
            assert(s as nat == ((m as nat) * (m as nat)) / (MANTISSA_ONE as nat));
            lemma2_to64();
            lemma_pow2_adds(1, (r - 1) as nat);
            assert(pow2(r) == 2 * pow2((r - 1) as nat));
            lemma_pow2_pos((r - 1) as nat);
        }
        if s >= MANTISSA_TWO {
            proof {
                assert(spec_frac_bits(m as nat, r) == pow2((r - 1) as nat) + spec_frac_bits(
                    (s / 2) as nat,
                    (r - 1) as nat,
                ));
                assert((acc * 2 + 1) * pow2((r - 1) as nat) == acc * pow2(r) + pow2(
                    (r - 1) as nat,
                )) by (nonlinear_arith)
                    requires
                        pow2(r) == 2 * pow2((r - 1) as nat),
                ;
                lemma_pow2_adds(it as nat, 1);
            }
            m = s / 2;
            acc = acc * 2 + 1;
        } else {
            proof {
                assert(spec_frac_bits(m as nat, r) == spec_frac_bits(s as nat, (r - 1) as nat));
                assert((acc * 2) * pow2((r - 1) as nat) == acc * pow2(r)) by (nonlinear_arith)
                    requires
                        pow2(r) == 2 * pow2((r - 1) as nat),
                ;
                lemma_pow2_adds(it as nat, 1);
            }
            m = s;
            acc = acc * 2;
        }
        it = it + 1;
    }
    proof {
        lemma2_to64();
        assert(it == FRAC_BITS);
        assert(spec_frac_bits(m as nat, (FRAC_BITS - it) as nat) == 0);
        assert(pow2((FRAC_BITS - it) as nat) == 1);
        assert(spec_frac_bits(m0 as nat, FRAC_BITS as nat) == acc * 1 + 0);
        assert(acc < pow2(FRAC_BITS as nat));
        assert(pow2(20) == 0x10_0000);
    }
    acc
}

/// The scaled natural logarithm of `x`. An exact mirror of `spec_lnfix`.
pub fn lnfix(x: u64) -> (r: u64)
    requires
        x >= 1,
    ensures
        r == spec_lnfix(x as nat),
        r <= 44_361_408,
{
    let k = floor_log2(x);
    let p = pow2_exec(k);
    proof {
        lemma_floor_log2_bounds(x as nat);
        lemma_pow2_pos(k as nat);
        assert(pow2(k as nat + 1) == 2 * pow2(k as nat)) by {
            lemma_pow2_adds(1, k as nat);
            lemma2_to64();
        }
        // lower bound: m0 >= MANTISSA_ONE
        assert((pow2(k as nat) * (MANTISSA_ONE as nat)) as int / (pow2(k as nat) as int)
            == MANTISSA_ONE as int) by {
            lemma_div_multiples_vanish(MANTISSA_ONE as int, pow2(k as nat) as int);
            assert(pow2(k as nat) * (MANTISSA_ONE as nat) == (MANTISSA_ONE as nat) * pow2(
                k as nat,
            )) by (nonlinear_arith);
        }
        assert(pow2(k as nat) * (MANTISSA_ONE as nat) <= (x as nat) * (MANTISSA_ONE as nat))
            by (nonlinear_arith)
            requires
                pow2(k as nat) <= x as nat,
        ;
        lemma_div_is_ordered(
            (pow2(k as nat) * (MANTISSA_ONE as nat)) as int,
            ((x as nat) * (MANTISSA_ONE as nat)) as int,
            pow2(k as nat) as int,
        );
        // upper bound: m0 < MANTISSA_TWO
        assert((x as nat) * (MANTISSA_ONE as nat) < pow2(k as nat) * (MANTISSA_TWO as nat))
            by (nonlinear_arith)
            requires
                (x as nat) < pow2(k as nat + 1),
                pow2(k as nat + 1) == 2 * pow2(k as nat),
                2 * (MANTISSA_ONE as nat) == MANTISSA_TWO as nat,
        ;
        lemma_multiply_divide_lt(
            ((x as nat) * (MANTISSA_ONE as nat)) as int,
            pow2(k as nat) as int,
            MANTISSA_TWO as int,
        );
        // the executable product stays within u128
        assert((x as u128) * (MANTISSA_ONE as u128) < 0x1_0000_0000_0000_0000_0000_0000u128)
            by (nonlinear_arith)
            requires
                (x as u128) < 0x1_0000_0000_0000_0000u128,
        ;
    }
    let xm: u128 = (x as u128) * (MANTISSA_ONE as u128);
    let m0w: u128 = xm / (p as u128);
    proof {
        assert(m0w == ((x as nat) * (MANTISSA_ONE as nat)) / pow2(k as nat));
        assert(m0w < MANTISSA_TWO as u128);
    }
    let m0: u64 = m0w as u64;
    let frac = frac_bits(m0);
    let scaled: u64 = (k * FRAC_ONE + frac) * LN2_SCALED / FRAC_ONE;
    proof {
        assert(k * FRAC_ONE <= 63 * 0x10_0000) by (nonlinear_arith)
            requires
                k <= 63,
        ;
        assert((k * FRAC_ONE + frac) * LN2_SCALED <= (64 * 0x10_0000) * 693_147)
            by (nonlinear_arith)
            requires
                k * FRAC_ONE + frac <= 64 * 0x10_0000,
        ;
        lemma_div_is_ordered(
            ((k * FRAC_ONE + frac) * LN2_SCALED) as int,
            ((64 * 0x10_0000) * 693_147) as int,
            FRAC_ONE as int,
        );
        assert(((64 * 0x10_0000) * 693_147) as int / (FRAC_ONE as int) == 44_361_408);
    }
    scaled
}

} // verus!
