//! Laws of the binary32 comparison predicates.
//!
//! Each public proof function states one guarantee of the predicates over
//! all inputs its `requires` admits, proved from the bit-level model.

use vstd::prelude::*;

use crate::arith32::{add_mags32, norm_round32, round_pack32, sub32s, sub_finite32, sub_mags32};
use crate::arith64::{jam_shift, lemma_jam_shift_bound};
use vstd::arithmetic::power2::pow2;
use crate::bits32::{
    abs_bits32, exp32, float_eq32, float_le32, float_lt32, frac32, is_finite32, is_inf32,
    is_nan32, lemma_abs_range32, lemma_abs_recon32, lemma_mag32_mono, lemma_mag32_zero,
    lemma_split32, mag32, mant32, nonneg32, pexp32, sign32, val32, INF32, QNAN32,
};
use crate::single::{rel_eq32, ulps_eq32};

verus! {

/// The encoding of negative infinity.
pub const NEG_INF32: u32 = 0xFF80_0000;

/// The encoding of the negative zero.
pub const NEG_ZERO32: u32 = 0x8000_0000;

/// Field values of the handful of constant encodings the laws speak of.
proof fn lemma_consts32()
    ensures
        is_nan32(QNAN32 as nat),
        abs_bits32(QNAN32 as nat) == QNAN32 as nat,
        is_inf32(INF32 as nat),
        is_inf32(NEG_INF32 as nat),
        sign32(INF32 as nat) == 0,
        sign32(NEG_INF32 as nat) == 1,
        abs_bits32(INF32 as nat) == INF32 as nat,
        abs_bits32(NEG_INF32 as nat) == INF32 as nat,
        !is_nan32(0),
        !is_nan32(NEG_ZERO32 as nat),
        val32(0) == 0,
        val32(NEG_ZERO32 as nat) == 0,
        sign32(0) == 0,
        sign32(NEG_ZERO32 as nat) == 1,
        abs_bits32(0) == 0,
        abs_bits32(NEG_ZERO32 as nat) == 0,
        mant32(0) == 0,
        pexp32(0) == 1,
{
    lemma_split32(QNAN32 as nat);
    lemma_split32(INF32 as nat);
    lemma_split32(NEG_INF32 as nat);
    lemma_split32(NEG_ZERO32 as nat);
    lemma_mag32_zero(0);
    lemma_mag32_zero(abs_bits32(NEG_ZERO32 as nat));
}

/// Reflexivity of the relative comparison: every value that is not a NaN
/// equals itself under any tolerances, because bit-identical non-NaN
/// values are IEEE-equal.
pub proof fn lemma_relative_eq_reflexive(x: u32, e: u32, mr: u32)
    requires
        !is_nan32(x as nat),
    ensures
        rel_eq32(x as nat, x as nat, e as nat, mr as nat),
{
    assert(float_eq32(x as nat, x as nat));
}

/// Reflexivity of the ULP comparison: a non-NaN value equals itself under
/// any non-negative absolute tolerance — a finite value because its
/// difference from itself is the positive zero, an infinity (whose
/// difference from itself is NaN) as soon as one ULP is budgeted.
pub proof fn lemma_ulps_eq_reflexive(x: u32, e: u32, u: u32)
    requires
        !is_nan32(x as nat),
        nonneg32(e as nat),
        is_finite32(x as nat) || u >= 1,
    ensures
        ulps_eq32(x as nat, x as nat, e as nat, u),
{
    lemma_consts32();
    let xn = x as nat;
    if is_finite32(xn) {
        let s = sign32(xn);
        assert(s <= 1);
        assert(s != (1 - s) as nat);
        assert(sub32s(xn, xn) == 0) by {
            assert(sub_finite32(s, mant32(xn), pexp32(xn), (1 - s) as nat, mant32(xn), pexp32(xn))
                == 0);
        }
        assert(abs_bits32(0) == 0);
        assert(float_le32(0, e as nat));
    } else {
        assert(is_inf32(xn));
        assert(sub32s(xn, xn) == QNAN32 as nat);
        assert(abs_bits32(QNAN32 as nat) == QNAN32 as nat);
        assert(!float_le32(QNAN32 as nat, e as nat));
        let d: nat = if xn >= xn {
            (xn - xn) as nat
        } else {
            0
        };
        assert(d == 0 && d < u);
    }
}

/// NaN rejection: a NaN operand makes both predicates false, under every
/// tolerance — the difference through a NaN is again NaN, and a NaN is
/// neither IEEE-equal nor sign-comparable to anything.
pub proof fn lemma_nan_never_equal(a: u32, b: u32, e: u32, mr: u32, u: u32)
    requires
        is_nan32(a as nat) || is_nan32(b as nat),
    ensures
        !rel_eq32(a as nat, b as nat, e as nat, mr as nat),
        !ulps_eq32(a as nat, b as nat, e as nat, u),
{
    lemma_consts32();
    lemma_split32(a as nat);
    lemma_split32(b as nat);
    assert(sub32s(a as nat, b as nat) == QNAN32 as nat);
    assert(!float_le32(QNAN32 as nat, e as nat));
    assert(!float_eq32(a as nat, b as nat));
    assert(is_nan32(abs_bits32(a as nat)) == is_nan32(a as nat));
    assert(is_nan32(abs_bits32(b as nat)) == is_nan32(b as nat));
    assert(!float_eq32(abs_bits32(a as nat), abs_bits32(b as nat)));
}

/// Signed-zero equality, relative strategy: the two zeros are IEEE-equal,
/// so they compare equal under any tolerances whatever.
pub proof fn lemma_signed_zeros_equal_relative(e: u32, mr: u32)
    ensures
        rel_eq32(0, NEG_ZERO32 as nat, e as nat, mr as nat),
        rel_eq32(NEG_ZERO32 as nat, 0, e as nat, mr as nat),
{
    lemma_consts32();
    assert(float_eq32(0, NEG_ZERO32 as nat));
    assert(float_eq32(NEG_ZERO32 as nat, 0));
}

/// Signed-zero equality, ULP strategy: the difference of the two zeros is
/// the positive zero, so any non-negative absolute tolerance accepts the
/// pair before signs are ever compared.
pub proof fn lemma_signed_zeros_equal_ulps(e: u32, u: u32)
    requires
        nonneg32(e as nat),
    ensures
        ulps_eq32(0, NEG_ZERO32 as nat, e as nat, u),
        ulps_eq32(NEG_ZERO32 as nat, 0, e as nat, u),
{
    lemma_consts32();
    assert(jam_shift(0, 0) == 0);
    assert(sub32s(0, NEG_ZERO32 as nat) == 0) by {
        assert(sub_finite32(0, 0, 1, 0, 0, 1) == 0) by {
            assert(add_mags32(0, 0, 1, 0, 1) == 0) by {
                assert(round_pack32(0, 1, 0) == 0);
            }
        }
    }
    assert(sub32s(NEG_ZERO32 as nat, 0) == NEG_ZERO32 as nat) by {
        assert(sub_finite32(1, 0, 1, 1, 0, 1) == NEG_ZERO32 as nat) by {
            assert(add_mags32(1, 0, 1, 0, 1) == NEG_ZERO32 as nat) by {
                assert(round_pack32(1, 1, 0) == NEG_ZERO32 as nat);
            }
        }
    }
    assert(float_le32(0, e as nat));
}

/// Same-signed infinities are IEEE-equal, hence equal under the relative
/// strategy with any tolerances.
pub proof fn lemma_same_infinities_equal_relative(e: u32, mr: u32)
    ensures
        rel_eq32(INF32 as nat, INF32 as nat, e as nat, mr as nat),
        rel_eq32(NEG_INF32 as nat, NEG_INF32 as nat, e as nat, mr as nat),
{
    lemma_consts32();
    assert(float_eq32(INF32 as nat, INF32 as nat));
    assert(float_eq32(NEG_INF32 as nat, NEG_INF32 as nat));
}

/// Same-signed infinities under the ULP strategy: their difference is NaN,
/// but their encodings coincide, so any positive ULP budget accepts them.
pub proof fn lemma_same_infinities_equal_ulps(e: u32, u: u32)
    requires
        u >= 1,
    ensures
        ulps_eq32(INF32 as nat, INF32 as nat, e as nat, u),
        ulps_eq32(NEG_INF32 as nat, NEG_INF32 as nat, e as nat, u),
{
    lemma_consts32();
    lemma_ulps_eq_reflexive_infinite(INF32, e, u);
    lemma_ulps_eq_reflexive_infinite(NEG_INF32, e, u);
}

/// The infinite half of reflexivity, without the tolerance condition: the
/// absolute short-circuit never fires on a NaN difference, so only the
/// ULP budget decides.
proof fn lemma_ulps_eq_reflexive_infinite(x: u32, e: u32, u: u32)
    requires
        is_inf32(x as nat),
        u >= 1,
    ensures
        ulps_eq32(x as nat, x as nat, e as nat, u),
{
    lemma_consts32();
    assert(sub32s(x as nat, x as nat) == QNAN32 as nat);
    assert(!float_le32(QNAN32 as nat, e as nat));
}

/// Opposite infinities are never relative-equal for a finite absolute
/// tolerance: their difference is infinite, which escapes the absolute
/// short-circuit and then trips the guard that recognises equal magnitudes
/// whose difference equals that very magnitude.
pub proof fn lemma_opposite_infinities_relative(e: u32, mr: u32)
    requires
        is_finite32(e as nat),
    ensures
        !rel_eq32(INF32 as nat, NEG_INF32 as nat, e as nat, mr as nat),
        !rel_eq32(NEG_INF32 as nat, INF32 as nat, e as nat, mr as nat),
{
    lemma_consts32();
    let pi = INF32 as nat;
    let ni = NEG_INF32 as nat;
    assert(sub32s(pi, ni) == pi);
    assert(sub32s(ni, pi) == ni);
    assert(abs_bits32(pi) == pi && abs_bits32(ni) == pi);
    lemma_split32(e as nat);
    lemma_abs_range32(e as nat);
    let ea = abs_bits32(e as nat);
    assert(ea < INF32 as nat) by {
        assert(exp32(ea) != 0xFF);
        assert(ea >= 0x7F80_0000 && ea < 0x8000_0000 ==> (ea
            / 0x80_0000) % 0x100 == 0xFF) by (nonlinear_arith);
    }
    lemma_mag32_mono(ea, pi);
    assert(val32(e as nat) <= mag32(ea) as int);
    assert(val32(pi) == mag32(pi) as int);
    assert(!float_le32(pi, e as nat));
    assert(float_eq32(abs_bits32(pi), abs_bits32(ni)));
    assert(float_eq32(abs_bits32(pi), pi));
}

/// Same-signed values whose encodings differ by fewer units than the
/// budget are always ULP-equal, whatever the absolute tolerance.
pub proof fn lemma_ulps_within_budget(a: u32, b: u32, e: u32, u: u32)
    requires
        !is_nan32(a as nat),
        !is_nan32(b as nat),
        sign32(a as nat) == sign32(b as nat),
        (if a >= b {
            a - b
        } else {
            b - a
        }) < u,
    ensures
        ulps_eq32(a as nat, b as nat, e as nat, u),
{
}

/// Same-signed values whose encodings differ by at least the budget are
/// ULP-equal exactly when the absolute short-circuit catches their rounded
/// difference.
pub proof fn lemma_ulps_beyond_budget(a: u32, b: u32, e: u32, u: u32)
    requires
        !is_nan32(a as nat),
        !is_nan32(b as nat),
        sign32(a as nat) == sign32(b as nat),
        (if a >= b {
            a - b
        } else {
            b - a
        }) >= u,
    ensures
        ulps_eq32(a as nat, b as nat, e as nat, u) == float_le32(
            abs_bits32(sub32s(a as nat, b as nat)),
            e as nat,
        ),
{
}

/// The packed result separates into the sign bit and a sign-free part
/// that does not depend on the sign, is below the sign bit, and is never
/// a NaN.
proof fn lemma_round_pack32_props(s: nat, e: nat, sig: nat)
    requires
        s <= 1,
        1 <= e,
        sig <= 0x800_0000,
    ensures
        round_pack32(s, e, sig) == s * 0x8000_0000 + round_pack32(0, e, sig),
        round_pack32(0, e, sig) < 0x8000_0000,
        abs_bits32(round_pack32(s, e, sig)) == round_pack32(0, e, sig),
        sign32(round_pack32(s, e, sig)) == s,
        !is_nan32(round_pack32(s, e, sig)),
        sig >= 8 ==> round_pack32(0, e, sig) != 0,
{
    let mant: nat = sig / 8;
    let grs: nat = sig % 8;
    let m2: nat = if grs > 4 || (grs == 4 && mant % 2 == 1) {
        (mant + 1) as nat
    } else {
        mant
    };
    assert(mant <= 0x100_0000 && (grs >= 4 ==> mant < 0x100_0000))
        by (nonlinear_arith)
        requires
            sig <= 0x800_0000,
            mant == sig / 8,
            grs == sig % 8,
    ;
    assert(sig >= 8 ==> mant >= 1) by (nonlinear_arith)
        requires
            mant == sig / 8,
    ;
    let m3: nat = if m2 == 0x100_0000 {
        0x80_0000 as nat
    } else {
        m2
    };
    let e2: nat = if m2 == 0x100_0000 {
        (e + 1) as nat
    } else {
        e
    };
    let low: nat = if m3 >= 0x80_0000 {
        if e2 >= 0xFF {
            0x7F80_0000 as nat
        } else {
            (e2 * 0x80_0000 + (m3 - 0x80_0000)) as nat
        }
    } else {
        m3
    };
    assert(round_pack32(s, e, sig) == s * 0x8000_0000 + low);
    assert(round_pack32(0, e, sig) == 0 * 0x8000_0000 + low);
    assert(m3 < 0x100_0000);
    if m3 >= 0x80_0000 && e2 < 0xFF {
        assert(low < 0x8000_0000 && exp32(low) == e2 && low != 0) by (nonlinear_arith)
            requires
                low == e2 * 0x80_0000 + (m3 - 0x80_0000),
                0x80_0000 <= m3 && m3 < 0x100_0000,
                1 <= e2 && e2 < 0xFF,
                exp32(low) == (low / 0x80_0000) % 0x100,
        ;
    } else if m3 >= 0x80_0000 {
        assert(exp32(low) == 0xFF && frac32(low) == 0 && low != 0) by (nonlinear_arith)
            requires
                low == 0x7F80_0000,
                exp32(low) == (low / 0x80_0000) % 0x100,
                frac32(low) == low % 0x80_0000,
        ;
    } else {
        assert(exp32(low) == 0 && frac32(low) == low) by (nonlinear_arith)
            requires
                low == m3,
                m3 < 0x80_0000,
                exp32(low) == (low / 0x80_0000) % 0x100,
                frac32(low) == low % 0x80_0000,
        ;
    }
    crate::bits32::lemma_pack32(s, low);
    crate::bits32::lemma_pack32(0, low);
}

/// Upward normalisation keeps the same separation into sign and sign-free
/// part, and a significand of at least four (eight once any doubling has
/// happened, or from the start) cannot vanish in rounding.
proof fn lemma_norm_round32_props(s: nat, e: nat, sig: nat)
    requires
        s <= 1,
        1 <= e,
        sig <= 0x800_0000,
    ensures
        norm_round32(s, e, sig) == s * 0x8000_0000 + norm_round32(0, e, sig),
        norm_round32(0, e, sig) < 0x8000_0000,
        abs_bits32(norm_round32(s, e, sig)) == norm_round32(0, e, sig),
        sign32(norm_round32(s, e, sig)) == s,
        !is_nan32(norm_round32(s, e, sig)),
        sig >= 4 && (sig >= 8 || e >= 2) ==> norm_round32(0, e, sig) != 0,
    decreases e,
{
    if sig < 0x400_0000 && e > 1 {
        lemma_norm_round32_props(s, (e - 1) as nat, 2 * sig);
    } else {
        lemma_round_pack32_props(s, e, sig);
    }
}

/// The rounded sum of two aligned magnitudes separates into sign and
/// sign-free part the same way, whatever the sign.
proof fn lemma_add_mags32_props(s: nat, mb: nat, eb: nat, ms: nat, es: nat)
    requires
        s <= 1,
        mb < 0x100_0000,
        ms < 0x100_0000,
        1 <= es,
        es <= eb,
    ensures
        add_mags32(s, mb, eb, ms, es) == s * 0x8000_0000 + add_mags32(0, mb, eb, ms, es),
        add_mags32(0, mb, eb, ms, es) < 0x8000_0000,
        abs_bits32(add_mags32(s, mb, eb, ms, es)) == add_mags32(0, mb, eb, ms, es),
        sign32(add_mags32(s, mb, eb, ms, es)) == s,
        !is_nan32(add_mags32(s, mb, eb, ms, es)),
{
    let bsig: nat = jam_shift(ms * 8, (eb - es) as nat);
    lemma_jam_shift_bound(ms * 8, (eb - es) as nat);
    let sum: nat = mb * 8 + bsig;
    if sum >= 0x800_0000 {
        let sum2: nat = crate::arith64::jam1(sum);
        assert(sum2 <= 0x800_0000) by (nonlinear_arith)
            requires
                sum2 == crate::arith64::jam1(sum),
                crate::arith64::jam1(sum) == (if sum % 2 == 1 {
                    if (sum / 2) % 2 == 0 {
                        sum / 2 + 1
                    } else {
                        sum / 2
                    }
                } else {
                    sum / 2
                }),
                sum < 0x1000_0000,
        ;
        lemma_round_pack32_props(s, (eb + 1) as nat, sum2);
        lemma_round_pack32_props(0, (eb + 1) as nat, sum2);
    } else {
        lemma_round_pack32_props(s, eb, sum);
        lemma_round_pack32_props(0, eb, sum);
    }
}

/// The rounded difference of two magnitudes, the first strictly larger,
/// separates the same way, and is never zero or NaN: the working
/// significand keeps at least a quarter unit, which normalisation carries
/// back above the rounding threshold.
proof fn lemma_sub_mags32_props(s: nat, mb: nat, eb: nat, ms: nat, es: nat)
    requires
        s <= 1,
        mb < 0x100_0000,
        ms < 0x100_0000,
        1 <= es,
        es <= eb,
        eb >= 2 ==> mb >= 0x80_0000,
        eb > es || mb > ms,
    ensures
        sub_mags32(s, mb, eb, ms, es) == s * 0x8000_0000 + sub_mags32(0, mb, eb, ms, es),
        abs_bits32(sub_mags32(s, mb, eb, ms, es)) == sub_mags32(0, mb, eb, ms, es),
        sign32(sub_mags32(s, mb, eb, ms, es)) == s,
        !is_nan32(sub_mags32(s, mb, eb, ms, es)),
        sub_mags32(0, mb, eb, ms, es) != 0,
        sub_mags32(0, mb, eb, ms, es) < 0x8000_0000,
{
    let d: nat = (eb - es) as nat;
    if d == 0 {
        let sig: nat = ((mb - ms) * 8) as nat;
        assert(sig >= 8 && sig <= 0x800_0000) by (nonlinear_arith)
            requires
                ms < mb,
                mb < 0x100_0000,
                sig == (mb - ms) * 8,
        ;
        lemma_norm_round32_props(s, eb, sig);
        lemma_norm_round32_props(0, eb, sig);
    } else if d == 1 {
        let sig: nat = (mb * 8 - ms * 4) as nat;
        assert(mb * 8 >= ms * 4 + 4 && mb * 8 <= 0x800_0000) by (nonlinear_arith)
            requires
                mb >= 0x80_0000,
                ms < 0x100_0000,
                mb < 0x100_0000,
        ;
        assert(sig >= 4 && sig <= 0x800_0000);
        lemma_norm_round32_props(s, eb, sig);
        lemma_norm_round32_props(0, eb, sig);
    } else {
        let bsig: nat = jam_shift(ms * 8, d);
        lemma_jam_shift_bound(ms * 8, d);
        vstd::arithmetic::power2::lemma2_to64();
        assert(pow2(d) >= 4) by {
            if d > 2 {
                vstd::arithmetic::power2::lemma_pow2_strictly_increases(2, d);
            }
        }
        vstd::arithmetic::div_mod::lemma_div_is_ordered_by_denominator(
            (ms * 8) as int,
            4,
            pow2(d) as int,
        );
        assert(ms * 8 / 4 == ms * 2) by (nonlinear_arith);
        assert(bsig <= ms * 2 + 1);
        let sig: nat = (mb * 8 - bsig) as nat;
        assert(mb * 8 >= ms * 2 + 1 + 8 && mb * 8 <= 0x800_0000) by (nonlinear_arith)
            requires
                mb >= 0x80_0000,
                ms < 0x100_0000,
                mb < 0x100_0000,
        ;
        assert(sig >= 8 && sig <= 0x800_0000);
        lemma_norm_round32_props(s, eb, sig);
        lemma_norm_round32_props(0, eb, sig);
    }
}

/// Validity of the decomposition of a finite encoding: the mantissa fits
/// in 53 bits, the positioned exponent is in range, and a positioned
/// exponent past the bottom carries a full implicit bit.
proof fn lemma_decomp32(x: nat)
    requires
        x < 0x1_0000_0000,
        is_finite32(x),
    ensures
        mant32(x) < 0x100_0000,
        1 <= pexp32(x),
        pexp32(x) <= 254,
        pexp32(x) >= 2 ==> mant32(x) >= 0x80_0000,
        sign32(x) <= 1,
        sign32(x) != (1 - sign32(x)) as nat,
{
    lemma_split32(x);
    assert(frac32(x) < 0x80_0000 && exp32(x) < 0x100) by (nonlinear_arith)
        requires
            frac32(x) == x % 0x80_0000,
            exp32(x) == (x / 0x80_0000) % 0x100,
    ;
}

/// Magnitudes are injective over sign-free encodings: equal magnitudes
/// mean equal encodings.
proof fn lemma_mag32_inj(p: nat, q: nat)
    requires
        p <= 0x7F80_0000,
        q <= 0x7F80_0000,
        mag32(p) == mag32(q),
    ensures
        p == q,
{
    if p < q {
        lemma_mag32_mono(p, q);
    }
    if q < p {
        lemma_mag32_mono(q, p);
    }
}

/// The absolute rounded difference does not depend on the order of its
/// operands: the magnitudes are combined the same way either way round,
/// and only the sign of the result flips.
pub proof fn lemma_abs_diff32_symmetric(a: u32, b: u32)
    ensures
        abs_bits32(sub32s(a as nat, b as nat)) == abs_bits32(sub32s(b as nat, a as nat)),
{
    lemma_consts32();
    lemma_split32(a as nat);
    lemma_split32(b as nat);
    let an = a as nat;
    let bn = b as nat;
    if is_nan32(an) || is_nan32(bn) {
    } else if is_inf32(an) && is_inf32(bn) {
    } else if is_inf32(an) {
        // flipping the sign of the second operand keeps its magnitude
        assert(abs_bits32(sub32s(bn, an)) == abs_bits32(an)) by {
            if sign32(an) == 1 {
                crate::bits32::lemma_sign32_id(an);
                crate::bits32::lemma_pack32(0, (an - 0x8000_0000) as nat);
            } else {
                crate::bits32::lemma_sign32_id(an);
                crate::bits32::lemma_pack32(1, an);
            }
        }
    } else if is_inf32(bn) {
        assert(abs_bits32(sub32s(an, bn)) == abs_bits32(bn)) by {
            if sign32(bn) == 1 {
                crate::bits32::lemma_sign32_id(bn);
                crate::bits32::lemma_pack32(0, (bn - 0x8000_0000) as nat);
            } else {
                crate::bits32::lemma_sign32_id(bn);
                crate::bits32::lemma_pack32(1, bn);
            }
        }
    } else {
        lemma_decomp32(an);
        lemma_decomp32(bn);
        lemma_sub_finite32_abs_sym(
            sign32(an),
            mant32(an),
            pexp32(an),
            (1 - sign32(bn)) as nat,
            mant32(bn),
            pexp32(bn),
        );
    }
}

/// Swapping the operands of the signed sum while flipping both signs
/// keeps the sign-free part of the result.
proof fn lemma_sub_finite32_abs_sym(s1: nat, m1: nat, e1: nat, s2: nat, m2: nat, e2: nat)
    requires
        s1 <= 1,
        s2 <= 1,
        m1 < 0x100_0000,
        m2 < 0x100_0000,
        1 <= e1,
        1 <= e2,
        e1 >= 2 ==> m1 >= 0x80_0000,
        e2 >= 2 ==> m2 >= 0x80_0000,
    ensures
        abs_bits32(sub_finite32(s1, m1, e1, s2, m2, e2)) == abs_bits32(
            sub_finite32((1 - s2) as nat, m2, e2, (1 - s1) as nat, m1, e1),
        ),
{
    let t1: nat = (1 - s2) as nat;
    let t2: nat = (1 - s1) as nat;
    if s1 == s2 {
        assert(t1 == t2);
        if e1 == e2 {
            // equal alignment: the two sums coincide term for term
            assert(jam_shift(m2 * 8, 0) == m2 * 8);
            assert(jam_shift(m1 * 8, 0) == m1 * 8);
            lemma_add_mags32_props(s1, m1, e1, m2, e2);
            lemma_add_mags32_props(t1, m2, e2, m1, e1);
            assert(add_mags32(0, m1, e1, m2, e2) == add_mags32(0, m2, e2, m1, e1));
        } else if e1 > e2 {
            lemma_add_mags32_props(s1, m1, e1, m2, e2);
            lemma_add_mags32_props(t1, m1, e1, m2, e2);
        } else {
            lemma_add_mags32_props(s1, m2, e2, m1, e1);
            lemma_add_mags32_props(t1, m2, e2, m1, e1);
        }
    } else {
        assert(t1 != t2 && t1 == s1 && t2 == s2);
        if e1 == e2 && m1 == m2 {
        } else if e1 > e2 || (e1 == e2 && m1 > m2) {
            lemma_sub_mags32_props(s1, m1, e1, m2, e2);
            lemma_sub_mags32_props(s2, m1, e1, m2, e2);
        } else {
            lemma_sub_mags32_props(s2, m2, e2, m1, e1);
            lemma_sub_mags32_props(s1, m2, e2, m1, e1);
        }
    }
}

/// Symmetry of the relative comparison: the absolute difference, the
/// magnitude comparison and the choice of scale all ignore the operand
/// order.
pub proof fn lemma_relative_eq_symmetric(a: u32, b: u32, e: u32, mr: u32)
    ensures
        rel_eq32(a as nat, b as nat, e as nat, mr as nat) == rel_eq32(
            b as nat,
            a as nat,
            e as nat,
            mr as nat,
        ),
{
    let an = a as nat;
    let bn = b as nat;
    if is_nan32(an) || is_nan32(bn) {
        lemma_nan_never_equal(a, b, e, mr, 0);
        lemma_nan_never_equal(b, a, e, mr, 0);
    } else {
        lemma_split32(an);
        lemma_split32(bn);
        lemma_abs_diff32_symmetric(a, b);
        lemma_abs_range32(an);
        lemma_abs_range32(bn);
        let aa = abs_bits32(an);
        let ab = abs_bits32(bn);
        if val32(aa) == val32(ab) {
            lemma_mag32_inj(aa, ab);
        }
        assert((if float_lt32(aa, ab) {
            ab
        } else {
            aa
        }) == (if float_lt32(ab, aa) {
            aa
        } else {
            ab
        }));
    }
}

/// Symmetry of the ULP comparison: difference, signs and encoding
/// distance all ignore the operand order.
pub proof fn lemma_ulps_eq_symmetric(a: u32, b: u32, e: u32, u: u32)
    ensures
        ulps_eq32(a as nat, b as nat, e as nat, u) == ulps_eq32(b as nat, a as nat, e as nat, u),
{
    lemma_abs_diff32_symmetric(a, b);
}

/// With a zero absolute tolerance the ULP comparison counts exactly: two
/// distinct same-signed non-NaN values are equal precisely when their
/// encodings differ by fewer units than the budget.  (The difference of
/// distinct values never rounds to zero, because the least cancellation
/// the working significand can suffer still leaves it above the rounding
/// threshold.)
pub proof fn lemma_zero_tolerance_counts_ulps(a: u32, b: u32, u: u32)
    requires
        !is_nan32(a as nat),
        !is_nan32(b as nat),
        sign32(a as nat) == sign32(b as nat),
        a != b,
    ensures
        ulps_eq32(a as nat, b as nat, 0, u) == ((if a >= b {
            a - b
        } else {
            b - a
        }) < u),
{
    lemma_consts32();
    let an = a as nat;
    let bn = b as nat;
    lemma_split32(an);
    lemma_split32(bn);
    let diff: nat = abs_bits32(sub32s(an, bn));
    assert(!float_le32(diff, 0)) by {
        if is_inf32(an) && is_inf32(bn) {
            // same sign and both infinite would make the encodings equal
            lemma_abs_recon32(an);
            lemma_abs_recon32(bn);
            assert(false);
        } else if is_inf32(an) {
            lemma_abs_recon32(an);
            assert(diff == INF32 as nat);
            lemma_mag32_zero(INF32 as nat);
            lemma_split32(sub32s(an, bn));
        } else if is_inf32(bn) {
            assert(sub32s(an, bn) == (if sign32(bn) == 1 {
                (bn - 0x8000_0000) as nat
            } else {
                (bn + 0x8000_0000) as nat
            }));
            lemma_abs_recon32(bn);
            if sign32(bn) == 1 {
                crate::bits32::lemma_pack32(0, (bn - 0x8000_0000) as nat);
            } else {
                crate::bits32::lemma_pack32(1, bn);
            }
            assert(diff == INF32 as nat);
            lemma_mag32_zero(INF32 as nat);
            lemma_split32(sub32s(an, bn));
        } else {
            lemma_decomp32(an);
            lemma_decomp32(bn);
            let s1 = sign32(an);
            let s2 = (1 - sign32(bn)) as nat;
            assert(s1 != s2);
            lemma_abs_range32(an);
            lemma_abs_range32(bn);
            if pexp32(an) == pexp32(bn) && mant32(an) == mant32(bn) {
                // equal decompositions with equal signs are equal encodings
                lemma_mag32_inj(abs_bits32(an), abs_bits32(bn));
                assert(false);
            } else if pexp32(an) > pexp32(bn) || (pexp32(an) == pexp32(bn) && mant32(an)
                > mant32(bn)) {
                lemma_sub_mags32_props(s1, mant32(an), pexp32(an), mant32(bn), pexp32(bn));
                lemma_split32(sub32s(an, bn));
                lemma_abs_range32(sub32s(an, bn));
                lemma_mag32_zero(diff);
            } else {
                lemma_sub_mags32_props(s2, mant32(bn), pexp32(bn), mant32(an), pexp32(an));
                lemma_split32(sub32s(an, bn));
                lemma_abs_range32(sub32s(an, bn));
                lemma_mag32_zero(diff);
            }
        }
    }
}

/// ULP monotonicity: stepping a positive value `k` representable places
/// upward (encoding order is value order within one sign) stays within
/// the budget exactly when `k` is below it, under a zero absolute
/// tolerance.
pub proof fn lemma_ulps_count_steps(a: u32, k: u32, u: u32)
    requires
        sign32(a as nat) == 0,
        !is_nan32(a as nat),
        1 <= k,
        a + k <= 0x7F80_0000,
    ensures
        ulps_eq32(a as nat, (a + k) as nat, 0, u) == (k < u),
{
    let b: u32 = (a + k) as u32;
    assert(sign32(b as nat) == 0 && !is_nan32(b as nat)) by (nonlinear_arith)
        requires
            b <= 0x7F80_0000,
            sign32(b as nat) == (b as nat / 0x8000_0000) % 2,
            is_nan32(b as nat) == (exp32(b as nat) == 0xFF && frac32(b as nat) != 0),
            exp32(b as nat) == (b as nat / 0x80_0000) % 0x100,
            frac32(b as nat) == b as nat % 0x80_0000,
    ;
    lemma_zero_tolerance_counts_ulps(a, b, u);
}

} // verus!
