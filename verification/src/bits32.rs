//! Bit-level model of IEEE-754 binary32 values.
//!
//! A value is carried as its 32-bit encoding: 1 sign bit, 11 exponent bits,
//! 52 fraction bits.  The model assigns every finite encoding an exact
//! integer magnitude scaled by `2^149` (the weight of the least subnormal),
//! so that ordering and equality of values become ordering and equality of
//! integers.  The infinity encoding sits above every finite magnitude under
//! the same formula, so one monotone map covers all non-NaN values.

use vstd::prelude::*;
use vstd::arithmetic::power2::{
    lemma2_to64, lemma2_to64_rest, lemma_pow2_adds, lemma_pow2_pos, lemma_pow2_strictly_increases,
    pow2,
};

verus! {

/// Sign bit of the binary32 encoding.
pub const SIGN32: u32 = 0x8000_0000;

/// The implicit leading mantissa bit, `2^23`.
pub const IMPLICIT32: u32 = 0x80_0000;

/// Encoding of positive infinity.
pub const INF32: u32 = 0x7F80_0000;

/// The quiet NaN produced by arithmetic on invalid operands.
pub const QNAN32: u32 = 0x7FC0_0000;

/// Machine epsilon of binary32, `2^-23`: the gap from 1.0 to the next value up.
pub const EPS32: u32 = 0x3400_0000;

/// Sign bit of an encoding: 0 for positive values, 1 for negative ones.
pub open spec fn sign32(b: nat) -> nat {
    (b / 0x8000_0000) % 2
}

/// The encoding with the sign bit cleared.
pub open spec fn abs_bits32(b: nat) -> nat {
    b % 0x8000_0000
}

/// The 11-bit exponent field.
pub open spec fn exp32(b: nat) -> nat {
    (b / 0x80_0000) % 0x100
}

/// The 52-bit fraction field.
pub open spec fn frac32(b: nat) -> nat {
    b % 0x80_0000
}

pub open spec fn is_nan32(b: nat) -> bool {
    exp32(b) == 0xFF && frac32(b) != 0
}

pub open spec fn is_inf32(b: nat) -> bool {
    exp32(b) == 0xFF && frac32(b) == 0
}

pub open spec fn is_finite32(b: nat) -> bool {
    exp32(b) != 0xFF
}

/// Full mantissa of a finite value: the fraction with the implicit bit made
/// explicit for normal values.
pub open spec fn mant32(b: nat) -> nat {
    if exp32(b) == 0 {
        frac32(b)
    } else {
        frac32(b) + 0x80_0000
    }
}

/// Power-of-two position of the mantissa: subnormals share position 1 with
/// the least normal exponent.
pub open spec fn pexp32(b: nat) -> nat {
    if exp32(b) == 0 {
        1
    } else {
        exp32(b)
    }
}

/// Magnitude of a non-NaN value as an exact integer, scaled by `2^149`.
/// Applied to the infinity encoding it yields `2^277`, above every finite
/// magnitude, so the map is monotone over all non-NaN encodings.
pub open spec fn mag32(b: nat) -> nat {
    mant32(b) * pow2((pexp32(b) - 1) as nat)
}

/// Signed value of a non-NaN encoding, scaled by `2^149`.
pub open spec fn val32(b: nat) -> int {
    if sign32(b) == 1 {
        -(mag32(b) as int)
    } else {
        mag32(b) as int
    }
}

/// IEEE-754 `<=` on encodings: false on NaN, value order otherwise.
pub open spec fn float_le32(x: nat, y: nat) -> bool {
    !is_nan32(x) && !is_nan32(y) && val32(x) <= val32(y)
}

/// IEEE-754 `<` on encodings.
pub open spec fn float_lt32(x: nat, y: nat) -> bool {
    !is_nan32(x) && !is_nan32(y) && val32(x) < val32(y)
}

/// IEEE-754 `==` on encodings: false on NaN, and the two zeros are equal.
pub open spec fn float_eq32(x: nat, y: nat) -> bool {
    !is_nan32(x) && !is_nan32(y) && val32(x) == val32(y)
}

/// A non-negative tolerance: not a NaN, and at least as large as zero
/// (either signed zero qualifies).
pub open spec fn nonneg32(b: nat) -> bool {
    !is_nan32(b) && val32(b) >= 0
}

/// Splitting an encoding at the sign bit leaves every other field unchanged.
pub proof fn lemma_split32(b: nat)
    requires
        b < 0x1_0000_0000,
    ensures
        b == sign32(b) * 0x8000_0000 + abs_bits32(b),
        abs_bits32(b) < 0x8000_0000,
        exp32(b) == exp32(abs_bits32(b)),
        frac32(b) == frac32(abs_bits32(b)),
        sign32(abs_bits32(b)) == 0,
        sign32(b) <= 1,
        mant32(b) == mant32(abs_bits32(b)),
        pexp32(b) == pexp32(abs_bits32(b)),
        mag32(b) == mag32(abs_bits32(b)),
{
    let s = b / 0x8000_0000;
    let a = b % 0x8000_0000;
    assert(s < 2 && b == s * 0x8000_0000 + a && a < 0x8000_0000)
        by (nonlinear_arith)
        requires
            b < 0x1_0000_0000,
            s == b / 0x8000_0000,
            a == b % 0x8000_0000,
    ;
    assert(sign32(b) == s);
    assert(b / 0x80_0000 == s * 0x100 + a / 0x80_0000
        && b % 0x80_0000 == a % 0x80_0000) by (nonlinear_arith)
        requires
            s < 2,
            b == s * 0x8000_0000 + a,
            a < 0x8000_0000,
    ;
    assert((s * 0x100 + a / 0x80_0000) % 0x100 == (a / 0x80_0000) % 0x100)
        by (nonlinear_arith)
        requires
            s < 2,
            a < 0x8000_0000,
    ;
}

/// The integer magnitude is strictly monotone in the sign-free encoding,
/// over finite values and infinity alike.
pub proof fn lemma_mag32_mono(p: nat, q: nat)
    requires
        p < q,
        q <= 0x7F80_0000,
    ensures
        mag32(p) < mag32(q),
{
    lemma2_to64();
    lemma2_to64_rest();
    let ep = exp32(p);
    let eq_ = exp32(q);
    let dp = p / 0x80_0000;
    let dq = q / 0x80_0000;
    assert(dp == ep && dq == eq_ && dp <= dq && frac32(p) < 0x80_0000
        && frac32(q) < 0x80_0000 && p == dp * 0x80_0000 + frac32(p)
        && q == dq * 0x80_0000 + frac32(q)) by (nonlinear_arith)
        requires
            p < q,
            q <= 0x7F80_0000,
            ep == exp32(p),
            eq_ == exp32(q),
            dp == p / 0x80_0000,
            dq == q / 0x80_0000,
    ;
    let wp = pow2((pexp32(p) - 1) as nat);
    let wq = pow2((pexp32(q) - 1) as nat);
    lemma_pow2_pos((pexp32(p) - 1) as nat);
    lemma_pow2_pos((pexp32(q) - 1) as nat);
    if ep == eq_ {
        assert(mant32(p) < mant32(q));
        assert(mant32(p) * wp < mant32(q) * wq) by (nonlinear_arith)
            requires
                mant32(p) < mant32(q),
                wp == wq,
                wp > 0,
        ;
    } else {
        // ep < eq_, so q is normal with a full implicit bit.
        assert(ep < eq_);
        assert(mant32(q) >= 0x80_0000);
        if ep == 0 {
            // subnormal p: mantissa below 2^23 at position 1
            assert(wp == pow2(0) && wp == 1);
            assert(mag32(p) < 0x80_0000) by (nonlinear_arith)
                requires
                    mant32(p) < 0x80_0000,
                    wp == 1,
                    mag32(p) == mant32(p) * wp,
            ;
            assert(mag32(q) >= 0x80_0000 * 1) by (nonlinear_arith)
                requires
                    mant32(q) >= 0x80_0000,
                    wq >= 1,
                    mag32(q) == mant32(q) * wq,
            ;
        } else {
            // normal p below q: bound p's magnitude by the next binade
            let kp = (pexp32(p) - 1) as nat;
            let kq = (pexp32(q) - 1) as nat;
            assert(kp + 1 <= kq);
            lemma_pow2_adds(24, kp);
            lemma_pow2_adds(23, kq);
            assert(mag32(p) < pow2(24) * wp) by (nonlinear_arith)
                requires
                    mant32(p) < pow2(24),
                    wp > 0,
                    mag32(p) == mant32(p) * wp,
            ;
            assert(pow2(24 + kp) <= pow2(23 + kq)) by {
                if 24 + kp < 23 + kq {
                    lemma_pow2_strictly_increases((24 + kp) as nat, (23 + kq) as nat);
                }
            }
            assert(mag32(q) >= pow2(23) * wq) by (nonlinear_arith)
                requires
                    mant32(q) >= pow2(23),
                    wq > 0,
                    mag32(q) == mant32(q) * wq,
            ;
        }
    }
}

/// A sign-free encoding has magnitude zero exactly when it is the zero
/// encoding.
pub proof fn lemma_mag32_zero(b: nat)
    requires
        b <= 0x7F80_0000,
    ensures
        (mag32(b) == 0) == (b == 0),
{
    lemma2_to64();
    lemma2_to64_rest();
    lemma_pow2_pos((pexp32(b) - 1) as nat);
    if b == 0 {
        assert(exp32(b) == 0 && frac32(b) == 0);
        assert(mag32(b) == 0) by (nonlinear_arith)
            requires
                mant32(b) == 0,
                mag32(b) == mant32(b) * pow2((pexp32(b) - 1) as nat),
        ;
    } else {
        assert(exp32(b) != 0 || frac32(b) != 0) by (nonlinear_arith)
            requires
                b != 0,
                b <= 0x7F80_0000,
                exp32(b) == (b / 0x80_0000) % 0x100,
                frac32(b) == b % 0x80_0000,
        ;
        assert(mant32(b) > 0);
        assert(mag32(b) > 0) by (nonlinear_arith)
            requires
                mant32(b) > 0,
                pow2((pexp32(b) - 1) as nat) > 0,
                mag32(b) == mant32(b) * pow2((pexp32(b) - 1) as nat),
        ;
    }
}

/// Classification: is the encoding a NaN?
pub fn nan32x(b: u32) -> (r: bool)
    ensures
        r == is_nan32(b as nat),
{
    (b / 0x80_0000) % 0x100 == 0xFF && b % 0x80_0000 != 0
}

/// Classification: is the encoding an infinity?
pub fn inf32x(b: u32) -> (r: bool)
    ensures
        r == is_inf32(b as nat),
{
    (b / 0x80_0000) % 0x100 == 0xFF && b % 0x80_0000 == 0
}

/// IEEE-754 `<=` computed on the encodings.
pub fn le32x(x: u32, y: u32) -> (r: bool)
    ensures
        r == float_le32(x as nat, y as nat),
{
    if nan32x(x) || nan32x(y) {
        return false;
    }
    let ax: u32 = x % SIGN32;
    let ay: u32 = y % SIGN32;
    let sx: u32 = x / SIGN32;
    let sy: u32 = y / SIGN32;
    proof {
        lemma_split32(x as nat);
        lemma_split32(y as nat);
        assert(sx == sign32(x as nat) && sy == sign32(y as nat)) by (nonlinear_arith)
            requires
                sx == x as nat / 0x8000_0000,
                sy == y as nat / 0x8000_0000,
                x < 0x1_0000_0000,
                y < 0x1_0000_0000,
                sign32(x as nat) == (x as nat / 0x8000_0000) % 2,
                sign32(y as nat) == (y as nat / 0x8000_0000) % 2,
        ;
        assert(ax <= 0x7F80_0000 && ay <= 0x7F80_0000) by {
            lemma_abs_range32(x as nat);
            lemma_abs_range32(y as nat);
        }
        lemma_mag32_zero(ax as nat);
        lemma_mag32_zero(ay as nat);
        if ax < ay {
            lemma_mag32_mono(ax as nat, ay as nat);
        }
        if ay < ax {
            lemma_mag32_mono(ay as nat, ax as nat);
        }
    }
    if ax == 0 && ay == 0 {
        return true;
    }
    if ax == 0 {
        return sy == 0;
    }
    if ay == 0 {
        return sx == 1;
    }
    if sx != sy {
        return sx == 1;
    }
    if sx == 0 {
        ax <= ay
    } else {
        ay <= ax
    }
}

/// IEEE-754 `<` computed on the encodings.
pub fn lt32x(x: u32, y: u32) -> (r: bool)
    ensures
        r == float_lt32(x as nat, y as nat),
{
    if nan32x(x) || nan32x(y) {
        return false;
    }
    let r = le32x(y, x);
    !r
}

/// IEEE-754 `==` computed on the encodings: bit-equal non-NaN values are
/// equal, and so are the two signed zeros.
pub fn eq32x(x: u32, y: u32) -> (r: bool)
    ensures
        r == float_eq32(x as nat, y as nat),
{
    if nan32x(x) || nan32x(y) {
        return false;
    }
    let ax: u32 = x % SIGN32;
    let ay: u32 = y % SIGN32;
    proof {
        lemma_split32(x as nat);
        lemma_split32(y as nat);
        lemma_abs_range32(x as nat);
        lemma_abs_range32(y as nat);
        lemma_mag32_zero(ax as nat);
        lemma_mag32_zero(ay as nat);
        if ax < ay {
            lemma_mag32_mono(ax as nat, ay as nat);
        }
        if ay < ax {
            lemma_mag32_mono(ay as nat, ax as nat);
        }
        assert((x as nat / 0x8000_0000) % 2 == x as nat / 0x8000_0000)
            by (nonlinear_arith)
            requires
                x < 0x1_0000_0000,
        ;
        assert((y as nat / 0x8000_0000) % 2 == y as nat / 0x8000_0000)
            by (nonlinear_arith)
            requires
                y < 0x1_0000_0000,
        ;
    }
    x == y || (ax == 0 && ay == 0)
}

/// Composing an encoding from a sign bit and a sign-free part recovers
/// each field.
pub proof fn lemma_pack32(s: nat, low: nat)
    requires
        s <= 1,
        low < 0x8000_0000,
    ensures
        sign32(s * 0x8000_0000 + low) == s,
        abs_bits32(s * 0x8000_0000 + low) == low,
        exp32(s * 0x8000_0000 + low) == exp32(low),
        frac32(s * 0x8000_0000 + low) == frac32(low),
        s * 0x8000_0000 + low < 0x1_0000_0000,
{
    let b: nat = s * 0x8000_0000 + low;
    assert(b < 0x1_0000_0000 && b / 0x8000_0000 == s && b
        % 0x8000_0000 == low) by (nonlinear_arith)
        requires
            s <= 1,
            low < 0x8000_0000,
            b == s * 0x8000_0000 + low,
    ;
    lemma_split32(b);
    lemma_sign32_id(b);
}

/// The sign-free part of an encoding is rebuilt from its exponent and
/// fraction fields.
pub proof fn lemma_abs_recon32(b: nat)
    requires
        b < 0x1_0000_0000,
    ensures
        abs_bits32(b) == exp32(b) * 0x80_0000 + frac32(b),
{
    lemma_split32(b);
    let a = abs_bits32(b);
    assert(a == ((a / 0x80_0000) % 0x100) * 0x80_0000 + a
        % 0x80_0000) by (nonlinear_arith)
        requires
            a < 0x8000_0000,
    ;
}

/// For actual 32-bit encodings the sign quotient is already a single bit.
pub proof fn lemma_sign32_id(b: nat)
    requires
        b < 0x1_0000_0000,
    ensures
        sign32(b) == b / 0x8000_0000,
{
    assert((b / 0x8000_0000) % 2 == b / 0x8000_0000) by (nonlinear_arith)
        requires
            b < 0x1_0000_0000,
    ;
}

/// An encoding with the sign bit cleared stays at or below the infinity
/// encoding when it is not a NaN.
pub proof fn lemma_abs_range32(b: nat)
    requires
        b < 0x1_0000_0000,
        !is_nan32(b),
    ensures
        abs_bits32(b) <= 0x7F80_0000,
{
    lemma_split32(b);
    let a = abs_bits32(b);
    assert(a <= 0x7F80_0000) by (nonlinear_arith)
        requires
            a < 0x8000_0000,
            !(exp32(a) == 0xFF && frac32(a) != 0),
            exp32(a) == (a / 0x80_0000) % 0x100,
            frac32(a) == a % 0x80_0000,
    ;
}

} // verus!
