//! Bit-level model of IEEE-754 binary64 values.
//!
//! A value is carried as its 64-bit encoding: 1 sign bit, 11 exponent bits,
//! 52 fraction bits.  The model assigns every finite encoding an exact
//! integer magnitude scaled by `2^1074` (the weight of the least subnormal),
//! so that ordering and equality of values become ordering and equality of
//! integers.  The infinity encoding sits above every finite magnitude under
//! the same formula, so one monotone map covers all non-NaN values.

use vstd::prelude::*;
use vstd::arithmetic::power2::{
    lemma2_to64, lemma2_to64_rest, lemma_pow2_adds, lemma_pow2_pos, lemma_pow2_strictly_increases,
    pow2,
};

verus! {

/// Sign bit of the binary64 encoding.
pub const SIGN64: u64 = 0x8000_0000_0000_0000;

/// The implicit leading mantissa bit, `2^52`.
pub const IMPLICIT64: u64 = 0x10_0000_0000_0000;

/// Encoding of positive infinity.
pub const INF64: u64 = 0x7FF0_0000_0000_0000;

/// The quiet NaN produced by arithmetic on invalid operands.
pub const QNAN64: u64 = 0x7FF8_0000_0000_0000;

/// Machine epsilon of binary64, `2^-52`: the gap from 1.0 to the next value up.
pub const EPS64: u64 = 0x3CB0_0000_0000_0000;

/// Sign bit of an encoding: 0 for positive values, 1 for negative ones.
pub open spec fn sign64(b: nat) -> nat {
    (b / 0x8000_0000_0000_0000) % 2
}

/// The encoding with the sign bit cleared.
pub open spec fn abs_bits64(b: nat) -> nat {
    b % 0x8000_0000_0000_0000
}

/// The 11-bit exponent field.
pub open spec fn exp64(b: nat) -> nat {
    (b / 0x10_0000_0000_0000) % 0x800
}

/// The 52-bit fraction field.
pub open spec fn frac64(b: nat) -> nat {
    b % 0x10_0000_0000_0000
}

pub open spec fn is_nan64(b: nat) -> bool {
    exp64(b) == 0x7FF && frac64(b) != 0
}

pub open spec fn is_inf64(b: nat) -> bool {
    exp64(b) == 0x7FF && frac64(b) == 0
}

pub open spec fn is_finite64(b: nat) -> bool {
    exp64(b) != 0x7FF
}

/// Full mantissa of a finite value: the fraction with the implicit bit made
/// explicit for normal values.
pub open spec fn mant64(b: nat) -> nat {
    if exp64(b) == 0 {
        frac64(b)
    } else {
        frac64(b) + 0x10_0000_0000_0000
    }
}

/// Power-of-two position of the mantissa: subnormals share position 1 with
/// the least normal exponent.
pub open spec fn pexp64(b: nat) -> nat {
    if exp64(b) == 0 {
        1
    } else {
        exp64(b)
    }
}

/// Magnitude of a non-NaN value as an exact integer, scaled by `2^1074`.
/// Applied to the infinity encoding it yields `2^2098`, above every finite
/// magnitude, so the map is monotone over all non-NaN encodings.
pub open spec fn mag64(b: nat) -> nat {
    mant64(b) * pow2((pexp64(b) - 1) as nat)
}

/// Signed value of a non-NaN encoding, scaled by `2^1074`.
pub open spec fn val64(b: nat) -> int {
    if sign64(b) == 1 {
        -(mag64(b) as int)
    } else {
        mag64(b) as int
    }
}

/// IEEE-754 `<=` on encodings: false on NaN, value order otherwise.
pub open spec fn float_le64(x: nat, y: nat) -> bool {
    !is_nan64(x) && !is_nan64(y) && val64(x) <= val64(y)
}

/// IEEE-754 `<` on encodings.
pub open spec fn float_lt64(x: nat, y: nat) -> bool {
    !is_nan64(x) && !is_nan64(y) && val64(x) < val64(y)
}

/// IEEE-754 `==` on encodings: false on NaN, and the two zeros are equal.
pub open spec fn float_eq64(x: nat, y: nat) -> bool {
    !is_nan64(x) && !is_nan64(y) && val64(x) == val64(y)
}

/// A non-negative tolerance: not a NaN, and at least as large as zero
/// (either signed zero qualifies).
pub open spec fn nonneg64(b: nat) -> bool {
    !is_nan64(b) && val64(b) >= 0
}

/// Splitting an encoding at the sign bit leaves every other field unchanged.
pub proof fn lemma_split64(b: nat)
    requires
        b < 0x1_0000_0000_0000_0000,
    ensures
        b == sign64(b) * 0x8000_0000_0000_0000 + abs_bits64(b),
        abs_bits64(b) < 0x8000_0000_0000_0000,
        exp64(b) == exp64(abs_bits64(b)),
        frac64(b) == frac64(abs_bits64(b)),
        sign64(abs_bits64(b)) == 0,
        sign64(b) <= 1,
        mant64(b) == mant64(abs_bits64(b)),
        pexp64(b) == pexp64(abs_bits64(b)),
        mag64(b) == mag64(abs_bits64(b)),
{
    let s = b / 0x8000_0000_0000_0000;
    let a = b % 0x8000_0000_0000_0000;
    assert(s < 2 && b == s * 0x8000_0000_0000_0000 + a && a < 0x8000_0000_0000_0000)
        by (nonlinear_arith)
        requires
            b < 0x1_0000_0000_0000_0000,
            s == b / 0x8000_0000_0000_0000,
            a == b % 0x8000_0000_0000_0000,
    ;
    assert(sign64(b) == s);
    assert(b / 0x10_0000_0000_0000 == s * 0x800 + a / 0x10_0000_0000_0000
        && b % 0x10_0000_0000_0000 == a % 0x10_0000_0000_0000) by (nonlinear_arith)
        requires
            s < 2,
            b == s * 0x8000_0000_0000_0000 + a,
            a < 0x8000_0000_0000_0000,
    ;
    assert((s * 0x800 + a / 0x10_0000_0000_0000) % 0x800 == (a / 0x10_0000_0000_0000) % 0x800)
        by (nonlinear_arith)
        requires
            s < 2,
            a < 0x8000_0000_0000_0000,
    ;
}

/// The integer magnitude is strictly monotone in the sign-free encoding,
/// over finite values and infinity alike.
pub proof fn lemma_mag64_mono(p: nat, q: nat)
    requires
        p < q,
        q <= 0x7FF0_0000_0000_0000,
    ensures
        mag64(p) < mag64(q),
{
    lemma2_to64();
    lemma2_to64_rest();
    let ep = exp64(p);
    let eq_ = exp64(q);
    let dp = p / 0x10_0000_0000_0000;
    let dq = q / 0x10_0000_0000_0000;
    assert(dp == ep && dq == eq_ && dp <= dq && frac64(p) < 0x10_0000_0000_0000
        && frac64(q) < 0x10_0000_0000_0000 && p == dp * 0x10_0000_0000_0000 + frac64(p)
        && q == dq * 0x10_0000_0000_0000 + frac64(q)) by (nonlinear_arith)
        requires
            p < q,
            q <= 0x7FF0_0000_0000_0000,
            ep == exp64(p),
            eq_ == exp64(q),
            dp == p / 0x10_0000_0000_0000,
            dq == q / 0x10_0000_0000_0000,
    ;
    let wp = pow2((pexp64(p) - 1) as nat);
    let wq = pow2((pexp64(q) - 1) as nat);
    lemma_pow2_pos((pexp64(p) - 1) as nat);
    lemma_pow2_pos((pexp64(q) - 1) as nat);
    if ep == eq_ {
        assert(mant64(p) < mant64(q));
        assert(mant64(p) * wp < mant64(q) * wq) by (nonlinear_arith)
            requires
                mant64(p) < mant64(q),
                wp == wq,
                wp > 0,
        ;
    } else {
        // ep < eq_, so q is normal with a full implicit bit.
        assert(ep < eq_);
        assert(mant64(q) >= 0x10_0000_0000_0000);
        if ep == 0 {
            // subnormal p: mantissa below 2^52 at position 1
            assert(wp == pow2(0) && wp == 1);
            assert(mag64(p) < 0x10_0000_0000_0000) by (nonlinear_arith)
                requires
                    mant64(p) < 0x10_0000_0000_0000,
                    wp == 1,
                    mag64(p) == mant64(p) * wp,
            ;
            assert(mag64(q) >= 0x10_0000_0000_0000 * 1) by (nonlinear_arith)
                requires
                    mant64(q) >= 0x10_0000_0000_0000,
                    wq >= 1,
                    mag64(q) == mant64(q) * wq,
            ;
        } else {
            // normal p below q: bound p's magnitude by the next binade
            let kp = (pexp64(p) - 1) as nat;
            let kq = (pexp64(q) - 1) as nat;
            assert(kp + 1 <= kq);
            lemma_pow2_adds(53, kp);
            lemma_pow2_adds(52, kq);
            assert(mag64(p) < pow2(53) * wp) by (nonlinear_arith)
                requires
                    mant64(p) < pow2(53),
                    wp > 0,
                    mag64(p) == mant64(p) * wp,
            ;
            assert(pow2(53 + kp) <= pow2(52 + kq)) by {
                if 53 + kp < 52 + kq {
                    lemma_pow2_strictly_increases((53 + kp) as nat, (52 + kq) as nat);
                }
            }
            assert(mag64(q) >= pow2(52) * wq) by (nonlinear_arith)
                requires
                    mant64(q) >= pow2(52),
                    wq > 0,
                    mag64(q) == mant64(q) * wq,
            ;
        }
    }
}

/// A sign-free encoding has magnitude zero exactly when it is the zero
/// encoding.
pub proof fn lemma_mag64_zero(b: nat)
    requires
        b <= 0x7FF0_0000_0000_0000,
    ensures
        (mag64(b) == 0) == (b == 0),
{
    lemma2_to64();
    lemma2_to64_rest();
    lemma_pow2_pos((pexp64(b) - 1) as nat);
    if b == 0 {
        assert(exp64(b) == 0 && frac64(b) == 0);
        assert(mag64(b) == 0) by (nonlinear_arith)
            requires
                mant64(b) == 0,
                mag64(b) == mant64(b) * pow2((pexp64(b) - 1) as nat),
        ;
    } else {
        assert(exp64(b) != 0 || frac64(b) != 0) by (nonlinear_arith)
            requires
                b != 0,
                b <= 0x7FF0_0000_0000_0000,
                exp64(b) == (b / 0x10_0000_0000_0000) % 0x800,
                frac64(b) == b % 0x10_0000_0000_0000,
        ;
        assert(mant64(b) > 0);
        assert(mag64(b) > 0) by (nonlinear_arith)
            requires
                mant64(b) > 0,
                pow2((pexp64(b) - 1) as nat) > 0,
                mag64(b) == mant64(b) * pow2((pexp64(b) - 1) as nat),
        ;
    }
}

/// Classification: is the encoding a NaN?
pub fn nan64x(b: u64) -> (r: bool)
    ensures
        r == is_nan64(b as nat),
{
    (b / 0x10_0000_0000_0000) % 0x800 == 0x7FF && b % 0x10_0000_0000_0000 != 0
}

/// Classification: is the encoding an infinity?
pub fn inf64x(b: u64) -> (r: bool)
    ensures
        r == is_inf64(b as nat),
{
    (b / 0x10_0000_0000_0000) % 0x800 == 0x7FF && b % 0x10_0000_0000_0000 == 0
}

/// IEEE-754 `<=` computed on the encodings.
pub fn le64x(x: u64, y: u64) -> (r: bool)
    ensures
        r == float_le64(x as nat, y as nat),
{
    if nan64x(x) || nan64x(y) {
        return false;
    }
    let ax: u64 = x % SIGN64;
    let ay: u64 = y % SIGN64;
    let sx: u64 = x / SIGN64;
    let sy: u64 = y / SIGN64;
    proof {
        lemma_split64(x as nat);
        lemma_split64(y as nat);
        assert(sx == sign64(x as nat) && sy == sign64(y as nat)) by (nonlinear_arith)
            requires
                sx == x as nat / 0x8000_0000_0000_0000,
                sy == y as nat / 0x8000_0000_0000_0000,
                x < 0x1_0000_0000_0000_0000,
                y < 0x1_0000_0000_0000_0000,
                sign64(x as nat) == (x as nat / 0x8000_0000_0000_0000) % 2,
                sign64(y as nat) == (y as nat / 0x8000_0000_0000_0000) % 2,
        ;
        assert(ax <= 0x7FF0_0000_0000_0000 && ay <= 0x7FF0_0000_0000_0000) by {
            lemma_abs_range64(x as nat);
            lemma_abs_range64(y as nat);
        }
        lemma_mag64_zero(ax as nat);
        lemma_mag64_zero(ay as nat);
        if ax < ay {
            lemma_mag64_mono(ax as nat, ay as nat);
        }
        if ay < ax {
            lemma_mag64_mono(ay as nat, ax as nat);
        }
    }
    if ax == 0 && ay == 0 {
        return true;
    }
    if ax == 0 {
        return sy == 0;
    }
    if ay == 0 {
        return sx == 1;
    }
    if sx != sy {
        return sx == 1;
    }
    if sx == 0 {
        ax <= ay
    } else {
        ay <= ax
    }
}

/// IEEE-754 `<` computed on the encodings.
pub fn lt64x(x: u64, y: u64) -> (r: bool)
    ensures
        r == float_lt64(x as nat, y as nat),
{
    if nan64x(x) || nan64x(y) {
        return false;
    }
    let r = le64x(y, x);
    !r
}

/// IEEE-754 `==` computed on the encodings: bit-equal non-NaN values are
/// equal, and so are the two signed zeros.
pub fn eq64x(x: u64, y: u64) -> (r: bool)
    ensures
        r == float_eq64(x as nat, y as nat),
{
    if nan64x(x) || nan64x(y) {
        return false;
    }
    let ax: u64 = x % SIGN64;
    let ay: u64 = y % SIGN64;
    proof {
        lemma_split64(x as nat);
        lemma_split64(y as nat);
        lemma_abs_range64(x as nat);
        lemma_abs_range64(y as nat);
        lemma_mag64_zero(ax as nat);
        lemma_mag64_zero(ay as nat);
        if ax < ay {
            lemma_mag64_mono(ax as nat, ay as nat);
        }
        if ay < ax {
            lemma_mag64_mono(ay as nat, ax as nat);
        }
        assert((x as nat / 0x8000_0000_0000_0000) % 2 == x as nat / 0x8000_0000_0000_0000)
            by (nonlinear_arith)
            requires
                x < 0x1_0000_0000_0000_0000,
        ;
        assert((y as nat / 0x8000_0000_0000_0000) % 2 == y as nat / 0x8000_0000_0000_0000)
            by (nonlinear_arith)
            requires
                y < 0x1_0000_0000_0000_0000,
        ;
    }
    x == y || (ax == 0 && ay == 0)
}

/// Composing an encoding from a sign bit and a sign-free part recovers
/// each field.
pub proof fn lemma_pack64(s: nat, low: nat)
    requires
        s <= 1,
        low < 0x8000_0000_0000_0000,
    ensures
        sign64(s * 0x8000_0000_0000_0000 + low) == s,
        abs_bits64(s * 0x8000_0000_0000_0000 + low) == low,
        exp64(s * 0x8000_0000_0000_0000 + low) == exp64(low),
        frac64(s * 0x8000_0000_0000_0000 + low) == frac64(low),
        s * 0x8000_0000_0000_0000 + low < 0x1_0000_0000_0000_0000,
{
    let b: nat = s * 0x8000_0000_0000_0000 + low;
    assert(b < 0x1_0000_0000_0000_0000 && b / 0x8000_0000_0000_0000 == s && b
        % 0x8000_0000_0000_0000 == low) by (nonlinear_arith)
        requires
            s <= 1,
            low < 0x8000_0000_0000_0000,
            b == s * 0x8000_0000_0000_0000 + low,
    ;
    lemma_split64(b);
    lemma_sign64_id(b);
}

/// The sign-free part of an encoding is rebuilt from its exponent and
/// fraction fields.
pub proof fn lemma_abs_recon64(b: nat)
    requires
        b < 0x1_0000_0000_0000_0000,
    ensures
        abs_bits64(b) == exp64(b) * 0x10_0000_0000_0000 + frac64(b),
{
    lemma_split64(b);
    let a = abs_bits64(b);
    assert(a == ((a / 0x10_0000_0000_0000) % 0x800) * 0x10_0000_0000_0000 + a
        % 0x10_0000_0000_0000) by (nonlinear_arith)
        requires
            a < 0x8000_0000_0000_0000,
    ;
}

/// For actual 64-bit encodings the sign quotient is already a single bit.
pub proof fn lemma_sign64_id(b: nat)
    requires
        b < 0x1_0000_0000_0000_0000,
    ensures
        sign64(b) == b / 0x8000_0000_0000_0000,
{
    assert((b / 0x8000_0000_0000_0000) % 2 == b / 0x8000_0000_0000_0000) by (nonlinear_arith)
        requires
            b < 0x1_0000_0000_0000_0000,
    ;
}

/// An encoding with the sign bit cleared stays at or below the infinity
/// encoding when it is not a NaN.
pub proof fn lemma_abs_range64(b: nat)
    requires
        b < 0x1_0000_0000_0000_0000,
        !is_nan64(b),
    ensures
        abs_bits64(b) <= 0x7FF0_0000_0000_0000,
{
    lemma_split64(b);
    let a = abs_bits64(b);
    assert(a <= 0x7FF0_0000_0000_0000) by (nonlinear_arith)
        requires
            a < 0x8000_0000_0000_0000,
            !(exp64(a) == 0x7FF && frac64(a) != 0),
            exp64(a) == (a / 0x10_0000_0000_0000) % 0x800,
            frac64(a) == a % 0x10_0000_0000_0000,
    ;
}

} // verus!
