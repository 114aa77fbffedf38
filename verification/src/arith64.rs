//! Round-to-nearest-even arithmetic on binary64 encodings.
//!
//! The comparison predicates need two rounded operations: the absolute
//! difference of two values and the product of a magnitude with a relative
//! tolerance.  Both are defined here directly on the integer mantissas of
//! the encodings, working three bits below the target precision with a
//! sticky lowest bit (`jam1`), exactly as a hardware unit would; the
//! executable functions mirror the specification functions step for step.

use vstd::prelude::*;
use vstd::arithmetic::div_mod::{lemma_div_denominator, lemma_div_is_ordered};
use vstd::arithmetic::power2::{
    lemma2_to64, lemma2_to64_rest, lemma_pow2_adds, lemma_pow2_pos, lemma_pow2_strictly_increases,
    lemma_pow2_unfold, pow2,
};

use crate::bits64::{
    abs_bits64, exp64, frac64, is_inf64, is_nan64, lemma_sign64_id, mant64, pexp64,
    sign64, INF64, QNAN64, SIGN64,
};

verus! {

/// One right shift that keeps a sticky lowest bit: a dropped 1 is folded
/// into the result's lowest bit so that no inexactness is forgotten.
pub open spec fn jam1(x: nat) -> nat {
    let q: nat = x / 2;
    if x % 2 == 1 {
        if q % 2 == 0 {
            q + 1
        } else {
            q
        }
    } else {
        q
    }
}

/// `d` sticky right shifts in sequence.
pub open spec fn jam_shift(x: nat, d: nat) -> nat
    decreases d,
{
    if d == 0 {
        x
    } else {
        jam1(jam_shift(x, (d - 1) as nat))
    }
}

/// Left shift by `k`, as repeated doubling.
pub open spec fn shl_n(x: nat, k: nat) -> nat
    decreases k,
{
    if k == 0 {
        x
    } else {
        2 * shl_n(x, (k - 1) as nat)
    }
}

/// Position of the highest set bit.
pub open spec fn floor_log2(n: nat) -> nat
    decreases n,
{
    if n < 2 {
        0
    } else {
        1 + floor_log2(n / 2)
    }
}

pub proof fn lemma_shl_n_is_mul(x: nat, k: nat)
    ensures
        shl_n(x, k) == x * pow2(k),
    decreases k,
{
    if k == 0 {
        lemma2_to64();
        assert(x * 1 == x) by (nonlinear_arith);
    } else {
        lemma_shl_n_is_mul(x, (k - 1) as nat);
        lemma_pow2_unfold(k);
        assert(2 * (x * pow2((k - 1) as nat)) == x * (2 * pow2((k - 1) as nat)))
            by (nonlinear_arith);
    }
}

/// The highest set bit brackets the value between two powers of two.
pub proof fn lemma_floor_log2_bounds(n: nat)
    requires
        n >= 1,
    ensures
        pow2(floor_log2(n)) <= n,
        n < pow2(floor_log2(n) + 1),
    decreases n,
{
    lemma2_to64();
    if n < 2 {
        assert(floor_log2(n) == 0);
    } else {
        lemma_floor_log2_bounds(n / 2);
        let l: nat = floor_log2(n / 2);
        lemma_pow2_unfold((l + 1) as nat);
        lemma_pow2_unfold((l + 2) as nat);
        assert(pow2(l) <= n / 2 && n / 2 < pow2(l + 1));
        assert(n < 2 * (n / 2) + 2 && 2 * (n / 2) <= n) by (nonlinear_arith)
            requires
                n >= 2,
        ;
        assert(2 * pow2(l) <= 2 * (n / 2) && 2 * (n / 2 + 1) <= 2 * pow2(l + 1))
            by (nonlinear_arith)
            requires
                pow2(l) <= n / 2,
                n / 2 < pow2(l + 1),
        ;
    }
}

/// Round the working significand (53 mantissa bits plus 3 low rounding
/// bits) to nearest, ties to even, and pack the result.  The value stands
/// for `sig * 2^(e - 1078)`; overflow packs an infinity.
pub open spec fn round_pack64(s: nat, e: nat, sig: nat) -> nat {
    let mant: nat = sig / 8;
    let grs: nat = sig % 8;
    let m2: nat = if grs > 4 || (grs == 4 && mant % 2 == 1) {
        (mant + 1) as nat
    } else {
        mant
    };
    let m3: nat = if m2 == 0x20_0000_0000_0000 {
        0x10_0000_0000_0000 as nat
    } else {
        m2
    };
    let e2: nat = if m2 == 0x20_0000_0000_0000 {
        (e + 1) as nat
    } else {
        e
    };
    if m3 >= 0x10_0000_0000_0000 {
        if e2 >= 0x7FF {
            s * 0x8000_0000_0000_0000 + 0x7FF0_0000_0000_0000
        } else {
            (s * 0x8000_0000_0000_0000 + e2 * 0x10_0000_0000_0000 + (m3 - 0x10_0000_0000_0000)) as nat
        }
    } else {
        s * 0x8000_0000_0000_0000 + m3
    }
}

/// Normalise a small working significand upward until it fills the
/// mantissa or the exponent bottoms out, then round and pack.
pub open spec fn norm_round64(s: nat, e: nat, sig: nat) -> nat
    decreases e,
{
    if sig < 0x80_0000_0000_0000 && e > 1 {
        norm_round64(s, (e - 1) as nat, 2 * sig)
    } else {
        round_pack64(s, e, sig)
    }
}

/// Sum of two magnitudes `mb * 2^(eb - 1075)` and `ms * 2^(es - 1075)`
/// with `eb >= es`, rounded, carrying sign `s`.
pub open spec fn add_mags64(s: nat, mb: nat, eb: nat, ms: nat, es: nat) -> nat {
    let bsig: nat = jam_shift(ms * 8, (eb - es) as nat);
    let sum: nat = mb * 8 + bsig;
    if sum >= 0x100_0000_0000_0000 {
        round_pack64(s, (eb + 1) as nat, jam1(sum))
    } else {
        round_pack64(s, eb, sum)
    }
}

/// Difference of two magnitudes, the first strictly larger, rounded,
/// carrying the sign `s` of the larger one.  An exponent gap of at most
/// one is exact; a wider gap keeps a sticky bit and can cancel at most
/// one leading bit.
pub open spec fn sub_mags64(s: nat, mb: nat, eb: nat, ms: nat, es: nat) -> nat {
    let d: nat = (eb - es) as nat;
    if d == 0 {
        norm_round64(s, eb, ((mb - ms) * 8) as nat)
    } else if d == 1 {
        norm_round64(s, eb, (mb * 8 - ms * 4) as nat)
    } else {
        norm_round64(s, eb, (mb * 8 - jam_shift(ms * 8, d)) as nat)
    }
}

/// Signed sum of two decomposed finite values (the subtraction has already
/// been folded into the second sign).  Equal and opposite magnitudes give
/// the positive zero of rounding to nearest.
pub open spec fn sub_finite64(s1: nat, m1: nat, e1: nat, s2: nat, m2: nat, e2: nat) -> nat {
    if s1 == s2 {
        if e1 >= e2 {
            add_mags64(s1, m1, e1, m2, e2)
        } else {
            add_mags64(s1, m2, e2, m1, e1)
        }
    } else {
        if e1 == e2 && m1 == m2 {
            0
        } else if e1 > e2 || (e1 == e2 && m1 > m2) {
            sub_mags64(s1, m1, e1, m2, e2)
        } else {
            sub_mags64(s2, m2, e2, m1, e1)
        }
    }
}

/// IEEE-754 subtraction of binary64 encodings, rounded to nearest even.
/// NaN operands and same-signed infinities give the quiet NaN; an infinite
/// operand otherwise decides the result.
pub open spec fn sub64s(a: nat, b: nat) -> nat {
    if is_nan64(a) || is_nan64(b) {
        QNAN64 as nat
    } else if is_inf64(a) && is_inf64(b) {
        if sign64(a) == sign64(b) {
            QNAN64 as nat
        } else {
            a
        }
    } else if is_inf64(a) {
        a
    } else if is_inf64(b) {
        if sign64(b) == 1 {
            (b - 0x8000_0000_0000_0000) as nat
        } else {
            (b + 0x8000_0000_0000_0000) as nat
        }
    } else {
        sub_finite64(sign64(a), mant64(a), pexp64(a), (1 - sign64(b)) as nat, mant64(b), pexp64(b))
    }
}

/// Product of two decomposed finite nonzero values, rounded to nearest
/// even, carrying sign `s`.
pub open spec fn mul_finite64(s: nat, mx: nat, ex: nat, my: nat, ey: nat) -> nat {
    let p: nat = mx * my;
    let l: nat = floor_log2(p);
    let sig: nat = if l >= 55 {
        jam_shift(p, (l - 55) as nat)
    } else {
        shl_n(p, (55 - l) as nat)
    };
    let ez: int = ex + ey + l - 1127;
    if ez >= 0x7FF {
        s * 0x8000_0000_0000_0000 + 0x7FF0_0000_0000_0000
    } else if ez < 1 {
        round_pack64(s, 1, jam_shift(sig, (1 - ez) as nat))
    } else {
        round_pack64(s, ez as nat, sig)
    }
}

/// IEEE-754 multiplication of binary64 encodings, rounded to nearest even.
pub open spec fn mul64s(x: nat, y: nat) -> nat {
    let s: nat = if sign64(x) == sign64(y) {
        0
    } else {
        1
    };
    if is_nan64(x) || is_nan64(y) {
        QNAN64 as nat
    } else if is_inf64(x) {
        if abs_bits64(y) == 0 {
            QNAN64 as nat
        } else {
            s * 0x8000_0000_0000_0000 + 0x7FF0_0000_0000_0000
        }
    } else if is_inf64(y) {
        if abs_bits64(x) == 0 {
            QNAN64 as nat
        } else {
            s * 0x8000_0000_0000_0000 + 0x7FF0_0000_0000_0000
        }
    } else if abs_bits64(x) == 0 || abs_bits64(y) == 0 {
        s * 0x8000_0000_0000_0000
    } else {
        mul_finite64(s, mant64(x), pexp64(x), mant64(y), pexp64(y))
    }
}

pub(crate) fn jam_shift64x(x: u64, d: u64) -> (r: u64)
    ensures
        r as nat == jam_shift(x as nat, d as nat),
        r <= x,
        r as nat <= x as nat / pow2(d as nat) + 1,
    decreases d,
{
    if d == 0 {
        proof {
            lemma2_to64();
        }
        x
    } else {
        let y: u64 = jam_shift64x(x, d - 1);
        let q: u64 = y / 2;
        let r: u64 = if y % 2 == 1 {
            if q % 2 == 0 {
                q + 1
            } else {
                q
            }
        } else {
            q
        };
        proof {
            lemma_jam_bound_step(x as nat, (d - 1) as nat, y as nat, r as nat);
        }
        r
    }
}

pub(crate) fn jam_shift128x(x: u128, d: u64) -> (r: u128)
    ensures
        r as nat == jam_shift(x as nat, d as nat),
        r <= x,
        r as nat <= x as nat / pow2(d as nat) + 1,
    decreases d,
{
    if d == 0 {
        proof {
            lemma2_to64();
        }
        x
    } else {
        let y: u128 = jam_shift128x(x, d - 1);
        let q: u128 = y / 2;
        let r: u128 = if y % 2 == 1 {
            if q % 2 == 0 {
                q + 1
            } else {
                q
            }
        } else {
            q
        };
        proof {
            lemma_jam_bound_step(x as nat, (d - 1) as nat, y as nat, r as nat);
        }
        r
    }
}

/// The sticky shift never grows its input, and stays within one of the
/// plain shift.
pub proof fn lemma_jam_shift_bound(x: nat, d: nat)
    ensures
        jam_shift(x, d) <= x,
        jam_shift(x, d) <= x / pow2(d) + 1,
    decreases d,
{
    if d == 0 {
        lemma2_to64();
    } else {
        lemma_jam_shift_bound(x, (d - 1) as nat);
        lemma_jam_bound_step(x, (d - 1) as nat, jam_shift(x, (d - 1) as nat), jam_shift(x, d));
    }
}

/// One sticky shift keeps the running bound `x / 2^d + 1`.
proof fn lemma_jam_bound_step(x: nat, d: nat, y: nat, r: nat)
    requires
        y == jam_shift(x, d),
        y <= x,
        y <= x / pow2(d) + 1,
        r == jam1(y),
    ensures
        r == jam_shift(x, d + 1),
        r <= x,
        r <= x / pow2(d + 1) + 1,
{
    lemma_pow2_pos(d);
    lemma_pow2_unfold((d + 1) as nat);
    assert(r <= (y + 1) / 2 && r <= y) by (nonlinear_arith)
        requires
            r == jam1(y),
            jam1(y) == (if y % 2 == 1 {
                if (y / 2) % 2 == 0 {
                    y / 2 + 1
                } else {
                    y / 2
                }
            } else {
                y / 2
            }),
    ;
    lemma_div_is_ordered((y + 1) as int, (x / pow2(d) + 2) as int, 2);
    lemma_div_denominator(x as int, pow2(d) as int, 2);
    vstd::arithmetic::div_mod::lemma_div_plus_one((x / pow2(d)) as int, 2);
    assert((x / pow2(d) + 2) / 2 == (x / pow2(d)) / 2 + 1);
    assert(pow2(d) * 2 == 2 * pow2(d)) by (nonlinear_arith);
}

/// Left shift within the 64-bit range.
pub(crate) fn shl64x(x: u64, k: u64) -> (r: u64)
    requires
        x as nat * pow2(k as nat) < 0x1_0000_0000_0000_0000,
    ensures
        r as nat == shl_n(x as nat, k as nat),
        r as nat == x as nat * pow2(k as nat),
    decreases k,
{
    proof {
        lemma_shl_n_is_mul(x as nat, k as nat);
    }
    if k == 0 {
        proof {
            lemma2_to64();
            assert(x as nat * 1 == x as nat) by (nonlinear_arith);
        }
        x
    } else {
        proof {
            lemma_pow2_unfold(k as nat);
            lemma_pow2_pos((k - 1) as nat);
            assert(x as nat * (2 * pow2((k - 1) as nat)) == 2 * (x as nat * pow2((k - 1) as nat)))
                by (nonlinear_arith);
        }
        let y: u64 = shl64x(x, k - 1);
        2 * y
    }
}

/// Position of the highest set bit of a nonzero 128-bit value.
pub(crate) fn log2x128(p: u128) -> (l: u64)
    requires
        p >= 1,
    ensures
        l as nat == floor_log2(p as nat),
        pow2(l as nat) <= p as nat,
    decreases p,
{
    if p < 2 {
        proof {
            lemma2_to64();
        }
        0
    } else {
        let l1: u64 = log2x128(p / 2);
        proof {
            lemma_pow2_unfold((l1 + 1) as nat);
            assert(2 * pow2(l1 as nat) <= 2 * (p as nat / 2) && 2 * (p as nat / 2) <= p as nat)
                by (nonlinear_arith)
                requires
                    pow2(l1 as nat) <= p as nat / 2,
                    p >= 2,
            ;
            // the recursive result stays far below any overflow
            lemma2_to64();
            lemma2_to64_rest();
            lemma_pow2_adds(63, 64);
            assert(pow2(127) == 0x8000_0000_0000_0000 * 0x1_0000_0000_0000_0000)
                by (nonlinear_arith)
                requires
                    pow2(127) == pow2(63) * pow2(64),
                    pow2(63) == 0x8000_0000_0000_0000,
                    pow2(64) == 0x1_0000_0000_0000_0000,
            ;
            if l1 as nat >= 127 {
                if l1 as nat > 127 {
                    lemma_pow2_strictly_increases(127, l1 as nat);
                }
                assert(false);
            }
        }
        1 + l1
    }
}

pub(crate) fn round_pack64x(s: u64, e: u64, sig: u64) -> (r: u64)
    requires
        s <= 1,
        1 <= e,
        e <= 6000,
        sig <= 0x100_0000_0000_0000,
    ensures
        r as nat == round_pack64(s as nat, e as nat, sig as nat),
{
    let mant: u64 = sig / 8;
    let grs: u64 = sig % 8;
    let m2: u64 = if grs > 4 || (grs == 4 && mant % 2 == 1) {
        mant + 1
    } else {
        mant
    };
    let m3: u64 = if m2 == 0x20_0000_0000_0000 {
        0x10_0000_0000_0000
    } else {
        m2
    };
    let e2: u64 = if m2 == 0x20_0000_0000_0000 {
        e + 1
    } else {
        e
    };
    if m3 >= 0x10_0000_0000_0000 {
        if e2 >= 0x7FF {
            s * 0x8000_0000_0000_0000 + 0x7FF0_0000_0000_0000
        } else {
            s * 0x8000_0000_0000_0000 + e2 * 0x10_0000_0000_0000 + (m3 - 0x10_0000_0000_0000)
        }
    } else {
        s * 0x8000_0000_0000_0000 + m3
    }
}

pub(crate) fn norm_round64x(s: u64, e: u64, sig: u64) -> (r: u64)
    requires
        s <= 1,
        1 <= e,
        e <= 6000,
        sig <= 0x100_0000_0000_0000,
    ensures
        r as nat == norm_round64(s as nat, e as nat, sig as nat),
    decreases e,
{
    if sig < 0x80_0000_0000_0000 && e > 1 {
        norm_round64x(s, e - 1, 2 * sig)
    } else {
        round_pack64x(s, e, sig)
    }
}

pub(crate) fn add_mags64x(s: u64, mb: u64, eb: u64, ms: u64, es: u64) -> (r: u64)
    requires
        s <= 1,
        mb < 0x20_0000_0000_0000,
        ms < 0x20_0000_0000_0000,
        1 <= es,
        es <= eb,
        eb <= 2046,
    ensures
        r as nat == add_mags64(s as nat, mb as nat, eb as nat, ms as nat, es as nat),
{
    let bsig: u64 = jam_shift64x(ms * 8, eb - es);
    let sum: u64 = mb * 8 + bsig;
    if sum >= 0x100_0000_0000_0000 {
        let q: u64 = sum / 2;
        let sum2: u64 = if sum % 2 == 1 {
            if q % 2 == 0 {
                q + 1
            } else {
                q
            }
        } else {
            q
        };
        assert(sum2 as nat == jam1(sum as nat));
        round_pack64x(s, eb + 1, sum2)
    } else {
        round_pack64x(s, eb, sum)
    }
}

pub(crate) fn sub_mags64x(s: u64, mb: u64, eb: u64, ms: u64, es: u64) -> (r: u64)
    requires
        s <= 1,
        mb < 0x20_0000_0000_0000,
        ms < 0x20_0000_0000_0000,
        1 <= es,
        es <= eb,
        eb <= 2046,
        eb >= 2 ==> mb >= 0x10_0000_0000_0000,
        eb > es || mb > ms,
    ensures
        r as nat == sub_mags64(s as nat, mb as nat, eb as nat, ms as nat, es as nat),
{
    let d: u64 = eb - es;
    if d == 0 {
        norm_round64x(s, eb, (mb - ms) * 8)
    } else if d == 1 {
        norm_round64x(s, eb, mb * 8 - ms * 4)
    } else {
        let bsig: u64 = jam_shift64x(ms * 8, d);
        proof {
            lemma_pow2_unfold(d as nat);
            lemma_pow2_unfold((d - 1) as nat);
            lemma_pow2_pos((d - 2) as nat);
            assert(pow2(d as nat) == 4 * pow2((d - 2) as nat)) by (nonlinear_arith)
                requires
                    pow2(d as nat) == 2 * pow2((d - 1) as nat),
                    pow2((d - 1) as nat) == 2 * pow2((d - 2) as nat),
            ;
            assert(ms as nat * 8 / pow2(d as nat) <= ms as nat * 8 / 4) by {
                lemma_div_is_ordered_by_denominator_wrap(ms as nat * 8, 4, pow2(d as nat));
            }
            assert(ms as nat * 8 / 4 == ms as nat * 2) by (nonlinear_arith);
            assert(bsig as nat <= ms as nat * 2 + 1);
        }
        norm_round64x(s, eb, mb * 8 - bsig)
    }
}

/// Division by a larger positive denominator gives a result at most as
/// large.
pub(crate) proof fn lemma_div_is_ordered_by_denominator_wrap(x: nat, small: nat, large: nat)
    requires
        1 <= small,
        small <= large,
    ensures
        x / large <= x / small,
{
    vstd::arithmetic::div_mod::lemma_div_is_ordered_by_denominator(x as int, small as int, large as int);
}

pub(crate) fn sub_finite64x(s1: u64, m1: u64, e1: u64, s2: u64, m2: u64, e2: u64) -> (r: u64)
    requires
        s1 <= 1,
        s2 <= 1,
        m1 < 0x20_0000_0000_0000,
        m2 < 0x20_0000_0000_0000,
        1 <= e1,
        e1 <= 2046,
        1 <= e2,
        e2 <= 2046,
        e1 >= 2 ==> m1 >= 0x10_0000_0000_0000,
        e2 >= 2 ==> m2 >= 0x10_0000_0000_0000,
    ensures
        r as nat == sub_finite64(s1 as nat, m1 as nat, e1 as nat, s2 as nat, m2 as nat, e2 as nat),
{
    if s1 == s2 {
        if e1 >= e2 {
            add_mags64x(s1, m1, e1, m2, e2)
        } else {
            add_mags64x(s1, m2, e2, m1, e1)
        }
    } else {
        if e1 == e2 && m1 == m2 {
            0
        } else if e1 > e2 || (e1 == e2 && m1 > m2) {
            sub_mags64x(s1, m1, e1, m2, e2)
        } else {
            sub_mags64x(s2, m2, e2, m1, e1)
        }
    }
}

/// IEEE-754 subtraction on binary64 encodings.
pub fn sub64x(a: u64, b: u64) -> (r: u64)
    ensures
        r as nat == sub64s(a as nat, b as nat),
{
    proof {
        lemma_sign64_id(a as nat);
        lemma_sign64_id(b as nat);
    }
    let ea: u64 = (a / 0x10_0000_0000_0000) % 0x800;
    let eb: u64 = (b / 0x10_0000_0000_0000) % 0x800;
    let fa: u64 = a % 0x10_0000_0000_0000;
    let fb: u64 = b % 0x10_0000_0000_0000;
    let sa: u64 = a / SIGN64;
    let sb: u64 = b / SIGN64;
    if (ea == 0x7FF && fa != 0) || (eb == 0x7FF && fb != 0) {
        return QNAN64;
    }
    if ea == 0x7FF && eb == 0x7FF {
        if sa == sb {
            return QNAN64;
        } else {
            return a;
        }
    }
    if ea == 0x7FF {
        return a;
    }
    if eb == 0x7FF {
        if sb == 1 {
            return b - SIGN64;
        } else {
            proof {
                assert(b < SIGN64) by (nonlinear_arith)
                    requires
                        b as nat / 0x8000_0000_0000_0000 == 0,
                        b < 0x1_0000_0000_0000_0000,
                ;
            }
            return b + SIGN64;
        }
    }
    let ma: u64 = if ea == 0 {
        fa
    } else {
        fa + 0x10_0000_0000_0000
    };
    let mb: u64 = if eb == 0 {
        fb
    } else {
        fb + 0x10_0000_0000_0000
    };
    let pa: u64 = if ea == 0 {
        1
    } else {
        ea
    };
    let pb: u64 = if eb == 0 {
        1
    } else {
        eb
    };
    sub_finite64x(sa, ma, pa, 1 - sb, mb, pb)
}

/// IEEE-754 multiplication on binary64 encodings.
#[verifier::rlimit(100)]
pub fn mul64x(x: u64, y: u64) -> (r: u64)
    ensures
        r as nat == mul64s(x as nat, y as nat),
{
    proof {
        lemma_sign64_id(x as nat);
        lemma_sign64_id(y as nat);
    }
    let ex: u64 = (x / 0x10_0000_0000_0000) % 0x800;
    let ey: u64 = (y / 0x10_0000_0000_0000) % 0x800;
    let fx: u64 = x % 0x10_0000_0000_0000;
    let fy: u64 = y % 0x10_0000_0000_0000;
    let sx: u64 = x / SIGN64;
    let sy: u64 = y / SIGN64;
    let s: u64 = if sx == sy {
        0
    } else {
        1
    };
    let ax: u64 = x % SIGN64;
    let ay: u64 = y % SIGN64;
    proof {
        crate::bits64::lemma_split64(x as nat);
        crate::bits64::lemma_split64(y as nat);
    }
    if (ex == 0x7FF && fx != 0) || (ey == 0x7FF && fy != 0) {
        return QNAN64;
    }
    if ex == 0x7FF {
        if ay == 0 {
            return QNAN64;
        } else {
            return s * SIGN64 + INF64;
        }
    }
    if ey == 0x7FF {
        if ax == 0 {
            return QNAN64;
        } else {
            return s * SIGN64 + INF64;
        }
    }
    if ax == 0 || ay == 0 {
        return s * SIGN64;
    }
    let mx: u64 = if ex == 0 {
        fx
    } else {
        fx + 0x10_0000_0000_0000
    };
    let my: u64 = if ey == 0 {
        fy
    } else {
        fy + 0x10_0000_0000_0000
    };
    let px: u64 = if ex == 0 {
        1
    } else {
        ex
    };
    let py: u64 = if ey == 0 {
        1
    } else {
        ey
    };
    proof {
        // a zero magnitude would mean a zero encoding, which was handled
        crate::bits64::lemma_abs_range64(x as nat);
        crate::bits64::lemma_abs_range64(y as nat);
        assert(mx >= 1 && my >= 1) by (nonlinear_arith)
            requires
                ax as nat == x as nat % 0x8000_0000_0000_0000,
                ay as nat == y as nat % 0x8000_0000_0000_0000,
                ax != 0,
                ay != 0,
                ex as nat == exp64(x as nat),
                ey as nat == exp64(y as nat),
                fx as nat == frac64(x as nat),
                fy as nat == frac64(y as nat),
                exp64(x as nat) == exp64(ax as nat),
                frac64(x as nat) == frac64(ax as nat),
                exp64(y as nat) == exp64(ay as nat),
                frac64(y as nat) == frac64(ay as nat),
                exp64(ax as nat) == (ax as nat / 0x10_0000_0000_0000) % 0x800,
                frac64(ax as nat) == ax as nat % 0x10_0000_0000_0000,
                exp64(ay as nat) == (ay as nat / 0x10_0000_0000_0000) % 0x800,
                frac64(ay as nat) == ay as nat % 0x10_0000_0000_0000,
                ax < 0x8000_0000_0000_0000,
                ay < 0x8000_0000_0000_0000,
                mx as nat == (if ex == 0 { fx as nat } else { fx as nat + 0x10_0000_0000_0000 }),
                my as nat == (if ey == 0 { fy as nat } else { fy as nat + 0x10_0000_0000_0000 }),
        ;
    }
    proof {
        assert((mx as nat * my as nat) < 0x1_0000_0000_0000_0000_0000_0000_0000_0000)
            by (nonlinear_arith)
            requires
                mx < 0x20_0000_0000_0000,
                my < 0x20_0000_0000_0000,
        ;
    }
    let p: u128 = (mx as u128) * (my as u128);
    proof {
        lemma2_to64();
        lemma2_to64_rest();
        lemma_pow2_adds(53, 53);
        assert(p >= 1 && p as nat == mx as nat * my as nat && (p as nat) < pow2(53) * pow2(53))
            by (nonlinear_arith)
            requires
                mx >= 1,
                my >= 1,
                mx < 0x20_0000_0000_0000,
                my < 0x20_0000_0000_0000,
                p == mx as u128 * my as u128,
                pow2(53) == 0x20_0000_0000_0000,
        ;
    }
    let l: u64 = log2x128(p);
    proof {
        lemma_floor_log2_bounds(p as nat);
        if l as nat >= 106 {
            if l as nat > 106 {
                lemma_pow2_strictly_increases(106, l as nat);
            }
            lemma_pow2_adds(53, 53);
            assert(false);
        }
    }
    let sig: u64 = if l >= 55 {
        let sh: u128 = jam_shift128x(p, l - 55);
        proof {
            lemma_pow2_adds((l - 55) as nat, 56);
            assert(p as nat / pow2((l - 55) as nat) < pow2(56)) by {
                assert(pow2((l - 55) as nat) * pow2(56) == pow2((l - 55) as nat + 56));
                assert((l - 55) as nat + 56 == l as nat + 1);
                lemma_pow2_pos((l - 55) as nat);
                vstd::arithmetic::div_mod::lemma_multiply_divide_lt(
                    p as int,
                    pow2((l - 55) as nat) as int,
                    pow2(56) as int,
                );
            }
            assert(sh <= 0x100_0000_0000_0000);
        }
        sh as u64
    } else {
        proof {
            lemma_pow2_adds(l as nat + 1, (55 - l) as nat);
            assert(p as nat * pow2((55 - l) as nat) < pow2(l as nat + 1) * pow2((55 - l) as nat))
                by (nonlinear_arith)
                requires
                    (p as nat) < pow2(l as nat + 1),
                    pow2((55 - l) as nat) >= 1,
            ;
            assert(l as nat + 1 + (55 - l) as nat == 56);
            lemma_pow2_strictly_increases(56, 64);
        }
        let sg: u64 = shl64x(p as u64, 55 - l);
        proof {
            assert(sg <= 0x100_0000_0000_0000);
        }
        sg
    };
    proof {
        assert(sig <= 0x100_0000_0000_0000);
    }
    let ez: i64 = (px as i64) + (py as i64) + (l as i64) - 1127;
    if ez >= 0x7FF {
        s * SIGN64 + INF64
    } else if ez < 1 {
        let sig2: u64 = jam_shift64x(sig, (1 - ez) as u64);
        round_pack64x(s, 1, sig2)
    } else {
        round_pack64x(s, ez as u64, sig)
    }
}

} // verus!
