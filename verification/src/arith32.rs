//! Round-to-nearest-even arithmetic on binary32 encodings.
//!
//! The same construction as for the 64-bit width, with 24 mantissa bits
//! plus 3 low rounding bits; the sticky-shift and bit-position helpers
//! are shared with the wider width.

use vstd::prelude::*;
use vstd::arithmetic::power2::{
    lemma2_to64, lemma2_to64_rest, lemma_pow2_adds, lemma_pow2_pos, lemma_pow2_strictly_increases,
    lemma_pow2_unfold, pow2,
};

use crate::arith64::{
    floor_log2, jam1, jam_shift, jam_shift64x, lemma_div_is_ordered_by_denominator_wrap,
    lemma_floor_log2_bounds, log2x128, shl64x, shl_n,
};
use crate::bits32::{
    abs_bits32, exp32, frac32, is_inf32, is_nan32, lemma_sign32_id, mant32, pexp32, sign32, INF32,
    QNAN32, SIGN32,
};

verus! {

/// Round the working significand (24 mantissa bits plus 3 low rounding
/// bits) to nearest, ties to even, and pack the result.  The value stands
/// for `sig * 2^(e - 153)`; overflow packs an infinity.
pub open spec fn round_pack32(s: nat, e: nat, sig: nat) -> nat {
    let mant: nat = sig / 8;
    let grs: nat = sig % 8;
    let m2: nat = if grs > 4 || (grs == 4 && mant % 2 == 1) {
        (mant + 1) as nat
    } else {
        mant
    };
    let m3: nat = if m2 == 0x100_0000 {
        0x80_0000 as nat
    } else {
        m2
    };
    let e2: nat = if m2 == 0x100_0000 {
        (e + 1) as nat
    } else {
        e
    };
    if m3 >= 0x80_0000 {
        if e2 >= 0xFF {
            s * 0x8000_0000 + 0x7F80_0000
        } else {
            (s * 0x8000_0000 + e2 * 0x80_0000 + (m3 - 0x80_0000)) as nat
        }
    } else {
        s * 0x8000_0000 + m3
    }
}

/// Normalise a small working significand upward until it fills the
/// mantissa or the exponent bottoms out, then round and pack.
pub open spec fn norm_round32(s: nat, e: nat, sig: nat) -> nat
    decreases e,
{
    if sig < 0x400_0000 && e > 1 {
        norm_round32(s, (e - 1) as nat, 2 * sig)
    } else {
        round_pack32(s, e, sig)
    }
}

/// Sum of two magnitudes `mb * 2^(eb - 150)` and `ms * 2^(es - 150)`
/// with `eb >= es`, rounded, carrying sign `s`.
pub open spec fn add_mags32(s: nat, mb: nat, eb: nat, ms: nat, es: nat) -> nat {
    let bsig: nat = jam_shift(ms * 8, (eb - es) as nat);
    let sum: nat = mb * 8 + bsig;
    if sum >= 0x800_0000 {
        round_pack32(s, (eb + 1) as nat, jam1(sum))
    } else {
        round_pack32(s, eb, sum)
    }
}

/// Difference of two magnitudes, the first strictly larger, rounded,
/// carrying the sign `s` of the larger one.
pub open spec fn sub_mags32(s: nat, mb: nat, eb: nat, ms: nat, es: nat) -> nat {
    let d: nat = (eb - es) as nat;
    if d == 0 {
        norm_round32(s, eb, ((mb - ms) * 8) as nat)
    } else if d == 1 {
        norm_round32(s, eb, (mb * 8 - ms * 4) as nat)
    } else {
        norm_round32(s, eb, (mb * 8 - jam_shift(ms * 8, d)) as nat)
    }
}

/// Signed sum of two decomposed finite values (the subtraction has
/// already been folded into the second sign).
pub open spec fn sub_finite32(s1: nat, m1: nat, e1: nat, s2: nat, m2: nat, e2: nat) -> nat {
    if s1 == s2 {
        if e1 >= e2 {
            add_mags32(s1, m1, e1, m2, e2)
        } else {
            add_mags32(s1, m2, e2, m1, e1)
        }
    } else {
        if e1 == e2 && m1 == m2 {
            0
        } else if e1 > e2 || (e1 == e2 && m1 > m2) {
            sub_mags32(s1, m1, e1, m2, e2)
        } else {
            sub_mags32(s2, m2, e2, m1, e1)
        }
    }
}

/// IEEE-754 subtraction of binary32 encodings, rounded to nearest even.
pub open spec fn sub32s(a: nat, b: nat) -> nat {
    if is_nan32(a) || is_nan32(b) {
        QNAN32 as nat
    } else if is_inf32(a) && is_inf32(b) {
        if sign32(a) == sign32(b) {
            QNAN32 as nat
        } else {
            a
        }
    } else if is_inf32(a) {
        a
    } else if is_inf32(b) {
        if sign32(b) == 1 {
            (b - 0x8000_0000) as nat
        } else {
            (b + 0x8000_0000) as nat
        }
    } else {
        sub_finite32(sign32(a), mant32(a), pexp32(a), (1 - sign32(b)) as nat, mant32(b), pexp32(b))
    }
}

/// Product of two decomposed finite nonzero values, rounded to nearest
/// even, carrying sign `s`.
pub open spec fn mul_finite32(s: nat, mx: nat, ex: nat, my: nat, ey: nat) -> nat {
    let p: nat = mx * my;
    let l: nat = floor_log2(p);
    let sig: nat = if l >= 26 {
        jam_shift(p, (l - 26) as nat)
    } else {
        shl_n(p, (26 - l) as nat)
    };
    let ez: int = ex + ey + l - 173;
    if ez >= 0xFF {
        s * 0x8000_0000 + 0x7F80_0000
    } else if ez < 1 {
        round_pack32(s, 1, jam_shift(sig, (1 - ez) as nat))
    } else {
        round_pack32(s, ez as nat, sig)
    }
}

/// IEEE-754 multiplication of binary32 encodings, rounded to nearest
/// even.
pub open spec fn mul32s(x: nat, y: nat) -> nat {
    let s: nat = if sign32(x) == sign32(y) {
        0
    } else {
        1
    };
    if is_nan32(x) || is_nan32(y) {
        QNAN32 as nat
    } else if is_inf32(x) {
        if abs_bits32(y) == 0 {
            QNAN32 as nat
        } else {
            s * 0x8000_0000 + 0x7F80_0000
        }
    } else if is_inf32(y) {
        if abs_bits32(x) == 0 {
            QNAN32 as nat
        } else {
            s * 0x8000_0000 + 0x7F80_0000
        }
    } else if abs_bits32(x) == 0 || abs_bits32(y) == 0 {
        s * 0x8000_0000
    } else {
        mul_finite32(s, mant32(x), pexp32(x), mant32(y), pexp32(y))
    }
}

pub(crate) fn round_pack32x(s: u32, e: u32, sig: u32) -> (r: u32)
    requires
        s <= 1,
        1 <= e,
        e <= 600,
        sig <= 0x800_0000,
    ensures
        r as nat == round_pack32(s as nat, e as nat, sig as nat),
{
    let mant: u32 = sig / 8;
    let grs: u32 = sig % 8;
    let m2: u32 = if grs > 4 || (grs == 4 && mant % 2 == 1) {
        mant + 1
    } else {
        mant
    };
    let m3: u32 = if m2 == 0x100_0000 {
        0x80_0000
    } else {
        m2
    };
    let e2: u32 = if m2 == 0x100_0000 {
        e + 1
    } else {
        e
    };
    if m3 >= 0x80_0000 {
        if e2 >= 0xFF {
            s * 0x8000_0000 + 0x7F80_0000
        } else {
            s * 0x8000_0000 + e2 * 0x80_0000 + (m3 - 0x80_0000)
        }
    } else {
        s * 0x8000_0000 + m3
    }
}

pub(crate) fn norm_round32x(s: u32, e: u32, sig: u32) -> (r: u32)
    requires
        s <= 1,
        1 <= e,
        e <= 600,
        sig <= 0x800_0000,
    ensures
        r as nat == norm_round32(s as nat, e as nat, sig as nat),
    decreases e,
{
    if sig < 0x400_0000 && e > 1 {
        norm_round32x(s, e - 1, 2 * sig)
    } else {
        round_pack32x(s, e, sig)
    }
}

pub(crate) fn add_mags32x(s: u32, mb: u32, eb: u32, ms: u32, es: u32) -> (r: u32)
    requires
        s <= 1,
        mb < 0x100_0000,
        ms < 0x100_0000,
        1 <= es,
        es <= eb,
        eb <= 254,
    ensures
        r as nat == add_mags32(s as nat, mb as nat, eb as nat, ms as nat, es as nat),
{
    let bsig64: u64 = jam_shift64x((ms * 8) as u64, (eb - es) as u64);
    let bsig: u32 = bsig64 as u32;
    let sum: u32 = mb * 8 + bsig;
    if sum >= 0x800_0000 {
        let q: u32 = sum / 2;
        let sum2: u32 = if sum % 2 == 1 {
            if q % 2 == 0 {
                q + 1
            } else {
                q
            }
        } else {
            q
        };
        assert(sum2 as nat == jam1(sum as nat));
        round_pack32x(s, eb + 1, sum2)
    } else {
        round_pack32x(s, eb, sum)
    }
}

pub(crate) fn sub_mags32x(s: u32, mb: u32, eb: u32, ms: u32, es: u32) -> (r: u32)
    requires
        s <= 1,
        mb < 0x100_0000,
        ms < 0x100_0000,
        1 <= es,
        es <= eb,
        eb <= 254,
        eb >= 2 ==> mb >= 0x80_0000,
        eb > es || mb > ms,
    ensures
        r as nat == sub_mags32(s as nat, mb as nat, eb as nat, ms as nat, es as nat),
{
    let d: u32 = eb - es;
    if d == 0 {
        norm_round32x(s, eb, (mb - ms) * 8)
    } else if d == 1 {
        norm_round32x(s, eb, mb * 8 - ms * 4)
    } else {
        let bsig64: u64 = jam_shift64x((ms * 8) as u64, d as u64);
        let bsig: u32 = bsig64 as u32;
        proof {
            lemma_pow2_unfold(d as nat);
            lemma_pow2_unfold((d - 1) as nat);
            lemma_pow2_pos((d - 2) as nat);
            assert(pow2(d as nat) == 4 * pow2((d - 2) as nat)) by (nonlinear_arith)
                requires
                    pow2(d as nat) == 2 * pow2((d - 1) as nat),
                    pow2((d - 1) as nat) == 2 * pow2((d - 2) as nat),
            ;
            assert(ms as nat * 8 / pow2(d as nat) <= ms as nat * 8 / 4) by {
                lemma_div_is_ordered_by_denominator_wrap(ms as nat * 8, 4, pow2(d as nat));
            }
            assert(ms as nat * 8 / 4 == ms as nat * 2) by (nonlinear_arith);
            assert(bsig as nat <= ms as nat * 2 + 1);
        }
        norm_round32x(s, eb, mb * 8 - bsig)
    }
}

pub(crate) fn sub_finite32x(s1: u32, m1: u32, e1: u32, s2: u32, m2: u32, e2: u32) -> (r: u32)
    requires
        s1 <= 1,
        s2 <= 1,
        m1 < 0x100_0000,
        m2 < 0x100_0000,
        1 <= e1,
        e1 <= 254,
        1 <= e2,
        e2 <= 254,
        e1 >= 2 ==> m1 >= 0x80_0000,
        e2 >= 2 ==> m2 >= 0x80_0000,
    ensures
        r as nat == sub_finite32(s1 as nat, m1 as nat, e1 as nat, s2 as nat, m2 as nat, e2 as nat),
{
    if s1 == s2 {
        if e1 >= e2 {
            add_mags32x(s1, m1, e1, m2, e2)
        } else {
            add_mags32x(s1, m2, e2, m1, e1)
        }
    } else {
        if e1 == e2 && m1 == m2 {
            0
        } else if e1 > e2 || (e1 == e2 && m1 > m2) {
            sub_mags32x(s1, m1, e1, m2, e2)
        } else {
            sub_mags32x(s2, m2, e2, m1, e1)
        }
    }
}

/// IEEE-754 subtraction on binary32 encodings.
pub fn sub32x(a: u32, b: u32) -> (r: u32)
    ensures
        r as nat == sub32s(a as nat, b as nat),
{
    proof {
        lemma_sign32_id(a as nat);
        lemma_sign32_id(b as nat);
    }
    let ea: u32 = (a / 0x80_0000) % 0x100;
    let eb: u32 = (b / 0x80_0000) % 0x100;
    let fa: u32 = a % 0x80_0000;
    let fb: u32 = b % 0x80_0000;
    let sa: u32 = a / SIGN32;
    let sb: u32 = b / SIGN32;
    if (ea == 0xFF && fa != 0) || (eb == 0xFF && fb != 0) {
        return QNAN32;
    }
    if ea == 0xFF && eb == 0xFF {
        if sa == sb {
            return QNAN32;
        } else {
            return a;
        }
    }
    if ea == 0xFF {
        return a;
    }
    if eb == 0xFF {
        if sb == 1 {
            return b - SIGN32;
        } else {
            proof {
                assert(b < SIGN32) by (nonlinear_arith)
                    requires
                        b as nat / 0x8000_0000 == 0,
                        b < 0x1_0000_0000,
                ;
            }
            return b + SIGN32;
        }
    }
    let ma: u32 = if ea == 0 {
        fa
    } else {
        fa + 0x80_0000
    };
    let mb: u32 = if eb == 0 {
        fb
    } else {
        fb + 0x80_0000
    };
    let pa: u32 = if ea == 0 {
        1
    } else {
        ea
    };
    let pb: u32 = if eb == 0 {
        1
    } else {
        eb
    };
    sub_finite32x(sa, ma, pa, 1 - sb, mb, pb)
}

/// IEEE-754 multiplication on binary32 encodings.
#[verifier::rlimit(100)]
pub fn mul32x(x: u32, y: u32) -> (r: u32)
    ensures
        r as nat == mul32s(x as nat, y as nat),
{
    proof {
        lemma_sign32_id(x as nat);
        lemma_sign32_id(y as nat);
    }
    let ex: u32 = (x / 0x80_0000) % 0x100;
    let ey: u32 = (y / 0x80_0000) % 0x100;
    let fx: u32 = x % 0x80_0000;
    let fy: u32 = y % 0x80_0000;
    let sx: u32 = x / SIGN32;
    let sy: u32 = y / SIGN32;
    let s: u32 = if sx == sy {
        0
    } else {
        1
    };
    let ax: u32 = x % SIGN32;
    let ay: u32 = y % SIGN32;
    proof {
        crate::bits32::lemma_split32(x as nat);
        crate::bits32::lemma_split32(y as nat);
    }
    if (ex == 0xFF && fx != 0) || (ey == 0xFF && fy != 0) {
        return QNAN32;
    }
    if ex == 0xFF {
        if ay == 0 {
            return QNAN32;
        } else {
            return s * SIGN32 + INF32;
        }
    }
    if ey == 0xFF {
        if ax == 0 {
            return QNAN32;
        } else {
            return s * SIGN32 + INF32;
        }
    }
    if ax == 0 || ay == 0 {
        return s * SIGN32;
    }
    let mx: u32 = if ex == 0 {
        fx
    } else {
        fx + 0x80_0000
    };
    let my: u32 = if ey == 0 {
        fy
    } else {
        fy + 0x80_0000
    };
    let px: u32 = if ex == 0 {
        1
    } else {
        ex
    };
    let py: u32 = if ey == 0 {
        1
    } else {
        ey
    };
    proof {
        // a zero magnitude would mean a zero encoding, which was handled
        crate::bits32::lemma_abs_range32(x as nat);
        crate::bits32::lemma_abs_range32(y as nat);
        assert(mx >= 1 && my >= 1) by (nonlinear_arith)
            requires
                ax as nat == x as nat % 0x8000_0000,
                ay as nat == y as nat % 0x8000_0000,
                ax != 0,
                ay != 0,
                ex as nat == exp32(x as nat),
                ey as nat == exp32(y as nat),
                fx as nat == frac32(x as nat),
                fy as nat == frac32(y as nat),
                exp32(x as nat) == exp32(ax as nat),
                frac32(x as nat) == frac32(ax as nat),
                exp32(y as nat) == exp32(ay as nat),
                frac32(y as nat) == frac32(ay as nat),
                exp32(ax as nat) == (ax as nat / 0x80_0000) % 0x100,
                frac32(ax as nat) == ax as nat % 0x80_0000,
                exp32(ay as nat) == (ay as nat / 0x80_0000) % 0x100,
                frac32(ay as nat) == ay as nat % 0x80_0000,
                ax < 0x8000_0000,
                ay < 0x8000_0000,
                mx as nat == (if ex == 0 { fx as nat } else { fx as nat + 0x80_0000 }),
                my as nat == (if ey == 0 { fy as nat } else { fy as nat + 0x80_0000 }),
        ;
    }
    proof {
        assert((mx as nat * my as nat) < 0x1_0000_0000_0000_0000) by (nonlinear_arith)
            requires
                mx < 0x100_0000,
                my < 0x100_0000,
        ;
    }
    let p: u64 = (mx as u64) * (my as u64);
    proof {
        lemma2_to64();
        lemma2_to64_rest();
        lemma_pow2_adds(24, 24);
        assert(p >= 1 && p as nat == mx as nat * my as nat && (p as nat) < pow2(24) * pow2(24))
            by (nonlinear_arith)
            requires
                mx >= 1,
                my >= 1,
                mx < 0x100_0000,
                my < 0x100_0000,
                p == mx as u64 * my as u64,
                pow2(24) == 0x100_0000,
        ;
    }
    let l64: u64 = log2x128(p as u128);
    proof {
        lemma_floor_log2_bounds(p as nat);
        if l64 as nat >= 48 {
            if l64 as nat > 48 {
                lemma_pow2_strictly_increases(48, l64 as nat);
            }
            lemma_pow2_adds(24, 24);
            assert(false);
        }
    }
    let l: u32 = l64 as u32;
    let sig: u32 = if l >= 26 {
        let sh: u64 = jam_shift64x(p, (l - 26) as u64);
        proof {
            lemma_pow2_adds((l - 26) as nat, 27);
            assert(p as nat / pow2((l - 26) as nat) < pow2(27)) by {
                assert(pow2((l - 26) as nat) * pow2(27) == pow2((l - 26) as nat + 27));
                assert((l - 26) as nat + 27 == l as nat + 1);
                lemma_pow2_pos((l - 26) as nat);
                vstd::arithmetic::div_mod::lemma_multiply_divide_lt(
                    p as int,
                    pow2((l - 26) as nat) as int,
                    pow2(27) as int,
                );
            }
            assert(sh <= 0x800_0000);
        }
        sh as u32
    } else {
        proof {
            lemma_pow2_adds(l as nat + 1, (26 - l) as nat);
            assert((p as nat * pow2((26 - l) as nat)) < pow2(l as nat + 1) * pow2(
                (26 - l) as nat,
            )) by (nonlinear_arith)
                requires
                    (p as nat) < pow2(l as nat + 1),
                    pow2((26 - l) as nat) >= 1,
            ;
            assert(l as nat + 1 + (26 - l) as nat == 27);
            lemma_pow2_strictly_increases(27, 64);
        }
        let sg: u64 = shl64x(p, (26 - l) as u64);
        proof {
            assert(sg <= 0x800_0000);
        }
        sg as u32
    };
    proof {
        assert(sig <= 0x800_0000);
    }
    let ez: i64 = (px as i64) + (py as i64) + (l as i64) - 173;
    if ez >= 0xFF {
        s * SIGN32 + INF32
    } else if ez < 1 {
        let sig2_64: u64 = jam_shift64x(sig as u64, (1 - ez) as u64);
        let sig2: u32 = sig2_64 as u32;
        round_pack32x(s, 1, sig2)
    } else {
        round_pack32x(s, ez as u32, sig)
    }
}

} // verus!
