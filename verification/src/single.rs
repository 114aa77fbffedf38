//! Approximate equality for 32-bit IEEE-754 values, carried as encodings.

use vstd::prelude::*;

use crate::arith32::{mul32s, mul32x, sub32s, sub32x};
use crate::bits32::{
    abs_bits32, eq32x, float_eq32, float_le32, float_lt32, is_nan32, le32x, lt32x, nan32x, sign32,
    EPS32, SIGN32,
};
use crate::ApproxEq;

verus! {

/// The relative-difference comparison on binary32 encodings.
///
/// Bit-identical values (and the two zeros) are equal; otherwise the
/// rounded absolute difference is held first against the absolute
/// tolerance, then — after ruling out the pair of opposite infinities,
/// whose difference equals their common magnitude — against the larger
/// magnitude scaled by the relative tolerance.
pub open spec fn rel_eq32(a: nat, b: nat, e: nat, mr: nat) -> bool {
    if float_eq32(a, b) {
        true
    } else {
        let diff: nat = abs_bits32(sub32s(a, b));
        if float_le32(diff, e) {
            true
        } else if float_eq32(abs_bits32(a), abs_bits32(b)) && float_eq32(diff, abs_bits32(a)) {
            false
        } else {
            let largest: nat = if float_lt32(abs_bits32(a), abs_bits32(b)) {
                abs_bits32(b)
            } else {
                abs_bits32(a)
            };
            float_le32(diff, mul32s(largest, mr))
        }
    }
}

/// The units-in-the-last-place comparison on binary32 encodings.
///
/// The rounded absolute difference is held against the absolute tolerance
/// first; past that, operands must carry the same sign, and their
/// encodings — whose order matches the value order within one sign — must
/// lie strictly fewer than `u` representable values apart.
pub open spec fn ulps_eq32(a: nat, b: nat, e: nat, u: u32) -> bool {
    let diff: nat = abs_bits32(sub32s(a, b));
    if float_le32(diff, e) {
        true
    } else if is_nan32(a) || is_nan32(b) {
        false
    } else if sign32(a) != sign32(b) {
        false
    } else {
        let d: nat = if a >= b {
            (a - b) as nat
        } else {
            (b - a) as nat
        };
        d < u
    }
}

/// Executable relative comparison, mirroring [`rel_eq32`].
pub fn rel_eq32x(a: u32, b: u32, e: u32, mr: u32) -> (r: bool)
    ensures
        r == rel_eq32(a as nat, b as nat, e as nat, mr as nat),
{
    if eq32x(a, b) {
        return true;
    }
    let diff: u32 = sub32x(a, b) % SIGN32;
    if le32x(diff, e) {
        return true;
    }
    let aa: u32 = a % SIGN32;
    let ab: u32 = b % SIGN32;
    if eq32x(aa, ab) && eq32x(diff, aa) {
        return false;
    }
    let largest: u32 = if lt32x(aa, ab) {
        ab
    } else {
        aa
    };
    le32x(diff, mul32x(largest, mr))
}

/// Executable ULP comparison, mirroring [`ulps_eq32`].
pub fn ulps_eq32x(a: u32, b: u32, e: u32, u: u32) -> (r: bool)
    ensures
        r == ulps_eq32(a as nat, b as nat, e as nat, u),
{
    let diff: u32 = sub32x(a, b) % SIGN32;
    if le32x(diff, e) {
        return true;
    }
    if nan32x(a) || nan32x(b) {
        return false;
    }
    let sa: u32 = a / SIGN32;
    let sb: u32 = b / SIGN32;
    proof {
        crate::bits32::lemma_sign32_id(a as nat);
        crate::bits32::lemma_sign32_id(b as nat);
    }
    if sa != sb {
        return false;
    }
    let d: u32 = if a >= b {
        a - b
    } else {
        b - a
    };
    d < u as u32
}

/// A 32-bit IEEE-754 value, held as its bit encoding.
#[derive(Clone, Copy, Debug)]
pub struct Single {
    pub bits: u32,
}

impl Single {
    /// Wrap an encoding.
    pub fn from_bits(bits: u32) -> (r: Single)
        ensures
            r.bits == bits,
    {
        Single { bits }
    }

    /// The wrapped encoding.
    pub fn to_bits(self) -> (r: u32)
        ensures
            r == self.bits,
    {
        self.bits
    }
}

impl ApproxEq for Single {
    type Epsilon = Single;

    open spec fn default_epsilon_spec() -> Single {
        Single { bits: EPS32 }
    }

    open spec fn default_max_relative_spec() -> Single {
        Single { bits: EPS32 }
    }

    open spec fn default_max_ulps_spec() -> u32 {
        4
    }

    open spec fn relative_eq_spec(self, other: Single, epsilon: Single, max_relative: Single) -> bool {
        rel_eq32(self.bits as nat, other.bits as nat, epsilon.bits as nat, max_relative.bits as nat)
    }

    open spec fn ulps_eq_spec(self, other: Single, epsilon: Single, max_ulps: u32) -> bool {
        ulps_eq32(self.bits as nat, other.bits as nat, epsilon.bits as nat, max_ulps)
    }

    fn default_epsilon() -> (r: Single) {
        Single { bits: EPS32 }
    }

    fn default_max_relative() -> (r: Single) {
        Single { bits: EPS32 }
    }

    fn default_max_ulps() -> (r: u32) {
        4
    }

    fn relative_eq(&self, other: &Single, epsilon: Single, max_relative: Single) -> (r: bool) {
        rel_eq32x(self.bits, other.bits, epsilon.bits, max_relative.bits)
    }

    fn ulps_eq(&self, other: &Single, epsilon: Single, max_ulps: u32) -> (r: bool) {
        ulps_eq32x(self.bits, other.bits, epsilon.bits, max_ulps)
    }
}

} // verus!
