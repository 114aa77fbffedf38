//! Approximate equality for 64-bit IEEE-754 values, carried as encodings.

use vstd::prelude::*;

use crate::arith64::{mul64s, mul64x, sub64s, sub64x};
use crate::bits64::{
    abs_bits64, eq64x, float_eq64, float_le64, float_lt64, is_nan64, le64x, lt64x, nan64x, sign64,
    EPS64, SIGN64,
};
use crate::ApproxEq;

verus! {

/// The relative-difference comparison on binary64 encodings.
///
/// Bit-identical values (and the two zeros) are equal; otherwise the
/// rounded absolute difference is held first against the absolute
/// tolerance, then — after ruling out the pair of opposite infinities,
/// whose difference equals their common magnitude — against the larger
/// magnitude scaled by the relative tolerance.
pub open spec fn rel_eq64(a: nat, b: nat, e: nat, mr: nat) -> bool {
    if float_eq64(a, b) {
        true
    } else {
        let diff: nat = abs_bits64(sub64s(a, b));
        if float_le64(diff, e) {
            true
        } else if float_eq64(abs_bits64(a), abs_bits64(b)) && float_eq64(diff, abs_bits64(a)) {
            false
        } else {
            let largest: nat = if float_lt64(abs_bits64(a), abs_bits64(b)) {
                abs_bits64(b)
            } else {
                abs_bits64(a)
            };
            float_le64(diff, mul64s(largest, mr))
        }
    }
}

/// The units-in-the-last-place comparison on binary64 encodings.
///
/// The rounded absolute difference is held against the absolute tolerance
/// first; past that, operands must carry the same sign, and their
/// encodings — whose order matches the value order within one sign — must
/// lie strictly fewer than `u` representable values apart.
pub open spec fn ulps_eq64(a: nat, b: nat, e: nat, u: u32) -> bool {
    let diff: nat = abs_bits64(sub64s(a, b));
    if float_le64(diff, e) {
        true
    } else if is_nan64(a) || is_nan64(b) {
        false
    } else if sign64(a) != sign64(b) {
        false
    } else {
        let d: nat = if a >= b {
            (a - b) as nat
        } else {
            (b - a) as nat
        };
        d < u
    }
}

/// Executable relative comparison, mirroring [`rel_eq64`].
pub fn rel_eq64x(a: u64, b: u64, e: u64, mr: u64) -> (r: bool)
    ensures
        r == rel_eq64(a as nat, b as nat, e as nat, mr as nat),
{
    if eq64x(a, b) {
        return true;
    }
    let diff: u64 = sub64x(a, b) % SIGN64;
    if le64x(diff, e) {
        return true;
    }
    let aa: u64 = a % SIGN64;
    let ab: u64 = b % SIGN64;
    if eq64x(aa, ab) && eq64x(diff, aa) {
        return false;
    }
    let largest: u64 = if lt64x(aa, ab) {
        ab
    } else {
        aa
    };
    le64x(diff, mul64x(largest, mr))
}

/// Executable ULP comparison, mirroring [`ulps_eq64`].
pub fn ulps_eq64x(a: u64, b: u64, e: u64, u: u32) -> (r: bool)
    ensures
        r == ulps_eq64(a as nat, b as nat, e as nat, u),
{
    let diff: u64 = sub64x(a, b) % SIGN64;
    if le64x(diff, e) {
        return true;
    }
    if nan64x(a) || nan64x(b) {
        return false;
    }
    let sa: u64 = a / SIGN64;
    let sb: u64 = b / SIGN64;
    proof {
        crate::bits64::lemma_sign64_id(a as nat);
        crate::bits64::lemma_sign64_id(b as nat);
    }
    if sa != sb {
        return false;
    }
    let d: u64 = if a >= b {
        a - b
    } else {
        b - a
    };
    d < u as u64
}

/// A 64-bit IEEE-754 value, held as its bit encoding.
#[derive(Clone, Copy, Debug)]
pub struct Double {
    pub bits: u64,
}

impl Double {
    /// Wrap an encoding.
    pub fn from_bits(bits: u64) -> (r: Double)
        ensures
            r.bits == bits,
    {
        Double { bits }
    }

    /// The wrapped encoding.
    pub fn to_bits(self) -> (r: u64)
        ensures
            r == self.bits,
    {
        self.bits
    }
}

impl ApproxEq for Double {
    type Epsilon = Double;

    open spec fn default_epsilon_spec() -> Double {
        Double { bits: EPS64 }
    }

    open spec fn default_max_relative_spec() -> Double {
        Double { bits: EPS64 }
    }

    open spec fn default_max_ulps_spec() -> u32 {
        4
    }

    open spec fn relative_eq_spec(self, other: Double, epsilon: Double, max_relative: Double) -> bool {
        rel_eq64(self.bits as nat, other.bits as nat, epsilon.bits as nat, max_relative.bits as nat)
    }

    open spec fn ulps_eq_spec(self, other: Double, epsilon: Double, max_ulps: u32) -> bool {
        ulps_eq64(self.bits as nat, other.bits as nat, epsilon.bits as nat, max_ulps)
    }

    fn default_epsilon() -> (r: Double) {
        Double { bits: EPS64 }
    }

    fn default_max_relative() -> (r: Double) {
        Double { bits: EPS64 }
    }

    fn default_max_ulps() -> (r: u32) {
        4
    }

    fn relative_eq(&self, other: &Double, epsilon: Double, max_relative: Double) -> (r: bool) {
        rel_eq64x(self.bits, other.bits, epsilon.bits, max_relative.bits)
    }

    fn ulps_eq(&self, other: &Double, epsilon: Double, max_ulps: u32) -> (r: bool) {
        ulps_eq64x(self.bits, other.bits, epsilon.bits, max_ulps)
    }
}

} // verus!
