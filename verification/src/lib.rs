//! Approximate equality for IEEE-754 binary floating-point values, modelled
//! at the bit level.
//!
//! Floating-point values are carried as their bit patterns ([`Double`] wraps
//! the 64-bit encoding).  Two comparison strategies are provided: a
//! relative-difference test ([`ApproxEq::relative_eq`]) and a
//! units-in-the-last-place test ([`ApproxEq::ulps_eq`]), each with an
//! absolute near-zero short-circuit.  The [`Relative`] and [`Ulps`]
//! configurators hold the tolerances for one comparison and expose fluent
//! builders plus terminal `eq`/`ne` operations.

use vstd::prelude::*;

pub mod arith32;
pub mod arith64;
pub mod bits32;
pub mod bits64;
pub mod double;
pub mod laws32;
pub mod laws64;
pub mod single;

pub use double::Double;
pub use single::Single;

verus! {

/// Equality comparisons based on floating point tolerances.
///
/// A type opts into approximate comparison by naming its tolerance type
/// and answering the relative and ULP queries; the two specification
/// functions pin down what each executable query returns.
pub trait ApproxEq: Sized {
    /// Used for specifying relative comparisons.
    type Epsilon;

    /// What [`ApproxEq::default_epsilon`] returns.
    spec fn default_epsilon_spec() -> Self::Epsilon;

    /// What [`ApproxEq::default_max_relative`] returns.
    spec fn default_max_relative_spec() -> Self::Epsilon;

    /// What [`ApproxEq::default_max_ulps`] returns.
    spec fn default_max_ulps_spec() -> u32;

    /// What [`ApproxEq::relative_eq`] returns.
    spec fn relative_eq_spec(self, other: Self, epsilon: Self::Epsilon, max_relative: Self::Epsilon) -> bool;

    /// What [`ApproxEq::ulps_eq`] returns.
    spec fn ulps_eq_spec(self, other: Self, epsilon: Self::Epsilon, max_ulps: u32) -> bool;

    /// The default tolerance for testing values that are close together.
    fn default_epsilon() -> (r: Self::Epsilon)
        ensures
            r == Self::default_epsilon_spec(),
    ;

    /// The default relative tolerance for testing values that are far apart.
    fn default_max_relative() -> (r: Self::Epsilon)
        ensures
            r == Self::default_max_relative_spec(),
    ;

    /// The default ULP budget for testing values that are far apart.
    fn default_max_ulps() -> (r: u32)
        ensures
            r == Self::default_max_ulps_spec(),
    ;

    /// A test for equality that uses a relative comparison if the values
    /// are far apart.
    fn relative_eq(&self, other: &Self, epsilon: Self::Epsilon, max_relative: Self::Epsilon) -> (r: bool)
        ensures
            r == Self::relative_eq_spec(*self, *other, epsilon, max_relative),
    ;

    /// The exact negation of [`ApproxEq::relative_eq`].
    fn relative_ne(&self, other: &Self, epsilon: Self::Epsilon, max_relative: Self::Epsilon) -> (r: bool)
        ensures
            r == !Self::relative_eq_spec(*self, *other, epsilon, max_relative),
    {
        let r = Self::relative_eq(self, other, epsilon, max_relative);
        !r
    }

    /// A test for equality that counts units in the last place if the
    /// values are far apart.
    fn ulps_eq(&self, other: &Self, epsilon: Self::Epsilon, max_ulps: u32) -> (r: bool)
        ensures
            r == Self::ulps_eq_spec(*self, *other, epsilon, max_ulps),
    ;

    /// The exact negation of [`ApproxEq::ulps_eq`].
    fn ulps_ne(&self, other: &Self, epsilon: Self::Epsilon, max_ulps: u32) -> (r: bool)
        ensures
            r == !Self::ulps_eq_spec(*self, *other, epsilon, max_ulps),
    {
        let r = Self::ulps_eq(self, other, epsilon, max_ulps);
        !r
    }
}

impl<'a, T: ApproxEq> ApproxEq for &'a T {
    type Epsilon = T::Epsilon;

    open spec fn default_epsilon_spec() -> T::Epsilon {
        T::default_epsilon_spec()
    }

    open spec fn default_max_relative_spec() -> T::Epsilon {
        T::default_max_relative_spec()
    }

    open spec fn default_max_ulps_spec() -> u32 {
        T::default_max_ulps_spec()
    }

    open spec fn relative_eq_spec(self, other: &'a T, epsilon: T::Epsilon, max_relative: T::Epsilon) -> bool {
        T::relative_eq_spec(*self, *other, epsilon, max_relative)
    }

    open spec fn ulps_eq_spec(self, other: &'a T, epsilon: T::Epsilon, max_ulps: u32) -> bool {
        T::ulps_eq_spec(*self, *other, epsilon, max_ulps)
    }

    fn default_epsilon() -> (r: T::Epsilon) {
        T::default_epsilon()
    }

    fn default_max_relative() -> (r: T::Epsilon) {
        T::default_max_relative()
    }

    fn default_max_ulps() -> (r: u32) {
        T::default_max_ulps()
    }

    fn relative_eq(&self, other: &&'a T, epsilon: T::Epsilon, max_relative: T::Epsilon) -> (r: bool) {
        T::relative_eq(*self, *other, epsilon, max_relative)
    }

    fn ulps_eq(&self, other: &&'a T, epsilon: T::Epsilon, max_ulps: u32) -> (r: bool) {
        T::ulps_eq(*self, *other, epsilon, max_ulps)
    }
}

impl<'a, T: ApproxEq> ApproxEq for &'a mut T {
    type Epsilon = T::Epsilon;

    open spec fn default_epsilon_spec() -> T::Epsilon {
        T::default_epsilon_spec()
    }

    open spec fn default_max_relative_spec() -> T::Epsilon {
        T::default_max_relative_spec()
    }

    open spec fn default_max_ulps_spec() -> u32 {
        T::default_max_ulps_spec()
    }

    open spec fn relative_eq_spec(self, other: &'a mut T, epsilon: T::Epsilon, max_relative: T::Epsilon) -> bool {
        T::relative_eq_spec(*self, *other, epsilon, max_relative)
    }

    open spec fn ulps_eq_spec(self, other: &'a mut T, epsilon: T::Epsilon, max_ulps: u32) -> bool {
        T::ulps_eq_spec(*self, *other, epsilon, max_ulps)
    }

    fn default_epsilon() -> (r: T::Epsilon) {
        T::default_epsilon()
    }

    fn default_max_relative() -> (r: T::Epsilon) {
        T::default_max_relative()
    }

    fn default_max_ulps() -> (r: u32) {
        T::default_max_ulps()
    }

    fn relative_eq(&self, other: &&'a mut T, epsilon: T::Epsilon, max_relative: T::Epsilon) -> (r: bool) {
        T::relative_eq(*self, *other, epsilon, max_relative)
    }

    fn ulps_eq(&self, other: &&'a mut T, epsilon: T::Epsilon, max_ulps: u32) -> (r: bool) {
        T::ulps_eq(*self, *other, epsilon, max_ulps)
    }
}

/// A complex number over any type that supports approximate comparison:
/// the worked example of the extensibility contract.  Each comparison is
/// the conjunction of the field comparisons, with the tolerances forwarded
/// unchanged, and the defaults come from the leaf type.
pub struct Complex<T> {
    /// Real part.
    pub x: T,
    /// Imaginary part.
    pub i: T,
}

impl<T: ApproxEq> ApproxEq for Complex<T> where T::Epsilon: Copy {
    type Epsilon = T::Epsilon;

    open spec fn default_epsilon_spec() -> T::Epsilon {
        T::default_epsilon_spec()
    }

    open spec fn default_max_relative_spec() -> T::Epsilon {
        T::default_max_relative_spec()
    }

    open spec fn default_max_ulps_spec() -> u32 {
        T::default_max_ulps_spec()
    }

    open spec fn relative_eq_spec(self, other: Complex<T>, epsilon: T::Epsilon, max_relative: T::Epsilon) -> bool {
        T::relative_eq_spec(self.x, other.x, epsilon, max_relative) && T::relative_eq_spec(
            self.i,
            other.i,
            epsilon,
            max_relative,
        )
    }

    open spec fn ulps_eq_spec(self, other: Complex<T>, epsilon: T::Epsilon, max_ulps: u32) -> bool {
        T::ulps_eq_spec(self.x, other.x, epsilon, max_ulps) && T::ulps_eq_spec(
            self.i,
            other.i,
            epsilon,
            max_ulps,
        )
    }

    fn default_epsilon() -> (r: T::Epsilon) {
        T::default_epsilon()
    }

    fn default_max_relative() -> (r: T::Epsilon) {
        T::default_max_relative()
    }

    fn default_max_ulps() -> (r: u32) {
        T::default_max_ulps()
    }

    fn relative_eq(&self, other: &Complex<T>, epsilon: T::Epsilon, max_relative: T::Epsilon) -> (r: bool) {
        let rx = T::relative_eq(&self.x, &other.x, epsilon, max_relative);
        let ri = T::relative_eq(&self.i, &other.i, epsilon, max_relative);
        rx && ri
    }

    fn ulps_eq(&self, other: &Complex<T>, epsilon: T::Epsilon, max_ulps: u32) -> (r: bool) {
        let rx = T::ulps_eq(&self.x, &other.x, epsilon, max_ulps);
        let ri = T::ulps_eq(&self.i, &other.i, epsilon, max_ulps);
        rx && ri
    }
}

/// The requisite parameters for testing approximate equality with a
/// relative-difference comparison.
pub struct Relative<T: ApproxEq> {
    /// The tolerance used when the values are close together.
    pub epsilon: T::Epsilon,
    /// The relative tolerance used when the values are far apart.
    pub max_relative: T::Epsilon,
}

impl<T: ApproxEq> Default for Relative<T> {
    /// Both tolerances start at the operand type's defaults.
    fn default() -> (r: Relative<T>)
        ensures
            r.epsilon == T::default_epsilon_spec(),
            r.max_relative == T::default_max_relative_spec(),
    {
        Relative { epsilon: T::default_epsilon(), max_relative: T::default_max_relative() }
    }
}

impl<T: ApproxEq> Relative<T> {
    /// Replace the absolute tolerance with the one specified.
    pub fn epsilon(self, epsilon: T::Epsilon) -> (r: Relative<T>)
        ensures
            r.epsilon == epsilon,
            r.max_relative == self.max_relative,
    {
        Relative { epsilon, max_relative: self.max_relative }
    }

    /// Replace the relative tolerance with the one specified.
    pub fn max_relative(self, max_relative: T::Epsilon) -> (r: Relative<T>)
        ensures
            r.epsilon == self.epsilon,
            r.max_relative == max_relative,
    {
        Relative { epsilon: self.epsilon, max_relative }
    }

    /// Perform the equality comparison.
    pub fn eq(self, lhs: &T, rhs: &T) -> (r: bool)
        ensures
            r == T::relative_eq_spec(*lhs, *rhs, self.epsilon, self.max_relative),
    {
        T::relative_eq(lhs, rhs, self.epsilon, self.max_relative)
    }

    /// Perform the inequality comparison: the exact negation of `eq`.
    pub fn ne(self, lhs: &T, rhs: &T) -> (r: bool)
        ensures
            r == !T::relative_eq_spec(*lhs, *rhs, self.epsilon, self.max_relative),
    {
        T::relative_ne(lhs, rhs, self.epsilon, self.max_relative)
    }
}

/// The requisite parameters for testing approximate equality with a
/// units-in-the-last-place comparison.
pub struct Ulps<T: ApproxEq> {
    /// The tolerance used when the values are close together.
    pub epsilon: T::Epsilon,
    /// The ULP budget used when the values are far apart.
    pub max_ulps: u32,
}

impl<T: ApproxEq> Default for Ulps<T> {
    /// Both tolerances start at the operand type's defaults.
    fn default() -> (r: Ulps<T>)
        ensures
            r.epsilon == T::default_epsilon_spec(),
            r.max_ulps == T::default_max_ulps_spec(),
    {
        Ulps { epsilon: T::default_epsilon(), max_ulps: T::default_max_ulps() }
    }
}

impl<T: ApproxEq> Ulps<T> {
    /// Replace the absolute tolerance with the one specified.
    pub fn epsilon(self, epsilon: T::Epsilon) -> (r: Ulps<T>)
        ensures
            r.epsilon == epsilon,
            r.max_ulps == self.max_ulps,
    {
        Ulps { epsilon, max_ulps: self.max_ulps }
    }

    /// Replace the ULP budget with the one specified.
    pub fn max_ulps(self, max_ulps: u32) -> (r: Ulps<T>)
        ensures
            r.epsilon == self.epsilon,
            r.max_ulps == max_ulps,
    {
        Ulps { epsilon: self.epsilon, max_ulps }
    }

    /// Perform the equality comparison.
    pub fn eq(self, lhs: &T, rhs: &T) -> (r: bool)
        ensures
            r == T::ulps_eq_spec(*lhs, *rhs, self.epsilon, self.max_ulps),
    {
        T::ulps_eq(lhs, rhs, self.epsilon, self.max_ulps)
    }

    /// Perform the inequality comparison: the exact negation of `eq`.
    pub fn ne(self, lhs: &T, rhs: &T) -> (r: bool)
        ensures
            r == !T::ulps_eq_spec(*lhs, *rhs, self.epsilon, self.max_ulps),
    {
        T::ulps_ne(lhs, rhs, self.epsilon, self.max_ulps)
    }
}

} // verus!
