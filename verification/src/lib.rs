//! Knot-indexing and bounds-search core for interpolation curves.
//!
//! A *generator* is a finite, indexable, pure sequence of knot positions.
//! Wrapper types grant the capabilities "non-empty" and "sorted", either by a
//! checked constructor or by an explicit unchecked escape hatch, and only
//! sequences carrying both capabilities offer the bound-finding operations
//! (binary searches locating the indices that bracket a query value).
//! Equidistant generators replace the binary search by constant-time
//! arithmetic with the exact same contract.
//!
//! Knot positions are plain `i64` values; a caller working in some unit scales
//! into integers once at the boundary. The interpolation factor between two
//! knots is returned as an exact rational [`Frac`] instead of performing a
//! lossy division.

pub mod bounds;
pub mod list;

use vstd::prelude::*;

verus! {

/// An exact rational number, kept as a plain numerator/denominator pair.
///
/// Bound-finding returns the interpolation factor of a query between two
/// bracketing knots as a `Frac`: the value is `num / den`, which is `0` at the
/// lower knot and `1` at the upper knot. The division is left to the consumer;
/// a denominator of `0` marks the degenerate case of two equal knots.
#[derive(Clone, Copy, Debug, PartialEq, Eq, Structural)]
pub struct Frac {
    /// Numerator.
    pub num: i128,
    /// Denominator.
    pub den: i128,
}

/// The errors an interpolation reports when it is created from unsuitable
/// elements or knots.
#[allow(inconsistent_fields)]
#[derive(Clone, Debug, PartialEq, Eq)]
pub enum EnterpolationError {
    /// Too few elements were given for the interpolation to be created.
    ToFewElements {
        /// Name of the interpolation that was to be created.
        name: String,
        /// Number of elements found.
        found: usize,
        /// Number of elements needed at least.
        expected: usize,
    },
    /// The number of knots given does not fit the number of elements.
    InvalidNumberKnots {
        /// Name of the interpolation that was to be created.
        name: String,
        /// Number of knots found.
        found: usize,
        /// Description of how many knots are needed.
        expected: String,
    },
}

/// The interface every interpolation offers: evaluate the curve at a scalar.
pub trait Interpolation {
    /// The input type of the interpolation.
    type Input;
    /// The output type of the interpolation.
    type Output;

    /// Calculate the element at point `scalar`.
    fn get(&self, scalar: Self::Input) -> Self::Output;
}

/// Steps through the normalized range in a fixed number of equal steps,
/// yielding each position as an exact fraction `i / (steps - 1)`.
pub struct Stepper {
    current: usize,
    amount: usize,
}

impl Stepper {
    /// The index the stepper will yield next.
    pub closed spec fn current_index(&self) -> int {
        self.current as int
    }

    /// The last index the stepper yields; also the common denominator.
    pub closed spec fn last_index(&self) -> int {
        self.amount as int
    }

    /// The stepper can still advance without overflowing its counter.
    pub closed spec fn wf(&self) -> bool {
        self.amount < usize::MAX
    }

    /// Creates a new stepper running from `0 / (steps - 1)` to
    /// `(steps - 1) / (steps - 1)` inclusive.
    pub fn new(steps: usize) -> (r: Stepper)
        requires
            steps >= 1,
        ensures
            r.wf(),
            r.current_index() == 0,
            r.last_index() == steps - 1,
    {
        Stepper { current: 0, amount: steps - 1 }
    }

    /// Yields the next position, or `None` once the range is exhausted.
    pub fn next(&mut self) -> (r: Option<Frac>)
        requires
            old(self).wf(),
        ensures
            final(self).wf(),
            final(self).last_index() == old(self).last_index(),
            old(self).current_index() > old(self).last_index() ==> {
                &&& r is None
                &&& final(self).current_index() == old(self).current_index()
            },
            old(self).current_index() <= old(self).last_index() ==> {
                &&& (r == Some(Frac {
                    num: old(self).current_index() as i128,
                    den: old(self).last_index() as i128,
                }))
                &&& final(self).current_index() == old(self).current_index() + 1
            },
    {
        if self.current > self.amount {
            return None;
        }
        let res = Frac { num: self.current as i128, den: self.amount as i128 };
        self.current = self.current + 1;
        Some(res)
    }
}

} // verus!
