//! The metric capability: the contract a key type supplies so that the tree
//! can measure and merge bounding balls.
//!
//! Distances are dimensionless non-negative scalars held in a `u64`; a key
//! type chooses its own unit (the vector keys of this crate use thousandths
//! of a coordinate unit). Every difference is bounded by [`MAX_DIFF`], which
//! keeps the radius of every bounding ball that the tree can build inside
//! `u64` range.

use vstd::prelude::*;

verus! {

/// Upper bound on the scalar returned by [`HasMeasurableDiff::difference`].
///
/// A tree holds fewer than `2^32` leaves, and each bounding ball's radius is
/// at most `(2 * size - 1) * MAX_DIFF` (see the tree's well-formedness
/// invariant), so with this bound every radius stays below `2^63` and radius
/// arithmetic cannot overflow.
pub const MAX_DIFF: u64 = 1073741824;

/// The measurable-difference capability over a key type.
///
/// `difference` is the scalar distance between two keys; `midpoint` positions
/// the centre of a ball meant to bound the balls `(self, self_rad)` and
/// `(other, other_rad)`. The tree gives the merged ball the radius
/// `self.difference(&mid) + self_rad`, so a good `midpoint` makes that value
/// also cover the other ball; the tree does not depend on it for soundness of
/// its own invariants, only for the quality of its search.
///
/// Implementations must be total: in particular `midpoint` must be
/// well-defined when the two keys coincide (return the shared key).
pub trait HasMeasurableDiff: Sized {
    /// The distance between two keys, as a mathematical function.
    spec fn diff_spec(self, other: Self) -> u64;

    /// The distance from a key to itself is zero.
    proof fn diff_identity(a: Self)
        ensures
            a.diff_spec(a) == 0,
    ;

    /// The distance between two keys does not depend on their order.
    proof fn diff_symmetry(a: Self, b: Self)
        ensures
            a.diff_spec(b) == b.diff_spec(a),
    ;

    /// Computes the scalar difference between `self` and `other`.
    fn difference(&self, other: &Self) -> (d: u64)
        ensures
            d == (*self).diff_spec(*other),
            d <= MAX_DIFF,
    ;

    /// Computes a centre for a ball bounding `(self, self_rad)` and
    /// `(other, other_rad)`. The capability chooses the centre freely; the
    /// tree measures the distance to whatever centre comes back and records
    /// that distance plus `self_rad` as the merged radius, so nothing needs
    /// to be assumed here. Must be well-defined when the two keys coincide
    /// (return the shared position).
    fn midpoint(&self, other: &Self, self_rad: u64, other_rad: u64) -> Self;
}

} // verus!
