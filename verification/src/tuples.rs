use vstd::prelude::*;

verus! {

/// Tolerant equality, the sole equality primitive of the renderer: two values
/// agree when they differ by less than one machine epsilon per component.
///
/// The floating-point spatial tuples and colors live with the unverified
/// caller of this crate, which implements this trait for them; no verified
/// type carries an approximate equality of its own.
pub trait ApproxEq<T> {
    fn approx_eq(self, other: T) -> bool;
}

} // verus!
