//! The ranges by which a part of a payload can be named.

use core::ops::{Bound, Range, RangeFrom, RangeFull, RangeInclusive, RangeTo, RangeToInclusive};
use vstd::prelude::*;

verus! {

/// The type `core::ops::RangeFrom`, with its public field.
#[verifier::external_type_specification]
#[verifier::reject_recursive_types(Idx)]
pub struct ExRangeFrom<Idx>(RangeFrom<Idx>);

/// The type `core::ops::RangeTo`, with its public field.
#[verifier::external_type_specification]
#[verifier::reject_recursive_types(Idx)]
pub struct ExRangeTo<Idx>(RangeTo<Idx>);

/// The type `core::ops::RangeToInclusive`, with its public field.
#[verifier::external_type_specification]
#[verifier::reject_recursive_types(Idx)]
pub struct ExRangeToInclusive<Idx>(RangeToInclusive<Idx>);

/// The type `core::ops::RangeFull`, which has no field.
#[verifier::external_type_specification]
pub struct ExRangeFull(RangeFull);

/// The type `core::ops::Bound`, with its three variants.
#[verifier::external_type_specification]
#[verifier::reject_recursive_types(T)]
pub struct ExBound<T>(Bound<T>);

/// `RangeInclusive::into_inner` takes a range apart into its lower and its upper bound. Trusted:
/// it returns the two bounds of the range, unless the range has been iterated to exhaustion, for
/// which its result is left open.
pub assume_specification<Idx>[ RangeInclusive::<Idx>::into_inner ](
    inclusive: RangeInclusive<Idx>,
) -> (ends: (Idx, Idx))
    ensures
        !inclusive@.exhausted ==> ends == (inclusive@.start, inclusive@.end),
;

/// The first position of a range that starts at `bound`.
pub open spec fn start_of(bound: Bound<usize>) -> int {
    match bound {
        Bound::Included(s) => s as int,
        Bound::Excluded(s) => s + 1,
        Bound::Unbounded => 0,
    }
}

/// The position behind the last one of a range over `total` positions that ends at `bound`.
pub open spec fn end_of(bound: Bound<usize>, total: int) -> int {
    match bound {
        Bound::Included(e) => e + 1,
        Bound::Excluded(e) => e as int,
        Bound::Unbounded => total,
    }
}

/// Returns the first position of a range that starts at `bound`.
pub fn start_index(bound: Bound<usize>) -> (index: usize)
    requires
        start_of(bound) <= usize::MAX,
    ensures
        index == start_of(bound),
{
    match bound {
        Bound::Included(s) => s,
        Bound::Excluded(s) => s + 1,
        Bound::Unbounded => 0,
    }
}

/// Returns the position behind the last one of a range over `total` positions that ends at
/// `bound`.
pub fn end_index(bound: Bound<usize>, total: usize) -> (index: usize)
    requires
        end_of(bound, total as int) <= usize::MAX,
    ensures
        index == end_of(bound, total as int),
{
    match bound {
        Bound::Included(e) => e + 1,
        Bound::Excluded(e) => e,
        Bound::Unbounded => total,
    }
}

/// A byte position, or a reference to one.
pub trait Position: Sized {
    /// The position.
    spec fn position(self) -> usize;

    /// Returns the position.
    fn index(self) -> (index: usize)
        ensures
            index == self.position(),
    ;
}

impl Position for usize {
    open spec fn position(self) -> usize {
        self
    }

    fn index(self) -> (index: usize) {
        self
    }
}

impl<'a> Position for &'a usize {
    open spec fn position(self) -> usize {
        *self
    }

    fn index(self) -> (index: usize) {
        *self
    }
}

/// The bound `bound`, with its position taken by value.
pub open spec fn bound_of<P: Position>(bound: Bound<P>) -> Bound<usize> {
    match bound {
        Bound::Included(at) => Bound::Included(at.position()),
        Bound::Excluded(at) => Bound::Excluded(at.position()),
        Bound::Unbounded => Bound::Unbounded,
    }
}

/// Returns the bound `bound`, with its position taken by value.
fn bound_by_value<P: Position>(bound: Bound<P>) -> (value: Bound<usize>)
    ensures
        value == bound_of(bound),
{
    match bound {
        Bound::Included(at) => Bound::Included(at.index()),
        Bound::Excluded(at) => Bound::Excluded(at.index()),
        Bound::Unbounded => Bound::Unbounded,
    }
}

/// A range of byte positions: `0..4`, `2..=5`, `1..`, `..3`, `..=2`, `..` and a pair of
/// [`Bound`]s, over `usize` or over `&usize`.
pub trait ByteRange: Sized {
    /// Whether the range has definite bounds. Only an inclusive range that has been iterated to
    /// exhaustion has none.
    spec fn definite(self) -> bool;

    /// The lower and the upper bound of the range.
    spec fn limits(self) -> (Bound<usize>, Bound<usize>);

    /// Returns the lower and the upper bound of the range.
    fn bounds(self) -> (bounds: (Bound<usize>, Bound<usize>))
        requires
            self.definite(),
        ensures
            bounds == self.limits(),
    ;
}

impl<P: Position> ByteRange for Range<P> {
    open spec fn definite(self) -> bool {
        true
    }

    open spec fn limits(self) -> (Bound<usize>, Bound<usize>) {
        (Bound::Included(self.start.position()), Bound::Excluded(self.end.position()))
    }

    fn bounds(self) -> (bounds: (Bound<usize>, Bound<usize>)) {
        (Bound::Included(self.start.index()), Bound::Excluded(self.end.index()))
    }
}

impl<P: Position> ByteRange for RangeInclusive<P> {
    open spec fn definite(self) -> bool {
        !self@.exhausted
    }

    open spec fn limits(self) -> (Bound<usize>, Bound<usize>) {
        (Bound::Included(self@.start.position()), Bound::Included(self@.end.position()))
    }

    fn bounds(self) -> (bounds: (Bound<usize>, Bound<usize>)) {
        let (start, end) = self.into_inner();
        (Bound::Included(start.index()), Bound::Included(end.index()))
    }
}

impl<P: Position> ByteRange for RangeFrom<P> {
    open spec fn definite(self) -> bool {
        true
    }

    open spec fn limits(self) -> (Bound<usize>, Bound<usize>) {
        (Bound::Included(self.start.position()), Bound::Unbounded)
    }

    fn bounds(self) -> (bounds: (Bound<usize>, Bound<usize>)) {
        (Bound::Included(self.start.index()), Bound::Unbounded)
    }
}

impl<P: Position> ByteRange for RangeTo<P> {
    open spec fn definite(self) -> bool {
        true
    }

    open spec fn limits(self) -> (Bound<usize>, Bound<usize>) {
        (Bound::Unbounded, Bound::Excluded(self.end.position()))
    }

    fn bounds(self) -> (bounds: (Bound<usize>, Bound<usize>)) {
        (Bound::Unbounded, Bound::Excluded(self.end.index()))
    }
}

impl<P: Position> ByteRange for RangeToInclusive<P> {
    open spec fn definite(self) -> bool {
        true
    }

    open spec fn limits(self) -> (Bound<usize>, Bound<usize>) {
        (Bound::Unbounded, Bound::Included(self.end.position()))
    }

    fn bounds(self) -> (bounds: (Bound<usize>, Bound<usize>)) {
        (Bound::Unbounded, Bound::Included(self.end.index()))
    }
}

impl ByteRange for RangeFull {
    open spec fn definite(self) -> bool {
        true
    }

    open spec fn limits(self) -> (Bound<usize>, Bound<usize>) {
        (Bound::Unbounded, Bound::Unbounded)
    }

    fn bounds(self) -> (bounds: (Bound<usize>, Bound<usize>)) {
        (Bound::Unbounded, Bound::Unbounded)
    }
}

impl<P: Position> ByteRange for (Bound<P>, Bound<P>) {
    open spec fn definite(self) -> bool {
        true
    }

    open spec fn limits(self) -> (Bound<usize>, Bound<usize>) {
        (bound_of(self.0), bound_of(self.1))
    }

    fn bounds(self) -> (bounds: (Bound<usize>, Bound<usize>)) {
        (bound_by_value(self.0), bound_by_value(self.1))
    }
}

} // verus!
