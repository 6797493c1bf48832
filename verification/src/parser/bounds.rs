use std::ops::{Range, RangeFrom, RangeFull, RangeInclusive, RangeTo, RangeToInclusive};
use vstd::prelude::*;

verus! {

/// `std::ops::RangeFull`, the range `..`: it has no fields.
#[verifier::external_type_specification]
pub struct ExRangeFull(RangeFull);

/// `std::ops::RangeFrom`, the range `start..`, with its one public field.
#[verifier::external_type_specification]
#[verifier::reject_recursive_types(Idx)]
pub struct ExRangeFrom<Idx>(RangeFrom<Idx>);

/// `std::ops::RangeTo`, the range `..end`, with its one public field.
#[verifier::external_type_specification]
#[verifier::reject_recursive_types(Idx)]
pub struct ExRangeTo<Idx>(RangeTo<Idx>);

/// `std::ops::RangeToInclusive`, the range `..=end`, with its one public
/// field.
#[verifier::external_type_specification]
#[verifier::reject_recursive_types(Idx)]
pub struct ExRangeToInclusive<Idx>(RangeToInclusive<Idx>);

/// `RangeInclusive::end` returns the upper end that the range was made with,
/// as long as the range has not been iterated to exhaustion.
pub assume_specification<Idx>[ RangeInclusive::<Idx>::end ](r: &RangeInclusive<Idx>) -> (e: &Idx)
    ensures
        !r@.exhausted ==> *e == r@.end,
;

/// `RangeInclusive::start` returns the lower end that the range was made
/// with, as long as the range has not been iterated to exhaustion.
pub assume_specification<Idx>[ RangeInclusive::<Idx>::start ](r: &RangeInclusive<Idx>) -> (e: &Idx)
    ensures
        !r@.exhausted ==> *e == r@.start,
;

/// A bound on a repetition count, read as the interval from `lower()` to
/// `upper()`, both inclusive; without an upper end the interval is unbounded.
pub trait URangeBounds {
    /// The bound can be read. Left open here, for each kind of bound to say.
    open spec fn wf(&self) -> bool {
        arbitrary()
    }

    /// The least count that is allowed. Left open here, for each kind of
    /// bound to say.
    open spec fn lower(&self) -> int {
        arbitrary()
    }

    /// The greatest count that is allowed, if there is one. Left open here,
    /// for each kind of bound to say.
    open spec fn upper(&self) -> Option<int> {
        arbitrary()
    }

    /// Whether `times` is a count to end with.
    fn contains(&self, times: usize) -> (r: bool)
        requires
            self.wf(),
        ensures
            r == count_allowed(self.lower(), self.upper(), times as int),
    ;

    /// Whether one more may follow `times`.
    fn want_more(&self, times: usize) -> (r: bool)
        requires
            self.wf(),
        ensures
            r == count_extends(self.upper(), times as int),
    ;
}

/// `times` lies in the interval.
pub open spec fn count_allowed(lower: int, upper: Option<int>, times: int) -> bool {
    lower <= times && match upper {
        Some(u) => times <= u,
        None => true,
    }
}

/// A count greater than `times` lies under the upper end.
pub open spec fn count_extends(upper: Option<int>, times: int) -> bool {
    match upper {
        Some(u) => times < u,
        None => true,
    }
}

/// No more is wanted where more would not be allowed: a count that is
/// allowed lies behind counts only that want more, and at a count that wants
/// no more, no greater count is allowed.
pub proof fn lemma_want_more(lower: int, upper: Option<int>, times: int, more: int)
    requires
        times < more,
    ensures
        count_allowed(lower, upper, more) ==> count_extends(upper, times),
        !count_extends(upper, times) ==> !count_allowed(lower, upper, more),
{
}

impl URangeBounds for usize {
    open spec fn wf(&self) -> bool {
        true
    }

    open spec fn lower(&self) -> int {
        *self as int
    }

    open spec fn upper(&self) -> Option<int> {
        Some(*self as int)
    }

    fn contains(&self, times: usize) -> (r: bool) {
        times == *self
    }

    fn want_more(&self, times: usize) -> (r: bool) {
        times < *self
    }
}

impl URangeBounds for RangeFull {
    open spec fn wf(&self) -> bool {
        true
    }

    open spec fn lower(&self) -> int {
        0
    }

    open spec fn upper(&self) -> Option<int> {
        None
    }

    fn contains(&self, _t: usize) -> (r: bool) {
        true
    }

    fn want_more(&self, _t: usize) -> (r: bool) {
        true
    }
}

impl URangeBounds for RangeFrom<usize> {
    open spec fn wf(&self) -> bool {
        true
    }

    open spec fn lower(&self) -> int {
        self.start as int
    }

    open spec fn upper(&self) -> Option<int> {
        None
    }

    fn contains(&self, times: usize) -> (r: bool) {
        self.start <= times
    }

    fn want_more(&self, _t: usize) -> (r: bool) {
        true
    }
}

impl URangeBounds for Range<usize> {
    open spec fn wf(&self) -> bool {
        true
    }

    open spec fn lower(&self) -> int {
        self.start as int
    }

    open spec fn upper(&self) -> Option<int> {
        Some(self.end - 1)
    }

    fn contains(&self, times: usize) -> (r: bool) {
        self.start <= times && times < self.end
    }

    fn want_more(&self, times: usize) -> (r: bool) {
        times < self.end && times + 1 < self.end
    }
}

impl URangeBounds for RangeTo<usize> {
    open spec fn wf(&self) -> bool {
        true
    }

    open spec fn lower(&self) -> int {
        0
    }

    open spec fn upper(&self) -> Option<int> {
        Some(self.end - 1)
    }

    fn contains(&self, times: usize) -> (r: bool) {
        times < self.end
    }

    fn want_more(&self, times: usize) -> (r: bool) {
        times < self.end && times + 1 < self.end
    }
}

impl URangeBounds for RangeInclusive<usize> {
    open spec fn wf(&self) -> bool {
        !self@.exhausted
    }

    open spec fn lower(&self) -> int {
        self@.start as int
    }

    open spec fn upper(&self) -> Option<int> {
        Some(self@.end as int)
    }

    fn contains(&self, times: usize) -> (r: bool) {
        *self.start() <= times && times <= *self.end()
    }

    fn want_more(&self, times: usize) -> (r: bool) {
        times < *self.end()
    }
}

impl URangeBounds for RangeToInclusive<usize> {
    open spec fn wf(&self) -> bool {
        true
    }

    open spec fn lower(&self) -> int {
        0
    }

    open spec fn upper(&self) -> Option<int> {
        Some(self.end as int)
    }

    fn contains(&self, times: usize) -> (r: bool) {
        times <= self.end
    }

    fn want_more(&self, times: usize) -> (r: bool) {
        times < self.end
    }
}

} // verus!
