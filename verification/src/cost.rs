//! The cost abstraction used by the shortest-path search.
//!
//! A cost type provides a zero, a maximum ("infinity") value, a saturating
//! addition and a total order, all reflected into mathematical integers by
//! `value()`.  The search and the planner are written against this contract
//! and never look at the concrete numeric representation.

use vstd::prelude::*;

verus! {

/// The numeric contract for path costs: zero, a maximum value, saturating
/// addition and a total order, abstracted over `value()`.
pub trait Cost: Sized + Copy {
    /// The mathematical value of this cost.
    spec fn value(self) -> int;

    /// The mathematical value of the maximum ("infinity") cost.
    spec fn max_value() -> int;

    /// Every cost value lies between zero and the maximum.
    proof fn lemma_value_in_range(self)
        ensures
            0 <= self.value() <= Self::max_value(),
    ;

    /// The zero cost.
    fn zero() -> (r: Self)
        ensures
            r.value() == 0,
    ;

    /// The maximum cost, standing in for "no route known".
    fn max_val() -> (r: Self)
        ensures
            r.value() == Self::max_value(),
    ;

    /// Addition, saturating at the maximum value.
    fn add(self, other: Self) -> (r: Self)
        ensures
            r.value() == if self.value() + other.value() <= Self::max_value() {
                self.value() + other.value()
            } else {
                Self::max_value()
            },
    ;

    /// `<=` on cost values.
    fn le(&self, other: &Self) -> (r: bool)
        ensures
            r == (self.value() <= other.value()),
    ;

    /// `<` on cost values.
    fn lt(&self, other: &Self) -> (r: bool)
        ensures
            r == (self.value() < other.value()),
    ;
}

impl Cost for u8 {
    open spec fn value(self) -> int {
        self as int
    }

    open spec fn max_value() -> int {
        u8::MAX as int
    }

    proof fn lemma_value_in_range(self) {
    }

    fn zero() -> (r: Self) {
        0
    }

    fn max_val() -> (r: Self) {
        Self::MAX
    }

    fn add(self, other: Self) -> (r: Self) {
        self.saturating_add(other)
    }

    fn le(&self, other: &Self) -> (r: bool) {
        *self <= *other
    }

    fn lt(&self, other: &Self) -> (r: bool) {
        *self < *other
    }
}

impl Cost for u16 {
    open spec fn value(self) -> int {
        self as int
    }

    open spec fn max_value() -> int {
        u16::MAX as int
    }

    proof fn lemma_value_in_range(self) {
    }

    fn zero() -> (r: Self) {
        0
    }

    fn max_val() -> (r: Self) {
        Self::MAX
    }

    fn add(self, other: Self) -> (r: Self) {
        self.saturating_add(other)
    }

    fn le(&self, other: &Self) -> (r: bool) {
        *self <= *other
    }

    fn lt(&self, other: &Self) -> (r: bool) {
        *self < *other
    }
}

impl Cost for u32 {
    open spec fn value(self) -> int {
        self as int
    }

    open spec fn max_value() -> int {
        u32::MAX as int
    }

    proof fn lemma_value_in_range(self) {
    }

    fn zero() -> (r: Self) {
        0
    }

    fn max_val() -> (r: Self) {
        Self::MAX
    }

    fn add(self, other: Self) -> (r: Self) {
        self.saturating_add(other)
    }

    fn le(&self, other: &Self) -> (r: bool) {
        *self <= *other
    }

    fn lt(&self, other: &Self) -> (r: bool) {
        *self < *other
    }
}

impl Cost for u64 {
    open spec fn value(self) -> int {
        self as int
    }

    open spec fn max_value() -> int {
        u64::MAX as int
    }

    proof fn lemma_value_in_range(self) {
    }

    fn zero() -> (r: Self) {
        0
    }

    fn max_val() -> (r: Self) {
        Self::MAX
    }

    fn add(self, other: Self) -> (r: Self) {
        self.saturating_add(other)
    }

    fn le(&self, other: &Self) -> (r: bool) {
        *self <= *other
    }

    fn lt(&self, other: &Self) -> (r: bool) {
        *self < *other
    }
}

} // verus!
