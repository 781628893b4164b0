//! Positions that are counted from one.

use vstd::prelude::*;

verus! {

/// A position counted from one, such as the number of a line or of a column.
///
/// The value is never zero. Arithmetic on it saturates: it stops at one on the
/// way down and at the greatest `usize` on the way up.
#[derive(Debug, Clone, Copy, PartialEq, Eq, PartialOrd, Ord, Hash)]
pub struct OneIndexed {
    value: usize,
}

impl View for OneIndexed {
    type V = nat;

    closed spec fn view(&self) -> nat {
        self.value as nat
    }
}

/// What counting from one makes of the sum `value + 1`, which stops at the
/// greatest `usize`.
pub open spec fn saturated(sum: int) -> nat {
    if sum < 1 {
        1
    } else if sum > usize::MAX {
        usize::MAX as nat
    } else {
        sum as nat
    }
}

impl OneIndexed {
    #[verifier::type_invariant]
    spec fn is_positive(self) -> bool {
        self.value >= 1
    }

    /// The position with the given value, unless the value is zero.
    pub fn new(value: usize) -> (position: Option<Self>)
        ensures
            value == 0 <==> position is None,
            position matches Some(p) ==> p@ == value,
    {
        if value == 0 {
            None
        } else {
            Some(OneIndexed { value })
        }
    }

    /// The position that counts from one what `value` counts from zero.
    pub fn from_zero_indexed(value: usize) -> (position: Self)
        ensures
            position@ == saturated(value + 1),
    {
        OneIndexed { value: 1usize.saturating_add(value) }
    }

    /// The value of the position.
    pub fn get(self) -> (value: usize)
        ensures
            value == self@,
            value >= 1,
    {
        proof {
            use_type_invariant(self);
        }
        self.value
    }

    /// The value of the position as counted from zero.
    pub fn to_zero_indexed(self) -> (value: usize)
        ensures
            value == self@ - 1,
    {
        proof {
            use_type_invariant(self);
        }
        self.value - 1
    }

    /// The position `rhs` further on, or the last position where there is none
    /// that far on.
    #[must_use]
    pub fn saturating_add(self, rhs: usize) -> (position: Self)
        ensures
            position@ == saturated(self@ + rhs),
    {
        proof {
            use_type_invariant(self);
        }
        OneIndexed { value: self.value.saturating_add(rhs) }
    }

    /// The position `rhs` further back, or the first position where there is
    /// none that far back.
    #[must_use]
    pub fn saturating_sub(self, rhs: usize) -> (position: Self)
        ensures
            position@ == saturated(self@ - rhs),
    {
        proof {
            use_type_invariant(self);
        }
        let value = self.value.saturating_sub(rhs);
        if value == 0 {
            OneIndexed { value: 1 }
        } else {
            OneIndexed { value }
        }
    }
}

} // verus!
