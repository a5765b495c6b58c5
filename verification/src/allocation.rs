//! The allocation fraction: the share of a sprint's capacity that goes to
//! the work being forecast, as an exact fraction between zero and one.

use vstd::prelude::*;

verus! {

/// A fraction `numer / denom` with `0 < denom` and `numer <= denom`, so that
/// its value lies between zero (nothing of a sprint is available) and one
/// (the whole sprint is).
///
/// The fraction is kept as written: it is not reduced.
#[derive(Clone, Copy, Debug)]
pub struct Allocation {
    numerator: u32,
    denominator: u32,
}

impl Allocation {
    /// The fraction is between zero and one and its denominator is not
    /// zero. Every value of the type is in range.
    #[verifier::type_invariant]
    pub closed spec fn in_range(self) -> bool {
        0 < self.denominator && self.numerator <= self.denominator
    }

    /// What being in range says of the numerator and the denominator.
    pub proof fn lemma_in_range(self)
        requires
            self.in_range(),
        ensures
            0 <= self.numer() <= self.denom(),
            0 < self.denom(),
    {
    }

    /// The numerator of the fraction.
    pub closed spec fn numer(self) -> int {
        self.numerator as int
    }

    /// The denominator of the fraction.
    pub closed spec fn denom(self) -> int {
        self.denominator as int
    }

    /// The fraction `numerator / denominator`, if it lies between zero and
    /// one; `None` if the denominator is zero or the fraction exceeds one.
    pub fn new(numerator: u32, denominator: u32) -> (allocation: Option<Allocation>)
        ensures
            allocation is Some <==> 0 < denominator && numerator <= denominator,
            allocation matches Some(a) ==> a.numer() == numerator && a.denom() == denominator,
    {
        if denominator == 0 || numerator > denominator {
            None
        } else {
            Some(Allocation { numerator, denominator })
        }
    }

    /// The fraction `numerator / denominator` brought into range: a fraction
    /// above one becomes one. `None` if the denominator is zero.
    pub fn clamped(numerator: u32, denominator: u32) -> (allocation: Option<Allocation>)
        ensures
            allocation is Some <==> 0 < denominator,
            allocation matches Some(a) ==> a.denom() == denominator && a.numer() == (
            if numerator <= denominator {
                numerator
            } else {
                denominator
            }),
    {
        if denominator == 0 {
            None
        } else if numerator > denominator {
            Some(Allocation { numerator: denominator, denominator })
        } else {
            Some(Allocation { numerator, denominator })
        }
    }

    /// The whole sprint: the fraction one.
    pub fn full() -> (allocation: Allocation)
        ensures
            allocation.numer() == 1,
            allocation.denom() == 1,
    {
        Allocation { numerator: 1, denominator: 1 }
    }

    /// The numerator, which is at most the denominator.
    pub fn numerator(&self) -> (n: u32)
        ensures
            n == self.numer(),
            n <= self.denom(),
    {
        proof {
            use_type_invariant(self);
        }
        self.numerator
    }

    /// The denominator, which is never zero.
    pub fn denominator(&self) -> (d: u32)
        ensures
            d == self.denom(),
            d > 0,
    {
        proof {
            use_type_invariant(self);
        }
        self.denominator
    }
}

} // verus!
