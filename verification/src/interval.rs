//! Half-open intervals `[start, end_excl)` of bit positions.
use vstd::prelude::*;

use int_interval::UsizeCO;

verus! {

/// A non-empty half-open interval `[start, end_excl)` of positions, as
/// `int_interval::UsizeCO` builds it.
#[derive(Clone, Copy, Debug, PartialEq, Eq, Hash)]
pub struct Interval {
    start: usize,
    end_excl: usize,
}

impl Interval {
    /// The interval is non-empty.
    #[verifier::type_invariant]
    pub(crate) closed spec fn inv(self) -> bool {
        self.start < self.end_excl
    }

    /// The inclusive lower bound.
    pub closed spec fn spec_start(self) -> usize {
        self.start
    }

    /// The exclusive upper bound.
    pub closed spec fn spec_end_excl(self) -> usize {
        self.end_excl
    }

    /// Builds `[start, end_excl)`, or `None` when `start >= end_excl`.
    pub fn try_new(start: usize, end_excl: usize) -> (r: Option<Self>)
        ensures
            r is Some <==> start < end_excl,
            r matches Some(iv) ==> iv.spec_start() == start && iv.spec_end_excl() == end_excl,
    {
        match checked_bounds(start, end_excl) {
            Some((s, e)) => Some(Interval { start: s, end_excl: e }),
            None => None,
        }
    }

    /// The inclusive lower bound.
    pub fn start(&self) -> (r: usize)
        ensures
            r == self.spec_start(),
    {
        self.start
    }

    /// The exclusive upper bound.
    pub fn end_excl(&self) -> (r: usize)
        ensures
            r == self.spec_end_excl(),
    {
        self.end_excl
    }

    /// Number of positions in the interval.
    pub fn len(&self) -> (r: usize)
        ensures
            self.spec_start() < self.spec_end_excl(),
            r == self.spec_end_excl() - self.spec_start(),
    {
        proof {
            use_type_invariant(self);
        }
        self.end_excl - self.start
    }
}

/// The bounds of the interval that `int_interval::UsizeCO::try_new` builds
/// from `start` and `end_excl`.
///
/// `UsizeCO::try_new` returns `Some` exactly when `start < end_excl`, and the
/// interval it then holds reports back `start` and `end_excl` through
/// `UsizeCO::start` and `UsizeCO::end_excl`.
#[verifier::external_body]
fn checked_bounds(start: usize, end_excl: usize) -> (r: Option<(usize, usize)>)
    ensures
        r == (if start < end_excl {
            Some((start, end_excl))
        } else {
            None
        }),
{
    UsizeCO::try_new(start, end_excl).map(|iv| (iv.start(), iv.end_excl()))
}

} // verus!
