//! The validated digit type.

use vstd::prelude::*;

verus! {

/// A digit 1..=9 placeable in a cell.
#[derive(Clone, Copy, Debug, PartialEq, Eq, Structural)]
pub struct Number {
    v: u8,
}

impl Number {
    pub const MIN_VALUE: u8 = 1;

    pub const MAX_VALUE: u8 = 9;

    /// How many distinct digits there are.
    pub const NUM: usize = 9;

    #[verifier::type_invariant]
    pub closed spec fn inv(self) -> bool {
        1 <= self.v <= 9
    }

    /// The digit's numeric value.
    pub closed spec fn spec_get(self) -> u8 {
        self.v
    }

    /// Makes a digit from its numeric value; `None` if out of range.
    pub fn new(inner: u8) -> (r: Option<Self>)
        ensures
            r is Some <==> 1 <= inner <= 9,
            r matches Some(n) ==> n.spec_get() == inner,
    {
        if 1 <= inner && inner <= 9 {
            Some(Self { v: inner })
        } else {
            None
        }
    }

    /// Makes a digit from a value already known to be in range.
    pub fn new_unchecked(inner: u8) -> (r: Self)
        requires
            1 <= inner <= 9,
        ensures
            r.spec_get() == inner,
    {
        Self { v: inner }
    }

    /// Returns the numeric value.
    #[verifier::when_used_as_spec(spec_get)]
    pub fn get(self) -> (r: u8)
        ensures
            r == self.spec_get(),
            1 <= r <= 9,
    {
        proof {
            use_type_invariant(self);
        }
        self.v
    }

    /// All digits, ascending.
    pub fn all() -> (r: Vec<Self>)
        ensures
            r@.len() == 9,
            forall|k: int| 0 <= k < 9 ==> r@[k].spec_get() == k + 1,
    {
        let mut v: Vec<Self> = Vec::new();
        let mut d: u8 = 1;
        while d <= 9
            invariant
                1 <= d <= 10,
                v@.len() == d - 1,
                forall|k: int| 0 <= k < d - 1 ==> v@[k].spec_get() == k + 1,
            decreases 10 - d,
        {
            v.push(Self { v: d });
            d = d + 1;
        }
        v
    }
}

} // verus!
