//! Non-negative rational parameters.

use vstd::prelude::*;

verus! {

/// A non-negative rational number, `numerator / denominator`.
#[derive(Clone, Copy, Debug, PartialEq, Eq)]
pub struct Ratio {
    pub numerator: u32,
    pub denominator: u32,
}

impl Ratio {
    /// The denominator is not zero.
    pub open spec fn wf(&self) -> bool {
        self.denominator > 0
    }

    /// The ratio of two numbers, if the second is not zero.
    pub fn new(numerator: u32, denominator: u32) -> (ratio: Option<Ratio>)
        ensures
            denominator == 0 <==> ratio is None,
            ratio matches Some(r) ==> r.wf() && r.numerator == numerator && r.denominator
                == denominator,
    {
        if denominator == 0 {
            None
        } else {
            Some(Ratio { numerator, denominator })
        }
    }
}

} // verus!
