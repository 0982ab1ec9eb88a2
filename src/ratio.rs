use vstd::prelude::*;

verus! {

/// An exact non-negative fraction `num / den`.
///
/// Difficulties, averages and ratios are kept as fractions so that folds are
/// exact; `den` is never zero in a value that this library hands out.
#[derive(Clone, Copy, Debug, PartialEq, Eq, Structural)]
pub struct Ratio {
    pub num: u128,
    pub den: u128,
}

impl Ratio {
    /// The fraction `num / den`.
    pub fn new(num: u128, den: u128) -> (r: Ratio)
        ensures
            r.num == num,
            r.den == den,
    {
        Ratio { num, den }
    }
}

} // verus!
