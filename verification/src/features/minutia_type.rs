use vstd::prelude::*;

verus! {

/// Kind of a minutia.
#[derive(Clone, Copy, Debug, PartialEq, Eq, Structural)]
pub enum MinutiaType {
    Ending,
    Bifurcation,
}

impl MinutiaType {
    /// The numeric code of the type: 0 for an ending, 1 for a bifurcation.
    pub fn code(&self) -> (r: u8)
        ensures
            r == (if *self == MinutiaType::Ending { 0u8 } else { 1u8 }),
    {
        match self {
            MinutiaType::Ending => 0,
            MinutiaType::Bifurcation => 1,
        }
    }
}

} // verus!
