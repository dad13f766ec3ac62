use vstd::prelude::*;

verus! {

/// Which skeleton an object belongs to: that of the ridges or that of the valleys.
#[derive(Clone, Copy, Debug, PartialEq, Eq, Structural)]
pub enum SkeletonType {
    Ridges,
    Valleys,
}

impl SkeletonType {
    pub fn is_ridges(&self) -> (r: bool)
        ensures
            r == (*self == SkeletonType::Ridges),
    {
        match self {
            SkeletonType::Ridges => true,
            SkeletonType::Valleys => false,
        }
    }

    pub fn is_valleys(&self) -> (r: bool)
        ensures
            r == (*self == SkeletonType::Valleys),
    {
        match self {
            SkeletonType::Ridges => false,
            SkeletonType::Valleys => true,
        }
    }
}

} // verus!
