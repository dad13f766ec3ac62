use vstd::prelude::*;
use crate::features::skeleton_type::SkeletonType;

verus! {

/// The prefix that names the objects of one skeleton.
pub trait SkeletonTypeExt {
    fn prefix(&self) -> &'static str;
}

impl SkeletonTypeExt for SkeletonType {
    fn prefix(&self) -> (r: &'static str)
        ensures
            r@ == (if *self == SkeletonType::Ridges { "ridges-"@ } else { "valleys-"@ }),
    {
        match self {
            SkeletonType::Ridges => "ridges-",
            SkeletonType::Valleys => "valleys-",
        }
    }
}

} // verus!
