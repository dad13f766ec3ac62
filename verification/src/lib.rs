//! Fingerprint feature extraction primitives and pipeline stages, verified with Verus.

pub mod parameters;
pub mod primitives;
pub mod extractor;
pub mod extractor_skeletons;
pub mod extractor_minutiae;
pub mod matcher;
pub mod features;
pub mod root;
pub mod image_decode;

pub use primitives::integers::Integers;
