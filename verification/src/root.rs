use vstd::prelude::*;

verus! {

/// Options for loading fingerprint images.
#[derive(Clone, Copy, Debug, PartialEq, Eq, Structural)]
pub struct FingerprintImageOptions {
    /// Resolution in dots per inch (20 to 20000); 0 means unknown.
    pub dpi: u32,
}

impl FingerprintImageOptions {
    /// Options with the given resolution, which must lie in `20..=20000`.
    pub fn new(dpi: u32) -> (r: FingerprintImageOptions)
        requires
            20 <= dpi <= 20000,
        ensures
            r.dpi == dpi,
    {
        FingerprintImageOptions { dpi }
    }

    /// The same options with another resolution.
    pub fn with_dpi(self, dpi: u32) -> (r: FingerprintImageOptions)
        ensures
            r.dpi == dpi,
    {
        let mut options = self;
        options.dpi = dpi;
        options
    }
}

impl Default for FingerprintImageOptions {
    fn default() -> (r: FingerprintImageOptions)
        ensures
            r.dpi == 0,
    {
        FingerprintImageOptions { dpi: 0 }
    }
}

/// Compatibility information of the library.
pub struct FingerprintCompatibility;

impl FingerprintCompatibility {
    /// The version of the library.
    pub fn version() -> (r: &'static str)
        ensures
            r@ == "0.1.0"@,
    {
        "0.1.0"
    }
}

} // verus!
