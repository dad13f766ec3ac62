use cearaafis::parameters::{Fraction, Parameters};
use cearaafis::root::{FingerprintCompatibility, FingerprintImageOptions};

#[test]
fn test_options_default() {
    let opts = FingerprintImageOptions::default();
    assert_eq!(opts.dpi, 0);
}

#[test]
fn test_options_with_dpi() {
    let opts = FingerprintImageOptions::new(500);
    assert_eq!(opts.dpi, 500);
}

#[test]
fn options_with_dpi_replaces() {
    let opts = FingerprintImageOptions::default().with_dpi(300);
    assert_eq!(opts.dpi, 300);
}

#[test]
fn compatibility_version() {
    assert_eq!(FingerprintCompatibility::version(), "0.1.0");
}

#[test]
fn vote_majorities() {
    assert_eq!(Parameters::mask_vote_majority(), Fraction::new(51, 100));
    assert_eq!(Parameters::block_errors_vote_majority(), Fraction::new(7, 10));
    assert_eq!(Parameters::binarized_vote_majority(), Fraction::new(61, 100));
}
