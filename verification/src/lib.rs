//! Kasiski examination: estimating the probable key length(s) of a
//! polyalphabetic substitution cipher from the distances between repeated
//! substrings of the ciphertext.
//!
//! The pipeline: every window length from half the ciphertext length down to
//! a minimum is scanned for repeated slices; each repeat's offset distance is
//! factorized; each divisor is tallied as a candidate key length; candidates
//! below the configured thresholds are dropped and the rest are ranked by
//! descending frequency, ties broken by descending key length.
use vstd::prelude::*;

pub mod counting;
pub mod divisors;
pub mod freq;
pub mod matching;
pub mod pipeline;
pub mod report;
pub mod slices;

verus! {

/// Thresholds of the examination.
///
/// `min_slice_length` is the smallest window length scanned for repeats;
/// `min_key_length` the smallest candidate key length reported;
/// `min_duplicates` the smallest tally a reported candidate may have.
pub struct Config {
    pub min_slice_length: usize,
    pub min_key_length: usize,
    pub min_duplicates: usize,
}

impl Default for Config {
    /// The default thresholds: windows down to length 2, candidates of
    /// length at least 4 seen at least 4 times.
    fn default() -> (c: Config)
        ensures
            c.min_slice_length == 2,
            c.min_key_length == 4,
            c.min_duplicates == 4,
    {
        Config { min_slice_length: 2, min_key_length: 4, min_duplicates: 4 }
    }
}

} // verus!
