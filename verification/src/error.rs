//! Error kinds reported by the sketch.

use vstd::prelude::*;

verus! {

/// The two failure kinds a sketch can report.
///
/// `Quantile` is reserved for stricter validation of quantile arguments;
/// the current quantile lookup degrades gracefully to the tracked
/// extremes instead of raising it.  `Merge` reports an attempt to merge
/// two sketches whose configurations differ.
#[derive(Clone, Copy, Debug, PartialEq, Eq, Structural)]
pub enum DDSketchError {
    Quantile,
    Merge,
}

} // verus!
