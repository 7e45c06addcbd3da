//! A mergeable quantile sketch core.
//!
//! A sketch summarises a stream of samples in a bounded number of
//! logarithmic buckets and answers approximate quantile queries with a
//! guaranteed relative error.  This crate holds the verified core: the
//! capacity-bounded bucket store with its collapsing policy, and the
//! sketch orchestration that tracks exact extremes and counts alongside
//! the approximate bucket counts.
//!
//! The core is representation-agnostic about the sample domain: a sample
//! enters as a bucket key (computed by the caller's value-to-key mapping)
//! together with an order code, a `u64` whose ordering mirrors the
//! ordering of the represented values.  Callers that work with real
//! numbers map them monotonically onto order codes at the boundary and
//! decode the tracked extremes on the way out.

pub mod error;
pub mod sketch;
pub mod store;

pub use error::DDSketchError;
pub use sketch::Config;
pub use sketch::DDSketch;
pub use store::Store;
