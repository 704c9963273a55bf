//! Detection of known audio snippets inside a 16 kHz mono PCM stream.
//!
//! Raw little-endian 16-bit samples are framed by a fixed ring buffer
//! ([`framer`]), turned into 20-coefficient feature vectors, grouped into
//! overlapping fingerprint windows ([`aggregator`]), and matched against a
//! store of labelled fingerprints by sliding-window cosine similarity
//! ([`db`]). [`detector`] ties the stages into one streaming state machine.
//!
//! Feature coefficients are fixed-point integers: the spectral transform that
//! produces them works in floating point and runs outside this crate, but
//! every structural stage and the whole matcher are verified here, with the
//! match score computed exactly in integer arithmetic.

use vstd::prelude::*;

pub mod aggregator;
pub mod db;
pub mod detector;
pub mod framer;

verus! {

/// Samples per analysis frame (25 ms at 16 kHz).
pub const WINDOW_SIZE: usize = 400;

/// Samples between consecutive frame emissions (10 ms at 16 kHz).
pub const FRAME_HOP: usize = 160;

/// Coefficients per feature vector (the mel filter count).
pub const N_FILTERS: usize = 20;

/// Feature vectors per fingerprint window (about one second of audio).
pub const FP_WINDOW: usize = 100;

/// The caller-visible failures of the detector.
#[derive(Clone, Copy, PartialEq, Eq, Structural, Debug)]
pub enum DetectorError {
    /// A push after `close`.
    StreamClosed,
    /// A fingerprint row that is not `N_FILTERS` coefficients wide.
    MalformedFingerprint,
}

/// The rows of a coefficient matrix, each row as its abstract sequence.
pub open spec fn mat_view(m: Seq<Vec<i16>>) -> Seq<Seq<i16>> {
    m.map_values(|r: Vec<i16>| r@)
}

/// A feature row of the agreed width.
pub open spec fn row_ok(r: Seq<i16>) -> bool {
    r.len() == N_FILTERS
}

/// Every row of the matrix has the agreed width.
pub open spec fn mat_ok(m: Seq<Seq<i16>>) -> bool {
    forall|i: int| 0 <= i < m.len() ==> row_ok(#[trigger] m[i])
}

} // verus!
