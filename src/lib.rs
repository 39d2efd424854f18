//! Turns a decoded audio signal into a four-lane rhythm-game beatmap.
//!
//! The pipeline reduces the signal to mono, cuts it into overlapping frames,
//! sums each frame's spectrum into four band energies, detects onsets per band
//! against an adaptive threshold, classifies each onset as a tap or a hold,
//! merges same-lane clusters, enforces a global gap and thins the busiest
//! lanes. The spectrum of each frame is computed by the caller and handed in as
//! fixed-point bins.

use vstd::prelude::*;

pub mod config;
pub mod note;
pub mod signal;
pub mod bands;
pub mod onset;
pub mod postprocess;
pub mod balance;
pub mod pipeline;

verus! {

} // verus!
