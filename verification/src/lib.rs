//! Post-processing layer for federated Byzantine agreement system (FBAS)
//! quorum-intersection analysis.
//!
//! The expensive question - which minimal sets of participants can block
//! progress or break quorum intersection - is answered by an external engine
//! (the `fbas_analyzer` crate), treated as an opaque pure function. This
//! library provides the verified layer around it: canonicalizing topology
//! descriptions, memoizing the engine's output per canonical topology,
//! deriving grouped and exclusion-filtered views of the minimal-set families
//! while preserving their antichain invariant, and translating everything
//! back to display strings.

pub mod set_family;
pub mod topology;
pub mod engine;
pub mod grouping;
pub mod analyzer;
