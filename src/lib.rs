//! Versioned metadata of an LSM storage engine: stripped persistence of versions and
//! deltas, point-in-time reconstruction by epoch, and reclamation of old history.
//!
//! - `version`, `file_info`: the data model and its mathematical views.
//! - `strip`, `refill`, `ids`: placeholders for file records, and their restoration.
//! - `apply`: how a delta derives one version from its predecessor.
//! - `registry`: the store of full file records, fetched in bounded batches.
//! - `archive`, `write`: the epoch index, keyframes and delta log; writing, resolving an
//!   epoch, and reclaiming history.
//! - `reach`, `guarantees`: what the files of a replay come from, and the laws that
//!   resolution and reclamation obey.
//! - `cache`, `catalog`: a small FIFO cache queue and row-id column naming.
use vstd::prelude::*;

pub mod apply;
pub mod archive;
pub mod cache;
pub mod catalog;
pub mod file_info;
pub mod guarantees;
pub mod ids;
pub mod reach;
pub mod refill;
pub mod registry;
pub mod strip;
pub mod version;
pub mod write;

verus! {

} // verus!
