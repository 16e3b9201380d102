//! Managing the UMEM's frames.
use vstd::prelude::*;

pub mod slab_manager;

verus! {

/// How many frames a frame manager and a handle hold between them.
#[derive(Debug)]
pub struct FrameStatistics {
    /// Total number of available frames.
    pub total_available: usize,
}

} // verus!
