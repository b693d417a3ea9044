//! What can go wrong setting up or running the GPU paths.

use vstd::prelude::*;

verus! {

/// Anything that can go wrong setting up or running the GPU traversal.
#[derive(Debug, Clone, PartialEq, Eq)]
pub enum GpuError {
    /// No compatible GPU adapter is present.
    NoAdapter,
    /// The adapter would not grant a device with the requested limits.
    DeviceRequest(String),
    /// Mapping a buffer for readback failed.
    BufferMap(String),
    /// A storage buffer would exceed the adapter's binding limit.
    BufferTooLarge {
        /// Bytes the structure needs in one binding.
        needed: u64,
        /// The adapter's per-binding limit.
        limit: u64,
    },
    /// The scene cannot be handled at this resolution.
    Unsupported {
        /// The scene's resolution, voxels per axis.
        n: u32,
        /// Why not.
        reason: &'static str,
    },
    /// The device was polled and reported an internal failure.
    Poll,
}

/// The error says that `needed` bytes exceed `limit`.
pub open spec fn too_large(e: GpuError, needed: int, limit: u64) -> bool {
    e matches GpuError::BufferTooLarge { needed: n, limit: l } && n == needed && l == limit
}

/// The error says that resolution `n` is unsupported, and why.
pub open spec fn unsupported(e: GpuError, n: u32, reason: Seq<char>) -> bool {
    e matches GpuError::Unsupported { n: m, reason: r } && m == n && r@ == reason
}

} // verus!
