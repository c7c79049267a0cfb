//! Compact in-memory storage for the block contents of a 3D voxel volume.
//!
//! The volume is partitioned into fixed-size chunks. Each chunk packs one
//! palette value (4 bits) per voxel and compresses the packed bytes with
//! run-length encoding; point reads and writes work directly on the runs,
//! without full decompression. A manager maps unbounded global coordinates
//! onto chunks and their local coordinates.

use vstd::prelude::*;

pub mod packing;
pub mod rle;
pub mod chunk;
pub mod manager;
pub mod laws;

verus! {

/// Horizontal extent of a chunk along the x and y axes, in voxels.
pub const WIDTH: usize = 16;

/// Vertical extent of a chunk along the z axis, in voxels.
pub const HEIGHT: usize = 384;

/// Offset added to a signed z coordinate to obtain a non-negative index,
/// so z may range over [-SHIFT, HEIGHT - SHIFT).
pub const SHIFT: usize = 64;

/// Number of voxel slots in one chunk.
pub const FULL: usize = WIDTH * WIDTH * HEIGHT;

/// Number of packed bytes in one chunk: two voxels per byte.
pub const PACKED: usize = FULL / 2;

/// The recoverable failures of the voxel store.
#[derive(Clone, Copy, Debug, PartialEq, Eq, Structural)]
pub enum ChunkError {
    /// A raw voxel array did not hold exactly `FULL` bytes.
    LengthMismatch,
    /// A coordinate lies outside the declared volume or z-range.
    OutOfBounds,
    /// The addressed chunk coordinate is not resident and was not loaded.
    ChunkMissing,
}

} // verus!
