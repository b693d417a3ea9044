//! Sparse 64-way voxel trees over `8 · 4^k` grids: Morton-ordered leaf bricks,
//! the two node layouts that index them, per-leaf palettes, edits, and the
//! buffer plans a GPU traversal consumes.

pub mod assemble;
pub mod bench;
pub mod bits;
pub mod brush;
pub mod builds;
pub mod bytes;
pub mod catalog;
pub mod cells;
pub mod compare;
pub mod contents;
pub mod controls;
pub mod coord;
pub mod course;
pub mod error;
pub mod fixtures;
pub mod hud;
pub mod kernel;
pub mod layout;
pub mod leaf;
pub mod level;
pub mod levels;
pub mod measure;
pub mod mip;
pub mod morton;
pub mod node;
pub mod noise;
pub mod occupancy;
pub mod oracle;
pub mod palette;
pub mod resolution;
pub mod scene;
pub mod school_b;
pub mod shader;
pub mod sparse;
pub mod traverse;
pub mod truecolor;
pub mod upload;

pub use brush::brush_voxels;
pub use coord::VoxelCoord;
pub use error::GpuError;
pub use layout::{Cell, NodeLayout};
pub use leaf::{LeafBounds, LeafBrick};
pub use level::Level;
pub use node::GpuNode;
pub use occupancy::{BitGrid, OccupancyField};
pub use palette::{MaterialError, MaterialTable};
pub use resolution::{Resolution, ResolutionError};
pub use school_b::SchoolBBuffer;
pub use sparse::{Edit, SparseTree};
pub use traverse::TraversalStats;
