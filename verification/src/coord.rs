//! Base-voxel coordinates.

use crate::resolution::Resolution;
use vstd::prelude::*;

verus! {

/// A base-voxel coordinate `(x, y, z)`, each component a voxel index along its
/// axis. Whether it is in bounds depends on a [`Resolution`]; see
/// [`VoxelCoord::in_bounds`].
#[derive(Debug, Clone, Copy, PartialEq, Eq, Structural, Hash, PartialOrd, Ord)]
pub struct VoxelCoord {
    /// X index.
    pub x: u32,
    /// Y index.
    pub y: u32,
    /// Z index.
    pub z: u32,
}

impl VoxelCoord {
    /// `true` iff every component is below `resolution.side()`.
    pub open spec fn within(self, resolution: Resolution) -> bool {
        &&& self.x < resolution.side()
        &&& self.y < resolution.side()
        &&& self.z < resolution.side()
    }

    /// Constructs a coordinate from its three components.
    #[must_use]
    pub fn new(x: u32, y: u32, z: u32) -> (r: Self)
        ensures
            r == (VoxelCoord { x, y, z }),
    {
        Self { x, y, z }
    }

    /// Constructs from an array, the layout used by per-axis walks.
    #[must_use]
    pub fn from_array(a: [u32; 3]) -> (r: Self)
        ensures
            r == (VoxelCoord { x: a[0], y: a[1], z: a[2] }),
    {
        Self { x: a[0], y: a[1], z: a[2] }
    }

    /// The components as an array, for per-axis iteration.
    #[must_use]
    pub fn to_array(self) -> (r: [u32; 3])
        ensures
            r@ == seq![self.x, self.y, self.z],
    {
        [self.x, self.y, self.z]
    }

    /// `true` iff every component is `< resolution.voxels_per_axis()`.
    #[must_use]
    pub fn in_bounds(self, resolution: Resolution) -> (r: bool)
        ensures
            r == self.within(resolution),
    {
        let n: u32 = resolution.voxels_per_axis();
        self.x < n && self.y < n && self.z < n
    }
}

/// Packing a coordinate into an array and back is the identity.
pub proof fn law_array_round_trip(c: VoxelCoord, a: [u32; 3])
    requires
        a@ == seq![c.x, c.y, c.z],
    ensures
        (VoxelCoord { x: a[0], y: a[1], z: a[2] }) == c,
{
}

/// Arrays hold a coordinate's components in axis order, and a coordinate made of
/// an array's components is the one that was packed. It is in bounds exactly
/// where no component reaches the side.
pub proof fn law_arrays_undo(
    x: u32,
    y: u32,
    z: u32,
    c: VoxelCoord,
    a: [u32; 3],
    d: VoxelCoord,
    resolution: Resolution,
    inside: bool,
)
    requires
        call_ensures(VoxelCoord::new, (x, y, z), c),
        call_ensures(VoxelCoord::to_array, (c,), a),
        call_ensures(VoxelCoord::from_array, (a,), d),
        call_ensures(VoxelCoord::in_bounds, (c, resolution), inside),
    ensures
        d == c,
        c.x == x && c.y == y && c.z == z,
        a[0] == x && a[1] == y && a[2] == z,
        inside <==> !(x >= resolution.side() || y >= resolution.side() || z >= resolution.side()),
{
    assert(a@[0] == c.x && a@[1] == c.y && a@[2] == c.z);
}

} // verus!
