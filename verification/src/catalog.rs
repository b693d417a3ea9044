//! The fixture catalogue: the names scenes are chosen by, and the trees built
//! for them.

use crate::assemble::{occupied_bricks, uncolored};
use crate::coord::VoxelCoord;
use crate::fixtures::{Checkerboard, Dust, OctantFractal, Solid, WireLattice};
use crate::occupancy::OccupancyField;
use crate::resolution::{pow4, Resolution};
use crate::sparse::{indexable, SparseTree};
use vstd::prelude::*;

verus! {

/// A scene by name.
#[derive(Debug, Clone, Copy, PartialEq, Eq, Structural)]
pub enum Fixture {
    /// Sierpinski tetrahedron, `D = 2`.
    Sierpinski,
    /// Cantor dust, `D = 1`.
    Cantor,
    /// 3-D checkerboard, `D ≈ 3`.
    Checkerboard,
    /// Solid, `D = 3`.
    Solid,
    /// Thin 3-D wireframe lattice — traversal-pathology stress.
    WireLattice,
    /// Sparse hashed noise — warp-divergence stress.
    Dust,
    /// Perlin fBm isosurface — smooth organic clouds and caves.
    Perlin,
    /// Domain-warped ridged multifractal — interconnected veins and caverns.
    Caves,
}

impl Fixture {
    /// The name on the command line.
    #[must_use]
    pub fn name(self) -> (r: &'static str)
        ensures
            r@ == match self {
                Fixture::Sierpinski => "sierpinski"@,
                Fixture::Cantor => "cantor"@,
                Fixture::Checkerboard => "checkerboard"@,
                Fixture::Solid => "solid"@,
                Fixture::WireLattice => "wire-lattice"@,
                Fixture::Dust => "dust"@,
                Fixture::Perlin => "perlin"@,
                Fixture::Caves => "caves"@,
            },
    {
        match self {
            Fixture::Sierpinski => "sierpinski",
            Fixture::Cantor => "cantor",
            Fixture::Checkerboard => "checkerboard",
            Fixture::Solid => "solid",
            Fixture::WireLattice => "wire-lattice",
            Fixture::Dust => "dust",
            Fixture::Perlin => "perlin",
            Fixture::Caves => "caves",
        }
    }

    /// Short upper-case label for the HUD.
    #[must_use]
    pub fn label(self) -> (r: &'static str)
        ensures
            r@ == match self {
                Fixture::Sierpinski => "SIERPINSKI"@,
                Fixture::Cantor => "CANTOR"@,
                Fixture::Checkerboard => "CHECKERBOARD"@,
                Fixture::Solid => "SOLID"@,
                Fixture::WireLattice => "WIRE-LATTICE"@,
                Fixture::Dust => "DUST"@,
                Fixture::Perlin => "PERLIN"@,
                Fixture::Caves => "CAVES"@,
            },
    {
        match self {
            Fixture::Sierpinski => "SIERPINSKI",
            Fixture::Cantor => "CANTOR",
            Fixture::Checkerboard => "CHECKERBOARD",
            Fixture::Solid => "SOLID",
            Fixture::WireLattice => "WIRE-LATTICE",
            Fixture::Dust => "DUST",
            Fixture::Perlin => "PERLIN",
            Fixture::Caves => "CAVES",
        }
    }

    /// A fixture whose occupancy is computed on integers; the noise fixtures are
    /// evaluated elsewhere.
    pub open spec fn is_exact(self) -> bool {
        self != Fixture::Perlin && self != Fixture::Caves
    }

    /// Whether voxel `c` of the fixture is occupied.
    pub open spec fn occ(self, resolution: Resolution, c: VoxelCoord) -> bool {
        match self {
            Fixture::Sierpinski => (OctantFractal { resolution, keep: 0x69 }).occ(c),
            Fixture::Cantor => (OctantFractal { resolution, keep: 0x81 }).occ(c),
            Fixture::Checkerboard => (Checkerboard { resolution }).occ(c),
            Fixture::Solid => (Solid { resolution }).occ(c),
            Fixture::WireLattice => (WireLattice { resolution, period: 16, thickness: 1 }).occ(c),
            Fixture::Dust => (Dust { resolution, density: 4096 }).occ(c),
            Fixture::Perlin => false,
            Fixture::Caves => false,
        }
    }

    /// The fixture's bricks fit `u32` indices.
    pub open spec fn fits(self, resolution: Resolution) -> bool {
        match self {
            Fixture::Sierpinski => buildable(&OctantFractal { resolution, keep: 0x69 }),
            Fixture::Cantor => buildable(&OctantFractal { resolution, keep: 0x81 }),
            Fixture::Checkerboard => buildable(&Checkerboard { resolution }),
            Fixture::Solid => buildable(&Solid { resolution }),
            Fixture::WireLattice => buildable(
                &WireLattice { resolution, period: 16, thickness: 1 },
            ),
            Fixture::Dust => buildable(&Dust { resolution, density: 4096 }),
            Fixture::Perlin => true,
            Fixture::Caves => true,
        }
    }
}

/// The Morton codec covers the field's grid, and its occupied bricks fit `u32`
/// indices.
pub open spec fn buildable<F: OccupancyField>(field: &F) -> bool {
    let m = pow4(field.grid().levels() as nat) as int;
    &&& field.grid().levels() <= 10
    &&& indexable(field.grid(), occupied_bricks(field, m, 0, m * m * m))
}

/// Builds the sparse structure for a fixture at a resolution; none for the noise
/// fixtures.
#[must_use]
pub fn build_tree(fixture: Fixture, resolution: Resolution) -> (r: Option<SparseTree>)
    requires
        resolution.wf(),
        fixture.fits(resolution),
    ensures
        r is Some <==> fixture.is_exact(),
        r matches Some(t) ==> {
            &&& t.wf()
            &&& t.compact()
            &&& t.resolution == resolution
            &&& uncolored(t)
            &&& forall|c: VoxelCoord|
                #[trigger] t.occupied(c) == (c.within(resolution) && fixture.occ(resolution, c))
        },
{
    match fixture {
        Fixture::Sierpinski => {
            let field = OctantFractal::sierpinski_tetrahedron(resolution);
            assert(field == OctantFractal { resolution, keep: 0x69 });
            Some(SparseTree::build(&field))
        },
        Fixture::Cantor => {
            let field = OctantFractal::cantor_dust(resolution);
            assert(field == OctantFractal { resolution, keep: 0x81 });
            Some(SparseTree::build(&field))
        },
        Fixture::Checkerboard => Some(SparseTree::build(&Checkerboard { resolution })),
        Fixture::Solid => Some(SparseTree::build(&Solid { resolution })),
        Fixture::WireLattice => Some(SparseTree::build(&WireLattice::new(resolution))),
        Fixture::Dust => Some(SparseTree::build(&Dust::new(resolution))),
        Fixture::Perlin => None,
        Fixture::Caves => None,
    }
}

/// Every field of up to five internal levels (`8192³`) can be built.
pub proof fn law_small_grids_fit<F: OccupancyField>(field: &F)
    requires
        field.grid().levels() <= 5,
    ensures
        buildable(field),
{
}

/// A letter in upper case; other characters as they are.
pub open spec fn upper(c: char) -> char {
    if 'a' as u32 <= c as u32 <= 'z' as u32 {
        (c as u32 - 32) as char
    } else {
        c
    }
}

/// A fixture's label is its name in upper case.
pub proof fn law_label_is_upper_name(f: Fixture, name: &'static str, label: &'static str, i: int)
    requires
        call_ensures(Fixture::name, (f,), name),
        call_ensures(Fixture::label, (f,), label),
    ensures
        label@.len() == name@.len(),
        0 <= i < name@.len() ==> label@[i] == upper(name@[i]),
{
    reveal_strlit("sierpinski");
    reveal_strlit("cantor");
    reveal_strlit("checkerboard");
    reveal_strlit("solid");
    reveal_strlit("wire-lattice");
    reveal_strlit("dust");
    reveal_strlit("perlin");
    reveal_strlit("caves");
    reveal_strlit("SIERPINSKI");
    reveal_strlit("CANTOR");
    reveal_strlit("CHECKERBOARD");
    reveal_strlit("SOLID");
    reveal_strlit("WIRE-LATTICE");
    reveal_strlit("DUST");
    reveal_strlit("PERLIN");
    reveal_strlit("CAVES");
}

/// Each fixture goes by its own word, and no two share one.
pub proof fn law_names_tell_fixtures_apart(f: Fixture, g: Fixture, a: &'static str, b: &'static str)
    requires
        call_ensures(Fixture::name, (f,), a),
        call_ensures(Fixture::name, (g,), b),
    ensures
        a@ == b@ ==> f == g,
        a@ == "sierpinski"@ <==> f == Fixture::Sierpinski,
        a@ == "cantor"@ <==> f == Fixture::Cantor,
        a@ == "checkerboard"@ <==> f == Fixture::Checkerboard,
        a@ == "solid"@ <==> f == Fixture::Solid,
        a@ == "wire-lattice"@ <==> f == Fixture::WireLattice,
        a@ == "dust"@ <==> f == Fixture::Dust,
        a@ == "perlin"@ <==> f == Fixture::Perlin,
        a@ == "caves"@ <==> f == Fixture::Caves,
{
    reveal_strlit("sierpinski");
    reveal_strlit("cantor");
    reveal_strlit("checkerboard");
    reveal_strlit("solid");
    reveal_strlit("wire-lattice");
    reveal_strlit("dust");
    reveal_strlit("perlin");
    reveal_strlit("caves");
    lemma_name_shape(f, a);
    lemma_name_shape(g, b);
}

/// A name's length and first letter.
proof fn lemma_name_shape(f: Fixture, a: &'static str)
    requires
        call_ensures(Fixture::name, (f,), a),
    ensures
        (a@.len(), a@[0]) == match f {
            Fixture::Sierpinski => (10nat, 's'),
            Fixture::Cantor => (6nat, 'c'),
            Fixture::Checkerboard => (12nat, 'c'),
            Fixture::Solid => (5nat, 's'),
            Fixture::WireLattice => (12nat, 'w'),
            Fixture::Dust => (4nat, 'd'),
            Fixture::Perlin => (6nat, 'p'),
            Fixture::Caves => (5nat, 'c'),
        },
{
    reveal_strlit("sierpinski");
    reveal_strlit("cantor");
    reveal_strlit("checkerboard");
    reveal_strlit("solid");
    reveal_strlit("wire-lattice");
    reveal_strlit("dust");
    reveal_strlit("perlin");
    reveal_strlit("caves");
}

/// The catalogue builds each scene from the fixture of that name, as its own
/// constructor makes it; the noise scenes are not built here.
pub proof fn law_catalog_builds_fixtures(
    resolution: Resolution,
    c: VoxelCoord,
    sierpinski: OctantFractal,
    cantor: OctantFractal,
    lattice: WireLattice,
    dust: Dust,
)
    requires
        call_ensures(OctantFractal::sierpinski_tetrahedron, (resolution,), sierpinski),
        call_ensures(OctantFractal::cantor_dust, (resolution,), cantor),
        call_ensures(WireLattice::new, (resolution,), lattice),
        call_ensures(Dust::new, (resolution,), dust),
    ensures
        Fixture::Sierpinski.occ(resolution, c) == sierpinski.occ(c),
        Fixture::Cantor.occ(resolution, c) == cantor.occ(c),
        Fixture::Checkerboard.occ(resolution, c) == (Checkerboard { resolution }).occ(c),
        Fixture::Solid.occ(resolution, c) == (Solid { resolution }).occ(c),
        Fixture::WireLattice.occ(resolution, c) == lattice.occ(c),
        Fixture::Dust.occ(resolution, c) == dust.occ(c),
        !Fixture::Perlin.is_exact() && !Fixture::Caves.is_exact(),
        Fixture::Sierpinski.is_exact() && Fixture::Cantor.is_exact()
            && Fixture::Checkerboard.is_exact() && Fixture::Solid.is_exact()
            && Fixture::WireLattice.is_exact() && Fixture::Dust.is_exact(),
{
    assert(sierpinski == OctantFractal { resolution, keep: 0x69 });
    assert(cantor == OctantFractal { resolution, keep: 0x81 });
}

/// A built scene holds its fixture's voxels; the noise scenes are not built.
pub proof fn law_scene_holds_fixture(
    f: Fixture,
    resolution: Resolution,
    r: Option<SparseTree>,
    c: VoxelCoord,
)
    requires
        resolution.wf(),
        f.fits(resolution),
        call_ensures(build_tree, (f, resolution), r),
    ensures
        r is None <==> f == Fixture::Perlin || f == Fixture::Caves,
        r matches Some(t) ==> t.wf() && t.resolution == resolution && (t.occupied(c) <==> c.within(
            resolution,
        ) && f.occ(resolution, c)),
{
    if let Some(t) = r {
        assert(t.occupied(c) == (c.within(resolution) && f.occ(resolution, c)));
    }
}

} // verus!
