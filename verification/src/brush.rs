//! Solid sphere brushes: which voxels a stamp covers, and applying one to a
//! tree.

use crate::coord::VoxelCoord;
use crate::layout::brick_code;
use crate::levels::MAX_CELLS;
use crate::sparse::{codable, indexable, Edit, SparseTree};
use vstd::prelude::*;

verus! {

/// `v` lies within `radius` of `center` (Euclidean: `dx² + dy² + dz² ≤ radius²`).
pub open spec fn in_brush(center: VoxelCoord, radius: u32, v: VoxelCoord) -> bool {
    let (dx, dy, dz) = (v.x - center.x, v.y - center.y, v.z - center.z);
    dx * dx + dy * dy + dz * dz <= radius * radius
}

/// `a` comes before `b` in a `z, y, x` scan.
pub open spec fn scans_before(a: VoxelCoord, b: VoxelCoord) -> bool {
    a.z < b.z || (a.z == b.z && (a.y < b.y || (a.y == b.y && a.x < b.x)))
}

/// `v` comes before the place `(x, y, z)` in a `z, y, x` scan.
spec fn before(v: VoxelCoord, x: int, y: int, z: int) -> bool {
    v.z < z || (v.z == z && (v.y < y || (v.y == y && v.x < x)))
}

/// `out` lists the brush's voxels before the place `(x, y, z)`, in scan order.
spec fn stamped(
    center: VoxelCoord,
    radius: u32,
    out: Seq<VoxelCoord>,
    x: int,
    y: int,
    z: int,
) -> bool {
    &&& forall|v: VoxelCoord| #[trigger]
        out.contains(v) <==> in_brush(center, radius, v) && before(v, x, y, z)
    &&& forall|i: int, j: int| 0 <= i < j < out.len() ==> scans_before(out[i], out[j])
}

/// A brush's voxels lie within the cube of its radius.
proof fn lemma_in_cube(center: VoxelCoord, radius: u32, v: VoxelCoord)
    requires
        in_brush(center, radius, v),
    ensures
        -(radius as int) <= v.x - center.x <= radius,
        -(radius as int) <= v.y - center.y <= radius,
        -(radius as int) <= v.z - center.z <= radius,
{
    let (dx, dy, dz) = (v.x - center.x, v.y - center.y, v.z - center.z);
    let r = radius as int;
    assert(-r <= dx <= r && -r <= dy <= r && -r <= dz <= r) by (nonlinear_arith)
        requires
            dx * dx + dy * dy + dz * dz <= r * r,
            r >= 0,
    ;
}

/// Moving the place over cells that hold no voxel of the brush changes nothing.
proof fn lemma_stamped_move(
    center: VoxelCoord,
    radius: u32,
    out: Seq<VoxelCoord>,
    x: int,
    y: int,
    z: int,
    x2: int,
    y2: int,
    z2: int,
)
    requires
        stamped(center, radius, out, x, y, z),
        forall|v: VoxelCoord|
            #![trigger in_brush(center, radius, v)]
            in_brush(center, radius, v) ==> before(v, x, y, z) == before(v, x2, y2, z2),
    ensures
        stamped(center, radius, out, x2, y2, z2),
{
}

/// The voxel coordinates inside a solid sphere of `radius` voxels centred on
/// `center`, in `z, y, x` order. `radius = 0` yields just the centre voxel.
///
/// Coordinates that would fall below the grid origin are omitted; the upper
/// bound is left to [`SparseTree::set_voxel`], which treats out-of-bounds as
/// [`Edit::Unchanged`].
#[must_use]
pub fn brush_voxels(center: VoxelCoord, radius: u32) -> (out: Vec<VoxelCoord>)
    requires
        3 * radius * radius <= i64::MAX,
    ensures
        forall|v: VoxelCoord| #[trigger] out@.contains(v) <==> in_brush(center, radius, v),
        forall|i: int, j: int| 0 <= i < j < out@.len() ==> scans_before(out@[i], out@[j]),
{
    let r: i64 = radius as i64;
    let (cx, cy, cz) = (center.x as i64, center.y as i64, center.z as i64);
    assert(r * r <= i64::MAX && r <= 0xffff_ffff) by (nonlinear_arith)
        requires
            0 <= r <= 0xffff_ffff,
            3 * r * r <= i64::MAX,
    ;
    let r2: i64 = r * r;
    let mut out: Vec<VoxelCoord> = Vec::new();
    let mut dz: i64 = -r;
    proof {
        assert forall|v: VoxelCoord| in_brush(center, radius, v) implies !before(
            v,
            0,
            0,
            cz - r,
        ) by {
            lemma_in_cube(center, radius, v);
        }
        assert(stamped(center, radius, out@, 0, 0, cz - r));
    }
    while dz <= r
        invariant
            r == radius,
            r2 == r * r,
            3 * r * r <= i64::MAX,
            cx == center.x,
            cy == center.y,
            cz == center.z,
            -r <= dz <= r + 1,
            stamped(center, radius, out@, 0, 0, cz + dz),
        decreases r + 1 - dz,
    {
        let mut dy: i64 = -r;
        proof {
            assert forall|v: VoxelCoord| #[trigger] in_brush(center, radius, v) implies before(
                v,
                0,
                0,
                cz + dz,
            ) == before(v, 0, cy + dy, cz + dz) by {
                lemma_in_cube(center, radius, v);
            }
            lemma_stamped_move(center, radius, out@, 0, 0, cz + dz, 0, cy + dy, cz + dz);
        }
        while dy <= r
            invariant
                r == radius,
                r2 == r * r,
                3 * r * r <= i64::MAX,
                cx == center.x,
                cy == center.y,
                cz == center.z,
                -r <= dz <= r,
                -r <= dy <= r + 1,
                stamped(center, radius, out@, 0, cy + dy, cz + dz),
            decreases r + 1 - dy,
        {
            let mut dx: i64 = -r;
            proof {
                assert forall|v: VoxelCoord| #[trigger] in_brush(center, radius, v) implies before(
                    v,
                    0,
                    cy + dy,
                    cz + dz,
                ) == before(v, cx + dx, cy + dy, cz + dz) by {
                    lemma_in_cube(center, radius, v);
                }
                lemma_stamped_move(
                    center,
                    radius,
                    out@,
                    0,
                    cy + dy,
                    cz + dz,
                    cx + dx,
                    cy + dy,
                    cz + dz,
                );
            }
            while dx <= r
                invariant
                    r == radius,
                    r2 == r * r,
                    3 * r * r <= i64::MAX,
                    cx == center.x,
                    cy == center.y,
                    cz == center.z,
                    -r <= dz <= r,
                    -r <= dy <= r,
                    -r <= dx <= r + 1,
                    stamped(center, radius, out@, cx + dx, cy + dy, cz + dz),
                decreases r + 1 - dx,
            {
                assert(0 <= dx * dx <= r * r && 0 <= dy * dy <= r * r && 0 <= dz * dz <= r * r)
                    by (nonlinear_arith)
                    requires
                        -r <= dx <= r,
                        -r <= dy <= r,
                        -r <= dz <= r,
                ;
                assert(3 * r * r == 3 * (r * r)) by (nonlinear_arith);
                let ghost was = out@;
                let (x, y, z) = (cx + dx, cy + dy, cz + dz);
                if dx * dx + dy * dy + dz * dz <= r2 && 0 <= x && x <= u32::MAX as i64 && 0 <= y
                    && y <= u32::MAX as i64 && 0 <= z && z <= u32::MAX as i64 {
                    let v = VoxelCoord::new(x as u32, y as u32, z as u32);
                    out.push(v);
                    proof {
                        lemma_stamp_one(center, radius, was, v);
                    }
                } else {
                    proof {
                        assert forall|v: VoxelCoord| #[trigger]
                            in_brush(center, radius, v) implies before(
                            v,
                            x as int,
                            y as int,
                            z as int,
                        ) == before(v, x + 1, y as int, z as int) by {
                            if v.x == x && v.y == y && v.z == z {
                                assert(false);
                            }
                        }
                        lemma_stamped_move(
                            center,
                            radius,
                            out@,
                            x as int,
                            y as int,
                            z as int,
                            x + 1,
                            y as int,
                            z as int,
                        );
                    }
                }
                dx = dx + 1;
            }
            proof {
                assert forall|v: VoxelCoord| #[trigger] in_brush(center, radius, v) implies before(
                    v,
                    cx + dx,
                    cy + dy,
                    cz + dz,
                ) == before(v, 0, cy + dy + 1, cz + dz) by {
                    lemma_in_cube(center, radius, v);
                }
                lemma_stamped_move(
                    center,
                    radius,
                    out@,
                    cx + dx,
                    cy + dy,
                    cz + dz,
                    0,
                    cy + dy + 1,
                    cz + dz,
                );
            }
            dy = dy + 1;
        }
        proof {
            assert forall|v: VoxelCoord| #[trigger] in_brush(center, radius, v) implies before(
                v,
                0,
                cy + dy,
                cz + dz,
            ) == before(v, 0, 0, cz + dz + 1) by {
                lemma_in_cube(center, radius, v);
            }
            lemma_stamped_move(center, radius, out@, 0, cy + dy, cz + dz, 0, 0, cz + dz + 1);
        }
        dz = dz + 1;
    }
    proof {
        assert forall|v: VoxelCoord| #[trigger] out@.contains(v) <==> in_brush(
            center,
            radius,
            v,
        ) by {
            if in_brush(center, radius, v) {
                lemma_in_cube(center, radius, v);
            }
        }
    }
    out
}

/// Appending the voxel at the place moves the place past it.
proof fn lemma_stamp_one(
    center: VoxelCoord,
    radius: u32,
    was: Seq<VoxelCoord>,
    v: VoxelCoord,
)
    requires
        stamped(center, radius, was, v.x as int, v.y as int, v.z as int),
        in_brush(center, radius, v),
    ensures
        stamped(center, radius, was.push(v), v.x + 1, v.y as int, v.z as int),
{
    let out = was.push(v);
    assert forall|u: VoxelCoord| #[trigger] out.contains(u) <==> in_brush(center, radius, u)
        && before(u, v.x + 1, v.y as int, v.z as int) by {
        if out.contains(u) {
            let i = choose|i: int| 0 <= i < out.len() && out[i] == u;
            if i < was.len() {
                assert(was[i] == u);
                assert(was.contains(u));
            }
        }
        if in_brush(center, radius, u) && before(u, v.x + 1, v.y as int, v.z as int) {
            if u == v {
                assert(out[was.len() as int] == u);
            } else {
                assert(before(u, v.x as int, v.y as int, v.z as int));
                assert(was.contains(u));
                let i = choose|i: int| 0 <= i < was.len() && was[i] == u;
                assert(out[i] == u);
            }
        }
    }
    assert forall|i: int, j: int| 0 <= i < j < out.len() implies scans_before(
        out[i],
        out[j],
    ) by {
        if j < was.len() {
            assert(out[i] == was[i] && out[j] == was[j]);
        } else {
            assert(out[i] == was[i]);
            assert(was.contains(was[i]));
        }
    }
}

/// What stamping a brush did to a tree.
#[derive(Debug, Clone)]
pub struct Stamp {
    /// Voxels actually changed (not counting no-ops within the brush).
    pub changed: u64,
    /// Whether bricks appeared or disappeared. Leaf indices have then shifted.
    pub topology: bool,
    /// The leaves changed in place, ascending, each once. Empty where the
    /// topology changed.
    pub touched: Vec<u32>,
}

/// Setting (`add`) or clearing voxel `c` of the tree changes it.
pub open spec fn toggles(t: SparseTree, c: VoxelCoord, add: bool) -> bool {
    c.within(t.resolution) && t.occupied(c) != add
}

/// How many of the tree's voxels the first `n` coordinates change, each counted
/// once.
pub open spec fn toggle_count(t: SparseTree, coords: Seq<VoxelCoord>, n: int, add: bool) -> nat
    decreases n,
{
    if n <= 0 {
        0
    } else {
        toggle_count(t, coords, n - 1, add) + if toggles(t, coords[n - 1], add) && !coords.take(
            n - 1,
        ).contains(coords[n - 1]) {
            1nat
        } else {
            0
        }
    }
}

/// Some of the coordinates changes a voxel of leaf `i`.
pub open spec fn touches_leaf(
    t: SparseTree,
    coords: Seq<VoxelCoord>,
    add: bool,
    i: int,
) -> bool {
    exists|k: int|
        0 <= k < coords.len() && toggles(t, #[trigger] coords[k], add) && t.has_brick(
            brick_code(coords[k]) as int,
        ) && t.slot(brick_code(coords[k]) as int) == i
}

/// Tree `b` is tree `a` with the coordinates set or cleared.
pub open spec fn stamps(a: SparseTree, b: SparseTree, coords: Seq<VoxelCoord>, add: bool) -> bool {
    &&& b.resolution == a.resolution
    &&& forall|d: VoxelCoord|
        #[trigger] b.occupied(d) == if coords.contains(d) && d.within(a.resolution) {
            add
        } else {
            a.occupied(d)
        }
    &&& forall|d: VoxelCoord|
        #[trigger] b.material(d) == if coords.contains(d) && toggles(a, d, add) {
            0
        } else {
            a.material(d)
        }
}

/// Only the leaves that `coords` touches may differ; all indices are stable.
pub open spec fn stamps_in_place(
    a: SparseTree,
    b: SparseTree,
    coords: Seq<VoxelCoord>,
    add: bool,
) -> bool {
    &&& b.codes@ == a.codes@
    &&& b.nodes@ == a.nodes@
    &&& b.topo_gen == a.topo_gen
    &&& b.leaves@.len() == a.leaves@.len()
    &&& b.materials@.len() == a.materials@.len()
    &&& forall|j: int|
        0 <= j < a.leaves@.len() && !touches_leaf(a, coords, add, j) ==> #[trigger] b.leaves@[j]
            == a.leaves@[j]
    &&& forall|j: int|
        0 <= j < a.leaves@.len() && !touches_leaf(a, coords, add, j) ==> #[trigger] b.materials@[j]
            == a.materials@[j]
}

/// The values ascend strictly.
pub open spec fn increasing(s: Seq<u32>) -> bool {
    forall|i: int, j: int| 0 <= i < j < s.len() ==> s[i] < s[j]
}

/// Inserts `x` into an ascending list, unless it is there.
fn insert_unique(v: &mut Vec<u32>, x: u32)
    requires
        increasing(old(v)@),
    ensures
        increasing(final(v)@),
        forall|y: u32| #[trigger] final(v)@.contains(y) <==> y == x || old(v)@.contains(y),
{
    let ghost was = v@;
    let mut at: usize = v.len();
    while at > 0 && v[at - 1] >= x
        invariant
            at <= v@.len(),
            v@ == was,
            forall|i: int| at <= i < v@.len() ==> v@[i] >= x,
        decreases at,
    {
        at = at - 1;
    }
    if at < v.len() && v[at] == x {
        assert(was[at as int] == x);
        return;
    }
    v.insert(at, x);
    proof {
        assert forall|i: int, j: int| 0 <= i < j < v@.len() implies v@[i] < v@[j] by {
            if at > 0 {
                assert(was[at - 1] < x);
            }
            if i < at && i < at - 1 {
                assert(was[i] < was[at - 1]);
            }
            if j > at && j - 1 > at {
                assert(was[at as int] < was[j - 1]);
            }
        }
        assert forall|y: u32| #[trigger] v@.contains(y) <==> y == x || was.contains(y) by {
            if v@.contains(y) {
                let i = choose|i: int| 0 <= i < v@.len() && v@[i] == y;
                if i < at {
                    assert(was[i] == y);
                } else if i > at {
                    assert(was[i - 1] == y);
                }
            }
            if y == x {
                assert(v@[at as int] == y);
            }
            if was.contains(y) {
                let i = choose|i: int| 0 <= i < was.len() && was[i] == y;
                if i < at {
                    assert(v@[i] == y);
                } else {
                    assert(v@[i + 1] == y);
                }
            }
        }
    }
}

/// How many bricks tree `b` has more or fewer than tree `a`.
pub open spec fn brick_change(a: SparseTree, b: SparseTree) -> nat {
    if a.codes@.len() <= b.codes@.len() {
        (b.codes@.len() - a.codes@.len()) as nat
    } else {
        (a.codes@.len() - b.codes@.len()) as nat
    }
}

/// Which bricks a stamp can add or remove: setting voxels loses none, clearing gains
/// none, and where the topology changed some brick appeared or disappeared.
pub open spec fn bricks_follow(a: SparseTree, b: SparseTree, add: bool, topology: bool) -> bool {
    &&& forall|k: int| add && a.has_brick(k) ==> #[trigger] b.has_brick(k)
    &&& forall|k: int| !add && #[trigger] b.has_brick(k) ==> a.has_brick(k)
    &&& topology ==> exists|k: int| a.has_brick(k) != #[trigger] b.has_brick(k)
}

/// One more edit of a stamp, as the stored bricks see it.
proof fn lemma_bricks_step(
    a: SparseTree,
    b: SparseTree,
    c: SparseTree,
    v: VoxelCoord,
    add: bool,
    before: bool,
    edit: Edit,
)
    requires
        bricks_follow(a, b, add, before),
        edit == Edit::Topology ==> b.has_brick(brick_code(v) as int) != add,
        forall|k: int|
            #[trigger] c.has_brick(k) == if edit == Edit::Topology && k == brick_code(v) {
                add
            } else {
                b.has_brick(k)
            },
    ensures
        bricks_follow(a, c, add, before || edit == Edit::Topology),
{
    let code = brick_code(v) as int;
    if edit == Edit::Topology {
        assert(a.has_brick(code) != c.has_brick(code));
    } else if before {
        let k = choose|k: int| a.has_brick(k) != #[trigger] b.has_brick(k);
        assert(a.has_brick(k) != c.has_brick(k));
    }
    assert forall|k: int| add && a.has_brick(k) implies #[trigger] c.has_brick(k) by {
        assert(b.has_brick(k));
    }
}

/// One more coordinate of a stamp.
proof fn lemma_stamp_step(
    a: SparseTree,
    b: SparseTree,
    c: SparseTree,
    coords: Seq<VoxelCoord>,
    n: int,
    add: bool,
)
    requires
        0 <= n < coords.len(),
        stamps(a, b, coords.take(n), add),
        c.resolution == b.resolution,
        forall|d: VoxelCoord|
            #[trigger] c.occupied(d) == if d == coords[n] && d.within(b.resolution) {
                add
            } else {
                b.occupied(d)
            },
        forall|d: VoxelCoord|
            #[trigger] c.material(d) == if d == coords[n] && toggles(b, d, add) {
                0
            } else {
                b.material(d)
            },
    ensures
        stamps(a, c, coords.take(n + 1), add),
        toggles(b, coords[n], add) == (toggles(a, coords[n], add) && !coords.take(n).contains(
            coords[n],
        )),
{
    let next = coords.take(n + 1);
    let head = coords.take(n);
    assert forall|d: VoxelCoord| #[trigger] next.contains(d) == (head.contains(d) || d
        == coords[n]) by {
        if head.contains(d) {
            let i = choose|i: int| 0 <= i < head.len() && head[i] == d;
            assert(next[i] == d);
        }
        if d == coords[n] {
            assert(next[n] == d);
        }
        if next.contains(d) {
            let i = choose|i: int| 0 <= i < next.len() && next[i] == d;
            if i < n {
                assert(head[i] == d);
            }
        }
    }
    assert forall|d: VoxelCoord|
        #[trigger] c.occupied(d) == if next.contains(d) && d.within(a.resolution) {
            add
        } else {
            a.occupied(d)
        } by {
        assert(next.contains(d) == (head.contains(d) || d == coords[n]));
        assert(b.occupied(d) == if head.contains(d) && d.within(a.resolution) {
            add
        } else {
            a.occupied(d)
        });
    }
    assert forall|d: VoxelCoord|
        #[trigger] c.material(d) == if next.contains(d) && toggles(a, d, add) {
            0
        } else {
            a.material(d)
        } by {
        assert(next.contains(d) == (head.contains(d) || d == coords[n]));
        assert(b.occupied(d) == if head.contains(d) && d.within(a.resolution) {
            add
        } else {
            a.occupied(d)
        });
        assert(b.material(d) == if head.contains(d) && toggles(a, d, add) {
            0
        } else {
            a.material(d)
        });
    }
}

/// A leaf touched by some coordinates is touched by more.
proof fn lemma_touch_grows(
    t: SparseTree,
    coords: Seq<VoxelCoord>,
    n: int,
    add: bool,
)
    requires
        0 <= n < coords.len(),
    ensures
        forall|j: int|
            #[trigger] touches_leaf(t, coords.take(n + 1), add, j) == (touches_leaf(
                t,
                coords.take(n),
                add,
                j,
            ) || (toggles(t, coords[n], add) && t.has_brick(brick_code(coords[n]) as int) && t.slot(
                brick_code(coords[n]) as int,
            ) == j)),
{
    let (next, head) = (coords.take(n + 1), coords.take(n));
    assert forall|j: int|
        #[trigger] touches_leaf(t, next, add, j) == (touches_leaf(t, head, add, j) || (toggles(
            t,
            coords[n],
            add,
        ) && t.has_brick(brick_code(coords[n]) as int) && t.slot(brick_code(coords[n]) as int)
            == j)) by {
        if touches_leaf(t, head, add, j) {
            let k = choose|k: int|
                0 <= k < head.len() && toggles(t, #[trigger] head[k], add) && t.has_brick(
                    brick_code(head[k]) as int,
                ) && t.slot(brick_code(head[k]) as int) == j;
            assert(next[k] == head[k]);
        }
        if toggles(t, coords[n], add) && t.has_brick(brick_code(coords[n]) as int) && t.slot(
            brick_code(coords[n]) as int,
        ) == j {
            assert(next[n] == coords[n]);
        }
        if touches_leaf(t, next, add, j) {
            let k = choose|k: int|
                0 <= k < next.len() && toggles(t, #[trigger] next[k], add) && t.has_brick(
                    brick_code(next[k]) as int,
                ) && t.slot(brick_code(next[k]) as int) == j;
            if k < n {
                assert(head[k] == next[k]);
            }
        }
    }
}

/// Stamps a brush: sets (`add`) or clears each of the coordinates, and reports
/// what a synced buffer has to follow. Out-of-bounds coordinates change nothing.
/// Each topology edit adds or removes one brick and counts the generation up by one,
/// so that the generation moves on by as many as bricks appeared or disappeared.
pub fn stamp(tree: &mut SparseTree, coords: &[VoxelCoord], add: bool) -> (r: Stamp)
    requires
        old(tree).wf(),
        forall|i: int|
            0 <= i < coords@.len() ==> codable(#[trigger] coords@[i], old(tree).resolution),
        add ==> indexable(old(tree).resolution, old(tree).codes@.len() + coords@.len()),
    ensures
        final(tree).wf(),
        old(tree).compact() ==> final(tree).compact(),
        stamps(*old(tree), *final(tree), coords@, add),
        final(tree).codes@.len() <= old(tree).codes@.len() + coords@.len(),
        r.changed == toggle_count(*old(tree), coords@, coords@.len() as int, add),
        r.changed == 0 ==> *final(tree) == *old(tree),
        r.topology <==> final(tree).codes@ != old(tree).codes@,
        bricks_follow(*old(tree), *final(tree), add, r.topology),
        final(tree).topo_gen == old(tree).topo_gen.wrapping_add(
            brick_change(*old(tree), *final(tree)) as u64,
        ),
        r.topology ==> r.changed > 0 && r.touched@.len() == 0,
        !r.topology ==> stamps_in_place(*old(tree), *final(tree), coords@, add),
        increasing(r.touched@),
        !r.topology ==> forall|i: u32|
            #[trigger] r.touched@.contains(i) <==> touches_leaf(
                *old(tree),
                coords@,
                add,
                i as int,
            ),
{
    let ghost t0 = *tree;
    let mut changed: u64 = 0;
    let mut topology: bool = false;
    let mut touched: Vec<u32> = Vec::new();
    let mut n: usize = 0;
    proof {
        assert(coords@.take(0) =~= Seq::empty());
    }
    while n < coords.len()
        invariant
            n <= coords@.len(),
            changed <= n,
            t0.wf(),
            tree.wf(),
            t0.compact() ==> tree.compact(),
            forall|i: int| 0 <= i < coords@.len() ==> codable(#[trigger] coords@[i], t0.resolution),
            add ==> indexable(t0.resolution, t0.codes@.len() + coords@.len()),
            tree.codes@.len() <= t0.codes@.len() + n,
            stamps(t0, *tree, coords@.take(n as int), add),
            changed == toggle_count(t0, coords@, n as int, add),
            changed == 0 ==> *tree == t0,
            bricks_follow(t0, *tree, add, topology),
            tree.codes@.len() <= MAX_CELLS,
            add ==> t0.codes@.len() <= tree.codes@.len(),
            !add ==> tree.codes@.len() <= t0.codes@.len(),
            tree.topo_gen == t0.topo_gen.wrapping_add(brick_change(t0, *tree) as u64),
            topology ==> changed > 0 && touched@.len() == 0,
            !topology ==> stamps_in_place(t0, *tree, coords@.take(n as int), add),
            increasing(touched@),
            !topology ==> forall|i: u32|
                #[trigger] touched@.contains(i) <==> touches_leaf(
                    t0,
                    coords@.take(n as int),
                    add,
                    i as int,
                ),
        decreases coords@.len() - n,
    {
        let ghost t1 = *tree;
        let c: VoxelCoord = coords[n];
        let edit: Edit = tree.set_voxel(c, add);
        proof {
            assert(codable(coords@[n as int], t0.resolution));
            lemma_stamp_step(t0, t1, *tree, coords@, n as int, add);
            lemma_touch_grows(t0, coords@, n as int, add);
            lemma_bricks_step(t0, t1, *tree, c, add, topology, edit);
        }
        match edit {
            Edit::Unchanged => {},
            Edit::Leaf(idx) => {
                changed = changed + 1;
                if !topology {
                    insert_unique(&mut touched, idx);
                }
            },
            Edit::Topology => {
                changed = changed + 1;
                topology = true;
                touched = Vec::new();
            },
            Edit::Material { .. } => {},
        }
        n = n + 1;
    }
    proof {
        assert(coords@.take(n as int) =~= coords@);
    }
    Stamp { changed, topology, touched }
}

/// The brush is a ball about its centre: it holds the voxel at the centre, and
/// along an axis the voxels up to `radius` away; a larger one holds a smaller;
/// and who is in whose brush does not depend on the side it is seen from, on
/// where it stands, or on the axes' order or direction.
pub proof fn law_brush_is_a_ball(
    center: VoxelCoord,
    radius: u32,
    larger: u32,
    v: VoxelCoord,
    w: VoxelCoord,
    d: u32,
)
    requires
        radius <= larger,
    ensures
        in_brush(center, radius, center),
        in_brush(center, radius, v) ==> in_brush(center, larger, v),
        in_brush(center, radius, v) == in_brush(v, radius, center),
        w.x - center.x == d && w.y == center.y && w.z == center.z ==> (in_brush(center, radius, w)
            <==> d <= radius),
        w.y - center.y == d && w.x == center.x && w.z == center.z ==> (in_brush(center, radius, w)
            <==> d <= radius),
        w.z - center.z == d && w.x == center.x && w.y == center.y ==> (in_brush(center, radius, w)
            <==> d <= radius),
        w.x - center.x == v.y - center.y && w.y - center.y == v.z - center.z && w.z - center.z
            == v.x - center.x ==> in_brush(center, radius, w) == in_brush(center, radius, v),
        w.x - center.x == center.x - v.x && w.y == v.y && w.z == v.z ==> in_brush(center, radius, w)
            == in_brush(center, radius, v),
{
    let r = radius as int;
    let l = larger as int;
    let e = d as int;
    assert(r * r <= l * l && 0 <= r * r) by (nonlinear_arith)
        requires
            0 <= r <= l,
    ;
    let (x, y, z) = (v.x - center.x, v.y - center.y, v.z - center.z);
    assert((-x) * (-x) == x * x && (-y) * (-y) == y * y && (-z) * (-z) == z * z)
        by (nonlinear_arith);
    assert(e <= r <==> e * e <= r * r) by (nonlinear_arith)
        requires
            0 <= e,
            0 <= r,
    ;
    assert(center.x - v.x == -x && center.y - v.y == -y && center.z - v.z == -z);
}

/// Distance is Euclidean: a voxel three and four steps off along two axes is five
/// steps away, and one two, two and one steps off is three.
pub proof fn law_brush_distance_is_euclidean(
    center: VoxelCoord,
    radius: u32,
    v: VoxelCoord,
    w: VoxelCoord,
    k: u32,
)
    requires
        v.x == center.x + 3 * k && v.y == center.y + 4 * k && v.z == center.z,
        w.x == center.x + 2 * k && w.y == center.y + k && w.z == center.z + 2 * k,
    ensures
        in_brush(center, radius, v) <==> 5 * k <= radius,
        in_brush(center, radius, w) <==> 3 * k <= radius,
{
    let (r, n) = (radius as int, k as int);
    assert((3 * n) * (3 * n) + (4 * n) * (4 * n) + 0 * 0 <= r * r <==> 5 * n <= r)
        by (nonlinear_arith)
        requires
            0 <= r,
            0 <= n,
    ;
    assert((2 * n) * (2 * n) + n * n + (2 * n) * (2 * n) <= r * r <==> 3 * n <= r)
        by (nonlinear_arith)
        requires
            0 <= r,
            0 <= n,
    ;
}

/// A brush's voxels are each listed once, layer by layer and row by row, and none
/// is left out.
pub proof fn law_brush_lists_the_ball(
    center: VoxelCoord,
    radius: u32,
    out: Vec<VoxelCoord>,
    i: int,
    j: int,
)
    requires
        3 * radius * radius <= i64::MAX,
        call_ensures(brush_voxels, (center, radius), out),
    ensures
        0 <= i < out@.len() ==> in_brush(center, radius, out@[i]),
        0 <= i < j < out@.len() ==> out@[i] != out@[j],
        0 <= i < j < out@.len() ==> out@[i].z <= out@[j].z,
        0 <= i < j < out@.len() && out@[i].z == out@[j].z ==> out@[i].y <= out@[j].y,
        0 <= i < j < out@.len() && out@[i].z == out@[j].z && out@[i].y == out@[j].y ==> out@[i].x
            < out@[j].x,
        out@.contains(center),
        radius == 0 ==> out@ == seq![center],
{
    if 0 <= i < out@.len() {
        assert(out@.contains(out@[i]));
    }
    if 0 <= i < j < out@.len() {
        assert(scans_before(out@[i], out@[j]));
    }
    law_brush_is_a_ball(center, radius, radius, center, center, 0);
    assert(out@.contains(center));
    if radius == 0 {
        assert forall|k: int| 0 <= k < out@.len() implies out@[k] == center by {
            assert(out@.contains(out@[k]));
            lemma_in_cube(center, radius, out@[k]);
        }
        let at = choose|k: int| 0 <= k < out@.len() && out@[k] == center;
        if out@.len() > 1 {
            assert(scans_before(out@[0], out@[1]));
            assert(out@[0] == center && out@[1] == center);
        }
        assert(out@ =~= seq![center]);
    }
}

/// The voxels among the first `n` coordinates that the stamp changes.
pub open spec fn toggled(t: SparseTree, coords: Seq<VoxelCoord>, n: int, add: bool) -> Set<
    VoxelCoord,
> {
    coords.take(n).to_set().filter(|c: VoxelCoord| toggles(t, c, add))
}

/// The change count is the number of voxels that change, whatever their order and
/// however often they are listed.
pub proof fn law_changes_are_voxels(t: SparseTree, coords: Seq<VoxelCoord>, n: int, add: bool)
    requires
        0 <= n <= coords.len(),
    ensures
        toggle_count(t, coords, n, add) == toggled(t, coords, n, add).len(),
        toggled(t, coords, n, add).finite(),
    decreases n,
{
    let p = |c: VoxelCoord| toggles(t, c, add);
    let all = coords.take(n);
    if n == 0 {
        assert(all.to_set() =~= Set::empty());
        assert(toggled(t, coords, n, add) =~= Set::empty());
    } else {
        law_changes_are_voxels(t, coords, n - 1, add);
        let few = coords.take(n - 1);
        let c = coords[n - 1];
        assert(all =~= few.push(c));
        assert forall|d: VoxelCoord| all.contains(d) <==> few.contains(d) || d == c by {
            if all.contains(d) {
                let i = choose|i: int| 0 <= i < all.len() && all[i] == d;
                if i < n - 1 {
                    assert(few[i] == d);
                }
            }
            if few.contains(d) {
                let i = choose|i: int| 0 <= i < few.len() && few[i] == d;
                assert(all[i] == d);
            }
            if d == c {
                assert(all[n - 1] == d);
            }
        }
        let before = toggled(t, coords, n - 1, add);
        let now = toggled(t, coords, n, add);
        if p(c) {
            assert(now =~= before.insert(c));
        } else {
            assert(now =~= before);
        }
    }
}

/// Stamping again changes nothing more, and stamping the other way afterwards
/// leaves every voxel of the brush as that stamp says.
pub proof fn law_stamp_is_done_once(
    a: SparseTree,
    b: SparseTree,
    c: SparseTree,
    coords: Seq<VoxelCoord>,
    add: bool,
    n: int,
    v: VoxelCoord,
)
    requires
        stamps(a, b, coords, add),
        0 <= n <= coords.len(),
    ensures
        toggle_count(b, coords, n, add) == 0,
        stamps(b, c, coords, add) ==> c.occupied(v) == b.occupied(v),
        stamps(b, c, coords, !add) && coords.contains(v) && v.within(a.resolution) ==> c.occupied(v)
            != add,
        stamps(b, c, coords, !add) && !coords.contains(v) ==> c.occupied(v) == a.occupied(v),
    decreases n,
{
    if n > 0 {
        law_stamp_is_done_once(a, b, c, coords, add, n - 1, v);
        assert(coords.contains(coords[n - 1]));
    }
}

/// Stamping does what it reports: the brush's voxels are set or cleared and no
/// others, as many changed as are counted, and the touched leaves are those
/// whose voxels changed, each once. Setting loses no brick and clearing gains
/// none.
pub proof fn law_stamp_does_what_it_says(
    t: &mut SparseTree,
    coords: &[VoxelCoord],
    add: bool,
    r: Stamp,
    v: VoxelCoord,
    i: u32,
)
    requires
        old(t).wf(),
        forall|k: int|
            0 <= k < coords@.len() ==> codable(#[trigger] coords@[k], old(t).resolution),
        add ==> indexable(old(t).resolution, old(t).codes@.len() + coords@.len()),
        call_ensures(stamp, (t, coords, add), r),
    ensures
        final(t).wf(),
        stamps(*old(t), *final(t), coords@, add),
        coords@.contains(v) && v.within(old(t).resolution) ==> final(t).occupied(v) == add,
        !coords@.contains(v) ==> final(t).occupied(v) == old(t).occupied(v),
        r.changed == toggled(*old(t), coords@, coords@.len() as int, add).len(),
        !r.topology ==> (r.touched@.contains(i) <==> touches_leaf(
            *old(t),
            coords@,
            add,
            i as int,
        )),
        r.topology ==> r.touched@.len() == 0,
        !r.topology ==> final(t).codes@ == old(t).codes@ && final(t).nodes@ == old(t).nodes@
            && final(t).topo_gen == old(t).topo_gen,
        !r.topology && i < old(t).leaves@.len() && !r.touched@.contains(i)
            ==> final(t).leaves@[i as int] == old(t).leaves@[i as int],
        forall|j: int, k: int| 0 <= j < k < r.touched@.len() ==> r.touched@[j] < r.touched@[k],
        add && old(t).has_brick(i as int) ==> final(t).has_brick(i as int),
        !add && final(t).has_brick(i as int) ==> old(t).has_brick(i as int),
{
    law_changes_are_voxels(*old(t), coords@, coords@.len() as int, add);
    assert(final(t).occupied(v) == final(t).occupied(v));
}

} // verus!
