//! What a march meets along a ray's course.
//!
//! A course is the voxels a ray crosses, in order. The marches decide on
//! integers and leave the geometry to a driver; a driver is faithful to a course
//! when each of its answers puts the walk where the course is. Driven
//! faithfully, every march, hierarchical or not, ends with the first occupied
//! voxel of the course, or misses where there is none.

use crate::coord::VoxelCoord;
use crate::layout::{stores, Cell, NodeLayout};
use crate::mip::{in_brick, BrickGrid, BrickMarch};
use crate::occupancy::OccupancyField;
use crate::oracle::FieldMarch;
use crate::resolution::{pow4, Resolution};
use crate::traverse::{advances, answers_cell, asks, decides, extent, in_cube, law_entered_box_is_walked, law_skip_is_safe, lemma_box_of_request, opens, spec_child_here, starts, step_size, Frame, Request, Traversal};
use vstd::prelude::*;

verus! {

/// Every voxel of the course lies in the grid, and there is one.
pub open spec fn crosses(course: Seq<VoxelCoord>, grid: Resolution) -> bool {
    &&& course.len() > 0
    &&& forall|i: int| 0 <= i < course.len() ==> (#[trigger] course[i]).within(grid)
}

/// `r` ends a march along the course as it should: a hit at the first voxel that
/// `held` holds of, or a miss where it holds of none.
pub open spec fn meets(
    course: Seq<VoxelCoord>,
    held: spec_fn(VoxelCoord) -> bool,
    r: Request,
) -> bool {
    match r {
        Request::Hit(v) => held(v) && exists|p: int|
            0 <= p < course.len() && #[trigger] course[p] == v && forall|j: int|
                0 <= j < p ==> !held(#[trigger] course[j]),
        Request::Miss => forall|j: int| 0 <= j < course.len() ==> !held(#[trigger] course[j]),
        _ => false,
    }
}

/// A march along a course has one right ending.
pub proof fn law_ending_unique(
    course: Seq<VoxelCoord>,
    held: spec_fn(VoxelCoord) -> bool,
    r: Request,
    s: Request,
)
    requires
        meets(course, held, r),
        meets(course, held, s),
    ensures
        r == s,
{
    if r is Hit && s is Hit {
        let p = choose|p: int|
            0 <= p < course.len() && #[trigger] course[p] == r->Hit_0 && forall|j: int|
                0 <= j < p ==> !held(#[trigger] course[j]);
        let q = choose|q: int|
            0 <= q < course.len() && #[trigger] course[q] == s->Hit_0 && forall|j: int|
                0 <= j < q ==> !held(#[trigger] course[j]);
        assert(p == q) by {
            if p < q {
                assert(!held(course[p]));
            }
            if q < p {
                assert(!held(course[q]));
            }
        }
    }
}

/// The first place from `p` on where the course is outside the frame's current
/// cell.
pub open spec fn departs(course: Seq<VoxelCoord>, p: int, f: Frame) -> int
    decreases course.len() - p,
{
    if p >= course.len() || !f.covers(course[p]) {
        p
    } else {
        departs(course, p + 1, f)
    }
}

/// `v` lies in the box `[lo, hi)`.
pub open spec fn in_box(v: VoxelCoord, lo: VoxelCoord, hi: VoxelCoord) -> bool {
    lo.x <= v.x < hi.x && lo.y <= v.y < hi.y && lo.z <= v.z < hi.z
}

/// A driver of a descent takes it from `a` to `b`: the state, what it asks for,
/// and the place reached on the course.
///
/// A box is entered in the cell where the course is. A walk advances to the cell
/// where the course goes on, or ends where the course leaves its box. A leaf's
/// bounds are declared unreached only where the course stays outside them.
pub open spec fn drives<L: NodeLayout>(
    l: &L,
    course: Seq<VoxelCoord>,
    a: (Traversal, Request, int),
    b: (Traversal, Request, int),
) -> bool {
    let (t, asked, p) = a;
    let (u, asks, q) = b;
    &&& u.wf(l)
    &&& match asked {
        Request::Enter { origin, dim, cell_size } => {
            &&& q == p
            &&& exists|cell: [u32; 3], dir: [i8; 3]| #[trigger] opens(l, t, u, cell, dir, asks)
            &&& u.top().covers(course[p])
        },
        Request::Advance => {
            &&& q == departs(course, p, t.top())
            &&& exists|axis: Option<usize>| #[trigger] advances(l, t, u, axis, asks)
            &&& if q < course.len() && in_cube(
                course[q],
                t.top().origin,
                extent(t.top().level as nat) as int,
            ) {
                u.stack@.len() == t.stack@.len() && u.top().covers(course[q])
            } else {
                u.stack@.len() < t.stack@.len()
            }
        },
        Request::Reach { lo, hi } => {
            &&& q == p
            &&& u == t
            &&& exists|reaches: bool|
                asks == #[trigger] decides(t, reaches) && (!reaches ==> forall|i: int|
                    p <= i < departs(course, p, t.top()) ==> !in_box(#[trigger] course[i], lo, hi))
        },
        _ => false,
    }
}

/// A descent driven along the course from its start.
pub open spec fn descent<L: NodeLayout>(
    l: &L,
    course: Seq<VoxelCoord>,
    run: Seq<(Traversal, Request, int)>,
) -> bool {
    &&& run.len() > 0
    &&& run[0].0.wf(l)
    &&& starts(l, run[0].0, run[0].1)
    &&& run[0].2 == 0
    &&& forall|i: int| 0 <= i < run.len() - 1 ==> drives(l, course, #[trigger] run[i], run[i + 1])
}

/// Each frame is the child of the one before at its current cell, from the root
/// on.
spec fn nested<L: NodeLayout>(l: &L, stack: Seq<Frame>) -> bool {
    &&& stack.len() > 0 ==> stack[0].level == l.grid().levels() + 1 && stack[0].origin == (
    VoxelCoord { x: 0, y: 0, z: 0 })
    &&& forall|i: int|
        0 < i < stack.len() ==> (#[trigger] stack[i]).origin == stack[i - 1].here()
            && stack[i].level == stack[i - 1].level - 1
}

/// Nothing stored before place `p` of the course.
spec fn clear<L: NodeLayout>(l: &L, course: Seq<VoxelCoord>, p: int) -> bool {
    forall|j: int| 0 <= j < p ==> !stores(l, #[trigger] course[j])
}

/// What holds of a descent at place `p` of the course.
spec fn on_course<L: NodeLayout>(
    l: &L,
    course: Seq<VoxelCoord>,
    m: (Traversal, Request, int),
) -> bool {
    let (t, r, p) = m;
    &&& t.wf(l)
    &&& nested(l, t.stack@)
    &&& 0 <= p <= course.len()
    &&& clear(l, course, p)
    &&& match r {
        Request::Enter { origin, dim, cell_size } => p < course.len(),
        Request::Reach { lo, hi } => {
            &&& p < course.len()
            &&& t.stack@.len() > 0
            &&& forall|v: VoxelCoord|
                t.top().covers(v) && #[trigger] stores(l, v) ==> in_box(v, lo, hi)
        },
        Request::Advance => t.stack@.len() > 0 && clear(
            l,
            course,
            departs(course, p, t.top()),
        ),
        Request::Hit(v) => p < course.len() && v == course[p] && stores(l, v),
        Request::Miss => clear(l, course, course.len() as int),
    }
}

/// Up to where it departs, the course is in the cell.
proof fn lemma_departs(course: Seq<VoxelCoord>, p: int, f: Frame)
    requires
        0 <= p <= course.len(),
    ensures
        p <= departs(course, p, f) <= course.len(),
        forall|i: int| p <= i < departs(course, p, f) ==> f.covers(#[trigger] course[i]),
        departs(course, p, f) < course.len() ==> !f.covers(course[departs(course, p, f)]),
    decreases course.len() - p,
{
    if p < course.len() && f.covers(course[p]) {
        lemma_departs(course, p + 1, f);
    }
}

/// A cell just examined, where the course is, leaves the descent on course.
proof fn lemma_examined<L: NodeLayout>(
    l: &L,
    course: Seq<VoxelCoord>,
    t: Traversal,
    r: Request,
    p: int,
)
    requires
        t.wf(l),
        nested(l, t.stack@),
        t.stack@.len() > 0,
        0 <= p < course.len(),
        clear(l, course, p),
        t.top().covers(course[p]),
        answers_cell(l, t.top(), r),
    ensures
        on_course(l, course, (t, r, p)),
{
    let f = t.top();
    assert(t.stack@[t.stack@.len() - 1].of(l));
    lemma_departs(course, p, f);
    if r is Hit {
        assert(pow4(0) == 1);
    }
    if r == Request::Advance {
        assert forall|j: int| 0 <= j < departs(course, p, f) implies !stores(
            l,
            #[trigger] course[j],
        ) by {
            if j >= p && stores(l, course[j]) {
                law_skip_is_safe(l, f, course[j], course[j], course[j]);
            }
        }
    }
    if let Request::Reach { lo, hi } = r {
        assert forall|v: VoxelCoord| f.covers(v) && #[trigger] stores(l, v) implies in_box(
            v,
            lo,
            hi,
        ) by {
            law_skip_is_safe(l, f, lo, hi, v);
        }
    }
}

/// One faithful answer keeps the descent on course.
proof fn lemma_driven<L: NodeLayout>(
    l: &L,
    course: Seq<VoxelCoord>,
    a: (Traversal, Request, int),
    b: (Traversal, Request, int),
)
    requires
        crosses(course, l.grid()),
        on_course(l, course, a),
        drives(l, course, a, b),
    ensures
        on_course(l, course, b),
{
    let (t, asked, p) = a;
    let (u, asks, q) = b;
    match asked {
        Request::Enter { origin, dim, cell_size } => {
            let (cell, dir) = choose|cell: [u32; 3], dir: [i8; 3]| #[trigger]
                opens(l, t, u, cell, dir, asks);
            assert forall|i: int| 0 < i < u.stack@.len() implies (#[trigger] u.stack@[i]).origin
                == u.stack@[i - 1].here() && u.stack@[i].level == u.stack@[i - 1].level - 1 by {
                assert(u.stack@.drop_last()[i - 1] == u.stack@[i - 1]);
                if i < t.stack@.len() {
                    assert(u.stack@.drop_last()[i] == u.stack@[i]);
                }
            }
            if t.stack@.len() > 0 {
                assert(u.stack@.drop_last()[0] == u.stack@[0]);
            }
            lemma_examined(l, course, u, asks, p);
        },
        Request::Advance => {
            let axis = choose|axis: Option<usize>| #[trigger] advances(l, t, u, axis, asks);
            lemma_departs(course, p, t.top());
            lemma_advanced(l, course, a, b, axis);
        },
        Request::Reach { lo, hi } => {
            let reaches = choose|reaches: bool|
                asks == #[trigger] decides(t, reaches) && (!reaches ==> forall|i: int|
                    p <= i < departs(course, p, t.top()) ==> !in_box(#[trigger] course[i], lo, hi));
            lemma_departs(course, p, t.top());
        },
        _ => {},
    }
}

proof fn lemma_advanced<L: NodeLayout>(
    l: &L,
    course: Seq<VoxelCoord>,
    a: (Traversal, Request, int),
    b: (Traversal, Request, int),
    axis: Option<usize>,
)
    requires
        crosses(course, l.grid()),
        on_course(l, course, a),
        drives(l, course, a, b),
        a.1 == Request::Advance,
        advances(l, a.0, b.0, axis, b.1),
    ensures
        on_course(l, course, b),
{
    let (t, asked, p) = a;
    let (u, asks, q) = b;
    let n = t.stack@.len() as int;
    lemma_departs(course, p, t.top());
    if u.stack@.len() == n {
        assert forall|i: int| 0 < i < n implies (#[trigger] u.stack@[i]).origin == u.stack@[i
            - 1].here() && u.stack@[i].level == u.stack@[i - 1].level - 1 by {
            assert(u.stack@.drop_last()[i - 1] == u.stack@[i - 1]);
            assert(t.stack@.drop_last()[i - 1] == t.stack@[i - 1]);
            assert(t.stack@[i].origin == t.stack@[i - 1].here());
            if i < n - 1 {
                assert(u.stack@.drop_last()[i] == u.stack@[i]);
                assert(t.stack@.drop_last()[i] == t.stack@[i]);
            }
        }
        if n > 1 {
            assert(u.stack@.drop_last()[0] == u.stack@[0]);
            assert(t.stack@.drop_last()[0] == t.stack@[0]);
        }
        lemma_examined(l, course, u, asks, q);
    } else {
        assert forall|i: int| 0 <= i < n - 1 implies u.stack@[i] == t.stack@[i] by {}
        if n == 1 {
            assert(t.top() == t.stack@[0]);
            if q < course.len() {
                assert(course[q].within(l.grid()));
                assert(extent(t.top().level as nat) == l.grid().side());
            }
        } else {
            let f = t.stack@[n - 1];
            let g = t.stack@[n - 2];
            assert(f.origin == g.here() && f.level == g.level - 1);
            assert(t.stack@[n - 1].of(l));
            assert(extent(f.level as nat) == step_size(g.level as nat));
            assert(u.top() == g);
            assert(departs(course, q, g) == q);
        }
    }
}

proof fn lemma_on_course<L: NodeLayout>(
    l: &L,
    course: Seq<VoxelCoord>,
    run: Seq<(Traversal, Request, int)>,
    i: int,
)
    requires
        crosses(course, l.grid()),
        descent(l, course, run),
        0 <= i < run.len(),
    ensures
        on_course(l, course, run[i]),
    decreases i,
{
    if i == 0 {
        if l.spec_root() == Cell::Empty {
            assert forall|j: int| 0 <= j < course.len() implies !stores(
                l,
                #[trigger] course[j],
            ) by {}
        }
    } else {
        lemma_on_course(l, course, run, i - 1);
        assert(drives(l, course, run[i - 1], run[i - 1 + 1]));
        lemma_driven(l, course, run[i - 1], run[i]);
    }
}

/// A hierarchical march, driven faithfully along a course, ends with the first
/// stored voxel of the course: it skips none, and finds none that is not there.
pub proof fn law_descent_meets_first<L: NodeLayout>(
    l: &L,
    course: Seq<VoxelCoord>,
    run: Seq<(Traversal, Request, int)>,
)
    requires
        crosses(course, l.grid()),
        descent(l, course, run),
        run.last().1 is Hit || run.last().1 is Miss,
    ensures
        meets(course, |v: VoxelCoord| stores(l, v), run.last().1),
{
    lemma_on_course(l, course, run, run.len() - 1);
}

/// A voxel-by-voxel march driven along the course: it begins where the course
/// does, each step goes to the course's next voxel, and the last leaves the grid.
pub open spec fn reference<F: OccupancyField>(
    field: &F,
    course: Seq<VoxelCoord>,
    run: Seq<(FieldMarch, Request)>,
) -> bool {
    &&& 0 < run.len() <= course.len() + 1
    &&& run[0].0.voxel() == course[0]
    &&& run[0].0.answers(field, run[0].1)
    &&& forall|i: int|
        0 <= i < run.len() - 1 ==> (#[trigger] run[i]).1 == Request::Advance && (exists|
            axis: Option<usize>,
        | #[trigger]
            run[i].0.steps_to(run[i + 1].0, field, axis, run[i + 1].1)) && if i + 1 < course.len() {
            run[i + 1].0.answers(field, run[i + 1].1) && run[i + 1].0.voxel() == course[i + 1]
        } else {
            run[i + 1].1 == Request::Miss
        }
}

proof fn lemma_reference<F: OccupancyField>(
    field: &F,
    course: Seq<VoxelCoord>,
    run: Seq<(FieldMarch, Request)>,
    i: int,
)
    requires
        course.len() > 0,
        reference(field, course, run),
        0 <= i < run.len(),
    ensures
        forall|j: int| 0 <= j < i ==> !field.occ(#[trigger] course[j]),
        i < course.len() ==> run[i].0.voxel() == course[i] && run[i].0.answers(field, run[i].1),
        i == course.len() ==> run[i].1 == Request::Miss,
    decreases i,
{
    if i > 0 {
        lemma_reference(field, course, run, i - 1);
        assert(run[i - 1].1 == Request::Advance);
        assert(!field.occ(course[i - 1]));
    }
}

/// The voxel-by-voxel march ends with the first occupied voxel of the course.
pub proof fn law_reference_meets_first<F: OccupancyField>(
    field: &F,
    course: Seq<VoxelCoord>,
    run: Seq<(FieldMarch, Request)>,
)
    requires
        crosses(course, field.grid()),
        reference(field, course, run),
        run.last().1 is Hit || run.last().1 is Miss,
    ensures
        meets(course, |v: VoxelCoord| field.occ(v), run.last().1),
{
    lemma_reference(field, course, run, run.len() - 1);
}

/// The first place from `p` on where the course is outside brick `b`.
pub open spec fn leaves_brick(course: Seq<VoxelCoord>, p: int, b: VoxelCoord) -> int
    decreases course.len() - p,
{
    if p >= course.len() || !in_brick(course[p], b) {
        p
    } else {
        leaves_brick(course, p + 1, b)
    }
}

/// A driver of a two-level march takes it from `a` to `b`: the state, what it asks
/// for, and the place reached on the course.
pub open spec fn drives_bricks(
    g: &BrickGrid,
    course: Seq<VoxelCoord>,
    a: (BrickMarch, Request, int),
    b: (BrickMarch, Request, int),
) -> bool {
    let (m, asked, p) = a;
    let (n, asks, q) = b;
    match asked {
        Request::Enter { origin, dim, cell_size } => {
            &&& q == p
            &&& exists|cell: [u32; 3], dir: [i8; 3]| #[trigger]
                m.enters_to(n, g, cell, dir, asks)
            &&& n.voxel() == course[p]
        },
        Request::Advance => {
            &&& exists|axis: Option<usize>| #[trigger] m.steps_to(n, g, axis, asks)
            &&& if m.voxels is Some {
                &&& q == p + 1
                &&& if q < course.len() && in_brick(course[q], m.brick()) {
                    n.voxels is Some && n.voxel() == course[q] && n.answers_voxel(g, asks)
                } else {
                    n.voxels is None
                }
            } else {
                &&& q == leaves_brick(course, p, m.brick())
                &&& if q < course.len() {
                    in_brick(course[q], n.brick()) && n.answers_brick(g, asks)
                } else {
                    asks == Request::Miss
                }
            }
        },
        _ => false,
    }
}

/// A two-level march driven along the course from the brick it begins in.
pub open spec fn two_level(
    g: &BrickGrid,
    course: Seq<VoxelCoord>,
    run: Seq<(BrickMarch, Request, int)>,
) -> bool {
    &&& run.len() > 0
    &&& run[0].0.voxels is None
    &&& in_brick(course[0], run[0].0.brick())
    &&& run[0].0.answers_brick(g, run[0].1)
    &&& run[0].2 == 0
    &&& forall|i: int|
        0 <= i < run.len() - 1 ==> drives_bricks(g, course, #[trigger] run[i], run[i + 1])
}

/// What holds of a two-level march at place `p` of the course.
spec fn on_brick_course(
    g: &BrickGrid,
    course: Seq<VoxelCoord>,
    a: (BrickMarch, Request, int),
) -> bool {
    let (m, r, p) = a;
    &&& 0 <= p <= course.len()
    &&& forall|j: int| 0 <= j < p ==> !g.occ(#[trigger] course[j])
    &&& match r {
        Request::Enter { origin, dim, cell_size } => p < course.len() && m.voxels is None,
        Request::Advance => if m.voxels is Some {
            p < course.len() && !g.occ(course[p])
        } else {
            forall|j: int|
                0 <= j < leaves_brick(course, p, m.brick()) ==> !g.occ(#[trigger] course[j])
        },
        Request::Hit(v) => p < course.len() && v == course[p] && g.occ(v),
        Request::Miss => forall|j: int| 0 <= j < course.len() ==> !g.occ(#[trigger] course[j]),
        _ => false,
    }
}

proof fn lemma_leaves_brick(course: Seq<VoxelCoord>, p: int, b: VoxelCoord)
    requires
        0 <= p <= course.len(),
    ensures
        p <= leaves_brick(course, p, b) <= course.len(),
        forall|i: int| p <= i < leaves_brick(course, p, b) ==> in_brick(#[trigger] course[i], b),
    decreases course.len() - p,
{
    if p < course.len() && in_brick(course[p], b) {
        lemma_leaves_brick(course, p + 1, b);
    }
}

/// A brick just examined, where the course is, leaves the march on course.
proof fn lemma_brick_examined(
    g: &BrickGrid,
    course: Seq<VoxelCoord>,
    m: BrickMarch,
    r: Request,
    p: int,
)
    requires
        m.voxels is None,
        0 <= p < course.len(),
        forall|j: int| 0 <= j < p ==> !g.occ(#[trigger] course[j]),
        m.answers_brick(g, r),
    ensures
        on_brick_course(g, course, (m, r, p)),
{
    if r == Request::Advance {
        lemma_leaves_brick(course, p, m.brick());
        assert forall|j: int| 0 <= j < leaves_brick(course, p, m.brick()) implies !g.occ(
            #[trigger] course[j],
        ) by {
            if j >= p {
                assert(in_brick(course[j], m.brick()));
            }
        }
    }
}

/// One faithful answer keeps the two-level march on course.
proof fn lemma_brick_driven(
    g: &BrickGrid,
    course: Seq<VoxelCoord>,
    a: (BrickMarch, Request, int),
    b: (BrickMarch, Request, int),
)
    requires
        course.len() > 0,
        on_brick_course(g, course, a),
        drives_bricks(g, course, a, b),
    ensures
        on_brick_course(g, course, b),
{
    let (m, asked, p) = a;
    let (n, asks, q) = b;
    lemma_leaves_brick(course, p, m.brick());
    if asked == Request::Advance {
        let axis = choose|axis: Option<usize>| #[trigger] m.steps_to(n, g, axis, asks);
        if m.voxels is None && q < course.len() {
            lemma_brick_examined(g, course, n, asks, q);
        }
        if m.voxels is Some && n.voxels is None {
            assert(leaves_brick(course, q, n.brick()) == q);
        }
    }
}

proof fn lemma_on_brick_course(
    g: &BrickGrid,
    course: Seq<VoxelCoord>,
    run: Seq<(BrickMarch, Request, int)>,
    i: int,
)
    requires
        course.len() > 0,
        two_level(g, course, run),
        0 <= i < run.len(),
    ensures
        on_brick_course(g, course, run[i]),
    decreases i,
{
    if i == 0 {
        lemma_brick_examined(g, course, run[0].0, run[0].1, 0);
    } else {
        lemma_on_brick_course(g, course, run, i - 1);
        assert(drives_bricks(g, course, run[i - 1], run[i - 1 + 1]));
        lemma_brick_driven(g, course, run[i - 1], run[i]);
    }
}

/// The two-level march ends with the first occupied voxel of the course: the
/// bricks it skips hold none.
pub proof fn law_two_level_meets_first(
    g: &BrickGrid,
    course: Seq<VoxelCoord>,
    run: Seq<(BrickMarch, Request, int)>,
)
    requires
        crosses(course, g.spec_resolution()),
        two_level(g, course, run),
        run.last().1 is Hit || run.last().1 is Miss,
    ensures
        meets(course, |v: VoxelCoord| g.occ(v), run.last().1),
{
    lemma_on_brick_course(g, course, run, run.len() - 1);
}

/// Marches that end right, over voxels that agree along the course, end the same
/// way.
proof fn lemma_same_ending(
    course: Seq<VoxelCoord>,
    held: spec_fn(VoxelCoord) -> bool,
    kept: spec_fn(VoxelCoord) -> bool,
    r: Request,
    s: Request,
)
    requires
        meets(course, held, r),
        meets(course, kept, s),
        forall|j: int| 0 <= j < course.len() ==> held(#[trigger] course[j]) == kept(course[j]),
    ensures
        r == s,
{
    assert(meets(course, held, s)) by {
        if let Request::Hit(v) = s {
            let p = choose|p: int|
                0 <= p < course.len() && #[trigger] course[p] == v && forall|j: int|
                    0 <= j < p ==> !kept(#[trigger] course[j]);
            assert(held(course[p]));
        }
    }
    law_ending_unique(course, held, r, s);
}

/// The hierarchical march and the voxel-by-voxel march agree: over a layout that
/// stores exactly a field's voxels, along the same course, both end the same
/// way.
pub proof fn law_descent_matches_reference<L: NodeLayout, F: OccupancyField>(
    l: &L,
    field: &F,
    course: Seq<VoxelCoord>,
    run: Seq<(Traversal, Request, int)>,
    walk: Seq<(FieldMarch, Request)>,
)
    requires
        l.grid() == field.grid(),
        crosses(course, l.grid()),
        forall|c: VoxelCoord| c.within(l.grid()) ==> #[trigger] stores(l, c) == field.occ(c),
        descent(l, course, run),
        reference(field, course, walk),
        run.last().1 is Hit || run.last().1 is Miss,
        walk.last().1 is Hit || walk.last().1 is Miss,
    ensures
        run.last().1 == walk.last().1,
{
    let held = |v: VoxelCoord| stores(l, v);
    let kept = |v: VoxelCoord| field.occ(v);
    law_descent_meets_first(l, course, run);
    law_reference_meets_first(field, course, walk);
    assert forall|j: int| 0 <= j < course.len() implies held(#[trigger] course[j]) == kept(
        course[j],
    ) by {
        assert(course[j].within(l.grid()));
    }
    lemma_same_ending(course, held, kept, run.last().1, walk.last().1);
}

/// The two-level march and the voxel-by-voxel march agree: over a grid of bricks
/// that holds exactly a field's voxels, along the same course, both end the same
/// way.
pub proof fn law_two_level_matches_reference<F: OccupancyField>(
    g: &BrickGrid,
    field: &F,
    course: Seq<VoxelCoord>,
    run: Seq<(BrickMarch, Request, int)>,
    walk: Seq<(FieldMarch, Request)>,
)
    requires
        g.spec_resolution() == field.grid(),
        crosses(course, field.grid()),
        forall|c: VoxelCoord| c.within(field.grid()) ==> #[trigger] g.occ(c) == field.occ(c),
        two_level(g, course, run),
        reference(field, course, walk),
        run.last().1 is Hit || run.last().1 is Miss,
        walk.last().1 is Hit || walk.last().1 is Miss,
    ensures
        run.last().1 == walk.last().1,
{
    let held = |v: VoxelCoord| g.occ(v);
    let kept = |v: VoxelCoord| field.occ(v);
    law_two_level_meets_first(g, course, run);
    law_reference_meets_first(field, course, walk);
    assert forall|j: int| 0 <= j < course.len() implies held(#[trigger] course[j]) == kept(
        course[j],
    ) by {
        assert(course[j].within(field.grid()));
    }
    lemma_same_ending(course, held, kept, run.last().1, walk.last().1);
}

/// The same descent over two layouts of the same voxels ends the same way: the
/// layout does not change what a ray meets.
pub proof fn law_layout_does_not_matter<A: NodeLayout, B: NodeLayout>(
    a: &A,
    b: &B,
    course: Seq<VoxelCoord>,
    run_a: Seq<(Traversal, Request, int)>,
    run_b: Seq<(Traversal, Request, int)>,
)
    requires
        a.grid() == b.grid(),
        crosses(course, a.grid()),
        forall|c: VoxelCoord| #[trigger] stores(a, c) == stores(b, c),
        descent(a, course, run_a),
        descent(b, course, run_b),
        run_a.last().1 is Hit || run_a.last().1 is Miss,
        run_b.last().1 is Hit || run_b.last().1 is Miss,
    ensures
        run_a.last().1 == run_b.last().1,
{
    law_descent_meets_first(a, course, run_a);
    law_descent_meets_first(b, course, run_b);
    lemma_same_ending(
        course,
        |v: VoxelCoord| stores(a, v),
        |v: VoxelCoord| stores(b, v),
        run_a.last().1,
        run_b.last().1,
    );
}

/// A driver that knows no more than what it is asked takes a descent from `a` to
/// `b`: it answers a box to enter with the cell of the box, by the request's own
/// origin and cell size, that holds the course's voxel. It answers the other
/// requests as any faithful driver does.
pub open spec fn obeys<L: NodeLayout>(
    l: &L,
    course: Seq<VoxelCoord>,
    a: (Traversal, Request, int),
    b: (Traversal, Request, int),
) -> bool {
    match a.1 {
        Request::Enter { origin, dim, cell_size } => {
            let v = course[a.2];
            &&& b.0.wf(l)
            &&& b.2 == a.2
            &&& exists|cell: [u32; 3], dir: [i8; 3]| #[trigger]
                opens(l, a.0, b.0, cell, dir, b.1) && cell[0] == (v.x - origin.x) / (
                cell_size as int) && cell[1] == (v.y - origin.y) / (cell_size as int) && cell[2]
                    == (v.z - origin.z) / (cell_size as int)
        },
        _ => drives(l, course, a, b),
    }
}

/// A descent from its start under a driver that goes by the requests.
pub open spec fn obedient<L: NodeLayout>(
    l: &L,
    course: Seq<VoxelCoord>,
    run: Seq<(Traversal, Request, int)>,
) -> bool {
    &&& run.len() > 0
    &&& run[0].0.wf(l)
    &&& starts(l, run[0].0, run[0].1)
    &&& run[0].2 == 0
    &&& forall|i: int| 0 <= i < run.len() - 1 ==> obeys(l, course, #[trigger] run[i], run[i + 1])
}

/// A box asked for is the pending child's, and the course is in it.
spec fn placed<L: NodeLayout>(
    l: &L,
    course: Seq<VoxelCoord>,
    m: (Traversal, Request, int),
) -> bool {
    let (t, r, p) = m;
    r is Enter || r is Reach ==> {
        &&& asks(l, t, r)
        &&& t.stack@.len() > 0 ==> t.top().covers(course[p]) && (t.top().level >= 2 ==> t.pending
            == spec_child_here(l, t.top()))
    }
}

/// A driver that goes by the requests is faithful, and leaves the next box in
/// its place.
proof fn lemma_obeyed<L: NodeLayout>(
    l: &L,
    course: Seq<VoxelCoord>,
    a: (Traversal, Request, int),
    b: (Traversal, Request, int),
)
    requires
        crosses(course, l.grid()),
        on_course(l, course, a),
        placed(l, course, a),
        obeys(l, course, a, b),
    ensures
        drives(l, course, a, b),
        placed(l, course, b),
{
    let (t, asked, p) = a;
    let (u, next, q) = b;
    match asked {
        Request::Enter { origin, dim, cell_size } => {
            let v = course[p];
            let (cell, dir) = choose|cell: [u32; 3], dir: [i8; 3]| #[trigger]
                opens(l, t, u, cell, dir, next) && cell[0] == (v.x - origin.x) / (cell_size as int)
                    && cell[1] == (v.y - origin.y) / (cell_size as int) && cell[2] == (v.z
                    - origin.z) / (cell_size as int);
            lemma_box_of_request(l, t, origin, dim, cell_size);
            assert(v.within(l.grid()));
            assert(in_cube(v, origin, dim * cell_size));
            law_entered_box_is_walked(l, t, u, origin, dim, cell_size, cell, dir, next, v);
        },
        Request::Advance => {
            let axis = choose|axis: Option<usize>| #[trigger] advances(l, t, u, axis, next);
            lemma_departs(course, p, t.top());
        },
        Request::Reach { lo, hi } => {
            let reaches = choose|reaches: bool|
                next == #[trigger] decides(t, reaches) && (!reaches ==> forall|i: int|
                    p <= i < departs(course, p, t.top()) ==> !in_box(#[trigger] course[i], lo, hi));
            assert(answers_cell(l, t.top(), asked));
            assert(t.can_enter(l));
            assert(asks(l, t, next));
        },
        _ => {},
    }
}

proof fn lemma_obedient<L: NodeLayout>(
    l: &L,
    course: Seq<VoxelCoord>,
    run: Seq<(Traversal, Request, int)>,
    i: int,
)
    requires
        crosses(course, l.grid()),
        obedient(l, course, run),
        0 <= i < run.len(),
    ensures
        on_course(l, course, run[i]),
        placed(l, course, run[i]),
        i > 0 ==> drives(l, course, run[i - 1], run[i]),
    decreases i,
{
    if i == 0 {
        if l.spec_root() == Cell::Empty {
            assert forall|j: int| 0 <= j < course.len() implies !stores(
                l,
                #[trigger] course[j],
            ) by {}
        }
    } else {
        lemma_obedient(l, course, run, i - 1);
        assert(obeys(l, course, run[i - 1], run[i - 1 + 1]));
        lemma_obeyed(l, course, run[i - 1], run[i]);
        lemma_driven(l, course, run[i - 1], run[i]);
    }
}

/// The requests say all that a driver needs: one that enters each box by the
/// origin and the cell size it was given, and knows nothing of the machine's
/// frames, is faithful, and its descent ends with the first stored voxel of the
/// course.
pub proof fn law_requests_suffice<L: NodeLayout>(
    l: &L,
    course: Seq<VoxelCoord>,
    run: Seq<(Traversal, Request, int)>,
)
    requires
        crosses(course, l.grid()),
        obedient(l, course, run),
    ensures
        descent(l, course, run),
        run.last().1 is Hit || run.last().1 is Miss ==> meets(
            course,
            |v: VoxelCoord| stores(l, v),
            run.last().1,
        ),
{
    assert forall|i: int| 0 <= i < run.len() - 1 implies drives(
        l,
        course,
        #[trigger] run[i],
        run[i + 1],
    ) by {
        lemma_obedient(l, course, run, i + 1);
    }
    if run.last().1 is Hit || run.last().1 is Miss {
        law_descent_meets_first(l, course, run);
    }
}

/// How many of a run's first `n` answers opened a frame.
pub open spec fn opened(run: Seq<(Traversal, Request, int)>, n: int) -> nat
    decreases n,
{
    if n <= 0 {
        0
    } else {
        opened(run, n - 1) + if run[n].0.stack@.len() > run[n - 1].0.stack@.len() {
            1nat
        } else {
            0
        }
    }
}

/// How many of a run's first `n` answers moved a walk.
pub open spec fn moved(run: Seq<(Traversal, Request, int)>, n: int) -> nat
    decreases n,
{
    if n <= 0 {
        0
    } else {
        moved(run, n - 1) + if run[n - 1].1 == Request::Advance && run[n].0.stack@.len()
            == run[n - 1].0.stack@.len() {
            1nat
        } else {
            0
        }
    }
}

/// Along a descent the counters say what happened: a frame was opened as often
/// as counted, and a cell was examined for each frame opened and for each step
/// that moved a walk, whatever the level it was at. There is a walk wherever one
/// is asked to advance.
pub proof fn law_counters_count<L: NodeLayout>(
    l: &L,
    course: Seq<VoxelCoord>,
    run: Seq<(Traversal, Request, int)>,
    n: int,
)
    requires
        descent(l, course, run),
        0 <= n < run.len(),
        forall|i: int| 0 <= i < n ==> (#[trigger] run[i]).0.has_room(),
    ensures
        run[n].0.stats.descents == opened(run, n),
        run[n].0.stats.cell_steps == opened(run, n) + moved(run, n),
        run[n].1 is Advance || run[n].1 is Reach ==> run[n].0.stack@.len() > 0,
    decreases n,
{
    if n > 0 {
        law_counters_count(l, course, run, n - 1);
        assert(run[n - 1].0.has_room());
        assert(drives(l, course, run[n - 1], run[n - 1 + 1]));
        lemma_counted(l, course, run[n - 1], run[n]);
    }
}

/// One faithful answer, and what it adds to the counters.
proof fn lemma_counted<L: NodeLayout>(
    l: &L,
    course: Seq<VoxelCoord>,
    a: (Traversal, Request, int),
    b: (Traversal, Request, int),
)
    requires
        drives(l, course, a, b),
        a.0.has_room(),
        a.1 is Advance || a.1 is Reach ==> a.0.stack@.len() > 0,
    ensures
        b.1 is Advance || b.1 is Reach ==> b.0.stack@.len() > 0,
        b.0.stats.descents == a.0.stats.descents + if b.0.stack@.len() > a.0.stack@.len() {
            1int
        } else {
            0
        },
        b.0.stats.cell_steps == a.0.stats.cell_steps + if b.0.stack@.len() > a.0.stack@.len() || (
        a.1 == Request::Advance && b.0.stack@.len() == a.0.stack@.len()) {
            1int
        } else {
            0
        },
{
    let (t, asked, p) = a;
    let (u, next, q) = b;
    if asked is Enter {
        let (cell, dir) = choose|cell: [u32; 3], dir: [i8; 3]| #[trigger]
            opens(l, t, u, cell, dir, next);
    } else if asked == Request::Advance {
        let axis = choose|axis: Option<usize>| #[trigger] advances(l, t, u, axis, next);
    }
}

} // verus!
