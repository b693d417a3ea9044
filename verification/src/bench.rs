//! What the edit benchmarks count, and the in-brick edits they time.

use crate::brush::Stamp;
use crate::coord::VoxelCoord;
use crate::layout::brick_code;
use crate::measure::{mix64, rng_coord};
use crate::sparse::{Edit, SparseTree};
use vstd::prelude::*;

verus! {

/// Edits by class.
#[derive(Debug, Clone, Copy, PartialEq, Eq, Structural)]
pub struct EditTally {
    /// In-place leaf edits.
    pub leaf: u64,
    /// Topology edits.
    pub topology: u64,
}

impl Default for EditTally {
    fn default() -> (r: Self)
        ensures
            r == (EditTally { leaf: 0, topology: 0 }),
    {
        EditTally { leaf: 0, topology: 0 }
    }
}

impl EditTally {
    /// The tally with one more edit.
    pub open spec fn recorded(self, edit: Edit) -> EditTally {
        match edit {
            Edit::Leaf(_) => EditTally { leaf: (self.leaf + 1) as u64, ..self },
            Edit::Topology => EditTally { topology: (self.topology + 1) as u64, ..self },
            _ => self,
        }
    }

    /// Counts one edit. Edits that changed nothing are not counted.
    pub fn record(&mut self, edit: Edit)
        requires
            old(self).leaf < u64::MAX,
            old(self).topology < u64::MAX,
        ensures
            *final(self) == old(self).recorded(edit),
            final(self).leaf == old(self).leaf + if edit is Leaf {
                1int
            } else {
                0
            },
            final(self).topology == old(self).topology + if edit == Edit::Topology {
                1int
            } else {
                0
            },
    {
        match edit {
            Edit::Leaf(_) => {
                self.leaf = self.leaf + 1;
            },
            Edit::Topology => {
                self.topology = self.topology + 1;
            },
            _ => {},
        }
    }
}

/// Totals over a series of brush stamps.
#[derive(Debug, Clone, Copy, PartialEq, Eq, Structural)]
pub struct StampTally {
    /// Voxels changed.
    pub voxels_changed: u64,
    /// Distinct leaves touched, summed over in-place stamps only: a stamp that
    /// changes topology renumbers leaf indices.
    pub leaves_touched: u64,
    /// Stamps that changed no topology.
    pub inplace_stamps: u32,
    /// Stamps that changed topology.
    pub topo_stamps: u32,
}

impl Default for StampTally {
    fn default() -> (r: Self)
        ensures
            r == (StampTally {
                voxels_changed: 0,
                leaves_touched: 0,
                inplace_stamps: 0,
                topo_stamps: 0,
            }),
    {
        StampTally { voxels_changed: 0, leaves_touched: 0, inplace_stamps: 0, topo_stamps: 0 }
    }
}

impl StampTally {
    /// The tally with one more stamp.
    pub open spec fn recorded(self, stamp: Stamp) -> StampTally {
        let seen = StampTally {
            voxels_changed: (self.voxels_changed + stamp.changed) as u64,
            ..self
        };
        if stamp.topology {
            StampTally { topo_stamps: (self.topo_stamps + 1) as u32, ..seen }
        } else {
            StampTally {
                inplace_stamps: (self.inplace_stamps + 1) as u32,
                leaves_touched: (self.leaves_touched + stamp.touched@.len()) as u64,
                ..seen
            }
        }
    }

    /// Counts one stamp.
    pub fn record(&mut self, stamp: &Stamp)
        requires
            old(self).voxels_changed + stamp.changed <= u64::MAX,
            old(self).leaves_touched + stamp.touched@.len() <= u64::MAX,
            old(self).inplace_stamps < u32::MAX,
            old(self).topo_stamps < u32::MAX,
        ensures
            *final(self) == old(self).recorded(*stamp),
            final(self).voxels_changed == old(self).voxels_changed + stamp.changed,
            stamp.topology ==> final(self).topo_stamps == old(self).topo_stamps + 1 && final(self).inplace_stamps == old(self).inplace_stamps && final(self).leaves_touched == old(self).leaves_touched,
            !stamp.topology ==> final(self).topo_stamps == old(self).topo_stamps && final(self).inplace_stamps == old(self).inplace_stamps + 1 && final(self).leaves_touched == old(self).leaves_touched + stamp.touched@.len(),
    {
        self.voxels_changed = self.voxels_changed + stamp.changed;
        if stamp.topology {
            self.topo_stamps = self.topo_stamps + 1;
        } else {
            self.leaves_touched = self.leaves_touched + stamp.touched.len() as u64;
            self.inplace_stamps = self.inplace_stamps + 1;
        }
    }
}

/// Most anchors [`sample_anchors`] takes.
pub const MAX_ANCHORS: usize = 256;

/// Most voxels [`sample_anchors`] draws.
pub const MAX_TRIES: u32 = 100_000;

/// The generator's state after `j` more steps.
pub open spec fn advanced(state: u64, j: nat) -> u64
    decreases j,
{
    if j == 0 {
        state
    } else {
        advanced(state, (j - 1) as nat).wrapping_add(0x9E37_79B9_7F4A_7C15)
    }
}

/// The coordinate in `0..n` that the generator's `j`th step from `state` gives.
pub open spec fn drawn(state: u64, n: u32, j: nat) -> u32 {
    (mix64(advanced(state, j)) % (n as u64)) as u32
}

/// The `i`th voxel drawn from `state` (from 0 on): three steps each, x first.
pub open spec fn drawn_voxel(state: u64, n: u32, i: nat) -> VoxelCoord {
    VoxelCoord {
        x: drawn(state, n, 3 * i + 1),
        y: drawn(state, n, 3 * i + 2),
        z: drawn(state, n, 3 * i + 3),
    }
}

/// The occupied ones among the first `tries` voxels drawn, in order.
pub open spec fn anchors_among(t: SparseTree, n: u32, state: u64, tries: nat) -> Seq<VoxelCoord>
    decreases tries,
{
    if tries == 0 {
        Seq::empty()
    } else {
        let before = anchors_among(t, n, state, (tries - 1) as nat);
        let c = drawn_voxel(state, n, (tries - 1) as nat);
        if t.occupied(c) {
            before.push(c)
        } else {
            before
        }
    }
}

/// Drawing stops after `tries` voxels: as soon as there are enough anchors, and at
/// the latest at the limit.
pub open spec fn stops_after(t: SparseTree, n: u32, state: u64, tries: nat) -> bool {
    &&& tries <= MAX_TRIES
    &&& tries == MAX_TRIES || anchors_among(t, n, state, tries).len() == MAX_ANCHORS
    &&& forall|k: nat|
        k < tries ==> (#[trigger] anchors_among(t, n, state, k)).len() < MAX_ANCHORS
}

/// A random voxel of an `n³` grid.
pub fn random_voxel(state: &mut u64, n: u32) -> (r: VoxelCoord)
    requires
        n > 0,
    ensures
        r == drawn_voxel(*old(state), n, 0),
        *final(state) == advanced(*old(state), 3),
        r.x < n && r.y < n && r.z < n,
{
    proof {
        reveal_with_fuel(advanced, 4);
    }
    let x: u32 = rng_coord(state, n);
    let y: u32 = rng_coord(state, n);
    let z: u32 = rng_coord(state, n);
    VoxelCoord::new(x, y, z)
}

/// Steps add up.
proof fn lemma_advanced(state: u64, a: nat, b: nat)
    ensures
        advanced(advanced(state, a), b) == advanced(state, a + b),
    decreases b,
{
    if b > 0 {
        lemma_advanced(state, a, (b - 1) as nat);
    }
}

/// Drawing on from where `i` voxels were drawn.
proof fn lemma_drawn_on(state: u64, n: u32, i: nat)
    ensures
        drawn_voxel(advanced(state, 3 * i), n, 0) == drawn_voxel(state, n, i),
        advanced(advanced(state, 3 * i), 3) == advanced(state, 3 * (i + 1)),
{
    lemma_advanced(state, 3 * i, 1);
    lemma_advanced(state, 3 * i, 2);
    lemma_advanced(state, 3 * i, 3);
}

/// Draws random voxels of an `n³` grid and keeps the occupied ones, to anchor edits
/// in real bricks: at most [`MAX_ANCHORS`] of them, from at most [`MAX_TRIES`]
/// draws.
pub fn sample_anchors(tree: &SparseTree, n: u32, state: &mut u64) -> (r: Vec<VoxelCoord>)
    requires
        tree.wf(),
        n >= 1,
    ensures
        r@.len() <= MAX_ANCHORS,
        forall|i: int| 0 <= i < r@.len() ==> tree.occupied(#[trigger] r@[i]),
        exists|tries: nat| #[trigger]
            stops_after(*tree, n, *old(state), tries) && r@ == anchors_among(
                *tree,
                n,
                *old(state),
                tries,
            ) && *final(state) == advanced(*old(state), 3 * tries),
{
    let ghost start = *state;
    let mut anchors: Vec<VoxelCoord> = Vec::new();
    let mut tries: u32 = 0;
    while anchors.len() < MAX_ANCHORS && tries < MAX_TRIES
        invariant
            tree.wf(),
            n >= 1,
            tries <= MAX_TRIES,
            anchors@.len() <= MAX_ANCHORS,
            anchors@ == anchors_among(*tree, n, start, tries as nat),
            *state == advanced(start, 3 * tries as nat),
            forall|i: int| 0 <= i < anchors@.len() ==> tree.occupied(#[trigger] anchors@[i]),
            forall|k: nat|
                k < tries ==> (#[trigger] anchors_among(*tree, n, start, k)).len() < MAX_ANCHORS,
        decreases MAX_TRIES - tries,
    {
        proof {
            lemma_drawn_on(start, n, tries as nat);
        }
        let c: VoxelCoord = random_voxel(state, n);
        tries = tries + 1;
        if tree.is_occupied(c) {
            anchors.push(c);
        }
    }
    assert(stops_after(*tree, n, start, tries as nat));
    anchors
}

/// The neighbour of a voxel along x within its brick.
pub open spec fn spec_neighbour(c: VoxelCoord) -> VoxelCoord {
    VoxelCoord {
        x: if c.x % 2 == 0 {
            (c.x + 1) as u32
        } else {
            (c.x - 1) as u32
        },
        ..c
    }
}

/// The neighbour of a voxel along x within its brick: its low x bit flipped.
#[must_use]
pub fn neighbour(c: VoxelCoord) -> (r: VoxelCoord)
    ensures
        r == spec_neighbour(c),
{
    let x: u32 = c.x;
    assert(x % 2 == 0 ==> x ^ 1 == x + 1) by (bit_vector);
    assert(x % 2 == 1 ==> x ^ 1 == x - 1) by (bit_vector);
    VoxelCoord::new(c.x ^ 1, c.y, c.z)
}

/// Edit `i` of an in-place batch: which voxel to edit, and whether to set or clear
/// it. The anchors' neighbours are taken in turn, set on the first round, cleared on
/// the next, and so on, so that each really toggles.
#[must_use]
pub fn batch_edit(anchors: &[VoxelCoord], i: u32) -> (r: (VoxelCoord, bool))
    requires
        1 <= anchors@.len() <= u32::MAX,
    ensures
        r.0 == spec_neighbour(anchors@[i as int % anchors@.len() as int]),
        r.1 == (i as int / anchors@.len() as int % 2 == 0),
{
    let len: u32 = anchors.len() as u32;
    (neighbour(anchors[(i % len) as usize]), (i / len) % 2 == 0)
}

/// Editing the in-brick neighbour of an occupied voxel changes no topology: the
/// brick is stored, and stays non-empty.
pub proof fn law_neighbour_edit_in_place(t: SparseTree, c: VoxelCoord)
    requires
        t.wf(),
        t.occupied(c),
    ensures
        spec_neighbour(c) != c,
        spec_neighbour(c).within(t.resolution),
        brick_code(spec_neighbour(c)) == brick_code(c),
        t.has_brick(brick_code(spec_neighbour(c)) as int),
        t.shared(spec_neighbour(c)),
{
    let d = spec_neighbour(c);
    crate::resolution::lemma_pow4_increases(0, t.resolution.levels() as nat);
    assert(t.resolution.side() % 8 == 0);
    assert(d.x / 8 == c.x / 8);
    assert(c != d && brick_code(c) == brick_code(d) && t.occupied(c));
}

/// Each edit is counted once, under its class, and only where it changed
/// something: the order does not matter.
pub proof fn law_edits_counted_once(t: EditTally, a: Edit, b: Edit)
    requires
        t.leaf + 2 <= u64::MAX,
        t.topology + 2 <= u64::MAX,
    ensures
        t.recorded(a).recorded(b) == t.recorded(b).recorded(a),
        a is Leaf ==> t.recorded(a).leaf == t.leaf + 1 && t.recorded(a).topology == t.topology,
        a == Edit::Topology ==> t.recorded(a).topology == t.topology + 1 && t.recorded(a).leaf
            == t.leaf,
        !(a is Leaf) && a != Edit::Topology ==> t.recorded(a) == t,
{
}

/// Each stamp is counted once, as in place or as a topology change. Its voxels
/// always count; its leaves only where it was in place.
pub proof fn law_stamps_counted_once(t: StampTally, s: Stamp)
    requires
        t.voxels_changed + s.changed <= u64::MAX,
        t.leaves_touched + s.touched@.len() <= u64::MAX,
        t.inplace_stamps < u32::MAX,
        t.topo_stamps < u32::MAX,
    ensures
        ({
            let n = t.recorded(s);
            &&& n.inplace_stamps + n.topo_stamps == t.inplace_stamps + t.topo_stamps + 1
            &&& n.topo_stamps > t.topo_stamps <==> s.topology
            &&& n.voxels_changed - t.voxels_changed == s.changed
            &&& n.leaves_touched - t.leaves_touched == if s.topology {
                0
            } else {
                s.touched@.len() as int
            }
        }),
{
}

/// A voxel's in-brick neighbour is one step along x, and its own neighbour is the
/// voxel again.
pub proof fn law_neighbours_pair_up(c: VoxelCoord)
    ensures
        spec_neighbour(spec_neighbour(c)) == c,
        spec_neighbour(c).x == c.x + 1 || spec_neighbour(c).x + 1 == c.x,
        spec_neighbour(c).y == c.y && spec_neighbour(c).z == c.z,
{
    let d = spec_neighbour(c);
    if c.x % 2 == 0 {
        assert(d.x == c.x + 1 && d.x % 2 == 1);
    } else {
        assert(d.x == c.x - 1 && d.x % 2 == 0);
    }
}

/// A batch goes round the anchors: a round takes each anchor's neighbour once, in
/// order, and the next round takes the same voxels and undoes what was done. The
/// first round sets.
pub proof fn law_batch_goes_round(
    anchors: &[VoxelCoord],
    i: u32,
    now: (VoxelCoord, bool),
    next: (VoxelCoord, bool),
)
    requires
        1 <= anchors@.len() <= u32::MAX,
        i + anchors@.len() <= u32::MAX,
        call_ensures(batch_edit, (anchors, i), now),
        call_ensures(batch_edit, (anchors, (i + anchors@.len()) as u32), next),
    ensures
        next.0 == now.0,
        next.1 == !now.1,
        i < anchors@.len() ==> now == (spec_neighbour(anchors@[i as int]), true),
{
    let n = anchors@.len() as int;
    vstd::arithmetic::div_mod::lemma_mod_add_multiples_vanish(i as int, n);
    vstd::arithmetic::div_mod::lemma_div_plus_one(i as int, n);
    if i < n {
        vstd::arithmetic::div_mod::lemma_small_mod(i as nat, n as nat);
        vstd::arithmetic::div_mod::lemma_basic_div(i as int, n);
    }
}

/// Drawing goes on where it stopped: the voxel drawn after `i` others is the
/// first drawn from the state they left, three steps each, and it lies in the
/// grid.
pub proof fn law_draws_go_on(state: u64, n: u32, i: nat)
    requires
        n > 0,
    ensures
        drawn_voxel(advanced(state, 3 * i), n, 0) == drawn_voxel(state, n, i),
        advanced(advanced(state, 3 * i), 3) == advanced(state, 3 * (i + 1)),
        drawn_voxel(state, n, i).x < n && drawn_voxel(state, n, i).y < n && drawn_voxel(
            state,
            n,
            i,
        ).z < n,
{
    lemma_drawn_on(state, n, i);
}

/// The anchors are drawn voxels, each occupied, in the order drawn, and every
/// occupied voxel drawn is one: drawing one more voxel adds it or nothing.
pub proof fn law_anchors_are_drawn(t: SparseTree, n: u32, state: u64, tries: nat, i: nat)
    requires
        i < tries,
    ensures
        t.occupied(drawn_voxel(state, n, i)) <==> anchors_among(t, n, state, tries).contains(
            drawn_voxel(state, n, i),
        ),
        anchors_among(t, n, state, tries).len() <= tries,
        forall|k: int|
            0 <= k < anchors_among(t, n, state, tries).len() ==> t.occupied(
                #[trigger] anchors_among(t, n, state, tries)[k],
            ),
        anchors_among(t, n, state, i).is_prefix_of(anchors_among(t, n, state, tries)),
    decreases tries,
{
    let before = anchors_among(t, n, state, (tries - 1) as nat);
    let now = anchors_among(t, n, state, tries);
    if i < tries - 1 {
        law_anchors_are_drawn(t, n, state, (tries - 1) as nat, i);
    } else if tries > 1 {
        law_anchors_are_drawn(t, n, state, (tries - 1) as nat, (i - 1) as nat);
    }
    let c = drawn_voxel(state, n, (tries - 1) as nat);
    if t.occupied(c) {
        assert(now[now.len() - 1] == c);
    }
    assert forall|k: int| 0 <= k < now.len() implies t.occupied(#[trigger] now[k]) by {
        if k < before.len() {
            assert(now[k] == before[k]);
        }
    }
    if t.occupied(drawn_voxel(state, n, i)) && i < tries - 1 {
        let k = choose|k: int|
            0 <= k < before.len() && before[k] == drawn_voxel(state, n, i);
        assert(now[k] == drawn_voxel(state, n, i));
    }
}

/// The tallies count as recorded.
pub proof fn law_tallies_record(e: &mut EditTally, edit: Edit, s: &mut StampTally, stamp: Stamp)
    requires
        old(e).leaf < u64::MAX,
        old(e).topology < u64::MAX,
        call_ensures(EditTally::record, (e, edit), ()),
        old(s).voxels_changed + stamp.changed <= u64::MAX,
        old(s).leaves_touched + stamp.touched@.len() <= u64::MAX,
        old(s).inplace_stamps < u32::MAX,
        old(s).topo_stamps < u32::MAX,
        call_ensures(StampTally::record, (s, &stamp), ()),
    ensures
        *final(e) == old(e).recorded(edit),
        *final(s) == old(s).recorded(stamp),
{
}

/// A random voxel is the next one drawn, takes three steps, and lies in the grid.
pub proof fn law_random_voxel_is_drawn(
    state: &mut u64,
    n: u32,
    c: VoxelCoord,
    d: VoxelCoord,
    e: VoxelCoord,
)
    requires
        n > 0,
        call_ensures(random_voxel, (state, n), c),
        call_ensures(neighbour, (d,), e),
    ensures
        c == drawn_voxel(*old(state), n, 0),
        *final(state) == advanced(*old(state), 3),
        c.x < n && c.y < n && c.z < n,
        e == spec_neighbour(d),
{
}

/// Sampling keeps drawn voxels that are occupied, never more than its limit, and
/// stops for one of two reasons: it has that many, or it drew as often as it may.
pub proof fn law_sampling_stops(t: SparseTree, n: u32, state: &mut u64, r: Vec<VoxelCoord>, i: int)
    requires
        t.wf(),
        n >= 1,
        call_ensures(sample_anchors, (&t, n, state), r),
    ensures
        r@.len() <= 256,
        0 <= i < r@.len() ==> t.occupied(r@[i]),
        r@.len() < 256 ==> *final(state) == advanced(*old(state), 300_000) && r@ == anchors_among(
            t,
            n,
            *old(state),
            100_000,
        ),
        exists|tries: nat|
            tries <= 100_000 && r@ == #[trigger] anchors_among(t, n, *old(state), tries)
                && *final(state) == advanced(*old(state), 3 * tries) && (tries > 0 ==> anchors_among(
                t,
                n,
                *old(state),
                (tries - 1) as nat,
            ).len() < 256),
{
}

/// The tallies start at nothing.
pub proof fn law_tallies_start_empty(e: EditTally, s: StampTally)
    requires
        call_ensures(EditTally::default, (), e),
        call_ensures(StampTally::default, (), s),
    ensures
        e.leaf == 0 && e.topology == 0,
        s.voxels_changed == 0 && s.leaves_touched == 0 && s.inplace_stamps == 0 && s.topo_stamps
            == 0,
{
}

} // verus!
