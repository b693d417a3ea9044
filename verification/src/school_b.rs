//! The single-buffer layout.
//!
//! [`SparseTree`] stores internal nodes in a separate array per level. This
//! layout re-serializes them into **one** buffer where each node's children
//! occupy a contiguous block addressed by `popcount`-rank from the node's
//! `child_base`, and a node's block is followed by its children's blocks in
//! order (a children-contiguous, parent-first DFS).
//!
//! Leaves are unchanged: the Morton-sorted leaf array already places every
//! subtree's leaves contiguously, so a level-2 node's `child_base` indexes the
//! shared leaf array exactly as in the per-level layout.

use crate::bits::{bits_of, lemma_ones_monotone, ones};
use crate::coord::VoxelCoord;
use crate::layout::{brick_code, descends, lands, leaf_of, stores, toward, Cell, NodeLayout};
use crate::leaf::{law_bounds_unique, law_unpack_inverts_pack, lemma_view_len, LeafBounds, LeafBrick};
use crate::levels::{group_end, groups, is_level, lemma_ancestor_bound, lemma_stored_ancestor, level_codes, MAX_CELLS};
use crate::morton::{self, lemma_local_onto, lemma_local_range, local_index};
use crate::node::GpuNode;
use crate::palette::{answered, is_leaf_slot, law_leaf_slot_unique, pack_leaf, STRIDE_W};
use crate::resolution::Resolution;
use crate::sparse::{in_place, law_descent_finds_occupied, law_descent_reaches_slot, lemma_in_brick, lemma_level_len, lemma_nodes_indexable, lemma_same_voxel, node_total, nodes_indexable, voxel_total, SparseTree};
use vstd::prelude::*;

verus! {

broadcast use lemma_view_len;

/// The single-buffer layout: one depth-first node buffer plus the shared leaf
/// array. Built from a [`SparseTree`] via [`SchoolBBuffer::from_sparse`].
#[derive(Debug, Clone)]
pub struct SchoolBBuffer {
    /// The grid the buffer spans.
    pub resolution: Resolution,
    /// Single buffer of internal nodes; child blocks are contiguous.
    pub nodes: Vec<GpuNode>,
    /// Morton-sorted leaves, identical to the tree's.
    pub leaves: Vec<LeafBrick>,
    /// One packed [`LeafBounds`] per leaf, precomputed for the per-brick
    /// early-skip.
    pub leaf_bounds: Vec<u32>,
    /// The packed per-leaf material slots, [`STRIDE_W`] words each.
    pub leaf_mat: Vec<u32>,
    /// Compact per-occupied-voxel RGBA8 colour (R in the low byte) in leaf-slot ×
    /// intra-brick-Morton order. Empty until
    /// [`assemble_leaf_color`](Self::assemble_leaf_color) runs.
    pub leaf_color: Vec<u32>,
    /// Per-leaf base offset into `leaf_color`. Empty until
    /// [`assemble_leaf_color`](Self::assemble_leaf_color) runs.
    pub leaf_color_base: Vec<u32>,
    /// Whether the last colour assembly saw a semi-transparent voxel (alpha
    /// `< 255`), i.e. some leaf carries [`LeafBounds::TRANSPARENCY_BIT`].
    pub has_transparency: bool,
    /// The source tree's topology generation at serialization time.
    pub source_gen: u64,
}

/// Nodes in the subtrees of the level-`level` nodes `lo..hi` of a tree.
pub open spec fn subtree_nodes(an: Seq<Vec<GpuNode>>, level: nat, lo: int, hi: int) -> nat
    decreases level, hi - lo,
{
    if hi <= lo {
        0
    } else {
        let node = an[level as int]@[hi - 1];
        subtree_nodes(an, level, lo, hi - 1) + 1 + if level <= 2 {
            0
        } else {
            subtree_nodes(
                an,
                (level - 1) as nat,
                node.child_base as int,
                node.child_base + node.rank(64),
            )
        }
    }
}

/// Nodes `lo..hi` of the tree's level stand at `pos..` in the buffer; the blocks
/// of their subtrees follow each other from `start` on, each node's children
/// first, then the children's own blocks.
pub open spec fn placed(
    bn: Seq<GpuNode>,
    an: Seq<Vec<GpuNode>>,
    level: nat,
    pos: int,
    lo: int,
    hi: int,
    start: int,
) -> bool
    decreases level, hi - lo,
{
    if hi <= lo {
        true
    } else {
        let node = an[level as int]@[hi - 1];
        let p = pos + (hi - 1 - lo);
        let s = start + subtree_nodes(an, level, lo, hi - 1) - (hi - 1 - lo);
        &&& placed(bn, an, level, pos, lo, hi - 1, start)
        &&& 0 <= p < bn.len()
        &&& bn[p].spec_mask() == node.spec_mask()
        &&& bn[p].child_base == if level <= 2 {
            node.child_base as int
        } else {
            s
        }
        &&& level > 2 ==> placed(
            bn,
            an,
            (level - 1) as nat,
            s,
            node.child_base as int,
            node.child_base + node.rank(64),
            s + node.rank(64),
        )
    }
}

/// Subtree sizes add up over adjacent ranges.
proof fn lemma_subtree_split(an: Seq<Vec<GpuNode>>, level: nat, a: int, b: int, c: int)
    requires
        a <= b <= c,
    ensures
        subtree_nodes(an, level, a, c) == subtree_nodes(an, level, a, b) + subtree_nodes(
            an,
            level,
            b,
            c,
        ),
    decreases c - b,
{
    if b < c {
        lemma_subtree_split(an, level, a, b, c - 1);
    }
}

/// A range of nodes has at least as many nodes in its subtrees.
proof fn lemma_subtree_min(an: Seq<Vec<GpuNode>>, level: nat, a: int, b: int)
    requires
        a <= b,
    ensures
        subtree_nodes(an, level, a, b) >= b - a,
    decreases b - a,
{
    if a < b {
        lemma_subtree_min(an, level, a, b - 1);
    }
}

/// The children of a tree node are nodes of the level below.
proof fn lemma_children_in_range(t: SparseTree, level: nat, a: int)
    requires
        t.wf(),
        2 <= level <= t.resolution.levels() + 1,
        0 <= a < t.nodes@[level as int]@.len(),
    ensures
        ({
            let node = t.nodes@[level as int]@[a];
            let below = level_codes(t.nodes@, t.codes@, (level - 1) as nat);
            &&& node.rank(64) >= 1
            &&& node.child_base + node.rank(64) <= below.len()
            &&& below.len() <= t.codes@.len()
            &&& level > 2 ==> below.len() == t.nodes@[level - 1]@.len()
            &&& node.child_base + node.rank(64) == group_end(
                below,
                t.nodes@[level as int]@,
                a,
            )
        }),
{
    let k = t.resolution.levels() as nat;
    let below = level_codes(t.nodes@, t.codes@, (level - 1) as nat);
    lemma_level_len(t.nodes@, t.codes@, k, level);
    lemma_level_len(t.nodes@, t.codes@, k, (level - 1) as nat);
    assert(is_level(below, t.nodes@[level as int]@, level_codes(t.nodes@, t.codes@, level)));
    let node = t.nodes@[level as int]@[a];
    assert(groups(
        below,
        node,
        level_codes(t.nodes@, t.codes@, level)[a],
        node.child_base as int,
        group_end(below, t.nodes@[level as int]@, a),
    ));
}

/// Placement depends only on the nodes themselves and on their subtrees' blocks.
proof fn lemma_placed_frame(
    b1: Seq<GpuNode>,
    b2: Seq<GpuNode>,
    an: Seq<Vec<GpuNode>>,
    level: nat,
    pos: int,
    lo: int,
    hi: int,
    start: int,
)
    requires
        lo <= hi,
        placed(b1, an, level, pos, lo, hi, start),
        b1.len() <= b2.len(),
        agree(b1, b2, pos, pos + (hi - lo)),
        agree(b1, b2, start, start + subtree_nodes(an, level, lo, hi) - (hi - lo)),
    ensures
        placed(b2, an, level, pos, lo, hi, start),
    decreases level, hi - lo,
{
    if lo < hi {
        let a = hi - 1;
        let node = an[level as int]@[a];
        let base = node.child_base as int;
        let n = node.rank(64) as int;
        let s = start + subtree_nodes(an, level, lo, a) - (a - lo);
        lemma_subtree_min(an, level, lo, a);
        if level > 2 {
            lemma_subtree_min(an, (level - 1) as nat, base, base + n);
        }
        lemma_placed_frame(b1, b2, an, level, pos, lo, a, start);
        if level > 2 {
            lemma_placed_frame(b1, b2, an, (level - 1) as nat, s, base, base + n, s + n);
        }
        assert(b2[pos + (a - lo)] == b1[pos + (a - lo)]);
    }
}

/// The buffers agree on `lo..hi`.
spec fn agree(b1: Seq<GpuNode>, b2: Seq<GpuNode>, lo: int, hi: int) -> bool {
    forall|i: int| lo <= i < hi ==> #[trigger] b2[i] == b1[i]
}

/// One of several placed nodes.
proof fn lemma_placed_pick(
    bn: Seq<GpuNode>,
    an: Seq<Vec<GpuNode>>,
    level: nat,
    pos: int,
    lo: int,
    hi: int,
    start: int,
    i: int,
)
    requires
        placed(bn, an, level, pos, lo, hi, start),
        lo <= i < hi,
    ensures
        placed(
            bn,
            an,
            level,
            pos + (i - lo),
            i,
            i + 1,
            start + subtree_nodes(an, level, lo, i) - (i - lo),
        ),
    decreases hi - lo,
{
    if i == hi - 1 {
        let s = start + subtree_nodes(an, level, lo, i) - (i - lo);
        assert(subtree_nodes(an, level, i, i) == 0);
        assert(placed(bn, an, level, pos + (i - lo), i, i, s));
    } else {
        lemma_placed_pick(bn, an, level, pos, lo, hi - 1, start, i);
    }
}

/// One placed node, spelled out.
proof fn lemma_placed_one(
    bn: Seq<GpuNode>,
    an: Seq<Vec<GpuNode>>,
    level: nat,
    pos: int,
    a: int,
    start: int,
)
    ensures
        ({
            let node = an[level as int]@[a];
            placed(bn, an, level, pos, a, a + 1, start) <==> {
                &&& 0 <= pos < bn.len()
                &&& bn[pos].spec_mask() == node.spec_mask()
                &&& bn[pos].child_base == if level <= 2 {
                    node.child_base as int
                } else {
                    start
                }
                &&& level > 2 ==> placed(
                    bn,
                    an,
                    (level - 1) as nat,
                    start,
                    node.child_base as int,
                    node.child_base + node.rank(64),
                    start + node.rank(64),
                )
            }
        }),
{
    assert(subtree_nodes(an, level, a, a) == 0);
    assert(placed(bn, an, level, pos, a, a, start));
}

/// The subtree of one node: the node and its children's subtrees.
proof fn lemma_subtree_one(an: Seq<Vec<GpuNode>>, level: nat, a: int)
    ensures
        ({
            let node = an[level as int]@[a];
            subtree_nodes(an, level, a, a + 1) == 1 + if level <= 2 {
                0
            } else {
                subtree_nodes(
                    an,
                    (level - 1) as nat,
                    node.child_base as int,
                    node.child_base + node.rank(64),
                )
            }
        }),
{
    assert(subtree_nodes(an, level, a, a) == 0);
}

/// The tree's invariant, as one fact.
#[verifier::opaque]
spec fn sound(t: SparseTree) -> bool {
    t.wf()
}

/// Emits the children block of the node already placed at `nodes[pos]`, then
/// recurses into each child. Patches `nodes[pos].child_base` to the block start.
fn emit_subtree(tree: &SparseTree, nodes: &mut Vec<GpuNode>, pos: usize, level: u32, a: usize)
    requires
        sound(*tree),
        2 <= level <= tree.resolution.levels() + 1,
        a < tree.nodes@[level as int]@.len(),
        pos < old(nodes)@.len(),
        old(nodes)@[pos as int].spec_mask() == tree.nodes@[level as int]@[a as int].spec_mask(),
        old(nodes)@.len() + subtree_nodes(tree.nodes@, level as nat, a as int, a + 1) - 1
            <= MAX_CELLS,
        old(nodes)@.len() + subtree_nodes(tree.nodes@, level as nat, a as int, a + 1) - 1
            <= usize::MAX,
    ensures
        final(nodes)@.len() == old(nodes)@.len() + subtree_nodes(
            tree.nodes@,
            level as nat,
            a as int,
            a + 1,
        ) - 1,
        forall|i: int|
            0 <= i < old(nodes)@.len() && i != pos ==> #[trigger] final(nodes)@[i] == old(nodes)@[i],
        placed(
            final(nodes)@,
            tree.nodes@,
            level as nat,
            pos as int,
            a as int,
            a + 1,
            old(nodes)@.len() as int,
        ),
    decreases level,
{
    let ghost an = tree.nodes@;
    let ghost first = nodes@;
    let ghost lv = level as nat;
    let ghost start = first.len() as int;
    assert(level < tree.nodes@.len()) by {
        reveal(sound);
    }
    let node: GpuNode = tree.nodes[level as usize][a];
    proof {
        lemma_subtree_one(an, lv, a as int);
    }
    if level == 2 {
        // Children are leaves; the base is the (unchanged) leaf base.
        let mut own: GpuNode = nodes[pos];
        own.child_base = node.child_base;
        nodes[pos] = own;
        proof {
            lemma_placed_one(nodes@, an, lv, pos as int, a as int, start);
        }
        return;
    }
    let ghost below = (level - 1) as nat;
    let ghost base = node.child_base as int;
    let ghost n = node.rank(64) as int;
    proof {
        assert(node.rank(64) >= 1 && base + n <= an[below as int]@.len() && base + n <= MAX_CELLS)
            by {
            reveal(sound);
            lemma_children_in_range(*tree, lv, a as int);
        }
        lemma_subtree_min(an, below, base, base + n);
    }
    let n_children: u32 = node.mask().count_ones();
    let block_start: u32 = nodes.len() as u32;
    push_children(tree, nodes, level, node, n_children);
    let mut own: GpuNode = nodes[pos];
    own.child_base = block_start;
    nodes[pos] = own;
    let ghost block = nodes@;
    // Recurse into each child to emit its own children block.
    let mut j: u32 = 0;
    assert(subtree_nodes(an, below, base, base) == 0);
    assert(placed(nodes@, an, below, start, base, base, start + n));
    while j < n_children
        invariant
            sound(*tree),
            an == tree.nodes@,
            j <= n_children,
            n_children == n,
            3 <= level <= tree.resolution.levels() + 1,
            below == level - 1,
            base == node.child_base,
            0 <= pos < start,
            base + n <= an[below as int]@.len(),
            base + n <= MAX_CELLS,
            start == block_start,
            block.len() == start + n,
            start + subtree_nodes(an, below, base, base + n) <= MAX_CELLS,
            start + subtree_nodes(an, below, base, base + n) <= usize::MAX,
            nodes@.len() == start + n + subtree_nodes(an, below, base, base + j) - j,
            nodes@.len() >= start + n,
            forall|i: int| 0 <= i < start ==> #[trigger] nodes@[i] == block[i],
            forall|i: int|
                start + j <= i < start + n ==> (#[trigger] nodes@[i]).spec_mask()
                    == an[below as int]@[base + i - start].spec_mask(),
            placed(nodes@, an, below, start, base, base + j, start + n),
        decreases n_children - j,
    {
        let ghost was = nodes@;
        proof {
            lemma_subtree_split(an, below, base, base + j, base + n);
            lemma_subtree_split(an, below, base + j, base + j + 1, base + n);
            lemma_subtree_split(an, below, base, base + j, base + j + 1);
            lemma_subtree_min(an, below, base + j + 1, base + n);
            lemma_subtree_min(an, below, base + j, base + j + 1);
            assert(was[start + j].spec_mask() == an[below as int]@[base + (start + j)
                - start].spec_mask());
        }
        emit_subtree(
            tree,
            nodes,
            (block_start + j) as usize,
            level - 1,
            (node.child_base + j) as usize,
        );
        proof {
            lemma_placed_extend(was, nodes@, an, below, start, base, base + j, start + n);
            assert forall|i: int| start + (j + 1) <= i < start + n implies (
            #[trigger] nodes@[i]).spec_mask() == an[below as int]@[base + i - start].spec_mask() by {
                assert(nodes@[i] == was[i]);
            }
        }
        j = j + 1;
    }
    proof {
        assert(nodes@[pos as int] == block[pos as int]);
        lemma_placed_one(nodes@, an, lv, pos as int, a as int, start);
    }
}

/// Emitting the next node keeps those before it placed.
proof fn lemma_placed_extend(
    b1: Seq<GpuNode>,
    b2: Seq<GpuNode>,
    an: Seq<Vec<GpuNode>>,
    level: nat,
    pos: int,
    lo: int,
    a: int,
    start: int,
)
    requires
        lo <= a,
        0 <= pos,
        pos + (a - lo) < start,
        placed(b1, an, level, pos, lo, a, start),
        b1.len() == start + subtree_nodes(an, level, lo, a) - (a - lo),
        b1.len() >= start,
        b1.len() <= b2.len(),
        forall|i: int| 0 <= i < b1.len() && i != pos + (a - lo) ==> #[trigger] b2[i] == b1[i],
        placed(b2, an, level, pos + (a - lo), a, a + 1, b1.len() as int),
    ensures
        placed(b2, an, level, pos, lo, a + 1, start),
{
    lemma_placed_frame(b1, b2, an, level, pos, lo, a, start);
    lemma_placed_one(b2, an, level, pos + (a - lo), a, b1.len() as int);
}

/// Appends the children of `node` with their masks and no bases yet.
fn push_children(
    tree: &SparseTree,
    nodes: &mut Vec<GpuNode>,
    level: u32,
    node: GpuNode,
    n_children: u32,
)
    requires
        3 <= level < tree.nodes@.len(),
        node.child_base + n_children <= tree.nodes@[level - 1]@.len(),
        node.child_base + n_children <= MAX_CELLS,
        old(nodes)@.len() + n_children <= usize::MAX,
    ensures
        final(nodes)@.len() == old(nodes)@.len() + n_children,
        forall|i: int|
            0 <= i < old(nodes)@.len() ==> #[trigger] final(nodes)@[i] == old(nodes)@[i],
        forall|i: int|
            old(nodes)@.len() <= i < old(nodes)@.len() + n_children ==> (#[trigger] final(nodes)@[i]).spec_mask() == tree.nodes@[level - 1]@[node.child_base + i - old(nodes)@.len()].spec_mask(),
{
    let ghost first = nodes@;
    let mut j: u32 = 0;
    while j < n_children
        invariant
            j <= n_children,
            3 <= level < tree.nodes@.len(),
            node.child_base + n_children <= tree.nodes@[level - 1]@.len(),
            node.child_base + n_children <= MAX_CELLS,
            nodes@.len() == first.len() + j,
            first.len() + n_children <= usize::MAX,
            forall|i: int| 0 <= i < first.len() ==> #[trigger] nodes@[i] == first[i],
            forall|i: int|
                first.len() <= i < first.len() + j ==> (#[trigger] nodes@[i]).spec_mask()
                    == tree.nodes@[level - 1]@[node.child_base + i - first.len()].spec_mask(),
        decreases n_children - j,
    {
        let child: GpuNode = tree.nodes[(level - 1) as usize][(node.child_base + j) as usize];
        nodes.push(GpuNode::new(child.mask(), 0));
        j = j + 1;
    }
}

/// Nodes at and below a level, summed over its first `p` nodes' subtrees.
proof fn lemma_subtree_levels(t: SparseTree, level: nat, p: int)
    requires
        t.wf(),
        2 <= level <= t.resolution.levels() + 1,
        0 <= p <= t.nodes@[level as int]@.len(),
    ensures
        level > 2 ==> subtree_nodes(t.nodes@, level, 0, p) == p + subtree_nodes(
            t.nodes@,
            (level - 1) as nat,
            0,
            if p < t.nodes@[level as int]@.len() {
                t.nodes@[level as int]@[p].child_base as int
            } else {
                t.nodes@[level - 1]@.len() as int
            },
        ),
        level == 2 ==> subtree_nodes(t.nodes@, level, 0, p) == p,
    decreases p,
{
    let an = t.nodes@;
    let here = an[level as int]@;
    let k = t.resolution.levels() as nat;
    let below = level_codes(an, t.codes@, (level - 1) as nat);
    lemma_level_len(an, t.codes@, k, level);
    lemma_level_len(an, t.codes@, k, (level - 1) as nat);
    assert(is_level(below, here, level_codes(an, t.codes@, level)));
    if p > 0 {
        lemma_subtree_levels(t, level, p - 1);
        lemma_children_in_range(t, level, p - 1);
        if level > 2 {
            let node = here[p - 1];
            lemma_subtree_split(
                an,
                (level - 1) as nat,
                0,
                node.child_base as int,
                node.child_base + node.rank(64),
            );
        }
    } else if level > 2 {
        if here.len() > 0 {
            assert(here[0].child_base == 0);
        }
        assert(subtree_nodes(an, (level - 1) as nat, 0, 0) == 0);
        assert(subtree_nodes(an, level, 0, 0) == 0);
    } else {
        assert(subtree_nodes(an, level, 0, 0) == 0);
    }
}

/// The subtrees of a level's nodes hold all nodes at and below it.
proof fn lemma_subtree_total(t: SparseTree, level: nat)
    requires
        t.wf(),
        2 <= level <= t.resolution.levels() + 1,
    ensures
        subtree_nodes(t.nodes@, level, 0, t.nodes@[level as int]@.len() as int) == node_total(
            t.nodes@,
            (level + 1) as int,
        ),
    decreases level,
{
    let len = t.nodes@[level as int]@.len() as int;
    lemma_subtree_levels(t, level, len);
    if level > 2 {
        lemma_subtree_total(t, (level - 1) as nat);
    } else {
        assert(node_total(t.nodes@, 0) == 0);
        assert(node_total(t.nodes@, 1) == 0);
        assert(node_total(t.nodes@, 2) == 0);
    }
}

/// A non-empty tree has one root node.
proof fn lemma_one_root(t: SparseTree)
    requires
        t.wf(),
        t.codes@.len() > 0,
        t.resolution.levels() >= 1,
    ensures
        t.nodes@[t.resolution.levels() + 1]@.len() == 1,
{
    let k = t.resolution.levels() as nat;
    lemma_level_len(t.nodes@, t.codes@, k, k + 1);
    let roots = level_codes(t.nodes@, t.codes@, k + 1);
    if roots.len() > 1 {
        assert(is_level(
            level_codes(t.nodes@, t.codes@, k),
            t.nodes@[(k + 1) as int]@,
            level_codes(t.nodes@, t.codes@, (k + 1) as nat),
        ));
        let i = lemma_stored_ancestor(t.nodes@, t.codes@, k, k + 1, 0);
        let j = lemma_stored_ancestor(t.nodes@, t.codes@, k, k + 1, 1);
        lemma_ancestor_bound(t.codes@[i] as nat, k, k);
        lemma_ancestor_bound(t.codes@[j] as nat, k, k);
        assert(roots[0] < roots[1]);
    }
}

/// A tree without bricks, or of a single brick, has no nodes.
proof fn lemma_no_nodes(t: SparseTree, n: int)
    requires
        t.wf(),
        t.codes@.len() == 0 || t.resolution.levels() == 0,
        0 <= n <= t.nodes@.len(),
    ensures
        node_total(t.nodes@, n) == 0,
    decreases n,
{
    if n > 0 {
        lemma_no_nodes(t, n - 1);
        if n - 1 >= 2 {
            lemma_level_len(
                t.nodes@,
                t.codes@,
                t.resolution.levels() as nat,
                (n - 1) as nat,
            );
        }
    }
}

/// `word` packs the bounds of `leaf`; flags above bit 18 are free.
pub open spec fn bounds_word(word: u32, leaf: LeafBrick) -> bool {
    exists|b: LeafBounds| #[trigger] leaf.bounded_by(b) && word % 0x4_0000 == b.packed()
}

/// The bounds word marks its leaf as holding a semi-transparent voxel.
pub open spec fn marked(word: u32) -> bool {
    word & LeafBounds::TRANSPARENCY_BIT != 0
}

/// What the transparency bit does to a bounds word.
proof fn lemma_mark(word: u32, old: u32)
    ensures
        (word | LeafBounds::TRANSPARENCY_BIT) % 0x4_0000 == word % 0x4_0000,
        marked(word | LeafBounds::TRANSPARENCY_BIT),
        (word & !LeafBounds::TRANSPARENCY_BIT) % 0x4_0000 == word % 0x4_0000,
        !marked(word & !LeafBounds::TRANSPARENCY_BIT),
        word < LeafBounds::TRANSPARENCY_BIT ==> !marked(word) && (word | (old
            & LeafBounds::TRANSPARENCY_BIT)) % 0x4_0000 == word && (word | (old
            & LeafBounds::TRANSPARENCY_BIT)) & LeafBounds::TRANSPARENCY_BIT == old
            & LeafBounds::TRANSPARENCY_BIT && (word | (old & LeafBounds::TRANSPARENCY_BIT)) < 2
            * LeafBounds::TRANSPARENCY_BIT,
{
    let t: u32 = 0x4_0000;
    assert((word | t) % t == word % t && (word | t) & t != 0 && (word & !t) % t == word % t && (
    word & !t) & t == 0 && (word < t ==> word & t == 0 && (word | (old & t)) % t == word && (word
        | (old & t)) & t == old & t && (word | (old & t)) < 2 * t)) by (bit_vector)
        requires
            t == 0x4_0000,
    ;
}

/// `pos` is a node at `level` of a buffer: its present children are nodes one
/// level down, or leaves below level 2.
pub open spec fn node_at(bn: Seq<GpuNode>, leaves: int, pos: int, level: nat) -> bool
    decreases level,
{
    &&& 0 <= pos < bn.len()
    &&& level >= 2
    &&& forall|b: int|
        0 <= b < 64 && #[trigger] bn[pos].has(b) ==> {
            let slot = bn[pos].child_base + bn[pos].rank(b);
            &&& slot <= u32::MAX
            &&& if level == 2 {
                slot < leaves
            } else {
                level > 2 && node_at(bn, leaves, slot, (level - 1) as nat)
            }
        }
}

impl SchoolBBuffer {
    /// The buffer's structure is the tree's: its leaves and their bounds, and
    /// its nodes in depth-first placement.
    pub open spec fn structure_of(self, t: SparseTree) -> bool {
        &&& self.resolution == t.resolution
        &&& self.leaves@ == t.leaves@
        &&& self.leaf_bounds@.len() == self.leaves@.len()
        &&& forall|i: int|
            0 <= i < self.leaves@.len() ==> bounds_word(
                #[trigger] self.leaf_bounds@[i],
                self.leaves@[i],
            )
        &&& self.nodes@.len() == node_total(t.nodes@, t.nodes@.len() as int)
        &&& t.codes@.len() > 0 && t.resolution.levels() >= 1 ==> placed(
            self.nodes@,
            t.nodes@,
            (t.resolution.levels() + 1) as nat,
            0,
            0,
            1,
            1,
        )
        &&& self.source_gen == t.topo_gen
    }

    /// The buffer's material slots are the tree's.
    pub open spec fn materials_of(self, t: SparseTree) -> bool {
        &&& self.leaf_mat@.len() == STRIDE_W * t.leaves@.len()
        &&& forall|i: int|
            0 <= i < t.leaves@.len() ==> is_leaf_slot(
                #[trigger] slot_words(self.leaf_mat@, i),
                t.materials@[i]@,
                t.leaves@[i]@,
            )
    }

    /// No colour is baked into the buffer.
    pub open spec fn unbaked(self) -> bool {
        &&& self.leaf_color@.len() == 0
        &&& self.leaf_color_base@.len() == 0
        &&& !self.has_transparency
        &&& forall|i: int|
            0 <= i < self.leaf_bounds@.len() ==> #[trigger] self.leaf_bounds@[i]
                < LeafBounds::TRANSPARENCY_BIT
    }

    /// The transparency flag is up exactly when some leaf is marked.
    pub open spec fn flag_in_step(self) -> bool {
        self.has_transparency <==> exists|i: int|
            0 <= i < self.leaf_bounds@.len() && marked(#[trigger] self.leaf_bounds@[i])
    }

    /// Re-serializes a [`SparseTree`] into the single-buffer layout.
    #[must_use]
    pub fn from_sparse(tree: &SparseTree) -> (r: Self)
        requires
            tree.wf(),
            nodes_indexable(*tree),
            STRIDE_W * tree.leaves@.len() <= usize::MAX,
        ensures
            r.valid(),
            r.structure_of(*tree),
            r.materials_of(*tree),
            r.unbaked(),
            r.flag_in_step(),
            r.nodes@.len() <= MAX_CELLS,
    {
        proof {
            lemma_nodes_indexable(*tree);
        }
        let resolution: Resolution = tree.resolution();
        let mut leaves: Vec<LeafBrick> = Vec::new();
        let mut leaf_bounds: Vec<u32> = Vec::new();
        let mut leaf_mat: Vec<u32> = Vec::new();
        let mut i: usize = 0;
        while i < tree.leaves.len()
            invariant
                tree.wf(),
                i <= tree.leaves@.len(),
                STRIDE_W * tree.leaves@.len() <= usize::MAX,
                leaves@ == tree.leaves@.take(i as int),
                leaf_bounds@.len() == i,
                leaf_mat@.len() == STRIDE_W * i,
                forall|j: int|
                    0 <= j < i ==> bounds_word(#[trigger] leaf_bounds@[j], tree.leaves@[j])
                        && leaf_bounds@[j] < LeafBounds::TRANSPARENCY_BIT,
                forall|j: int|
                    0 <= j < i ==> is_leaf_slot(
                        #[trigger] slot_words(leaf_mat@, j),
                        tree.materials@[j]@,
                        tree.leaves@[j]@,
                    ),
            decreases tree.leaves.len() - i,
        {
            let leaf: LeafBrick = tree.leaves[i];
            leaves.push(leaf);
            assert(leaves@ =~= tree.leaves@.take(i + 1));
            let bounds: LeafBounds = leaf.occupied_bounds();
            let word: u32 = bounds.pack();
            assert(leaf.bounded_by(bounds) && word % 0x4_0000 == bounds.packed());
            leaf_bounds.push(word);
            let slot: [u32; STRIDE_W] = leaf_slot(tree, i);
            let ghost before = leaf_mat@;
            append_slot(&mut leaf_mat, &slot);
            proof {
                assert forall|j: int| 0 <= j < i + 1 implies is_leaf_slot(
                    #[trigger] slot_words(leaf_mat@, j),
                    tree.materials@[j]@,
                    tree.leaves@[j]@,
                ) by {
                    if j < i {
                        assert(slot_words(leaf_mat@, j) =~= slot_words(before, j));
                    } else {
                        assert(slot_words(leaf_mat@, j) =~= slot@);
                    }
                }
            }
            i = i + 1;
        }
        assert(leaves@ =~= tree.leaves@);
        let mut nodes: Vec<GpuNode> = Vec::new();
        let k: u32 = resolution.internal_levels();
        if k >= 1 && leaves.len() > 0 {
            let coarse: u32 = k + 1;
            proof {
                lemma_one_root(*tree);
                lemma_subtree_total(*tree, coarse as nat);
            }
            let root: GpuNode = tree.nodes[coarse as usize][0];
            nodes.push(GpuNode::new(root.mask(), 0));
            assert(sound(*tree)) by {
                reveal(sound);
            }
            emit_subtree(tree, &mut nodes, 0, coarse, 0);
        } else {
            proof {
                lemma_no_nodes(*tree, tree.nodes@.len() as int);
            }
        }
        let r = Self {
            resolution,
            nodes,
            leaves,
            leaf_bounds,
            leaf_mat,
            leaf_color: Vec::new(),
            leaf_color_base: Vec::new(),
            has_transparency: false,
            source_gen: tree.topology_generation(),
        };
        proof {
            lemma_structure_valid(r, *tree);
            assert forall|i: int| 0 <= i < r.leaf_bounds@.len() implies !marked(
                #[trigger] r.leaf_bounds@[i],
            ) by {
                lemma_mark(r.leaf_bounds@[i], 0);
            }
        }
        r
    }
}

/// The material slot of leaf `i` in a buffer.
pub open spec fn slot_words(words: Seq<u32>, i: int) -> Seq<u32> {
    words.subrange(STRIDE_W * i, STRIDE_W * i + STRIDE_W)
}

/// Appends a slot's words.
fn append_slot(words: &mut Vec<u32>, slot: &[u32; STRIDE_W])
    requires
        old(words)@.len() + STRIDE_W <= usize::MAX,
    ensures
        final(words)@ == old(words)@ + slot@,
{
    let ghost before = words@;
    let mut w: usize = 0;
    while w < STRIDE_W
        invariant
            w <= STRIDE_W,
            words@ == before + slot@.take(w as int),
        decreases STRIDE_W - w,
    {
        words.push(slot[w]);
        w = w + 1;
        assert(words@ =~= before + slot@.take(w as int));
    }
    assert(slot@.take(STRIDE_W as int) =~= slot@);
}

/// The packed material slot of leaf `idx` of a tree.
fn leaf_slot(tree: &SparseTree, idx: usize) -> (r: [u32; STRIDE_W])
    requires
        idx < tree.leaves@.len(),
        idx < tree.materials@.len(),
    ensures
        is_leaf_slot(r@, tree.materials@[idx as int]@, tree.leaves@[idx as int]@),
{
    let leaf: LeafBrick = tree.leaves[idx];
    let occupied = |x: u32, y: u32, z: u32| -> (b: bool)
        ensures
            b == leaf.occ(x, y, z),
        { leaf.get_local(x, y, z) };
    let r: [u32; STRIDE_W] = pack_leaf(tree.leaf_materials(idx), occupied);
    proof {
        let occ = choose|occ: Seq<bool>| #[trigger]
            answered(occupied, occ) && is_leaf_slot(r@, tree.materials@[idx as int]@, occ);
        assert forall|m: int| 0 <= m < 512 implies occ[m] == leaf@[m] by {
            let c = lemma_local_onto(m);
            assert(occupied.ensures((c.x, c.y, c.z), occ[local_index(c.x, c.y, c.z)]));
        }
        assert(occ =~= leaf@);
    }
    r
}

/// A placed node is a node of the buffer.
proof fn lemma_placed_node(
    bn: Seq<GpuNode>,
    t: SparseTree,
    pos: int,
    level: nat,
    a: int,
    start: int,
)
    requires
        t.wf(),
        2 <= level <= t.resolution.levels() + 1,
        0 <= a < t.nodes@[level as int]@.len(),
        placed(bn, t.nodes@, level, pos, a, a + 1, start),
        bn.len() <= MAX_CELLS,
    ensures
        node_at(bn, t.leaves@.len() as int, pos, level),
    decreases level,
{
    let an = t.nodes@;
    let node = an[level as int]@[a];
    let base = node.child_base as int;
    lemma_children_in_range(t, level, a);
    lemma_placed_one(bn, an, level, pos, a, start);
    assert forall|b: int| 0 <= b < 64 && #[trigger] bn[pos].has(b) implies {
        let slot = bn[pos].child_base + bn[pos].rank(b);
        &&& slot <= u32::MAX
        &&& if level == 2 {
            slot < t.leaves@.len()
        } else {
            level > 2 && node_at(bn, t.leaves@.len() as int, slot, (level - 1) as nat)
        }
    } by {
        assert(node.has(b));
        lemma_rank_below(node, b);
        let j = node.rank(b) as int;
        if level > 2 {
            let below = (level - 1) as nat;
            let n = node.rank(64) as int;
            let s = start + n + subtree_nodes(an, below, base, base + j) - j;
            lemma_placed_pick(bn, an, below, start, base, base + n, start + n, base + j);
            lemma_placed_one(bn, an, below, start + j, base + j, s);
            lemma_placed_node(bn, t, start + j, below, base + j, s);
        }
    }
}

/// A present child ranks below the number of children.
pub proof fn lemma_rank_below(node: GpuNode, b: int)
    requires
        0 <= b < 64,
        node.has(b),
    ensures
        node.rank(b) < node.rank(64),
{
    assert(bits_of(node.spec_mask())[b]);
    assert(ones(bits_of(node.spec_mask()), b + 1) == ones(bits_of(node.spec_mask()), b) + 1);
    lemma_ones_monotone(bits_of(node.spec_mask()), b + 1, 64);
}

/// A buffer that holds a tree's structure is a valid layout.
pub proof fn lemma_structure_valid(r: SchoolBBuffer, t: SparseTree)
    requires
        t.wf(),
        r.structure_of(t),
        r.nodes@.len() <= MAX_CELLS,
    ensures
        r.valid(),
{
    if t.codes@.len() > 0 && t.resolution.levels() >= 1 {
        lemma_one_root(t);
        lemma_placed_node(r.nodes@, t, 0, (t.resolution.levels() + 1) as nat, 0, 1);
    }
}

impl NodeLayout for SchoolBBuffer {
    open spec fn grid(&self) -> Resolution {
        self.resolution
    }

    open spec fn valid(&self) -> bool {
        &&& self.resolution.wf()
        &&& self.leaf_bounds@.len() == self.leaves@.len()
        &&& forall|i: int|
            0 <= i < self.leaves@.len() ==> bounds_word(
                #[trigger] self.leaf_bounds@[i],
                self.leaves@[i],
            )
        &&& self.leaves@.len() > 0 && self.resolution.levels() >= 1 ==> node_at(
            self.nodes@,
            self.leaves@.len() as int,
            0,
            (self.resolution.levels() + 1) as nat,
        )
    }

    open spec fn spec_root(&self) -> Cell {
        if self.leaves@.len() == 0 {
            Cell::Empty
        } else if self.resolution.levels() == 0 {
            Cell::Leaf(0)
        } else {
            Cell::Node(0)
        }
    }

    open spec fn node_ok(&self, node: u32, level: u32) -> bool {
        2 <= level <= self.resolution.levels() + 1 && node_at(
            self.nodes@,
            self.leaves@.len() as int,
            node as int,
            level as nat,
        )
    }

    open spec fn spec_child(&self, node: u32, level: u32, b: u32) -> Cell {
        let n = self.nodes@[node as int];
        let slot = (n.child_base + n.rank(b as int)) as u32;
        if !n.has(b as int) {
            Cell::Empty
        } else if level == 2 {
            Cell::Leaf(slot)
        } else {
            Cell::Node(slot)
        }
    }

    open spec fn leaf_ok(&self, idx: u32) -> bool {
        idx < self.leaves@.len()
    }

    open spec fn spec_leaf(&self, idx: u32) -> LeafBrick {
        self.leaves@[idx as int]
    }

    fn resolution(&self) -> (r: Resolution) {
        let n: u32 = self.resolution.voxels_per_axis();
        self.resolution
    }

    fn root(&self) -> (r: Cell) {
        if self.leaves.len() == 0 {
            Cell::Empty
        } else if self.resolution.internal_levels() == 0 {
            Cell::Leaf(0)
        } else {
            Cell::Node(0)  // the root is always emitted first
        }
    }

    fn child(&self, node: u32, level: u32, child_bit: u32) -> (r: Cell) {
        let n: GpuNode = self.nodes[node as usize];
        if !n.has_child(child_bit) {
            return Cell::Empty;
        }
        assert(self.nodes@[node as int].has(child_bit as int));
        let slot: u32 = n.child_slot(child_bit);
        if level == 2 {
            Cell::Leaf(slot)
        } else {
            Cell::Node(slot)
        }
    }

    fn leaf(&self, idx: u32) -> (r: &LeafBrick) {
        &self.leaves[idx as usize]
    }

    fn leaf_bounds(&self, idx: u32) -> (r: LeafBounds) {
        let word: u32 = self.leaf_bounds[idx as usize];
        let r: LeafBounds = LeafBounds::unpack(word);
        proof {
            let leaf = self.leaves@[idx as int];
            assert(bounds_word(word, leaf));
            let b = choose|b: LeafBounds| #[trigger]
                leaf.bounded_by(b) && word % 0x4_0000 == b.packed();
            law_unpack_inverts_pack(b, (word / 0x4_0000) as int, word, r);
            lemma_bounded_same(leaf, b, r);
        }
        r
    }
}

/// Boxes with the same corners bound the same bricks.
proof fn lemma_bounded_same(leaf: LeafBrick, a: LeafBounds, b: LeafBounds)
    requires
        leaf.bounded_by(a),
        a.min@ == b.min@,
        a.max@ == b.max@,
    ensures
        leaf.bounded_by(b),
{
    assert forall|i: int| 0 <= i < 3 implies a.min[i] == b.min[i] && a.max[i] == b.max[i] by {
        assert(a.min@[i] == b.min@[i]);
        assert(a.max@[i] == b.max@[i]);
    }
    assert(b.in_range());
}

/// A colour as one word: red in the low byte, alpha in the high.
pub open spec fn color_word(col: [u8; 4]) -> int {
    col[0] + 256 * col[1] + 65536 * col[2] + 0x100_0000 * col[3]
}

/// `c` is the voxel of leaf `i`, and the buffer has it set.
pub open spec fn shows(b: SchoolBBuffer, t: SparseTree, i: int, c: VoxelCoord) -> bool {
    &&& 0 <= i < b.leaves@.len()
    &&& brick_code(c) == t.codes@[i]
    &&& c.within(t.resolution)
    &&& b.leaves@[i].occ(c.x, c.y, c.z)
}

/// One of the colours at `lo..hi` is not opaque.
pub open spec fn translucent(colors: Seq<u32>, lo: int, hi: int) -> bool {
    exists|s: int| lo <= s < hi && (#[trigger] colors[s]) / 0x100_0000 < 255
}

/// The colours of the first `m` Morton positions of leaf `i`, appended after
/// `base` others: each set voxel's own colour at its rank.
spec fn painted<F: Fn(VoxelCoord) -> [u8; 4]>(
    b: SchoolBBuffer,
    t: SparseTree,
    color_of: F,
    colors: Seq<u32>,
    base: int,
    i: int,
    m: int,
) -> bool {
    forall|c: VoxelCoord|
        #[trigger] shows(b, t, i, c) && local_index(c.x, c.y, c.z) < m ==> colored(
            color_of,
            c,
            colors[base + ones(b.leaves@[i]@, local_index(c.x, c.y, c.z))],
        )
}

/// `word` is a colour `color_of` gave for `c`.
pub open spec fn colored<F: Fn(VoxelCoord) -> [u8; 4]>(
    color_of: F,
    c: VoxelCoord,
    word: u32,
) -> bool {
    exists|col: [u8; 4]| #[trigger] color_of.ensures((c,), col) && word == color_word(col)
}

/// Where leaf `i`'s colours start: one entry per set voxel of the leaves before.
pub open spec fn color_start(b: SchoolBBuffer, i: int) -> int {
    voxel_total(b.leaves@, i) as int
}

/// Totals grow with the leaves counted.
pub proof fn lemma_voxel_total_monotone(leaves: Seq<LeafBrick>, a: int, b: int)
    requires
        0 <= a <= b,
    ensures
        voxel_total(leaves, a) <= voxel_total(leaves, b),
    decreases b,
{
    if a < b {
        lemma_voxel_total_monotone(leaves, a, b - 1);
    }
}

impl SchoolBBuffer {
    /// Bakes the compact per-occupied-voxel colour buffer from a colour
    /// provider. Walks the leaves in slot order and, within each leaf, the
    /// occupied voxels in **intra-brick Morton order**, so
    /// `leaf_color[leaf_color_base[slot] + rank(morton)]` is the voxel's colour.
    /// `color_of(world_coord)` returns RGBA8 (R low). Leaves with a colour that
    /// is not opaque get [`LeafBounds::TRANSPARENCY_BIT`] in their bounds word;
    /// the others lose it.
    ///
    /// `tree` must be the same (topology-unchanged) tree this buffer was built
    /// from: it supplies each leaf's brick origin to reconstruct world coords.
    pub fn assemble_leaf_color<F: Fn(VoxelCoord) -> [u8; 4]>(
        &mut self,
        tree: &SparseTree,
        color_of: F,
    )
        requires
            tree.wf(),
            tree.topo_gen == old(self).source_gen,
            tree.codes@.len() == old(self).leaves@.len(),
            old(self).leaf_bounds@.len() == old(self).leaves@.len(),
            voxel_total(old(self).leaves@, old(self).leaves@.len() as int) <= u32::MAX,
            forall|i: int, c: VoxelCoord|
                #[trigger] shows(*old(self), *tree, i, c) ==> color_of.requires((c,)),
        ensures
            final(self).resolution == old(self).resolution,
            final(self).nodes == old(self).nodes,
            final(self).leaves == old(self).leaves,
            final(self).leaf_mat == old(self).leaf_mat,
            final(self).source_gen == old(self).source_gen,
            final(self).leaf_color@.len() == voxel_total(
                old(self).leaves@,
                old(self).leaves@.len() as int,
            ),
            final(self).leaf_color_base@.len() == old(self).leaves@.len(),
            forall|i: int|
                0 <= i < old(self).leaves@.len() ==> #[trigger] final(self).leaf_color_base@[i]
                    == color_start(*old(self), i),
            forall|i: int, c: VoxelCoord|
                #[trigger] shows(*old(self), *tree, i, c) ==> colored(
                    color_of,
                    c,
                    final(self).leaf_color@[color_start(*old(self), i) + ones(
                        old(self).leaves@[i]@,
                        local_index(c.x, c.y, c.z),
                    )],
                ),
            final(self).leaf_bounds@.len() == old(self).leaf_bounds@.len(),
            forall|i: int|
                0 <= i < old(self).leaves@.len() ==> #[trigger] final(self).leaf_bounds@[i]
                    == if translucent(
                    final(self).leaf_color@,
                    color_start(*old(self), i),
                    color_start(*old(self), i + 1),
                ) {
                    old(self).leaf_bounds@[i] | LeafBounds::TRANSPARENCY_BIT
                } else {
                    old(self).leaf_bounds@[i] & !LeafBounds::TRANSPARENCY_BIT
                },
            final(self).has_transparency <==> exists|i: int|
                0 <= i < old(self).leaves@.len() && translucent(
                    final(self).leaf_color@,
                    #[trigger] color_start(*old(self), i),
                    color_start(*old(self), i + 1),
                ),
            final(self).flag_in_step(),
            forall|i: int|
                0 <= i < old(self).leaves@.len() ==> marked(#[trigger] final(self).leaf_bounds@[i])
                    == translucent(
                    final(self).leaf_color@,
                    color_start(*old(self), i),
                    color_start(*old(self), i + 1),
                ),
            old(self).valid() ==> final(self).valid(),
            old(self).structure_of(*tree) ==> final(self).structure_of(*tree),
    {
        let ghost b = *self;
        let ghost n = self.leaves@.len() as int;
        let mut colors: Vec<u32> = Vec::new();
        let mut base: Vec<u32> = Vec::new();
        let mut transparent: Vec<bool> = Vec::new();
        let mut idx: usize = 0;
        while idx < self.leaves.len()
            invariant
                *self == b,
                n == b.leaves@.len(),
                idx <= n,
                tree.wf(),
                tree.codes@.len() == n,
                voxel_total(b.leaves@, n) <= u32::MAX,
                forall|i: int, c: VoxelCoord|
                    #[trigger] shows(b, *tree, i, c) ==> color_of.requires((c,)),
                colors@.len() == color_start(b, idx as int),
                base@.len() == idx,
                transparent@.len() == idx,
                forall|i: int| 0 <= i < idx ==> #[trigger] base@[i] == color_start(b, i),
                forall|i: int|
                    0 <= i < idx ==> #[trigger] transparent@[i] == translucent(
                        colors@,
                        color_start(b, i),
                        color_start(b, i + 1),
                    ),
                forall|i: int|
                    0 <= i < idx ==> #[trigger] painted(
                        b,
                        *tree,
                        color_of,
                        colors@,
                        color_start(b, i),
                        i,
                        512,
                    ),
            decreases self.leaves.len() - idx,
        {
            let ghost before = colors@;
            proof {
                lemma_voxel_total_monotone(b.leaves@, idx as int, n);
            }
            base.push(colors.len() as u32);
            let saw: bool = self.paint_leaf(tree, &color_of, idx, &mut colors);
            transparent.push(saw);
            proof {
                assert forall|i: int| 0 <= i < idx implies #[trigger] transparent@[i]
                    == translucent(colors@, color_start(b, i), color_start(b, i + 1)) by {
                    lemma_voxel_total_monotone(b.leaves@, i + 1, idx as int);
                    lemma_translucent_frame(
                        before,
                        colors@,
                        color_start(b, i),
                        color_start(b, i + 1),
                    );
                }
                assert forall|i: int| 0 <= i < idx implies #[trigger] painted(
                    b,
                    *tree,
                    color_of,
                    colors@,
                    color_start(b, i),
                    i,
                    512,
                ) by {
                    assert(painted(b, *tree, color_of, before, color_start(b, i), i, 512));
                    lemma_voxel_total_monotone(b.leaves@, i + 1, idx as int);
                    lemma_painted_frame(b, *tree, color_of, before, colors@, i);
                }
            }
            idx = idx + 1;
        }
        self.flag_transparent(&transparent);
        self.leaf_color = colors;
        self.leaf_color_base = base;
        proof {
            assert forall|i: int, c: VoxelCoord| #[trigger] shows(b, *tree, i, c) implies colored(
                color_of,
                c,
                self.leaf_color@[color_start(b, i) + ones(
                    b.leaves@[i]@,
                    local_index(c.x, c.y, c.z),
                )],
            ) by {
                lemma_local_range(c.x, c.y, c.z);
                assert(painted(b, *tree, color_of, self.leaf_color@, color_start(b, i), i, 512));
            }
            if exists|i: int|
                0 <= i < n && translucent(
                    self.leaf_color@,
                    #[trigger] color_start(b, i),
                    color_start(b, i + 1),
                ) {
                let i = choose|i: int|
                    0 <= i < n && translucent(
                        self.leaf_color@,
                        #[trigger] color_start(b, i),
                        color_start(b, i + 1),
                    );
                assert(transparent@[i]);
            }
            if self.has_transparency {
                let i = choose|i: int| 0 <= i < n && #[trigger] transparent@[i];
                assert(translucent(self.leaf_color@, color_start(b, i), color_start(b, i + 1)));
                assert(marked(self.leaf_bounds@[i]));
            }
            assert forall|i: int| 0 <= i < n && bounds_word(
                b.leaf_bounds@[i],
                b.leaves@[i],
            ) implies bounds_word(#[trigger] self.leaf_bounds@[i], self.leaves@[i]) by {
                let l = b.leaves@[i];
                let x = choose|x: LeafBounds| #[trigger]
                    l.bounded_by(x) && b.leaf_bounds@[i] % 0x4_0000 == x.packed();
                lemma_mark(b.leaf_bounds@[i], 0);
                assert(l.bounded_by(x) && self.leaf_bounds@[i] % 0x4_0000 == x.packed());
            }
        }
    }

    /// Appends the colours of leaf `idx` and reports whether one is not opaque.
    fn paint_leaf<F: Fn(VoxelCoord) -> [u8; 4]>(
        &self,
        tree: &SparseTree,
        color_of: &F,
        idx: usize,
        colors: &mut Vec<u32>,
    ) -> (saw: bool)
        requires
            tree.wf(),
            idx < self.leaves@.len(),
            tree.codes@.len() == self.leaves@.len(),
            forall|i: int, c: VoxelCoord|
                #[trigger] shows(*self, *tree, i, c) ==> color_of.requires((c,)),
            old(colors)@.len() + 512 <= usize::MAX || old(colors)@.len() <= u32::MAX,
        ensures
            final(colors)@.len() == old(colors)@.len() + ones(self.leaves@[idx as int]@, 512),
            forall|s: int|
                0 <= s < old(colors)@.len() ==> #[trigger] final(colors)@[s] == old(colors)@[s],
            painted(
                *self,
                *tree,
                *color_of,
                final(colors)@,
                old(colors)@.len() as int,
                idx as int,
                512,
            ),
            saw == translucent(
                final(colors)@,
                old(colors)@.len() as int,
                final(colors)@.len() as int,
            ),
    {
        let ghost start = colors@.len() as int;
        let ghost first = colors@;
        let origin: VoxelCoord = tree.leaf_origin(idx);
        let leaf: LeafBrick = self.leaves[idx];
        let mut saw: bool = false;
        let mut m: u32 = 0;
        while m < 512
            invariant
                m <= 512,
                tree.wf(),
                idx < self.leaves@.len(),
                leaf == self.leaves@[idx as int],
                tree.codes@.len() == self.leaves@.len(),
                forall|i: int, c: VoxelCoord|
                    #[trigger] shows(*self, *tree, i, c) ==> color_of.requires((c,)),
                brick_code(origin) == tree.codes@[idx as int],
                origin.x % 8 == 0 && origin.y % 8 == 0 && origin.z % 8 == 0,
                origin.within(tree.resolution),
                origin.x <= 0xff_fff8 && origin.y <= 0xff_fff8 && origin.z <= 0xff_fff8,
                start == first.len(),
                colors@.len() == start + ones(leaf@, m as int),
                forall|s: int| 0 <= s < start ==> #[trigger] colors@[s] == first[s],
                painted(*self, *tree, *color_of, colors@, start, idx as int, m as int),
                saw == translucent(colors@, start, colors@.len() as int),
            decreases 512 - m,
        {
            let ghost before = colors@;
            if leaf.get_morton(m) {
                let l: VoxelCoord = morton::decode(m as u64);
                proof {
                    crate::morton::lemma_local_of_decode(l, m);
                    lemma_in_brick(origin, l, tree.resolution);
                }
                let world = VoxelCoord::new(origin.x + l.x, origin.y + l.y, origin.z + l.z);
                assert(shows(*self, *tree, idx as int, world));
                let col: [u8; 4] = color_of(world);
                let (r0, g0, b0, a0) = (col[0], col[1], col[2], col[3]);
                let word: u32 = (r0 as u32) | ((g0 as u32) << 8) | ((b0 as u32) << 16) | ((
                a0 as u32) << 24);
                proof {
                    assert((r0 as u32) | ((g0 as u32) << 8) | ((b0 as u32) << 16) | ((a0 as u32)
                        << 24) == r0 + 256 * g0 + 65536 * b0 + 0x100_0000 * a0) by (bit_vector);
                    assert(word / 0x100_0000 == a0);
                }
                colors.push(word);
                proof {
                    lemma_painted_step(
                        *self,
                        *tree,
                        *color_of,
                        before,
                        colors@,
                        start,
                        idx as int,
                        m as int,
                        world,
                    );
                    lemma_translucent_push(before, word, start);
                }
                saw = saw || col[3] < 255;
            } else {
                proof {
                    assert forall|c: VoxelCoord|
                        #[trigger] shows(*self, *tree, idx as int, c) && local_index(
                            c.x,
                            c.y,
                            c.z,
                        ) < m + 1 implies local_index(c.x, c.y, c.z) < m by {}
                }
            }
            m = m + 1;
        }
        saw
    }

    /// Sets the transparency bit in the bounds words of the leaves named, and clears
    /// it in the others.
    fn flag_transparent(&mut self, transparent: &Vec<bool>)
        requires
            old(self).leaf_bounds@.len() == transparent@.len(),
        ensures
            final(self).resolution == old(self).resolution,
            final(self).nodes == old(self).nodes,
            final(self).leaves == old(self).leaves,
            final(self).leaf_mat == old(self).leaf_mat,
            final(self).leaf_color == old(self).leaf_color,
            final(self).leaf_color_base == old(self).leaf_color_base,
            final(self).source_gen == old(self).source_gen,
            final(self).leaf_bounds@.len() == old(self).leaf_bounds@.len(),
            forall|i: int|
                0 <= i < transparent@.len() ==> #[trigger] final(self).leaf_bounds@[i]
                    == if transparent@[i] {
                    old(self).leaf_bounds@[i] | LeafBounds::TRANSPARENCY_BIT
                } else {
                    old(self).leaf_bounds@[i] & !LeafBounds::TRANSPARENCY_BIT
                },
            forall|i: int|
                0 <= i < transparent@.len() ==> marked(#[trigger] final(self).leaf_bounds@[i])
                    == transparent@[i],
            final(self).flag_in_step(),
            final(self).has_transparency <==> exists|i: int|
                0 <= i < transparent@.len() && #[trigger] transparent@[i],
    {
        let ghost b = *self;
        self.has_transparency = false;
        let mut idx: usize = 0;
        while idx < transparent.len()
            invariant
                idx <= transparent@.len(),
                self.resolution == b.resolution,
                self.nodes == b.nodes,
                self.leaves == b.leaves,
                self.leaf_mat == b.leaf_mat,
                self.leaf_color == b.leaf_color,
                self.leaf_color_base == b.leaf_color_base,
                self.source_gen == b.source_gen,
                self.leaf_bounds@.len() == b.leaf_bounds@.len(),
                self.leaf_bounds@.len() == transparent@.len(),
                forall|i: int|
                    0 <= i < transparent@.len() ==> #[trigger] self.leaf_bounds@[i] == if i >= idx {
                        b.leaf_bounds@[i]
                    } else if transparent@[i] {
                        b.leaf_bounds@[i] | LeafBounds::TRANSPARENCY_BIT
                    } else {
                        b.leaf_bounds@[i] & !LeafBounds::TRANSPARENCY_BIT
                    },
                self.has_transparency <==> exists|i: int| 0 <= i < idx && #[trigger] transparent@[i],
            decreases transparent.len() - idx,
        {
            if transparent[idx] {
                self.leaf_bounds[idx] = self.leaf_bounds[idx] | LeafBounds::TRANSPARENCY_BIT;
                self.has_transparency = true;
            } else {
                self.leaf_bounds[idx] = self.leaf_bounds[idx] & !LeafBounds::TRANSPARENCY_BIT;
            }
            idx = idx + 1;
        }
        proof {
            assert forall|i: int| 0 <= i < transparent@.len() implies marked(
                #[trigger] self.leaf_bounds@[i],
            ) == transparent@[i] by {
                lemma_mark(b.leaf_bounds@[i], 0);
            }
            if self.has_transparency {
                let i = choose|i: int| 0 <= i < transparent@.len() && #[trigger] transparent@[i];
                assert(marked(self.leaf_bounds@[i]));
            }
        }
    }

    /// The compact per-occupied-voxel colour words (RGBA8, R low), or empty if
    /// [`assemble_leaf_color`](Self::assemble_leaf_color) has not run.
    #[must_use]
    pub fn leaf_color_words(&self) -> (r: &[u32])
        ensures
            r@ == self.leaf_color@,
    {
        self.leaf_color.as_slice()
    }

    /// The per-leaf colour base offsets, or empty if
    /// [`assemble_leaf_color`](Self::assemble_leaf_color) has not run.
    #[must_use]
    pub fn leaf_color_base_words(&self) -> (r: &[u32])
        ensures
            r@ == self.leaf_color_base@,
    {
        self.leaf_color_base.as_slice()
    }

    /// Whether a colour buffer has been assembled. `false` when no colour was
    /// baked **or** the bake produced an empty buffer (a scene with zero
    /// occupied voxels): both route to the palette pipeline.
    #[must_use]
    pub fn has_leaf_color(&self) -> (r: bool)
        ensures
            r == (self.leaf_color@.len() > 0),
    {
        self.leaf_color.len() > 0
    }

    /// Whether [`assemble_leaf_color`](Self::assemble_leaf_color) baked any
    /// semi-transparent voxel (alpha `< 255`). When true at least one leaf carries
    /// [`LeafBounds::TRANSPARENCY_BIT`].
    #[must_use]
    pub fn has_transparency(&self) -> (r: bool)
        ensures
            r == self.has_transparency,
    {
        self.has_transparency
    }

    /// The single node buffer.
    #[must_use]
    pub fn nodes(&self) -> (r: &[GpuNode])
        ensures
            r@ == self.nodes@,
    {
        self.nodes.as_slice()
    }

    /// The leaf array.
    #[must_use]
    pub fn leaves(&self) -> (r: &[LeafBrick])
        ensures
            r@ == self.leaves@,
    {
        self.leaves.as_slice()
    }

    /// The packed per-leaf [`LeafBounds`] words (one per leaf).
    #[must_use]
    pub fn leaf_bounds_words(&self) -> (r: &[u32])
        ensures
            r@ == self.leaf_bounds@,
    {
        self.leaf_bounds.as_slice()
    }

    /// The packed per-leaf material slots ([`STRIDE_W`] words per leaf).
    #[must_use]
    pub fn leaf_mat_words(&self) -> (r: &[u32])
        ensures
            r@ == self.leaf_mat@,
    {
        self.leaf_mat.as_slice()
    }

    /// Total node-buffer length.
    #[must_use]
    pub fn node_count(&self) -> (r: usize)
        ensures
            r == self.nodes@.len(),
    {
        self.nodes.len()
    }

    /// Patches leaf `idx` in place after an in-place edit, copying the leaf from
    /// `tree` and recomputing its bounds. Node masks and indices are untouched
    /// (an in-place edit changes neither), and so are the baked colours and the
    /// leaf's transparency bit.
    ///
    /// `tree` must not have had a topology change since this buffer was built:
    /// its generation must still match.
    pub fn patch_leaf(&mut self, tree: &SparseTree, idx: u32)
        requires
            tree.topo_gen == old(self).source_gen,
            idx < tree.leaves@.len(),
            idx < old(self).leaves@.len(),
            idx < old(self).leaf_bounds@.len(),
        ensures
            final(self).leaves@ == old(self).leaves@.update(
                idx as int,
                tree.leaves@[idx as int],
            ),
            final(self).leaf_bounds@ == old(self).leaf_bounds@.update(
                idx as int,
                final(self).leaf_bounds@[idx as int],
            ),
            bounds_word(final(self).leaf_bounds@[idx as int], tree.leaves@[idx as int]),
            final(self).leaf_bounds@[idx as int] & LeafBounds::TRANSPARENCY_BIT == old(
                self,
            ).leaf_bounds@[idx as int] & LeafBounds::TRANSPARENCY_BIT,
            final(self).leaf_bounds@[idx as int] < 2 * LeafBounds::TRANSPARENCY_BIT,
            old(self).flag_in_step() ==> final(self).flag_in_step(),
            final(self).resolution == old(self).resolution,
            final(self).nodes == old(self).nodes,
            final(self).leaf_mat == old(self).leaf_mat,
            final(self).leaf_color == old(self).leaf_color,
            final(self).leaf_color_base == old(self).leaf_color_base,
            final(self).has_transparency == old(self).has_transparency,
            final(self).source_gen == old(self).source_gen,
    {
        let i: usize = idx as usize;
        let leaf: LeafBrick = tree.leaves[i];
        let bounds: LeafBounds = leaf.occupied_bounds();
        let word: u32 = bounds.pack();
        self.leaves[i] = leaf;
        let ghost b = *self;
        let old_word: u32 = self.leaf_bounds[i];
        self.leaf_bounds[i] = word | (old_word & LeafBounds::TRANSPARENCY_BIT);
        proof {
            lemma_mark(word, old_word);
            assert(leaf.bounded_by(bounds) && self.leaf_bounds@[i as int] % 0x4_0000
                == bounds.packed());
            assert forall|j: int| 0 <= j < b.leaf_bounds@.len() implies marked(
                #[trigger] self.leaf_bounds@[j],
            ) == marked(b.leaf_bounds@[j]) by {}
            if exists|j: int| 0 <= j < b.leaf_bounds@.len() && marked(#[trigger] b.leaf_bounds@[j]) {
                let j = choose|j: int|
                    0 <= j < b.leaf_bounds@.len() && marked(#[trigger] b.leaf_bounds@[j]);
                assert(marked(self.leaf_bounds@[j]));
            }
        }
    }

    /// Re-derives leaf `idx`'s material slot in place after an in-place edit.
    /// Like [`patch_leaf`](Self::patch_leaf), it reads from `tree` and needs its
    /// generation to match: a material edit of a spilled leaf bumps it, so such
    /// an edit is not patched.
    pub fn patch_leaf_mat(&mut self, tree: &SparseTree, idx: u32)
        requires
            tree.topo_gen == old(self).source_gen,
            idx < tree.leaves@.len(),
            idx < tree.materials@.len(),
            STRIDE_W * idx + STRIDE_W <= old(self).leaf_mat@.len(),
        ensures
            final(self).leaf_mat@.len() == old(self).leaf_mat@.len(),
            is_leaf_slot(
                slot_words(final(self).leaf_mat@, idx as int),
                tree.materials@[idx as int]@,
                tree.leaves@[idx as int]@,
            ),
            forall|w: int|
                0 <= w < old(self).leaf_mat@.len() && !(STRIDE_W * idx <= w < STRIDE_W * idx
                    + STRIDE_W) ==> #[trigger] final(self).leaf_mat@[w] == old(self).leaf_mat@[w],
            final(self).resolution == old(self).resolution,
            final(self).nodes == old(self).nodes,
            final(self).leaves == old(self).leaves,
            final(self).leaf_bounds == old(self).leaf_bounds,
            final(self).leaf_color == old(self).leaf_color,
            final(self).leaf_color_base == old(self).leaf_color_base,
            final(self).has_transparency == old(self).has_transparency,
            final(self).source_gen == old(self).source_gen,
            old(self).flag_in_step() ==> final(self).flag_in_step(),
    {
        let ghost b = *self;
        let slot: [u32; STRIDE_W] = leaf_slot(tree, idx as usize);
        let total: usize = self.leaf_mat.len();
        let base: usize = idx as usize * STRIDE_W;
        let mut w: usize = 0;
        while w < STRIDE_W
            invariant
                w <= STRIDE_W,
                base == STRIDE_W * idx,
                base + STRIDE_W <= total,
                total == self.leaf_mat@.len(),
                self.leaf_mat@.len() == b.leaf_mat@.len(),
                self.resolution == b.resolution,
                self.nodes == b.nodes,
                self.leaves == b.leaves,
                self.leaf_bounds == b.leaf_bounds,
                self.leaf_color == b.leaf_color,
                self.leaf_color_base == b.leaf_color_base,
                self.has_transparency == b.has_transparency,
                self.source_gen == b.source_gen,
                forall|v: int|
                    0 <= v < self.leaf_mat@.len() ==> #[trigger] self.leaf_mat@[v] == if base <= v
                        < base + w {
                        slot@[v - base]
                    } else {
                        b.leaf_mat@[v]
                    },
            decreases STRIDE_W - w,
        {
            self.leaf_mat[base + w] = slot[w];
            w = w + 1;
        }
        assert(slot_words(self.leaf_mat@, idx as int) =~= slot@);
    }

    /// The leaf brick at `idx`.
    #[must_use]
    pub fn leaf_at(&self, idx: u32) -> (r: &LeafBrick)
        requires
            idx < self.leaves@.len(),
        ensures
            *r == self.leaves@[idx as int],
    {
        &self.leaves[idx as usize]
    }
}

proof fn lemma_translucent_push(colors: Seq<u32>, word: u32, lo: int)
    requires
        0 <= lo <= colors.len(),
    ensures
        translucent(colors.push(word), lo, colors.len() as int + 1) == (translucent(
            colors,
            lo,
            colors.len() as int,
        ) || word / 0x100_0000 < 255),
{
    let after = colors.push(word);
    if translucent(colors, lo, colors.len() as int) {
        let s = choose|s: int| lo <= s < colors.len() && (#[trigger] colors[s]) / 0x100_0000 < 255;
        assert(after[s] / 0x100_0000 < 255);
    }
    if word / 0x100_0000 < 255 {
        assert(after[colors.len() as int] / 0x100_0000 < 255);
    }
    if translucent(after, lo, colors.len() as int + 1) {
        let s = choose|s: int|
            lo <= s < colors.len() + 1 && (#[trigger] after[s]) / 0x100_0000 < 255;
        if s < colors.len() {
            assert(colors[s] / 0x100_0000 < 255);
        }
    }
}

proof fn lemma_translucent_frame(a: Seq<u32>, b: Seq<u32>, lo: int, hi: int)
    requires
        0 <= lo,
        hi <= a.len(),
        forall|s: int| 0 <= s < a.len() ==> #[trigger] b[s] == a[s],
    ensures
        translucent(a, lo, hi) == translucent(b, lo, hi),
{
    if translucent(a, lo, hi) {
        let s = choose|s: int| lo <= s < hi && (#[trigger] a[s]) / 0x100_0000 < 255;
        assert(b[s] / 0x100_0000 < 255);
    }
    if translucent(b, lo, hi) {
        let s = choose|s: int| lo <= s < hi && (#[trigger] b[s]) / 0x100_0000 < 255;
        assert(a[s] / 0x100_0000 < 255);
    }
}

proof fn lemma_painted_step<F: Fn(VoxelCoord) -> [u8; 4]>(
    b: SchoolBBuffer,
    t: SparseTree,
    color_of: F,
    before: Seq<u32>,
    after: Seq<u32>,
    base: int,
    i: int,
    m: int,
    world: VoxelCoord,
)
    requires
        0 <= i < b.leaves@.len(),
        0 <= m < 512,
        0 <= base,
        before.len() == base + ones(b.leaves@[i]@, m),
        after == before.push(after[before.len() as int]),
        painted(b, t, color_of, before, base, i, m),
        shows(b, t, i, world),
        local_index(world.x, world.y, world.z) == m,
        colored(color_of, world, after[before.len() as int]),
    ensures
        painted(b, t, color_of, after, base, i, m + 1),
{
    let leaf = b.leaves@[i]@;
    assert forall|c: VoxelCoord|
        #[trigger] shows(b, t, i, c) && local_index(c.x, c.y, c.z) < m + 1 implies colored(
        color_of,
        c,
        after[base + ones(leaf, local_index(c.x, c.y, c.z))],
    ) by {
        let n = local_index(c.x, c.y, c.z);
        lemma_local_range(c.x, c.y, c.z);
        if n == m {
            lemma_same_voxel(c, world);
        } else {
            assert(leaf[n]);
            assert(ones(leaf, n + 1) == ones(leaf, n) + 1);
            lemma_ones_monotone(leaf, n + 1, m);
        }
    }
}

proof fn lemma_painted_frame<F: Fn(VoxelCoord) -> [u8; 4]>(
    b: SchoolBBuffer,
    t: SparseTree,
    color_of: F,
    before: Seq<u32>,
    after: Seq<u32>,
    i: int,
)
    requires
        0 <= i < b.leaves@.len(),
        color_start(b, i + 1) <= before.len(),
        forall|s: int| 0 <= s < before.len() ==> #[trigger] after[s] == before[s],
        painted(b, t, color_of, before, color_start(b, i), i, 512),
    ensures
        painted(b, t, color_of, after, color_start(b, i), i, 512),
{
    let leaf = b.leaves@[i]@;
    assert forall|c: VoxelCoord|
        #[trigger] shows(b, t, i, c) && local_index(c.x, c.y, c.z) < 512 implies colored(
        color_of,
        c,
        after[color_start(b, i) + ones(leaf, local_index(c.x, c.y, c.z))],
    ) by {
        let n = local_index(c.x, c.y, c.z);
        lemma_local_range(c.x, c.y, c.z);
        assert(leaf[n]);
        assert(ones(leaf, n + 1) == ones(leaf, n) + 1);
        lemma_ones_monotone(leaf, n + 1, 512);
    }
}

/// Descending the buffer from a placed node finds what descending the tree from
/// its own node does.
proof fn lemma_same_descent(
    r: SchoolBBuffer,
    t: SparseTree,
    pos: int,
    level: nat,
    a: int,
    start: int,
    c: VoxelCoord,
)
    requires
        t.wf(),
        r.structure_of(t),
        r.nodes@.len() <= MAX_CELLS,
        2 <= level <= t.resolution.levels() + 1,
        0 <= a < t.nodes@[level as int]@.len(),
        placed(r.nodes@, t.nodes@, level, pos, a, a + 1, start),
    ensures
        descends(&r, Cell::Node(pos as u32), level, c) == descends(
            &t,
            Cell::Node(a as u32),
            level,
            c,
        ),
        lands(&r, Cell::Node(pos as u32), level, c) == lands(&t, Cell::Node(a as u32), level, c),
    decreases level,
{
    let an = t.nodes@;
    let node = an[level as int]@[a];
    let base = node.child_base as int;
    let b = toward(c, level);
    let below = (level - 1) as nat;
    lemma_level_len(an, t.codes@, t.resolution.levels() as nat, level);
    lemma_children_in_range(t, level, a);
    lemma_placed_one(r.nodes@, an, level, pos, a, start);
    let rc = r.spec_child(pos as u32, level as u32, b);
    let tc = t.spec_child(a as u32, level as u32, b);
    assert(descends(&r, Cell::Node(pos as u32), level, c) == descends(&r, rc, below, c));
    assert(descends(&t, Cell::Node(a as u32), level, c) == descends(&t, tc, below, c));
    assert(lands(&r, Cell::Node(pos as u32), level, c) == lands(&r, rc, below, c));
    assert(lands(&t, Cell::Node(a as u32), level, c) == lands(&t, tc, below, c));
    assert(r.nodes@[pos].has(b as int) == node.has(b as int));
    assert(r.nodes@[pos].rank(b as int) == node.rank(b as int));
    if node.has(b as int) {
        lemma_rank_below(node, b as int);
        let j = node.rank(b as int) as int;
        if level == 2 {
            assert(rc == tc);
        } else {
            let n = node.rank(64) as int;
            let s = start + n + subtree_nodes(an, below, base, base + j) - j;
            lemma_placed_pick(r.nodes@, an, below, start, base, base + n, start + n, base + j);
            lemma_placed_one(r.nodes@, an, below, start + j, base + j, s);
            lemma_same_descent(r, t, start + j, below, base + j, s, c);
        }
    }
}

/// Both layouts store the same voxels in the same leaves: a descent of the
/// serialized buffer finds exactly the voxels the tree has occupied, and ends at
/// the slot the tree keeps the voxel's brick in.
pub proof fn law_layouts_agree(r: SchoolBBuffer, t: SparseTree, c: VoxelCoord)
    requires
        t.wf(),
        r.structure_of(t),
        r.nodes@.len() <= MAX_CELLS,
    ensures
        stores(&r, c) == stores(&t, c),
        stores(&r, c) == t.occupied(c),
        leaf_of(&r, c) == leaf_of(&t, c),
        leaf_of(&r, c) == t.leaf_cell(c),
{
    law_descent_finds_occupied(t, c);
    law_descent_reaches_slot(t, c);
    if t.codes@.len() > 0 && t.resolution.levels() >= 1 {
        lemma_one_root(t);
        lemma_same_descent(r, t, 0, (t.resolution.levels() + 1) as nat, 0, 1, c);
    }
}

/// A topology-class edit (one that counts the generation up) leaves every buffer
/// serialized before it stale, so that no patch is taken from the edited tree.
pub proof fn law_topology_class_edit_is_refused(b: SchoolBBuffer, t0: SparseTree, t1: SparseTree)
    requires
        b.source_gen == t0.topo_gen,
        t1.topo_gen == t0.topo_gen.wrapping_add(1),
    ensures
        t1.topo_gen != b.source_gen,
{
}

/// Patching the edited leaf of an in-place edit brings the buffer's structure
/// back in step with the tree: what a fresh serialization would give.
pub proof fn law_patch_follows_edit(
    b0: SchoolBBuffer,
    b1: SchoolBBuffer,
    t0: SparseTree,
    t1: SparseTree,
    i: int,
)
    requires
        b0.structure_of(t0),
        in_place(t0, t1, i),
        t0.leaves@.len() == t0.codes@.len(),
        b1.resolution == b0.resolution,
        b1.nodes == b0.nodes,
        b1.source_gen == b0.source_gen,
        b1.leaves@ == b0.leaves@.update(i, t1.leaves@[i]),
        b1.leaf_bounds@ == b0.leaf_bounds@.update(i, b1.leaf_bounds@[i]),
        bounds_word(b1.leaf_bounds@[i], t1.leaves@[i]),
    ensures
        b1.structure_of(t1),
{
    assert(b1.leaves@ =~= t1.leaves@);
    assert forall|j: int| 0 <= j < b1.leaves@.len() implies bounds_word(
        #[trigger] b1.leaf_bounds@[j],
        b1.leaves@[j],
    ) by {
        if j != i {
            assert(b0.leaf_bounds@[j] == b1.leaf_bounds@[j]);
        }
    }
}

/// Patching the edited leaf's material slot brings the buffer's materials back
/// in step with the tree.
pub proof fn law_material_patch_follows_edit(
    b0: SchoolBBuffer,
    b1: SchoolBBuffer,
    t0: SparseTree,
    t1: SparseTree,
    i: int,
)
    requires
        b0.materials_of(t0),
        t1.leaves@.len() == t0.leaves@.len(),
        t1.materials@.len() == t0.materials@.len(),
        0 <= i < t0.leaves@.len(),
        forall|j: int|
            0 <= j < t0.leaves@.len() && j != i ==> #[trigger] t1.leaves@[j] == t0.leaves@[j],
        forall|j: int|
            0 <= j < t0.leaves@.len() && j != i ==> #[trigger] t1.materials@[j]
                == t0.materials@[j],
        b1.leaf_mat@.len() == b0.leaf_mat@.len(),
        is_leaf_slot(slot_words(b1.leaf_mat@, i), t1.materials@[i]@, t1.leaves@[i]@),
        forall|w: int|
            0 <= w < b0.leaf_mat@.len() && !(STRIDE_W * i <= w < STRIDE_W * i + STRIDE_W)
                ==> #[trigger] b1.leaf_mat@[w] == b0.leaf_mat@[w],
    ensures
        b1.materials_of(t1),
{
    assert forall|j: int| 0 <= j < t1.leaves@.len() implies is_leaf_slot(
        #[trigger] slot_words(b1.leaf_mat@, j),
        t1.materials@[j]@,
        t1.leaves@[j]@,
    ) by {
        if j != i {
            assert(slot_words(b1.leaf_mat@, j) =~= slot_words(b0.leaf_mat@, j));
            assert(t1.leaves@[j] == t0.leaves@[j]);
            assert(t1.materials@[j] == t0.materials@[j]);
        }
    }
}

/// Placement determines the buffer.
proof fn lemma_placed_unique(
    b1: Seq<GpuNode>,
    b2: Seq<GpuNode>,
    an: Seq<Vec<GpuNode>>,
    level: nat,
    pos: int,
    lo: int,
    hi: int,
    start: int,
)
    requires
        level >= 2,
        lo <= hi,
        placed(b1, an, level, pos, lo, hi, start),
        placed(b2, an, level, pos, lo, hi, start),
    ensures
        agree(b1, b2, pos, pos + (hi - lo)),
        agree(b1, b2, start, start + subtree_nodes(an, level, lo, hi) - (hi - lo)),
    decreases level, hi - lo,
{
    if lo < hi {
        let a = hi - 1;
        let node = an[level as int]@[a];
        let base = node.child_base as int;
        let n = node.rank(64) as int;
        let s = start + subtree_nodes(an, level, lo, a) - (a - lo);
        lemma_placed_unique(b1, b2, an, level, pos, lo, a, start);
        let p = pos + (a - lo);
        crate::node::lemma_node_determined(b1[p], b2[p]);
        if level > 2 {
            lemma_placed_unique(b1, b2, an, (level - 1) as nat, s, base, base + n, s + n);
        }
    } else {
        assert(subtree_nodes(an, level, lo, hi) == 0);
    }
}

/// A tree has one serialization: node buffer, bounds words (up to flags) and
/// material slots are determined by the tree.
pub proof fn law_serialization_unique(b1: SchoolBBuffer, b2: SchoolBBuffer, t: SparseTree)
    requires
        t.wf(),
        b1.structure_of(t),
        b2.structure_of(t),
        b1.materials_of(t),
        b2.materials_of(t),
    ensures
        b1.nodes@ == b2.nodes@,
        b1.leaves@ == b2.leaves@,
        forall|i: int|
            0 <= i < b1.leaf_bounds@.len() ==> (#[trigger] b1.leaf_bounds@[i]) % 0x4_0000
                == b2.leaf_bounds@[i] % 0x4_0000,
        b1.leaf_mat@ == b2.leaf_mat@,
{
    if t.codes@.len() > 0 && t.resolution.levels() >= 1 {
        let k = (t.resolution.levels() + 1) as nat;
        lemma_one_root(t);
        lemma_subtree_total(t, k);
        lemma_placed_unique(b1.nodes@, b2.nodes@, t.nodes@, k, 0, 0, 1, 1);
    } else {
        lemma_no_nodes(t, t.nodes@.len() as int);
    }
    assert(b1.nodes@ =~= b2.nodes@);
    assert forall|i: int| 0 <= i < b1.leaf_bounds@.len() implies (#[trigger] b1.leaf_bounds@[i])
        % 0x4_0000 == b2.leaf_bounds@[i] % 0x4_0000 by {
        let l = t.leaves@[i];
        let (v, w) = (b1.leaf_bounds@[i], b2.leaf_bounds@[i]);
        assert(bounds_word(v, l) && bounds_word(w, l));
        let x = choose|x: LeafBounds| #[trigger] l.bounded_by(x) && v % 0x4_0000 == x.packed();
        let y = choose|y: LeafBounds| #[trigger] l.bounded_by(y) && w % 0x4_0000 == y.packed();
        law_bounds_unique(l, x, y);
    }
    assert forall|w: int| 0 <= w < b1.leaf_mat@.len() implies b1.leaf_mat@[w]
        == b2.leaf_mat@[w] by {
        let i = w / (STRIDE_W as int);
        let j = w % (STRIDE_W as int);
        assert(w == STRIDE_W * i + j && 0 <= j < STRIDE_W && 0 <= i < t.leaves@.len());
        let (s1, s2) = (slot_words(b1.leaf_mat@, i), slot_words(b2.leaf_mat@, i));
        law_leaf_slot_unique(s1, s2, t.materials@[i]@, t.leaves@[i]@);
        assert(s1[j] == b1.leaf_mat@[w] && s2[j] == b2.leaf_mat@[w]);
    }
    assert(b1.leaf_mat@ =~= b2.leaf_mat@);
}

/// Serialization keeps every node, once.
pub proof fn law_node_count_preserved(r: SchoolBBuffer, t: SparseTree)
    requires
        r.structure_of(t),
    ensures
        r.nodes@.len() == node_total(t.nodes@, t.nodes@.len() as int),
        r.leaves@.len() == t.leaves@.len(),
{
}

/// A colour word holds red in its low byte, then green, blue and alpha. A range
/// of colours is translucent exactly where one of them was given less than full
/// alpha.
pub proof fn law_color_bytes(col: [u8; 4], colors: Seq<u32>, cols: Seq<[u8; 4]>, lo: int, hi: int)
    requires
        0 <= lo <= hi <= colors.len(),
        cols.len() == colors.len(),
        forall|s: int| lo <= s < hi ==> #[trigger] colors[s] == color_word(cols[s]),
    ensures
        color_word(col) % 256 == col[0],
        color_word(col) / 256 % 256 == col[1],
        color_word(col) / 65536 % 256 == col[2],
        color_word(col) / 0x100_0000 == col[3],
        translucent(colors, lo, hi) <==> exists|s: int| lo <= s < hi && (#[trigger] cols[s])[3] != 255,
{
    if exists|s: int| lo <= s < hi && (#[trigger] cols[s])[3] != 255 {
        let s = choose|s: int| lo <= s < hi && (#[trigger] cols[s])[3] != 255;
        assert(colors[s] == color_word(cols[s]));
        assert(colors[s] / 0x100_0000 < 255);
    }
    if translucent(colors, lo, hi) {
        let s = choose|s: int| lo <= s < hi && (#[trigger] colors[s]) / 0x100_0000 < 255;
        assert(cols[s][3] != 255);
    }
}

/// Serializing a tree gives a buffer of its structure and materials, without
/// colours, and the buffer's views are its parts.
pub proof fn law_serialization_views(
    t: SparseTree,
    b: SchoolBBuffer,
    nodes: &[GpuNode],
    leaves: &[LeafBrick],
    bounds: &[u32],
    mats: &[u32],
    colors: &[u32],
    bases: &[u32],
    colored: bool,
    transparent: bool,
    n: usize,
    i: u32,
    leaf: LeafBrick,
)
    requires
        t.wf(),
        nodes_indexable(t),
        STRIDE_W * t.leaves@.len() <= usize::MAX,
        call_ensures(SchoolBBuffer::from_sparse, (&t,), b),
        call_ensures(SchoolBBuffer::nodes, (&b,), nodes),
        call_ensures(SchoolBBuffer::leaves, (&b,), leaves),
        call_ensures(SchoolBBuffer::leaf_bounds_words, (&b,), bounds),
        call_ensures(SchoolBBuffer::leaf_mat_words, (&b,), mats),
        call_ensures(SchoolBBuffer::leaf_color_words, (&b,), colors),
        call_ensures(SchoolBBuffer::leaf_color_base_words, (&b,), bases),
        call_ensures(SchoolBBuffer::has_leaf_color, (&b,), colored),
        call_ensures(SchoolBBuffer::has_transparency, (&b,), transparent),
        call_ensures(SchoolBBuffer::node_count, (&b,), n),
        i < t.leaves@.len(),
        call_ensures(SchoolBBuffer::leaf_at, (&b, i), &leaf),
    ensures
        leaves@ == t.leaves@,
        leaf == t.leaves@[i as int],
        bounds@.len() == t.leaves@.len() && mats@.len() == 73 * t.leaves@.len(),
        n == nodes@.len() && n == node_total(t.nodes@, t.nodes@.len() as int),
        !colored && colors@.len() == 0 && bases@.len() == 0 && !transparent,
        bounds_word(bounds@[i as int], leaf),
        is_leaf_slot(slot_words(mats@, i as int), t.materials@[i as int]@, leaf@),
{
    assert(is_leaf_slot(
        slot_words(b.leaf_mat@, i as int),
        t.materials@[i as int]@,
        t.leaves@[i as int]@,
    ));
}

/// Patching a leaf after an in-place edit leaves the buffer as a fresh
/// serialization of the edited tree would have it.
pub proof fn law_patch_is_reserialization(
    b: &mut SchoolBBuffer,
    t0: SparseTree,
    t1: SparseTree,
    i: u32,
)
    requires
        t0.wf(),
        t1.wf(),
        old(b).structure_of(t0),
        in_place(t0, t1, i as int),
        call_ensures(SchoolBBuffer::patch_leaf, (b, &t1, i), ()),
    ensures
        final(b).structure_of(t1),
        final(b).leaf_mat == old(b).leaf_mat,
        final(b).leaf_color == old(b).leaf_color,
        marked(final(b).leaf_bounds@[i as int]) == marked(old(b).leaf_bounds@[i as int]),
{
    law_patch_follows_edit(*old(b), *final(b), t0, t1, i as int);
}

/// Patching a leaf's materials after they changed leaves the buffer's material
/// slots as a fresh serialization would have them.
pub proof fn law_material_patch_is_reserialization(
    b: &mut SchoolBBuffer,
    t0: SparseTree,
    t1: SparseTree,
    i: u32,
)
    requires
        t0.wf(),
        t1.wf(),
        old(b).materials_of(t0),
        t1.topo_gen == old(b).source_gen,
        in_place(t0, t1, i as int),
        call_ensures(SchoolBBuffer::patch_leaf_mat, (b, &t1, i), ()),
    ensures
        final(b).materials_of(t1),
        final(b).leaves == old(b).leaves,
        final(b).nodes == old(b).nodes,
        final(b).leaf_bounds == old(b).leaf_bounds,
{
    assert(STRIDE_W * i + STRIDE_W <= STRIDE_W * t0.leaves@.len());
    law_material_patch_follows_edit(*old(b), *final(b), t0, t1, i as int);
}

} // verus!
