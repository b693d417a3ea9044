//! Internal `4³` nodes: a 64-bit child mask and a child base index.

use crate::bits::{bit, bits_of, lemma_bit_ops, lemma_bits_determine, lemma_halves, lemma_ones_agree, lemma_ones_monotone, lemma_parts, ones};
use crate::morton::{self, lemma_axis8, lemma_morton_cell4, local_index, morton};
use vstd::prelude::*;

verus! {

/// An internal `4³` node in the GPU layout: a 64-bit child mask (split into two
/// `u32`) and the base index of this node's children in the child level's
/// array.
#[derive(Debug, Clone, Copy, PartialEq, Eq, Structural)]
pub struct GpuNode {
    /// Child-mask bits 0..32.
    pub mask_lo: u32,
    /// Child-mask bits 32..64.
    pub mask_hi: u32,
    /// Index of this node's first stored child in the child level's array.
    pub child_base: u32,
}

impl GpuNode {
    /// The 64-bit child mask.
    pub open spec fn spec_mask(self) -> u64 {
        ((self.mask_hi as u64) << 32) | self.mask_lo as u64
    }

    /// Whether child `b` is present.
    pub open spec fn has(self, b: int) -> bool {
        bit(self.spec_mask(), b)
    }

    /// How many children are present below `b`.
    pub open spec fn rank(self, b: int) -> nat {
        ones(bits_of(self.spec_mask()), b)
    }

    /// Builds a node from a full 64-bit child mask and a child base index.
    #[must_use]
    pub fn new(mask: u64, child_base: u32) -> (r: Self)
        ensures
            r.spec_mask() == mask,
            r.child_base == child_base,
    {
        assert(((((mask >> 32) as u32) as u64) << 32) | ((mask as u32) as u64) == mask)
            by (bit_vector);
        Self { mask_lo: mask as u32, mask_hi: (mask >> 32) as u32, child_base }
    }

    /// The reassembled 64-bit child mask.
    #[must_use]
    pub fn mask(self) -> (r: u64)
        ensures
            r == self.spec_mask(),
            forall|b: int|
                0 <= b < 64 ==> #[trigger] bit(r, b) == if b < 32 {
                    bit(self.mask_lo as u64, b)
                } else {
                    bit(self.mask_hi as u64, b - 32)
                },
    {
        let r: u64 = ((self.mask_hi as u64) << 32) | self.mask_lo as u64;
        proof {
            self.lemma_mask_halves();
            assert(r == self.spec_mask());
        }
        r
    }

    /// Whether child `bit` (`0..64`) is present.
    #[must_use]
    pub fn has_child(self, bit: u32) -> (r: bool)
        requires
            bit < 64,
        ensures
            r == self.has(bit as int),
    {
        (self.mask() >> bit) & 1 == 1
    }

    /// The array index of child `bit` among this node's stored children:
    /// `child_base + popcount(mask & ((1 << bit) − 1))`.
    ///
    /// Only meaningful when [`has_child`](Self::has_child) is true.
    #[must_use]
    pub fn child_slot(self, bit: u32) -> (r: u32)
        requires
            bit < 64,
            self.child_base + self.rank(bit as int) <= u32::MAX,
        ensures
            r == self.child_base + self.rank(bit as int),
    {
        let mask: u64 = self.mask();
        let below: u64 = if bit == 0 {
            0
        } else {
            proof {
                lemma_bit_ops(mask, bit as u64, 0);
            }
            mask & ((1u64 << bit) - 1)
        };
        proof {
            lemma_rank_of_masked(mask, bit, below);
        }
        self.child_base + below.count_ones()
    }

    proof fn lemma_mask_halves(self)
        ensures
            forall|b: int|
                0 <= b < 64 ==> #[trigger] bit(self.spec_mask(), b) == if b < 32 {
                    bit(self.mask_lo as u64, b)
                } else {
                    bit(self.mask_hi as u64, b - 32)
                },
    {
        let (lo, hi) = (self.mask_lo, self.mask_hi);
        assert(((hi as u64) << 32) | lo as u64 == (lo as u64) | ((hi as u64) << 32)) by (bit_vector);
        assert forall|b: int| 0 <= b < 64 implies #[trigger] bit(self.spec_mask(), b) == if b < 32 {
            bit(lo as u64, b)
        } else {
            bit(hi as u64, b - 32)
        } by {
            if b < 32 {
                lemma_halves(0, lo, hi, b as u64);
            } else {
                lemma_halves(0, lo, hi, (b - 32) as u64);
            }
        }
    }
}

/// Masking a word to its low `n` bits leaves `ones(.., n)` ones.
proof fn lemma_rank_of_masked(mask: u64, n: u32, below: u64)
    requires
        n < 64,
        n == 0 ==> below == 0,
        n > 0 ==> below == mask & ((1u64 << n) - 1) as u64,
    ensures
        ones(bits_of(below), 64) == ones(bits_of(mask), n as int),
{
    let m: u64 = if n == 0 { 0 } else { mask };
    assert(below == m & ((1u64 << n) - 1) as u64) by {
        if n == 0 {
            assert(0u64 & ((1u64 << 0u32) - 1) as u64 == 0) by (bit_vector);
        }
    }
    assert forall|i: int| 0 <= i < 64 implies #[trigger] bits_of(below)[i] == (i < n && bits_of(
        mask,
    )[i]) by {
        lemma_bit_ops(m, n as u64, i as u64);
    }
    lemma_ones_agree(bits_of(below), bits_of(mask), n as int);
    lemma_tail_clear(bits_of(below), n as int, 64);
}

/// Clear entries past `a` add nothing to the count.
pub proof fn lemma_tail_clear(s: Seq<bool>, a: int, b: int)
    requires
        0 <= a <= b,
        forall|i: int| a <= i < b ==> !#[trigger] s[i],
    ensures
        ones(s, b) == ones(s, a),
    decreases b,
{
    if a < b {
        lemma_tail_clear(s, a, b - 1);
    }
}

/// The 6-bit Morton child index of a `4³` child at coordinate `(cx, cy, cz)`;
/// only the low 2 bits of each count. Matches the low 6 bits of the
/// descendant's brick Morton code.
#[must_use]
pub fn child_bit(cx: u32, cy: u32, cz: u32) -> (r: u32)
    ensures
        r == morton((cx % 4) as nat, (cy % 4) as nat, (cz % 4) as nat),
        r < 64,
{
    let i: u32 = morton::encode_brick(cx, cy, cz);
    proof {
        lemma_parts(i);
        lemma_child_of_brick(cx, cy, cz);
    }
    i & 63
}

proof fn lemma_child_of_brick(cx: u32, cy: u32, cz: u32)
    ensures
        local_index(cx, cy, cz) % 64 == morton(
            (cx % 4) as nat,
            (cy % 4) as nat,
            (cz % 4) as nat,
        ),
{
    let (x, y, z) = ((cx % 8) as nat, (cy % 8) as nat, (cz % 8) as nat);
    lemma_axis8(cx as nat);
    lemma_axis8(cy as nat);
    lemma_axis8(cz as nat);
    lemma_morton_cell4(x, y, z);
}

/// A node is determined by its child mask and its child base.
pub proof fn lemma_node_determined(a: GpuNode, b: GpuNode)
    requires
        forall|i: int| 0 <= i < 64 ==> a.has(i) == #[trigger] b.has(i),
        a.child_base == b.child_base,
    ensures
        a == b,
{
    assert forall|i: int| 0 <= i < 64 implies bit(a.spec_mask(), i) == #[trigger] bit(
        b.spec_mask(),
        i,
    ) by {
        assert(a.has(i) == b.has(i));
    }
    lemma_bits_determine(a.spec_mask(), b.spec_mask());
    let (al, ah, bl, bh) = (a.mask_lo, a.mask_hi, b.mask_lo, b.mask_hi);
    assert(al == bl && ah == bh) by (bit_vector)
        requires
            ((ah as u64) << 32) | al as u64 == ((bh as u64) << 32) | bl as u64,
    ;
}

/// The slots of the present children of a node are consecutive: each present
/// child adds one to the slot of everything after it.
pub proof fn law_child_slots_consecutive(n: GpuNode, b: int)
    requires
        0 <= b < 64,
    ensures
        n.rank(b + 1) == n.rank(b) + if n.has(b) {
            1int
        } else {
            0int
        },
        n.rank(b) <= b,
{
    lemma_ones_monotone(bits_of(n.spec_mask()), 0, b);
    assert(bits_of(n.spec_mask())[b] == n.has(b));
}

/// A node keeps the mask it was made of: child `b` is present exactly where the
/// mask has bit `b`, in the low half below 32 and in the high half from there.
pub proof fn law_node_keeps_mask(
    mask: u64,
    child_base: u32,
    n: GpuNode,
    m: u64,
    b: u32,
    present: bool,
)
    requires
        b < 64,
        call_ensures(GpuNode::new, (mask, child_base), n),
        call_ensures(GpuNode::mask, (n,), m),
        call_ensures(GpuNode::has_child, (n, b), present),
    ensures
        m == mask,
        n.child_base == child_base,
        present <==> bit(mask, b as int),
        b < 32 ==> present == bit(n.mask_lo as u64, b as int),
        b >= 32 ==> present == bit(n.mask_hi as u64, b - 32),
{
    assert(bit(m, b as int) == n.has(b as int));
}

/// The stored children stand one after the other from the base on, in child
/// order: the first is at the base, the next present one right after, and no two
/// present ones share a slot.
pub proof fn law_slots_follow_children(n: GpuNode, b: u32, c: u32, at: u32, then: u32)
    requires
        b < c < 64,
        n.has(b as int),
        n.has(c as int),
        n.child_base + 64 <= u32::MAX,
        call_ensures(GpuNode::child_slot, (n, b), at),
        call_ensures(GpuNode::child_slot, (n, c), then),
    ensures
        at < then,
        (forall|k: int| 0 <= k < b ==> !#[trigger] n.has(k)) ==> at == n.child_base,
        (forall|k: int| b < k < c ==> !#[trigger] n.has(k)) ==> then == at + 1,
{
    let s = bits_of(n.spec_mask());
    law_child_slots_consecutive(n, b as int);
    lemma_ones_monotone(s, b + 1, c as int);
    if forall|k: int| 0 <= k < b ==> !#[trigger] n.has(k) {
        assert forall|k: int| 0 <= k < b implies !#[trigger] s[k] by {
            assert(!n.has(k));
        }
        lemma_tail_clear(s, 0, b as int);
    }
    if forall|k: int| b < k < c ==> !#[trigger] n.has(k) {
        assert forall|k: int| b + 1 <= k < c implies !#[trigger] s[k] by {
            assert(!n.has(k));
        }
        lemma_tail_clear(s, b + 1, c as int);
    }
}

/// A child's index interleaves its place in the node, and only the place counts:
/// children four apart have one index, and different places have different ones.
pub proof fn law_child_index_is_local(
    x: u32,
    y: u32,
    z: u32,
    a: u32,
    b: u32,
    c: u32,
    i: u32,
    j: u32,
)
    requires
        call_ensures(child_bit, (x, y, z), i),
        call_ensures(child_bit, (a, b, c), j),
    ensures
        i < 64,
        i == j <==> x % 4 == a % 4 && y % 4 == b % 4 && z % 4 == c % 4,
{
    if i == j {
        morton::law_morton_injective(
            (x % 4) as nat,
            (y % 4) as nat,
            (z % 4) as nat,
            (a % 4) as nat,
            (b % 4) as nat,
            (c % 4) as nat,
        );
    }
}

/// The lowest bits of a child's index are its coordinates' lowest, x first.
pub proof fn law_child_index_interleaves(x: u32, y: u32, z: u32, i: u32)
    requires
        call_ensures(child_bit, (x, y, z), i),
    ensures
        i % 2 == x % 2,
        i / 2 % 2 == y % 2,
        i / 4 % 2 == z % 2,
{
    lemma_low_bit(x);
    lemma_low_bit(y);
    lemma_low_bit(z);
    morton::law_bits_interleave((x % 4) as nat, (y % 4) as nat, (z % 4) as nat);
}

proof fn lemma_low_bit(v: u32)
    ensures
        (v % 4) as nat % 2 == v % 2,
{
}

} // verus!
