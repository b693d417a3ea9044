//! Internal node levels over a sorted list of brick codes.
//!
//! Level `L`'s nodes group the codes of level `L − 1` by their parent (the code
//! without its last six bits). A child is found from its parent's mask by
//! rank: the children of a node are stored consecutively, in code order.

use crate::bits::{bit, bits_of, lemma_bit_ops, lemma_ones_agree, lemma_ones_update, lemma_ones_zero, lemma_zero_bit, ones};
use crate::morton::{lemma_morton_cell4, morton};
use crate::node::{lemma_node_determined, lemma_tail_clear, GpuNode};
use crate::resolution::{lemma_pow4_increases, lemma_side_is_pow2, pow4};
use vstd::arithmetic::div_mod::lemma_div_denominator;
use vstd::bits::lemma_u32_shr_is_div;
use vstd::prelude::*;

verus! {

/// Most cells a level can hold and still be addressed by `u32` indices.
pub const MAX_CELLS: u64 = 0x1_0000_0000;

/// Strictly increasing.
pub open spec fn ascending(codes: Seq<u64>) -> bool {
    forall|i: int, j: int| 0 <= i < j < codes.len() ==> codes[i] < codes[j]
}

/// The index one past the children of node `p`.
pub open spec fn group_end(children: Seq<u64>, nodes: Seq<GpuNode>, p: int) -> int {
    if p + 1 < nodes.len() {
        nodes[p + 1].child_base as int
    } else {
        children.len() as int
    }
}

/// `node` is the parent, with code `parent`, of the children at `lo..hi`: its
/// mask has exactly their last six bits, and ranks them in order.
pub open spec fn groups(
    children: Seq<u64>,
    node: GpuNode,
    parent: u64,
    lo: int,
    hi: int,
) -> bool {
    &&& 0 <= lo < hi <= children.len()
    &&& node.child_base == lo
    &&& node.rank(64) == hi - lo
    &&& forall|i: int|
        lo <= i < hi ==> (#[trigger] children[i]) / 64 == parent && node.has(
            (children[i] % 64) as int,
        ) && node.rank((children[i] % 64) as int) == i - lo
    &&& forall|b: int|
        0 <= b < 64 && #[trigger] node.has(b) ==> lo <= lo + node.rank(b) < hi && children[lo
            + node.rank(b)] % 64 == b
}

/// `nodes`, with the codes `parents`, is the level above `children`.
pub open spec fn is_level(children: Seq<u64>, nodes: Seq<GpuNode>, parents: Seq<u64>) -> bool {
    &&& nodes.len() == parents.len()
    &&& nodes.len() == 0 <==> children.len() == 0
    &&& ascending(parents)
    &&& nodes.len() > 0 ==> nodes[0].child_base == 0
    &&& forall|p: int|
        0 <= p < nodes.len() ==> groups(
            children,
            #[trigger] nodes[p],
            parents[p],
            nodes[p].child_base as int,
            group_end(children, nodes, p),
        )
}

/// The codes of the cells at traversal level `level`: the bricks' at level 1,
/// and above it each node's first child's without its last six bits.
pub open spec fn level_codes(
    nodes: Seq<Vec<GpuNode>>,
    codes: Seq<u64>,
    level: nat,
) -> Seq<u64>
    decreases level,
{
    if level <= 1 {
        codes
    } else {
        let below = level_codes(nodes, codes, (level - 1) as nat);
        Seq::new(
            nodes[level as int]@.len(),
            |p: int| below[nodes[level as int]@[p].child_base as int] / 64,
        )
    }
}

/// Levels `2..=k+1` of `nodes` are the levels above the bricks `codes`.
pub open spec fn are_levels(nodes: Seq<Vec<GpuNode>>, codes: Seq<u64>, k: nat) -> bool {
    &&& nodes.len() == k + 2
    &&& nodes[0]@.len() == 0
    &&& nodes[1]@.len() == 0
    &&& forall|l: nat|
        2 <= l <= k + 1 ==> is_level(
            level_codes(nodes, codes, (l - 1) as nat),
            (#[trigger] nodes[l as int])@,
            level_codes(nodes, codes, l),
        )
}

/// `code` without its last `j` groups of six bits.
pub open spec fn ancestor(code: nat, j: nat) -> nat
    decreases j,
{
    if j == 0 {
        code
    } else {
        ancestor(code, (j - 1) as nat) / 64
    }
}

/// `64^k`.
pub open spec fn pow64(k: nat) -> nat
    decreases k,
{
    if k == 0 {
        1
    } else {
        64 * pow64((k - 1) as nat)
    }
}

proof fn lemma_code_parts(c: u64)
    ensures
        c >> 6 == c / 64,
        c & 63 == c % 64,
{
    assert(c >> 6 == c / 64 && c & 63 == c % 64) by (bit_vector);
}

/// The children at `lo..i` gathered into `mask`, in the middle of a group.
spec fn gathered(children: Seq<u64>, mask: u64, parent: u64, lo: int, i: int) -> bool {
    &&& 0 <= lo <= i <= children.len()
    &&& ones(bits_of(mask), 64) == i - lo
    &&& forall|j: int|
        lo <= j < i ==> (#[trigger] children[j]) / 64 == parent && bit(
            mask,
            (children[j] % 64) as int,
        ) && ones(bits_of(mask), (children[j] % 64) as int) == j - lo
    &&& forall|b: int|
        0 <= b < 64 && #[trigger] bit(mask, b) ==> lo <= lo + ones(bits_of(mask), b) < i
            && children[lo + ones(bits_of(mask), b)] % 64 == b
}

proof fn lemma_gather_one(children: Seq<u64>, mask: u64, parent: u64, lo: int, i: int)
    requires
        ascending(children),
        gathered(children, mask, parent, lo, i),
        i < children.len(),
        children[i] / 64 == parent,
    ensures
        gathered(children, mask | (1u64 << (children[i] & 63)), parent, lo, i + 1),
{
    let s = (children[i] % 64) as int;
    lemma_code_parts(children[i]);
    let after = mask | (1u64 << (children[i] & 63));
    assert forall|b: int| 0 <= b < 64 implies #[trigger] bit(after, b) == (b == s || bit(
        mask,
        b,
    )) by {
        lemma_bit_ops(mask, s as u64, b as u64);
    }
    // Everything gathered so far lies below `s`.
    assert forall|b: int| 0 <= b < 64 && #[trigger] bit(mask, b) implies b < s by {
        let j = lo + ones(bits_of(mask), b);
        assert(children[j] < children[i]);
        assert(children[j] / 64 == parent);
    }
    assert(bits_of(after) =~= bits_of(mask).update(s, true));
    lemma_tail_clear(bits_of(mask), s, 64);
    lemma_ones_update(bits_of(mask), s, true, 64);
    assert forall|b: int| 0 <= b <= s implies #[trigger] ones(bits_of(after), b) == ones(
        bits_of(mask),
        b,
    ) by {
        lemma_ones_agree(bits_of(after), bits_of(mask), b);
    }
    assert forall|j: int| lo <= j < i + 1 implies (#[trigger] children[j]) / 64 == parent && bit(
        after,
        (children[j] % 64) as int,
    ) && ones(bits_of(after), (children[j] % 64) as int) == j - lo by {
        if j < i {
            assert(bit(mask, (children[j] % 64) as int));
        }
    }
    assert forall|b: int| 0 <= b < 64 && #[trigger] bit(after, b) implies lo <= lo + ones(
        bits_of(after),
        b,
    ) < i + 1 && children[lo + ones(bits_of(after), b)] % 64 == b by {
        if b != s {
            assert(bit(mask, b));
        }
    }
}

/// Groups a sorted list of child Morton codes into `4³` parent nodes.
///
/// Returns the parent nodes (each with its child mask and the base index of its
/// children in the input array) and the parents' own Morton codes, ready to be
/// grouped again one level up.
pub fn build_parents(child_codes: &[u64]) -> (r: (Vec<GpuNode>, Vec<u64>))
    requires
        ascending(child_codes@),
        child_codes@.len() <= MAX_CELLS,
    ensures
        is_level(child_codes@, r.0@, r.1@),
        forall|p: int|
            0 <= p < r.1@.len() ==> #[trigger] r.1@[p]
                == child_codes@[r.0@[p].child_base as int] / 64,
{
    let mut nodes: Vec<GpuNode> = Vec::new();
    let mut parent_codes: Vec<u64> = Vec::new();
    let mut i: usize = 0;
    let ghost children = child_codes@;
    proof {
        assert forall|j: int| 0 <= j < children.len() implies (#[trigger] children[j]) >> 6
            == children[j] / 64 by {
            lemma_code_parts(children[j]);
        }
    }
    while i < child_codes.len()
        invariant
            children == child_codes@,
            forall|j: int|
                0 <= j < children.len() ==> (#[trigger] children[j]) >> 6 == children[j] / 64,
            ascending(children),
            children.len() <= MAX_CELLS,
            i <= children.len(),
            nodes@.len() == parent_codes@.len(),
            nodes@.len() == 0 <==> i == 0,
            nodes@.len() > 0 ==> nodes@[0].child_base == 0,
            ascending(parent_codes@),
            forall|p: int|
                #![trigger nodes@[p]]
                #![trigger parent_codes@[p]]
                0 <= p < nodes@.len() ==> groups(
                    children,
                    nodes@[p],
                    parent_codes@[p],
                    nodes@[p].child_base as int,
                    group_end(children.take(i as int), nodes@, p),
                ),
            0 < i < children.len() ==> parent_codes@.last() < children[i as int] / 64,
        decreases child_codes.len() - i,
    {
        let parent: u64 = child_codes[i] >> 6;
        let child_base: u32 = i as u32;
        let mut mask: u64 = 0;
        let ghost lo = i as int;
        proof {
            assert forall|b: int| 0 <= b < 64 implies !#[trigger] bit(0u64, b) by {
                lemma_zero_bit(b as u64);
            }
            lemma_ones_zero(bits_of(0u64), 64);
        }
        while i < child_codes.len() && (child_codes[i] >> 6) == parent
            invariant
                children == child_codes@,
                forall|j: int|
                    0 <= j < children.len() ==> (#[trigger] children[j]) >> 6 == children[j] / 64,
                ascending(children),
                gathered(children, mask, parent, lo, i as int),
                lo < children.len(),
                children[lo] / 64 == parent,
            ensures
                lo < i,
                i < children.len() ==> children[i as int] / 64 != parent,
            decreases child_codes.len() - i,
        {
            proof {
                lemma_code_parts(children[i as int]);
                lemma_gather_one(children, mask, parent, lo, i as int);
            }
            mask = mask | (1u64 << (child_codes[i] & 63));
            i = i + 1;
        }
        let node = GpuNode::new(mask, child_base);
        let ghost before = nodes@;
        nodes.push(node);
        parent_codes.push(parent);
        proof {
            assert forall|b: int| 0 <= b < 64 implies node.has(b) == #[trigger] bit(mask, b) by {}
            assert(groups(children, node, parent, lo, i as int)) by {
                assert forall|j: int| lo <= j < i implies (#[trigger] children[j]) / 64 == parent
                    && node.has((children[j] % 64) as int) && node.rank((children[j] % 64) as int)
                    == j - lo by {
                    assert(bit(mask, (children[j] % 64) as int));
                }
                assert forall|b: int| 0 <= b < 64 && #[trigger] node.has(b) implies lo <= lo
                    + node.rank(b) < i && children[lo + node.rank(b)] % 64 == b by {
                    assert(bit(mask, b));
                }
            }
            assert forall|p: int|
                #![trigger nodes@[p]]
                0 <= p < nodes@.len() implies groups(
                children,
                nodes@[p],
                parent_codes@[p],
                nodes@[p].child_base as int,
                group_end(children.take(i as int), nodes@, p),
            ) by {
                if p < before.len() {
                    assert(before[p] == nodes@[p]);
                    assert(group_end(children.take(lo), before, p) == group_end(
                        children.take(i as int),
                        nodes@,
                        p,
                    ));
                }
            }
            if i < children.len() {
                assert(children[i - 1] < children[i as int]);
                assert(children[i - 1] / 64 == parent);
            }
        }
    }
    proof {
        assert(children.take(i as int) =~= children);
        assert forall|p: int| 0 <= p < parent_codes@.len() implies #[trigger] parent_codes@[p]
            == children[nodes@[p].child_base as int] / 64 by {
            assert(groups(
                children,
                nodes@[p],
                parent_codes@[p],
                nodes@[p].child_base as int,
                group_end(children, nodes@, p),
            ));
        }
    }
    (nodes, parent_codes)
}

/// Finds `code` in an ascending list: its index, or where it would be inserted.
pub fn search(codes: &[u64], code: u64) -> (r: Result<usize, usize>)
    requires
        ascending(codes@),
    ensures
        r matches Ok(i) ==> i < codes@.len() && codes@[i as int] == code,
        r matches Err(at) ==> at <= codes@.len() && (forall|i: int|
            #![trigger codes@[i]]
            0 <= i < at ==> codes@[i] < code) && (forall|i: int|
            #![trigger codes@[i]]
            at <= i < codes@.len() ==> code < codes@[i]),
{
    let mut lo: usize = 0;
    let mut hi: usize = codes.len();
    while lo < hi
        invariant
            ascending(codes@),
            lo <= hi <= codes@.len(),
            forall|i: int| 0 <= i < lo ==> #[trigger] codes@[i] < code,
            forall|i: int| hi <= i < codes@.len() ==> code < #[trigger] codes@[i],
        decreases hi - lo,
    {
        let mid: usize = lo + (hi - lo) / 2;
        let probe: u64 = codes[mid];
        if probe == code {
            return Ok(mid);
        }
        if probe < code {
            lo = mid + 1;
        } else {
            hi = mid;
        }
    }
    Err(lo)
}

/// Level codes below a level do not depend on the nodes at or above it.
proof fn lemma_level_codes_frame(
    a: Seq<Vec<GpuNode>>,
    b: Seq<Vec<GpuNode>>,
    codes: Seq<u64>,
    level: nat,
)
    requires
        forall|l: int| 2 <= l <= level ==> a[l] == #[trigger] b[l],
    ensures
        level_codes(a, codes, level) == level_codes(b, codes, level),
    decreases level,
{
    if level > 1 {
        lemma_level_codes_frame(a, b, codes, (level - 1) as nat);
        assert(a[level as int] == b[level as int]);
    }
}

/// A level has at most as many nodes as the level below has cells.
pub proof fn lemma_level_shrinks(children: Seq<u64>, nodes: Seq<GpuNode>, parents: Seq<u64>, n: int)
    requires
        is_level(children, nodes, parents),
        0 <= n <= nodes.len(),
    ensures
        n < nodes.len() ==> n <= nodes[n].child_base,
        nodes.len() <= children.len(),
    decreases nodes.len() - n, n,
{
    lemma_bases_grow(children, nodes, parents, n);
    if nodes.len() > 0 {
        let last = nodes.len() - 1;
        lemma_bases_grow(children, nodes, parents, last);
        assert(groups(
            children,
            nodes[last],
            parents[last],
            nodes[last].child_base as int,
            group_end(children, nodes, last),
        ));
    }
}

proof fn lemma_bases_grow(children: Seq<u64>, nodes: Seq<GpuNode>, parents: Seq<u64>, n: int)
    requires
        is_level(children, nodes, parents),
        0 <= n <= nodes.len(),
    ensures
        n < nodes.len() ==> n <= nodes[n].child_base,
    decreases n,
{
    if 0 < n < nodes.len() {
        lemma_bases_grow(children, nodes, parents, n - 1);
        assert(groups(
            children,
            nodes[n - 1],
            parents[n - 1],
            nodes[n - 1].child_base as int,
            group_end(children, nodes, n - 1),
        ));
    }
}

/// Builds the internal node levels `2..=k+1` bottom-up from the (ascending)
/// leaf-brick Morton codes by repeatedly grouping them `64` to a node.
/// `nodes[L]` holds level-`L` nodes; indices `0` and `1` are unused.
pub fn build_levels(k: u32, leaf_codes: &[u64]) -> (r: Vec<Vec<GpuNode>>)
    requires
        k < u32::MAX - 2,
        ascending(leaf_codes@),
        leaf_codes@.len() <= MAX_CELLS,
    ensures
        are_levels(r@, leaf_codes@, k as nat),
{
    let mut nodes: Vec<Vec<GpuNode>> = Vec::new();
    nodes.push(Vec::new());
    nodes.push(Vec::new());
    let mut codes: Vec<u64> = vstd::slice::slice_to_vec(leaf_codes);
    let mut level: u32 = 2;
    while level <= k + 1
        invariant
            k < u32::MAX - 2,
            2 <= level <= k + 2,
            nodes@.len() == level,
            nodes@[0]@.len() == 0,
            nodes@[1]@.len() == 0,
            ascending(codes@),
            codes@.len() <= MAX_CELLS,
            codes@ == level_codes(nodes@, leaf_codes@, (level - 1) as nat),
            forall|l: nat|
                2 <= l < level ==> is_level(
                    level_codes(nodes@, leaf_codes@, (l - 1) as nat),
                    (#[trigger] nodes@[l as int])@,
                    level_codes(nodes@, leaf_codes@, l),
                ),
        decreases k + 2 - level,
    {
        let (parents, parent_codes) = build_parents(&codes);
        let ghost before = nodes@;
        proof {
            lemma_level_shrinks(codes@, parents@, parent_codes@, 0);
        }
        nodes.push(parents);
        proof {
            let l = level as nat;
            lemma_level_codes_frame(before, nodes@, leaf_codes@, (l - 1) as nat);
            assert(parent_codes@ =~= level_codes(nodes@, leaf_codes@, l));
            assert forall|j: nat| 2 <= j < level + 1 implies is_level(
                level_codes(nodes@, leaf_codes@, (j - 1) as nat),
                (#[trigger] nodes@[j as int])@,
                level_codes(nodes@, leaf_codes@, j),
            ) by {
                if j < level {
                    assert(nodes@[j as int] == before[j as int]);
                    lemma_level_codes_frame(before, nodes@, leaf_codes@, (j - 1) as nat);
                    lemma_level_codes_frame(before, nodes@, leaf_codes@, j);
                }
            }
        }
        codes = parent_codes;
        level = level + 1;
    }
    nodes
}

/// Every cell of a level lies in the group of one node.
pub proof fn lemma_find_group(
    children: Seq<u64>,
    nodes: Seq<GpuNode>,
    parents: Seq<u64>,
    i: int,
) -> (p: int)
    requires
        is_level(children, nodes, parents),
        0 <= i < children.len(),
    ensures
        0 <= p < nodes.len(),
        nodes[p].child_base <= i < group_end(children, nodes, p),
        parents[p] == children[i] / 64,
{
    let p = lemma_find_group_from(children, nodes, parents, i, 0);
    assert(groups(
        children,
        nodes[p],
        parents[p],
        nodes[p].child_base as int,
        group_end(children, nodes, p),
    ));
    p
}

proof fn lemma_find_group_from(
    children: Seq<u64>,
    nodes: Seq<GpuNode>,
    parents: Seq<u64>,
    i: int,
    from: int,
) -> (p: int)
    requires
        is_level(children, nodes, parents),
        0 <= i < children.len(),
        0 <= from < nodes.len(),
        nodes[from].child_base <= i,
    ensures
        0 <= p < nodes.len(),
        nodes[p].child_base <= i < group_end(children, nodes, p),
    decreases nodes.len() - from,
{
    if i < group_end(children, nodes, from) {
        from
    } else {
        lemma_find_group_from(children, nodes, parents, i, from + 1)
    }
}

/// A child of a node, found by its last six bits: the mask has the bit exactly
/// where the child's code is in the level below, and base plus rank is its
/// index there.
pub proof fn lemma_child_lookup(
    children: Seq<u64>,
    nodes: Seq<GpuNode>,
    parents: Seq<u64>,
    p: int,
    b: int,
)
    requires
        is_level(children, nodes, parents),
        0 <= p < nodes.len(),
        0 <= b < 64,
    ensures
        nodes[p].has(b) ==> 0 <= nodes[p].child_base + nodes[p].rank(b) < children.len()
            && children[nodes[p].child_base + nodes[p].rank(b)] == 64 * parents[p] + b,
        nodes[p].has(b) <==> exists|i: int|
            0 <= i < children.len() && #[trigger] children[i] == 64 * parents[p] + b,
{
    let lo = nodes[p].child_base as int;
    let hi = group_end(children, nodes, p);
    assert(groups(children, nodes[p], parents[p], lo, hi));
    if nodes[p].has(b) {
        let i = lo + nodes[p].rank(b);
        assert(children[i] / 64 == parents[p] && children[i] % 64 == b);
    }
    if exists|i: int| 0 <= i < children.len() && #[trigger] children[i] == 64 * parents[p] + b {
        let i = choose|i: int|
            0 <= i < children.len() && #[trigger] children[i] == 64 * parents[p] + b;
        let q = lemma_find_group(children, nodes, parents, i);
        if q < p {
            assert(parents[q] < parents[p]);
        } else if p < q {
            assert(parents[p] < parents[q]);
        }
        assert(children[i] % 64 == b);
    }
}

/// `ancestor` on Morton codes drops two bits of each coordinate per step.
pub proof fn lemma_ancestor_morton(x: nat, y: nat, z: nat, j: nat)
    ensures
        ancestor(morton(x, y, z), j) == morton(x / pow4(j), y / pow4(j), z / pow4(j)),
    decreases j,
{
    lemma_pow4_increases(0, j);
    if j > 0 {
        let i = (j - 1) as nat;
        lemma_pow4_increases(0, i);
        lemma_ancestor_morton(x, y, z, i);
        lemma_morton_cell4(x / pow4(i), y / pow4(i), z / pow4(i));
        lemma_div_denominator(x as int, pow4(i) as int, 4);
        lemma_div_denominator(y as int, pow4(i) as int, 4);
        lemma_div_denominator(z as int, pow4(i) as int, 4);
        assert(pow4(j) == pow4(i) * 4);
        assert(x / pow4(i) / 4 == x / pow4(j));
        assert(y / pow4(i) / 4 == y / pow4(j));
        assert(z / pow4(i) / 4 == z / pow4(j));
    } else {
        assert(x / 1 == x && y / 1 == y && z / 1 == z);
    }
}

/// The child bit that leads from level `level` towards the brick `(x, y, z)`.
pub proof fn lemma_descent_bit(x: u32, y: u32, z: u32, j: u32)
    requires
        j <= 14,
    ensures
        ancestor(morton(x as nat, y as nat, z as nat), j as nat) % 64 == morton(
            ((x >> (2 * j) as u32) % 4) as nat,
            ((y >> (2 * j) as u32) % 4) as nat,
            ((z >> (2 * j) as u32) % 4) as nat,
        ),
{
    let s: u32 = (2 * j) as u32;
    lemma_side_is_pow2(j as nat);
    lemma_u32_shr_is_div(x, s);
    lemma_u32_shr_is_div(y, s);
    lemma_u32_shr_is_div(z, s);
    lemma_ancestor_morton(x as nat, y as nat, z as nat, j as nat);
    let p = pow4(j as nat);
    lemma_morton_cell4(x as nat / p, y as nat / p, z as nat / p);
    assert((x >> s) as nat == x as nat / p);
    assert((y >> s) as nat == y as nat / p);
    assert((z >> s) as nat == z as nat / p);
}

/// A code below `64^k` has no ancestors but zero from level `k` on, and
/// `ancestor` stays below `64^(k - j)`.
pub proof fn lemma_ancestor_bound(code: nat, k: nat, j: nat)
    requires
        j <= k,
        code < pow64(k),
    ensures
        ancestor(code, j) < pow64((k - j) as nat),
    decreases j,
{
    if j > 0 {
        lemma_ancestor_bound(code, k, (j - 1) as nat);
        assert(pow64((k - (j - 1)) as nat) == 64 * pow64((k - j) as nat));
    }
}

/// Where a brick's code is stored, each of its ancestors' codes is stored at
/// the level above.
pub proof fn lemma_ancestor_stored(
    nodes: Seq<Vec<GpuNode>>,
    codes: Seq<u64>,
    k: nat,
    i: int,
    level: nat,
) -> (p: int)
    requires
        are_levels(nodes, codes, k),
        0 <= i < codes.len(),
        1 <= level <= k + 1,
    ensures
        0 <= p < level_codes(nodes, codes, level).len(),
        level_codes(nodes, codes, level)[p] == ancestor(codes[i] as nat, (level - 1) as nat),
    decreases level,
{
    if level == 1 {
        i
    } else {
        let below = (level - 1) as nat;
        let q = lemma_ancestor_stored(nodes, codes, k, i, below);
        assert(is_level(
            level_codes(nodes, codes, below),
            nodes[level as int]@,
            level_codes(nodes, codes, level),
        ));
        lemma_find_group(
            level_codes(nodes, codes, below),
            nodes[level as int]@,
            level_codes(nodes, codes, level),
            q,
        )
    }
}

/// Every stored cell's code is an ancestor of some brick's code.
pub proof fn lemma_stored_ancestor(
    nodes: Seq<Vec<GpuNode>>,
    codes: Seq<u64>,
    k: nat,
    level: nat,
    p: int,
) -> (i: int)
    requires
        are_levels(nodes, codes, k),
        1 <= level <= k + 1,
        0 <= p < level_codes(nodes, codes, level).len(),
    ensures
        0 <= i < codes.len(),
        level_codes(nodes, codes, level)[p] == ancestor(codes[i] as nat, (level - 1) as nat),
    decreases level,
{
    if level == 1 {
        p
    } else {
        let below = (level - 1) as nat;
        assert(is_level(
            level_codes(nodes, codes, below),
            nodes[level as int]@,
            level_codes(nodes, codes, level),
        ));
        let node = nodes[level as int]@[p];
        assert(groups(
            level_codes(nodes, codes, below),
            node,
            level_codes(nodes, codes, level)[p],
            node.child_base as int,
            group_end(level_codes(nodes, codes, below), nodes[level as int]@, p),
        ));
        lemma_stored_ancestor(nodes, codes, k, below, node.child_base as int)
    }
}

/// A level is determined by the codes below it: same masks, same bases, same
/// codes.
pub proof fn lemma_level_unique(
    children: Seq<u64>,
    n1: Seq<GpuNode>,
    p1: Seq<u64>,
    n2: Seq<GpuNode>,
    p2: Seq<u64>,
)
    requires
        is_level(children, n1, p1),
        is_level(children, n2, p2),
    ensures
        n1 == n2,
        p1 == p2,
{
    if children.len() > 0 {
        lemma_level_prefix(children, n1, p1, n2, p2, (n1.len() - 1) as int);
        lemma_level_prefix(children, n2, p2, n1, p1, (n2.len() - 1) as int);
        assert(n1.len() == n2.len());
        assert forall|p: int| 0 <= p < n1.len() implies n1[p] == n2[p] && p1[p] == p2[p] by {
            lemma_level_prefix(children, n1, p1, n2, p2, p);
        }
    }
    assert(n1 =~= n2);
    assert(p1 =~= p2);
}

/// Two levels over the same codes agree up to `p`.
proof fn lemma_level_prefix(
    children: Seq<u64>,
    n1: Seq<GpuNode>,
    p1: Seq<u64>,
    n2: Seq<GpuNode>,
    p2: Seq<u64>,
    p: int,
)
    requires
        is_level(children, n1, p1),
        is_level(children, n2, p2),
        0 <= p < n1.len(),
    ensures
        p < n2.len(),
        n1[p] == n2[p],
        p1[p] == p2[p],
        group_end(children, n1, p) == group_end(children, n2, p),
    decreases p,
{
    let lo = n1[p].child_base as int;
    if p > 0 {
        lemma_level_prefix(children, n1, p1, n2, p2, p - 1);
        assert(groups(children, n1[p], p1[p], lo, group_end(children, n1, p)));
        assert(p < n2.len());
    }
    let e1 = group_end(children, n1, p);
    let e2 = group_end(children, n2, p);
    assert(groups(children, n1[p], p1[p], lo, e1));
    assert(groups(children, n2[p], p2[p], lo, e2));
    assert(children[lo] / 64 == p1[p]);
    if e1 < e2 {
        assert(groups(
            children,
            n1[p + 1],
            p1[p + 1],
            e1,
            group_end(children, n1, p + 1),
        ));
        assert(children[e1] / 64 == p1[p + 1]);
        assert(p1[p] < p1[p + 1]);
    } else if e2 < e1 {
        assert(groups(
            children,
            n2[p + 1],
            p2[p + 1],
            e2,
            group_end(children, n2, p + 1),
        ));
        assert(children[e2] / 64 == p2[p + 1]);
        assert(p2[p] < p2[p + 1]);
    }
    assert forall|b: int| 0 <= b < 64 implies n1[p].has(b) == #[trigger] n2[p].has(b) by {
        if n1[p].has(b) {
            let i = lo + n1[p].rank(b);
            assert(children[i] % 64 == b);
        }
        if n2[p].has(b) {
            let i = lo + n2[p].rank(b);
            assert(children[i] % 64 == b);
        }
    }
    lemma_node_determined(n1[p], n2[p]);
}

/// A search finds a code exactly where it is listed, and else the one place
/// where it would stand.
pub proof fn law_search_finds(codes: &[u64], code: u64, r: Result<usize, usize>)
    requires
        ascending(codes@),
        call_ensures(search, (codes, code), r),
    ensures
        r is Ok <==> codes@.contains(code),
        r matches Ok(i) ==> codes@[i as int] == code,
        r matches Err(at) ==> ascending(codes@.insert(at as int, code)),
{
    if codes@.contains(code) {
        let i = choose|i: int| 0 <= i < codes@.len() && codes@[i] == code;
        if let Err(at) = r {
            if i < at {
                assert(codes@[i] < code);
            } else {
                assert(code < codes@[i]);
            }
        }
    }
    if let Ok(i) = r {
        assert(codes@[i as int] == code);
    }
}

} // verus!
