//! Morton (Z-order) codes: interleaved coordinate bits.

use crate::coord::VoxelCoord;
use vstd::prelude::*;

verus! {

/// Maximum coordinate value per axis that a 64-bit Morton code can hold
/// (`2²¹ − 1`).
pub const MAX_MORTON_COORD: u32 = 0x1f_ffff;

/// The interleave of three numbers: bit `i` of `x`, `y`, `z` at bit `3i`,
/// `3i + 1`, `3i + 2`.
#[verifier::opaque]
pub open spec fn morton(x: nat, y: nat, z: nat) -> nat
    decreases x + y + z,
{
    if x == 0 && y == 0 && z == 0 {
        0
    } else {
        x % 2 + 2 * (y % 2) + 4 * (z % 2) + 8 * morton(x / 2, y / 2, z / 2)
    }
}

/// Morton index of a voxel in its `8³` brick; the low 3 bits of each
/// coordinate count.
pub open spec fn local_index(x: u32, y: u32, z: u32) -> int {
    morton((x % 8) as nat, (y % 8) as nat, (z % 8) as nat) as int
}

/// Spreads the low 21 bits of `v` so that bit `i` lands at bit `3·i`.
spec fn spread(v: u32) -> u64 {
    let x0 = (v as u64) & 0x1f_ffff;
    let x1 = (x0 | (x0 << 32)) & 0x001f_0000_0000_ffff;
    let x2 = (x1 | (x1 << 16)) & 0x001f_0000_ff00_00ff;
    let x3 = (x2 | (x2 << 8)) & 0x100f_00f0_0f00_f00f;
    let x4 = (x3 | (x3 << 4)) & 0x10c3_0c30_c30c_30c3;
    (x4 | (x4 << 2)) & 0x1249_2492_4924_9249
}

/// Gathers bits `3·i` of `v` back into bit `i`.
spec fn gather(v: u64) -> u32 {
    let x0 = v & 0x1249_2492_4924_9249;
    let x1 = (x0 | (x0 >> 2)) & 0x10c3_0c30_c30c_30c3;
    let x2 = (x1 | (x1 >> 4)) & 0x100f_00f0_0f00_f00f;
    let x3 = (x2 | (x2 >> 8)) & 0x001f_0000_ff00_00ff;
    let x4 = (x3 | (x3 >> 16)) & 0x001f_0000_0000_ffff;
    ((x4 | (x4 >> 32)) & 0x1f_ffff) as u32
}

spec fn interleave(x: u32, y: u32, z: u32) -> u64 {
    spread(x) | (spread(y) << 1) | (spread(z) << 2)
}

fn split_by_3(v: u32) -> (r: u64)
    ensures
        r == spread(v),
{
    let mut x: u64 = (v as u64) & 0x1f_ffff;  // keep 21 bits
    x = (x | (x << 32)) & 0x001f_0000_0000_ffff;
    x = (x | (x << 16)) & 0x001f_0000_ff00_00ff;
    x = (x | (x << 8)) & 0x100f_00f0_0f00_f00f;
    x = (x | (x << 4)) & 0x10c3_0c30_c30c_30c3;
    x = (x | (x << 2)) & 0x1249_2492_4924_9249;
    x
}

fn compact_by_3(v: u64) -> (r: u32)
    ensures
        r == gather(v),
{
    let mut x: u64 = v & 0x1249_2492_4924_9249;
    x = (x | (x >> 2)) & 0x10c3_0c30_c30c_30c3;
    x = (x | (x >> 4)) & 0x100f_00f0_0f00_f00f;
    x = (x | (x >> 8)) & 0x001f_0000_ff00_00ff;
    x = (x | (x >> 16)) & 0x001f_0000_0000_ffff;
    x = (x | (x >> 32)) & 0x1f_ffff;
    x as u32
}

/// Interleaves `(x, y, z)` into a 64-bit Morton code (`x` in the low bit of
/// each triple). Only the low 21 bits of each input count; higher bits are
/// dropped (and silently collide).
#[must_use]
pub fn encode(x: u32, y: u32, z: u32) -> (r: u64)
    ensures
        r == morton((x % 0x20_0000) as nat, (y % 0x20_0000) as nat, (z % 0x20_0000) as nat),
        r < 0x8000_0000_0000_0000,
{
    proof {
        lemma_interleave_low(x, y, z);
        lemma_interleave(x % 0x20_0000, y % 0x20_0000, z % 0x20_0000);
    }
    split_by_3(x) | (split_by_3(y) << 1) | (split_by_3(z) << 2)
}

/// Morton code of a [`VoxelCoord`].
#[must_use]
pub fn encode_coord(c: VoxelCoord) -> (r: u64)
    ensures
        r == morton((c.x % 0x20_0000) as nat, (c.y % 0x20_0000) as nat, (c.z % 0x20_0000) as nat),
        r < 0x8000_0000_0000_0000,
{
    encode(c.x, c.y, c.z)
}

/// Recovers `(x, y, z)` from a 64-bit Morton code: the coordinate whose
/// interleave the low 63 bits of `code` are.
#[must_use]
pub fn decode(code: u64) -> (r: VoxelCoord)
    ensures
        r.x <= MAX_MORTON_COORD,
        r.y <= MAX_MORTON_COORD,
        r.z <= MAX_MORTON_COORD,
        morton(r.x as nat, r.y as nat, r.z as nat) == code % 0x8000_0000_0000_0000,
{
    proof {
        lemma_gather_low(code);
        lemma_gather(code % 0x8000_0000_0000_0000);
    }
    VoxelCoord::new(compact_by_3(code), compact_by_3(code >> 1), compact_by_3(code >> 2))
}

/// Intra-brick Morton index of a voxel within its `8³` leaf brick.
///
/// Only the low 3 bits of each coordinate count; the result is in `0..512` and
/// indexes the leaf's 512-bit bitmask in Morton order.
#[must_use]
pub fn encode_brick(x: u32, y: u32, z: u32) -> (r: u32)
    ensures
        r == local_index(x, y, z),
        r < 512,
{
    proof {
        lemma_low3(x);
        lemma_low3(y);
        lemma_low3(z);
        lemma_bound512((x % 8) as nat, (y % 8) as nat, (z % 8) as nat);
    }
    encode(x & 7, y & 7, z & 7) as u32
}

proof fn lemma_low3(v: u32)
    ensures
        v & 7 == v % 8,
{
    assert(v & 7 == v % 8) by (bit_vector);
}

proof fn lemma_interleave_low(x: u32, y: u32, z: u32)
    ensures
        interleave(x, y, z) == interleave(x % 0x20_0000, y % 0x20_0000, z % 0x20_0000),
        interleave(x, y, z) < 0x8000_0000_0000_0000,
{
    assert(interleave(x, y, z) == interleave(x % 0x20_0000, y % 0x20_0000, z % 0x20_0000)
        && interleave(x, y, z) < 0x8000_0000_0000_0000) by (bit_vector);
}

proof fn lemma_interleave(x: u32, y: u32, z: u32)
    requires
        x < 0x20_0000,
        y < 0x20_0000,
        z < 0x20_0000,
    ensures
        interleave(x, y, z) == morton(x as nat, y as nat, z as nat),
    decreases x + y + z,
{
    lemma_morton_step(x as nat, y as nat, z as nat);
    if x == 0 && y == 0 && z == 0 {
        assert(interleave(0, 0, 0) == 0) by (bit_vector);
        lemma_morton_zero();
    } else {
        let (a, b, c) = (x >> 1, y >> 1, z >> 1);
        assert(interleave(x, y, z) == x % 2 + 2 * (y % 2) + 4 * (z % 2) + 8 * interleave(a, b, c)
            && a == x / 2 && b == y / 2 && c == z / 2) by (bit_vector)
            requires
                x < 0x20_0000,
                y < 0x20_0000,
                z < 0x20_0000,
                a == x >> 1,
                b == y >> 1,
                c == z >> 1,
        ;
        lemma_interleave(a, b, c);
    }
}

proof fn lemma_gather_low(c: u64)
    ensures
        gather(c) == gather(c % 0x8000_0000_0000_0000),
        gather(c >> 1) == gather((c % 0x8000_0000_0000_0000) >> 1),
        gather(c >> 2) == gather((c % 0x8000_0000_0000_0000) >> 2),
        gather(c) <= MAX_MORTON_COORD,
        gather(c >> 1) <= MAX_MORTON_COORD,
        gather(c >> 2) <= MAX_MORTON_COORD,
{
    assert({
        &&& gather(c) == gather(c % 0x8000_0000_0000_0000)
        &&& gather(c >> 1) == gather((c % 0x8000_0000_0000_0000) >> 1)
        &&& gather(c >> 2) == gather((c % 0x8000_0000_0000_0000) >> 2)
        &&& gather(c) <= 0x1f_ffff
        &&& gather(c >> 1) <= 0x1f_ffff
        &&& gather(c >> 2) <= 0x1f_ffff
    }) by (bit_vector);
}

proof fn lemma_gather(c: u64)
    requires
        c < 0x8000_0000_0000_0000,
    ensures
        morton(gather(c) as nat, gather(c >> 1) as nat, gather(c >> 2) as nat) == c,
    decreases c,
{
    let d = c >> 3;
    let (x, y, z) = (gather(c), gather(c >> 1), gather(c >> 2));
    let (a, b, e) = (gather(d), gather(d >> 1), gather(d >> 2));
    assert(gather(c) == c % 2 + 2 * gather(d) && gather(c >> 1) == (c / 2) % 2 + 2 * gather(d >> 1)
        && gather(c >> 2) == (c / 4) % 2 + 2 * gather(d >> 2) && d == c / 8) by (bit_vector)
        requires
            c < 0x8000_0000_0000_0000,
            d == c >> 3,
    ;
    if c == 0 {
        assert(gather(0) == 0 && gather(0u64 >> 1) == 0 && gather(0u64 >> 2) == 0) by (bit_vector);
        lemma_morton_zero();
    } else {
        lemma_gather(d);
        lemma_morton_step(x as nat, y as nat, z as nat);
        assert(x as nat / 2 == a as nat);
        assert(y as nat / 2 == b as nat);
        assert(z as nat / 2 == e as nat);
    }
}

/// One triple of bits off the bottom of a Morton code.
pub proof fn lemma_morton_step(x: nat, y: nat, z: nat)
    ensures
        morton(x, y, z) == x % 2 + 2 * (y % 2) + 4 * (z % 2) + 8 * morton(x / 2, y / 2, z / 2),
        morton(x, y, z) / 8 == morton(x / 2, y / 2, z / 2),
        morton(x, y, z) % 8 == x % 2 + 2 * (y % 2) + 4 * (z % 2),
{
    reveal(morton);
    assert(morton(0, 0, 0) == 0);
}

pub proof fn lemma_morton_zero()
    ensures
        morton(0, 0, 0) == 0,
{
    reveal(morton);
}

/// Two triples: the code of the `4³` cell, and the place inside it.
pub proof fn lemma_morton_cell4(x: nat, y: nat, z: nat)
    ensures
        morton(x, y, z) == morton(x % 4, y % 4, z % 4) + 64 * morton(x / 4, y / 4, z / 4),
        morton(x % 4, y % 4, z % 4) < 64,
        morton(x, y, z) / 64 == morton(x / 4, y / 4, z / 4),
        morton(x, y, z) % 64 == morton(x % 4, y % 4, z % 4),
{
    lemma_morton_step(x, y, z);
    lemma_morton_step(x / 2, y / 2, z / 2);
    lemma_morton_step(x % 4, y % 4, z % 4);
    lemma_morton_step((x % 4) / 2, (y % 4) / 2, (z % 4) / 2);
    lemma_morton_zero();
    assert(x % 4 % 2 == x % 2 && y % 4 % 2 == y % 2 && z % 4 % 2 == z % 2);
    assert((x % 4) / 2 == x / 2 % 2 && (y % 4) / 2 == y / 2 % 2 && (z % 4) / 2 == z / 2 % 2);
    assert((x % 4) / 2 / 2 == 0 && (y % 4) / 2 / 2 == 0 && (z % 4) / 2 / 2 == 0);
}

/// Three triples: the code of the `8³` brick, and the place inside it.
pub proof fn lemma_morton_cell8(x: nat, y: nat, z: nat)
    ensures
        morton(x, y, z) == morton(x % 8, y % 8, z % 8) + 512 * morton(x / 8, y / 8, z / 8),
        morton(x % 8, y % 8, z % 8) < 512,
{
    lemma_morton_step(x, y, z);
    lemma_morton_cell4(x / 2, y / 2, z / 2);
    lemma_morton_step(x % 8, y % 8, z % 8);
    lemma_axis8(x);
    lemma_axis8(y);
    lemma_axis8(z);
}

pub proof fn lemma_axis8(v: nat)
    ensures
        v % 8 % 4 == v % 4,
        (v % 8) / 2 == v / 2 % 4,
        v % 8 % 2 == v % 2,
        v / 2 / 4 == v / 8,
{
}

proof fn lemma_bound512(x: nat, y: nat, z: nat)
    requires
        x < 8,
        y < 8,
        z < 8,
    ensures
        morton(x, y, z) < 512,
{
    lemma_morton_cell8(x, y, z);
}

/// Brick-local indices lie in `0..512`.
pub proof fn lemma_local_range(x: u32, y: u32, z: u32)
    ensures
        0 <= local_index(x, y, z) < 512,
{
    lemma_bound512((x % 8) as nat, (y % 8) as nat, (z % 8) as nat);
}

/// A coordinate whose code is below 512 is brick-local.
pub proof fn lemma_local_of_decode(c: VoxelCoord, i: u32)
    requires
        i < 512,
        morton(c.x as nat, c.y as nat, c.z as nat) == i,
    ensures
        c.x < 8,
        c.y < 8,
        c.z < 8,
        local_index(c.x, c.y, c.z) == i,
{
    lemma_morton_cell8(c.x as nat, c.y as nat, c.z as nat);
    assert(morton((c.x / 8) as nat, (c.y / 8) as nat, (c.z / 8) as nat) == 0);
    lemma_morton_zero();
    law_morton_injective(
        (c.x / 8) as nat,
        (c.y / 8) as nat,
        (c.z / 8) as nat,
        0,
        0,
        0,
    );
}

/// Codes of coordinates within 21 bits per axis fit 63 bits.
pub proof fn lemma_codec_range(x: u32, y: u32, z: u32)
    requires
        x <= MAX_MORTON_COORD,
        y <= MAX_MORTON_COORD,
        z <= MAX_MORTON_COORD,
    ensures
        morton(x as nat, y as nat, z as nat) < 0x8000_0000_0000_0000,
{
    lemma_interleave(x, y, z);
    lemma_interleave_low(x, y, z);
}

/// The coordinate whose code a 63-bit number is.
pub proof fn lemma_decoded(code: u64) -> (c: VoxelCoord)
    requires
        code < 0x8000_0000_0000_0000,
    ensures
        c.x <= MAX_MORTON_COORD,
        c.y <= MAX_MORTON_COORD,
        c.z <= MAX_MORTON_COORD,
        morton(c.x as nat, c.y as nat, c.z as nat) == code,
{
    lemma_gather_low(code);
    lemma_gather(code);
    VoxelCoord { x: gather(code), y: gather(code >> 1), z: gather(code >> 2) }
}

/// Every index in `0..512` belongs to a brick-local coordinate.
pub proof fn lemma_local_onto(m: int) -> (c: VoxelCoord)
    requires
        0 <= m < 512,
    ensures
        c.x < 8,
        c.y < 8,
        c.z < 8,
        local_index(c.x, c.y, c.z) == m,
{
    let code = m as u64;
    lemma_gather(code);
    let c = VoxelCoord { x: gather(code), y: gather(code >> 1), z: gather(code >> 2) };
    lemma_local_of_decode(c, m as u32);
    c
}

/// No two coordinates share a Morton code.
pub proof fn law_morton_injective(x: nat, y: nat, z: nat, a: nat, b: nat, c: nat)
    requires
        morton(x, y, z) == morton(a, b, c),
    ensures
        x == a && y == b && z == c,
    decreases x + y + z + a + b + c,
{
    if x + y + z + a + b + c > 0 {
        lemma_morton_step(x, y, z);
        lemma_morton_step(a, b, c);
        law_morton_injective(x / 2, y / 2, z / 2, a / 2, b / 2, c / 2);
    }
}

/// Growing one coordinate, or several, grows the code.
pub proof fn law_morton_monotone(x: nat, y: nat, z: nat, a: nat, b: nat, c: nat)
    requires
        x <= a,
        y <= b,
        z <= c,
    ensures
        morton(x, y, z) <= morton(a, b, c),
        x < a || y < b || z < c ==> morton(x, y, z) < morton(a, b, c),
    decreases a + b + c,
{
    if a + b + c > 0 {
        lemma_morton_step(x, y, z);
        lemma_morton_step(a, b, c);
        law_morton_monotone(x / 2, y / 2, z / 2, a / 2, b / 2, c / 2);
    }
}

/// Decoding undoes encoding wherever the codec has the bits: whatever
/// coordinate in range has the code of `(x, y, z)` is `(x, y, z)`.
pub proof fn law_decode_inverts_encode(x: u32, y: u32, z: u32, code: u64, r: VoxelCoord)
    requires
        x <= MAX_MORTON_COORD,
        y <= MAX_MORTON_COORD,
        z <= MAX_MORTON_COORD,
        code == morton((x % 0x20_0000) as nat, (y % 0x20_0000) as nat, (z % 0x20_0000) as nat),
        code < 0x8000_0000_0000_0000,
        morton(r.x as nat, r.y as nat, r.z as nat) == code % 0x8000_0000_0000_0000,
    ensures
        r == (VoxelCoord { x, y, z }),
{
    law_morton_injective(r.x as nat, r.y as nat, r.z as nat, x as nat, y as nat, z as nat);
}

/// Encoding and decoding undo each other, for every coordinate the codec holds
/// and for every code of 63 bits; a coordinate encodes as its components do.
pub proof fn law_codec_round_trips(
    x: u32,
    y: u32,
    z: u32,
    code: u64,
    same: u64,
    back: VoxelCoord,
    any: u64,
    at: VoxelCoord,
    again: u64,
)
    requires
        x <= MAX_MORTON_COORD,
        y <= MAX_MORTON_COORD,
        z <= MAX_MORTON_COORD,
        call_ensures(encode, (x, y, z), code),
        call_ensures(encode_coord, (VoxelCoord { x, y, z },), same),
        call_ensures(decode, (code,), back),
        any < 0x8000_0000_0000_0000,
        call_ensures(decode, (any,), at),
        call_ensures(encode_coord, (at,), again),
    ensures
        back == (VoxelCoord { x, y, z }),
        code == same,
        again == any,
{
    law_decode_inverts_encode(x, y, z, code, back);
}

/// Bits interleave x first: a code's lowest three bits are the lowest bits of x,
/// y and z in this order, and the rest is the code of the halves.
pub proof fn law_bits_interleave(x: nat, y: nat, z: nat)
    ensures
        morton(x, y, z) % 2 == x % 2,
        morton(x, y, z) / 2 % 2 == y % 2,
        morton(x, y, z) / 4 % 2 == z % 2,
        morton(x, y, z) / 8 == morton(x / 2, y / 2, z / 2),
{
    lemma_morton_step(x, y, z);
}

/// Within a brick only the place in it counts: voxels a brick apart have one
/// index, and different places have different ones.
pub proof fn law_brick_index_is_local(
    x: u32,
    y: u32,
    z: u32,
    a: u32,
    b: u32,
    c: u32,
    i: u32,
    j: u32,
)
    requires
        call_ensures(encode_brick, (x, y, z), i),
        call_ensures(encode_brick, (a, b, c), j),
    ensures
        i < 512,
        i == j <==> x % 8 == a % 8 && y % 8 == b % 8 && z % 8 == c % 8,
{
    if i == j {
        law_morton_injective(
            (x % 8) as nat,
            (y % 8) as nat,
            (z % 8) as nat,
            (a % 8) as nat,
            (b % 8) as nat,
            (c % 8) as nat,
        );
    }
}

} // verus!
