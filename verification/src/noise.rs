//! The integer half of lattice gradient noise: hashing lattice points and
//! choosing gradients.

use crate::bits::{lemma_parts, lemma_unit_factor, lemma_xor_keeps_apart};
use crate::fixtures::{finish, hash3, law_finish_keeps_apart, spec_hash3};
use vstd::prelude::*;

verus! {

/// The lattice hash on coordinates already reduced to 32 bits.
pub open spec fn spec_lattice_hash(seed: u32, x: u32, y: u32, z: u32) -> u32 {
    finish(
        seed ^ x.wrapping_mul(0x8da6_b343) ^ y.wrapping_mul(0xd816_3841) ^ z.wrapping_mul(
            0xcb1a_b31f,
        ),
    )
}

/// Integer-lattice hash for gradient selection. Deterministic; the lattice
/// coordinates are cast to `u32` (wrapping), so it repeats with period `2³²`.
pub fn lattice_hash(seed: u32, ix: i64, iy: i64, iz: i64) -> (r: u32)
    ensures
        r == spec_lattice_hash(seed, ix as u32, iy as u32, iz as u32),
{
    let x: u32 = #[verifier::truncate] (ix as u32);
    let y: u32 = #[verifier::truncate] (iy as u32);
    let z: u32 = #[verifier::truncate] (iz as u32);
    let mut h: u32 = seed ^ x.wrapping_mul(0x8da6_b343) ^ y.wrapping_mul(0xd816_3841)
        ^ z.wrapping_mul(0xcb1a_b31f);
    h = h ^ (h >> 16);
    h = h.wrapping_mul(0x7feb_352d);
    h = h ^ (h >> 15);
    h
}

/// A gradient: two signed axes whose coordinates are summed.
#[derive(Debug, Clone, Copy, PartialEq, Eq, Structural)]
pub struct Gradient {
    /// First axis (`0..3`).
    pub u: usize,
    /// Whether the first coordinate is negated.
    pub neg_u: bool,
    /// Second axis (`0..3`).
    pub v: usize,
    /// Whether the second coordinate is negated.
    pub neg_v: bool,
}

/// The gradient of a hash, by its low four bits.
pub open spec fn spec_gradient(hash: u32) -> Gradient {
    Gradient {
        u: if hash % 16 < 8 {
            0
        } else {
            1
        },
        neg_u: hash % 2 == 1,
        v: if hash % 16 < 4 {
            1
        } else if hash % 16 == 12 || hash % 16 == 14 {
            0
        } else {
            2
        },
        neg_v: hash / 2 % 2 == 1,
    }
}

/// The gradient lies along axes `a` and `b`, with the given signs.
pub open spec fn along(g: Gradient, a: usize, b: usize, neg_a: bool, neg_b: bool) -> bool {
    ||| g.u == a && g.v == b && g.neg_u == neg_a && g.neg_v == neg_b
    ||| g.u == b && g.v == a && g.neg_u == neg_b && g.neg_v == neg_a
}

/// One of the gradients of improved noise, chosen by the low four bits of
/// `hash`.
pub fn gradient(hash: u32) -> (r: Gradient)
    ensures
        r == spec_gradient(hash),
        r.u == if hash % 16 < 8 { 0int } else { 1 },
        r.v == if hash % 16 < 4 { 1int } else if hash % 16 == 12 || hash % 16 == 14 { 0 } else { 2 },
        r.u != r.v,
        r.neg_u == (hash % 2 == 1),
        r.neg_v == (hash / 2 % 2 == 1),
{
    let h: u32 = hash & 15;
    proof {
        lemma_parts(hash);
        assert((h & 1 == 0) == (hash % 2 == 0) && (h & 2 == 0) == (hash / 2 % 2 == 0))
            by (bit_vector)
            requires
                h == hash & 15,
        ;
    }
    let u: usize = if h < 8 { 0 } else { 1 };
    let v: usize = if h < 4 {
        1
    } else if h == 12 || h == 14 {
        0
    } else {
        2
    };
    Gradient { u, neg_u: h & 1 != 0, v, neg_v: h & 2 != 0 }
}

/// The seed of octave `o`: octaves are decorrelated by the golden-ratio step.
#[must_use]
pub fn octave_seed(seed: u32, o: u32) -> (r: u32)
    ensures
        r == seed.wrapping_add(o.wrapping_mul(0x9e37_79b9)),
{
    seed.wrapping_add(o.wrapping_mul(0x9e37_79b9))
}

/// The lattice hash is the voxel hash with a seed: with seed zero they agree. It
/// tells points on one line along an axis apart, and the seeds at one point.
pub proof fn law_lattice_hash_keeps_apart(seed: u32, x: u32, y: u32, z: u32, w: u32)
    ensures
        spec_lattice_hash(0, x, y, z) == spec_hash3(x, y, z),
        spec_lattice_hash(seed, x, y, z) == spec_lattice_hash(w, x, y, z) ==> seed == w,
        spec_lattice_hash(seed, x, y, z) == spec_lattice_hash(seed, w, y, z) ==> x == w,
        spec_lattice_hash(seed, x, y, z) == spec_lattice_hash(seed, x, w, z) ==> y == w,
        spec_lattice_hash(seed, x, y, z) == spec_lattice_hash(seed, x, y, w) ==> z == w,
{
    let m = 0x1_0000_0000int;
    let (p, q, r) = (
        x.wrapping_mul(0x8da6_b343),
        y.wrapping_mul(0xd816_3841),
        z.wrapping_mul(0xcb1a_b31f),
    );
    let (i, j, k) = (
        w.wrapping_mul(0x8da6_b343),
        w.wrapping_mul(0xd816_3841),
        w.wrapping_mul(0xcb1a_b31f),
    );
    let h = seed ^ p ^ q ^ r;
    lemma_xor_keeps_apart(p, 0, 0);
    if spec_lattice_hash(seed, x, y, z) == spec_lattice_hash(w, x, y, z) {
        law_finish_keeps_apart(h, w ^ p ^ q ^ r);
        lemma_xor_keeps_apart(seed ^ p ^ q, w ^ p ^ q, r);
        lemma_xor_keeps_apart(seed ^ p, w ^ p, q);
        lemma_xor_keeps_apart(seed, w, p);
    }
    if spec_lattice_hash(seed, x, y, z) == spec_lattice_hash(seed, w, y, z) {
        law_finish_keeps_apart(h, seed ^ i ^ q ^ r);
        lemma_xor_keeps_apart(seed ^ p ^ q, seed ^ i ^ q, r);
        lemma_xor_keeps_apart(seed ^ p, seed ^ i, q);
        lemma_xor_keeps_apart(p, i, seed);
        lemma_unit_factor(x as int, w as int, 0x8da6_b343, 0xb19b_f16b, m);
    }
    if spec_lattice_hash(seed, x, y, z) == spec_lattice_hash(seed, x, w, z) {
        law_finish_keeps_apart(h, seed ^ p ^ j ^ r);
        lemma_xor_keeps_apart(seed ^ p ^ q, seed ^ p ^ j, r);
        lemma_xor_keeps_apart(q, j, seed ^ p);
        lemma_unit_factor(y as int, w as int, 0xd816_3841, 0xc5c1_d7c1, m);
    }
    if spec_lattice_hash(seed, x, y, z) == spec_lattice_hash(seed, x, y, w) {
        law_finish_keeps_apart(h, seed ^ p ^ q ^ k);
        lemma_xor_keeps_apart(r, k, seed ^ p ^ q);
        lemma_unit_factor(z as int, w as int, 0xcb1a_b31f, 0x4a3b_08df, m);
    }
}

/// The lattice repeats every `2³²` points along each axis.
pub proof fn law_lattice_hash_repeats(
    seed: u32,
    p: (i64, i64, i64),
    q: (i64, i64, i64),
    r: u32,
    s: u32,
)
    requires
        call_ensures(lattice_hash, (seed, p.0, p.1, p.2), r),
        call_ensures(lattice_hash, (seed, q.0, q.1, q.2), s),
        q.0 == p.0 || q.0 == p.0 + 0x1_0000_0000,
        q.1 == p.1 || q.1 == p.1 + 0x1_0000_0000,
        q.2 == p.2 || q.2 == p.2 + 0x1_0000_0000,
    ensures
        r == s,
{
    let ((a, b, c), (d, e, f)) = (p, q);
    assert((d == a || d == a + 0x1_0000_0000 ==> a as u32 == d as u32) && (e == b || e == b
        + 0x1_0000_0000 ==> b as u32 == e as u32) && (f == c || f == c + 0x1_0000_0000 ==> c as u32
        == f as u32)) by (bit_vector);
}

/// A gradient lies along two axes, and depends on the hash's low four bits alone.
pub proof fn law_gradient_by_low_bits(hash: u32, other: u32)
    ensures
        hash % 16 == other % 16 ==> spec_gradient(hash) == spec_gradient(other),
        spec_gradient(hash).u < 3 && spec_gradient(hash).v < 3,
        spec_gradient(hash).u != spec_gradient(hash).v,
{
    assert(hash / 2 % 2 == hash % 16 / 2 % 2);
    assert(other / 2 % 2 == other % 16 / 2 % 2);
    assert(hash % 2 == hash % 16 % 2);
    assert(other % 2 == other % 16 % 2);
}

/// The gradients are the twelve edge directions of a cube: for every two axes
/// and every choice of signs there is a hash below twelve that gives them, and
/// just one.
pub proof fn law_gradients_are_edges(
    a: usize,
    b: usize,
    neg_a: bool,
    neg_b: bool,
    hash: u32,
    other: u32,
)
    requires
        a < b < 3,
        hash < 12,
        other < 12,
    ensures
        exists|h: u32| #[trigger]
            along(spec_gradient(h), a, b, neg_a, neg_b) && h < 12,
        along(spec_gradient(hash), a, b, neg_a, neg_b) && along(
            spec_gradient(other),
            a,
            b,
            neg_a,
            neg_b,
        ) ==> hash == other,
{
    let h = edge_hash(a, b, neg_a, neg_b);
    lemma_small_gradient(h);
    lemma_small_gradient(hash);
    lemma_small_gradient(other);
    assert(along(spec_gradient(hash), a, b, neg_a, neg_b) ==> hash == h);
    assert(along(spec_gradient(other), a, b, neg_a, neg_b) ==> other == h);
    assert(along(spec_gradient(h), a, b, neg_a, neg_b) && h < 12);
}

/// The hash below twelve of an edge: the axes' pair, then the signs.
spec fn edge_hash(a: usize, b: usize, neg_a: bool, neg_b: bool) -> u32 {
    let base: u32 = if a == 0 && b == 1 {
        0
    } else if a == 0 {
        4
    } else {
        8
    };
    match (neg_a, neg_b) {
        (false, false) => base,
        (true, false) => (base + 1) as u32,
        (false, true) => (base + 2) as u32,
        (true, true) => (base + 3) as u32,
    }
}

/// The gradients of the hashes below twelve.
proof fn lemma_small_gradient(h: u32)
    requires
        h < 12,
    ensures
        ({
            let g = spec_gradient(h);
            &&& g.u == if h < 8 {
                0int
            } else {
                1
            }
            &&& g.v == if h < 4 {
                1int
            } else {
                2
            }
            &&& g.neg_u <==> h == 1 || h == 3 || h == 5 || h == 7 || h == 9 || h == 11
            &&& g.neg_v <==> h == 2 || h == 3 || h == 6 || h == 7 || h == 10 || h == 11
        }),
{
    assert(h % 16 == h);
}

/// Octaves step by a fixed amount: the seed itself is the first one's, stepping
/// on from an octave's seed is stepping further from the first, and no two
/// octaves share a seed.
pub proof fn law_octaves_step(seed: u32, a: u32, b: u32, r: u32, s: u32, t: u32)
    requires
        a + b <= u32::MAX,
        call_ensures(octave_seed, (seed, a), r),
        call_ensures(octave_seed, (r, b), s),
        call_ensures(octave_seed, (seed, (a + b) as u32), t),
    ensures
        s == t,
        a == 0 ==> r == seed,
        b > 0 ==> s != r,
{
    let m = 0x1_0000_0000int;
    let c = 0x9e37_79b9int;
    let (x, y) = (a as int * c, b as int * c);
    assert((a + b) * c == x + y) by (nonlinear_arith)
        requires
            x == a as int * c,
            y == b as int * c,
    ;
    vstd::arithmetic::div_mod::lemma_add_mod_noop(x, y, m);
    let (u, v) = (a.wrapping_mul(0x9e37_79b9), b.wrapping_mul(0x9e37_79b9));
    let w = ((a + b) as u32).wrapping_mul(0x9e37_79b9);
    assert(w == (u + v) % m);
    lemma_steps_add(seed, u, v, w);
    if b > 0 && v == 0 {
        lemma_unit_factor(b as int, 0, c, 0x144c_bc89, m);
    }
}

/// Two wrapped steps are one.
proof fn lemma_steps_add(seed: u32, u: u32, v: u32, w: u32)
    requires
        w == (u + v) % 0x1_0000_0000,
    ensures
        seed.wrapping_add(u).wrapping_add(v) == seed.wrapping_add(w),
        v != 0 ==> seed.wrapping_add(u).wrapping_add(v) != seed.wrapping_add(u),
{
    if u + v >= 0x1_0000_0000 {
        assert(w == u + v - 0x1_0000_0000);
    } else {
        assert(w == u + v);
    }
}

/// The gradient chosen is the hash's, and a lattice point's hash is of its seed
/// and its coordinates.
pub proof fn law_noise_calls(hash: u32, g: Gradient, seed: u32, x: u32, y: u32, z: u32, h: u32)
    requires
        call_ensures(gradient, (hash,), g),
        call_ensures(lattice_hash, (seed, x as i64, y as i64, z as i64), h),
    ensures
        g == spec_gradient(hash),
        h == spec_lattice_hash(seed, x, y, z),
{
    assert((x as i64) as u32 == x && (y as i64) as u32 == y && (z as i64) as u32 == z);
}

/// The voxel hash, as called.
pub proof fn law_voxel_hash_call(x: u32, y: u32, z: u32, h: u32)
    requires
        call_ensures(hash3, (x, y, z), h),
    ensures
        h == spec_lattice_hash(0, x, y, z),
{
    law_lattice_hash_keeps_apart(0, x, y, z, 0);
}

/// The low two bits are the signs: clear they negate nothing, the lowest negates
/// the first axis and the next the second, and below twelve nothing else depends
/// on them. The last four hashes go along y, with x and z in turn.
pub proof fn law_gradient_signs(hash: u32)
    requires
        hash % 4 == 0,
        hash <= 0xffff_fff0,
    ensures
        ({
            let g = spec_gradient(hash);
            let first = spec_gradient((hash + 1) as u32);
            let second = spec_gradient((hash + 2) as u32);
            let both = spec_gradient((hash + 3) as u32);
            &&& !g.neg_u && !g.neg_v
            &&& first.neg_u && !first.neg_v
            &&& !second.neg_u && second.neg_v
            &&& both.neg_u && both.neg_v
            &&& second.u == g.u && second.v == g.v && both.u == first.u && both.v == first.v
            &&& hash % 16 != 12 ==> first.u == g.u && first.v == g.v
            &&& hash % 16 == 12 ==> g.u == 1 && g.v == 0 && first.u == 1 && first.v == 2
        }),
{
    let h = hash % 16;
    lemma_low_four(hash, 0);
    lemma_low_four(hash, 1);
    lemma_low_four(hash, 2);
    lemma_low_four(hash, 3);
}

/// The low bits of a hash and of the three after a multiple of four.
proof fn lemma_low_four(hash: u32, k: u32)
    requires
        hash % 4 == 0,
        hash <= 0xffff_fff0,
        k < 4,
    ensures
        (hash + k) as u32 % 16 == hash % 16 + k,
        (hash + k) as u32 % 2 == k % 2,
        (hash + k) as u32 / 2 % 2 == k / 2,
        hash % 16 == 0 || hash % 16 == 4 || hash % 16 == 8 || hash % 16 == 12,
{
}

} // verus!
