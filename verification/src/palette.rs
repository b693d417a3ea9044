//! Per-leaf material palette: the packer for an `8³` leaf's material slot.
//!
//! Materials are stored **separate** from occupancy; this module packs one
//! leaf's distinct materials into a fixed-stride slot (a header word, an inline
//! `u16` palette, and a bit-packed per-voxel index array) that a reader decodes
//! at a hit.
//!
//! The slot is [`STRIDE_W`] `u32` words (cap [`P_CAP`] materials ⇒ 4-bit
//! indices). A single-material leaf needs **0 bits**: the lone palette entry
//! *is* the material, so no index array is read. Indices are addressed by
//! intra-brick **Morton** order.

use crate::bits::{bit, lemma_bit_half, lemma_bits_determine, lemma_parts, lemma_zero_bit};
use crate::leaf::LeafBrick;
use crate::morton::{self, law_morton_injective, lemma_local_onto, lemma_local_range, local_index};
use vstd::arithmetic::div_mod::lemma_fundamental_div_mod_converse;
use vstd::arithmetic::power2::{lemma2_to64, lemma_pow2_strictly_increases, lemma_pow2_unfold, pow2};
use vstd::prelude::*;

verus! {

/// Voxels per `8³` leaf brick.
pub const LEAF_VOXELS: usize = 512;

/// Inline palette cap (materials per leaf before spilling). 4-bit indices.
pub const P_CAP: u32 = 16;

/// Max inline `bits_per_voxel` (`ceil(log2 P_CAP)`).
pub const MAX_BITS: u32 = 4;

/// Header word offset within the slot.
pub const HDR_OFF: usize = 0;

/// Inline-palette base word (`u16` entries, two per word).
pub const PAL_OFF: usize = 1;

/// Per-voxel index-array base word: the palette's eight words come first.
pub const IDX_OFF: usize = 9;

/// Index-array word count: 512 voxels of 4 bits.
pub const IDX_WORDS: usize = 64;

/// Total slot width in `u32` words.
pub const STRIDE_W: usize = 73;

/// The reserved MISSING colour: opaque magenta (`R=255, G=0, B=255, A=255`),
/// RGBA8 packed little-endian (R in the low byte).
pub const MISSING_MAGENTA: u32 = 0xFFFF_00FF;

/// Header word of a spilled leaf: no index bits, one palette entry, spill flag.
pub const SPILL_HEADER: u32 = 0x4010;

/// Why a leaf material slot cannot be built.
#[derive(Debug, Clone, Copy, PartialEq, Eq, Structural)]
pub enum PaletteError {
    /// The palette exceeds the inline cap; the leaf must spill.
    Overflow {
        /// The rejected palette length.
        len: u32,
        /// The inline cap ([`P_CAP`]).
        cap: u32,
    },
    /// A per-voxel index references a palette slot that does not exist.
    BadIndex {
        /// The out-of-range palette index.
        index: u32,
        /// The palette length.
        len: u32,
    },
    /// The per-voxel index array was not exactly [`LEAF_VOXELS`] long.
    WrongIndexLen {
        /// The wrong length supplied.
        got: usize,
    },
}

/// Why the global material table could not accept a colour.
#[derive(Debug, Clone, Copy, PartialEq, Eq, Structural)]
pub enum MaterialError {
    /// The table reached the `u16` ceiling. Ids are dense from `1` with id `0`
    /// reserved for the magenta MISSING sentinel, so at most **65535 real
    /// materials** fit (ids `1..=u16::MAX`).
    TableFull,
}

/// The global `global_id → colour` table the per-leaf palettes index into.
/// Entry 0 is always [`MISSING_MAGENTA`]: an unresolved or
/// occupied-but-uncoloured voxel reads global id 0 and renders a **loud
/// magenta** rather than silently aliasing a real material.
#[derive(Debug, Clone, PartialEq, Eq)]
pub struct MaterialTable {
    colors: Vec<u32>,
}

impl View for MaterialTable {
    type V = Seq<u32>;

    /// The colours by global id.
    closed spec fn view(&self) -> Seq<u32> {
        self.colors@
    }
}

impl MaterialTable {
    /// Entry 0 is magenta, and every entry has a `u16` id.
    pub open spec fn wf(self) -> bool {
        &&& 1 <= self@.len() <= 0x1_0000
        &&& self@[0] == MISSING_MAGENTA
    }

    /// A table holding only the reserved magenta MISSING slot: every voxel
    /// renders magenta until [`push`](Self::push) adds real materials.
    #[must_use]
    pub fn missing_only() -> (r: Self)
        ensures
            r.wf(),
            r@ == seq![MISSING_MAGENTA],
    {
        let mut colors: Vec<u32> = Vec::new();
        colors.push(MISSING_MAGENTA);
        let r = Self { colors };
        assert(r@ =~= seq![MISSING_MAGENTA]);
        r
    }

    /// Appends a colour and returns its `global_id`. Ids are dense from `1`
    /// (id `0` stays the magenta sentinel), so the first `push` returns `1`.
    /// Fails once the next id would not fit a `u16`.
    pub fn push(&mut self, color: u32) -> (r: Result<u16, MaterialError>)
        ensures
            r is Ok <==> old(self)@.len() <= u16::MAX,
            r matches Ok(id) ==> id == old(self)@.len() && final(self)@ == old(self)@.push(color),
            r matches Err(e) ==> e == MaterialError::TableFull && final(self)@ == old(self)@,
            old(self).wf() ==> final(self).wf(),
    {
        let id: usize = self.colors.len();
        if id > u16::MAX as usize {
            return Err(MaterialError::TableFull);
        }
        self.colors.push(color);
        Ok(id as u16)
    }

    /// The colour for `global_id`, or [`MISSING_MAGENTA`] if it is out of range.
    #[must_use]
    pub fn color(&self, global_id: u16) -> (r: u32)
        ensures
            r == if global_id < self@.len() {
                self@[global_id as int]
            } else {
                MISSING_MAGENTA
            },
    {
        if (global_id as usize) < self.colors.len() {
            self.colors[global_id as usize]
        } else {
            MISSING_MAGENTA
        }
    }

    /// The table as `u32` words (index `global_id` → RGBA8 colour).
    #[must_use]
    pub fn words(&self) -> (r: &[u32])
        ensures
            r@ == self@,
    {
        self.colors.as_slice()
    }
}

impl Default for MaterialTable {
    /// The magenta-only table ([`missing_only`](Self::missing_only)).
    fn default() -> (r: Self)
        ensures
            r.wf(),
            r@ == seq![MISSING_MAGENTA],
    {
        Self::missing_only()
    }
}

/// `b` is `ceil(log2 p)`, with no bits at all for one entry or none.
pub open spec fn is_width(b: nat, p: nat) -> bool {
    if p <= 1 {
        b == 0
    } else {
        b >= 1 && pow2((b - 1) as nat) < p <= pow2(b)
    }
}

/// Bits per voxel for a palette of `p` entries: `ceil(log2 p)`, and `0` for
/// `p <= 1` (a single-material leaf stores no index array).
#[must_use]
pub fn bits_required(p: u32) -> (r: u32)
    ensures
        is_width(r as nat, p as nat),
        r <= 32,
        p <= 16 ==> r <= 4,
{
    proof {
        lemma2_to64();
    }
    let mut b: u32 = 0;
    let mut room: u64 = 1;
    while room < p as u64
        invariant
            room == pow2(b as nat),
            room <= 0x1_0000_0000,
            b <= 32,
            b == 0 ==> room == 1,
            b > 0 ==> p > 1 && pow2((b - 1) as nat) < p,
            pow2(32) == 0x1_0000_0000,
            pow2(4) == 16,
            p <= 16 ==> b <= 4,
        decreases 32 - b,
    {
        proof {
            lemma_pow2_unfold((b + 1) as nat);
            if b == 32 {
                assert(false);
            }
            if p <= 16 && b == 4 {
                assert(false);
            }
            if b + 1 < 32 {
                lemma_pow2_strictly_increases((b + 1) as nat, 32);
            }
        }
        room = room * 2;
        b = b + 1;
    }
    b
}

/// One `8³` leaf's material data, ready to pack into a fixed-stride slot.
///
/// `palette[pi]` is a global material id; `indices[m]` is the palette index of
/// the voxel at intra-brick Morton index `m` (`0..512`).
#[derive(Debug, PartialEq, Eq)]
pub struct LeafMaterials {
    palette: Vec<u16>,
    indices: Vec<u8>,
}

/// Palette and index array fit a slot and each other.
pub open spec fn materials_ok(palette: Seq<u16>, indices: Seq<u8>) -> bool {
    &&& palette.len() <= P_CAP
    &&& indices.len() == LEAF_VOXELS
    &&& forall|m: int| 0 <= m < LEAF_VOXELS ==> #[trigger] indices[m] < palette.len()
}

/// Palette entry `i`, zero past the end.
pub open spec fn entry(palette: Seq<u16>, i: int) -> int {
    if 0 <= i < palette.len() {
        palette[i] as int
    } else {
        0
    }
}

/// Bit `g` of the index array of a slot.
pub open spec fn stream_bit(slot: Seq<u32>, g: int) -> bool {
    bit(slot[9 + g / 32] as u64, g % 32)
}

/// The number whose `n` bits, lowest first, start at bit `off` of the index
/// array.
pub open spec fn field(slot: Seq<u32>, off: int, n: nat) -> nat
    decreases n,
{
    if n == 0 {
        0
    } else {
        (if stream_bit(slot, off) {
            1nat
        } else {
            0nat
        }) + 2 * field(slot, off + 1, (n - 1) as nat)
    }
}

/// `slot` holds a palette and an index array with `bits` bits per voxel: the
/// header word, the palette two entries to a word, and index `m` at bits
/// `m·bits..(m+1)·bits`, lowest first; all other bits are clear.
pub open spec fn is_packed(
    slot: Seq<u32>,
    bits: nat,
    palette: Seq<u16>,
    indices: Seq<u8>,
) -> bool {
    &&& slot.len() == STRIDE_W
    &&& slot[0] == bits + 16 * palette.len()
    &&& forall|w: int|
        0 <= w < 8 ==> #[trigger] slot[1 + w] == entry(palette, 2 * w) + 65536 * entry(
            palette,
            2 * w + 1,
        )
    &&& forall|g: int|
        0 <= g < 2048 ==> #[trigger] stream_bit(slot, g) == (bits > 0 && g / (bits as int) < 512
            && bit(indices[g / (bits as int)] as u64, g % (bits as int)))
}

impl LeafMaterials {
    /// Global material ids by palette index.
    pub closed spec fn pal(self) -> Seq<u16> {
        self.palette@
    }

    /// Palette indices by Morton index.
    pub closed spec fn idx(self) -> Seq<u8> {
        self.indices@
    }

    #[verifier::type_invariant]
    closed spec fn inv(self) -> bool {
        materials_ok(self.palette@, self.indices@)
    }

    /// Builds from a palette and per-voxel indices **in Morton order**
    /// (`indices[encode_brick(x, y, z)]`). Validates the cap, the index length,
    /// and that every index is a valid palette slot, in this order; the first
    /// bad index is the one reported.
    pub fn new(palette: Vec<u16>, indices: Vec<u8>) -> (r: Result<Self, PaletteError>)
        ensures
            r is Ok <==> materials_ok(palette@, indices@),
            r matches Ok(l) ==> l.pal() == palette@ && l.idx() == indices@,
            r matches Err(PaletteError::Overflow { len, cap }) ==> palette@.len() > P_CAP && cap
                == P_CAP && len == if palette@.len() <= u32::MAX {
                palette@.len() as int
            } else {
                u32::MAX as int
            },
            r matches Err(PaletteError::WrongIndexLen { got }) ==> palette@.len() <= P_CAP
                && indices@.len() != LEAF_VOXELS && got == indices@.len(),
            r matches Err(PaletteError::BadIndex { index, len }) ==> palette@.len() <= P_CAP
                && indices@.len() == LEAF_VOXELS && len == palette@.len() && exists|m: int|
                0 <= m < LEAF_VOXELS && index == #[trigger] indices@[m] && index >= len && forall|
                    j: int,
                |
                    0 <= j < m ==> #[trigger] indices@[j] < len,
    {
        if palette.len() > P_CAP as usize {
            let len: u32 = if palette.len() as u64 <= u32::MAX as u64 {
                palette.len() as u32
            } else {
                u32::MAX
            };
            return Err(PaletteError::Overflow { len, cap: P_CAP });
        }
        if indices.len() != LEAF_VOXELS {
            return Err(PaletteError::WrongIndexLen { got: indices.len() });
        }
        let plen: usize = palette.len();
        let mut m: usize = 0;
        while m < LEAF_VOXELS
            invariant
                m <= LEAF_VOXELS,
                indices@.len() == LEAF_VOXELS,
                plen == palette@.len(),
                plen <= P_CAP,
                forall|j: int| 0 <= j < m ==> #[trigger] indices@[j] < plen,
            decreases LEAF_VOXELS - m,
        {
            if indices[m] as usize >= plen {
                return Err(PaletteError::BadIndex { index: indices[m] as u32, len: plen as u32 });
            }
            m = m + 1;
        }
        Ok(Self { palette, indices })
    }

    /// Builds from a palette and a per-voxel-coordinate assignment, routing each
    /// `(x, y, z)` (each `0..8`) through the Morton order.
    #[verifier::rlimit(30)]
    pub fn from_local<F: Fn(u32, u32, u32) -> u8>(
        palette: Vec<u16>,
        assign: F,
    ) -> (r: Result<Self, PaletteError>)
        requires
            forall|x: u32, y: u32, z: u32|
                x < 8 && y < 8 && z < 8 ==> #[trigger] assign.requires((x, y, z)),
        ensures
            exists|indices: Seq<u8>| #[trigger]
                assigned(assign, indices) && (r is Ok <==> materials_ok(palette@, indices)) && (
                r matches Ok(l) ==> l.pal() == palette@ && l.idx() == indices) && (r matches Err(
                    PaletteError::Overflow { len, cap },
                ) ==> palette@.len() > P_CAP && cap == P_CAP && len == if palette@.len()
                    <= u32::MAX {
                    palette@.len() as int
                } else {
                    u32::MAX as int
                }) && (r matches Err(PaletteError::BadIndex { index, len }) ==> palette@.len()
                    <= P_CAP && len == palette@.len() && exists|m: int|
                    0 <= m < LEAF_VOXELS && index == #[trigger] indices[m] && index >= len
                        && forall|j: int| 0 <= j < m ==> #[trigger] indices[j] < len) && !(
                r matches Err(PaletteError::WrongIndexLen { got: _ })),
    {
        let mut indices: Vec<u8> = vec![0u8; LEAF_VOXELS];
        let mut t: u32 = 0;
        while t < 512
            invariant
                t <= 512,
                indices@.len() == LEAF_VOXELS,
                forall|x: u32, y: u32, z: u32|
                    x < 8 && y < 8 && z < 8 ==> #[trigger] assign.requires((x, y, z)),
                forall|x: u32, y: u32, z: u32|
                    x < 8 && y < 8 && z < 8 && x + 8 * y + 64 * z < t ==> assign.ensures(
                        (x, y, z),
                        indices@[#[trigger] local_index(x, y, z)],
                    ),
            decreases 512 - t,
        {
            let (x, y, z) = (t % 8, t / 8 % 8, t / 64);
            let m: usize = morton::encode_brick(x, y, z) as usize;
            let a: u8 = assign(x, y, z);
            let ghost before = indices@;
            indices[m] = a;
            proof {
                assert forall|p: u32, q: u32, s: u32|
                    p < 8 && q < 8 && s < 8 && p + 8 * q + 64 * s < t + 1 implies assign.ensures(
                    (p, q, s),
                    indices@[#[trigger] local_index(p, q, s)],
                ) by {
                    lemma_local_range(p, q, s);
                    if p + 8 * q + 64 * s < t {
                        if local_index(p, q, s) == m {
                            lemma_local_same(p, q, s, x, y, z);
                        }
                        assert(assign.ensures((p, q, s), before[local_index(p, q, s)]));
                    } else {
                        assert(p == x && q == y && s == z);
                    }
                }
            }
            t = t + 1;
        }
        assert(assigned(assign, indices@));
        Self::new(palette, indices)
    }

    /// `bits_per_voxel` for this leaf (`0` when single-material).
    #[must_use]
    pub fn bits(&self) -> (r: u32)
        ensures
            is_width(r as nat, self.pal().len()),
            r <= MAX_BITS,
    {
        proof {
            use_type_invariant(self);
        }
        bits_required(self.palette.len() as u32)
    }

    /// The packed header word: `{bits_per_voxel:4, palette_len:10, spill_flag:1}`
    /// (spill always `0` here: the inline path).
    #[must_use]
    pub fn header_word(&self) -> (r: u32)
        ensures
            exists|b: nat| #[trigger]
                is_width(b, self.pal().len()) && b <= MAX_BITS && r == b + 16 * self.pal().len(),
    {
        proof {
            use_type_invariant(self);
        }
        let plen: u32 = self.palette.len() as u32;
        let b: u32 = self.bits();
        proof {
            lemma_header(b, plen);
        }
        (b & 0xF) | ((plen & 0x3FF) << 4)
    }

    /// Packs the leaf into its fixed-stride slot of [`STRIDE_W`] `u32` words:
    /// header, inline `u16` palette (two per word, low/high), then the per-voxel
    /// index array, LSB-first, Morton-addressed, straddling a 32-bit word when
    /// `pos + bits > 32`. With no index bits the index region is left zero (the
    /// lone palette entry is the material).
    #[must_use]
    pub fn pack(&self) -> (r: [u32; STRIDE_W])
        ensures
            exists|b: nat| #[trigger]
                is_width(b, self.pal().len()) && b <= MAX_BITS && is_packed(
                    r@,
                    b,
                    self.pal(),
                    self.idx(),
                ),
    {
        proof {
            use_type_invariant(self);
        }
        let bits: u32 = self.bits();
        let mut out: [u32; STRIDE_W] = [0u32;STRIDE_W];
        let plen: u32 = self.palette.len() as u32;
        let header: u32 = self.header_word();
        proof {
            let b = choose|b: nat| #[trigger]
                is_width(b, self.pal().len()) && b <= MAX_BITS && header == b + 16
                    * self.pal().len();
            lemma_width_unique(b, bits as nat, self.pal().len());
        }
        out[HDR_OFF] = header;
        // Inline palette: two entries per word, even index low, odd index high.
        let mut w: usize = 0;
        while w < 8
            invariant
                w <= 8,
                plen == self.palette@.len(),
                plen <= P_CAP,
                out@.len() == STRIDE_W,
                out@[0] == bits + 16 * plen,
                forall|v: int|
                    0 <= v < w ==> #[trigger] out@[1 + v] == entry(self.palette@, 2 * v) + 65536
                        * entry(self.palette@, 2 * v + 1),
                forall|i: int| 9 <= i < STRIDE_W ==> #[trigger] out@[i] == 0,
            decreases 8 - w,
        {
            let lo: u32 = if 2 * w < self.palette.len() {
                self.palette[2 * w] as u32
            } else {
                0
            };
            let hi: u32 = if 2 * w + 1 < self.palette.len() {
                self.palette[2 * w + 1] as u32
            } else {
                0
            };
            assert(lo | (hi << 16) == lo + 65536 * hi) by (bit_vector)
                requires
                    lo < 65536,
                    hi < 65536,
            ;
            out[PAL_OFF + w] = lo | (hi << 16);
            w = w + 1;
        }
        proof {
            assert forall|g: int| 0 <= g < 2048 implies !#[trigger] stream_bit(out@, g) by {
                assert(out@[9 + g / 32] == 0);
                lemma_zero_bit((g % 32) as u64);
            }
        }
        // Per-voxel index array, skipped entirely when there are no index bits.
        if bits > 0 {
            let mut m: u32 = 0;
            while m < 512
                invariant
                    m <= 512,
                    1 <= bits <= 4,
                    is_width(bits as nat, plen as nat),
                    plen == self.palette@.len(),
                    materials_ok(self.palette@, self.indices@),
                    out@.len() == STRIDE_W,
                    out@[0] == bits + 16 * plen,
                    forall|v: int|
                        0 <= v < 8 ==> #[trigger] out@[1 + v] == entry(self.palette@, 2 * v)
                            + 65536 * entry(self.palette@, 2 * v + 1),
                    forall|g: int|
                        0 <= g < 2048 ==> #[trigger] stream_bit(out@, g) == (g / (bits as int) < m
                            && bit(self.indices@[g / (bits as int)] as u64, g % (bits as int))),
                decreases 512 - m,
            {
                let pi: u32 = self.indices[m as usize] as u32;
                let ghost before = out@;
                assert(m * bits <= 2044) by (nonlinear_arith)
                    requires
                        m < 512,
                        bits <= 4,
                ;
                let off: u32 = m * bits;
                proof {
                    lemma_parts(off);
                }
                let word: usize = IDX_OFF + (off >> 5) as usize;
                let pos: u32 = off & 31;
                proof {
                    lemma_index_fits(bits, plen, pi);
                }
                out[word] = out[word] | (pi << pos);
                let ghost mid = out@;
                if pos + bits > 32 {
                    proof {
                        lemma_straddle_in_range(m, bits);
                    }
                    out[word + 1] = out[word + 1] | (pi >> (32 - pos));
                }
                proof {
                    assert forall|g: int| 0 <= g < 2048 implies #[trigger] stream_bit(out@, g) == (
                    stream_bit(before, g) || (off <= g < off + bits && bit(
                        pi as u64,
                        g - off,
                    ))) by {
                        lemma_or_field(before[9 + g / 32], pi, bits, pos, (g % 32) as u32);
                        assert(stream_bit(before, g) == bit(before[9 + g / 32] as u64, g % 32));
                        if g / 32 == off / 32 {
                        } else if g / 32 == off / 32 + 1 {
                        }
                    }
                    assert forall|g: int| 0 <= g < 2048 implies #[trigger] stream_bit(out@, g) == (g
                        / (bits as int) < m + 1 && bit(
                        self.indices@[g / (bits as int)] as u64,
                        g % (bits as int),
                    )) by {
                        lemma_cell_of_bit(g, m as int, bits as int);
                    }
                }
                m = m + 1;
            }
        }
        proof {
            assert(is_packed(out@, bits as nat, self.palette@, self.indices@));
        }
        out
    }
}

impl Clone for LeafMaterials {
    fn clone(&self) -> (r: Self)
        ensures
            r.pal() == self.pal(),
            r.idx() == self.idx(),
    {
        proof {
            use_type_invariant(self);
        }
        let palette: Vec<u16> = self.palette.clone();
        let indices: Vec<u8> = self.indices.clone();
        assert(palette@ =~= self.palette@);
        assert(indices@ =~= self.indices@);
        Self { palette, indices }
    }
}

/// `indices` is what `assign` gave for each voxel, in Morton order.
pub open spec fn assigned<F: Fn(u32, u32, u32) -> u8>(assign: F, indices: Seq<u8>) -> bool {
    &&& indices.len() == LEAF_VOXELS
    &&& forall|x: u32, y: u32, z: u32|
        x < 8 && y < 8 && z < 8 ==> assign.ensures(
            (x, y, z),
            indices[#[trigger] local_index(x, y, z)],
        )
}

proof fn lemma_header(b: u32, plen: u32)
    requires
        b <= 4,
        plen <= 16,
    ensures
        (b & 0xF) | ((plen & 0x3FF) << 4) == b + 16 * plen,
{
    assert((b & 0xF) | ((plen & 0x3FF) << 4) == b + 16 * plen) by (bit_vector)
        requires
            b <= 4,
            plen <= 16,
    ;
}

/// Voxels with the same index are the same voxel.
proof fn lemma_local_same(x: u32, y: u32, z: u32, a: u32, b: u32, c: u32)
    requires
        x < 8,
        y < 8,
        z < 8,
        a < 8,
        b < 8,
        c < 8,
        local_index(x, y, z) == local_index(a, b, c),
    ensures
        x == a && y == b && z == c,
{
    law_morton_injective(x as nat, y as nat, z as nat, a as nat, b as nat, c as nat);
}

/// A palette index fits the index width.
proof fn lemma_index_fits(bits: u32, plen: u32, pi: u32)
    requires
        1 <= bits <= 4,
        is_width(bits as nat, plen as nat),
        pi < plen,
    ensures
        pi < 16,
        bits == 1 ==> pi < 2,
        bits == 2 ==> pi < 4,
        bits == 3 ==> pi < 8,
{
    lemma2_to64();
}

/// A field that straddles two words ends before the index array does.
proof fn lemma_straddle_in_range(m: u32, bits: u32)
    requires
        m < 512,
        1 <= bits <= 4,
        (m * bits) % 32 + bits > 32,
    ensures
        (m * bits) / 32 < 63,
{
    if bits == 4 {
        assert((m * 4) % 32 == 4 * (m % 8));
    } else {
        assert(m * bits <= 511 * 3) by (nonlinear_arith)
            requires
                m < 512,
                1 <= bits <= 3,
        ;
    }
}

/// Or-ing a field into a word, and its rest into the next, sets the field's
/// bits and no others.
proof fn lemma_or_field(a: u32, pi: u32, bits: u32, pos: u32, j: u32)
    requires
        pos < 32,
        j < 32,
        1 <= bits <= 4,
        pi < 16,
        bits == 1 ==> pi < 2,
        bits == 2 ==> pi < 4,
        bits == 3 ==> pi < 8,
    ensures
        bit((a | (pi << pos)) as u64, j as int) == (bit(a as u64, j as int) || (pos <= j < pos
            + bits && bit(pi as u64, j - pos))),
        pos + bits > 32 ==> bit((a | (pi >> (32 - pos) as u32)) as u64, j as int) == (bit(
            a as u64,
            j as int,
        ) || (j + 32 - pos < bits && bit(pi as u64, j + 32 - pos))),
{
    let w = j as u64;
    let d: u64 = if pos <= j { (j - pos) as u64 } else { 0 };
    assert((((a | (pi << pos)) as u64) >> w) & 1u64 == 1u64 <==> (((a as u64) >> w) & 1u64 == 1u64
        || (pos <= j && j < pos + bits && ((pi as u64) >> d) & 1u64 == 1u64))) by (bit_vector)
        requires
            pos < 32,
            j < 32,
            w == j as u64,
            pos <= j ==> d == j - pos,
            1 <= bits <= 4,
            pi < 16,
            bits == 1 ==> pi < 2,
            bits == 2 ==> pi < 4,
            bits == 3 ==> pi < 8,
    ;
    if pos + bits > 32 {
        let s: u32 = (32 - pos) as u32;
        let e: u64 = (j + 32 - pos) as u64;
        assert((((a | (pi >> s)) as u64) >> w) & 1u64 == 1u64 <==> (((a as u64) >> w) & 1u64 == 1u64
            || (e < bits && ((pi as u64) >> e) & 1u64 == 1u64))) by (bit_vector)
            requires
                s < 32,
                j < 32,
                w == j as u64,
                e == j + s,
                1 <= bits <= 4,
                pi < 16,
                bits == 1 ==> pi < 2,
                bits == 2 ==> pi < 4,
                bits == 3 ==> pi < 8,
        ;
    }
}

/// Bit `g` belongs to cell `m` exactly where `m·bits <= g < (m+1)·bits`.
proof fn lemma_cell_of_bit(g: int, m: int, bits: int)
    requires
        0 <= g,
        0 <= m,
        1 <= bits,
    ensures
        m * bits <= g < m * bits + bits <==> g / bits == m,
        g / bits == m ==> g % bits == g - m * bits,
        g / bits < m + 1 <==> g / bits < m || g / bits == m,
{
    if m * bits <= g < m * bits + bits {
        lemma_fundamental_div_mod_converse(g, bits, m, g - m * bits);
    }
    vstd::arithmetic::div_mod::lemma_fundamental_div_mod(g, bits);
    if g / bits == m {
        assert(bits * (g / bits) == m * bits) by (nonlinear_arith)
            requires
                g / bits == m,
        ;
    }
}

/// Scan position `t` in `z, y, x` order, as a Morton index.
pub open spec fn scan_index(t: int) -> int {
    local_index((t % 8) as u32, (t / 8 % 8) as u32, (t / 64) as u32)
}

/// The distinct materials among the occupied voxels of the first `t` scan
/// positions, in first-seen order.
pub open spec fn palette_of(mats: Seq<u16>, occ: Seq<bool>, t: int) -> Seq<u16>
    decreases t,
{
    if t <= 0 {
        Seq::empty()
    } else {
        let p = palette_of(mats, occ, t - 1);
        let m = scan_index(t - 1);
        if occ[m] && !p.contains(mats[m]) {
            p.push(mats[m])
        } else {
            p
        }
    }
}

/// The leaf has more distinct materials among its occupied voxels than fit the
/// inline palette.
pub open spec fn spills(mats: Seq<u16>, occ: Seq<bool>) -> bool {
    palette_of(mats, occ, 512).len() > P_CAP
}

/// The palette a leaf packs: its materials, or global id 0 where it has none.
pub open spec fn leaf_palette(mats: Seq<u16>, occ: Seq<bool>) -> Seq<u16> {
    let p = palette_of(mats, occ, 512);
    if p.len() == 0 {
        seq![0u16]
    } else {
        p
    }
}

/// The index array a leaf packs: each occupied voxel's place in the palette.
pub open spec fn leaf_indices(mats: Seq<u16>, occ: Seq<bool>) -> Seq<u8> {
    Seq::new(
        512,
        |m: int|
            if occ[m] {
                palette_of(mats, occ, 512).index_of(mats[m]) as u8
            } else {
                0u8
            },
    )
}

/// `slot` is the packed slot of a leaf with materials `mats` and occupancy
/// `occ`: the inline palette, or where it spills the uniform magenta slot with
/// the spill flag.
pub open spec fn is_leaf_slot(slot: Seq<u32>, mats: Seq<u16>, occ: Seq<bool>) -> bool {
    if spills(mats, occ) {
        &&& slot.len() == STRIDE_W
        &&& slot[0] == SPILL_HEADER
        &&& forall|i: int| 1 <= i < STRIDE_W ==> #[trigger] slot[i] == 0
    } else {
        exists|b: nat| #[trigger]
            is_width(b, leaf_palette(mats, occ).len()) && b <= MAX_BITS && is_packed(
                slot,
                b,
                leaf_palette(mats, occ),
                leaf_indices(mats, occ),
            )
    }
}

/// `occ` is what `occupied` answered for each voxel, in Morton order.
pub open spec fn answered<F: Fn(u32, u32, u32) -> bool>(occupied: F, occ: Seq<bool>) -> bool {
    &&& occ.len() == LEAF_VOXELS
    &&& forall|x: u32, y: u32, z: u32|
        x < 8 && y < 8 && z < 8 ==> occupied.ensures(
            (x, y, z),
            occ[#[trigger] local_index(x, y, z)],
        )
}

/// Palettes have no duplicates, hold only materials of scanned voxels, and only
/// grow.
proof fn lemma_palette_facts(mats: Seq<u16>, occ: Seq<bool>, a: int, b: int)
    requires
        0 <= a <= b,
    ensures
        palette_of(mats, occ, b).no_duplicates(),
        palette_of(mats, occ, a).len() <= palette_of(mats, occ, b).len(),
        forall|i: int|
            0 <= i < palette_of(mats, occ, a).len() ==> #[trigger] palette_of(mats, occ, a)[i]
                == palette_of(mats, occ, b)[i],
    decreases b,
{
    if b > 0 {
        lemma_palette_facts(mats, occ, if a < b { a } else { b - 1 }, b - 1);
    }
}

/// After a position is scanned, its occupied voxel's material is in the palette.
proof fn lemma_palette_has(mats: Seq<u16>, occ: Seq<bool>, t: int, n: int)
    requires
        0 <= t < n,
        occ[scan_index(t)],
    ensures
        palette_of(mats, occ, n).contains(mats[scan_index(t)]),
{
    let p = palette_of(mats, occ, t + 1);
    let gid = mats[scan_index(t)];
    let q = palette_of(mats, occ, t);
    if !q.contains(gid) {
        assert(p[p.len() - 1] == gid);
    }
    assert(p.contains(gid));
    let i = choose|i: int| 0 <= i < p.len() && p[i] == gid;
    lemma_palette_facts(mats, occ, t + 1, n);
    assert(palette_of(mats, occ, n)[i] == gid);
}

/// Every Morton index is a scan position.
proof fn lemma_scan_onto(m: int) -> (t: int)
    requires
        0 <= m < 512,
    ensures
        0 <= t < 512,
        scan_index(t) == m,
{
    let c = lemma_local_onto(m);
    let t = c.x + 8 * c.y + 64 * c.z;
    assert(t % 8 == c.x && t / 8 % 8 == c.y && t / 64 == c.z);
    t
}

proof fn lemma_scan_injective(s: int, t: int)
    requires
        0 <= s < 512,
        0 <= t < 512,
        scan_index(s) == scan_index(t),
    ensures
        s == t,
{
    lemma_local_same(
        (s % 8) as u32,
        (s / 8 % 8) as u32,
        (s / 64) as u32,
        (t % 8) as u32,
        (t / 8 % 8) as u32,
        (t / 64) as u32,
    );
}

/// Position of `gid` in `palette`, if it is there.
fn position(palette: &Vec<u16>, gid: u16) -> (r: Option<usize>)
    ensures
        r matches Some(i) ==> i < palette@.len() && palette@[i as int] == gid,
        r is None ==> !palette@.contains(gid),
{
    let mut i: usize = 0;
    while i < palette.len()
        invariant
            i <= palette@.len(),
            forall|j: int| 0 <= j < i ==> palette@[j] != gid,
        decreases palette.len() - i,
    {
        if palette[i] == gid {
            return Some(i);
        }
        i = i + 1;
    }
    None
}

/// The answers of `occupied` for each voxel of a leaf, in Morton order.
fn answers<F: Fn(u32, u32, u32) -> bool>(occupied: F) -> (r: Vec<bool>)
    requires
        forall|x: u32, y: u32, z: u32|
            x < 8 && y < 8 && z < 8 ==> #[trigger] occupied.requires((x, y, z)),
    ensures
        answered(occupied, r@),
{
    let mut occ: Vec<bool> = vec![false; LEAF_VOXELS];
    let mut t: u32 = 0;
    while t < 512
        invariant
            t <= 512,
            occ@.len() == 512,
            forall|x: u32, y: u32, z: u32|
                x < 8 && y < 8 && z < 8 ==> #[trigger] occupied.requires((x, y, z)),
            forall|x: u32, y: u32, z: u32|
                x < 8 && y < 8 && z < 8 && x + 8 * y + 64 * z < t ==> occupied.ensures(
                    (x, y, z),
                    occ@[#[trigger] local_index(x, y, z)],
                ),
        decreases 512 - t,
    {
        let (x, y, z) = (t % 8, t / 8 % 8, t / 64);
        let m: usize = morton::encode_brick(x, y, z) as usize;
        let answer: bool = occupied(x, y, z);
        let ghost before = occ@;
        occ[m] = answer;
        proof {
            assert forall|p: u32, q: u32, w: u32|
                p < 8 && q < 8 && w < 8 && p + 8 * q + 64 * w < t + 1 implies occupied.ensures(
                (p, q, w),
                occ@[#[trigger] local_index(p, q, w)],
            ) by {
                lemma_local_range(p, q, w);
                if p + 8 * q + 64 * w < t {
                    if local_index(p, q, w) == m {
                        lemma_local_same(p, q, w, x, y, z);
                    }
                    assert(occupied.ensures((p, q, w), before[local_index(p, q, w)]));
                } else {
                    assert(p == x && q == y && w == z);
                }
            }
        }
        t = t + 1;
    }
    occ
}

/// Scan positions below `t` have their palette index, the others none.
spec fn indexed(
    mats: Seq<u16>,
    occ: Seq<bool>,
    palette: Seq<u16>,
    indices: Seq<u8>,
    t: int,
) -> bool {
    &&& palette == palette_of(mats, occ, t)
    &&& forall|s: int|
        0 <= s < 512 ==> if s < t && occ[#[trigger] scan_index(s)] {
            indices[scan_index(s)] < palette.len() && palette[indices[scan_index(s)] as int]
                == mats[scan_index(s)]
        } else {
            indices[scan_index(s)] == 0
        }
}

proof fn lemma_indexed_step(
    mats: Seq<u16>,
    occ: Seq<bool>,
    pal0: Seq<u16>,
    idx0: Seq<u8>,
    pal1: Seq<u16>,
    idx1: Seq<u8>,
    t: int,
)
    requires
        0 <= t < 512,
        occ.len() == 512,
        mats.len() == 512,
        idx0.len() == 512,
        indexed(mats, occ, pal0, idx0, t),
        pal0.len() <= P_CAP,
        !occ[scan_index(t)] ==> pal1 == pal0 && idx1 == idx0,
        occ[scan_index(t)] ==> {
            let gid = mats[scan_index(t)];
            let pi = idx1[scan_index(t)] as int;
            &&& idx1 == idx0.update(scan_index(t), pi as u8)
            &&& pal1 == if pal0.contains(gid) {
                pal0
            } else {
                pal0.push(gid)
            }
            &&& 0 <= pi < pal1.len()
            &&& pal1[pi] == gid
        },
    ensures
        indexed(mats, occ, pal1, idx1, t + 1),
{
    lemma_scan_range(t);
    assert forall|s: int| 0 <= s < 512 implies if s < t + 1 && occ[#[trigger] scan_index(s)] {
        idx1[scan_index(s)] < pal1.len() && pal1[idx1[scan_index(s)] as int] == mats[scan_index(s)]
    } else {
        idx1[scan_index(s)] == 0
    } by {
        lemma_scan_range(s);
        if s != t && scan_index(s) == scan_index(t) {
            lemma_scan_injective(s, t);
        }
    }
}

proof fn lemma_scan_range(s: int)
    requires
        0 <= s < 512,
    ensures
        0 <= scan_index(s) < 512,
{
    lemma_local_range((s % 8) as u32, (s / 8 % 8) as u32, (s / 64) as u32);
}

/// The palette and index array of a leaf, or `None` where it spills.
pub fn derive_palette(mats: &[u16; LEAF_VOXELS], occ: &Vec<bool>) -> (r: Option<
    (Vec<u16>, Vec<u8>),
>)
    requires
        occ@.len() == LEAF_VOXELS,
    ensures
        r is None <==> spills(mats@, occ@),
        r matches Some((palette, indices)) ==> palette@ == palette_of(mats@, occ@, 512) && indices@
            == leaf_indices(mats@, occ@),
{
    let mut palette: Vec<u16> = Vec::new();
    let mut indices: Vec<u8> = vec![0u8; LEAF_VOXELS];
    proof {
        assert forall|s: int| 0 <= s < 512 implies indices@[#[trigger] scan_index(s)] == 0 by {
            lemma_scan_range(s);
        }
    }
    let mut t: u32 = 0;
    while t < 512
        invariant
            t <= 512,
            mats@.len() == 512,
            occ@.len() == 512,
            indices@.len() == 512,
            palette@.len() <= P_CAP,
            indexed(mats@, occ@, palette@, indices@, t as int),
        decreases 512 - t,
    {
        let m: usize = morton::encode_brick(t % 8, t / 8 % 8, t / 64) as usize;
        let ghost (pal0, idx0) = (palette@, indices@);
        assert(m == scan_index(t as int));
        if occ[m] {
            let gid: u16 = mats[m];
            let pi: usize = match position(&palette, gid) {
                Some(p) => p,
                None => {
                    if palette.len() >= P_CAP as usize {
                        proof {
                            lemma_palette_facts(mats@, occ@, t + 1, 512);
                        }
                        return None;
                    }
                    palette.push(gid);
                    palette.len() - 1
                },
            };
            indices[m] = pi as u8;
        }
        proof {
            lemma_indexed_step(mats@, occ@, pal0, idx0, palette@, indices@, t as int);
        }
        t = t + 1;
    }
    proof {
        let p = palette_of(mats@, occ@, 512);
        lemma_palette_facts(mats@, occ@, 512, 512);
        assert forall|m: int| 0 <= m < 512 implies indices@[m] == leaf_indices(mats@, occ@)[m] by {
            let s = lemma_scan_onto(m);
            assert(occ@[scan_index(s)] == occ@[m]);
            if occ@[m] {
                let i = p.index_of(mats@[m]);
                assert(p.contains(mats@[m]));
                assert(p[i] == mats@[m] && 0 <= i < p.len());
                assert(i == indices@[m]);
            }
        }
        assert(indices@ =~= leaf_indices(mats@, occ@));
    }
    Some((palette, indices))
}

/// Derives one leaf's packed material slot from its raw per-voxel materials
/// (`mats`, intra-brick Morton order) and an `occupied(x, y, z)` occupancy test.
///
/// The palette is the **distinct materials among occupied voxels** in first-seen
/// order of a `z,y,x` scan; unoccupied voxels get index `0` (never read). A
/// single-material leaf packs without an index array.
///
/// A leaf with more than [`P_CAP`] distinct occupied materials cannot fit the
/// inline palette and is emitted as **uniform magenta** (global id 0) with the
/// spill flag set: visibly wrong, never a silent mis-color.
#[must_use]
pub fn pack_leaf<F: Fn(u32, u32, u32) -> bool>(
    mats: &[u16; LEAF_VOXELS],
    occupied: F,
) -> (r: [u32; STRIDE_W])
    requires
        forall|x: u32, y: u32, z: u32|
            x < 8 && y < 8 && z < 8 ==> #[trigger] occupied.requires((x, y, z)),
    ensures
        exists|occ: Seq<bool>| #[trigger] answered(occupied, occ) && is_leaf_slot(r@, mats@, occ),
{
    let occ: Vec<bool> = answers(occupied);
    match derive_palette(mats, &occ) {
        None => {
            // Uniform magenta: no index bits, one palette entry, the spill flag.
            let mut out: [u32; STRIDE_W] = [0u32;STRIDE_W];
            out[HDR_OFF] = SPILL_HEADER;
            assert(is_leaf_slot(out@, mats@, occ@));
            out
        },
        Some((palette, indices)) => {
            let mut palette: Vec<u16> = palette;
            proof {
                lemma_indices_ok(mats@, occ@);
            }
            if palette.len() == 0 {
                palette.push(0);
                assert(palette@ =~= seq![0u16]);
            }
            match LeafMaterials::new(palette, indices) {
                Ok(leaf) => {
                    let out: [u32; STRIDE_W] = leaf.pack();
                    assert(is_leaf_slot(out@, mats@, occ@));
                    out
                },
                Err(_) => {
                    assert(false);
                    [0u32;STRIDE_W]
                },
            }
        },
    }
}

/// Every packed index selects a palette entry, and an occupied voxel's selects
/// its material.
proof fn lemma_indices_ok(mats: Seq<u16>, occ: Seq<bool>)
    requires
        !spills(mats, occ),
    ensures
        materials_ok(leaf_palette(mats, occ), leaf_indices(mats, occ)),
        forall|m: int|
            0 <= m < 512 && occ[m] ==> leaf_palette(mats, occ)[#[trigger] leaf_indices(
                mats,
                occ,
            )[m] as int] == mats[m],
{
    let p = palette_of(mats, occ, 512);
    assert forall|j: int| 0 <= j < 512 implies #[trigger] leaf_indices(mats, occ)[j] < leaf_palette(
        mats,
        occ,
    ).len() && (occ[j] ==> leaf_palette(mats, occ)[leaf_indices(mats, occ)[j] as int] == mats[j]) by {
        if occ[j] {
            let s = lemma_scan_onto(j);
            lemma_palette_has(mats, occ, s, 512);
            let i = p.index_of(mats[j]);
            assert(p[i] == mats[j] && 0 <= i < p.len());
        }
    }
}

/// Whether a leaf has more than [`P_CAP`] distinct materials among its
/// **occupied** voxels: the spill condition. Stops once the cap is exceeded.
pub fn leaf_spills(leaf: &LeafBrick, materials: &[u16; LEAF_VOXELS]) -> (r: bool)
    ensures
        r == spills(materials@, leaf@),
{
    let mut seen: Vec<u16> = Vec::new();
    let mut t: u32 = 0;
    while t < 512
        invariant
            t <= 512,
            materials@.len() == 512,
            seen@ == palette_of(materials@, leaf@, t as int),
            seen@.len() <= P_CAP,
        decreases 512 - t,
    {
        let (x, y, z) = (t % 8, t / 8 % 8, t / 64);
        if leaf.get_local(x, y, z) {
            let m: usize = morton::encode_brick(x, y, z) as usize;
            let gid: u16 = materials[m];
            if position(&seen, gid).is_none() {
                seen.push(gid);
                if seen.len() > P_CAP as usize {
                    proof {
                        lemma_palette_facts(materials@, leaf@, t + 1, 512);
                        assert(seen@ =~= palette_of(materials@, leaf@, t + 1));
                    }
                    return true;
                }
            } else {
                assert(seen@.contains(gid));
            }
        }
        assert(seen@ =~= palette_of(materials@, leaf@, t + 1));
        t = t + 1;
    }
    false
}

/// Index width recorded in a slot's header.
pub open spec fn slot_bits(slot: Seq<u32>) -> nat {
    (slot[0] % 16) as nat
}

/// Palette index a slot holds for the voxel at Morton index `m`.
pub open spec fn slot_index(slot: Seq<u32>, m: int) -> nat {
    field(slot, m * slot_bits(slot), slot_bits(slot))
}

/// Global material id a slot holds for the voxel at Morton index `m`: the
/// palette entry its index selects, low half-word for even, high for odd.
pub open spec fn slot_material(slot: Seq<u32>, m: int) -> int {
    let pi = slot_index(slot, m) as int;
    if pi % 2 == 0 {
        (slot[1 + pi / 2] % 65536) as int
    } else {
        (slot[1 + pi / 2] / 65536) as int
    }
}

/// The words that reading voxel `m` touches are in the slot.
pub open spec fn readable(slot: Seq<u32>, m: int) -> bool {
    let off = m * slot_bits(slot);
    &&& slot.len() > 0
    &&& slot_bits(slot) > 0 ==> off <= u32::MAX && 9 + (off + slot_bits(slot) - 1) / 32
        < slot.len()
    &&& 1 + slot_index(slot, m) / 2 < slot.len()
}

/// A number below `2^n` with the bits of a field is the field.
proof fn lemma_field_value(slot: Seq<u32>, off: int, n: nat, v: u64)
    requires
        0 <= off,
        n <= 32,
        v < pow2(n),
        forall|t: int| 0 <= t < n ==> bit(v, t) == #[trigger] stream_bit(slot, off + t),
    ensures
        field(slot, off, n) == v,
    decreases n,
{
    lemma2_to64();
    if n > 0 {
        let h = v >> 1;
        lemma_pow2_unfold(n);
        assert(bit(v, 0) == stream_bit(slot, off + 0));
        lemma_bit_half(v, 0);
        assert forall|t: int| 0 <= t < n - 1 implies bit(h, t) == #[trigger] stream_bit(
            slot,
            off + 1 + t,
        ) by {
            lemma_bit_half(v, t as u64);
            assert(bit(v, t + 1) == stream_bit(slot, off + (t + 1)));
        }
        lemma_field_value(slot, off + 1, (n - 1) as nat, h);
    }
}

/// Reads the global material id at intra-brick Morton index `morton` from one
/// leaf's packed `slot`: header → index → palette half-select. A slot without
/// index bits (a single-material leaf, or a spilled one) reads palette slot 0
/// for every voxel.
///
/// The result is a global id into a [`MaterialTable`]; out-of-range ids resolve
/// to magenta there.
#[must_use]
pub fn read_slot(slot: &[u32], morton: u32) -> (r: u16)
    requires
        readable(slot@, morton as int),
    ensures
        r == slot_material(slot@, morton as int),
{
    let h: u32 = slot[HDR_OFF];
    let bits: u32 = h & 0xF;
    proof {
        lemma_parts(h);
    }
    let mut pi: u32 = 0;
    if bits != 0 {
        let off: u32 = morton * bits;
        proof {
            lemma_parts(off);
            assert((off + bits - 1) / 32 >= off / 32);
        }
        let w: u32 = slot[IDX_OFF + (off >> 5) as usize];
        let pos: u32 = off & 31;
        let ghost mut hi: u32 = 0;
        pi = w >> pos;
        if pos + bits > 32 {
            assert((off + bits - 1) / 32 == off / 32 + 1);
            let next: u32 = slot[IDX_OFF + (off >> 5) as usize + 1];
            proof {
                hi = next;
            }
            pi = pi | (next << (32 - pos));
        }
        assert(1u32 << bits >= 1) by (bit_vector)
            requires
                bits < 16,
        ;
        pi = pi & ((1u32 << bits) - 1);
        proof {
            lemma_stitched(w, hi, pos, bits, pi);
            lemma_below_pow2(bits, pi);
            assert forall|t: int| 0 <= t < bits implies bit(pi as u64, t) == #[trigger] stream_bit(
                slot@,
                off + t,
            ) by {
                lemma_stitched_bit(w, hi, pos, bits, pi, t as u32);
                let g = off + t;
                if pos + t < 32 {
                    assert(g / 32 == off / 32 && g % 32 == pos + t);
                } else {
                    assert(g / 32 == off / 32 + 1 && g % 32 == pos + t - 32);
                }
            }
            lemma_field_value(slot@, off as int, bits as nat, pi as u64);
        }
    }
    proof {
        lemma_parts(pi);
    }
    let pal_word: u32 = slot[PAL_OFF + (pi >> 1) as usize];
    proof {
        assert((pal_word >> 0u32) & 0xFFFF == pal_word % 65536 && (pal_word >> 16u32) & 0xFFFF
            == pal_word / 65536) by (bit_vector);
    }
    ((pal_word >> (16 * (pi & 1))) & 0xFFFF) as u16
}

/// The index read from one word, or stitched from two.
spec fn stitch(w: u32, hi: u32, pos: u32, bits: u32) -> u32 {
    (if pos + bits > 32 {
        (w >> pos) | (hi << (32 - pos) as u32)
    } else {
        w >> pos
    }) & ((1u32 << bits) - 1) as u32
}

proof fn lemma_stitched(w: u32, hi: u32, pos: u32, bits: u32, pi: u32)
    requires
        pos < 32,
        1 <= bits < 16,
        pi == stitch(w, hi, pos, bits),
    ensures
        pi < 1u32 << bits,
{
    assert(pi < 1u32 << bits) by (bit_vector)
        requires
            pos < 32,
            1 <= bits < 16,
            pi == stitch(w, hi, pos, bits),
    ;
}

proof fn lemma_stitched_bit(w: u32, hi: u32, pos: u32, bits: u32, pi: u32, t: u32)
    requires
        pos < 32,
        1 <= bits < 16,
        t < bits,
        pi == stitch(w, hi, pos, bits),
    ensures
        bit(pi as u64, t as int) == if pos + t < 32 {
            bit(w as u64, pos + t)
        } else {
            bit(hi as u64, pos + t - 32)
        },
{
    let (a, b) = (t as u64, (pos + t) as u64);
    let c: u64 = if pos + t < 32 { 0 } else { (pos + t - 32) as u64 };
    assert((((pi as u64) >> a) & 1u64 == 1u64) <==> (if b < 32 {
        ((w as u64) >> b) & 1u64 == 1u64
    } else {
        ((hi as u64) >> c) & 1u64 == 1u64
    })) by (bit_vector)
        requires
            pos < 32,
            1 <= bits < 16,
            t < bits,
            a == t as u64,
            b == pos + t,
            b >= 32 ==> c == b - 32,
            pi == stitch(w, hi, pos, bits),
    ;
}

proof fn lemma_below_pow2(bits: u32, pi: u32)
    requires
        1 <= bits < 16,
        pi < 1u32 << bits,
    ensures
        pi < pow2(bits as nat),
{
    vstd::bits::lemma_u32_pow2_no_overflow(bits as nat);
    vstd::bits::lemma_u32_shl_is_mul(1, bits);
}

/// A leaf has one packed slot: packing it again, from the same materials and
/// occupancy, gives the same words.
pub proof fn law_leaf_slot_unique(s1: Seq<u32>, s2: Seq<u32>, mats: Seq<u16>, occ: Seq<bool>)
    requires
        is_leaf_slot(s1, mats, occ),
        is_leaf_slot(s2, mats, occ),
    ensures
        s1 == s2,
{
    if spills(mats, occ) {
        assert(s1 =~= s2);
    } else {
        let (p, x) = (leaf_palette(mats, occ), leaf_indices(mats, occ));
        let b1 = choose|b: nat| #[trigger]
            is_width(b, p.len()) && b <= MAX_BITS && is_packed(s1, b, p, x);
        let b2 = choose|b: nat| #[trigger]
            is_width(b, p.len()) && b <= MAX_BITS && is_packed(s2, b, p, x);
        lemma_width_unique(b1, b2, p.len());
        assert forall|w: int| 0 <= w < STRIDE_W implies s1[w] == s2[w] by {
            if 1 <= w < 9 {
                let v = w - 1;
                assert(s1[1 + v] == s2[1 + v]);
            } else if w >= 9 {
                let (c, d) = (s1[w] as u64, s2[w] as u64);
                assert forall|i: int| 0 <= i < 64 implies bit(c, i) == #[trigger] bit(d, i) by {
                    if i < 32 {
                        let g = 32 * (w - 9) + i;
                        assert(g / 32 == w - 9 && g % 32 == i);
                        assert(stream_bit(s1, g) == stream_bit(s2, g));
                    } else {
                        lemma_high_bits(s1[w], i as u64);
                        lemma_high_bits(s2[w], i as u64);
                    }
                }
                lemma_bits_determine(c, d);
            }
        }
        assert(s1 =~= s2);
    }
}

proof fn lemma_high_bits(w: u32, i: u64)
    requires
        32 <= i < 64,
    ensures
        !bit(w as u64, i as int),
{
    assert(((w as u64) >> i) & 1u64 == 0u64) by (bit_vector)
        requires
            32 <= i < 64,
    ;
}

proof fn lemma_width_unique(a: nat, b: nat, p: nat)
    requires
        is_width(a, p),
        is_width(b, p),
    ensures
        a == b,
{
    if p > 1 {
        if a < b {
            if a < b - 1 {
                lemma_pow2_strictly_increases(a, (b - 1) as nat);
            }
        } else if b < a {
            if b < a - 1 {
                lemma_pow2_strictly_increases(b, (a - 1) as nat);
            }
        }
    }
}

/// Reading back a packed leaf gives, for every voxel, the palette entry its
/// index selects, at every index width from 0 to 4.
pub proof fn law_read_inverts_pack(
    slot: Seq<u32>,
    bits: nat,
    palette: Seq<u16>,
    indices: Seq<u8>,
    m: int,
)
    requires
        materials_ok(palette, indices),
        is_width(bits, palette.len()),
        bits <= MAX_BITS,
        is_packed(slot, bits, palette, indices),
        0 <= m < 512,
    ensures
        readable(slot, m),
        slot_index(slot, m) == indices[m],
        slot_material(slot, m) == palette[indices[m] as int],
{
    lemma2_to64();
    assert(slot_bits(slot) == bits);
    let pi = indices[m] as int;
    let off = m * bits;
    assert(0 <= off && off + bits <= 2048) by (nonlinear_arith)
        requires
            off == m * bits,
            0 <= m < 512,
            0 <= bits <= 4,
    ;
    if bits > 0 {
        let v = indices[m] as u64;
        assert(v < pow2(bits));
        assert forall|t: int| 0 <= t < bits implies bit(v, t) == #[trigger] stream_bit(
            slot,
            off + t,
        ) by {
            lemma_cell_of_bit(off + t, m, bits as int);
        }
        lemma_field_value(slot, off, bits, v);
    }
    assert(slot_index(slot, m) == pi);
    let w = pi / 2;
    assert(slot[1 + w] == entry(palette, 2 * w) + 65536 * entry(palette, 2 * w + 1));
}

/// A leaf's packed slot reads back each occupied voxel's own material; a spilled
/// leaf reads back global id 0 everywhere.
pub proof fn law_leaf_slot_reads_back(slot: Seq<u32>, mats: Seq<u16>, occ: Seq<bool>, m: int)
    requires
        is_leaf_slot(slot, mats, occ),
        mats.len() == 512,
        occ.len() == 512,
        0 <= m < 512,
    ensures
        readable(slot, m),
        !spills(mats, occ) && occ[m] ==> slot_material(slot, m) == mats[m],
        spills(mats, occ) ==> slot_material(slot, m) == 0,
{
    if spills(mats, occ) {
        assert(slot[1] == 0);
        assert(slot_bits(slot) == 0);
    } else {
        let b = choose|b: nat| #[trigger]
            is_width(b, leaf_palette(mats, occ).len()) && b <= MAX_BITS && is_packed(
                slot,
                b,
                leaf_palette(mats, occ),
                leaf_indices(mats, occ),
            );
        lemma_indices_ok(mats, occ);
        law_read_inverts_pack(slot, b, leaf_palette(mats, occ), leaf_indices(mats, occ), m);
    }
}

/// Ids are given in order from one on, each colour reads back under its id, and
/// adding one changes no other. Only a table with every id taken refuses, and an
/// id never given reads magenta, as id zero does.
pub proof fn law_colors_read_back(
    t: &mut MaterialTable,
    color: u32,
    r: Result<u16, MaterialError>,
    id: u16,
    before: u32,
    after: u32,
    start: MaterialTable,
    missing: u32,
)
    requires
        old(t).wf(),
        call_ensures(MaterialTable::push, (t, color), r),
        call_ensures(MaterialTable::color, (&*old(t), id), before),
        call_ensures(MaterialTable::color, (&*final(t), id), after),
        call_ensures(MaterialTable::missing_only, (), start),
        call_ensures(MaterialTable::color, (&start, id), missing),
    ensures
        final(t).wf(),
        r matches Ok(given) ==> given == old(t)@.len() && given >= 1 && final(t)@.len() == old(
            t,
        )@.len() + 1 && (id == given ==> after == color) && (id != given ==> after == before),
        r is Err <==> old(t)@.len() == 0x1_0000,
        r is Err ==> after == before,
        id == 0 ==> before == 0xFFFF_00FF && after == 0xFFFF_00FF,
        missing == 0xFFFF_00FF,
        start.wf() && start@.len() == 1,
{
}

/// The table's words are its colours in id order.
pub proof fn law_table_words_are_colors(t: MaterialTable, w: &[u32], id: u16, c: u32)
    requires
        call_ensures(MaterialTable::words, (&t,), w),
        call_ensures(MaterialTable::color, (&t, id), c),
    ensures
        w@.len() == t@.len(),
        id < w@.len() ==> c == w@[id as int],
        id >= w@.len() ==> c == MISSING_MAGENTA,
{
}

/// Index bits suffice and none is wasted: the entries fit, they would not with a
/// bit less, and twice as many entries take one bit more.
pub proof fn law_index_bits_are_least(p: u32, b: u32, twice: u32)
    requires
        p >= 1,
        2 * p <= u32::MAX,
        call_ensures(bits_required, (p,), b),
        call_ensures(bits_required, ((2 * p) as u32,), twice),
    ensures
        p <= pow2(b as nat),
        b > 0 ==> pow2((b - 1) as nat) < p,
        p == 1 ==> b == 0,
        twice == b + 1,
{
    lemma2_to64();
    vstd::arithmetic::power2::lemma_pow2_pos(b as nat);
    if p > 1 {
        lemma_pow2_unfold((b + 1) as nat);
        lemma_pow2_unfold(b as nat);
        if twice < b + 1 {
            lemma_pow2_le(twice as nat, b as nat);
        }
        if twice > b + 1 {
            lemma_pow2_le((b + 1) as nat, (twice - 1) as nat);
        }
    } else {
        if twice > 1 {
            lemma_pow2_le(1, (twice - 1) as nat);
        }
    }
}

proof fn lemma_pow2_le(a: nat, b: nat)
    requires
        a <= b,
    ensures
        pow2(a) <= pow2(b),
{
    if a < b {
        lemma_pow2_strictly_increases(a, b);
    }
}

/// A leaf's palette is the set of its occupied voxels' materials, each once; it
/// spills exactly where there are more than sixteen. Free voxels do not count.
pub proof fn law_palette_is_occupied_materials(mats: Seq<u16>, occ: Seq<bool>, id: u16)
    ensures
        palette_of(mats, occ, 512).no_duplicates(),
        palette_of(mats, occ, 512).contains(id) <==> exists|m: int|
            0 <= m < 512 && occ[m] && #[trigger] mats[m] == id,
        spills(mats, occ) <==> palette_of(mats, occ, 512).to_set().len() > 16,
{
    let p = palette_of(mats, occ, 512);
    lemma_palette_facts(mats, occ, 0, 512);
    p.unique_seq_to_set();
    if exists|m: int| 0 <= m < 512 && occ[m] && #[trigger] mats[m] == id {
        let m = choose|m: int| 0 <= m < 512 && occ[m] && #[trigger] mats[m] == id;
        let t = lemma_scan_onto(m);
        lemma_palette_has(mats, occ, t, 512);
    }
    if p.contains(id) {
        let t = lemma_palette_from(mats, occ, id, 512);
        lemma_scan_range(t);
        assert(mats[scan_index(t)] == id);
    }
}

/// A palette entry is the material of some occupied voxel scanned.
proof fn lemma_palette_from(mats: Seq<u16>, occ: Seq<bool>, id: u16, n: int) -> (t: int)
    requires
        0 <= n,
        palette_of(mats, occ, n).contains(id),
    ensures
        0 <= t < n,
        occ[scan_index(t)],
        mats[scan_index(t)] == id,
    decreases n,
{
    let p = palette_of(mats, occ, n - 1);
    if p.contains(id) {
        lemma_palette_from(mats, occ, id, n - 1)
    } else {
        let q = palette_of(mats, occ, n);
        let i = choose|i: int| 0 <= i < q.len() && q[i] == id;
        if i < p.len() {
            assert(p[i] == id);
        }
        n - 1
    }
}

/// The scan runs along x first, then y, then z.
pub proof fn law_scan_runs_along_x(x: u32, y: u32, z: u32)
    requires
        x < 8,
        y < 8,
        z < 8,
    ensures
        scan_index(x + 8 * y + 64 * z) == local_index(x, y, z),
{
    let k = x + 8 * y + 64 * z;
    assert(k % 8 == x && k / 8 % 8 == y && k / 64 == z);
}

/// The palette is in first-seen order of the scan: a material seen at a place of
/// the scan stands before every one first seen later.
pub proof fn law_palette_is_first_seen(mats: Seq<u16>, occ: Seq<bool>, s: int, t: int)
    requires
        0 <= s < t < 512,
        occ[scan_index(s)],
        occ[scan_index(t)],
        forall|r: int|
            0 <= r < t && occ[#[trigger] scan_index(r)] ==> mats[scan_index(r)]
                != mats[scan_index(t)],
    ensures
        palette_of(mats, occ, 512).index_of(mats[scan_index(s)]) < palette_of(
            mats,
            occ,
            512,
        ).index_of(mats[scan_index(t)]),
{
    let a = mats[scan_index(s)];
    let b = mats[scan_index(t)];
    lemma_palette_has(mats, occ, s, t);
    lemma_palette_has(mats, occ, t, 512);
    lemma_palette_facts(mats, occ, t, 512);
    if palette_of(mats, occ, t).contains(b) {
        let r = lemma_palette_from(mats, occ, b, t);
        assert(mats[scan_index(r)] != b);
    }
    lemma_places_in_prefix(palette_of(mats, occ, t), palette_of(mats, occ, 512), a, b);
}

/// What a list begins with stands before what it adds.
proof fn lemma_places_in_prefix(q: Seq<u16>, p: Seq<u16>, a: u16, b: u16)
    requires
        q.len() <= p.len(),
        forall|i: int| 0 <= i < q.len() ==> #[trigger] q[i] == p[i],
        p.no_duplicates(),
        q.contains(a),
        !q.contains(b),
        p.contains(b),
    ensures
        p.index_of(a) < p.index_of(b),
{
    let i = choose|i: int| 0 <= i < q.len() && q[i] == a;
    assert(p[i] == a);
    let k = p.index_of(a);
    assert(0 <= k < p.len() && p[k] == a);
    assert(k == i);
    let j = p.index_of(b);
    assert(0 <= j < p.len() && p[j] == b);
    if j < q.len() {
        assert(q[j] == b);
    }
}

/// A header holds the index bits in its low four bits, the palette's length in
/// the ten above, and no spill flag; the spilled header has the flag, one entry
/// and no index bits.
pub proof fn law_header_fields(l: LeafMaterials, h: u32, b: u32)
    requires
        materials_ok(l.pal(), l.idx()),
        call_ensures(LeafMaterials::header_word, (&l,), h),
        call_ensures(LeafMaterials::bits, (&l,), b),
    ensures
        h % 16 == b,
        h / 16 % 1024 == l.pal().len(),
        h < 0x4000,
        SPILL_HEADER % 16 == 0 && SPILL_HEADER / 16 % 1024 == 1 && SPILL_HEADER / 0x4000 == 1,
{
    let c = choose|c: nat| #[trigger]
        is_width(c, l.pal().len()) && c <= MAX_BITS && h == c + 16 * l.pal().len();
    lemma_width_unique(b as nat, c, l.pal().len());
}

/// A packed leaf reads back, voxel by voxel, the material its index selects.
pub proof fn law_packed_leaf_reads_back(
    l: LeafMaterials,
    w: [u32; STRIDE_W],
    slot: &[u32],
    m: u32,
    id: u16,
)
    requires
        materials_ok(l.pal(), l.idx()),
        call_ensures(LeafMaterials::pack, (&l,), w),
        slot@ == w@,
        m < 512,
        call_ensures(read_slot, (slot, m), id),
    ensures
        id == l.pal()[l.idx()[m as int] as int],
{
    let b = choose|b: nat| #[trigger]
        is_width(b, l.pal().len()) && b <= MAX_BITS && is_packed(w@, b, l.pal(), l.idx());
    law_read_inverts_pack(w@, b, l.pal(), l.idx(), m as int);
}

/// Materials are taken as given: a palette of up to sixteen, an index for each of
/// the 512 voxels, and each index within the palette. Anything else is refused,
/// for what comes first in this order.
pub proof fn law_materials_taken_as_given(
    palette: Vec<u16>,
    indices: Vec<u8>,
    r: Result<LeafMaterials, PaletteError>,
)
    requires
        call_ensures(LeafMaterials::new, (palette, indices), r),
    ensures
        r matches Ok(l) ==> l.pal() == palette@ && l.idx() == indices@,
        r is Err && r->Err_0 is Overflow <==> palette@.len() > 16,
        r is Err && r->Err_0 is WrongIndexLen <==> palette@.len() <= 16 && indices@.len() != 512,
        r is Err && r->Err_0 is BadIndex <==> palette@.len() <= 16 && indices@.len() == 512 && exists|
            m: int,
        | 0 <= m < 512 && #[trigger] indices@[m] >= palette@.len(),
        r matches Err(PaletteError::Overflow { len, cap }) ==> cap == 16 && (palette@.len()
            <= u32::MAX ==> len == palette@.len()),
        r matches Err(PaletteError::WrongIndexLen { got }) ==> got == indices@.len(),
        r matches Err(PaletteError::BadIndex { index, len }) ==> len == palette@.len() && index
            >= len && exists|m: int|
            0 <= m < 512 && index == #[trigger] indices@[m] && forall|j: int|
                0 <= j < m ==> #[trigger] indices@[j] < len,
{
}

/// A leaf spills by its occupied voxels, and deriving its palette says so.
pub proof fn law_spill_is_seen_by_all(
    leaf: LeafBrick,
    mats: &[u16; LEAF_VOXELS],
    occ: Vec<bool>,
    spilled: bool,
    r: Option<(Vec<u16>, Vec<u8>)>,
    m: int,
)
    requires
        occ@ == leaf@,
        occ@.len() == 512,
        call_ensures(leaf_spills, (&leaf, mats), spilled),
        call_ensures(derive_palette, (mats, &occ), r),
        0 <= m < 512,
    ensures
        spilled <==> r is None,
        r matches Some((palette, indices)) ==> palette@.len() <= 16 && indices@.len() == 512 && (
        leaf@[m] ==> palette@[indices@[m] as int] == mats@[m]) && (!leaf@[m] ==> indices@[m] == 0),
{
    if r is Some {
        lemma_indices_ok(mats@, occ@);
        if leaf@[m] {
            let p = palette_of(mats@, occ@, 512);
            let t = lemma_scan_onto(m);
            lemma_palette_has(mats@, occ@, t, 512);
            assert(p.len() > 0);
            assert(leaf_palette(mats@, occ@)[leaf_indices(mats@, occ@)[m] as int] == mats@[m]);
        }
    }
}

/// A leaf made voxel by voxel has each voxel's index where the voxel is.
pub proof fn law_local_assignment_is_by_voxel<F: Fn(u32, u32, u32) -> u8>(
    palette: Vec<u16>,
    assign: F,
    l: LeafMaterials,
    x: u32,
    y: u32,
    z: u32,
)
    requires
        forall|a: u32, b: u32, c: u32|
            a < 8 && b < 8 && c < 8 ==> #[trigger] assign.requires((a, b, c)),
        call_ensures(LeafMaterials::from_local::<F>, (palette, assign), Ok(l)),
        x < 8,
        y < 8,
        z < 8,
    ensures
        l.pal() == palette@,
        assign.ensures((x, y, z), l.idx()[local_index(x, y, z)]),
        l.idx()[local_index(x, y, z)] < palette@.len(),
{
    lemma_local_range(x, y, z);
}

/// A packed leaf reads back each occupied voxel's own material, unless it spills:
/// then every voxel reads the missing id.
pub proof fn law_packed_slot_reads_back<F: Fn(u32, u32, u32) -> bool>(
    mats: &[u16; LEAF_VOXELS],
    occupied: F,
    w: [u32; STRIDE_W],
    x: u32,
    y: u32,
    z: u32,
)
    requires
        forall|a: u32, b: u32, c: u32|
            a < 8 && b < 8 && c < 8 ==> #[trigger] occupied.requires((a, b, c)),
        call_ensures(pack_leaf::<F>, (mats, occupied), w),
        x < 8,
        y < 8,
        z < 8,
        !occupied.ensures((x, y, z), false),
    ensures
        slot_material(w@, local_index(x, y, z)) == mats@[local_index(x, y, z)]
            || w@[0] / 0x4000 == 1 && slot_material(w@, local_index(x, y, z)) == 0,
{
    let occ = choose|occ: Seq<bool>| #[trigger]
        answered(occupied, occ) && is_leaf_slot(w@, mats@, occ);
    let m = local_index(x, y, z);
    lemma_local_range(x, y, z);
    assert(occupied.ensures((x, y, z), occ[m]));
    law_leaf_slot_reads_back(w@, mats@, occ, m);
}

/// A default table is the one with nothing but the missing colour.
pub proof fn law_default_table(t: MaterialTable, start: MaterialTable)
    requires
        call_ensures(MaterialTable::default, (), t),
        call_ensures(MaterialTable::missing_only, (), start),
    ensures
        t@ == start@,
        t@.len() == 1,
{
}

} // verus!
