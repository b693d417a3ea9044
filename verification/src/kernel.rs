//! Sizing kernel dispatches and reading their results back.

use crate::bits::{bit, lemma_halves};
use crate::bytes::{bytes_as_words, le_value, read_u64_le, same_memory};
use crate::coord::VoxelCoord;
use crate::error::{unsupported, GpuError};
use crate::occupancy::{dense_fits, lemma_volume, volume, BitGrid};
use crate::resolution::Resolution;
use crate::truecolor::{ceil_div, div_ceil, lemma_ceil_div};
use vstd::prelude::*;

verus! {

/// Invocations per workgroup of the traversal kernel.
pub const TRAVERSE_WORKGROUP: u32 = 64;

/// Invocations per workgroup of the noise kernel.
pub const NOISE_WORKGROUP: u32 = 256;

/// Pixels per workgroup side of the render kernel.
pub const RENDER_TILE: u32 = 8;

/// One dispatch of the traversal kernel.
#[derive(Debug, Clone, Copy, PartialEq, Eq, Structural)]
pub struct RayDispatch {
    /// Rays in the batch.
    pub ray_count: u32,
    /// Bytes of the hit buffer: four words per ray.
    pub hits_bytes: u64,
    /// Workgroups to dispatch.
    pub workgroups: u32,
}

/// Sizes a dispatch for a batch of rays. An empty batch needs none.
#[must_use]
pub fn plan_rays(rays: usize) -> (r: Option<RayDispatch>)
    requires
        rays <= u32::MAX,
    ensures
        rays == 0 <==> r is None,
        r matches Some(d) ==> d.ray_count == rays && d.hits_bytes == 16 * rays && d.workgroups
            == ceil_div(rays as int, TRAVERSE_WORKGROUP as int),
{
    if rays == 0 {
        return None;
    }
    proof {
        lemma_ceil_div(rays as int, TRAVERSE_WORKGROUP as int);
    }
    let workgroups: u64 = div_ceil(rays as u64, TRAVERSE_WORKGROUP as u64);
    Some(
        RayDispatch {
            ray_count: rays as u32,
            hits_bytes: rays as u64 * 16,
            workgroups: workgroups as u32,
        },
    )
}

/// The hit that four words encode: the voxel, where the fourth word is 1.
pub open spec fn hit_at(words: Seq<u32>, i: int) -> Option<VoxelCoord> {
    if words[4 * i + 3] == 1 {
        Some(VoxelCoord { x: words[4 * i], y: words[4 * i + 1], z: words[4 * i + 2] })
    } else {
        None
    }
}

/// The hits that words encode, four each.
pub open spec fn hits_of(words: Seq<u32>) -> Seq<Option<VoxelCoord>> {
    Seq::new(words.len() / 4, |i: int| hit_at(words, i))
}

/// Decodes the hits of a traversal, four words each.
#[must_use]
pub fn decode_hits(words: &[u32]) -> (r: Vec<Option<VoxelCoord>>)
    ensures
        r@ == hits_of(words@),
{
    let n: usize = words.len() / 4;
    let mut out: Vec<Option<VoxelCoord>> = Vec::new();
    let mut i: usize = 0;
    while i < n
        invariant
            n == words@.len() / 4,
            4 * n <= usize::MAX,
            i <= n,
            out@.len() == i,
            forall|j: int| 0 <= j < i ==> #[trigger] out@[j] == hit_at(words@, j),
        decreases n - i,
    {
        let hit: Option<VoxelCoord> = if words[4 * i + 3] == 1 {
            Some(VoxelCoord::new(words[4 * i], words[4 * i + 1], words[4 * i + 2]))
        } else {
            None
        };
        out.push(hit);
        i = i + 1;
    }
    assert(out@ =~= hits_of(words@));
    out
}

/// Decodes a mapped hit buffer.
#[must_use]
pub fn read_hits(bytes: &[u8]) -> (r: Vec<Option<VoxelCoord>>)
    requires
        bytes@.len() % 4 == 0,
    ensures
        exists|words: Seq<u32>| #[trigger] same_memory(bytes@, words) && r@ == hits_of(words),
{
    let words: Vec<u32> = bytes_as_words(bytes);
    decode_hits(words.as_slice())
}

/// The ticks between the two timestamps of a mapped query buffer: zero where the
/// second precedes the first.
#[must_use]
pub fn read_timestamp(bytes: &[u8]) -> (r: u64)
    requires
        bytes@.len() >= 16,
    ensures
        ({
            let (begin, end) = (le_value(bytes@, 0, 8), le_value(bytes@, 8, 8));
            r == if end < begin {
                0
            } else {
                end - begin
            }
        }),
{
    let begin: u64 = read_u64_le(bytes, 0);
    let end: u64 = read_u64_le(bytes, 8);
    if end < begin {
        0
    } else {
        end - begin
    }
}

/// The buffer of a noise generation: one bit per voxel.
#[derive(Debug, Clone, Copy, PartialEq, Eq, Structural)]
pub struct NoisePlan {
    /// Words of 32 voxels.
    pub total_words: u32,
    /// Bytes of the buffer.
    pub word_bytes: u64,
}

/// Sizes a noise generation. The word index must fit 32 bits: all standard
/// resolutions through `2048³` do, larger ones are left to the CPU.
pub fn plan_noise(resolution: Resolution) -> (r: Result<NoisePlan, GpuError>)
    requires
        resolution.wf(),
    ensures
        volume(resolution) / 32 > u32::MAX ==> (r matches Err(e) && unsupported(
            e,
            resolution.side(),
            "noise-gen word count exceeds u32 (resolution past 2048³)"@,
        )),
        volume(resolution) / 32 <= u32::MAX ==> (r matches Ok(p) && p.total_words == volume(
            resolution,
        ) / 32 && p.word_bytes == 4 * (volume(resolution) / 32)),
{
    let total: u128 = resolution.total_voxels();
    let words: u128 = total / 32;
    if words > u32::MAX as u128 {
        return Err(
            GpuError::Unsupported {
                n: resolution.voxels_per_axis(),
                reason: "noise-gen word count exceeds u32 (resolution past 2048³)",
            },
        );
    }
    let total_words: u32 = words as u32;
    Ok(NoisePlan { total_words, word_bytes: total_words as u64 * 4 })
}

/// Spreads the noise workgroups over rows no longer than the device's cap per
/// dimension: enough of them to cover every word, and no more rows than that
/// needs.
#[must_use]
pub fn noise_workgroups(total_words: u32, max_dim: u32) -> (r: (u32, u32))
    requires
        total_words >= 1,
        max_dim >= 1,
    ensures
        ({
            let groups = ceil_div(total_words as int, NOISE_WORKGROUP as int);
            &&& r.0 == if groups < max_dim {
                groups
            } else {
                max_dim as int
            }
            &&& r.1 == ceil_div(groups, r.0 as int)
            &&& r.0 * r.1 >= groups
        }),
{
    proof {
        lemma_ceil_div(total_words as int, NOISE_WORKGROUP as int);
    }
    let groups: u64 = div_ceil(total_words as u64, NOISE_WORKGROUP as u64);
    assert(groups >= 1) by {
        if groups == 0 {
            assert(0 * NOISE_WORKGROUP == 0);
        }
    }
    let x: u64 = if groups < max_dim as u64 {
        groups
    } else {
        max_dim as u64
    };
    let y: u64 = div_ceil(groups, x);
    proof {
        lemma_ceil_div(groups as int, x as int);
        assert(x * y == y * x) by (nonlinear_arith);
    }
    (x as u32, y as u32)
}

/// The noise workgroups cover every word.
pub proof fn law_noise_dispatch_covers(total_words: u32, x: int, y: int, w: int)
    requires
        0 <= w < total_words,
        x * y >= ceil_div(total_words as int, NOISE_WORKGROUP as int),
    ensures
        w / (NOISE_WORKGROUP as int) < x * y,
{
    lemma_ceil_div(total_words as int, NOISE_WORKGROUP as int);
}

/// The two 32-bit halves of each 64-bit word, low half first.
pub open spec fn pairs_of(words: Seq<u32>, pairs: Seq<u64>) -> bool {
    &&& pairs.len() == words.len() / 2
    &&& forall|i: int|
        0 <= i < pairs.len() ==> #[trigger] pairs[i] == words[2 * i] + 0x1_0000_0000 * words[2 * i
            + 1]
}

/// Recombines pairs of 32-bit words into 64-bit words, low half first.
#[must_use]
pub fn pair_words(words: &[u32]) -> (r: Vec<u64>)
    ensures
        pairs_of(words@, r@),
{
    let n: usize = words.len() / 2;
    let mut out: Vec<u64> = Vec::new();
    let mut i: usize = 0;
    while i < n
        invariant
            n == words@.len() / 2,
            2 * n <= usize::MAX,
            i <= n,
            out@.len() == i,
            forall|j: int|
                0 <= j < i ==> #[trigger] out@[j] == words@[2 * j] + 0x1_0000_0000 * words@[2 * j
                    + 1],
        decreases n - i,
    {
        let (lo, hi) = (words[2 * i], words[2 * i + 1]);
        assert((lo as u64) | ((hi as u64) << 32) == lo + 0x1_0000_0000 * hi) by (bit_vector);
        out.push((lo as u64) | ((hi as u64) << 32));
        i = i + 1;
    }
    out
}

/// Bit `i` of a stream of 32-bit words, lowest bit first.
pub open spec fn stream(words: Seq<u32>, i: int) -> bool {
    bit(words[i / 32] as u64, i % 32)
}

/// Recombining words keeps the bit stream.
pub proof fn law_pairs_keep_bits(words: Seq<u32>, pairs: Seq<u64>, i: int)
    requires
        pairs_of(words, pairs),
        0 <= i < 64 * pairs.len(),
    ensures
        bit(pairs[i / 64], i % 64) == stream(words, i),
{
    let k = i / 64;
    let (lo, hi) = (words[2 * k], words[2 * k + 1]);
    assert((lo as u64) | ((hi as u64) << 32) == lo + 0x1_0000_0000 * hi) by (bit_vector);
    lemma_halves(0, lo, hi, (i % 32) as u64);
    if i % 64 < 32 {
        assert(i / 32 == 2 * k && i % 64 == i % 32);
    } else {
        assert(i / 32 == 2 * k + 1 && i % 64 == i % 32 + 32);
    }
}

/// Reads a mapped noise buffer into a dense grid. The generator's bit order is
/// the grid's own, so the words drop straight in.
#[must_use]
pub fn read_occupancy(resolution: Resolution, bytes: &[u8]) -> (r: BitGrid)
    requires
        resolution.wf(),
        dense_fits(resolution),
        bytes@.len() == volume(resolution) / 8,
    ensures
        r.wf(),
        r.spec_resolution() == resolution,
        exists|words: Seq<u32>| #[trigger]
            same_memory(bytes@, words) && forall|i: int|
                0 <= i < volume(resolution) ==> #[trigger] r.cells()[i] == stream(words, i),
{
    proof {
        lemma_volume(resolution);
        lemma_word_counts(volume(resolution));
    }
    let words: Vec<u32> = bytes_as_words(bytes);
    let pairs: Vec<u64> = pair_words(words.as_slice());
    let ghost p = pairs@;
    let r = BitGrid::from_raw(resolution, pairs);
    proof {
        lemma_grid_bits(words@, p, r.cells(), volume(resolution));
    }
    r
}

/// A volume in bytes, words and pairs of words.
proof fn lemma_word_counts(v: int)
    requires
        v % 64 == 0,
        v >= 0,
    ensures
        (v / 8) % 4 == 0,
        (v / 8) / 4 / 2 == v / 64,
{
}

/// A grid filled from recombined words holds their bit stream.
proof fn lemma_grid_bits(words: Seq<u32>, pairs: Seq<u64>, cells: Seq<bool>, v: int)
    requires
        pairs_of(words, pairs),
        v <= 64 * pairs.len(),
        forall|i: int| 0 <= i < v ==> #[trigger] cells[i] == bit(pairs[i / 64], i % 64),
    ensures
        forall|i: int| 0 <= i < v ==> #[trigger] cells[i] == stream(words, i),
{
    assert forall|i: int| 0 <= i < v implies #[trigger] cells[i] == stream(words, i) by {
        law_pairs_keep_bits(words, pairs, i);
    }
}

/// Workgroups of the render kernel for an image.
#[must_use]
pub fn render_workgroups(width: u32, height: u32) -> (r: (u32, u32))
    ensures
        r.0 == ceil_div(width as int, RENDER_TILE as int),
        r.1 == ceil_div(height as int, RENDER_TILE as int),
{
    proof {
        lemma_ceil_div(width as int, RENDER_TILE as int);
        lemma_ceil_div(height as int, RENDER_TILE as int);
    }
    let x: u64 = div_ceil(width as u64, RENDER_TILE as u64);
    let y: u64 = div_ceil(height as u64, RENDER_TILE as u64);
    (x as u32, y as u32)
}

/// A batch of rays is dispatched whole: there is an invocation for each ray and
/// no idle workgroup, and the hit buffer has four words for each. Only an empty
/// batch is not dispatched.
pub proof fn law_rays_are_dispatched(rays: usize, r: Option<RayDispatch>)
    requires
        rays <= u32::MAX,
        call_ensures(plan_rays, (rays,), r),
    ensures
        rays > 0 ==> (r matches Some(d) && d.ray_count == rays && d.workgroups * 64
            >= rays && (d.workgroups - 1) * 64 < rays && d.hits_bytes == rays * 4
            * 4),
        rays == 0 ==> r is None,
{
    lemma_ceil_div(rays as int, TRAVERSE_WORKGROUP as int);
}

/// Hits are read back as they were written: four words a ray, the voxel's
/// coordinates in axis order and a one; anything but a one is a miss, whatever
/// the coordinates say.
pub proof fn law_hits_read_back(words: Seq<u32>, i: int, v: VoxelCoord)
    requires
        0 <= i,
        4 * i + 4 <= words.len(),
        words[4 * i] == v.x && words[4 * i + 1] == v.y && words[4 * i + 2] == v.z,
    ensures
        hits_of(words).len() == words.len() / 4,
        words[4 * i + 3] == 1 ==> hits_of(words)[i] == Some(v),
        words[4 * i + 3] != 1 ==> hits_of(words)[i] is None,
{
}

/// The ticks of a query are what lies between its two timestamps: added to the
/// first they give the second, and there are none where the second is not later.
pub proof fn law_ticks_span_timestamps(bytes: &[u8], r: u64)
    requires
        bytes@.len() >= 16,
        call_ensures(read_timestamp, (bytes,), r),
    ensures
        le_value(bytes@, 0, 8) <= le_value(bytes@, 8, 8) ==> le_value(bytes@, 0, 8) + r == le_value(
            bytes@,
            8,
            8,
        ),
        le_value(bytes@, 8, 8) <= le_value(bytes@, 0, 8) ==> r == 0,
{
}

/// A noise buffer has a bit for each voxel, no more and no less. A generation is
/// refused exactly where its words cannot be counted in 32 bits.
pub proof fn law_noise_buffer_holds_grid(
    resolution: Resolution,
    r: Result<NoisePlan, GpuError>,
)
    requires
        resolution.wf(),
        call_ensures(plan_noise, (resolution,), r),
    ensures
        r matches Ok(p) ==> p.total_words * 32 == volume(resolution) && p.word_bytes * 8 == volume(
            resolution,
        ),
        r is Err <==> volume(resolution) >= 32 * 0x1_0000_0000,
        r matches Err(e) ==> (e matches GpuError::Unsupported { n, reason } && n
            == resolution.side()),
{
    lemma_volume(resolution);
}

/// The noise workgroups keep within the device's row length, reach every word,
/// and have no row to spare.
pub proof fn law_noise_rows_fit(total_words: u32, max_dim: u32, r: (u32, u32))
    requires
        total_words >= 1,
        max_dim >= 1,
        call_ensures(noise_workgroups, (total_words, max_dim), r),
    ensures
        1 <= r.0 <= max_dim,
        1 <= r.1,
        (r.0 * r.1) * 256 >= total_words,
        (r.0 * (r.1 - 1)) * 256 < total_words,
{
    let w = NOISE_WORKGROUP as int;
    let groups = ceil_div(total_words as int, w);
    lemma_ceil_div(total_words as int, w);
    assert(groups >= 1) by {
        if groups <= 0 {
            assert(groups * w <= 0);
        }
    }
    let (x, y) = (r.0 as int, r.1 as int);
    lemma_ceil_div(groups, x);
    assert(y >= 1) by {
        if y <= 0 {
            assert(y * x <= 0) by (nonlinear_arith)
                requires
                    y <= 0,
                    x >= 1,
            ;
        }
    }
    assert(x * (y - 1) == (y - 1) * x) by (nonlinear_arith);
    assert(x * (y - 1) <= groups - 1);
}

/// The render workgroups cover the image, with no row or column of tiles beyond
/// it.
pub proof fn law_render_covers_image(width: u32, height: u32, r: (u32, u32))
    requires
        call_ensures(render_workgroups, (width, height), r),
    ensures
        r.0 * 8 >= width,
        r.1 * 8 >= height,
        width > 0 ==> (r.0 - 1) * 8 < width,
        height > 0 ==> (r.1 - 1) * 8 < height,
        width == 0 ==> r.0 == 0,
        height == 0 ==> r.1 == 0,
{
    lemma_ceil_div(width as int, RENDER_TILE as int);
    lemma_ceil_div(height as int, RENDER_TILE as int);
}

/// Decoding reads every hit in order, and recombining keeps every bit.
pub proof fn law_readback_is_in_order(
    words: &[u32],
    hits: Vec<Option<VoxelCoord>>,
    pairs: Vec<u64>,
    i: int,
)
    requires
        call_ensures(decode_hits, (words,), hits),
        call_ensures(pair_words, (words,), pairs),
        0 <= i,
    ensures
        hits@.len() == words@.len() / 4,
        pairs@.len() == words@.len() / 2,
        i < hits@.len() ==> (hits@[i] is Some <==> words@[4 * i + 3] == 1),
        i < hits@.len() ==> (hits@[i] matches Some(v) ==> v == (VoxelCoord {
            x: words@[4 * i],
            y: words@[4 * i + 1],
            z: words@[4 * i + 2],
        })),
        i < 64 * pairs@.len() ==> bit(pairs@[i / 64], i % 64) == bit(
            words@[i / 32] as u64,
            i % 32,
        ),
{
    if i < 64 * pairs@.len() {
        law_pairs_keep_bits(words@, pairs@, i);
    }
}

/// Mapped buffers are read as the words they hold: the hits of a traversal, and
/// the voxels of a noise generation in the grid's own bit order.
pub proof fn law_mapped_buffers_hold_words(
    bytes: &[u8],
    hits: Vec<Option<VoxelCoord>>,
    resolution: Resolution,
    image: &[u8],
    g: BitGrid,
)
    requires
        bytes@.len() % 4 == 0,
        call_ensures(read_hits, (bytes,), hits),
        resolution.wf(),
        dense_fits(resolution),
        image@.len() == volume(resolution) / 8,
        call_ensures(read_occupancy, (resolution, image), g),
    ensures
        exists|words: Seq<u32>| #[trigger] same_memory(bytes@, words) && hits@ == hits_of(words),
        hits@.len() == bytes@.len() / 16,
        g.wf() && g.spec_resolution() == resolution,
        exists|words: Seq<u32>| #[trigger]
            same_memory(image@, words) && forall|i: int|
                0 <= i < volume(resolution) ==> #[trigger] g.cells()[i] == bit(
                    words[i / 32] as u64,
                    i % 32,
                ),
{
    let words = choose|words: Seq<u32>| #[trigger]
        same_memory(bytes@, words) && hits@ == hits_of(words);
    let w = choose|w: Seq<u32>| #[trigger]
        same_memory(image@, w) && forall|i: int|
            0 <= i < volume(resolution) ==> #[trigger] g.cells()[i] == stream(w, i);
    assert(same_memory(image@, w));
    assert forall|i: int| 0 <= i < volume(resolution) implies #[trigger] g.cells()[i] == bit(
        w[i / 32] as u64,
        i % 32,
    ) by {
        assert(g.cells()[i] == stream(w, i));
    }
}

} // verus!
