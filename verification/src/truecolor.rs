//! Per-voxel baked colour: how the flat colour array is tiled into the chunk
//! buffers the truecolor shader declares, and whether a scene fits a device.

use crate::error::{too_large, unsupported, GpuError};
use vstd::arithmetic::div_mod::lemma_fundamental_div_mod;
use vstd::prelude::*;
use vstd::slice::slice_subrange;

verus! {

/// Logical colour-chunk size in `u32` entries (128 MiB). The compact
/// `leaf_color` array is physically split into `ceil(len / COLOR_PER_CHUNK)`
/// sub-buffers, because a large scene's colours exceed both the storage-binding
/// and the buffer-size cap.
pub const COLOR_PER_CHUNK: u32 = 33_554_432;

/// The fixed number of colour-chunk bindings the truecolor shader declares.
pub const N_MAX_CHUNKS: u32 = 3;

/// The maximum number of occupied voxels a truecolor scene can carry: one colour
/// entry each in `N_MAX_CHUNKS` chunks of `COLOR_PER_CHUNK`. Exposed so a caller
/// can reject a scene *before* baking its colours instead of after.
pub const MAX_TRUECOLOR_VOXELS: usize = 100_663_296;

/// Max composited voxels per ray in the blend path: a hard cap on colour reads
/// per transparent ray.
pub const MAX_BLEND: u32 = 8;

/// The least `q` with `q · b ≥ a`.
pub open spec fn ceil_div(a: int, b: int) -> int {
    if a % b == 0 {
        a / b
    } else {
        a / b + 1
    }
}

/// `ceil_div` is the least quotient that covers.
pub proof fn lemma_ceil_div(a: int, b: int)
    requires
        0 <= a,
        1 <= b,
    ensures
        ceil_div(a, b) * b >= a,
        a > 0 ==> (ceil_div(a, b) - 1) * b < a,
        0 <= ceil_div(a, b) <= a,
        forall|q: int| #![trigger q * b] q * b >= a ==> q >= ceil_div(a, b),
{
    lemma_fundamental_div_mod(a, b);
    let (q, r) = (a / b, a % b);
    assert(0 <= r < b && 0 <= q) by (nonlinear_arith)
        requires
            0 <= a,
            1 <= b,
            q == a / b,
            r == a % b,
    ;
    assert(b * q == q * b && (q + 1) * b == q * b + b && (q - 1) * b == q * b - b && q <= q * b)
        by (nonlinear_arith)
        requires
            0 <= q,
            1 <= b,
    ;
    assert forall|p: int| #![trigger p * b] p * b >= a implies p >= ceil_div(a, b) by {
        assert(p <= q - 1 ==> p * b <= (q - 1) * b) by (nonlinear_arith)
            requires
                1 <= b,
        ;
        assert(p <= q ==> p * b <= q * b) by (nonlinear_arith)
            requires
                1 <= b,
        ;
    }
}

/// The least number of `b`-sized groups that hold `a` items.
#[must_use]
pub fn div_ceil(a: u64, b: u64) -> (r: u64)
    requires
        b >= 1,
    ensures
        r == ceil_div(a as int, b as int),
{
    proof {
        lemma_ceil_div(a as int, b as int);
    }
    if a % b == 0 {
        a / b
    } else {
        a / b + 1
    }
}

/// Chunk `i` of an array of `len` entries ends here.
pub open spec fn chunk_end(len: int, per: int, i: int) -> int {
    if (i + 1) * per < len {
        (i + 1) * per
    } else {
        len
    }
}

/// Re-tiles the flat `leaf_color` array into `ceil(len / per_chunk)` contiguous
/// slices of at most `per_chunk` entries (only the last partial).
#[must_use]
pub fn split_color_chunks<'a>(leaf_color: &'a [u32], per_chunk: u32) -> (r: Vec<&'a [u32]>)
    requires
        per_chunk >= 1,
    ensures
        r@.len() == ceil_div(leaf_color@.len() as int, per_chunk as int),
        forall|i: int|
            0 <= i < r@.len() ==> (#[trigger] r@[i])@ == leaf_color@.subrange(
                i * per_chunk,
                chunk_end(leaf_color@.len() as int, per_chunk as int, i),
            ),
{
    let per: usize = per_chunk as usize;
    let len: usize = leaf_color.len();
    let mut out: Vec<&'a [u32]> = Vec::new();
    let mut start: usize = 0;
    proof {
        lemma_ceil_div(len as int, per as int);
        assert(0 * per == 0) by (nonlinear_arith);
    }
    while start < len
        invariant
            per == per_chunk,
            per >= 1,
            len == leaf_color@.len(),
            start <= len,
            start < len ==> start == out@.len() * per,
            start == len ==> out@.len() == ceil_div(len as int, per as int),
            forall|i: int|
                0 <= i < out@.len() ==> (#[trigger] out@[i])@ == leaf_color@.subrange(
                    i * per_chunk,
                    chunk_end(len as int, per as int, i),
                ),
        decreases len - start,
    {
        let ghost n = out@.len() as int;
        let end: usize = if len - start > per {
            start + per
        } else {
            len
        };
        proof {
            assert((n + 1) * per == n * per + per) by (nonlinear_arith);
            lemma_ceil_div(len as int, per as int);
            if end == len {
                assert((n + 1) * per >= len);
                assert(ceil_div(len as int, per as int) <= n + 1);
                if ceil_div(len as int, per as int) <= n {
                    let q = ceil_div(len as int, per as int);
                    assert(q * per <= n * per) by (nonlinear_arith)
                        requires
                            q <= n,
                            1 <= per,
                    ;
                }
            }
        }
        out.push(slice_subrange(leaf_color, start, end));
        start = end;
    }
    out
}

/// Tiling is a bijection: entry `g` is entry `g % per` of chunk `g / per`, so a
/// leaf's colour block that straddles a chunk boundary is harmless.
pub proof fn law_chunks_retile(words: Seq<u32>, per: int, chunks: Seq<Seq<u32>>, g: int)
    requires
        per >= 1,
        chunks.len() == ceil_div(words.len() as int, per),
        forall|i: int|
            0 <= i < chunks.len() ==> #[trigger] chunks[i] == words.subrange(
                i * per,
                chunk_end(words.len() as int, per, i),
            ),
        0 <= g < words.len(),
    ensures
        g / per < chunks.len(),
        g % per < chunks[g / per].len() <= per,
        chunks[g / per][g % per] == words[g],
{
    let (q, r) = (g / per, g % per);
    let len = words.len() as int;
    lemma_fundamental_div_mod(g, per);
    lemma_ceil_div(len, per);
    assert(0 <= r < per && 0 <= q && per * q == q * per && (q + 1) * per == q * per + per)
        by (nonlinear_arith)
        requires
            0 <= g,
            1 <= per,
            q == g / per,
            r == g % per,
    ;
    let c = ceil_div(len, per);
    if c <= q {
        assert(c * per <= q * per) by (nonlinear_arith)
            requires
                c <= q,
                1 <= per,
        ;
    }
    assert(chunks[q] == words.subrange(q * per, chunk_end(len, per, q)));
}

/// The smaller of two limits.
pub open spec fn least(a: u64, b: u64) -> u64 {
    if a < b {
        a
    } else {
        b
    }
}

/// The up-front truecolor capability probe: the chunk count of the scene, or why
/// it cannot be shown on the device. `n` is the scene resolution, `len` the
/// colour count, `base_bytes` the size of the per-leaf base buffer.
pub fn probe_truecolor(
    n: u32,
    len: usize,
    base_bytes: u64,
    per_chunk: u32,
    max_storage_buffers: u32,
    binding_cap: u64,
    buffer_cap: u64,
) -> (r: Result<u32, GpuError>)
    requires
        per_chunk >= 1,
    ensures
        ({
            let chunks = ceil_div(len as int, per_chunk as int);
            let cap = least(binding_cap, buffer_cap);
            if max_storage_buffers < 4 + N_MAX_CHUNKS {
                r matches Err(e) && unsupported(
                    e,
                    n,
                    "truecolor needs 7 storage buffers but the adapter caps lower"@,
                )
            } else if chunks > N_MAX_CHUNKS {
                r matches Err(e) && unsupported(
                    e,
                    n,
                    "scene exceeds the compiled truecolor colour-chunk count"@,
                )
            } else if 4 * per_chunk > cap {
                r matches Err(e) && too_large(e, 4 * per_chunk, cap)
            } else if base_bytes > cap {
                r matches Err(e) && too_large(e, base_bytes as int, cap)
            } else {
                r matches Ok(c) && c == chunks
            }
        }),
{
    // Three structure buffers, the colour bases, and the chunks.
    if 4 + N_MAX_CHUNKS > max_storage_buffers {
        return Err(
            GpuError::Unsupported {
                n,
                reason: "truecolor needs 7 storage buffers but the adapter caps lower",
            },
        );
    }
    let n_chunks: u64 = div_ceil(len as u64, per_chunk as u64);
    if n_chunks > N_MAX_CHUNKS as u64 {
        return Err(
            GpuError::Unsupported {
                n,
                reason: "scene exceeds the compiled truecolor colour-chunk count",
            },
        );
    }
    let cap: u64 = if binding_cap < buffer_cap {
        binding_cap
    } else {
        buffer_cap
    };
    let chunk_bytes: u64 = per_chunk as u64 * 4;
    if chunk_bytes > cap {
        return Err(GpuError::BufferTooLarge { needed: chunk_bytes, limit: cap });
    }
    if base_bytes > cap {
        return Err(GpuError::BufferTooLarge { needed: base_bytes, limit: cap });
    }
    Ok(n_chunks as u32)
}

/// The exposed voxel ceiling is exactly the chunk-count edge: a scene needs more
/// than the compiled chunks if and only if it has more voxels than that.
pub proof fn law_ceiling_is_the_probe_edge(len: int)
    requires
        0 <= len,
    ensures
        len <= MAX_TRUECOLOR_VOXELS <==> ceil_div(len, COLOR_PER_CHUNK as int) <= N_MAX_CHUNKS,
{
    let per = COLOR_PER_CHUNK as int;
    lemma_ceil_div(len, per);
    assert(3 * per >= len ==> 3 >= ceil_div(len, per));
    let c = ceil_div(len, per);
    if c <= 3 {
        assert(c * per <= 3 * per) by (nonlinear_arith)
            requires
                c <= 3,
                0 <= per,
        ;
    }
}

/// Which chunk buffer the shader's colour slot `i` binds: chunk `i` where the
/// scene has one, else the shared filler.
#[must_use]
pub fn chunk_slot(chunks: usize, i: u32) -> (r: Option<usize>)
    ensures
        r == if i < chunks {
            Some(i as usize)
        } else {
            None
        },
{
    if (i as usize) < chunks {
        Some(i as usize)
    } else {
        None
    }
}

/// The split tiles the colours: entry `g` is entry `g % per_chunk` of chunk
/// `g / per_chunk`, every chunk but the last is full, and none is empty.
pub proof fn law_split_holds_colors(colors: &[u32], per_chunk: u32, r: Vec<&[u32]>, g: int, i: int)
    requires
        per_chunk >= 1,
        call_ensures(split_color_chunks, (colors, per_chunk), r),
    ensures
        0 <= g < colors@.len() ==> g / (per_chunk as int) < r@.len() && g % (per_chunk as int)
            < r@[g / (per_chunk as int)]@.len() && r@[g / (per_chunk as int)]@[g % (
        per_chunk as int)] == colors@[g],
        0 <= i < r@.len() - 1 ==> r@[i]@.len() == per_chunk,
        0 <= i < r@.len() ==> 0 < r@[i]@.len() <= per_chunk,
        colors@.len() == 0 <==> r@.len() == 0,
        r@.len() * per_chunk >= colors@.len(),
{
    let per = per_chunk as int;
    let len = colors@.len() as int;
    let chunks = Seq::new(r@.len(), |j: int| r@[j]@);
    lemma_ceil_div(len, per);
    assert(0 * per == 0) by (nonlinear_arith);
    if 0 <= g < len {
        law_chunks_retile(colors@, per, chunks, g);
    }
    if 0 <= i < r@.len() {
        let c = r@.len() as int;
        assert(r@[i]@ == colors@.subrange(i * per, chunk_end(len, per, i)));
        assert((i + 1) * per == i * per + per) by (nonlinear_arith);
        assert(0 <= i * per && i * per <= (c - 1) * per) by (nonlinear_arith)
            requires
                0 <= i <= c - 1,
                1 <= per,
        ;
        if i < c - 1 {
            assert((i + 1) * per <= (c - 1) * per) by (nonlinear_arith)
                requires
                    i + 1 <= c - 1,
                    1 <= per,
            ;
        }
    }
}

/// A probe succeeds exactly where everything fits: the bindings, the chunks, and
/// in the smaller of the two byte caps a chunk and the base buffer. It counts
/// the chunks that hold the colours, and no more.
pub proof fn law_probe_is_capacity(
    n: u32,
    len: usize,
    base_bytes: u64,
    per_chunk: u32,
    max_storage_buffers: u32,
    binding_cap: u64,
    buffer_cap: u64,
    r: Result<u32, GpuError>,
)
    requires
        per_chunk >= 1,
        call_ensures(
            probe_truecolor,
            (n, len, base_bytes, per_chunk, max_storage_buffers, binding_cap, buffer_cap),
            r,
        ),
    ensures
        r is Ok <==> {
            &&& max_storage_buffers >= 7
            &&& len <= 3 * per_chunk
            &&& 4 * per_chunk <= binding_cap && 4 * per_chunk <= buffer_cap
            &&& base_bytes <= binding_cap && base_bytes <= buffer_cap
        },
        r matches Ok(c) ==> c * per_chunk >= len && (len > 0 ==> (c - 1) * per_chunk < len) && (len
            == 0 ==> c == 0),
        r matches Err(GpuError::BufferTooLarge { needed, limit }) ==> needed > limit && (limit
            == binding_cap || limit == buffer_cap),
        r matches Err(GpuError::BufferTooLarge { needed, limit }) ==> limit <= binding_cap && limit
            <= buffer_cap && needed == if 4 * per_chunk > limit {
            4 * per_chunk
        } else {
            base_bytes as int
        },
        r matches Err(GpuError::Unsupported { n: m, reason }) ==> m == n,
        r is Err && r->Err_0 is Unsupported <==> max_storage_buffers < 7 || len > 3 * per_chunk,
{
    let per = per_chunk as int;
    lemma_ceil_div(len as int, per);
    let c = ceil_div(len as int, per);
    assert(c <= 3 <==> len <= 3 * per) by {
        if c <= 3 {
            assert(c * per <= 3 * per) by (nonlinear_arith)
                requires
                    c <= 3,
                    0 <= per,
            ;
        }
        if len <= 3 * per {
            assert(3 * per >= len);
        }
    }
}

/// The colour slots bind the chunks in order, each once; the slots beyond the
/// last chunk bind the filler.
pub proof fn law_slots_bind_chunks(
    chunks: usize,
    i: u32,
    j: u32,
    a: Option<usize>,
    b: Option<usize>,
)
    requires
        call_ensures(chunk_slot, (chunks, i), a),
        call_ensures(chunk_slot, (chunks, j), b),
    ensures
        a matches Some(k) ==> k == i && k < chunks,
        a is None ==> i >= chunks,
        a is Some && a == b ==> i == j,
{
}

/// The compiled chunk count and size, of 128 MiB, make the exposed ceiling.
pub proof fn law_ceiling_is_all_chunks()
    ensures
        N_MAX_CHUNKS * COLOR_PER_CHUNK == MAX_TRUECOLOR_VOXELS,
        4 * COLOR_PER_CHUNK == 128 * 1024 * 1024,
{
}

/// As many groups as needed, and not one more.
pub proof fn law_groups_hold_items(a: u64, b: u64, q: u64)
    requires
        b >= 1,
        call_ensures(div_ceil, (a, b), q),
    ensures
        q * b >= a,
        a > 0 ==> (q - 1) * b < a,
        a == 0 ==> q == 0,
{
    lemma_ceil_div(a as int, b as int);
}

} // verus!
