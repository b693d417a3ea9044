//! What the GPU buffers of a structure hold: the node, leaf and bounds words,
//! the material or colour data of the shading mode, and the patches that follow
//! an in-place edit.

use crate::bits::{bit, lemma_bits_determine};
use crate::bytes::{same_memory, words_as_bytes};
use crate::error::{too_large, unsupported, GpuError};
use crate::leaf::{LeafBounds, LeafBrick};
use crate::node::GpuNode;
use crate::palette::{MaterialTable, STRIDE_W};
use crate::school_b::{slot_words, SchoolBBuffer};
use crate::shader::{color_blend_shader_source, color_shader_source, declaration, modules, shader_source};
use crate::truecolor::{ceil_div, chunk_end, least, probe_truecolor, split_color_chunks, MAX_BLEND, N_MAX_CHUNKS};
use vstd::prelude::*;
use vstd::slice::{slice_subrange, slice_to_vec};

verus! {

/// `words` are the nodes, three words each; one zero node where there is none.
pub open spec fn node_words(nodes: Seq<GpuNode>, words: Seq<u32>) -> bool {
    if nodes.len() == 0 {
        words == seq![0u32, 0u32, 0u32]
    } else {
        &&& words.len() == 3 * nodes.len()
        &&& forall|i: int|
            #![trigger nodes[i]]
            0 <= i < nodes.len() ==> words[3 * i] == nodes[i].mask_lo && words[3 * i + 1]
                == nodes[i].mask_hi && words[3 * i + 2] == nodes[i].child_base
    }
}

/// `words` are the leaves' occupancy bits, sixteen words each; one empty leaf
/// where there is none.
pub open spec fn leaf_words(leaves: Seq<LeafBrick>, words: Seq<u32>) -> bool {
    if leaves.len() == 0 {
        words == Seq::new(16, |i: int| 0u32)
    } else {
        &&& words.len() == 16 * leaves.len()
        &&& forall|i: int, m: int|
            0 <= i < leaves.len() && 0 <= m < 512 ==> bit(
                words[16 * i + m / 32] as u64,
                m % 32,
            ) == #[trigger] leaves[i]@[m]
    }
}

/// The packed bounds, one word per leaf; the full bound (never skip) where there
/// is none, so a stray read stays conservative.
pub open spec fn bounds_words(bounds: Seq<u32>) -> Seq<u32> {
    if bounds.len() == 0 {
        seq![0x3_fe00u32]
    } else {
        bounds
    }
}

/// The material slots; one uniform slot where there is none.
pub open spec fn material_words(slots: Seq<u32>) -> Seq<u32> {
    if slots.len() == 0 {
        Seq::new(STRIDE_W as nat, |i: int| 0u32)
    } else {
        slots
    }
}

/// The larger of a count and one: no buffer is empty.
pub open spec fn at_least_one(n: nat) -> int {
    if n == 0 {
        1
    } else {
        n as int
    }
}

/// The contents of a structure's three buffers.
#[derive(Debug, Clone)]
pub struct StructureUpload {
    /// The node buffer.
    pub nodes: Vec<u8>,
    /// The leaf occupancy buffer.
    pub leaves: Vec<u8>,
    /// The leaf bounds buffer.
    pub leaf_bounds: Vec<u8>,
}

/// The buffers' bytes fit a 64-bit size and addressable memory.
pub open spec fn addressable(s: SchoolBBuffer) -> bool {
    &&& 12 * s.nodes@.len() <= isize::MAX
    &&& 64 * s.leaves@.len() <= isize::MAX
    &&& 4 * s.leaf_bounds@.len() <= isize::MAX
    &&& 4 * s.leaf_mat@.len() <= isize::MAX
    &&& 4 * s.leaf_color@.len() <= isize::MAX
    &&& 4 * s.leaf_color_base@.len() <= isize::MAX
}

/// The buffers hold the structure.
pub open spec fn uploads(s: SchoolBBuffer, u: StructureUpload) -> bool {
    &&& exists|w: Seq<u32>| #[trigger] node_words(s.nodes@, w) && same_memory(u.nodes@, w)
    &&& exists|w: Seq<u32>| #[trigger] leaf_words(s.leaves@, w) && same_memory(u.leaves@, w)
    &&& same_memory(u.leaf_bounds@, bounds_words(s.leaf_bounds@))
}

/// What an upload under a byte limit gives: the first of the buffers that is
/// too large, or all three.
pub open spec fn upload_result(
    s: SchoolBBuffer,
    limit: u64,
    r: Result<StructureUpload, GpuError>,
) -> bool {
    let nodes = 12 * at_least_one(s.nodes@.len());
    let leaves = 64 * at_least_one(s.leaves@.len());
    let bounds = 4 * at_least_one(s.leaf_bounds@.len());
    if nodes > limit {
        r matches Err(e) && too_large(e, nodes, limit)
    } else if leaves > limit {
        r matches Err(e) && too_large(e, leaves, limit)
    } else if bounds > limit {
        r matches Err(e) && too_large(e, bounds, limit)
    } else {
        r matches Ok(u) && uploads(s, u)
    }
}

/// The node words of a structure.
#[must_use]
pub fn pack_nodes(nodes: &[GpuNode]) -> (r: Vec<u32>)
    requires
        12 * nodes@.len() <= isize::MAX,
    ensures
        node_words(nodes@, r@),
        r@.len() == 3 * at_least_one(nodes@.len()),
{
    let mut out: Vec<u32> = Vec::new();
    let mut i: usize = 0;
    while i < nodes.len()
        invariant
            i <= nodes@.len(),
            12 * nodes@.len() <= isize::MAX,
            out@.len() == 3 * i,
            forall|j: int|
                #![trigger nodes@[j]]
                0 <= j < i ==> out@[3 * j] == nodes@[j].mask_lo && out@[3 * j + 1]
                    == nodes@[j].mask_hi && out@[3 * j + 2] == nodes@[j].child_base,
        decreases nodes@.len() - i,
    {
        let node: GpuNode = nodes[i];
        out.push(node.mask_lo);
        out.push(node.mask_hi);
        out.push(node.child_base);
        i = i + 1;
    }
    if out.len() == 0 {
        out.push(0);
        out.push(0);
        out.push(0);
        assert(out@ =~= seq![0u32, 0u32, 0u32]);
    }
    out
}

/// The leaf words of a structure.
#[must_use]
pub fn pack_leaves(leaves: &[LeafBrick]) -> (r: Vec<u32>)
    requires
        64 * leaves@.len() <= isize::MAX,
    ensures
        leaf_words(leaves@, r@),
        r@.len() == 16 * at_least_one(leaves@.len()),
{
    let mut out: Vec<u32> = Vec::new();
    let mut i: usize = 0;
    while i < leaves.len()
        invariant
            i <= leaves@.len(),
            64 * leaves@.len() <= isize::MAX,
            out@.len() == 16 * i,
            forall|j: int, m: int|
                0 <= j < i && 0 <= m < 512 ==> bit(out@[16 * j + m / 32] as u64, m % 32)
                    == #[trigger] leaves@[j]@[m],
        decreases leaves@.len() - i,
    {
        let words: [u32; 16] = leaves[i].words32();
        let ghost was = out@;
        let mut w: usize = 0;
        while w < 16
            invariant
                w <= 16,
                out@.len() == 16 * i + w,
                was.len() == 16 * i,
                16 * i + 16 <= isize::MAX,
                forall|v: int| 0 <= v < was.len() ==> #[trigger] out@[v] == was[v],
                forall|v: int| 0 <= v < w ==> out@[16 * i + v] == #[trigger] words@[v],
            decreases 16 - w,
        {
            out.push(words[w]);
            w = w + 1;
        }
        proof {
            assert forall|j: int, m: int| 0 <= j < i + 1 && 0 <= m < 512 implies bit(
                out@[16 * j + m / 32] as u64,
                m % 32,
            ) == #[trigger] leaves@[j]@[m] by {
                if j < i {
                    assert(out@[16 * j + m / 32] == was[16 * j + m / 32]);
                    assert(bit(was[16 * j + m / 32] as u64, m % 32) == leaves@[j]@[m]);
                } else {
                    assert(out@[16 * i + m / 32] == words@[m / 32]);
                    assert(bit(words[m / 32] as u64, m % 32) == leaves@[i as int]@[m]);
                }
            }
        }
        i = i + 1;
    }
    if out.len() == 0 {
        let blank: Vec<u32> = vec![0u32; 16];
        assert(blank@ =~= Seq::new(16, |i: int| 0u32));
        return blank;
    }
    out
}

/// A limit check on one buffer.
fn within_limit(needed: u64, limit: u64) -> (r: Result<(), GpuError>)
    ensures
        needed > limit ==> (r matches Err(e) && too_large(e, needed as int, limit)),
        needed <= limit ==> r is Ok,
{
    if needed > limit {
        Err(GpuError::BufferTooLarge { needed, limit })
    } else {
        Ok(())
    }
}

/// The contents of the node, leaf, and per-leaf-bounds buffers (each padded to be
/// non-empty, so the empty and single-leaf structures are valid).
pub fn upload_structure(structure: &SchoolBBuffer, limit: u64) -> (r: Result<
    StructureUpload,
    GpuError,
>)
    requires
        addressable(*structure),
    ensures
        upload_result(*structure, limit, r),
{
    let node_words: Vec<u32> = pack_nodes(structure.nodes());
    let leaf_words: Vec<u32> = pack_leaves(structure.leaves());
    let mut bound_words: Vec<u32> = slice_to_vec(structure.leaf_bounds_words());
    if bound_words.len() == 0 {
        let full: LeafBounds = LeafBounds::full();
        bound_words.push(full.pack());
        assert(bound_words@ =~= bounds_words(structure.leaf_bounds@));
    }
    let (a, b, c) = (
        node_words.len() as u64 * 4,
        leaf_words.len() as u64 * 4,
        bound_words.len() as u64 * 4,
    );
    if let Err(e) = within_limit(a, limit) {
        return Err(e);
    }
    if let Err(e) = within_limit(b, limit) {
        return Err(e);
    }
    if let Err(e) = within_limit(c, limit) {
        return Err(e);
    }
    Ok(
        StructureUpload {
            nodes: words_as_bytes(node_words.as_slice()),
            leaves: words_as_bytes(leaf_words.as_slice()),
            leaf_bounds: words_as_bytes(bound_words.as_slice()),
        },
    )
}

/// The contents of the palette-mode buffers.
#[derive(Debug, Clone)]
pub struct MaterialUpload {
    /// The per-leaf packed material slots.
    pub leaf_mat: Vec<u8>,
    /// The global `global_id → colour` table.
    pub table: Vec<u8>,
}

/// What a material upload under a byte limit gives.
pub open spec fn material_result(
    s: SchoolBBuffer,
    table: MaterialTable,
    limit: u64,
    r: Result<MaterialUpload, GpuError>,
) -> bool {
    let mats = 4 * material_words(s.leaf_mat@).len();
    let colors = 4 * table@.len();
    if mats > limit {
        r matches Err(e) && too_large(e, mats as int, limit)
    } else if colors > limit {
        r matches Err(e) && too_large(e, colors as int, limit)
    } else {
        r matches Ok(u) && same_memory(u.leaf_mat@, material_words(s.leaf_mat@)) && same_memory(
            u.table@,
            table@,
        )
    }
}

/// The material words of a structure, padded to be non-empty.
#[must_use]
pub fn pack_materials(structure: &SchoolBBuffer) -> (r: Vec<u32>)
    ensures
        r@ == material_words(structure.leaf_mat@),
{
    let words: Vec<u32> = slice_to_vec(structure.leaf_mat_words());
    if words.len() == 0 {
        let blank: Vec<u32> = vec![0u32; STRIDE_W];
        assert(blank@ =~= material_words(structure.leaf_mat@));
        return blank;
    }
    words
}

/// The contents of the render-path material buffers: the per-leaf packed material
/// slots and the global colour table.
pub fn upload_materials(structure: &SchoolBBuffer, table: &MaterialTable, limit: u64) -> (r: Result<
    MaterialUpload,
    GpuError,
>)
    requires
        addressable(*structure),
        4 * table@.len() <= isize::MAX,
    ensures
        material_result(*structure, *table, limit, r),
{
    let mat_words: Vec<u32> = pack_materials(structure);
    let table_words: &[u32] = table.words();
    if let Err(e) = within_limit(mat_words.len() as u64 * 4, limit) {
        return Err(e);
    }
    if let Err(e) = within_limit(table_words.len() as u64 * 4, limit) {
        return Err(e);
    }
    Ok(
        MaterialUpload {
            leaf_mat: words_as_bytes(mat_words.as_slice()),
            table: words_as_bytes(table_words),
        },
    )
}

/// The contents of the truecolor-mode buffers.
#[derive(Debug, Clone)]
pub struct ColorUpload {
    /// The colour chunks.
    pub chunks: Vec<Vec<u8>>,
    /// The per-leaf colour base offsets.
    pub base: Vec<u8>,
    /// One word, bound into the unused chunk slots.
    pub dummy: Vec<u8>,
}

/// The buffers hold the colours, tiled into chunks, and the bases.
pub open spec fn uploads_colors(
    colors: Seq<u32>,
    bases: Seq<u32>,
    per: int,
    u: ColorUpload,
) -> bool {
    &&& u.chunks@.len() == ceil_div(colors.len() as int, per)
    &&& forall|i: int|
        0 <= i < u.chunks@.len() ==> same_memory(
            (#[trigger] u.chunks@[i])@,
            colors.subrange(i * per, chunk_end(colors.len() as int, per, i)),
        )
    &&& same_memory(u.base@, bases)
    &&& same_memory(u.dummy@, seq![0u32])
}

/// The contents of the truecolor render buffers: the colour chunks (flat slices
/// of `leaf_color`), the per-leaf base offsets, and one shared filler word.
#[must_use]
pub fn upload_color_chunks(leaf_color: &[u32], base_words: &[u32], per_chunk: u32) -> (r:
    ColorUpload)
    requires
        per_chunk >= 1,
    ensures
        uploads_colors(leaf_color@, base_words@, per_chunk as int, r),
{
    let slices: Vec<&[u32]> = split_color_chunks(leaf_color, per_chunk);
    let mut chunks: Vec<Vec<u8>> = Vec::new();
    let mut i: usize = 0;
    while i < slices.len()
        invariant
            i <= slices@.len(),
            chunks@.len() == i,
            forall|j: int| 0 <= j < i ==> same_memory((#[trigger] chunks@[j])@, slices@[j]@),
        decreases slices@.len() - i,
    {
        let bytes: Vec<u8> = words_as_bytes(slices[i]);
        chunks.push(bytes);
        i = i + 1;
    }
    let filler: [u32; 1] = [0u32];
    assert(filler@ =~= seq![0u32]);
    ColorUpload {
        chunks,
        base: words_as_bytes(base_words),
        dummy: words_as_bytes(filler.as_slice()),
    }
}

/// A binding of a kernel's layout.
#[derive(Debug, Clone, Copy, PartialEq, Eq, Structural)]
pub enum Slot {
    /// A read-only storage buffer.
    Storage(u32),
    /// A uniform buffer.
    Uniform(u32),
    /// The output texture.
    Output(u32),
}

/// The palette mode's bindings: nodes, leaves, bounds, camera, output, material
/// slots, colour table.
pub open spec fn palette_layout() -> Seq<Slot> {
    seq![
        Slot::Storage(0),
        Slot::Storage(1),
        Slot::Storage(2),
        Slot::Uniform(3),
        Slot::Output(4),
        Slot::Storage(5),
        Slot::Storage(6),
    ]
}

/// The truecolor mode's bindings: nodes, leaves, bounds, camera, output, colour
/// bases, three colour chunks.
pub open spec fn truecolor_layout() -> Seq<Slot> {
    palette_layout() + seq![Slot::Storage(7), Slot::Storage(8)]
}

/// A scene's shading mode.
#[derive(Debug, Clone, Copy, PartialEq, Eq, Structural)]
pub enum RenderMode {
    /// Palette materials; leaves and material slots can be patched in place.
    Palette,
    /// Per-voxel truecolor, build-once: edits must re-bake.
    Truecolor,
}

/// The mode's own buffers.
#[derive(Debug, Clone)]
pub enum ModeUpload {
    /// The palette buffers.
    Palette(MaterialUpload),
    /// The truecolor buffers.
    Truecolor(ColorUpload),
}

/// The limits of a device that the render path depends on.
#[derive(Debug, Clone, Copy, PartialEq, Eq, Structural)]
pub struct DeviceLimits {
    /// Storage buffers per shader stage.
    pub max_storage_buffers: u32,
    /// Bytes per storage binding.
    pub max_binding: u64,
    /// Bytes per buffer.
    pub max_buffer: u64,
}

/// The shader modules the render kernels are assembled from.
#[derive(Debug, Clone)]
pub struct ShaderText {
    /// The shared traversal core.
    pub traversal: String,
    /// The palette entry.
    pub render: String,
    /// The opaque truecolor entry.
    pub truecolor: String,
    /// The compositing truecolor entry.
    pub blend: String,
}

/// What a renderer is built from: the layout, the shader source, and the mode's
/// own buffers.
#[derive(Debug, Clone)]
pub struct RenderPlan {
    /// The bindings.
    pub layout: Vec<Slot>,
    /// The shader source.
    pub source: String,
    /// The shading mode.
    pub mode: RenderMode,
    /// The mode's buffers.
    pub buffers: ModeUpload,
}

/// A truecolor scene's plan: the layout, the compositing entry only where some
/// leaf is transparent, and the colour buffers.
pub open spec fn truecolor_plan(
    s: SchoolBBuffer,
    per_chunk: u32,
    text: ShaderText,
    p: RenderPlan,
) -> bool {
    &&& p.mode == RenderMode::Truecolor
    &&& p.layout@ == truecolor_layout()
    &&& p.source@ == if s.has_transparency {
        declaration("PER_CHUNK"@, per_chunk) + declaration("MAX_BLEND"@, MAX_BLEND) + modules(
            text.traversal@,
            text.blend@,
        )
    } else {
        declaration("PER_CHUNK"@, per_chunk) + modules(text.traversal@, text.truecolor@)
    }
    &&& p.buffers matches ModeUpload::Truecolor(u) && uploads_colors(
        s.leaf_color@,
        s.leaf_color_base@,
        per_chunk as int,
        u,
    )
}

/// A palette scene's plan.
pub open spec fn palette_plan(
    s: SchoolBBuffer,
    table: MaterialTable,
    text: ShaderText,
    p: RenderPlan,
) -> bool {
    &&& p.mode == RenderMode::Palette
    &&& p.layout@ == palette_layout()
    &&& p.source@ == modules(text.traversal@, text.render@)
    &&& p.buffers matches ModeUpload::Palette(u) && same_memory(
        u.leaf_mat@,
        material_words(s.leaf_mat@),
    ) && same_memory(u.table@, table@)
}

/// Chooses a scene's shading mode and plans its layout, shader and buffers:
/// truecolor where colours are baked, palette otherwise. The device is probed
/// before anything is planned, so a failure leaves nothing behind.
pub fn select_render_mode(
    structure: &SchoolBBuffer,
    table: &MaterialTable,
    per_chunk: u32,
    limits: DeviceLimits,
    text: &ShaderText,
) -> (r: Result<RenderPlan, GpuError>)
    requires
        addressable(*structure),
        structure.resolution.wf(),
        4 * table@.len() <= isize::MAX,
        per_chunk >= 1,
    ensures
        ({
            let n = structure.resolution.side();
            let chunks = ceil_div(structure.leaf_color@.len() as int, per_chunk as int);
            let cap = least(limits.max_binding, limits.max_buffer);
            let base = 4 * structure.leaf_color_base@.len();
            let mats = 4 * material_words(structure.leaf_mat@).len();
            let colors = 4 * table@.len();
            if structure.leaf_color@.len() > 0 {
                if limits.max_storage_buffers < 4 + N_MAX_CHUNKS {
                    r matches Err(e) && unsupported(
                        e,
                        n,
                        "truecolor needs 7 storage buffers but the adapter caps lower"@,
                    )
                } else if chunks > N_MAX_CHUNKS {
                    r matches Err(e) && unsupported(
                        e,
                        n,
                        "scene exceeds the compiled truecolor colour-chunk count"@,
                    )
                } else if 4 * per_chunk > cap {
                    r matches Err(e) && too_large(e, 4 * per_chunk, cap)
                } else if base > cap {
                    r matches Err(e) && too_large(e, base as int, cap)
                } else {
                    r matches Ok(p) && truecolor_plan(*structure, per_chunk, *text, p)
                }
            } else if mats > limits.max_binding {
                r matches Err(e) && too_large(e, mats as int, limits.max_binding)
            } else if colors > limits.max_binding {
                r matches Err(e) && too_large(e, colors as int, limits.max_binding)
            } else {
                r matches Ok(p) && palette_plan(*structure, *table, *text, p)
            }
        }),
{
    let mut layout: Vec<Slot> = vec![
        Slot::Storage(0),
        Slot::Storage(1),
        Slot::Storage(2),
        Slot::Uniform(3),
        Slot::Output(4),
        Slot::Storage(5),
        Slot::Storage(6),
    ];
    assert(layout@ =~= palette_layout());
    if structure.has_leaf_color() {
        let n: u32 = structure.resolution.voxels_per_axis();
        let colors: &[u32] = structure.leaf_color_words();
        let bases: &[u32] = structure.leaf_color_base_words();
        let probe: Result<u32, GpuError> = probe_truecolor(
            n,
            colors.len(),
            bases.len() as u64 * 4,
            per_chunk,
            limits.max_storage_buffers,
            limits.max_binding,
            limits.max_buffer,
        );
        if let Err(e) = probe {
            return Err(e);
        }
        layout.push(Slot::Storage(7));
        layout.push(Slot::Storage(8));
        assert(layout@ =~= truecolor_layout());
        let source: String = if structure.has_transparency() {
            color_blend_shader_source(
                per_chunk,
                MAX_BLEND,
                text.traversal.as_str(),
                text.blend.as_str(),
            )
        } else {
            color_shader_source(per_chunk, text.traversal.as_str(), text.truecolor.as_str())
        };
        let buffers: ColorUpload = upload_color_chunks(colors, bases, per_chunk);
        return Ok(
            RenderPlan {
                layout,
                source,
                mode: RenderMode::Truecolor,
                buffers: ModeUpload::Truecolor(buffers),
            },
        );
    }
    match upload_materials(structure, table, limits.max_binding) {
        Err(e) => Err(e),
        Ok(buffers) => Ok(
            RenderPlan {
                layout,
                source: shader_source(text.traversal.as_str(), text.render.as_str()),
                mode: RenderMode::Palette,
                buffers: ModeUpload::Palette(buffers),
            },
        ),
    }
}

/// Bytes to write into a buffer at an offset.
#[derive(Debug, Clone)]
pub struct Patch {
    /// Byte offset into the buffer.
    pub offset: u64,
    /// The bytes.
    pub bytes: Vec<u8>,
}

/// The patches of one leaf: its occupancy words and its packed bounds.
#[derive(Debug, Clone)]
pub struct LeafPatch {
    /// The patch of the leaf buffer.
    pub words: Patch,
    /// The patch of the bounds buffer.
    pub bounds: Patch,
}

/// What is uploaded again after a topology edit.
#[derive(Debug, Clone)]
pub struct Reupload {
    /// The three structure buffers.
    pub structure: StructureUpload,
    /// The material slots, index-parallel with the leaves.
    pub leaf_mat: Vec<u8>,
}

/// Why a truecolor scene takes no edits.
pub open spec fn build_once() -> Seq<char> {
    "truecolor renderer is build-once; re-bake via GpuRenderer::new after an edit"@
}

impl RenderMode {
    /// A truecolor renderer is build-once: an edit would leave its colours stale.
    fn check_editable(self, structure: &SchoolBBuffer) -> (r: Result<(), GpuError>)
        requires
            structure.resolution.wf(),
        ensures
            self == RenderMode::Palette ==> r is Ok,
            self == RenderMode::Truecolor ==> (r matches Err(e) && unsupported(
                e,
                structure.resolution.side(),
                build_once(),
            )),
    {
        match self {
            RenderMode::Palette => Ok(()),
            RenderMode::Truecolor => Err(
                GpuError::Unsupported {
                    n: structure.resolution.voxels_per_axis(),
                    reason: "truecolor renderer is build-once; re-bake via GpuRenderer::new after an edit",
                },
            ),
        }
    }

    /// The patch of a single leaf after an in-place edit: its sixteen occupancy
    /// words, and its packed bounds word.
    pub fn update_leaf(self, structure: &SchoolBBuffer, leaf_idx: u32) -> (r: Result<
        LeafPatch,
        GpuError,
    >)
        requires
            structure.resolution.wf(),
            self == RenderMode::Palette ==> leaf_idx < structure.leaves@.len(),
            self == RenderMode::Palette ==> leaf_idx < structure.leaf_bounds@.len(),
        ensures
            self == RenderMode::Truecolor ==> (r matches Err(e) && unsupported(
                e,
                structure.resolution.side(),
                build_once(),
            )),
            self == RenderMode::Palette ==> (r matches Ok(p) && {
                &&& p.words.offset == 64 * leaf_idx
                &&& exists|w: Seq<u32>| #[trigger]
                    leaf_words(seq![structure.leaves@[leaf_idx as int]], w) && same_memory(
                        p.words.bytes@,
                        w,
                    )
                &&& p.bounds.offset == 4 * leaf_idx
                &&& same_memory(
                    p.bounds.bytes@,
                    seq![structure.leaf_bounds@[leaf_idx as int]],
                )
            }),
    {
        if let Err(e) = self.check_editable(structure) {
            return Err(e);
        }
        let leaf: &LeafBrick = structure.leaf_at(leaf_idx);
        let words: [u32; 16] = leaf.words32();
        let bounds: [u32; 1] = [structure.leaf_bounds_words()[leaf_idx as usize]];
        proof {
            let one = seq![structure.leaves@[leaf_idx as int]];
            assert(bounds@ =~= seq![structure.leaf_bounds@[leaf_idx as int]]);
            assert forall|i: int, m: int| 0 <= i < one.len() && 0 <= m < 512 implies bit(
                words@[16 * i + m / 32] as u64,
                m % 32,
            ) == #[trigger] one[i]@[m] by {
                assert(i == 0);
                assert(bit(words[m / 32] as u64, m % 32) == leaf@[m]);
            }
            assert(leaf_words(one, words@));
        }
        Ok(
            LeafPatch {
                words: Patch {
                    offset: leaf_idx as u64 * 64,
                    bytes: words_as_bytes(words.as_slice()),
                },
                bounds: Patch {
                    offset: leaf_idx as u64 * 4,
                    bytes: words_as_bytes(bounds.as_slice()),
                },
            },
        )
    }

    /// The patch of a single leaf's material slot after an in-place material
    /// edit.
    pub fn update_leaf_mat(self, structure: &SchoolBBuffer, leaf_idx: u32) -> (r: Result<
        Patch,
        GpuError,
    >)
        requires
            structure.resolution.wf(),
            self == RenderMode::Palette ==> STRIDE_W * leaf_idx + STRIDE_W
                <= structure.leaf_mat@.len(),
        ensures
            self == RenderMode::Truecolor ==> (r matches Err(e) && unsupported(
                e,
                structure.resolution.side(),
                build_once(),
            )),
            self == RenderMode::Palette ==> (r matches Ok(p) && p.offset == 4 * STRIDE_W * leaf_idx
                && same_memory(
                p.bytes@,
                slot_words(structure.leaf_mat@, leaf_idx as int),
            )),
    {
        if let Err(e) = self.check_editable(structure) {
            return Err(e);
        }
        let words: &[u32] = structure.leaf_mat_words();
        let total: usize = words.len();
        let base: usize = leaf_idx as usize * STRIDE_W;
        let slot: &[u32] = slice_subrange(words, base, base + STRIDE_W);
        assert(slot@ =~= slot_words(structure.leaf_mat@, leaf_idx as int));
        Ok(Patch { offset: leaf_idx as u64 * STRIDE_W as u64 * 4, bytes: words_as_bytes(slot) })
    }

    /// What to upload again after a topology edit, which renumbers leaf indices:
    /// all three structure buffers and the material slots. The global colour
    /// table is unchanged.
    pub fn reupload(self, structure: &SchoolBBuffer, limit: u64) -> (r: Result<Reupload, GpuError>)
        requires
            structure.resolution.wf(),
            addressable(*structure),
        ensures
            self == RenderMode::Truecolor ==> (r matches Err(e) && unsupported(
                e,
                structure.resolution.side(),
                build_once(),
            )),
            self == RenderMode::Palette ==> upload_result(
                *structure,
                limit,
                match r {
                    Ok(u) => Ok(u.structure),
                    Err(e) => Err(e),
                },
            ),
            r matches Ok(u) ==> same_memory(u.leaf_mat@, material_words(structure.leaf_mat@)),
    {
        if let Err(e) = self.check_editable(structure) {
            return Err(e);
        }
        match upload_structure(structure, limit) {
            Err(e) => Err(e),
            Ok(buffers) => {
                let mats: Vec<u32> = pack_materials(structure);
                Ok(Reupload { structure: buffers, leaf_mat: words_as_bytes(mats.as_slice()) })
            },
        }
    }
}

/// Words with the same 32 bits are the same word.
proof fn lemma_word_bits(a: u32, b: u32)
    requires
        forall|i: int| 0 <= i < 32 ==> bit(a as u64, i) == #[trigger] bit(b as u64, i),
    ensures
        a == b,
{
    assert forall|i: int| 0 <= i < 64 implies bit(a as u64, i) == #[trigger] bit(b as u64, i) by {
        if i >= 32 {
            let k = i as u64;
            assert(((a as u64) >> k) & 1u64 == 0 && ((b as u64) >> k) & 1u64 == 0) by (bit_vector)
                requires
                    32 <= k < 64,
            ;
        }
    }
    lemma_bits_determine(a as u64, b as u64);
}

/// A leaf's patch goes where the upload has the leaf: over the upload of the same
/// structure it changes nothing. It is the leaf's 64 bytes and its one bounds
/// word, and lies within the buffers.
pub proof fn law_patch_lands_on_leaf(
    s: SchoolBBuffer,
    limit: u64,
    idx: u32,
    u: StructureUpload,
    p: LeafPatch,
)
    requires
        s.resolution.wf(),
        addressable(s),
        idx < s.leaves@.len(),
        idx < s.leaf_bounds@.len(),
        call_ensures(upload_structure, (&s, limit), Ok(u)),
        call_ensures(RenderMode::update_leaf, (RenderMode::Palette, &s, idx), Ok(p)),
    ensures
        p.words.bytes@.len() == 64 && p.bounds.bytes@.len() == 4,
        p.words.offset % 64 == 0 && p.bounds.offset % 4 == 0,
        p.words.offset + 64 <= u.leaves@.len(),
        p.bounds.offset + 4 <= u.leaf_bounds@.len(),
        exists|all: Seq<u32>, one: Seq<u32>|
            #![trigger same_memory(u.leaves@, all), same_memory(p.words.bytes@, one)]
            same_memory(u.leaves@, all) && same_memory(p.words.bytes@, one) && one =~= all.subrange(
                p.words.offset as int / 4,
                p.words.offset as int / 4 + 16,
            ),
        exists|all: Seq<u32>, one: Seq<u32>|
            #![trigger same_memory(u.leaf_bounds@, all), same_memory(p.bounds.bytes@, one)]
            same_memory(u.leaf_bounds@, all) && same_memory(p.bounds.bytes@, one) && one
                =~= all.subrange(p.bounds.offset as int / 4, p.bounds.offset as int / 4 + 1),
{
    let leaf = s.leaves@[idx as int];
    let single = seq![leaf];
    let all = choose|w: Seq<u32>| #[trigger]
        leaf_words(s.leaves@, w) && same_memory(u.leaves@, w);
    let one = choose|w: Seq<u32>| #[trigger]
        leaf_words(single, w) && same_memory(p.words.bytes@, w);
    let place = 16 * idx as int;
    assert forall|j: int| 0 <= j < 16 implies one[j] == all[place + j] by {
        assert forall|i: int| 0 <= i < 32 implies bit(one[j] as u64, i) == #[trigger] bit(
            all[place + j] as u64,
            i,
        ) by {
            let m = 32 * j + i;
            assert(m / 32 == j && m % 32 == i);
            assert(bit(one[16 * 0 + m / 32] as u64, m % 32) == single[0]@[m]);
            assert(bit(all[16 * idx as int + m / 32] as u64, m % 32) == s.leaves@[idx as int]@[m]);
        }
        lemma_word_bits(one[j], all[place + j]);
    }
    assert(one =~= all.subrange(place, place + 16));
    let bounds = seq![s.leaf_bounds@[idx as int]];
    assert(bounds =~= s.leaf_bounds@.subrange(idx as int, idx + 1));
    assert(same_memory(u.leaf_bounds@, s.leaf_bounds@));
    assert(same_memory(p.bounds.bytes@, bounds));
}

/// A leaf's material patch goes where the upload has the leaf's slot.
pub proof fn law_material_patch_lands_on_slot(
    s: SchoolBBuffer,
    table: MaterialTable,
    limit: u64,
    idx: u32,
    u: MaterialUpload,
    p: Patch,
)
    requires
        s.resolution.wf(),
        addressable(s),
        4 * table@.len() <= isize::MAX,
        STRIDE_W * idx + STRIDE_W <= s.leaf_mat@.len(),
        call_ensures(upload_materials, (&s, &table, limit), Ok(u)),
        call_ensures(RenderMode::update_leaf_mat, (RenderMode::Palette, &s, idx), Ok(p)),
    ensures
        p.offset + p.bytes@.len() <= u.leaf_mat@.len(),
        p.bytes@.len() == 4 * STRIDE_W,
        exists|one: Seq<u32>| #[trigger]
            same_memory(p.bytes@, one) && same_memory(u.leaf_mat@, s.leaf_mat@) && one
                =~= s.leaf_mat@.subrange(
                p.offset as int / 4,
                p.offset as int / 4 + STRIDE_W,
            ),
{
    let one = slot_words(s.leaf_mat@, idx as int);
    assert(s.leaf_mat@.len() > 0);
    assert(material_words(s.leaf_mat@) == s.leaf_mat@);
    assert(same_memory(u.leaf_mat@, s.leaf_mat@));
    assert(4 * STRIDE_W * idx == 4 * (STRIDE_W * idx)) by (nonlinear_arith);
    assert(p.offset == 4 * STRIDE_W * idx);
    assert(same_memory(p.bytes@, one));
    assert(one =~= s.leaf_mat@.subrange(
        p.offset as int / 4,
        p.offset as int / 4 + STRIDE_W,
    ));
}

/// A structure is uploaded exactly where each of its three buffers fits the
/// limit, and no buffer is empty. An error names a size over the limit.
pub proof fn law_upload_fits_limit(
    s: SchoolBBuffer,
    limit: u64,
    r: Result<StructureUpload, GpuError>,
)
    requires
        addressable(s),
        call_ensures(upload_structure, (&s, limit), r),
    ensures
        r is Ok <==> 12 <= limit && 12 * s.nodes@.len() <= limit && 64 <= limit && 64
            * s.leaves@.len() <= limit && 4 * s.leaf_bounds@.len() <= limit,
        r matches Ok(u) ==> 0 < u.nodes@.len() <= limit && 0 < u.leaves@.len() <= limit && 0
            < u.leaf_bounds@.len() <= limit,
        r matches Ok(u) ==> (s.nodes@.len() > 0 ==> u.nodes@.len() == 12 * s.nodes@.len()) && (
        s.leaves@.len() > 0 ==> u.leaves@.len() == 64 * s.leaves@.len()) && (s.leaf_bounds@.len()
            > 0 ==> u.leaf_bounds@.len() == 4 * s.leaf_bounds@.len()),
        r matches Err(e) ==> (e matches GpuError::BufferTooLarge { needed, limit: l } && needed
            > limit && l == limit && needed == {
            let nodes = if s.nodes@.len() == 0 {
                12nat
            } else {
                12 * s.nodes@.len()
            };
            let leaves = if s.leaves@.len() == 0 {
                64nat
            } else {
                64 * s.leaves@.len()
            };
            if nodes > limit {
                nodes
            } else if leaves > limit {
                leaves
            } else {
                4 * s.leaf_bounds@.len()
            }
        }),
{
    if let Ok(u) = r {
        let n = choose|w: Seq<u32>| #[trigger]
            node_words(s.nodes@, w) && same_memory(u.nodes@, w);
        let l = choose|w: Seq<u32>| #[trigger]
            leaf_words(s.leaves@, w) && same_memory(u.leaves@, w);
    }
}

/// How many of the first `n` bindings are storage buffers.
pub open spec fn storage_count(layout: Seq<Slot>, n: int) -> nat
    decreases n,
{
    if n <= 0 {
        0
    } else {
        storage_count(layout, n - 1) + if layout[n - 1] is Storage {
            1nat
        } else {
            0
        }
    }
}

/// The bindings are numbered as they stand, the truecolor layout begins with the
/// palette one, and it binds as many storage buffers as the probe asks the
/// device for.
pub proof fn law_layouts_number_bindings(i: int)
    ensures
        0 <= i < palette_layout().len() ==> truecolor_layout()[i] == palette_layout()[i],
        0 <= i < truecolor_layout().len() ==> (match truecolor_layout()[i] {
            Slot::Storage(b) => b == i,
            Slot::Uniform(b) => b == i,
            Slot::Output(b) => b == i,
        }),
        storage_count(truecolor_layout(), truecolor_layout().len() as int) == 4 + N_MAX_CHUNKS,
        truecolor_layout().len() == storage_count(
            truecolor_layout(),
            truecolor_layout().len() as int,
        ) + 2,
{
    reveal_with_fuel(storage_count, 10);
}

/// A scene with baked colours is planned in truecolor and no other is, with the
/// buffers of its mode; the plan's source ends with the mode's own entry: the
/// compositing one only where something is transparent.
pub proof fn law_mode_follows_colors(
    s: SchoolBBuffer,
    table: MaterialTable,
    per_chunk: u32,
    limits: DeviceLimits,
    text: ShaderText,
    p: RenderPlan,
)
    requires
        addressable(s),
        s.resolution.wf(),
        4 * table@.len() <= isize::MAX,
        per_chunk >= 1,
        call_ensures(select_render_mode, (&s, &table, per_chunk, limits, &text), Ok(p)),
    ensures
        p.mode == RenderMode::Truecolor <==> s.leaf_color@.len() > 0,
        p.buffers is Truecolor <==> p.mode == RenderMode::Truecolor,
        ({
            let entry = if s.leaf_color@.len() == 0 {
                text.render@
            } else if s.has_transparency {
                text.blend@
            } else {
                text.truecolor@
            };
            &&& p.source@.len() >= entry.len()
            &&& p.source@.skip(p.source@.len() - entry.len()) == entry
        }),
{
    let entry = if s.leaf_color@.len() == 0 {
        text.render@
    } else if s.has_transparency {
        text.blend@
    } else {
        text.truecolor@
    };
    assert(p.source@.skip(p.source@.len() - entry.len()) =~= entry);
}

/// Packed words keep the order: node `i`'s three words are its mask's halves, low
/// first, and its base; leaf `i`'s sixteen are its voxels. Where there is nothing
/// one blank stands in.
pub proof fn law_packed_words_keep_order(
    nodes: &[GpuNode],
    n: Vec<u32>,
    leaves: &[LeafBrick],
    l: Vec<u32>,
    s: SchoolBBuffer,
    m: Vec<u32>,
    i: int,
    v: int,
)
    requires
        12 * nodes@.len() <= isize::MAX,
        64 * leaves@.len() <= isize::MAX,
        call_ensures(pack_nodes, (nodes,), n),
        call_ensures(pack_leaves, (leaves,), l),
        call_ensures(pack_materials, (&s,), m),
        0 <= i,
        0 <= v < 512,
    ensures
        i < nodes@.len() ==> n@[3 * i] == nodes@[i].mask_lo && n@[3 * i + 1] == nodes@[i].mask_hi
            && n@[3 * i + 2] == nodes@[i].child_base,
        nodes@.len() > 0 ==> n@.len() == 3 * nodes@.len(),
        nodes@.len() == 0 ==> n@ == seq![0u32, 0u32, 0u32],
        i < leaves@.len() ==> bit(l@[16 * i + v / 32] as u64, v % 32) == leaves@[i]@[v],
        leaves@.len() > 0 ==> l@.len() == 16 * leaves@.len(),
        leaves@.len() == 0 ==> l@.len() == 16 && l@[v / 32] == 0,
        s.leaf_mat@.len() > 0 ==> m@ == s.leaf_mat@,
        s.leaf_mat@.len() == 0 ==> m@.len() == STRIDE_W && (v < STRIDE_W ==> m@[v] == 0),
{
    if i < nodes@.len() {
        assert(nodes@[i] == nodes@[i]);
    }
    if i < leaves@.len() {
        assert(leaves@[i]@[v] == leaves@[i]@[v]);
    }
}

/// Colours are uploaded in chunks that hold them in order: entry `g` is word
/// `g % per_chunk` of chunk `g / per_chunk`.
pub proof fn law_color_chunks_hold_colors(
    colors: &[u32],
    bases: &[u32],
    per_chunk: u32,
    u: ColorUpload,
    i: int,
)
    requires
        per_chunk >= 1,
        call_ensures(upload_color_chunks, (colors, bases, per_chunk), u),
        0 <= i < u.chunks@.len(),
    ensures
        uploads_colors(colors@, bases@, per_chunk as int, u),
        exists|w: Seq<u32>| #[trigger]
            same_memory(u.chunks@[i]@, w) && w.len() <= per_chunk && forall|j: int|
                0 <= j < w.len() ==> #[trigger] w[j] == colors@[i * per_chunk + j],
        same_memory(u.base@, bases@),
        u.dummy@.len() == 4,
{
    let per = per_chunk as int;
    let len = colors@.len() as int;
    let end = chunk_end(len, per, i);
    let w = colors@.subrange(i * per, end);
    crate::truecolor::lemma_ceil_div(len, per);
    let c = ceil_div(len, per);
    assert((i + 1) * per == i * per + per && 0 <= i * per && i * per <= (c - 1) * per)
        by (nonlinear_arith)
        requires
            0 <= i <= c - 1,
            1 <= per,
    ;
    assert(same_memory(u.chunks@[i]@, w));
    assert(w.len() == end - i * per);
}

/// A truecolor scene takes no edit of any kind; a palette scene refuses none but
/// for the size of a buffer. A reupload carries the material slots as they are.
pub proof fn law_edits_need_palette(
    mode: RenderMode,
    s: SchoolBBuffer,
    idx: u32,
    limit: u64,
    a: Result<LeafPatch, GpuError>,
    b: Result<Patch, GpuError>,
    c: Result<Reupload, GpuError>,
)
    requires
        s.resolution.wf(),
        addressable(s),
        mode == RenderMode::Palette ==> idx < s.leaves@.len() && idx < s.leaf_bounds@.len()
            && STRIDE_W * idx + STRIDE_W <= s.leaf_mat@.len(),
        call_ensures(RenderMode::update_leaf, (mode, &s, idx), a),
        call_ensures(RenderMode::update_leaf_mat, (mode, &s, idx), b),
        call_ensures(RenderMode::reupload, (mode, &s, limit), c),
    ensures
        mode == RenderMode::Truecolor <==> a is Err,
        mode == RenderMode::Truecolor <==> b is Err,
        mode == RenderMode::Truecolor ==> c is Err && !(c->Err_0 is BufferTooLarge),
        mode == RenderMode::Palette && c is Err ==> c->Err_0 is BufferTooLarge,
        c matches Ok(u) ==> uploads(s, u.structure) && same_memory(
            u.leaf_mat@,
            material_words(s.leaf_mat@),
        ),
{
}

/// Where there is no leaf the bounds word is the whole brick's, so that a stray
/// read skips nothing.
pub proof fn law_blank_bounds_are_whole(whole: LeafBounds, p: u32)
    requires
        call_ensures(LeafBounds::full, (), whole),
        call_ensures(LeafBounds::pack, (whole,), p),
    ensures
        bounds_words(Seq::empty()) == seq![p],
{
    assert(whole.min@[0] == 0 && whole.min@[1] == 0 && whole.min@[2] == 0);
    assert(whole.max@[0] == 7 && whole.max@[1] == 7 && whole.max@[2] == 7);
}

/// The material buffers are uploaded exactly where each fits the limit, and an
/// error names a size over it.
pub proof fn law_material_upload_fits_limit(
    s: SchoolBBuffer,
    table: MaterialTable,
    limit: u64,
    r: Result<MaterialUpload, GpuError>,
)
    requires
        addressable(s),
        4 * table@.len() <= isize::MAX,
        call_ensures(upload_materials, (&s, &table, limit), r),
    ensures
        r is Ok <==> 4 * s.leaf_mat@.len() <= limit && (s.leaf_mat@.len() == 0 ==> 4 * STRIDE_W
            <= limit) && 4 * table@.len() <= limit,
        r matches Ok(u) ==> 0 < u.leaf_mat@.len() <= limit && u.table@.len() == 4 * table@.len(),
        r matches Err(e) ==> (e matches GpuError::BufferTooLarge { needed, limit: l } && needed
            > limit && l == limit),
{
}

/// A scene is planned exactly where its mode's buffers fit the device: with baked
/// colours the bindings, the chunks, a chunk's and the bases' bytes; without, the
/// material slots and the table.
pub proof fn law_plan_needs_capacity(
    s: SchoolBBuffer,
    table: MaterialTable,
    per_chunk: u32,
    limits: DeviceLimits,
    text: ShaderText,
    r: Result<RenderPlan, GpuError>,
)
    requires
        addressable(s),
        s.resolution.wf(),
        4 * table@.len() <= isize::MAX,
        per_chunk >= 1,
        call_ensures(select_render_mode, (&s, &table, per_chunk, limits, &text), r),
    ensures
        s.leaf_color@.len() > 0 ==> (r is Ok <==> {
            &&& limits.max_storage_buffers >= 7
            &&& s.leaf_color@.len() <= 3 * per_chunk
            &&& 4 * per_chunk <= limits.max_binding && 4 * per_chunk <= limits.max_buffer
            &&& 4 * s.leaf_color_base@.len() <= limits.max_binding && 4 * s.leaf_color_base@.len()
                <= limits.max_buffer
        }),
        s.leaf_color@.len() == 0 ==> (r is Ok <==> {
            &&& 4 * s.leaf_mat@.len() <= limits.max_binding
            &&& s.leaf_mat@.len() == 0 ==> 4 * STRIDE_W <= limits.max_binding
            &&& 4 * table@.len() <= limits.max_binding
        }),
        r is Err && r->Err_0 is Unsupported <==> s.leaf_color@.len() > 0 && (
        limits.max_storage_buffers < 7 || s.leaf_color@.len() > 3 * per_chunk),
{
    let per = per_chunk as int;
    let len = s.leaf_color@.len() as int;
    crate::truecolor::lemma_ceil_div(len, per);
    let c = ceil_div(len, per);
    if c <= 3 {
        assert(c * per <= 3 * per) by (nonlinear_arith)
            requires
                c <= 3,
                0 <= per,
        ;
    }
    if len <= 3 * per {
        assert(3 * per >= len);
    }
}

/// A plan has its mode's bindings and its mode's shader: the plain core and entry
/// for the palette, the ones with the chunk size, and where something is
/// transparent the blend depth, ahead of them for truecolor.
pub proof fn law_plan_has_modes_shader(
    s: SchoolBBuffer,
    table: MaterialTable,
    per_chunk: u32,
    limits: DeviceLimits,
    text: ShaderText,
    p: RenderPlan,
    core: &str,
    entry: &str,
    plain: String,
    color: String,
    blend: String,
)
    requires
        addressable(s),
        s.resolution.wf(),
        4 * table@.len() <= isize::MAX,
        per_chunk >= 1,
        call_ensures(select_render_mode, (&s, &table, per_chunk, limits, &text), Ok(p)),
        core@ == text.traversal@,
        call_ensures(shader_source, (core, entry), plain),
        call_ensures(color_shader_source, (per_chunk, core, entry), color),
        call_ensures(color_blend_shader_source, (per_chunk, 8, core, entry), blend),
    ensures
        s.leaf_color@.len() == 0 && entry@ == text.render@ ==> p.source@ == plain@ && p.layout@
            == palette_layout(),
        s.leaf_color@.len() > 0 && !s.has_transparency && entry@ == text.truecolor@ ==> p.source@
            == color@ && p.layout@ == truecolor_layout(),
        s.leaf_color@.len() > 0 && s.has_transparency && entry@ == text.blend@ ==> p.source@
            == blend@ && p.layout@ == truecolor_layout(),
        p.buffers matches ModeUpload::Palette(u) ==> same_memory(u.table@, table@) && same_memory(
            u.leaf_mat@,
            material_words(s.leaf_mat@),
        ),
        p.buffers matches ModeUpload::Truecolor(u) ==> uploads_colors(
            s.leaf_color@,
            s.leaf_color_base@,
            per_chunk as int,
            u,
        ),
{
}

} // verus!
