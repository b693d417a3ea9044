//! The on-screen text: an 8×8 bitmap-font atlas, and where a line's glyphs go.

use crate::bits::{bit, lemma_zero_bit};
use crate::shader::{decimal, law_decimal_denotes, numeral, push_decimal};
use vstd::prelude::*;
use vstd::string::*;

verus! {

/// Glyph cell edge in pixels.
pub const GLYPH_PX: u32 = 8;

/// Glyph cells per atlas row.
pub const ATLAS_COLS: u32 = 16;

/// Rows of glyph cells.
pub const ATLAS_ROWS: u32 = 8;

/// Atlas width in pixels.
pub const ATLAS_W: u32 = 128;

/// Atlas height in pixels.
pub const ATLAS_H: u32 = 64;

/// Maximum quads per frame (text glyphs, panel, sparkline bars).
pub const MAX_QUADS: usize = 8192;

/// The eight bitmap rows of an ASCII character in the basic legacy font.
pub uninterp spec fn basic_glyph(c: u8) -> Seq<u8>;

/// The rows of a glyph with nothing to display.
pub open spec fn blank_rows() -> Seq<u8> {
    Seq::new(8, |i: int| 0u8)
}

/// The rows of an ASCII character, from the table
/// `font8x8::legacy::BASIC_LEGACY`, which has one entry of eight rows for each
/// of the 128 characters. The entries of the control characters and of the space
/// are all zero; what is drawn in the others is left to the name [`basic_glyph`].
#[verifier::external_body]
fn font_rows(c: u8) -> (r: [u8; 8])
    requires
        c < 128,
    ensures
        r@ == basic_glyph(c),
        c <= 32 || c == 127 ==> r@ == blank_rows(),
{
    font8x8::legacy::BASIC_LEGACY[c as usize]
}

/// The rows of a byte's glyph: the font's for ASCII, blank otherwise.
pub open spec fn glyph(c: u8) -> Seq<u8> {
    if c < 128 {
        basic_glyph(c)
    } else {
        blank_rows()
    }
}

/// The 8×8 bitmap rows for byte `c` (row 0 top; bit `1<<x` is column `x` from
/// the left). Non-printable bytes, bytes outside ASCII and the space render blank.
#[must_use]
pub fn glyph_rows(c: u8) -> (r: [u8; 8])
    ensures
        r@ == glyph(c),
        c <= 32 || c >= 127 ==> r@ == blank_rows(),
{
    if c < 128 {
        font_rows(c)
    } else {
        let blank: [u8; 8] = [0u8;8];
        assert(blank@ =~= glyph(c));
        blank
    }
}

/// The atlas pixel `i`, in row order: 255 where the bit of the glyph whose cell
/// it lies in is set.
pub open spec fn atlas_pixel(glyphs: Seq<Seq<u8>>, i: int) -> u8 {
    let (x, y) = (i % 128, i / 128);
    let row = glyphs[16 * (y / 8) + x / 8][y % 8];
    if bit(row as u64, x % 8) {
        255
    } else {
        0
    }
}

/// The rows of each glyph.
pub open spec fn rows_of(glyphs: Seq<[u8; 8]>) -> Seq<Seq<u8>> {
    Seq::new(glyphs.len(), |c: int| glyphs[c]@)
}

/// The font's 128 glyphs.
pub open spec fn basic_font() -> Seq<Seq<u8>> {
    Seq::new(128, |c: int| basic_glyph(c as u8))
}

/// Rasterizes 128 glyphs into an `ATLAS_W × ATLAS_H` one-byte image, 16 to a row.
#[must_use]
pub fn rasterize(glyphs: &[[u8; 8]]) -> (r: Vec<u8>)
    requires
        glyphs@.len() == 128,
    ensures
        r@.len() == ATLAS_W * ATLAS_H,
        forall|i: int| 0 <= i < r@.len() ==> #[trigger] r@[i] == atlas_pixel(rows_of(glyphs@), i),
{
    let mut px: Vec<u8> = Vec::new();
    let mut i: usize = 0;
    while i < 8192
        invariant
            glyphs@.len() == 128,
            i <= 8192,
            px@.len() == i,
            forall|j: int| 0 <= j < i ==> #[trigger] px@[j] == atlas_pixel(rows_of(glyphs@), j),
        decreases 8192 - i,
    {
        let (x, y) = (i % 128, i / 128);
        let code: usize = 16 * (y / 8) + x / 8;
        let row: u8 = glyphs[code][y % 8];
        let shift: u64 = (x % 8) as u64;
        let set: bool = ((row as u64) >> shift) & 1 == 1;
        px.push(
            if set {
                255
            } else {
                0
            },
        );
        i = i + 1;
    }
    px
}

/// The character whose atlas cell pixel `i` lies in.
pub open spec fn atlas_char(i: int) -> int {
    16 * (i / 128 / 8) + i % 128 / 8
}

/// Rasterizes the font atlas. The cells of the non-printable characters and of the
/// space are empty.
#[must_use]
pub fn build_atlas() -> (r: Vec<u8>)
    ensures
        r@.len() == ATLAS_W * ATLAS_H,
        forall|i: int| 0 <= i < r@.len() ==> #[trigger] r@[i] == atlas_pixel(basic_font(), i),
        forall|i: int|
            0 <= i < r@.len() && (atlas_char(i) <= 32 || atlas_char(i) == 127)
                ==> #[trigger] r@[i] == 0,
{
    let mut glyphs: Vec<[u8; 8]> = Vec::new();
    let mut code: u8 = 0;
    while code < 128
        invariant
            code <= 128,
            glyphs@.len() == code,
            forall|c: u8| c < code ==> (#[trigger] glyphs@[c as int])@ == basic_glyph(c),
            forall|c: u8|
                c < code && (c <= 32 || c == 127) ==> (#[trigger] glyphs@[c as int])@
                    == blank_rows(),
        decreases 128 - code,
    {
        let rows: [u8; 8] = glyph_rows(code);
        glyphs.push(rows);
        code = code + 1;
    }
    assert(rows_of(glyphs@) =~= basic_font()) by {
        assert forall|c: int| 0 <= c < 128 implies rows_of(glyphs@)[c] == basic_font()[c] by {
            assert(glyphs@[(c as u8) as int]@ == basic_glyph(c as u8));
        }
    }
    let atlas: Vec<u8> = rasterize(glyphs.as_slice());
    proof {
        assert forall|i: int|
            0 <= i < atlas@.len() && (atlas_char(i) <= 32 || atlas_char(i)
                == 127) implies #[trigger] atlas@[i] == 0 by {
            let c = atlas_char(i) as u8;
            assert(glyphs@[c as int]@ == blank_rows());
            assert(rows_of(glyphs@)[c as int] == blank_rows());
            lemma_zero_bit((i % 128 % 8) as u64);
        }
    }
    atlas
}

/// The atlas cell (column, row) of a byte's glyph.
#[must_use]
pub fn glyph_cell(c: u8) -> (r: (u32, u32))
    ensures
        r.0 == c % 16,
        r.1 == c / 16,
{
    (c as u32 % ATLAS_COLS, c as u32 / ATLAS_COLS)
}

/// A byte that is drawn: printable ASCII except the space.
pub open spec fn is_visible(b: u8) -> bool {
    32 < b < 127
}

/// The drawn bytes among the first `n`, each with its place in the line.
pub open spec fn visible(bytes: Seq<u8>, n: int) -> Seq<(usize, u8)>
    decreases n,
{
    if n <= 0 {
        Seq::empty()
    } else if is_visible(bytes[n - 1]) {
        visible(bytes, n - 1).push(((n - 1) as usize, bytes[n - 1]))
    } else {
        visible(bytes, n - 1)
    }
}

/// The glyphs of a line of text: the drawn bytes, each with its place. Other
/// bytes advance without drawing.
#[must_use]
pub fn visible_glyphs(bytes: &[u8]) -> (r: Vec<(usize, u8)>)
    ensures
        r@ == visible(bytes@, bytes@.len() as int),
{
    let mut out: Vec<(usize, u8)> = Vec::new();
    let mut i: usize = 0;
    while i < bytes.len()
        invariant
            i <= bytes@.len(),
            out@ == visible(bytes@, i as int),
        decreases bytes@.len() - i,
    {
        let b: u8 = bytes[i];
        if 32 < b && b < 127 {
            out.push((i, b));
        }
        i = i + 1;
    }
    out
}

/// How many of `n` assembled quads are drawn.
#[must_use]
pub fn quad_count(n: usize) -> (r: usize)
    ensures
        r == if n < MAX_QUADS {
            n
        } else {
            MAX_QUADS
        },
{
    if n < MAX_QUADS {
        n
    } else {
        MAX_QUADS
    }
}

/// A history with one more entry, without its oldest where it was full.
pub open spec fn bounded<T>(history: Seq<T>, value: T, cap: int) -> Seq<T> {
    if history.len() >= cap {
        history.drop_first().push(value)
    } else {
        history.push(value)
    }
}

/// Appends to a bounded history, dropping the oldest entry once it is full.
pub fn push_bounded<T>(history: &mut Vec<T>, value: T, cap: usize)
    requires
        cap >= 1,
    ensures
        final(history)@ == bounded(old(history)@, value, cap as int),
        old(history)@.len() <= cap ==> final(history)@.len() <= cap,
{
    if history.len() >= cap {
        history.remove(0);
        assert(history@ =~= old(history)@.drop_first());
    }
    history.push(value);
}

/// The scene line: its label and resolution.
#[must_use]
pub fn scene_line(label: &str, n: u32) -> (r: String)
    ensures
        r@ == label@ + " "@ + decimal(n as nat) + "^3"@,
{
    let mut s: String = String::from_str(label);
    s.append(" ");
    push_decimal(&mut s, n);
    s.append("^3");
    s
}

/// The brush line: what the brush does, and its radius.
#[must_use]
pub fn brush_line(add: bool, radius: u32) -> (r: String)
    ensures
        r@ == (if add {
            "BRUSH ADD  R"@
        } else {
            "BRUSH REM  R"@
        }) + decimal(radius as nat),
{
    let mut s: String = String::from_str(
        if add {
            "BRUSH ADD  R"
        } else {
            "BRUSH REM  R"
        },
    );
    push_decimal(&mut s, radius);
    s
}

/// Every byte's atlas cell holds its own glyph: the pixel at column `x` and row
/// `y` of the cell is lit exactly where the glyph's row `y` has bit `x`. The 128
/// cells lie in the atlas and no two bytes share one.
pub proof fn law_cells_hold_glyphs(
    glyphs: Seq<Seq<u8>>,
    c: u8,
    d: u8,
    at: (u32, u32),
    other: (u32, u32),
    x: int,
    y: int,
)
    requires
        glyphs.len() == 128,
        c < 128,
        call_ensures(glyph_cell, (c,), at),
        call_ensures(glyph_cell, (d,), other),
        0 <= x < 8,
        0 <= y < 8,
    ensures
        at.0 < ATLAS_COLS && at.1 < ATLAS_ROWS,
        GLYPH_PX == 8 && ATLAS_COLS * ATLAS_ROWS == 128,
        ATLAS_COLS * GLYPH_PX == ATLAS_W && ATLAS_ROWS * GLYPH_PX == ATLAS_H,
        at == other ==> c == d,
        ({
            let px = GLYPH_PX * at.0 + x;
            let py = GLYPH_PX * at.1 + y;
            let pixel = atlas_pixel(glyphs, py * ATLAS_W + px);
            &&& 0 <= px < ATLAS_W && 0 <= py < ATLAS_H
            &&& pixel == 255 <==> bit(glyphs[c as int][y] as u64, x)
            &&& pixel == 0 <==> !bit(glyphs[c as int][y] as u64, x)
            &&& atlas_char(py * ATLAS_W + px) == c
        }),
{
    let px = 8 * (c % 16) + x;
    let py = 8 * (c / 16) + y;
    let i = py * 128 + px;
    assert(i % 128 == px && i / 128 == py);
    assert(px / 8 == c % 16 && px % 8 == x);
    assert(py / 8 == c / 16 && py % 8 == y);
    assert(16 * (c / 16) + c % 16 == c);
}

/// A byte that is not drawn has nothing to draw: its glyph is blank. The bytes
/// drawn are the 94 printable ones other than the space.
pub proof fn law_undrawn_bytes_are_blank(b: u8, rows: [u8; 8], y: int)
    requires
        call_ensures(glyph_rows, (b,), rows),
        0 <= y < 8,
    ensures
        !is_visible(b) ==> rows[y] == 0,
        b < 128 ==> rows@ == basic_glyph(b),
        is_visible(b) <==> '!' as u32 <= b <= '~' as u32,
{
}

/// The glyphs of a line are its drawn bytes in order, each once and at its own
/// place: `p` is listed exactly where byte `p` is drawn, with that byte.
pub proof fn law_line_lists_drawn_bytes(bytes: Seq<u8>, n: int)
    requires
        0 <= n <= bytes.len() <= usize::MAX,
    ensures
        forall|i: int|
            0 <= i < visible(bytes, n).len() ==> (#[trigger] visible(bytes, n)[i]).0 < n
                && visible(bytes, n)[i].1 == bytes[visible(bytes, n)[i].0 as int] && is_visible(
                visible(bytes, n)[i].1,
            ),
        forall|i: int, j: int|
            0 <= i < j < visible(bytes, n).len() ==> (#[trigger] visible(bytes, n)[i]).0 < (
            #[trigger] visible(bytes, n)[j]).0,
        forall|p: int|
            0 <= p < n && #[trigger] is_visible(bytes[p]) ==> visible(bytes, n).contains(
                (p as usize, bytes[p]),
            ),
    decreases n,
{
    if n > 0 {
        law_line_lists_drawn_bytes(bytes, n - 1);
        let before = visible(bytes, n - 1);
        let now = visible(bytes, n);
        assert forall|p: int| 0 <= p < n && #[trigger] is_visible(bytes[p]) implies now.contains(
            (p as usize, bytes[p]),
        ) by {
            if p < n - 1 {
                let i = choose|i: int|
                    0 <= i < before.len() && before[i] == (p as usize, bytes[p]);
                assert(now[i] == (p as usize, bytes[p]));
            } else {
                assert(now[now.len() - 1] == (p as usize, bytes[p]));
            }
        }
    }
}

/// All the quads are drawn, up to as many as the buffer has room for.
pub proof fn law_quads_fill_the_buffer(n: usize, r: usize)
    requires
        call_ensures(quad_count, (n,), r),
    ensures
        r <= n && r <= 8192,
        r < n ==> r == 8192,
{
}

/// A bounded history keeps the newest entries in order: the last is the one just
/// added, and before it stand as many of the former ones as there is room for,
/// the oldest dropped first.
pub proof fn law_history_keeps_newest<T>(history: Seq<T>, value: T, cap: int)
    requires
        1 <= cap,
        history.len() <= cap,
    ensures
        ({
            let next = bounded(history, value, cap);
            let dropped = history.len() + 1 - next.len();
            &&& next.len() == if history.len() < cap {
                history.len() + 1
            } else {
                cap as nat
            }
            &&& next.last() == value
            &&& forall|i: int|
                0 <= i < next.len() - 1 ==> #[trigger] next[i] == history[i + dropped]
        }),
{
}

/// A push keeps the newest entries, as the caller sees it.
pub proof fn law_push_keeps_newest<T>(h: &mut Vec<T>, value: T, cap: usize)
    requires
        cap >= 1,
        old(h)@.len() <= cap,
        call_ensures(push_bounded::<T>, (h, value, cap), ()),
    ensures
        final(h)@ == bounded(old(h)@, value, cap as int),
        final(h)@.last() == value,
        final(h)@.len() <= cap,
        old(h)@.len() < cap ==> final(h)@.drop_last() == old(h)@,
        old(h)@.len() == cap ==> final(h)@.drop_last() == old(h)@.drop_first(),
{
    if old(h)@.len() < cap {
        assert(final(h)@.drop_last() =~= old(h)@);
    } else {
        assert(final(h)@.drop_last() =~= old(h)@.drop_first());
    }
}

/// The drawn glyphs of a line, as the caller sees them.
pub proof fn law_line_draws_visible(bytes: &[u8], r: Vec<(usize, u8)>, p: int)
    requires
        call_ensures(visible_glyphs, (bytes,), r),
        0 <= p < bytes@.len(),
        bytes@.len() <= usize::MAX,
    ensures
        '!' as u32 <= bytes@[p] <= '~' as u32 <==> r@.contains((p as usize, bytes@[p])),
        r@.len() <= bytes@.len(),
{
    law_line_lists_drawn_bytes(bytes@, bytes@.len() as int);
    lemma_visible_len(bytes@, bytes@.len() as int);
    assert(is_visible(bytes@[p]) <==> '!' as u32 <= bytes@[p] <= '~' as u32);
    if r@.contains((p as usize, bytes@[p])) {
        let i = choose|i: int| 0 <= i < r@.len() && r@[i] == (p as usize, bytes@[p]);
        assert(is_visible(r@[i].1));
    }
}

proof fn lemma_visible_len(bytes: Seq<u8>, n: int)
    requires
        0 <= n,
    ensures
        visible(bytes, n).len() <= n,
    decreases n,
{
    if n > 0 {
        lemma_visible_len(bytes, n - 1);
    }
}

/// The atlas holds the font's glyphs, each pixel lit or dark by its bit.
pub proof fn law_atlas_is_the_font(atlas: Vec<u8>, glyphs: &[[u8; 8]], image: Vec<u8>, i: int)
    requires
        call_ensures(build_atlas, (), atlas),
        glyphs@.len() == 128,
        call_ensures(rasterize, (glyphs,), image),
        0 <= i < ATLAS_W * ATLAS_H,
    ensures
        atlas@.len() == ATLAS_W * ATLAS_H && image@.len() == ATLAS_W * ATLAS_H,
        atlas@[i] == atlas_pixel(basic_font(), i),
        image@[i] == atlas_pixel(rows_of(glyphs@), i),
        image@[i] == 255 <==> bit(
            glyphs@[atlas_char(i)][i / 128 % 8] as u64,
            i % 8,
        ),
        atlas@[i] == 0 || atlas@[i] == 255,
{
    assert(i % 128 % 8 == i % 8);
    assert(0 <= atlas_char(i) < 128);
    assert(rows_of(glyphs@)[atlas_char(i)] == glyphs@[atlas_char(i)]@);
}

/// The lines say what they are given: a scene line ends with the resolution
/// cubed after the label, and a brush line tells adding from removing and ends
/// with the radius.
pub proof fn law_lines_tell_values(
    label: &str,
    n: u32,
    line: String,
    add: bool,
    radius: u32,
    brush: String,
)
    requires
        call_ensures(scene_line, (label, n), line),
        call_ensures(brush_line, (add, radius), brush),
    ensures
        line@.take(label@.len() as int) == label@,
        numeral(line@.subrange(label@.len() as int + 1, line@.len() - 2)) == n,
        brush@[6] == 'A' <==> add,
        numeral(brush@.skip(12)) == radius,
{
    reveal_strlit(" ");
    reveal_strlit("^3");
    reveal_strlit("BRUSH ADD  R");
    reveal_strlit("BRUSH REM  R");
    law_decimal_denotes(n as nat);
    law_decimal_denotes(radius as nat);
    assert(line@.take(label@.len() as int) =~= label@);
    assert(line@.subrange(label@.len() as int + 1, line@.len() - 2) =~= decimal(n as nat));
    assert(brush@.skip(12) =~= decimal(radius as nat));
}

} // verus!
