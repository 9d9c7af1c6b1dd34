//! Properties of the library as a whole.
use vstd::prelude::*;
use vstd::arithmetic::div_mod::lemma_fundamental_div_mod_converse;

use crate::file_format::{
    byte_bits, data_len, decoded_glyphs, header_pixels, header_total, legacy_data, lemma_byte_bits_bit,
    lemma_stream_index, lemma_stream_position, lemma_v0_position, byte_bit, load_error, pack_bits, packed_byte, stream_bit, v0_pixel,
    v1_pixel,
};
use crate::center::{
    bounds, centered_h, centered_v, lemma_bbox_inside, lemma_bounds_is, lemma_equal_by_ink,
    lemma_no_ink_no_bounds, lemma_shift_keeps_content, lemma_shift_len, lemma_translation_keeps_count,
};
use crate::grid::ink;
use crate::settings::{trunc_div, NewFontSettings, SaveSummary};
use crate::text::{decimal, digit, numeral_value};
use crate::font::{
    ceil_div, count_set, count_set_all, flip, lemma_cell_count_uniform, lemma_count_set_all_bound,
    lemma_count_set_all_update, Font, FLAG_COLUMN_MAJOR, FORMAT_VERSION, HEADER_SIZE, MAGIC};

verus! {

/// A well-formed font always fits the bytes that `save` reserves for its pixels.
pub proof fn well_formed_fonts_are_savable(font: Font)
    requires
        font.wf(),
    ensures
        font.savable(),
{
    let n = font.total_glyphs as int;
    let p = font.spec_pixels_per_glyph() as int;
    assert(n * p <= 8 * ((font.width * font.height * font.total_glyphs + 7) / 8)) by (nonlinear_arith)
        requires
            p == font.width * font.height,
            n == font.total_glyphs,
            0 <= p,
            0 <= n,
    ;
}

/// Loading what `save` writes gives back the font: the same dimensions,
/// layout fields and encoding, the current format version, and the same
/// pixels in every glyph.  (A font with a zero dimension is written but
/// refused on loading, and so is one with zero glyphs per row.)
pub proof fn save_then_load_round_trip(font: Font)
    requires
        font.wf(),
        font.width > 0,
        font.height > 0,
        font.glyphs_per_row > 0,
    ensures
        load_error(font.encoding()) is None,
        font.encoding()[4] == font.width,
        font.encoding()[5] == font.height,
        font.encoding()[6] == font.glyphs_per_row,
        font.encoding()[7] == font.first_glyph,
        header_total(font.encoding()) == font.total_glyphs,
        (font.encoding()[10] & FLAG_COLUMN_MAJOR != 0) == font.column_major,
        font.encoding()[11] == FORMAT_VERSION,
        decoded_glyphs(font.encoding()) == font.glyph_views(),
{
    let e = font.encoding();
    let ppg = font.spec_pixels_per_glyph();
    let total = font.total_glyphs as nat;
    let ds = font.spec_data_size();
    let stream = font.stream();
    assert(e.subrange(0, 4) =~= MAGIC@);
    assert((FLAG_COLUMN_MAJOR & FLAG_COLUMN_MAJOR != 0) && (0u8 & FLAG_COLUMN_MAJOR == 0)) by (bit_vector);
    assert(total * ppg == font.width * font.height * font.total_glyphs) by (nonlinear_arith)
        requires
            ppg == font.width * font.height,
            total == font.total_glyphs,
    ;
    assert(header_pixels(e) == ppg);
    assert(header_total(e) == total);
    assert(data_len(e[11], ppg, total) == ds);
    let data = e.skip(HEADER_SIZE as int);
    assert(data =~= pack_bits(stream, ds));
    let want = decoded_glyphs(e);
    assert forall|g: int| 0 <= g < total implies #[trigger] want[g] == font.glyph_views()[g] by {
        assert forall|i: int| 0 <= i < ppg implies #[trigger] want[g][i] == font.glyph_views()[g][i] by {
            let b = g * ppg + i;
            lemma_stream_position(g, i, ppg as int, total as int);
            lemma_byte_bits_bit(stream, 8 * (b / 8), b % 8);
            lemma_fundamental_div_mod_converse(b, 8, b / 8, b % 8);
            lemma_fundamental_div_mod_converse(b, ppg as int, g, i);
            assert(want[g][i] == v1_pixel(data, ppg, g, i));
            assert(data[b / 8] == byte_bits(stream, 8 * (b / 8), 8));
            assert(stream_bit(stream, b) == stream[b]);
            assert(font.glyph_views()[g] == font.glyphs@[g]@);
        }
        assert(want[g] =~= font.glyph_views()[g]);
    }
    assert(want =~= font.glyph_views());
}

/// Two bytes with the same eight bits are the same byte.
proof fn lemma_byte_from_bits(a: u8, b: u8)
    requires
        forall|j: int| 0 <= j < 8 ==> #[trigger] byte_bit(a, j) == byte_bit(b, j),
    ensures
        a == b,
{
    assert(byte_bit(a, 0) == byte_bit(b, 0));
    assert(byte_bit(a, 1) == byte_bit(b, 1));
    assert(byte_bit(a, 2) == byte_bit(b, 2));
    assert(byte_bit(a, 3) == byte_bit(b, 3));
    assert(byte_bit(a, 4) == byte_bit(b, 4));
    assert(byte_bit(a, 5) == byte_bit(b, 5));
    assert(byte_bit(a, 6) == byte_bit(b, 6));
    assert(byte_bit(a, 7) == byte_bit(b, 7));
    assert(a == b) by (bit_vector)
        requires
            (a & (1u8 << 0u8) != 0) == (b & (1u8 << 0u8) != 0),
            (a & (1u8 << 1u8) != 0) == (b & (1u8 << 1u8) != 0),
            (a & (1u8 << 2u8) != 0) == (b & (1u8 << 2u8) != 0),
            (a & (1u8 << 3u8) != 0) == (b & (1u8 << 3u8) != 0),
            (a & (1u8 << 4u8) != 0) == (b & (1u8 << 4u8) != 0),
            (a & (1u8 << 5u8) != 0) == (b & (1u8 << 5u8) != 0),
            (a & (1u8 << 6u8) != 0) == (b & (1u8 << 6u8) != 0),
            (a & (1u8 << 7u8) != 0) == (b & (1u8 << 7u8) != 0),
    ;
}

/// Saving a font just loaded from a current-format file gives back the file
/// byte for byte, when the file is in the form `save` writes: a flags byte of
/// 0 or 1, nothing after the glyph data, and clear padding bits after the
/// last pixel.
pub proof fn load_then_save_round_trip(bytes: Seq<u8>, font: Font)
    requires
        load_error(bytes) is None,
        font.loaded_from(bytes),
        bytes[11] == FORMAT_VERSION,
        bytes[10] == 0 || bytes[10] == 1,
        bytes.len() == HEADER_SIZE + data_len(FORMAT_VERSION, header_pixels(bytes), header_total(bytes)),
        forall|p: int|
            header_total(bytes) * header_pixels(bytes) <= p < 8 * (bytes.len() - HEADER_SIZE) ==> !byte_bit(
                #[trigger] bytes[HEADER_SIZE + p / 8],
                p % 8,
            ),
    ensures
        font.encoding() == bytes,
{
    let e = font.encoding();
    let ppg = font.spec_pixels_per_glyph();
    let total = font.total_glyphs as nat;
    let ds = font.spec_data_size();
    let stream = font.stream();
    assert(header_pixels(bytes) == ppg);
    assert(total * ppg == font.width * font.height * font.total_glyphs) by (nonlinear_arith)
        requires
            ppg == font.width * font.height,
            total == font.total_glyphs,
    ;
    assert(bytes.len() == HEADER_SIZE + ds);
    assert(bytes.subrange(0, 4) == MAGIC@);
    assert(bytes[0] == e[0] && bytes[1] == e[1] && bytes[2] == e[2] && bytes[3] == e[3]) by {
        assert(bytes.subrange(0, 4)[0] == bytes[0] && bytes.subrange(0, 4)[1] == bytes[1]);
        assert(bytes.subrange(0, 4)[2] == bytes[2] && bytes.subrange(0, 4)[3] == bytes[3]);
    }
    let b10 = bytes[10];
    assert((b10 == 0 || b10 == 1) ==> (b10 == (if b10 & FLAG_COLUMN_MAJOR != 0 { 1u8 } else { 0u8 })))
        by (bit_vector);
    let data = bytes.skip(HEADER_SIZE as int);
    let views = font.glyph_views();
    assert forall|k: int| 0 <= k < ds implies #[trigger] e[HEADER_SIZE + k] == bytes[HEADER_SIZE + k] by {
        assert forall|j: int| 0 <= j < 8 implies #[trigger] byte_bit(e[HEADER_SIZE + k], j) == byte_bit(
            bytes[HEADER_SIZE + k],
            j,
        ) by {
            let p = 8 * k + j;
            lemma_byte_bits_bit(stream, 8 * k, j);
            lemma_fundamental_div_mod_converse(p, 8, k, j);
            assert(e[HEADER_SIZE + k] == byte_bits(stream, 8 * k, 8));
            if p < total * ppg {
                let g = p / (ppg as int);
                let i = p % (ppg as int);
                assert(ppg > 0) by (nonlinear_arith)
                    requires
                        0 <= p < total * ppg,
                ;
                assert(0 <= g < total && 0 <= i < ppg && g * ppg + i == p) by (nonlinear_arith)
                    requires
                        0 <= p < total * ppg,
                        ppg > 0,
                        g == p / (ppg as int),
                        i == p % (ppg as int),
                ;
                lemma_stream_index(views, ppg, g, i);
                assert(views[g] == font.glyphs@[g]@);
                assert(views[g] == decoded_glyphs(bytes)[g]);
                assert(decoded_glyphs(bytes)[g][i] == v1_pixel(data, ppg, g, i));
                assert(data[k] == bytes[HEADER_SIZE + k]);
            } else {
                assert(!byte_bit(bytes[HEADER_SIZE + p / 8], p % 8));
            }
        }
        lemma_byte_from_bits(e[HEADER_SIZE + k], bytes[HEADER_SIZE + k]);
    }
    assert forall|i: int| 0 <= i < bytes.len() implies #[trigger] e[i] == bytes[i] by {
        if i >= HEADER_SIZE {
            assert(e[HEADER_SIZE + (i - HEADER_SIZE)] == bytes[HEADER_SIZE + (i - HEADER_SIZE)]);
        }
    }
    assert(e =~= bytes);
}

/// Version-0 files still load: loading the legacy layout of a font gives back
/// its pixels, and reports version 0.
pub proof fn legacy_files_load(font: Font)
    requires
        font.wf(),
        font.width > 0,
        font.height > 0,
        font.glyphs_per_row > 0,
    ensures
        load_error(font.legacy_encoding()) is None,
        font.legacy_encoding()[4] == font.width,
        font.legacy_encoding()[5] == font.height,
        font.legacy_encoding()[6] == font.glyphs_per_row,
        font.legacy_encoding()[7] == font.first_glyph,
        header_total(font.legacy_encoding()) == font.total_glyphs,
        (font.legacy_encoding()[10] & FLAG_COLUMN_MAJOR != 0) == font.column_major,
        font.legacy_encoding()[11] == 0,
        decoded_glyphs(font.legacy_encoding()) == font.glyph_views(),
{
    let e = font.legacy_encoding();
    let ppg = font.spec_pixels_per_glyph();
    let total = font.total_glyphs as nat;
    let bpg = ceil_div(ppg as int, 8) as nat;
    assert(e.subrange(0, 4) =~= MAGIC@);
    assert((FLAG_COLUMN_MAJOR & FLAG_COLUMN_MAJOR != 0) && (0u8 & FLAG_COLUMN_MAJOR == 0)) by (bit_vector);
    assert(header_pixels(e) == ppg);
    assert(header_total(e) == total);
    assert(data_len(e[11], ppg, total) == total * bpg);
    assert(font.width * font.height > 0) by (nonlinear_arith)
        requires
            font.width > 0,
            font.height > 0,
    ;
    assert(bpg > 0);
    let data = e.skip(HEADER_SIZE as int);
    assert(data =~= legacy_data(font.glyph_views(), ppg));
    let want = decoded_glyphs(e);
    assert forall|g: int| 0 <= g < total implies #[trigger] want[g] == font.glyph_views()[g] by {
        let glyph = font.glyph_views()[g];
        assert(glyph == font.glyphs@[g]@);
        assert(glyph.take(ppg as int) =~= glyph);
        assert forall|i: int| 0 <= i < ppg implies #[trigger] want[g][i] == glyph[i] by {
            lemma_v0_position(g, i, ppg as int, bpg as int, total as int);
            let k = g * bpg + i / 8;
            lemma_fundamental_div_mod_converse(k, bpg as int, g, i / 8);
            lemma_fundamental_div_mod_converse(i, 8, i / 8, i % 8);
            lemma_byte_bits_bit(glyph, 8 * (i / 8), i % 8);
            assert(want[g][i] == v0_pixel(data, ppg, g, i));
            assert(data[k] == packed_byte(glyph, i / 8));
        }
        assert(want[g] =~= glyph);
    }
    assert(want =~= font.glyph_views());
}

/// Re-saving never makes the glyph data larger: the version-1 layout needs
/// at most as many bytes as the version-0 layout of the same glyphs.
pub proof fn current_layout_is_never_larger(ppg: nat, total: nat)
    ensures
        data_len(FORMAT_VERSION, ppg, total) <= data_len(0, ppg, total),
{
    let c = ceil_div(ppg as int, 8);
    assert(ppg <= 8 * c) by (nonlinear_arith)
        requires
            c == (ppg + 7) / 8,
    ;
    assert((total * ppg + 7) / 8 <= total * c) by (nonlinear_arith)
        requires
            ppg <= 8 * c,
            0 <= total,
            0 <= ppg,
    ;
}

/// What `save` writes is the header followed by exactly `data_size` bytes.
pub proof fn saved_size(font: Font)
    ensures
        font.encoding().len() == HEADER_SIZE + font.spec_data_size(),
{
}

/// Horizontal centring moves the set pixels as one block and loses none:
/// with bounding box `(x0, y0, x1, y1)` and content width `cw = x1 - x0 + 1`,
/// the centred glyph shows at `(x, y)` what the glyph showed at
/// `(x - dx, y)` for `dx = (w - cw) / 2 - x0`, and its bounding box starts at
/// column `(w - cw) / 2`, so an odd free width leaves the extra column on the
/// right.
pub proof fn horizontal_centering_places_content(s: Seq<bool>, w: int, h: int, column_major: bool)
    requires
        s.len() == w * h,
        bounds(s, w, h, column_major) is Some,
    ensures
        ({
            let b = bounds(s, w, h, column_major)->0;
            let cw = b.2 - b.0 + 1;
            let t = (w - cw) / 2;
            &&& forall|x: int, y: int|
                #[trigger] ink(centered_h(s, w, h, column_major), w, h, column_major, x, y) == ink(
                    s,
                    w,
                    h,
                    column_major,
                    x - (t - b.0),
                    y,
                )
            &&& bounds(centered_h(s, w, h, column_major), w, h, column_major) == Some((t, b.1, t + cw - 1, b.3))
        }),
{
    let b = bounds(s, w, h, column_major)->0;
    lemma_bbox_inside(s, w, h, column_major, b);
    let cw = b.2 - b.0 + 1;
    let t = (w - cw) / 2;
    lemma_shift_keeps_content(s, w, h, column_major, b, t - b.0, 0);
    lemma_bounds_is(centered_h(s, w, h, column_major), w, h, column_major, (t, b.1, t + cw - 1, b.3));
}

/// Vertical centring moves the set pixels as one block and loses none: with
/// bounding box `(x0, y0, x1, y1)` and content height `ch = y1 - y0 + 1`, the
/// centred glyph shows at `(x, y)` what the glyph showed at `(x, y - dy)` for
/// `dy = (h - ch) / 2 - y0`, and its bounding box starts at row
/// `(h - ch) / 2`, so an odd free height leaves the extra row at the bottom.
pub proof fn vertical_centering_places_content(s: Seq<bool>, w: int, h: int, column_major: bool)
    requires
        s.len() == w * h,
        bounds(s, w, h, column_major) is Some,
    ensures
        ({
            let b = bounds(s, w, h, column_major)->0;
            let ch = b.3 - b.1 + 1;
            let t = (h - ch) / 2;
            &&& forall|x: int, y: int|
                #[trigger] ink(centered_v(s, w, h, column_major), w, h, column_major, x, y) == ink(
                    s,
                    w,
                    h,
                    column_major,
                    x,
                    y - (t - b.1),
                )
            &&& bounds(centered_v(s, w, h, column_major), w, h, column_major) == Some((b.0, t, b.2, t + ch - 1))
        }),
{
    let b = bounds(s, w, h, column_major)->0;
    lemma_bbox_inside(s, w, h, column_major, b);
    let ch = b.3 - b.1 + 1;
    let t = (h - ch) / 2;
    lemma_shift_keeps_content(s, w, h, column_major, b, 0, t - b.1);
    lemma_bounds_is(centered_v(s, w, h, column_major), w, h, column_major, (b.0, t, b.2, t + ch - 1));
}

/// Centring an already centred glyph changes nothing (horizontally).
pub proof fn horizontal_centering_is_idempotent(s: Seq<bool>, w: int, h: int, column_major: bool)
    requires
        s.len() == w * h,
    ensures
        centered_h(centered_h(s, w, h, column_major), w, h, column_major) == centered_h(s, w, h, column_major),
{
    if bounds(s, w, h, column_major) is Some {
        horizontal_centering_places_content(s, w, h, column_major);
    }
}

/// Centring an already centred glyph changes nothing (vertically).
pub proof fn vertical_centering_is_idempotent(s: Seq<bool>, w: int, h: int, column_major: bool)
    requires
        s.len() == w * h,
    ensures
        centered_v(centered_v(s, w, h, column_major), w, h, column_major) == centered_v(s, w, h, column_major),
{
    if bounds(s, w, h, column_major) is Some {
        vertical_centering_places_content(s, w, h, column_major);
    }
}

/// Centring a glyph without set pixels changes nothing.
pub proof fn centering_empty_glyph_changes_nothing(s: Seq<bool>, w: int, h: int, column_major: bool)
    requires
        forall|x: int, y: int| !#[trigger] ink(s, w, h, column_major, x, y),
    ensures
        centered_h(s, w, h, column_major) == s,
        centered_v(s, w, h, column_major) == s,
{
    lemma_no_ink_no_bounds(s, w, h, column_major);
}

/// Centring keeps the number of set pixels of a glyph, horizontally and
/// vertically.
pub proof fn centering_keeps_pixel_count(s: Seq<bool>, w: int, h: int, column_major: bool)
    requires
        0 <= w,
        0 <= h,
        s.len() == w * h,
    ensures
        count_set(centered_h(s, w, h, column_major)) == count_set(s),
        count_set(centered_v(s, w, h, column_major)) == count_set(s),
{
    if bounds(s, w, h, column_major) is Some {
        let b = bounds(s, w, h, column_major)->0;
        horizontal_centering_places_content(s, w, h, column_major);
        vertical_centering_places_content(s, w, h, column_major);
        let dx = (w - (b.2 - b.0 + 1)) / 2 - b.0;
        let dy = (h - (b.3 - b.1 + 1)) / 2 - b.1;
        lemma_shift_len(s, w, h, column_major, dx, 0);
        lemma_shift_len(s, w, h, column_major, 0, dy);
        lemma_translation_keeps_count(s, centered_h(s, w, h, column_major), w, h, column_major, dx, 0);
        lemma_translation_keeps_count(s, centered_v(s, w, h, column_major), w, h, column_major, 0, dy);
    }
}

/// Centring a glyph keeps the number of filled pixels of the font.
pub proof fn centering_keeps_filled_pixels(font: Font, g: int)
    requires
        font.shaped(),
    ensures
        count_set_all(font.centering(g, true)) == count_set_all(font.glyph_views()),
        count_set_all(font.centering(g, false)) == count_set_all(font.glyph_views()),
{
    if 0 <= g < font.glyphs@.len() {
        let s = font.glyph_views()[g];
        assert(s == font.glyphs@[g]@);
        centering_keeps_pixel_count(s, font.width as int, font.height as int, font.column_major);
        lemma_count_set_all_update(font.glyph_views(), g, centered_h(s, font.width as int, font.height as int, font.column_major));
        lemma_count_set_all_update(font.glyph_views(), g, centered_v(s, font.width as int, font.height as int, font.column_major));
    }
}

/// Centring horizontally and then vertically moves the set pixels of a
/// glyph with a bounding box by both centring offsets.
proof fn lemma_h_then_v(s: Seq<bool>, w: int, h: int, column_major: bool)
    requires
        0 <= w,
        0 <= h,
        s.len() == w * h,
        bounds(s, w, h, column_major) is Some,
    ensures
        ({
            let b = bounds(s, w, h, column_major)->0;
            let dx = (w - (b.2 - b.0 + 1)) / 2 - b.0;
            let dy = (h - (b.3 - b.1 + 1)) / 2 - b.1;
            let r = centered_v(centered_h(s, w, h, column_major), w, h, column_major);
            &&& r.len() == w * h
            &&& forall|x: int, y: int|
                #[trigger] ink(r, w, h, column_major, x, y) == ink(s, w, h, column_major, x - dx, y - dy)
        }),
{
    let b = bounds(s, w, h, column_major)->0;
    let dx = (w - (b.2 - b.0 + 1)) / 2 - b.0;
    let dy = (h - (b.3 - b.1 + 1)) / 2 - b.1;
    let hs = centered_h(s, w, h, column_major);
    horizontal_centering_places_content(s, w, h, column_major);
    lemma_shift_len(s, w, h, column_major, dx, 0);
    vertical_centering_places_content(hs, w, h, column_major);
    lemma_shift_len(hs, w, h, column_major, 0, dy);
    let r = centered_v(hs, w, h, column_major);
    assert forall|x: int, y: int|
        #[trigger] ink(r, w, h, column_major, x, y) == ink(s, w, h, column_major, x - dx, y - dy) by {
        assert(ink(r, w, h, column_major, x, y) == ink(hs, w, h, column_major, x, y - dy));
        assert(ink(hs, w, h, column_major, x, y - dy) == ink(s, w, h, column_major, x - dx, y - dy));
    }
}

/// Centring vertically and then horizontally moves the set pixels of a
/// glyph with a bounding box by both centring offsets.
proof fn lemma_v_then_h(s: Seq<bool>, w: int, h: int, column_major: bool)
    requires
        0 <= w,
        0 <= h,
        s.len() == w * h,
        bounds(s, w, h, column_major) is Some,
    ensures
        ({
            let b = bounds(s, w, h, column_major)->0;
            let dx = (w - (b.2 - b.0 + 1)) / 2 - b.0;
            let dy = (h - (b.3 - b.1 + 1)) / 2 - b.1;
            let r = centered_h(centered_v(s, w, h, column_major), w, h, column_major);
            &&& r.len() == w * h
            &&& forall|x: int, y: int|
                #[trigger] ink(r, w, h, column_major, x, y) == ink(s, w, h, column_major, x - dx, y - dy)
        }),
{
    let b = bounds(s, w, h, column_major)->0;
    let dx = (w - (b.2 - b.0 + 1)) / 2 - b.0;
    let dy = (h - (b.3 - b.1 + 1)) / 2 - b.1;
    let vs = centered_v(s, w, h, column_major);
    vertical_centering_places_content(s, w, h, column_major);
    lemma_shift_len(s, w, h, column_major, 0, dy);
    horizontal_centering_places_content(vs, w, h, column_major);
    lemma_shift_len(vs, w, h, column_major, dx, 0);
    let r = centered_h(vs, w, h, column_major);
    assert forall|x: int, y: int|
        #[trigger] ink(r, w, h, column_major, x, y) == ink(s, w, h, column_major, x - dx, y - dy) by {
        assert(ink(r, w, h, column_major, x, y) == ink(vs, w, h, column_major, x - dx, y));
        assert(ink(vs, w, h, column_major, x - dx, y) == ink(s, w, h, column_major, x - dx, y - dy));
    }
}

/// Horizontal and vertical centring commute: centring a glyph one way and
/// then the other gives the same glyph in either order.
pub proof fn centerings_commute(s: Seq<bool>, w: int, h: int, column_major: bool)
    requires
        0 <= w,
        0 <= h,
        s.len() == w * h,
    ensures
        centered_v(centered_h(s, w, h, column_major), w, h, column_major) == centered_h(
            centered_v(s, w, h, column_major),
            w,
            h,
            column_major,
        ),
{
    if bounds(s, w, h, column_major) is Some {
        lemma_h_then_v(s, w, h, column_major);
        lemma_v_then_h(s, w, h, column_major);
        let vh = centered_v(centered_h(s, w, h, column_major), w, h, column_major);
        let hv = centered_h(centered_v(s, w, h, column_major), w, h, column_major);
        lemma_equal_by_ink(vh, hv, w, h, column_major);
    }
}

/// Toggling the same pixel twice gives back the glyphs as they were.
pub proof fn toggling_twice_restores(glyphs: Seq<Seq<bool>>, g: int, i: int)
    requires
        0 <= g < glyphs.len(),
        0 <= i < glyphs[g].len(),
    ensures
        glyphs.update(g, flip(glyphs.update(g, flip(glyphs[g], i))[g], i)) == glyphs,
{
    assert(flip(flip(glyphs[g], i), i) =~= glyphs[g]);
    assert(glyphs.update(g, glyphs[g]) =~= glyphs);
}

/// A well-formed font never has more filled pixels than pixel cells.
pub proof fn filled_pixels_within_total(font: Font)
    requires
        font.wf(),
    ensures
        count_set_all(font.glyph_views()) <= font.width * font.height * font.total_glyphs,
{
    let gs = font.glyph_views();
    assert forall|i: int| 0 <= i < gs.len() implies (#[trigger] gs[i]).len() == font.spec_pixels_per_glyph() by {
        assert(gs[i] == font.glyphs@[i]@);
    }
    lemma_cell_count_uniform(gs, font.spec_pixels_per_glyph());
    lemma_count_set_all_bound(gs);
    assert(gs.len() * font.spec_pixels_per_glyph() == font.width * font.height * font.total_glyphs)
        by (nonlinear_arith)
        requires
            gs.len() == font.total_glyphs,
            font.spec_pixels_per_glyph() == font.width * font.height,
    ;
}

/// The blank font built from the "New Font" settings has the glyph count,
/// glyph size, glyphs per row and layout that the settings ask for, whenever
/// each value is at least 1 and fits its field; every value comes out at least
/// 1, and no pixel is set.
pub proof fn built_font_follows_settings(settings: NewFontSettings, font: Font)
    requires
        settings.builds(&font),
    ensures
        1 <= settings.total_glyphs <= 65535 ==> font.total_glyphs == settings.total_glyphs,
        1 <= settings.width <= 255 ==> font.width == settings.width,
        1 <= settings.height <= 255 ==> font.height == settings.height,
        1 <= settings.glyphs_per_row <= 255 ==> font.glyphs_per_row == settings.glyphs_per_row,
        font.total_glyphs >= 1,
        font.width >= 1,
        font.height >= 1,
        font.glyphs_per_row >= 1,
        font.column_major == settings.column_major,
        font.wf(),
        forall|g: int, x: int, y: int| !#[trigger] font.pixel(g, x, y),
{
    assert forall|g: int, x: int, y: int| !#[trigger] font.pixel(g, x, y) by {
        if 0 <= g < font.glyphs@.len() {
            assert(font.glyph_views()[g] == font.glyphs@[g]@);
        }
    }
}

/// The first glyph code the settings ask for is the code of the first
/// character of `first_glyph_str` when that character is ASCII, and `'a'`
/// when the string is empty or starts with another character; the built
/// font starts at that code.
pub proof fn first_glyph_is_first_character(settings: NewFontSettings, font: Font)
    requires
        settings.builds(&font),
    ensures
        ({
            let s = settings.first_glyph_str@;
            if s.len() > 0 && (s[0] as u32) < 128 {
                &&& settings.spec_first_glyph_byte() as u32 == s[0] as u32
                &&& font.first_glyph as u32 == s[0] as u32
            } else {
                &&& settings.spec_first_glyph_byte() == 97
                &&& font.first_glyph == 97
            }
        }),
{
    let s = settings.first_glyph_str@;
    if s.len() > 0 && (s[0] as u32) < 128 {
        lemma_ascii_code(s[0]);
    }
}

/// An ASCII character's code fits in a byte.
proof fn lemma_ascii_code(c: char)
    requires
        (c as u32) < 128,
    ensures
        (c as u8) as u32 == c as u32,
{
}

/// The summary of a save reports the file that was written: its size, the
/// size of its glyph data, and the width, height, glyphs per row, first glyph,
/// glyph count and layout stored in its header; the rows it reports are the
/// fewest that hold every glyph at the font's glyphs per row, the bytes per
/// glyph the fewest that hold one glyph's pixels, and the data size the
/// fewest bytes that hold all glyphs' pixels.
pub proof fn save_summary_reports_saved_file<P>(font: Font, path: P, summary: SaveSummary<P>)
    requires
        summary.summarizes(&font, path),
    ensures
        summary.path == path,
        summary.file_size == font.encoding().len(),
        summary.data_size == font.encoding().len() - HEADER_SIZE,
        summary.width == font.encoding()[4],
        summary.height == font.encoding()[5],
        summary.glyphs_per_row == font.encoding()[6],
        summary.first_glyph == font.encoding()[7],
        summary.total_glyphs == header_total(font.encoding()),
        summary.column_major == (font.encoding()[10] & FLAG_COLUMN_MAJOR != 0),
        font.glyphs_per_row == 0 ==> summary.rows == 0,
        font.glyphs_per_row > 0 ==> summary.rows * font.glyphs_per_row >= font.total_glyphs
            && (summary.rows - 1) * font.glyphs_per_row < font.total_glyphs,
        summary.bytes_per_glyph * 8 >= font.width * font.height,
        (summary.bytes_per_glyph - 1) * 8 < font.width * font.height,
        summary.data_size * 8 >= font.width * font.height * font.total_glyphs,
        (summary.data_size - 1) * 8 < font.width * font.height * font.total_glyphs,
{
    let e = font.encoding();
    let t = font.total_glyphs as int;
    assert((FLAG_COLUMN_MAJOR & FLAG_COLUMN_MAJOR != 0) && (0u8 & FLAG_COLUMN_MAJOR == 0)) by (bit_vector);
    assert(header_total(e) == t);
    if font.glyphs_per_row > 0 {
        let d = font.glyphs_per_row as int;
        let r = summary.rows as int;
        assert(r * d >= t && (r - 1) * d < t) by (nonlinear_arith)
            requires
                d > 0,
                t >= 0,
                r == (t + d - 1) / d,
        ;
    }
    let bits = font.width * font.height * font.total_glyphs;
    let ds = summary.data_size as int;
    assert(ds * 8 >= bits && (ds - 1) * 8 < bits) by (nonlinear_arith)
        requires
            bits >= 0,
            ds == (bits + 8 - 1) / 8,
    ;
    let p = font.width * font.height;
    let b = summary.bytes_per_glyph as int;
    assert(b * 8 >= p && (b - 1) * 8 < p) by (nonlinear_arith)
        requires
            p >= 0,
            b == (p + 8 - 1) / 8,
    ;
}

/// Opening the "New Font" dialog on a font and creating a font from it
/// unchanged gives a font with the same glyph size, glyphs per row, glyph
/// count and layout, starting at the same glyph when that glyph is ASCII and
/// at 'a' otherwise (for a font whose sizes and counts are at least 1).
pub proof fn dialog_rebuilds_the_font(font: Font, settings: NewFontSettings, built: Font)
    requires
        settings.describes(&font),
        settings.builds(&built),
        font.width >= 1,
        font.height >= 1,
        font.glyphs_per_row >= 1,
        font.total_glyphs >= 1,
    ensures
        built.width == font.width,
        built.height == font.height,
        built.glyphs_per_row == font.glyphs_per_row,
        built.total_glyphs == font.total_glyphs,
        built.column_major == font.column_major,
        font.first_glyph < 128 ==> built.first_glyph == font.first_glyph,
        font.first_glyph >= 128 ==> built.first_glyph == 97,
{
    lemma_byte_as_char(font.first_glyph);
    assert(settings.first_glyph_str@[0] == font.first_glyph as char);
}

/// A byte read as a character keeps its code.
proof fn lemma_byte_as_char(b: u8)
    ensures
        (b as char) as u32 == b as u32,
        (b as char) as u8 == b,
{
}

/// Rust's signed division rounds toward zero: for `d > 0` the quotient `q`
/// of `n` satisfies `q * d <= n < (q + 1) * d` when `n >= 0`, and
/// `(q - 1) * d < n <= q * d` when `n < 0`.  With it, the rows preview of
/// a non-negative glyph count is the fewest rows that hold every glyph.
pub proof fn division_rounds_toward_zero(n: int, d: int)
    requires
        d > 0,
    ensures
        n >= 0 ==> trunc_div(n, d) * d <= n < (trunc_div(n, d) + 1) * d,
        n < 0 ==> (trunc_div(n, d) - 1) * d < n <= trunc_div(n, d) * d,
        n >= 0 ==> trunc_div(n + d - 1, d) * d >= n && (trunc_div(n + d - 1, d) - 1) * d < n,
{
    let q = trunc_div(n, d);
    if n >= 0 {
        assert(q * d <= n < (q + 1) * d) by (nonlinear_arith)
            requires
                n >= 0,
                d > 0,
                q == n / d,
        ;
        let r = trunc_div(n + d - 1, d);
        assert(r * d >= n && (r - 1) * d < n) by (nonlinear_arith)
            requires
                n >= 0,
                d > 0,
                r == (n + d - 1) / d,
        ;
    } else {
        let m = -n;
        assert((q - 1) * d < n <= q * d) by (nonlinear_arith)
            requires
                m > 0,
                n == -m,
                d > 0,
                q == -(m / d),
        ;
    }
}

/// The decimal numeral of `n` spells `n`: its digits are '0' to '9', and it
/// starts with '0' only for `n == 0`.
pub proof fn decimal_spells_the_number(n: nat)
    ensures
        numeral_value(decimal(n)) == n,
        decimal(n).len() >= 1,
        forall|i: int| 0 <= i < decimal(n).len() ==> 48 <= #[trigger] (decimal(n)[i] as int) <= 57,
        (decimal(n)[0] as int) == 48 ==> n == 0,
    decreases n,
{
    lemma_digit_code(n % 10);
    if n < 10 {
        lemma_digit_code(n);
        assert(decimal(n).drop_last() =~= Seq::<char>::empty());
        assert(numeral_value(Seq::<char>::empty()) == 0);
        assert(numeral_value(decimal(n)) == numeral_value(decimal(n).drop_last()) * 10 + (decimal(n).last() as int
            - 48));
    } else {
        decimal_spells_the_number(n / 10);
        let p = decimal(n / 10);
        assert(decimal(n).drop_last() =~= p);
        assert forall|i: int| 0 <= i < decimal(n).len() implies 48 <= #[trigger] (decimal(n)[i] as int) <= 57 by {
            if i < p.len() {
                assert(decimal(n)[i] == p[i]);
            }
        }
        assert(decimal(n)[0] == p[0]);
        assert(decimal(n).last() == digit(n % 10));
        assert((n / 10) * 10 + n % 10 == n) by (nonlinear_arith);
        assert(numeral_value(decimal(n)) == numeral_value(p) * 10 + (decimal(n).last() as int - 48));
    }
}

/// The digit character for `d < 10` has code `48 + d`.
proof fn lemma_digit_code(d: nat)
    requires
        d < 10,
    ensures
        digit(d) as int == 48 + d,
{
}

} // verus!
