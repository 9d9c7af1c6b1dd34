//! Pixel addressing inside a glyph: the mapping between `(x, y)` coordinates
//! and positions in a glyph's pixel vector, for both encodings.
use vstd::prelude::*;
use vstd::arithmetic::div_mod::lemma_fundamental_div_mod_converse;

verus! {

/// Position of pixel `(x, y)` in the pixel vector of a `w`×`h` glyph:
/// `x * h + y` when pixels are stored column-major, `y * w + x` otherwise.
pub open spec fn pixel_offset(w: int, h: int, column_major: bool, x: int, y: int) -> int {
    if column_major {
        x * h + y
    } else {
        y * w + x
    }
}

/// Column of the pixel stored at position `i`.
pub open spec fn offset_x(w: int, h: int, column_major: bool, i: int) -> int {
    if column_major {
        i / h
    } else {
        i % w
    }
}

/// Row of the pixel stored at position `i`.
pub open spec fn offset_y(w: int, h: int, column_major: bool, i: int) -> int {
    if column_major {
        i % h
    } else {
        i / w
    }
}

/// Whether pixel `(x, y)` is set in the glyph bits `g`; every coordinate
/// outside the `w`×`h` box reads as clear.
pub open spec fn ink(g: Seq<bool>, w: int, h: int, column_major: bool, x: int, y: int) -> bool {
    &&& 0 <= x < w
    &&& 0 <= y < h
    &&& pixel_offset(w, h, column_major, x, y) < g.len()
    &&& g[pixel_offset(w, h, column_major, x, y)]
}

/// A glyph never holds more than 255 × 255 pixels.
pub proof fn lemma_glyph_area(w: u8, h: u8)
    ensures
        0 <= w * h <= 65025,
{
    assert(0 <= w * h <= 255 * 255) by (nonlinear_arith)
        requires
            w <= 255,
            h <= 255,
    ;
}

/// A coordinate inside the box lands inside the pixel vector.
pub proof fn lemma_offset_in_range(w: int, h: int, column_major: bool, x: int, y: int)
    requires
        0 <= x < w,
        0 <= y < h,
    ensures
        0 <= pixel_offset(w, h, column_major, x, y) < w * h,
{
    if column_major {
        assert(0 <= x * h + y < w * h) by (nonlinear_arith)
            requires
                0 <= x < w,
                0 <= y < h,
        ;
    } else {
        assert(0 <= y * w + x < w * h) by (nonlinear_arith)
            requires
                0 <= x < w,
                0 <= y < h,
        ;
    }
}

/// Reading the coordinates back from the position of `(x, y)` gives `(x, y)`.
pub proof fn lemma_offset_coords(w: int, h: int, column_major: bool, x: int, y: int)
    requires
        0 <= x < w,
        0 <= y < h,
    ensures
        offset_x(w, h, column_major, pixel_offset(w, h, column_major, x, y)) == x,
        offset_y(w, h, column_major, pixel_offset(w, h, column_major, x, y)) == y,
{
    if column_major {
        lemma_fundamental_div_mod_converse(x * h + y, h, x, y);
    } else {
        lemma_fundamental_div_mod_converse(y * w + x, w, y, x);
    }
}

/// Every position inside the pixel vector is the position of exactly the
/// coordinates read from it, and those lie inside the box.
pub proof fn lemma_coords_offset(w: int, h: int, column_major: bool, i: int)
    requires
        0 <= w,
        0 <= h,
        0 <= i < w * h,
    ensures
        0 <= offset_x(w, h, column_major, i) < w,
        0 <= offset_y(w, h, column_major, i) < h,
        pixel_offset(w, h, column_major, offset_x(w, h, column_major, i), offset_y(w, h, column_major, i)) == i,
{
    assert(w > 0 && h > 0) by (nonlinear_arith)
        requires
            0 <= i < w * h,
            0 <= w,
            0 <= h,
    ;
    if column_major {
        assert(0 <= i / h < w && 0 <= i % h < h && (i / h) * h + i % h == i) by (nonlinear_arith)
            requires
                0 <= i < w * h,
                h > 0,
        ;
    } else {
        assert(0 <= i % w < w && 0 <= i / w < h && (i / w) * w + i % w == i) by (nonlinear_arith)
            requires
                0 <= i < w * h,
                w > 0,
        ;
    }
}

/// Distinct coordinates inside the box have distinct positions.
pub proof fn lemma_offset_injective(w: int, h: int, column_major: bool, x1: int, y1: int, x2: int, y2: int)
    requires
        0 <= x1 < w,
        0 <= y1 < h,
        0 <= x2 < w,
        0 <= y2 < h,
        pixel_offset(w, h, column_major, x1, y1) == pixel_offset(w, h, column_major, x2, y2),
    ensures
        x1 == x2,
        y1 == y2,
{
    lemma_offset_coords(w, h, column_major, x1, y1);
    lemma_offset_coords(w, h, column_major, x2, y2);
}

} // verus!
