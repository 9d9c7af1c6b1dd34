//! Bounding boxes of the set pixels of a glyph, shifting, and centring.
use vstd::prelude::*;

use vstd::set_lib::lemma_map_size;

use crate::font::{count_set, Font};
use crate::grid::{
    ink, lemma_coords_offset, lemma_glyph_area, lemma_offset_coords, lemma_offset_in_range, offset_x,
    offset_y, pixel_offset,
};

verus! {

/// `b = (min_x, min_y, max_x, max_y)` is the bounding box of the set pixels
/// of glyph `s`: every set pixel lies inside it, and each of its four edges
/// touches a set pixel.
pub open spec fn is_bbox(s: Seq<bool>, w: int, h: int, column_major: bool, b: (int, int, int, int)) -> bool {
    &&& forall|x: int, y: int|
        #[trigger] ink(s, w, h, column_major, x, y) ==> b.0 <= x <= b.2 && b.1 <= y <= b.3
    &&& exists|y: int| #[trigger] ink(s, w, h, column_major, b.0, y)
    &&& exists|y: int| #[trigger] ink(s, w, h, column_major, b.2, y)
    &&& exists|x: int| #[trigger] ink(s, w, h, column_major, x, b.1)
    &&& exists|x: int| #[trigger] ink(s, w, h, column_major, x, b.3)
}

/// The bounding box of the set pixels of glyph `s`, or `None` when no pixel is set.
pub open spec fn bounds(s: Seq<bool>, w: int, h: int, column_major: bool) -> Option<(int, int, int, int)> {
    if exists|b: (int, int, int, int)| is_bbox(s, w, h, column_major, b) {
        Some(choose|b: (int, int, int, int)| is_bbox(s, w, h, column_major, b))
    } else {
        None
    }
}

/// Glyph `s` with every pixel moved by `(dx, dy)`; pixels moved outside the
/// glyph are dropped, and the pixels left behind are clear.
pub open spec fn shifted(s: Seq<bool>, w: int, h: int, column_major: bool, dx: int, dy: int) -> Seq<bool> {
    Seq::new(
        (w * h) as nat,
        |i: int|
            ink(
                s,
                w,
                h,
                column_major,
                offset_x(w, h, column_major, i) - dx,
                offset_y(w, h, column_major, i) - dy,
            ),
    )
}

/// Glyph `s` shifted by `(dx, dy)`, or `s` itself when there is nothing to move.
pub open spec fn shift(s: Seq<bool>, w: int, h: int, column_major: bool, dx: int, dy: int) -> Seq<bool> {
    if dx == 0 && dy == 0 {
        s
    } else {
        shifted(s, w, h, column_major, dx, dy)
    }
}

/// Glyph `s` with its set pixels centred horizontally: the bounding box moves
/// so that its left margin is half the free width, rounded down.
pub open spec fn centered_h(s: Seq<bool>, w: int, h: int, column_major: bool) -> Seq<bool> {
    match bounds(s, w, h, column_major) {
        None => s,
        Some(b) => shift(s, w, h, column_major, (w - (b.2 - b.0 + 1)) / 2 - b.0, 0),
    }
}

/// Glyph `s` with its set pixels centred vertically: the bounding box moves
/// so that its top margin is half the free height, rounded down.
pub open spec fn centered_v(s: Seq<bool>, w: int, h: int, column_major: bool) -> Seq<bool> {
    match bounds(s, w, h, column_major) {
        None => s,
        Some(b) => shift(s, w, h, column_major, 0, (h - (b.3 - b.1 + 1)) / 2 - b.1),
    }
}

/// A glyph has at most one bounding box.
pub proof fn lemma_bbox_unique(s: Seq<bool>, w: int, h: int, column_major: bool, b1: (int, int, int, int), b2: (int, int, int, int))
    requires
        is_bbox(s, w, h, column_major, b1),
        is_bbox(s, w, h, column_major, b2),
    ensures
        b1 == b2,
{
    let y0 = choose|y: int| ink(s, w, h, column_major, b1.0, y);
    let y1 = choose|y: int| ink(s, w, h, column_major, b2.0, y);
    let y2 = choose|y: int| ink(s, w, h, column_major, b1.2, y);
    let y3 = choose|y: int| ink(s, w, h, column_major, b2.2, y);
    let x0 = choose|x: int| ink(s, w, h, column_major, x, b1.1);
    let x1 = choose|x: int| ink(s, w, h, column_major, x, b2.1);
    let x2 = choose|x: int| ink(s, w, h, column_major, x, b1.3);
    let x3 = choose|x: int| ink(s, w, h, column_major, x, b2.3);
}

/// A bounding box, once known, is the one `bounds` names.
pub proof fn lemma_bounds_is(s: Seq<bool>, w: int, h: int, column_major: bool, b: (int, int, int, int))
    requires
        is_bbox(s, w, h, column_major, b),
    ensures
        bounds(s, w, h, column_major) == Some(b),
{
    let c = choose|b: (int, int, int, int)| is_bbox(s, w, h, column_major, b);
    lemma_bbox_unique(s, w, h, column_major, b, c);
}

/// A glyph without any set pixel has no bounding box.
pub proof fn lemma_no_ink_no_bounds(s: Seq<bool>, w: int, h: int, column_major: bool)
    requires
        forall|x: int, y: int| !#[trigger] ink(s, w, h, column_major, x, y),
    ensures
        bounds(s, w, h, column_major) is None,
{
    if exists|b: (int, int, int, int)| is_bbox(s, w, h, column_major, b) {
        let b = choose|b: (int, int, int, int)| is_bbox(s, w, h, column_major, b);
        let y = choose|y: int| ink(s, w, h, column_major, b.0, y);
    }
}


/// Inside the glyph, the shifted glyph shows at `(x, y)` what `s` shows at
/// `(x - dx, y - dy)`.
pub proof fn lemma_shifted_ink(s: Seq<bool>, w: int, h: int, column_major: bool, dx: int, dy: int, x: int, y: int)
    requires
        s.len() == w * h,
        0 <= x < w,
        0 <= y < h,
    ensures
        ink(shifted(s, w, h, column_major, dx, dy), w, h, column_major, x, y) == ink(s, w, h, column_major, x - dx, y - dy),
{
    lemma_offset_in_range(w, h, column_major, x, y);
    lemma_offset_coords(w, h, column_major, x, y);
}

/// Moving a glyph whose bounding box stays inside the glyph loses no pixel:
/// the result shows at every `(x, y)` what `s` shows at `(x - dx, y - dy)`,
/// and its bounding box is the old one moved by `(dx, dy)`.
pub proof fn lemma_shift_keeps_content(s: Seq<bool>, w: int, h: int, column_major: bool, b: (int, int, int, int), dx: int, dy: int)
    requires
        s.len() == w * h,
        is_bbox(s, w, h, column_major, b),
        0 <= b.0 + dx,
        b.2 + dx < w,
        0 <= b.1 + dy,
        b.3 + dy < h,
    ensures
        forall|x: int, y: int|
            #[trigger] ink(shift(s, w, h, column_major, dx, dy), w, h, column_major, x, y) == ink(s, w, h, column_major, x - dx, y - dy),
        is_bbox(shift(s, w, h, column_major, dx, dy), w, h, column_major, (b.0 + dx, b.1 + dy, b.2 + dx, b.3 + dy)),
{
    let t = shift(s, w, h, column_major, dx, dy);
    assert forall|x: int, y: int| #[trigger] ink(t, w, h, column_major, x, y) == ink(s, w, h, column_major, x - dx, y - dy) by {
        if dx != 0 || dy != 0 {
            if 0 <= x < w && 0 <= y < h {
                lemma_shifted_ink(s, w, h, column_major, dx, dy, x, y);
            } else {
                if ink(s, w, h, column_major, x - dx, y - dy) {
                    assert(b.0 <= x - dx <= b.2 && b.1 <= y - dy <= b.3);
                }
            }
        }
    }
    let y0 = choose|y: int| ink(s, w, h, column_major, b.0, y);
    let y1 = choose|y: int| ink(s, w, h, column_major, b.2, y);
    let x0 = choose|x: int| ink(s, w, h, column_major, x, b.1);
    let x1 = choose|x: int| ink(s, w, h, column_major, x, b.3);
    let nb = (b.0 + dx, b.1 + dy, b.2 + dx, b.3 + dy);
    assert(ink(t, w, h, column_major, nb.0, y0 + dy));
    assert(ink(t, w, h, column_major, nb.2, y1 + dy));
    assert(ink(t, w, h, column_major, x0 + dx, nb.1));
    assert(ink(t, w, h, column_major, x1 + dx, nb.3));
    assert forall|x: int, y: int| #[trigger] ink(t, w, h, column_major, x, y) implies nb.0 <= x <= nb.2
        && nb.1 <= y <= nb.3 by {
        assert(ink(s, w, h, column_major, x - dx, y - dy));
    }
    assert(is_bbox(t, w, h, column_major, nb));
}

/// Every set pixel of a glyph with a bounding box lies inside the glyph.
pub proof fn lemma_bbox_inside(s: Seq<bool>, w: int, h: int, column_major: bool, b: (int, int, int, int))
    requires
        is_bbox(s, w, h, column_major, b),
    ensures
        0 <= b.0 <= b.2 < w,
        0 <= b.1 <= b.3 < h,
{
    let y0 = choose|y: int| ink(s, w, h, column_major, b.0, y);
    let y1 = choose|y: int| ink(s, w, h, column_major, b.2, y);
    let x0 = choose|x: int| ink(s, w, h, column_major, x, b.1);
    let x1 = choose|x: int| ink(s, w, h, column_major, x, b.3);
}

/// Two glyphs of `w * h` pixels that show the same pixels are equal.
pub proof fn lemma_equal_by_ink(t1: Seq<bool>, t2: Seq<bool>, w: int, h: int, column_major: bool)
    requires
        0 <= w,
        0 <= h,
        t1.len() == w * h,
        t2.len() == w * h,
        forall|x: int, y: int|
            #[trigger] ink(t1, w, h, column_major, x, y) == ink(t2, w, h, column_major, x, y),
    ensures
        t1 == t2,
{
    assert forall|i: int| 0 <= i < t1.len() implies t1[i] == t2[i] by {
        lemma_coords_offset(w, h, column_major, i);
        let x = offset_x(w, h, column_major, i);
        let y = offset_y(w, h, column_major, i);
        assert(ink(t1, w, h, column_major, x, y) == ink(t2, w, h, column_major, x, y));
    }
    assert(t1 =~= t2);
}

/// Shifting keeps a glyph of `w * h` pixels at `w * h` pixels.
pub proof fn lemma_shift_len(s: Seq<bool>, w: int, h: int, column_major: bool, dx: int, dy: int)
    requires
        0 <= w,
        0 <= h,
        s.len() == w * h,
    ensures
        shift(s, w, h, column_major, dx, dy).len() == w * h,
{
    assert(w * h >= 0) by (nonlinear_arith)
        requires
            0 <= w,
            0 <= h,
    ;
}

/// The positions of the set entries of `t`.
pub open spec fn set_positions(t: Seq<bool>) -> Set<int> {
    Set::new(|i: int| 0 <= i < t.len() && t[i])
}

/// The coordinates of the set pixels of glyph `t`.
pub open spec fn ink_set(t: Seq<bool>, w: int, h: int, column_major: bool) -> Set<(int, int)> {
    Set::new(|c: (int, int)| ink(t, w, h, column_major, c.0, c.1))
}

/// The number of set entries is the size of the set of their positions.
pub proof fn lemma_count_set_is_size(t: Seq<bool>)
    ensures
        set_positions(t).finite(),
        set_positions(t).len() == count_set(t),
    decreases t.len(),
{
    if t.len() == 0 {
        assert(set_positions(t) =~= Set::empty());
    } else {
        let u = t.drop_last();
        let n = t.len() - 1;
        lemma_count_set_is_size(u);
        if t[n] {
            assert(set_positions(t) =~= set_positions(u).insert(n));
        } else {
            assert(set_positions(t) =~= set_positions(u));
        }
    }
}

/// A glyph of `w * h` pixels has as many set pixels as set entries.
pub proof fn lemma_ink_set_size(t: Seq<bool>, w: int, h: int, column_major: bool)
    requires
        0 <= w,
        0 <= h,
        t.len() == w * h,
    ensures
        ink_set(t, w, h, column_major).finite(),
        ink_set(t, w, h, column_major).len() == count_set(t),
{
    lemma_count_set_is_size(t);
    let f = |i: int| (offset_x(w, h, column_major, i), offset_y(w, h, column_major, i));
    let pos = set_positions(t);
    assert forall|i: int, j: int| pos.contains(i) && pos.contains(j) && #[trigger] f(i) == #[trigger] f(j) implies i
        == j by {
        lemma_coords_offset(w, h, column_major, i);
        lemma_coords_offset(w, h, column_major, j);
    }
    assert forall|c: (int, int)| #[trigger] ink_set(t, w, h, column_major).contains(c) <==> pos.map(f).contains(c) by {
        if ink(t, w, h, column_major, c.0, c.1) {
            let i = pixel_offset(w, h, column_major, c.0, c.1);
            lemma_offset_in_range(w, h, column_major, c.0, c.1);
            lemma_offset_coords(w, h, column_major, c.0, c.1);
            assert(pos.contains(i) && f(i) == c);
        }
        if pos.map(f).contains(c) {
            let i = choose|i: int| pos.contains(i) && f(i) == c;
            lemma_coords_offset(w, h, column_major, i);
        }
    }
    assert(pos.map(f) =~= ink_set(t, w, h, column_major));
    lemma_map_size(pos, ink_set(t, w, h, column_major), f);
}

/// Moving every pixel by `(dx, dy)` without losing any keeps the number of
/// set pixels.
pub proof fn lemma_translation_keeps_count(s: Seq<bool>, t: Seq<bool>, w: int, h: int, column_major: bool, dx: int, dy: int)
    requires
        0 <= w,
        0 <= h,
        s.len() == w * h,
        t.len() == w * h,
        forall|x: int, y: int|
            #[trigger] ink(t, w, h, column_major, x, y) == ink(s, w, h, column_major, x - dx, y - dy),
    ensures
        count_set(t) == count_set(s),
{
    lemma_ink_set_size(s, w, h, column_major);
    lemma_ink_set_size(t, w, h, column_major);
    let f = |c: (int, int)| (c.0 + dx, c.1 + dy);
    let a = ink_set(s, w, h, column_major);
    assert forall|c: (int, int)| #[trigger] ink_set(t, w, h, column_major).contains(c) <==> a.map(f).contains(c) by {
        if ink(t, w, h, column_major, c.0, c.1) {
            assert(a.contains((c.0 - dx, c.1 - dy)) && f((c.0 - dx, c.1 - dy)) == c);
        }
        if a.map(f).contains(c) {
            let d = choose|d: (int, int)| a.contains(d) && f(d) == c;
            assert(ink(t, w, h, column_major, d.0 + dx, d.1 + dy));
        }
    }
    assert(a.map(f) =~= ink_set(t, w, h, column_major));
    assert forall|c: (int, int), d: (int, int)| a.contains(c) && a.contains(d) && #[trigger] f(c) == #[trigger] f(d) implies c
        == d by {}
    lemma_map_size(a, ink_set(t, w, h, column_major), f);
}

/// Pixel `(px, py)` comes before `(x, y)` in row-by-row scanning order.
pub open spec fn scanned_before(px: int, py: int, x: int, y: int) -> bool {
    py < y || (py == y && px < x)
}

impl Font {
    /// Bounding box of the set pixels in a glyph as
    /// `(min_x, min_y, max_x, max_y)`, or `None` if the glyph is empty.
    pub(crate) fn glyph_bounds(&self, glyph_idx: usize) -> (r: Option<(usize, usize, usize, usize)>)
        requires
            self.glyph_complete(glyph_idx as int),
        ensures
            match r {
                None => forall|x: int, y: int| !#[trigger] self.pixel(glyph_idx as int, x, y),
                Some(b) => {
                    &&& glyph_idx < self.glyphs@.len()
                    &&& is_bbox(
                        self.glyph_views()[glyph_idx as int],
                        self.width as int,
                        self.height as int,
                        self.column_major,
                        (b.0 as int, b.1 as int, b.2 as int, b.3 as int),
                    )
                },
            },
    {
        let w = self.width as usize;
        let h = self.height as usize;
        let ghost g = glyph_idx as int;
        let mut found: Option<(usize, usize, usize, usize)> = None;
        // Rows and columns of set pixels on the four edges of the box so far.
        let ghost mut left_y: int = 0;
        let ghost mut right_y: int = 0;
        let ghost mut top_x: int = 0;
        let ghost mut bottom_x: int = 0;
        let mut y: usize = 0;
        while y < h
            invariant
                y <= h,
                w == self.width,
                h == self.height,
                self.glyph_complete(glyph_idx as int),
                g == glyph_idx,
                found is None ==> forall|px: int, py: int|
                    #[trigger] self.pixel(g, px, py) ==> !scanned_before(px, py, 0, y as int),
                found matches Some(b) ==> {
                    &&& forall|px: int, py: int|
                        #[trigger] self.pixel(g, px, py) && scanned_before(px, py, 0, y as int) ==> b.0 <= px
                            <= b.2 && b.1 <= py <= b.3
                    &&& self.pixel(g, b.0 as int, left_y)
                    &&& self.pixel(g, b.2 as int, right_y)
                    &&& self.pixel(g, top_x, b.1 as int)
                    &&& self.pixel(g, bottom_x, b.3 as int)
                },
            decreases h - y,
        {
            let mut x: usize = 0;
            while x < w
                invariant
                    x <= w,
                    y < h,
                    w == self.width,
                    h == self.height,
                    self.glyph_complete(glyph_idx as int),
                    g == glyph_idx,
                    found is None ==> forall|px: int, py: int|
                        #[trigger] self.pixel(g, px, py) ==> !scanned_before(px, py, x as int, y as int),
                    found matches Some(b) ==> {
                        &&& forall|px: int, py: int|
                            #[trigger] self.pixel(g, px, py) && scanned_before(px, py, x as int, y as int)
                                ==> b.0 <= px <= b.2 && b.1 <= py <= b.3
                        &&& self.pixel(g, b.0 as int, left_y)
                        &&& self.pixel(g, b.2 as int, right_y)
                        &&& self.pixel(g, top_x, b.1 as int)
                        &&& self.pixel(g, bottom_x, b.3 as int)
                    },
                decreases w - x,
            {
                proof {
                    if glyph_idx < self.glyphs@.len() {
                        lemma_offset_in_range(w as int, h as int, self.column_major, x as int, y as int);
                    }
                }
                if self.get_pixel(glyph_idx, x, y) {
                    match found {
                        None => {
                            found = Some((x, y, x, y));
                            proof {
                                left_y = y as int;
                                right_y = y as int;
                                top_x = x as int;
                                bottom_x = x as int;
                            }
                        },
                        Some((min_x, min_y, max_x, max_y)) => {
                            let nx0 = if x < min_x { x } else { min_x };
                            let ny0 = if y < min_y { y } else { min_y };
                            let nx1 = if x > max_x { x } else { max_x };
                            let ny1 = if y > max_y { y } else { max_y };
                            found = Some((nx0, ny0, nx1, ny1));
                            proof {
                                if x < min_x {
                                    left_y = y as int;
                                }
                                if y < min_y {
                                    top_x = x as int;
                                }
                                if x > max_x {
                                    right_y = y as int;
                                }
                                if y > max_y {
                                    bottom_x = x as int;
                                }
                            }
                        },
                    }
                }
                x = x + 1;
            }
            y = y + 1;
        }
        proof {
            let s = self.glyph_views()[g];
            if found is Some {
                let b = found->0;
                assert(self.pixel(g, top_x, b.1 as int));
                assert(g < self.glyphs@.len());
                assert(s == self.glyphs@[g]@);
                assert forall|x: int, y: int| #[trigger] ink(s, w as int, h as int, self.column_major, x, y) implies b.0
                    <= x <= b.2 && b.1 <= y <= b.3 by {
                    assert(self.pixel(g, x, y));
                }
                assert(ink(s, w as int, h as int, self.column_major, b.0 as int, left_y));
                assert(ink(s, w as int, h as int, self.column_major, b.2 as int, right_y));
                assert(ink(s, w as int, h as int, self.column_major, top_x, b.1 as int));
                assert(ink(s, w as int, h as int, self.column_major, bottom_x, b.3 as int));
            } else {
                assert forall|x: int, y: int| !#[trigger] self.pixel(g, x, y) by {
                    if self.pixel(g, x, y) {
                        assert(!scanned_before(x, y, 0, h as int));
                    }
                }
            }
        }
        found
    }
}

impl Font {
    /// Shift all set pixels of a glyph by `(dx, dy)`.  Pixels shifted outside
    /// the glyph are discarded.
    pub(crate) fn shift_glyph(&mut self, glyph_idx: usize, dx: isize, dy: isize)
        requires
            old(self).glyph_complete(glyph_idx as int),
        ensures
            final(self).same_header(&*old(self)),
            final(self).glyphs@.len() == old(self).glyphs@.len(),
            old(self).shaped() ==> final(self).shaped(),
            old(self).wf() ==> final(self).wf(),
            final(self).glyph_views() == if glyph_idx < old(self).glyphs@.len() {
                old(self).glyph_views().update(
                    glyph_idx as int,
                    shift(
                        old(self).glyph_views()[glyph_idx as int],
                        old(self).width as int,
                        old(self).height as int,
                        old(self).column_major,
                        dx as int,
                        dy as int,
                    ),
                )
            } else {
                old(self).glyph_views()
            },
    {
        if (dx == 0 && dy == 0) || glyph_idx >= self.glyphs.len() {
            proof {
                if glyph_idx < self.glyphs@.len() {
                    assert(self.glyph_views() =~= self.glyph_views().update(
                        glyph_idx as int,
                        self.glyph_views()[glyph_idx as int],
                    ));
                }
            }
            return;
        }
        let w = self.width as usize;
        let h = self.height as usize;
        let cm = self.column_major;
        proof {
            lemma_glyph_area(self.width, self.height);
        }
        let n = w * h;
        let ghost old_glyph = self.glyphs@[glyph_idx as int]@;
        let mut moved: Vec<bool> = Vec::new();
        let mut i: usize = 0;
        while i < n
            invariant
                i <= n,
                n == w * h,
                w == self.width,
                h == self.height,
                cm == self.column_major,
                self.glyph_complete(glyph_idx as int),
                glyph_idx < self.glyphs@.len(),
                old_glyph == self.glyphs@[glyph_idx as int]@,
                moved@ == shifted(old_glyph, w as int, h as int, cm, dx as int, dy as int).take(i as int),
            decreases n - i,
        {
            proof {
                lemma_coords_offset(w as int, h as int, cm, i as int);
            }
            let x = if cm { i / h } else { i % w };
            let y = if cm { i % h } else { i / w };
            let xi = x as isize;
            let yi = y as isize;
            let wi = w as isize;
            let hi = h as isize;
            let value = if dx <= xi && xi - wi < dx && dy <= yi && yi - hi < dy {
                let sx = (xi - dx) as usize;
                let sy = (yi - dy) as usize;
                let k = self.pixel_index(w, h, sx, sy);
                self.glyphs[glyph_idx][k]
            } else {
                false
            };
            moved.push(value);
            proof {
                assert(moved@ =~= shifted(old_glyph, w as int, h as int, cm, dx as int, dy as int).take(
                    i + 1,
                ));
            }
            i = i + 1;
        }
        let ghost before = *self;
        proof {
            assert(moved@ =~= shifted(old_glyph, w as int, h as int, cm, dx as int, dy as int));
        }
        self.glyphs.set(glyph_idx, moved);
        proof {
            assert(self.glyph_views() =~= before.glyph_views().update(
                glyph_idx as int,
                shifted(old_glyph, w as int, h as int, cm, dx as int, dy as int),
            ));
            if before.shaped() {
                assert forall|g: int| 0 <= g < self.glyphs@.len() implies (#[trigger] self.glyphs@[g])@.len()
                    == self.spec_pixels_per_glyph() by {
                    if g != glyph_idx {
                        assert(self.glyphs@[g] == before.glyphs@[g]);
                    }
                }
            }
        }
    }
}

impl Font {
    /// The glyph views after centring glyph `g` horizontally (or vertically),
    /// or unchanged when `g` is out of range.
    pub open spec fn centering(&self, g: int, horizontal: bool) -> Seq<Seq<bool>> {
        if 0 <= g < self.glyphs@.len() {
            let s = self.glyph_views()[g];
            let w = self.width as int;
            let h = self.height as int;
            self.glyph_views().update(
                g,
                if horizontal {
                    centered_h(s, w, h, self.column_major)
                } else {
                    centered_v(s, w, h, self.column_major)
                },
            )
        } else {
            self.glyph_views()
        }
    }

    /// Horizontally centre the set pixels of a glyph.  Empty glyphs are
    /// left unchanged.  When the free space is odd the extra column goes to
    /// the right.
    pub fn center_glyph_horizontally(&mut self, glyph_idx: usize)
        requires
            old(self).glyph_complete(glyph_idx as int),
        ensures
            final(self).same_header(&*old(self)),
            final(self).glyphs@.len() == old(self).glyphs@.len(),
            old(self).shaped() ==> final(self).shaped(),
            old(self).wf() ==> final(self).wf(),
            final(self).glyph_views() == old(self).centering(glyph_idx as int, true),
    {
        let ghost s = if glyph_idx < self.glyphs.len() { self.glyph_views()[glyph_idx as int] } else { Seq::empty() };
        let ghost w = self.width as int;
        let ghost h = self.height as int;
        match self.glyph_bounds(glyph_idx) {
            None => {
                proof {
                    if glyph_idx < self.glyphs@.len() {
                        assert forall|x: int, y: int| !#[trigger] ink(s, w, h, self.column_major, x, y) by {
                            assert(!self.pixel(glyph_idx as int, x, y));
                        }
                        lemma_no_ink_no_bounds(s, w, h, self.column_major);
                        assert(self.glyph_views() =~= self.glyph_views().update(glyph_idx as int, s));
                    }
                }
            },
            Some((min_x, min_y, max_x, max_y)) => {
                proof {
                    lemma_bounds_is(s, w, h, self.column_major, (min_x as int, min_y as int, max_x as int, max_y as int));
                    let y = choose|y: int| ink(s, w, h, self.column_major, max_x as int, y);
                }
                let width = self.width as usize;
                let content_w = max_x - min_x + 1;
                let target_min = (width - content_w) / 2;
                self.shift_glyph(glyph_idx, target_min as isize - min_x as isize, 0);
            },
        }
    }

    /// Vertically centre the set pixels of a glyph.  Empty glyphs are left
    /// unchanged.  When the free space is odd the extra row goes to the
    /// bottom.
    pub fn center_glyph_vertically(&mut self, glyph_idx: usize)
        requires
            old(self).glyph_complete(glyph_idx as int),
        ensures
            final(self).same_header(&*old(self)),
            final(self).glyphs@.len() == old(self).glyphs@.len(),
            old(self).shaped() ==> final(self).shaped(),
            old(self).wf() ==> final(self).wf(),
            final(self).glyph_views() == old(self).centering(glyph_idx as int, false),
    {
        let ghost s = if glyph_idx < self.glyphs.len() { self.glyph_views()[glyph_idx as int] } else { Seq::empty() };
        let ghost w = self.width as int;
        let ghost h = self.height as int;
        match self.glyph_bounds(glyph_idx) {
            None => {
                proof {
                    if glyph_idx < self.glyphs@.len() {
                        assert forall|x: int, y: int| !#[trigger] ink(s, w, h, self.column_major, x, y) by {
                            assert(!self.pixel(glyph_idx as int, x, y));
                        }
                        lemma_no_ink_no_bounds(s, w, h, self.column_major);
                        assert(self.glyph_views() =~= self.glyph_views().update(glyph_idx as int, s));
                    }
                }
            },
            Some((min_x, min_y, max_x, max_y)) => {
                proof {
                    lemma_bounds_is(s, w, h, self.column_major, (min_x as int, min_y as int, max_x as int, max_y as int));
                    let x = choose|x: int| ink(s, w, h, self.column_major, x, max_y as int);
                }
                let height = self.height as usize;
                let content_h = max_y - min_y + 1;
                let target_min = (height - content_h) / 2;
                self.shift_glyph(glyph_idx, 0, target_min as isize - min_y as isize);
            },
        }
    }
}

} // verus!
