//! The font data model: a fixed-size grid of pixels per glyph, glyph after
//! glyph, and the operations that read and edit single pixels.
use vstd::prelude::*;

use crate::grid::{ink, lemma_glyph_area, lemma_offset_in_range, lemma_offset_injective, pixel_offset};

verus! {

/// Magic bytes that identify a valid font file ("FNT\0").
pub const MAGIC: [u8; 4] = [0x46, 0x4E, 0x54, 0x00];

/// Fixed size (in bytes) of the file header.
pub const HEADER_SIZE: usize = 12;

/// Font file format version written by [`Font::save`].
pub const FORMAT_VERSION: u8 = 1;

/// Bit flag: column-major encoding.
pub const FLAG_COLUMN_MAJOR: u8 = 1;

/// `n / d` rounded up, for `d > 0`.
pub open spec fn ceil_div(n: int, d: int) -> int {
    (n + d - 1) / d
}

/// A bitmap font composed of fixed-size glyphs.
#[derive(Clone, Debug)]
pub struct Font {
    /// Width of every glyph in pixels.
    pub width: u8,
    /// Height of every glyph in pixels.
    pub height: u8,
    /// How many glyphs fit in a single row of the glyph sheet.
    pub glyphs_per_row: u8,
    /// ASCII code of the first (index 0) glyph.
    pub first_glyph: u8,
    /// Total number of glyphs stored in the font.
    pub total_glyphs: u16,
    /// When `true` pixels are stored column-major; row-major otherwise.
    pub column_major: bool,
    /// Format version this font was loaded from (or [`FORMAT_VERSION`] for a
    /// font created in memory).  Informational only: [`Font::save`] always
    /// writes [`FORMAT_VERSION`].
    pub version: u8,
    /// Pixel data for each glyph.  `glyphs[i]` has `width * height` entries.
    pub glyphs: Vec<Vec<bool>>,
}

/// The pixel vectors of a list of glyphs, as sequences.
pub open spec fn glyph_seqs(glyphs: Seq<Vec<bool>>) -> Seq<Seq<bool>> {
    Seq::new(glyphs.len(), |i: int| glyphs[i]@)
}

/// A blank glyph of `n` pixels.
pub open spec fn blank_glyph(n: nat) -> Seq<bool> {
    Seq::new(n, |i: int| false)
}

/// The number of set entries of a pixel vector.
pub open spec fn count_set(g: Seq<bool>) -> nat
    decreases g.len(),
{
    if g.len() == 0 {
        0
    } else {
        count_set(g.drop_last()) + if g.last() { 1nat } else { 0nat }
    }
}

/// The number of set entries over a list of pixel vectors.
pub open spec fn count_set_all(gs: Seq<Seq<bool>>) -> nat
    decreases gs.len(),
{
    if gs.len() == 0 {
        0
    } else {
        count_set_all(gs.drop_last()) + count_set(gs.last())
    }
}

/// The number of entries over a list of pixel vectors.
pub open spec fn cell_count(gs: Seq<Seq<bool>>) -> nat
    decreases gs.len(),
{
    if gs.len() == 0 {
        0
    } else {
        cell_count(gs.drop_last()) + gs.last().len()
    }
}

/// `g` with its entry at `i` inverted.
pub open spec fn flip(g: Seq<bool>, i: int) -> Seq<bool> {
    g.update(i, !g[i])
}

impl Font {
    /// The pixel vectors of all glyphs.
    pub open spec fn glyph_views(&self) -> Seq<Seq<bool>> {
        glyph_seqs(self.glyphs@)
    }

    /// Number of pixels in a glyph.
    pub open spec fn spec_pixels_per_glyph(&self) -> nat {
        (self.width * self.height) as nat
    }

    /// Every glyph holds exactly `width * height` pixels.
    pub open spec fn shaped(&self) -> bool {
        forall|i: int|
            0 <= i < self.glyphs@.len() ==> (#[trigger] self.glyphs@[i])@.len()
                == self.spec_pixels_per_glyph()
    }

    /// A well-formed font: `total_glyphs` glyphs of `width * height` pixels each.
    pub open spec fn wf(&self) -> bool {
        &&& self.glyphs@.len() == self.total_glyphs
        &&& self.shaped()
    }

    /// Where pixel `(x, y)` lives inside a glyph's pixel vector.
    pub open spec fn offset(&self, x: int, y: int) -> int {
        pixel_offset(self.width as int, self.height as int, self.column_major, x, y)
    }

    /// Whether pixel `(x, y)` of glyph `g` is set (false for anything out of range).
    pub open spec fn pixel(&self, g: int, x: int, y: int) -> bool {
        &&& 0 <= g < self.glyphs@.len()
        &&& ink(self.glyphs@[g]@, self.width as int, self.height as int, self.column_major, x, y)
    }

    /// Whether `(g, x, y)` names a pixel of the font.
    pub open spec fn in_range(&self, g: int, x: int, y: int) -> bool {
        &&& 0 <= g < self.glyphs@.len()
        &&& 0 <= x < self.width
        &&& 0 <= y < self.height
    }

    /// Pixel `(x, y)` of glyph `g`, when it is in range, lies inside that
    /// glyph's pixel vector.
    pub open spec fn pixel_stored(&self, g: int, x: int, y: int) -> bool {
        self.in_range(g, x, y) ==> self.offset(x, y) < self.glyphs@[g]@.len()
    }

    /// Glyph `g`, if there is one, holds at least `width * height` pixels.
    pub open spec fn glyph_complete(&self, g: int) -> bool {
        0 <= g < self.glyphs@.len() ==> self.glyphs@[g]@.len() >= self.spec_pixels_per_glyph()
    }

    /// The glyph views with pixel `(x, y)` of glyph `g` set to `value`, or
    /// unchanged when that pixel is out of range.
    pub open spec fn with_pixel(&self, g: int, x: int, y: int, value: bool) -> Seq<Seq<bool>> {
        if self.in_range(g, x, y) {
            self.glyph_views().update(g, self.glyph_views()[g].update(self.offset(x, y), value))
        } else {
            self.glyph_views()
        }
    }

    /// Every field but the pixel data is the same.
    pub open spec fn same_header(&self, other: &Font) -> bool {
        &&& self.width == other.width
        &&& self.height == other.height
        &&& self.glyphs_per_row == other.glyphs_per_row
        &&& self.first_glyph == other.first_glyph
        &&& self.total_glyphs == other.total_glyphs
        &&& self.column_major == other.column_major
        &&& self.version == other.version
    }

    /// Create a new blank font with the given parameters.
    pub fn new(
        width: u8,
        height: u8,
        glyphs_per_row: u8,
        first_glyph: u8,
        total_glyphs: u16,
        column_major: bool,
    ) -> (font: Self)
        ensures
            font.width == width,
            font.height == height,
            font.glyphs_per_row == glyphs_per_row,
            font.first_glyph == first_glyph,
            font.total_glyphs == total_glyphs,
            font.column_major == column_major,
            font.version == FORMAT_VERSION,
            font.wf(),
            font.glyph_views() == Seq::new(
                total_glyphs as nat,
                |i: int| blank_glyph((width * height) as nat),
            ),
    {
        proof {
            lemma_glyph_area(width, height);
        }
        let pixels = (width as usize) * (height as usize);
        let mut glyphs: Vec<Vec<bool>> = Vec::new();
        let mut n: u16 = 0;
        while n < total_glyphs
            invariant
                n <= total_glyphs,
                pixels == width * height,
                glyphs@.len() == n,
                forall|i: int| 0 <= i < n ==> (#[trigger] glyphs@[i])@ == blank_glyph(pixels as nat),
            decreases total_glyphs - n,
        {
            let blank: Vec<bool> = vec![false; pixels];
            assert(blank@ == blank_glyph(pixels as nat));
            glyphs.push(blank);
            n = n + 1;
        }
        let font = Font {
            width,
            height,
            glyphs_per_row,
            first_glyph,
            total_glyphs,
            column_major,
            version: FORMAT_VERSION,
            glyphs,
        };
        assert(font.glyph_views() =~= Seq::new(
            total_glyphs as nat,
            |i: int| blank_glyph((width * height) as nat),
        ));
        font
    }
}

impl Font {
    /// Number of pixels (bits) in a single glyph.
    pub fn pixels_per_glyph(&self) -> (r: usize)
        ensures
            r == self.spec_pixels_per_glyph(),
    {
        proof {
            lemma_glyph_area(self.width, self.height);
        }
        (self.width as usize) * (self.height as usize)
    }

    /// Total number of pixel cells across every glyph
    /// (`pixels_per_glyph * total_glyphs`).
    pub fn total_pixels(&self) -> (r: usize)
        requires
            self.width * self.height * self.total_glyphs <= usize::MAX,
        ensures
            r == self.width * self.height * self.total_glyphs,
    {
        let ppg = self.pixels_per_glyph();
        ppg * (self.total_glyphs as usize)
    }

    /// Total size in bytes of the glyph pixel-data array as written by
    /// [`Font::save`] (version 1: all glyph bits packed contiguously).
    pub fn data_size(&self) -> (r: usize)
        ensures
            r == ceil_div(self.width * self.height * self.total_glyphs, 8),
            r <= 0x2000_0000,
    {
        proof {
            lemma_glyph_area(self.width, self.height);
            assert(0 <= (self.width * self.height) * self.total_glyphs <= 65025 * 65535) by (nonlinear_arith)
                requires
                    0 <= self.width * self.height <= 65025,
                    self.total_glyphs <= 65535,
            ;
        }
        let bits: u64 = (self.width as u64) * (self.height as u64) * (self.total_glyphs as u64);
        ((bits + 7) / 8) as usize
    }

    /// Total size in bytes of the serialised font file (header + glyph data).
    pub fn file_size(&self) -> (r: usize)
        ensures
            r == HEADER_SIZE + ceil_div(self.width * self.height * self.total_glyphs, 8),
    {
        HEADER_SIZE + self.data_size()
    }

    /// Bytes that one glyph occupies when padded to a whole number of bytes
    /// on its own (the version-0 layout).
    pub fn bytes_per_glyph(&self) -> (r: usize)
        ensures
            r == ceil_div(self.width * self.height, 8),
    {
        let ppg = self.pixels_per_glyph();
        proof {
            lemma_glyph_area(self.width, self.height);
        }
        (ppg + 7) / 8
    }

    /// Number of rows needed to display all glyphs at `glyphs_per_row` columns.
    pub fn rows(&self) -> (r: u16)
        ensures
            r == if self.glyphs_per_row == 0 {
                0
            } else {
                ceil_div(self.total_glyphs as int, self.glyphs_per_row as int)
            },
    {
        if self.glyphs_per_row == 0 {
            return 0;
        }
        let per_row = self.glyphs_per_row as u16;
        let full = self.total_glyphs / per_row;
        proof {
            let t = self.total_glyphs as int;
            let d = per_row as int;
            assert(t % d != 0 ==> full < 65535) by (nonlinear_arith)
                requires
                    d > 0,
                    0 <= t <= 65535,
                    full == t / d,
            ;
        }
        let r = if self.total_glyphs % per_row == 0 {
            full
        } else {
            full + 1
        };
        proof {
            let t = self.total_glyphs as int;
            let d = per_row as int;
            assert(r == (t + d - 1) / d) by (nonlinear_arith)
                requires
                    d > 0,
                    t >= 0,
                    full == t / d,
                    r == (if t % d == 0 { full as int } else { full + 1 }),
            ;
        }
        r
    }

    /// Return the character that corresponds to a glyph index, if the index
    /// is within the font's glyph range and maps to a printable ASCII
    /// character (`' '` to `'~'`).
    pub fn glyph_char(&self, index: usize) -> (r: Option<char>)
        ensures
            r == if index < self.total_glyphs && 0x20 <= self.first_glyph + index <= 0x7E {
                Some(((self.first_glyph + index) as u8) as char)
            } else {
                None::<char>
            },
    {
        if index >= self.total_glyphs as usize {
            return None;
        }
        let code = self.first_glyph as usize + index;
        if code < 0x20 || code > 0x7E {
            return None;
        }
        Some(code as u8 as char)
    }
}

impl Default for Font {
    /// A blank 7×10 font of the 95 printable ASCII characters, 16 per row.
    fn default() -> (font: Self)
        ensures
            font.width == 7,
            font.height == 10,
            font.glyphs_per_row == 16,
            font.first_glyph == 32,
            font.total_glyphs == 95,
            !font.column_major,
            font.version == FORMAT_VERSION,
            font.wf(),
            font.glyph_views() == Seq::new(95, |i: int| blank_glyph(70)),
    {
        Self::new(7, 10, 16, 32, 95, false)
    }
}

impl Font {
    /// Position of pixel `(x, y)` in a glyph's pixel vector.
    pub(crate) fn pixel_index(&self, w: usize, h: usize, x: usize, y: usize) -> (r: usize)
        requires
            w == self.width,
            h == self.height,
            x < w,
            y < h,
        ensures
            r == self.offset(x as int, y as int),
            r < self.spec_pixels_per_glyph(),
    {
        proof {
            lemma_offset_in_range(w as int, h as int, self.column_major, x as int, y as int);
            lemma_glyph_area(self.width, self.height);
            assert(0 <= x * h && 0 <= y * w) by (nonlinear_arith)
                requires
                    0 <= x,
                    0 <= y,
                    0 <= w,
                    0 <= h,
            ;
        }
        if self.column_major {
            x * h + y
        } else {
            y * w + x
        }
    }

    /// Read the value of a single pixel in a glyph.
    ///
    /// Returns `false` for out-of-bounds coordinates.
    pub fn get_pixel(&self, glyph_idx: usize, x: usize, y: usize) -> (r: bool)
        requires
            self.pixel_stored(glyph_idx as int, x as int, y as int),
        ensures
            r == self.pixel(glyph_idx as int, x as int, y as int),
    {
        if glyph_idx >= self.glyphs.len() {
            return false;
        }
        let glyph = &self.glyphs[glyph_idx];
        let w = self.width as usize;
        let h = self.height as usize;
        if x >= w || y >= h {
            return false;
        }
        let i = self.pixel_index(w, h, x, y);
        glyph[i]
    }

    /// Set or clear a single pixel in a glyph.  Out-of-bounds writes are
    /// silently ignored.
    pub fn set_pixel(&mut self, glyph_idx: usize, x: usize, y: usize, value: bool)
        requires
            old(self).pixel_stored(glyph_idx as int, x as int, y as int),
        ensures
            final(self).same_header(&*old(self)),
            final(self).glyphs@.len() == old(self).glyphs@.len(),
            old(self).shaped() ==> final(self).shaped(),
            old(self).wf() ==> final(self).wf(),
            final(self).glyph_views() == old(self).with_pixel(glyph_idx as int, x as int, y as int, value),
            forall|g: int, px: int, py: int|
                #[trigger] final(self).pixel(g, px, py) == if g == glyph_idx && px == x && py == y
                    && old(self).in_range(g, px, py) {
                    value
                } else {
                    old(self).pixel(g, px, py)
                },
    {
        let w = self.width as usize;
        let h = self.height as usize;
        if glyph_idx >= self.glyphs.len() || x >= w || y >= h {
            return;
        }
        let idx = self.pixel_index(w, h, x, y);
        let ghost before = *self;
        self.glyphs[glyph_idx].set(idx, value);
        proof {
            assert(self.glyph_views() =~= before.glyph_views().update(
                glyph_idx as int,
                before.glyph_views()[glyph_idx as int].update(idx as int, value),
            ));
            if before.shaped() {
                assert forall|g: int| 0 <= g < self.glyphs@.len() implies (#[trigger] self.glyphs@[g])@.len()
                    == self.spec_pixels_per_glyph() by {
                    if g != glyph_idx {
                        assert(self.glyphs@[g] == before.glyphs@[g]);
                    }
                }
            }
            assert forall|g: int, px: int, py: int|
                #[trigger] self.pixel(g, px, py) == if g == glyph_idx && px == x && py == y
                    && before.in_range(g, px, py) {
                    value
                } else {
                    before.pixel(g, px, py)
                } by {
                if g == glyph_idx && 0 <= px < w && 0 <= py < h {
                    if px != x || py != y {
                        if self.offset(px, py) == idx {
                            lemma_offset_injective(w as int, h as int, self.column_major, px, py, x as int, y as int);
                        }
                    }
                } else if 0 <= g < self.glyphs@.len() && g != glyph_idx {
                    assert(self.glyphs@[g] == before.glyphs@[g]);
                }
            }
        }
    }

    /// Toggle a single pixel and return its new value.  Out-of-bounds
    /// coordinates change nothing and return `false`.
    pub fn toggle_pixel(&mut self, glyph_idx: usize, x: usize, y: usize) -> (r: bool)
        requires
            old(self).pixel_stored(glyph_idx as int, x as int, y as int),
        ensures
            r == (old(self).in_range(glyph_idx as int, x as int, y as int) && !old(self).pixel(
                glyph_idx as int,
                x as int,
                y as int,
            )),
            final(self).same_header(&*old(self)),
            old(self).shaped() ==> final(self).shaped(),
            old(self).wf() ==> final(self).wf(),
            final(self).glyph_views() == if old(self).in_range(glyph_idx as int, x as int, y as int) {
                old(self).glyph_views().update(
                    glyph_idx as int,
                    flip(old(self).glyph_views()[glyph_idx as int], old(self).offset(x as int, y as int)),
                )
            } else {
                old(self).glyph_views()
            },
            final(self).pixel(glyph_idx as int, x as int, y as int) == r,
    {
        if glyph_idx >= self.glyphs.len() || x >= self.width as usize || y >= self.height as usize {
            return false;
        }
        let current = self.get_pixel(glyph_idx, x, y);
        proof {
            lemma_offset_in_range(self.width as int, self.height as int, self.column_major, x as int, y as int);
            assert(self.glyph_views()[glyph_idx as int] == self.glyphs@[glyph_idx as int]@);
        }
        self.set_pixel(glyph_idx, x, y, !current);
        !current
    }

    /// Clear all pixels of a glyph.
    pub fn clear_glyph(&mut self, glyph_idx: usize)
        ensures
            final(self).same_header(&*old(self)),
            final(self).glyphs@.len() == old(self).glyphs@.len(),
            old(self).shaped() ==> final(self).shaped(),
            old(self).wf() ==> final(self).wf(),
            final(self).glyph_views() == if glyph_idx < old(self).glyphs@.len() {
                old(self).glyph_views().update(
                    glyph_idx as int,
                    blank_glyph(old(self).glyph_views()[glyph_idx as int].len()),
                )
            } else {
                old(self).glyph_views()
            },
    {
        if glyph_idx >= self.glyphs.len() {
            return;
        }
        let ghost before = *self;
        let n = self.glyphs[glyph_idx].len();
        let mut i: usize = 0;
        while i < n
            invariant
                i <= n,
                glyph_idx < self.glyphs@.len(),
                n == before.glyphs@[glyph_idx as int]@.len(),
                self.same_header(&before),
                self.glyphs@.len() == before.glyphs@.len(),
                forall|g: int| 0 <= g < self.glyphs@.len() && g != glyph_idx ==> #[trigger] self.glyphs@[g]
                    == before.glyphs@[g],
                self.glyphs@[glyph_idx as int]@ == Seq::new(
                    n as nat,
                    |j: int| j >= i && before.glyphs@[glyph_idx as int]@[j],
                ),
            decreases n - i,
        {
            self.glyphs[glyph_idx].set(i, false);
            proof {
                assert(self.glyphs@[glyph_idx as int]@ =~= Seq::new(
                    n as nat,
                    |j: int| j >= i + 1 && before.glyphs@[glyph_idx as int]@[j],
                ));
            }
            i = i + 1;
        }
        proof {
            assert(self.glyphs@[glyph_idx as int]@ =~= blank_glyph(n as nat));
            assert forall|g: int| 0 <= g < self.glyphs@.len() implies #[trigger] self.glyph_views()[g]
                == before.glyph_views().update(glyph_idx as int, blank_glyph(n as nat))[g] by {
                if g != glyph_idx {
                    assert(self.glyphs@[g] == before.glyphs@[g]);
                }
            }
            assert(self.glyph_views() =~= before.glyph_views().update(
                glyph_idx as int,
                blank_glyph(n as nat),
            ));
            if before.shaped() {
                assert forall|g: int| 0 <= g < self.glyphs@.len() implies (#[trigger] self.glyphs@[g])@.len()
                    == self.spec_pixels_per_glyph() by {
                    if g != glyph_idx {
                        assert(self.glyphs@[g] == before.glyphs@[g]);
                    }
                }
            }
        }
    }
}

/// A pixel vector has no more set entries than entries.
pub proof fn lemma_count_set_bound(g: Seq<bool>)
    ensures
        count_set(g) <= g.len(),
    decreases g.len(),
{
    if g.len() > 0 {
        lemma_count_set_bound(g.drop_last());
    }
}

/// Counting the set entries of a prefix one entry longer adds that entry.
pub proof fn lemma_count_set_step(g: Seq<bool>, i: int)
    requires
        0 <= i < g.len(),
    ensures
        count_set(g.take(i + 1)) == count_set(g.take(i)) + if g[i] { 1nat } else { 0nat },
{
    assert(g.take(i + 1).drop_last() =~= g.take(i));
}

/// Over a list of pixel vectors there are no more set entries than entries.
pub proof fn lemma_count_set_all_bound(gs: Seq<Seq<bool>>)
    ensures
        count_set_all(gs) <= cell_count(gs),
    decreases gs.len(),
{
    if gs.len() > 0 {
        lemma_count_set_all_bound(gs.drop_last());
        lemma_count_set_bound(gs.last());
    }
}

/// A prefix of a list of pixel vectors has no more entries than the list.
pub proof fn lemma_cell_count_prefix(gs: Seq<Seq<bool>>, n: int)
    requires
        0 <= n <= gs.len(),
    ensures
        cell_count(gs.take(n)) <= cell_count(gs),
    decreases gs.len(),
{
    if n == gs.len() {
        assert(gs.take(n) =~= gs);
    } else {
        lemma_cell_count_prefix(gs.drop_last(), n);
        assert(gs.drop_last().take(n) =~= gs.take(n));
    }
}

/// `count_set_all` and `cell_count` of a prefix one vector longer add that vector.
pub proof fn lemma_count_all_step(gs: Seq<Seq<bool>>, n: int)
    requires
        0 <= n < gs.len(),
    ensures
        count_set_all(gs.take(n + 1)) == count_set_all(gs.take(n)) + count_set(gs[n]),
        cell_count(gs.take(n + 1)) == cell_count(gs.take(n)) + gs[n].len(),
{
    assert(gs.take(n + 1).drop_last() =~= gs.take(n));
}

/// Replacing one vector by another with as many set entries keeps the total.
pub proof fn lemma_count_set_all_update(gs: Seq<Seq<bool>>, g: int, x: Seq<bool>)
    requires
        0 <= g < gs.len(),
        count_set(x) == count_set(gs[g]),
    ensures
        count_set_all(gs.update(g, x)) == count_set_all(gs),
    decreases gs.len(),
{
    let n = gs.len() - 1;
    if g == n {
        assert(gs.update(g, x).drop_last() =~= gs.drop_last());
    } else {
        lemma_count_set_all_update(gs.drop_last(), g, x);
        assert(gs.update(g, x).drop_last() =~= gs.drop_last().update(g, x));
    }
}

/// Vectors that all hold `p` entries hold `len * p` entries together.
pub proof fn lemma_cell_count_uniform(gs: Seq<Seq<bool>>, p: nat)
    requires
        forall|i: int| 0 <= i < gs.len() ==> (#[trigger] gs[i]).len() == p,
    ensures
        cell_count(gs) == gs.len() * p,
    decreases gs.len(),
{
    if gs.len() > 0 {
        lemma_cell_count_uniform(gs.drop_last(), p);
        assert((gs.len() - 1) * p + p == gs.len() * p) by (nonlinear_arith);
    }
}

impl Font {
    /// Whether every glyph holds exactly `width * height` pixels.
    pub fn is_shaped(&self) -> (r: bool)
        ensures
            r == self.shaped(),
    {
        let ppg = self.pixels_per_glyph();
        let mut g: usize = 0;
        while g < self.glyphs.len()
            invariant
                g <= self.glyphs@.len(),
                ppg == self.spec_pixels_per_glyph(),
                forall|i: int| 0 <= i < g ==> (#[trigger] self.glyphs@[i])@.len() == ppg,
            decreases self.glyphs@.len() - g,
        {
            if self.glyphs[g].len() != ppg {
                return false;
            }
            g = g + 1;
        }
        true
    }

    /// Number of set (filled) pixel cells across every glyph.
    pub fn filled_pixels(&self) -> (r: usize)
        requires
            cell_count(self.glyph_views()) <= usize::MAX,
        ensures
            r == count_set_all(self.glyph_views()),
    {
        let ghost gs = self.glyph_views();
        let mut count: usize = 0;
        let mut g: usize = 0;
        while g < self.glyphs.len()
            invariant
                g <= self.glyphs@.len(),
                gs == self.glyph_views(),
                cell_count(gs) <= usize::MAX,
                count == count_set_all(gs.take(g as int)),
            decreases self.glyphs@.len() - g,
        {
            let glyph = &self.glyphs[g];
            proof {
                assert(gs[g as int] == glyph@);
                lemma_cell_count_prefix(gs, g + 1);
                lemma_count_all_step(gs, g as int);
                lemma_count_set_all_bound(gs.take(g as int));
            }
            let mut i: usize = 0;
            while i < glyph.len()
                invariant
                    i <= glyph@.len(),
                    g < gs.len(),
                    gs[g as int] == glyph@,
                    count_set_all(gs.take(g as int)) <= cell_count(gs.take(g as int)),
                    cell_count(gs.take(g as int)) + glyph@.len() <= usize::MAX,
                    count == count_set_all(gs.take(g as int)) + count_set(glyph@.take(i as int)),
                decreases glyph@.len() - i,
            {
                proof {
                    lemma_count_set_step(glyph@, i as int);
                    lemma_count_set_bound(glyph@.take(i as int));
                }
                if glyph[i] {
                    count = count + 1;
                }
                i = i + 1;
            }
            proof {
                assert(glyph@.take(i as int) =~= glyph@);
                lemma_count_all_step(gs, g as int);
            }
            g = g + 1;
        }
        proof {
            assert(gs.take(g as int) =~= gs);
        }
        count
    }
}

} // verus!
