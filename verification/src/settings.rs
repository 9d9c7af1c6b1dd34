//! The settings of the "New Font" dialog, and the summary shown after a save.
use vstd::prelude::*;

use crate::font::{ceil_div, Font};
use crate::text::char_string;

verus! {

/// Rust's `/` on signed integers: the quotient rounded toward zero (for `d > 0`).
pub open spec fn trunc_div(n: int, d: int) -> int {
    if n >= 0 {
        n / d
    } else {
        -((-n) / d)
    }
}

/// `v`, or 1 when `v` is below 1.
pub open spec fn at_least_one(v: int) -> int {
    if v < 1 {
        1
    } else {
        v
    }
}

/// Editable settings used to configure a new font before it is created.
pub struct NewFontSettings {
    pub width: i32,
    pub height: i32,
    pub glyphs_per_row: i32,
    pub first_glyph_str: String,
    pub total_glyphs: i32,
    pub column_major: bool,
}

impl Default for NewFontSettings {
    /// An 8×8 font of 26 glyphs from 'a', 16 per row, row-major.
    fn default() -> (s: Self)
        ensures
            s.width == 8,
            s.height == 8,
            s.glyphs_per_row == 16,
            s.first_glyph_str@ == seq!['a'],
            s.total_glyphs == 26,
            !s.column_major,
    {
        proof {
            reveal_strlit("a");
        }
        NewFontSettings {
            width: 8,
            height: 8,
            glyphs_per_row: 16,
            first_glyph_str: "a".to_string(),
            total_glyphs: 26,
            column_major: false,
        }
    }
}

impl NewFontSettings {
    /// The settings describe `font`.
    pub open spec fn describes(&self, font: &Font) -> bool {
        &&& self.width == font.width
        &&& self.height == font.height
        &&& self.glyphs_per_row == font.glyphs_per_row
        &&& self.first_glyph_str@ == seq![font.first_glyph as char]
        &&& self.total_glyphs == font.total_glyphs
        &&& self.column_major == font.column_major
    }

    /// The first glyph code the settings ask for: the first character of
    /// `first_glyph_str` when it is ASCII, and 'a' otherwise.
    pub open spec fn spec_first_glyph_byte(&self) -> u8 {
        let s = self.first_glyph_str@;
        if s.len() > 0 && (s[0] as u32) < 128 {
            s[0] as u8
        } else {
            97u8
        }
    }

    /// Settings that describe `font`.
    pub fn from_font(font: &Font) -> (s: Self)
        ensures
            s.describes(font),
    {
        NewFontSettings {
            width: font.width as i32,
            height: font.height as i32,
            glyphs_per_row: font.glyphs_per_row as i32,
            first_glyph_str: char_string(font.first_glyph as char),
            total_glyphs: font.total_glyphs as i32,
            column_major: font.column_major,
        }
    }

    /// The first glyph code: the first character of `first_glyph_str` when it
    /// is ASCII, and `b'a'` otherwise.
    pub fn first_glyph_byte(&self) -> (r: u8)
        ensures
            r == self.spec_first_glyph_byte(),
    {
        let s = self.first_glyph_str.as_str();
        if s.unicode_len() == 0 {
            return 97;
        }
        let c = s.get_char(0);
        if (c as u32) < 128 {
            c as u8
        } else {
            97
        }
    }

    /// Number of rows the new font would need (0 when `glyphs_per_row` is
    /// not positive).
    pub fn rows_preview(&self) -> (r: i32)
        requires
            self.glyphs_per_row <= 0 || self.total_glyphs + self.glyphs_per_row <= i32::MAX,
        ensures
            r == if self.glyphs_per_row <= 0 {
                0
            } else {
                trunc_div(self.total_glyphs + self.glyphs_per_row - 1, self.glyphs_per_row as int)
            },
    {
        if self.glyphs_per_row <= 0 {
            return 0;
        }
        (self.total_glyphs + self.glyphs_per_row - 1) / self.glyphs_per_row
    }

    /// `font` is the blank font these settings ask for: each dimension and
    /// count taken modulo its field's range and raised to at least 1.
    pub open spec fn builds(&self, font: &Font) -> bool {
        &&& font.width == at_least_one((self.width as u8) as int)
        &&& font.height == at_least_one((self.height as u8) as int)
        &&& font.glyphs_per_row == at_least_one((self.glyphs_per_row as u8) as int)
        &&& font.first_glyph == self.spec_first_glyph_byte()
        &&& font.total_glyphs == at_least_one((self.total_glyphs as u16) as int)
        &&& font.column_major == self.column_major
        &&& font.version == crate::font::FORMAT_VERSION
        &&& font.wf()
        &&& font.glyph_views() == Seq::new(
            font.total_glyphs as nat,
            |i: int| crate::font::blank_glyph((font.width * font.height) as nat),
        )
    }

    /// The blank font the settings describe; each dimension and count is
    /// taken modulo its field's range and raised to at least 1.
    pub fn build_font(&self) -> (font: Font)
        ensures
            self.builds(&font),
    {
        let w = self.width as u8;
        let h = self.height as u8;
        let per_row = self.glyphs_per_row as u8;
        let total = self.total_glyphs as u16;
        Font::new(
            if w < 1 { 1 } else { w },
            if h < 1 { 1 } else { h },
            if per_row < 1 { 1 } else { per_row },
            self.first_glyph_byte(),
            if total < 1 { 1 } else { total },
            self.column_major,
        )
    }
}

/// Snapshot of the font and file details captured at the moment of a
/// successful save, so later edits don't change what the summary reports.
pub struct SaveSummary<P> {
    pub path: P,
    pub file_size: usize,
    pub data_size: usize,
    pub bytes_per_glyph: usize,
    pub width: u8,
    pub height: u8,
    pub glyphs_per_row: u8,
    pub rows: u16,
    pub total_glyphs: u16,
    pub first_glyph: u8,
    pub column_major: bool,
}

impl<P> SaveSummary<P> {
    /// This is the summary of saving `font` to `path`.
    pub open spec fn summarizes(&self, font: &Font, path: P) -> bool {
        &&& self.path == path
        &&& self.data_size == ceil_div(font.width * font.height * font.total_glyphs, 8)
        &&& self.file_size == 12 + self.data_size
        &&& self.bytes_per_glyph == ceil_div(font.width * font.height, 8)
        &&& self.width == font.width
        &&& self.height == font.height
        &&& self.glyphs_per_row == font.glyphs_per_row
        &&& self.rows == if font.glyphs_per_row == 0 {
            0
        } else {
            ceil_div(font.total_glyphs as int, font.glyphs_per_row as int)
        }
        &&& self.total_glyphs == font.total_glyphs
        &&& self.first_glyph == font.first_glyph
        &&& self.column_major == font.column_major
    }

    /// The summary of saving `font` to `path`.
    pub fn from_font(font: &Font, path: P) -> (s: Self)
        ensures
            s.summarizes(font, path),
    {
        SaveSummary {
            path,
            file_size: font.file_size(),
            data_size: font.data_size(),
            bytes_per_glyph: font.bytes_per_glyph(),
            width: font.width,
            height: font.height,
            glyphs_per_row: font.glyphs_per_row,
            rows: font.rows(),
            total_glyphs: font.total_glyphs,
            first_glyph: font.first_glyph,
            column_major: font.column_major,
        }
    }
}

} // verus!
