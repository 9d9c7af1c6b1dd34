//! The binary font file format.
//!
//! ```text
//! Offset  Size  Description
//!      0     4  Magic bytes "FNT\0"
//!      4     1  Glyph width in pixels  (1-255)
//!      5     1  Glyph height in pixels (1-255)
//!      6     1  Glyphs per row         (1-255)
//!      7     1  First glyph ASCII code
//!      8     2  Total number of glyphs (little-endian)
//!     10     1  Flags: bit 0 set = column-major
//!     11     1  Format version (current: 1)
//!     12+    N  Glyph pixel data
//! ```
//!
//! Pixels are packed least-significant bit first.  Version 1 packs every
//! glyph's bits into one continuous stream padded once at the end; version 0
//! (still readable) pads each glyph to a whole number of bytes.
use vstd::prelude::*;

use crate::font::{ceil_div, glyph_seqs, Font, FLAG_COLUMN_MAJOR, FORMAT_VERSION, HEADER_SIZE, MAGIC};
use crate::grid::lemma_glyph_area;
use vstd::arithmetic::div_mod::lemma_fundamental_div_mod_converse;
use crate::text::{decimal, push_decimal};

verus! {

/// Why a byte string is not a font file this library can read.
#[derive(Clone, Copy, Debug, PartialEq, Eq)]
pub enum LoadError {
    /// The bytes end before the header or the pixel data does.
    Truncated,
    /// The file does not start with the magic bytes.
    BadMagic,
    /// The file was written by a newer format version (the one given).
    UnsupportedVersion(u8),
    /// The glyph width or height is zero.
    ZeroDimension,
    /// The number of glyphs per row is zero.
    ZeroGlyphsPerRow,
}

/// What the user is told when a file cannot be read as a font.
pub open spec fn load_error_message(e: LoadError) -> Seq<char> {
    match e {
        LoadError::Truncated => "failed to fill whole buffer"@,
        LoadError::BadMagic => "not a valid font file (bad magic bytes)"@,
        LoadError::UnsupportedVersion(v) => "unsupported font format version "@ + decimal(v as nat)
            + " (this build supports up to "@ + decimal(FORMAT_VERSION as nat) + ")"@,
        LoadError::ZeroDimension => "glyph dimensions must be at least 1×1"@,
        LoadError::ZeroGlyphsPerRow => "glyphs per row must be at least 1"@,
    }
}

impl LoadError {
    /// The message that explains the error to the user.
    pub fn message(&self) -> (m: String)
        ensures
            m@ == load_error_message(*self),
    {
        match self {
            LoadError::Truncated => String::from_str("failed to fill whole buffer"),
            LoadError::BadMagic => String::from_str("not a valid font file (bad magic bytes)"),
            LoadError::UnsupportedVersion(v) => {
                let mut m = String::from_str("unsupported font format version ");
                push_decimal(&mut m, *v as u32);
                m.append(" (this build supports up to ");
                push_decimal(&mut m, FORMAT_VERSION as u32);
                m.append(")");
                m
            },
            LoadError::ZeroDimension => String::from_str("glyph dimensions must be at least 1×1"),
            LoadError::ZeroGlyphsPerRow => String::from_str("glyphs per row must be at least 1"),
        }
    }
}

/// Bit `b` of a bit stream; every position outside the stream reads as clear.
pub open spec fn stream_bit(bits: Seq<bool>, b: int) -> bool {
    0 <= b < bits.len() && bits[b]
}

/// The byte with only bit `j` set when `on`, and zero otherwise.
pub open spec fn bit_mask(on: bool, j: u8) -> u8 {
    if on {
        1u8 << j
    } else {
        0u8
    }
}

/// The byte whose bit `j` is stream bit `start + j`, for `j < n`, and whose
/// other bits are clear.
pub open spec fn byte_bits(bits: Seq<bool>, start: int, n: nat) -> u8
    decreases n,
{
    if n == 0 {
        0u8
    } else {
        byte_bits(bits, start, (n - 1) as nat) | bit_mask(stream_bit(bits, start + n - 1), (n - 1) as u8)
    }
}

/// Byte `k` of a bit stream packed least-significant bit first.
pub open spec fn packed_byte(bits: Seq<bool>, k: int) -> u8 {
    byte_bits(bits, 8 * k, 8)
}

/// The first `n` bytes of a bit stream packed least-significant bit first
/// (bits past the end of the stream are clear).
pub open spec fn pack_bits(bits: Seq<bool>, n: nat) -> Seq<u8> {
    Seq::new(n, |k: int| packed_byte(bits, k))
}

/// Whether bit `j` of `byte` is set.
pub open spec fn byte_bit(byte: u8, j: int) -> bool {
    byte & (1u8 << (j as u8)) != 0
}

/// The pixel stream of a list of glyphs: the first `ppg` pixels of every
/// glyph (missing ones clear), glyph after glyph.
pub open spec fn pixel_stream(gs: Seq<Seq<bool>>, ppg: nat) -> Seq<bool> {
    Seq::new(
        gs.len() * ppg,
        |b: int| {
            let g = b / (ppg as int);
            let i = b % (ppg as int);
            i < gs[g].len() && gs[g][i]
        },
    )
}

/// Length of the glyph data that follows the header, by format version.
pub open spec fn data_len(version: u8, ppg: nat, total: nat) -> nat {
    if version == 0 {
        total * (ceil_div(ppg as int, 8) as nat)
    } else {
        ceil_div((total * ppg) as int, 8) as nat
    }
}

/// The glyph count stored at offsets 8 and 9 (little-endian).
pub open spec fn header_total(bytes: Seq<u8>) -> nat {
    (bytes[8] + 256 * bytes[9]) as nat
}

/// The pixel count per glyph stored in a header.
pub open spec fn header_pixels(bytes: Seq<u8>) -> nat {
    (bytes[4] * bytes[5]) as nat
}

/// Why `bytes` cannot be read as a font, or `None` when it can.
pub open spec fn load_error(bytes: Seq<u8>) -> Option<LoadError> {
    if bytes.len() < HEADER_SIZE {
        Some(LoadError::Truncated)
    } else if bytes.subrange(0, 4) != MAGIC@ {
        Some(LoadError::BadMagic)
    } else if bytes[11] > FORMAT_VERSION {
        Some(LoadError::UnsupportedVersion(bytes[11]))
    } else if bytes[4] == 0 || bytes[5] == 0 {
        Some(LoadError::ZeroDimension)
    } else if bytes[6] == 0 {
        Some(LoadError::ZeroGlyphsPerRow)
    } else if bytes.len() < HEADER_SIZE + data_len(bytes[11], header_pixels(bytes), header_total(bytes)) {
        Some(LoadError::Truncated)
    } else {
        None
    }
}

/// Pixel `i` of glyph `g` in version-1 glyph data: bit `g * ppg + i` of the stream.
pub open spec fn v1_pixel(data: Seq<u8>, ppg: nat, g: int, i: int) -> bool {
    let b = g * ppg + i;
    byte_bit(data[b / 8], b % 8)
}

/// Pixel `i` of glyph `g` in version-0 glyph data: every glyph starts on a
/// fresh byte.
pub open spec fn v0_pixel(data: Seq<u8>, ppg: nat, g: int, i: int) -> bool {
    byte_bit(data[g * ceil_div(ppg as int, 8) + i / 8], i % 8)
}

/// The glyphs stored in a font file.
pub open spec fn decoded_glyphs(bytes: Seq<u8>) -> Seq<Seq<bool>> {
    let ppg = header_pixels(bytes);
    let data = bytes.skip(HEADER_SIZE as int);
    Seq::new(
        header_total(bytes),
        |g: int|
            Seq::new(
                ppg,
                |i: int|
                    if bytes[11] == 0 {
                        v0_pixel(data, ppg, g, i)
                    } else {
                        v1_pixel(data, ppg, g, i)
                    },
            ),
    )
}

/// Version-0 glyph data of the glyphs `gs`: the first `ppg` pixels of every
/// glyph packed on a whole number of bytes of its own.
pub open spec fn legacy_data(gs: Seq<Seq<bool>>, ppg: nat) -> Seq<u8> {
    let bpg = ceil_div(ppg as int, 8) as nat;
    Seq::new(gs.len() * bpg, |k: int| packed_byte(gs[k / (bpg as int)].take(ppg as int), k % (bpg as int)))
}

impl Font {
    /// This font is the one read from the font file `bytes`.
    pub open spec fn loaded_from(&self, bytes: Seq<u8>) -> bool {
        &&& self.wf()
        &&& self.width == bytes[4]
        &&& self.height == bytes[5]
        &&& self.glyphs_per_row == bytes[6]
        &&& self.first_glyph == bytes[7]
        &&& self.total_glyphs == header_total(bytes)
        &&& self.column_major == (bytes[10] & FLAG_COLUMN_MAJOR != 0)
        &&& self.version == bytes[11]
        &&& self.glyph_views() == decoded_glyphs(bytes)
    }

    /// The file a version-0 writer would have produced for this font.
    pub open spec fn legacy_encoding(&self) -> Seq<u8> {
        self.header_bytes().update(11, 0u8) + legacy_data(self.glyph_views(), self.spec_pixels_per_glyph())
    }

    /// Size of the version-1 glyph data in bytes.
    pub open spec fn spec_data_size(&self) -> nat {
        ceil_div((self.width * self.height * self.total_glyphs) as int, 8) as nat
    }

    /// The twelve header bytes that [`Font::save`] writes.
    pub open spec fn header_bytes(&self) -> Seq<u8> {
        MAGIC@ + seq![
            self.width,
            self.height,
            self.glyphs_per_row,
            self.first_glyph,
            (self.total_glyphs % 256) as u8,
            (self.total_glyphs / 256) as u8,
            if self.column_major { FLAG_COLUMN_MAJOR } else { 0u8 },
            FORMAT_VERSION,
        ]
    }

    /// The pixel stream that [`Font::save`] packs.
    pub open spec fn stream(&self) -> Seq<bool> {
        pixel_stream(self.glyph_views(), self.spec_pixels_per_glyph())
    }

    /// The complete file that [`Font::save`] writes.
    pub open spec fn encoding(&self) -> Seq<u8> {
        self.header_bytes() + pack_bits(self.stream(), self.spec_data_size())
    }

    /// Every set pixel of the stream falls inside the data bytes (all of
    /// them do whenever no more than `total_glyphs` glyphs are stored).
    pub open spec fn savable(&self) -> bool {
        forall|b: int|
            0 <= b < self.stream().len() && #[trigger] self.stream()[b] ==> b < 8 * self.spec_data_size()
    }
}


/// `b` stays below `n * d` exactly when `b / d` stays below `n`.
proof fn lemma_quotient_below(b: int, n: int, d: int)
    requires
        0 <= b,
        0 <= n,
        0 < d,
    ensures
        b < n * d <==> b / d < n,
        0 <= b / d,
        0 <= b % d < d,
{
    assert((b < n * d <==> b / d < n) && 0 <= b / d && 0 <= b % d < d) by (nonlinear_arith)
        requires
            0 <= b,
            0 <= n,
            0 < d,
    ;
}

/// The glyph data of a font is at most 65025 × 65535 bits.
proof fn lemma_data_bits_bound(w: u8, h: u8, total: u16)
    ensures
        0 <= w * h * total <= 65025 * 65535,
{
    lemma_glyph_area(w, h);
    assert(0 <= (w * h) * total <= 65025 * 65535) by (nonlinear_arith)
        requires
            0 <= w * h <= 65025,
            total <= 65535,
    ;
}

impl Font {
    /// Bit `b` of the pixel stream, for `b` below the stream's length.
    fn stream_bit_at(&self, b: u64, ppg: u64) -> (r: bool)
        requires
            ppg == self.spec_pixels_per_glyph(),
            b < self.glyphs@.len() * ppg,
        ensures
            r == stream_bit(self.stream(), b as int),
    {
        let n = self.glyphs.len();
        proof {
            lemma_quotient_below(b as int, n as int, ppg as int);
            lemma_glyph_area(self.width, self.height);
        }
        let g = (b / ppg) as usize;
        let i = (b % ppg) as usize;
        let glyph = &self.glyphs[g];
        let r = i < glyph.len() && glyph[i];
        proof {
            let gs = self.glyph_views();
            assert(g as int == b as int / ppg as int);
            assert(i as int == b as int % ppg as int);
            assert(gs[g as int] == glyph@);
            assert(self.stream().len() == self.glyphs@.len() * ppg);
            assert(self.stream()[b as int] == (i < gs[g as int].len() && gs[g as int][i as int]));
        }
        r
    }

    /// Serialise the font in the binary file format (always the current
    /// version), appending the bytes to `out`.
    pub fn save(&self, out: &mut Vec<u8>)
        requires
            self.savable(),
        ensures
            final(out)@ == old(out)@ + self.encoding(),
    {
        let ghost start = out@;
        out.push(MAGIC[0]);
        out.push(MAGIC[1]);
        out.push(MAGIC[2]);
        out.push(MAGIC[3]);
        out.push(self.width);
        out.push(self.height);
        out.push(self.glyphs_per_row);
        out.push(self.first_glyph);
        let total = self.total_glyphs;
        out.push((total & 0xff) as u8);
        out.push((total >> 8) as u8);
        let flags: u8 = if self.column_major {
            FLAG_COLUMN_MAJOR
        } else {
            0
        };
        out.push(flags);
        out.push(FORMAT_VERSION);
        proof {
            assert((total & 0xff) as u8 == (total % 256) as u8 && (total >> 8) as u8 == (total / 256) as u8)
                by (bit_vector);
            assert(out@ =~= start + self.header_bytes());
            lemma_glyph_area(self.width, self.height);
            lemma_data_bits_bound(self.width, self.height, self.total_glyphs);
        }
        // Glyph pixel data (version 1): every glyph's bits concatenated into
        // one continuous stream, packed least-significant bit first.
        let ppg: u64 = (self.width as u64) * (self.height as u64);
        let total_bits: u64 = ppg * (total as u64);
        let nbytes: usize = ((total_bits + 7) / 8) as usize;
        let glyph_count = self.glyphs.len() as u64;
        let ghost stream = self.stream();
        let mut k: usize = 0;
        while k < nbytes
            invariant
                k <= nbytes,
                nbytes == self.spec_data_size(),
                ppg == self.spec_pixels_per_glyph(),
                glyph_count == self.glyphs@.len(),
                nbytes <= 0x2000_0000,
                stream == self.stream(),
                out@ == start + self.header_bytes() + pack_bits(stream, k as nat),
            decreases nbytes - k,
        {
            let mut byte: u8 = 0;
            let mut j: u8 = 0;
            while j < 8
                invariant
                    j <= 8,
                    k < nbytes,
                    nbytes == self.spec_data_size(),
                    ppg == self.spec_pixels_per_glyph(),
                    glyph_count == self.glyphs@.len(),
                    nbytes <= 0x2000_0000,
                    stream == self.stream(),
                    byte == byte_bits(stream, 8 * k, j as nat),
                decreases 8 - j,
            {
                let b: u64 = 8 * (k as u64) + (j as u64);
                proof {
                    if ppg > 0 {
                        lemma_quotient_below(b as int, glyph_count as int, ppg as int);
                    }
                }
                let on = ppg > 0 && b / ppg < glyph_count && self.stream_bit_at(b, ppg);
                let mask: u8 = if on {
                    1u8 << j
                } else {
                    0
                };
                byte = byte | mask;
                j = j + 1;
            }
            out.push(byte);
            proof {
                assert(pack_bits(stream, (k + 1) as nat) =~= pack_bits(stream, k as nat).push(byte));
            }
            k = k + 1;
        }
    }
}


/// A stream position inside glyph `g` lies before the end of the stream,
/// and so does the byte that holds it.
pub(crate) proof fn lemma_stream_position(g: int, i: int, ppg: int, total: int)
    requires
        0 <= g < total,
        0 <= i < ppg,
    ensures
        0 <= g * ppg + i < total * ppg,
        0 <= (g * ppg + i) / 8 < ceil_div(total * ppg, 8),
{
    assert(0 <= g * ppg + i < total * ppg) by (nonlinear_arith)
        requires
            0 <= g < total,
            0 <= i < ppg,
    ;
    let b = g * ppg + i;
    let n = total * ppg;
    assert(0 <= b / 8 < (n + 7) / 8) by (nonlinear_arith)
        requires
            0 <= b < n,
    ;
}

/// `g * ppg + ppg == (g + 1) * ppg`.
proof fn lemma_next_glyph_start(g: int, ppg: int)
    ensures
        g * ppg + ppg == (g + 1) * ppg,
{
    assert(g * ppg + ppg == (g + 1) * ppg) by (nonlinear_arith);
}

/// The glyph data of a font is at most 65535 glyphs of 65025 bits.
proof fn lemma_total_bits(total: int, ppg: int)
    requires
        0 <= total <= 65535,
        0 <= ppg <= 65025,
    ensures
        0 <= total * ppg <= 65535 * 65025,
{
    assert(0 <= total * ppg <= 65535 * 65025) by (nonlinear_arith)
        requires
            0 <= total <= 65535,
            0 <= ppg <= 65025,
    ;
}

impl Font {
    /// Read version-1 glyph data (all glyph bits packed contiguously) from the
    /// bytes that follow the header.
    fn read_glyphs_v1(bytes: &[u8], ppg: usize, total: u16) -> (glyphs: Vec<Vec<bool>>)
        requires
            ppg <= 65025,
            HEADER_SIZE + ceil_div(total * ppg, 8) <= bytes@.len(),
        ensures
            glyph_seqs(glyphs@) == Seq::new(
                total as nat,
                |g: int| Seq::new(ppg as nat, |i: int| v1_pixel(bytes@.skip(HEADER_SIZE as int), ppg as nat, g, i)),
            ),
    {
        let ghost data = bytes@.skip(HEADER_SIZE as int);
        let ghost want = Seq::new(
            total as nat,
            |g: int| Seq::new(ppg as nat, |i: int| v1_pixel(data, ppg as nat, g, i)),
        );
        proof {
            lemma_total_bits(total as int, ppg as int);
        }
        let mut glyphs: Vec<Vec<bool>> = Vec::new();
        let mut bit: u64 = 0;
        let mut g: u16 = 0;
        while g < total
            invariant
                g <= total,
                ppg <= 65025,
                total * ppg <= 65535 * 65025,
                HEADER_SIZE + ceil_div(total * ppg, 8) <= bytes@.len(),
                data == bytes@.skip(HEADER_SIZE as int),
                want == Seq::new(
                    total as nat,
                    |g: int| Seq::new(ppg as nat, |i: int| v1_pixel(data, ppg as nat, g, i)),
                ),
                bit == g * ppg,
                glyph_seqs(glyphs@) == want.take(g as int),
            decreases total - g,
        {
            let mut pixels: Vec<bool> = Vec::new();
            let mut i: usize = 0;
            while i < ppg
                invariant
                    g < total,
                    i <= ppg,
                    ppg <= 65025,
                    total * ppg <= 65535 * 65025,
                    HEADER_SIZE + ceil_div(total * ppg, 8) <= bytes@.len(),
                    data == bytes@.skip(HEADER_SIZE as int),
                    bit == g * ppg + i,
                    pixels@ == Seq::new(i as nat, |i: int| v1_pixel(data, ppg as nat, g as int, i)),
                    want == Seq::new(
                        total as nat,
                        |g: int| Seq::new(ppg as nat, |i: int| v1_pixel(data, ppg as nat, g, i)),
                    ),
                    glyph_seqs(glyphs@) == want.take(g as int),
                decreases ppg - i,
            {
                proof {
                    lemma_stream_position(g as int, i as int, ppg as int, total as int);
                }
                let byte = bytes[HEADER_SIZE + (bit / 8) as usize];
                pixels.push(byte & (1u8 << ((bit % 8) as u8)) != 0);
                proof {
                    assert(pixels@ =~= Seq::new(
                        (i + 1) as nat,
                        |i: int| v1_pixel(data, ppg as nat, g as int, i),
                    ));
                }
                bit = bit + 1;
                i = i + 1;
            }
            proof {
                lemma_next_glyph_start(g as int, ppg as int);
                assert(pixels@ =~= want[g as int]);
            }
            let ghost before = glyphs@;
            assert(glyph_seqs(before).len() == before.len());
            assert(before.len() == g);
            glyphs.push(pixels);
            proof {
                assert forall|j: int| 0 <= j < g + 1 implies #[trigger] glyph_seqs(glyphs@)[j] == want.take(
                    g + 1,
                )[j] by {
                    if j < g {
                        assert(glyphs@[j] == before[j]);
                        assert(glyph_seqs(before)[j] == want.take(g as int)[j]);
                    }
                }
                assert(glyph_seqs(glyphs@) =~= want.take(g + 1));
            }
            g = g + 1;
        }
        proof {
            assert(want.take(total as int) =~= want);
        }
        glyphs
    }
}


/// A pixel of glyph `g` in version-0 data lies in that glyph's bytes, before
/// the end of the data.
pub(crate) proof fn lemma_v0_position(g: int, i: int, ppg: int, bpg: int, total: int)
    requires
        0 <= g < total,
        0 <= i < ppg,
        bpg == ceil_div(ppg, 8),
    ensures
        0 <= i / 8 < bpg,
        0 <= g * bpg + i / 8 < total * bpg,
{
    assert(0 <= i / 8 < (ppg + 7) / 8) by (nonlinear_arith)
        requires
            0 <= i < ppg,
    ;
    assert(0 <= g * bpg + i / 8 < total * bpg) by (nonlinear_arith)
        requires
            0 <= g < total,
            0 <= i / 8 < bpg,
    ;
}

impl Font {
    /// Read version-0 glyph data (each glyph padded to a whole number of bytes)
    /// from the bytes that follow the header.
    fn read_glyphs_v0(bytes: &[u8], ppg: usize, total: u16) -> (glyphs: Vec<Vec<bool>>)
        requires
            ppg <= 65025,
            HEADER_SIZE + total * ceil_div(ppg as int, 8) <= bytes@.len(),
        ensures
            glyph_seqs(glyphs@) == Seq::new(
                total as nat,
                |g: int| Seq::new(ppg as nat, |i: int| v0_pixel(bytes@.skip(HEADER_SIZE as int), ppg as nat, g, i)),
            ),
    {
        let ghost data = bytes@.skip(HEADER_SIZE as int);
        let ghost want = Seq::new(
            total as nat,
            |g: int| Seq::new(ppg as nat, |i: int| v0_pixel(data, ppg as nat, g, i)),
        );
        let bytes_per_glyph: usize = (ppg + 7) / 8;
        let len = bytes.len();
        let mut glyphs: Vec<Vec<bool>> = Vec::new();
        let mut start: usize = HEADER_SIZE;
        let mut g: u16 = 0;
        while g < total
            invariant
                g <= total,
                ppg <= 65025,
                bytes_per_glyph == ceil_div(ppg as int, 8),
                len == bytes@.len(),
                HEADER_SIZE + total * bytes_per_glyph <= bytes@.len(),
                data == bytes@.skip(HEADER_SIZE as int),
                want == Seq::new(
                    total as nat,
                    |g: int| Seq::new(ppg as nat, |i: int| v0_pixel(data, ppg as nat, g, i)),
                ),
                start == HEADER_SIZE + g * bytes_per_glyph,
                glyph_seqs(glyphs@) == want.take(g as int),
            decreases total - g,
        {
            let mut pixels: Vec<bool> = Vec::new();
            let mut i: usize = 0;
            while i < ppg
                invariant
                    g < total,
                    i <= ppg,
                    ppg <= 65025,
                    bytes_per_glyph == ceil_div(ppg as int, 8),
                    len == bytes@.len(),
                    HEADER_SIZE + total * bytes_per_glyph <= bytes@.len(),
                    data == bytes@.skip(HEADER_SIZE as int),
                    start == HEADER_SIZE + g * bytes_per_glyph,
                    pixels@ == Seq::new(i as nat, |i: int| v0_pixel(data, ppg as nat, g as int, i)),
                    want == Seq::new(
                        total as nat,
                        |g: int| Seq::new(ppg as nat, |i: int| v0_pixel(data, ppg as nat, g, i)),
                    ),
                    glyph_seqs(glyphs@) == want.take(g as int),
                decreases ppg - i,
            {
                proof {
                    lemma_v0_position(g as int, i as int, ppg as int, bytes_per_glyph as int, total as int);
                }
                let byte = bytes[start + i / 8];
                pixels.push(byte & (1u8 << ((i % 8) as u8)) != 0);
                proof {
                    assert(pixels@ =~= Seq::new(
                        (i + 1) as nat,
                        |i: int| v0_pixel(data, ppg as nat, g as int, i),
                    ));
                }
                i = i + 1;
            }
            proof {
                lemma_next_glyph_start(g as int, bytes_per_glyph as int);
                assert((g + 1) * bytes_per_glyph <= total * bytes_per_glyph) by (nonlinear_arith)
                    requires
                        g < total,
                        0 <= bytes_per_glyph,
                ;
                assert(pixels@ =~= want[g as int]);
            }
            let ghost before = glyphs@;
            assert(glyph_seqs(before).len() == before.len());
            assert(before.len() == g);
            glyphs.push(pixels);
            proof {
                assert forall|j: int| 0 <= j < g + 1 implies #[trigger] glyph_seqs(glyphs@)[j] == want.take(
                    g + 1,
                )[j] by {
                    if j < g {
                        assert(glyphs@[j] == before[j]);
                        assert(glyph_seqs(before)[j] == want.take(g as int)[j]);
                    }
                }
                assert(glyph_seqs(glyphs@) =~= want.take(g + 1));
            }
            start = start + bytes_per_glyph;
            g = g + 1;
        }
        proof {
            assert(want.take(total as int) =~= want);
        }
        glyphs
    }
}


impl Font {
    /// Deserialise a font from the bytes of a font file.  Bytes after the
    /// glyph data are ignored.
    pub fn load(bytes: &[u8]) -> (r: Result<Font, LoadError>)
        ensures
            match r {
                Ok(font) => load_error(bytes@) is None && font.loaded_from(bytes@),
                Err(e) => load_error(bytes@) == Some(e),
            },
    {
        if bytes.len() < HEADER_SIZE {
            return Err(LoadError::Truncated);
        }
        if bytes[0] != MAGIC[0] || bytes[1] != MAGIC[1] || bytes[2] != MAGIC[2] || bytes[3] != MAGIC[3] {
            proof {
                let head = bytes@.subrange(0, 4);
                if head == MAGIC@ {
                    assert(head[0] == MAGIC@[0] && head[1] == MAGIC@[1] && head[2] == MAGIC@[2] && head[3]
                        == MAGIC@[3]);
                }
            }
            return Err(LoadError::BadMagic);
        }
        assert(bytes@.subrange(0, 4) =~= MAGIC@);
        let width = bytes[4];
        let height = bytes[5];
        let glyphs_per_row = bytes[6];
        let first_glyph = bytes[7];
        let total_glyphs: u16 = (bytes[8] as u16) + (bytes[9] as u16) * 256;
        let flags = bytes[10];
        let column_major = (flags & FLAG_COLUMN_MAJOR) != 0;
        let version = bytes[11];

        // Refuse files written by a newer format than this library understands.
        if version > FORMAT_VERSION {
            return Err(LoadError::UnsupportedVersion(version));
        }
        if width == 0 || height == 0 {
            return Err(LoadError::ZeroDimension);
        }
        if glyphs_per_row == 0 {
            return Err(LoadError::ZeroGlyphsPerRow);
        }
        proof {
            lemma_glyph_area(width, height);
            lemma_total_bits(total_glyphs as int, (width * height) as int);
        }
        let pixels_per_glyph: usize = (width as usize) * (height as usize);
        let ppg = pixels_per_glyph as u64;
        assert(total_glyphs * ((ppg + 7) / 8) <= 65535 * 8129) by (nonlinear_arith)
            requires
                total_glyphs <= 65535,
                ppg <= 65025,
        ;
        let needed: u64 = if version == 0 {
            (total_glyphs as u64) * ((ppg + 7) / 8)
        } else {
            ((total_glyphs as u64) * ppg + 7) / 8
        };
        proof {
            assert(needed == data_len(version, header_pixels(bytes@), header_total(bytes@))) by (nonlinear_arith)
                requires
                    needed == (if version == 0 {
                        (total_glyphs as u64) * ((ppg + 7) / 8)
                    } else {
                        ((total_glyphs as u64) * ppg + 7) / 8
                    }),
                    ppg == header_pixels(bytes@),
                    total_glyphs == header_total(bytes@),
                    version <= 1,
            ;
        }
        if ((bytes.len() - HEADER_SIZE) as u64) < needed {
            return Err(LoadError::Truncated);
        }
        let glyphs = if version == 0 {
            Self::read_glyphs_v0(bytes, pixels_per_glyph, total_glyphs)
        } else {
            Self::read_glyphs_v1(bytes, pixels_per_glyph, total_glyphs)
        };
        let font = Font {
            width,
            height,
            glyphs_per_row,
            first_glyph,
            total_glyphs,
            column_major,
            version,
            glyphs,
        };
        proof {
            let want = decoded_glyphs(bytes@);
            assert(header_pixels(bytes@) == pixels_per_glyph);
            assert(header_total(bytes@) == total_glyphs);
            assert forall|g: int| 0 <= g < total_glyphs implies #[trigger] font.glyph_views()[g] == want[g] by {
                assert(font.glyph_views()[g] =~= want[g]);
            }
            assert(font.glyph_views() =~= want);
            assert forall|i: int| 0 <= i < font.glyphs@.len() implies (#[trigger] font.glyphs@[i])@.len()
                == font.spec_pixels_per_glyph() by {
                assert(font.glyph_views()[i] == font.glyphs@[i]@);
            }
        }
        Ok(font)
    }
}

impl Font {
    /// Whether every set pixel of the stream falls inside the data bytes,
    /// that is, whether [`Font::save`] can write this font.
    pub fn is_savable(&self) -> (r: bool)
        ensures
            r == self.savable(),
    {
        let ppg = self.pixels_per_glyph() as u64;
        let cap: u64 = 8 * (self.data_size() as u64);
        let ghost stream = self.stream();
        proof {
            lemma_glyph_area(self.width, self.height);
        }
        if ppg == 0 {
            assert(stream.len() == 0);
            return true;
        }
        // `start` is the stream position of glyph `g`'s first pixel, capped at `cap`.
        let mut start: u64 = 0;
        let mut g: usize = 0;
        while g < self.glyphs.len()
            invariant
                g <= self.glyphs@.len(),
                0 < ppg <= 65025,
                ppg == self.spec_pixels_per_glyph(),
                cap <= 0x1_0000_0000,
                cap == 8 * self.spec_data_size(),
                stream == self.stream(),
                start == if g * ppg < cap { g * ppg } else { cap as int },
                forall|b: int| 0 <= b < g * ppg && #[trigger] stream[b] ==> b < cap,
            decreases self.glyphs@.len() - g,
        {
            let glyph = &self.glyphs[g];
            let n = if glyph.len() < ppg as usize { glyph.len() } else { ppg as usize };
            let mut i: usize = 0;
            while i < n
                invariant
                    g < self.glyphs@.len(),
                    glyph == self.glyphs@[g as int],
                    n <= glyph@.len(),
                    n <= ppg,
                    n == glyph@.len() || n == ppg,
                    i <= n,
                    0 < ppg <= 65025,
                    ppg == self.spec_pixels_per_glyph(),
                    cap <= 0x1_0000_0000,
                    cap == 8 * self.spec_data_size(),
                    stream == self.stream(),
                    start == if g * ppg < cap { g * ppg } else { cap as int },
                    forall|b: int| 0 <= b < g * ppg + i && #[trigger] stream[b] ==> b < cap,
                decreases n - i,
            {
                proof {
                    lemma_stream_index(self.glyph_views(), ppg as nat, g as int, i as int);
                    assert(self.glyph_views()[g as int] == glyph@);
                }
                if glyph[i] && start + (i as u64) >= cap {
                    return false;
                }
                proof {
                    assert forall|b: int| 0 <= b < g * ppg + i + 1 && #[trigger] stream[b] implies b < cap by {
                        if b == g * ppg + i {
                        }
                    }
                }
                i = i + 1;
            }
            proof {
                lemma_next_glyph_start(g as int, ppg as int);
                assert forall|b: int| 0 <= b < (g + 1) * ppg && #[trigger] stream[b] implies b < cap by {
                    if b >= g * ppg + n {
                        lemma_stream_index(self.glyph_views(), ppg as nat, g as int, b - g * ppg);
                        assert(self.glyph_views()[g as int] == glyph@);
                    }
                }
            }
            start = if start + ppg >= cap { cap } else { start + ppg };
            g = g + 1;
        }
        proof {
            assert(stream.len() == self.glyphs@.len() * ppg);
        }
        true
    }
}

/// Stream position `g * ppg + i` holds pixel `i` of glyph `g`.
pub(crate) proof fn lemma_stream_index(gs: Seq<Seq<bool>>, ppg: nat, g: int, i: int)
    requires
        0 <= g < gs.len(),
        0 <= i < ppg,
    ensures
        0 <= g * ppg + i < pixel_stream(gs, ppg).len(),
        pixel_stream(gs, ppg)[g * ppg + i] == (i < gs[g].len() && gs[g][i]),
{
    lemma_stream_position(g, i, ppg as int, gs.len() as int);
    lemma_fundamental_div_mod_converse(g * ppg + i, ppg as int, g, i);
}

/// Bit `j` of the packed byte is stream bit `start + j`.
pub(crate) proof fn lemma_byte_bits_bit(bits: Seq<bool>, start: int, j: int)
    requires
        0 <= j < 8,
    ensures
        byte_bit(byte_bits(bits, start, 8), j) == stream_bit(bits, start + j),
{
    reveal_with_fuel(byte_bits, 9);
    let s0 = stream_bit(bits, start);
    let s1 = stream_bit(bits, start + 1);
    let s2 = stream_bit(bits, start + 2);
    let s3 = stream_bit(bits, start + 3);
    let s4 = stream_bit(bits, start + 4);
    let s5 = stream_bit(bits, start + 5);
    let s6 = stream_bit(bits, start + 6);
    let s7 = stream_bit(bits, start + 7);
    let jj = j as u8;
    assert(byte_bits(bits, start, 8) == bit_mask(s0, 0) | bit_mask(s1, 1) | bit_mask(s2, 2) | bit_mask(
        s3,
        3,
    ) | bit_mask(s4, 4) | bit_mask(s5, 5) | bit_mask(s6, 6) | bit_mask(s7, 7)) by {
        assert(0u8 | bit_mask(s0, 0) == bit_mask(s0, 0)) by (bit_vector);
    }
    assert(jj < 8 ==> (((if s0 { 1u8 << 0u8 } else { 0u8 }) | (if s1 { 1u8 << 1u8 } else { 0u8 }) | (
    if s2 {
        1u8 << 2u8
    } else {
        0u8
    }) | (if s3 { 1u8 << 3u8 } else { 0u8 }) | (if s4 { 1u8 << 4u8 } else { 0u8 }) | (if s5 {
        1u8 << 5u8
    } else {
        0u8
    }) | (if s6 { 1u8 << 6u8 } else { 0u8 }) | (if s7 { 1u8 << 7u8 } else { 0u8 })) & (1u8 << jj)
        != 0) == ((jj == 0 && s0) || (jj == 1 && s1) || (jj == 2 && s2) || (jj == 3 && s3) || (jj
        == 4 && s4) || (jj == 5 && s5) || (jj == 6 && s6) || (jj == 7 && s7))) by (bit_vector);
}

} // verus!
