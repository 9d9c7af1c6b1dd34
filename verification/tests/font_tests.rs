use font_maker::font::{Font, FLAG_COLUMN_MAJOR, FORMAT_VERSION, HEADER_SIZE, MAGIC};

/// Create a minimal font, serialise it, then deserialise and compare.
#[test]
fn round_trip_empty_font() {
    let original = Font::new(8, 8, 16, b'a', 4, false);
    let mut buf = Vec::new();
    original.save(&mut buf);

    let loaded = Font::load(&buf).unwrap();
    assert_eq!(loaded.width, original.width);
    assert_eq!(loaded.height, original.height);
    assert_eq!(loaded.glyphs_per_row, original.glyphs_per_row);
    assert_eq!(loaded.first_glyph, original.first_glyph);
    assert_eq!(loaded.total_glyphs, original.total_glyphs);
    assert_eq!(loaded.column_major, original.column_major);
    assert_eq!(loaded.glyphs, original.glyphs);
}

/// Verify that pixel data is preserved through a save/load cycle.
#[test]
fn round_trip_pixel_data() {
    let mut font = Font::new(5, 7, 8, b'A', 2, false);
    // Set a checkerboard pattern in glyph 0
    for y in 0..7 {
        for x in 0..5 {
            font.set_pixel(0, x, y, (x + y) % 2 == 0);
        }
    }
    // Set all pixels in glyph 1
    for y in 0..7 {
        for x in 0..5 {
            font.set_pixel(1, x, y, true);
        }
    }

    let mut buf = Vec::new();
    font.save(&mut buf);
    let loaded = Font::load(&buf).unwrap();

    assert_eq!(loaded.glyphs, font.glyphs);
}

/// Column-major fonts must survive the round-trip with the flag preserved.
#[test]
fn round_trip_column_major() {
    let mut font = Font::new(4, 8, 4, b'0', 3, true);
    font.set_pixel(0, 0, 0, true);
    font.set_pixel(0, 3, 7, true);

    let mut buf = Vec::new();
    font.save(&mut buf);
    let loaded = Font::load(&buf).unwrap();

    assert!(loaded.column_major);
    assert!(loaded.get_pixel(0, 0, 0));
    assert!(loaded.get_pixel(0, 3, 7));
    assert!(!loaded.get_pixel(0, 1, 1));
}

/// Glyphs are saved in ascending character order so the first glyph maps
/// to `first_glyph` and each subsequent one maps to the next codepoint.
#[test]
fn glyph_ordering() {
    let mut font = Font::new(3, 3, 8, b'a', 3, false);
    // Mark each glyph with a unique top-left pixel pattern
    font.set_pixel(0, 0, 0, true); // 'a' glyph
    font.set_pixel(1, 1, 0, true); // 'b' glyph
    font.set_pixel(2, 2, 0, true); // 'c' glyph

    let mut buf = Vec::new();
    font.save(&mut buf);
    let loaded = Font::load(&buf).unwrap();

    // 'a' -> index 0, top-left pixel set
    assert!(loaded.get_pixel(0, 0, 0));
    assert!(!loaded.get_pixel(0, 1, 0));
    // 'b' -> index 1, second pixel of first row set
    assert!(!loaded.get_pixel(1, 0, 0));
    assert!(loaded.get_pixel(1, 1, 0));
    // 'c' -> index 2, third pixel of first row set
    assert!(loaded.get_pixel(2, 2, 0));
}

/// Reading a buffer with wrong magic must return an error.
#[test]
fn bad_magic_is_rejected() {
    let mut buf = vec![0u8; HEADER_SIZE + 8];
    buf[0] = b'X'; // corrupt magic
    let result = Font::load(&buf);
    assert!(result.is_err());
}

/// `save` must write the current format version into the header.
#[test]
fn save_writes_format_version() {
    let font = Font::new(4, 4, 4, b'a', 1, false);
    let mut buf = Vec::new();
    font.save(&mut buf);
    assert_eq!(buf[11], FORMAT_VERSION);
}

/// A file claiming a newer format version than we support must be rejected.
#[test]
fn newer_version_is_rejected() {
    let font = Font::new(4, 4, 4, b'a', 1, false);
    let mut buf = Vec::new();
    font.save(&mut buf);
    buf[11] = FORMAT_VERSION + 1; // pretend it's from a future build
    let result = Font::load(&buf);
    assert!(result.is_err());
}

/// Serialise `font` using the legacy version-0 layout (each glyph padded to
/// a whole number of bytes) so we can test backward-compatible loading.
fn encode_v0(font: &Font) -> Vec<u8> {
    let mut buf = Vec::new();
    buf.extend_from_slice(&MAGIC);
    buf.extend_from_slice(&[font.width, font.height, font.glyphs_per_row, font.first_glyph]);
    buf.extend_from_slice(&font.total_glyphs.to_le_bytes());
    let flags = if font.column_major { FLAG_COLUMN_MAJOR } else { 0 };
    buf.extend_from_slice(&[flags, 0]); // version byte = 0
    let pixels = font.pixels_per_glyph();
    let bytes_per_glyph = pixels.div_ceil(8);
    for glyph in &font.glyphs {
        let mut bytes = vec![0u8; bytes_per_glyph];
        for (i, &p) in glyph.iter().enumerate().take(pixels) {
            if p {
                bytes[i / 8] |= 1 << (i % 8);
            }
        }
        buf.extend_from_slice(&bytes);
    }
    buf
}

/// Version-0 files must still load, exposing their version, and re-saving
/// them upgrades to the smaller version-1 layout without losing pixels.
#[test]
fn loads_version_0_and_upgrades_on_save() {
    let mut original = Font::new(5, 7, 8, b'A', 3, false);
    original.set_pixel(0, 0, 0, true);
    original.set_pixel(1, 4, 6, true);
    original.set_pixel(2, 2, 3, true);

    let v0 = encode_v0(&original);
    assert_eq!(v0[11], 0);

    let loaded = Font::load(&v0).unwrap();
    assert_eq!(loaded.version, 0);
    assert_eq!(loaded.glyphs, original.glyphs);

    // Re-saving writes the current version and a smaller payload.
    let mut v1 = Vec::new();
    loaded.save(&mut v1);
    assert_eq!(v1[11], FORMAT_VERSION);
    assert!(v1.len() < v0.len());

    let reloaded = Font::load(&v1).unwrap();
    assert_eq!(reloaded.version, FORMAT_VERSION);
    assert_eq!(reloaded.glyphs, original.glyphs);
}

/// A freshly saved font reports the current version when reloaded.
#[test]
fn round_trip_reports_current_version() {
    let font = Font::new(7, 10, 16, b' ', 95, false);
    let mut buf = Vec::new();
    font.save(&mut buf);
    let loaded = Font::load(&buf).unwrap();
    assert_eq!(loaded.version, FORMAT_VERSION);
}

/// A font with zero-dimension glyphs must be rejected.
#[test]
fn zero_dimension_rejected() {
    let mut buf = vec![0u8; HEADER_SIZE];
    buf[0..4].copy_from_slice(&MAGIC);
    buf[4] = 0; // width = 0  <- invalid
    buf[5] = 8;
    let result = Font::load(&buf);
    assert!(result.is_err());
}

/// The size helpers must agree with the actual serialised byte count.
#[test]
fn size_helpers_match_serialised_output() {
    let font = Font::new(5, 7, 8, b'A', 26, false);
    assert_eq!(font.pixels_per_glyph(), 35); // 5 * 7
    // Version 1 packs all glyph bits contiguously: ceil(35 * 26 / 8) = 114.
    assert_eq!(font.data_size(), 114);
    assert_eq!(font.file_size(), HEADER_SIZE + 114);

    let mut buf = Vec::new();
    font.save(&mut buf);
    assert_eq!(buf.len(), font.file_size());
}

#[test]
fn rows_calculation() {
    let font = Font::new(8, 8, 16, b'a', 26, false);
    assert_eq!(font.rows(), 2); // ceil(26 / 16) = 2
}

#[test]
fn glyph_char_mapping() {
    let font = Font::new(8, 8, 16, b'A', 26, false);
    assert_eq!(font.glyph_char(0), Some('A'));
    assert_eq!(font.glyph_char(25), Some('Z'));
    assert_eq!(font.glyph_char(26), None); // out of range
}

/// A 2-wide block at the left edge of an 8-wide glyph centres to x=3..4.
#[test]
fn center_horizontally() {
    let mut font = Font::new(8, 8, 16, b'a', 1, false);
    font.set_pixel(0, 0, 2, true);
    font.set_pixel(0, 1, 2, true);

    font.center_glyph_horizontally(0);

    assert!(!font.get_pixel(0, 0, 2));
    assert!(!font.get_pixel(0, 1, 2));
    assert!(font.get_pixel(0, 3, 2)); // (8 - 2) / 2 = 3
    assert!(font.get_pixel(0, 4, 2));
    // Row must be unchanged
    assert!(!font.get_pixel(0, 3, 1));
}

/// A single pixel at the bottom of an 8-tall glyph centres to y=3.
#[test]
fn center_vertically() {
    let mut font = Font::new(8, 8, 16, b'a', 1, false);
    font.set_pixel(0, 5, 7, true);

    font.center_glyph_vertically(0);

    assert!(!font.get_pixel(0, 5, 7));
    assert!(font.get_pixel(0, 5, 3)); // (8 - 1) / 2 = 3
    // Column must be unchanged
    assert!(!font.get_pixel(0, 4, 3));
}

/// Centring an empty glyph or an already-centred glyph is a no-op.
#[test]
fn center_noop_cases() {
    let mut font = Font::new(8, 8, 16, b'a', 1, false);
    font.center_glyph_horizontally(0);
    font.center_glyph_vertically(0);
    assert!(font.glyphs[0].iter().all(|&p| !p));

    font.set_pixel(0, 3, 3, true);
    font.set_pixel(0, 4, 4, true);
    let before = font.glyphs[0].clone();
    font.center_glyph_horizontally(0);
    font.center_glyph_vertically(0);
    assert_eq!(font.glyphs[0], before);
}

/// Centring must respect column-major pixel indexing.
#[test]
fn center_column_major() {
    let mut font = Font::new(8, 8, 16, b'a', 1, true);
    font.set_pixel(0, 7, 0, true);

    font.center_glyph_horizontally(0);
    font.center_glyph_vertically(0);

    assert!(font.get_pixel(0, 3, 3));
    assert!(!font.get_pixel(0, 7, 0));
}

#[test]
fn toggle_pixel() {
    let mut font = Font::new(4, 4, 4, b'a', 1, false);
    assert!(!font.get_pixel(0, 1, 2));
    assert!(font.toggle_pixel(0, 1, 2));
    assert!(font.get_pixel(0, 1, 2));
    assert!(!font.toggle_pixel(0, 1, 2));
    assert!(!font.get_pixel(0, 1, 2));
}
