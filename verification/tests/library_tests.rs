use font_maker::editor::{FileRead, FileWrite, FontMakerApp};
use font_maker::file_format::LoadError;
use font_maker::font::{Font, FORMAT_VERSION, HEADER_SIZE, MAGIC};
use font_maker::settings::{NewFontSettings, SaveSummary};

fn saved(font: &Font) -> Vec<u8> {
    let mut buf = Vec::new();
    font.save(&mut buf);
    buf
}

#[test]
fn save_writes_exact_header_and_packed_bits() {
    let mut font = Font::new(3, 2, 5, b'x', 2, true);
    // Column-major: pixel (x, y) is bit x * 2 + y of its glyph.
    font.set_pixel(0, 1, 0, true); // bit 2
    font.set_pixel(0, 2, 1, true); // bit 5
    font.set_pixel(1, 0, 1, true); // bit 6 + 1 = 7
    font.set_pixel(1, 2, 0, true); // bit 6 + 4 = 10
    let buf = saved(&font);
    assert_eq!(&buf[0..4], &MAGIC);
    assert_eq!(&buf[4..12], &[3, 2, 5, b'x', 2, 0, 1, FORMAT_VERSION]);
    assert_eq!(buf.len(), HEADER_SIZE + 2);
    assert_eq!(buf[12], 0b1010_0100);
    assert_eq!(buf[13], 0b0000_0100);
}

#[test]
fn save_appends_to_existing_bytes() {
    let font = Font::new(1, 1, 1, b'a', 300, false);
    let mut buf = vec![9u8, 9u8];
    font.save(&mut buf);
    assert_eq!(&buf[0..2], &[9, 9]);
    // 300 = 0x012C, little-endian.
    assert_eq!(buf[2 + 8], 0x2C);
    assert_eq!(buf[2 + 9], 0x01);
    assert_eq!(buf.len(), 2 + HEADER_SIZE + 38);
}

#[test]
fn load_reports_each_error() {
    assert_eq!(Font::load(&[0x46, 0x4E, 0x54]).unwrap_err(), LoadError::Truncated);

    let mut header = vec![0x46, 0x4E, 0x54, 0x00, 2, 2, 1, b'a', 3, 0, 0, 1];
    assert_eq!(Font::load(&header).unwrap_err(), LoadError::Truncated);

    header[11] = 7;
    assert_eq!(Font::load(&header).unwrap_err(), LoadError::UnsupportedVersion(7));

    header[11] = 1;
    header[5] = 0;
    assert_eq!(Font::load(&header).unwrap_err(), LoadError::ZeroDimension);

    header[5] = 2;
    header[6] = 0;
    assert_eq!(Font::load(&header).unwrap_err(), LoadError::ZeroGlyphsPerRow);

    header[6] = 1;
    header[2] = b'X';
    assert_eq!(Font::load(&header).unwrap_err(), LoadError::BadMagic);
}

#[test]
fn load_needs_exactly_the_data_bytes() {
    // 3 glyphs of 2x2 pixels: 12 bits, 2 bytes in version 1, 3 bytes in version 0.
    let mut file = vec![0x46, 0x4E, 0x54, 0x00, 2, 2, 1, b'a', 3, 0, 0, 1, 0xFF];
    assert_eq!(Font::load(&file).unwrap_err(), LoadError::Truncated);
    file.push(0x0F);
    let font = Font::load(&file).unwrap();
    assert_eq!(font.glyphs, vec![vec![true; 4], vec![true; 4], vec![true; 4]]);

    file[11] = 0;
    assert_eq!(Font::load(&file).unwrap_err(), LoadError::Truncated);
    file.push(0x01);
    let font = Font::load(&file).unwrap();
    assert_eq!(font.version, 0);
    assert_eq!(
        font.glyphs,
        vec![vec![true; 4], vec![true; 4], vec![true, false, false, false]]
    );
}

#[test]
fn load_ignores_trailing_bytes_and_other_flag_bits() {
    let mut file = vec![0x46, 0x4E, 0x54, 0x00, 1, 1, 1, b'a', 1, 0, 0xFE, 1, 0x01, 0xAA, 0xBB];
    let font = Font::load(&file).unwrap();
    assert!(!font.column_major);
    assert!(font.get_pixel(0, 0, 0));
    file[10] = 0xFF;
    assert!(Font::load(&file).unwrap().column_major);
}

#[test]
fn size_formulas() {
    let font = Font::new(7, 10, 16, b' ', 95, false);
    assert_eq!(font.pixels_per_glyph(), 70);
    assert_eq!(font.total_pixels(), 6650);
    assert_eq!(font.data_size(), 832); // ceil(6650 / 8)
    assert_eq!(font.file_size(), 844);
    assert_eq!(font.bytes_per_glyph(), 9); // ceil(70 / 8)
    assert_eq!(font.rows(), 6); // ceil(95 / 16)
    let empty_rows = Font::new(1, 1, 0, b'a', 5, false);
    assert_eq!(empty_rows.rows(), 0);
}

#[test]
fn glyph_char_maps_only_printable_ascii() {
    let font = Font::new(1, 1, 1, 120, 20, false);
    assert_eq!(font.glyph_char(6), Some('~'));
    assert_eq!(font.glyph_char(7), None); // DEL
    assert_eq!(font.glyph_char(8), None);

    let from_nul = Font::new(8, 8, 16, 0x00, 128, false);
    assert_eq!(from_nul.glyph_char(0), None); // NUL
    assert_eq!(from_nul.glyph_char(10), None); // LF
    assert_eq!(from_nul.glyph_char(31), None);
    assert_eq!(from_nul.glyph_char(32), Some(' '));
    assert_eq!(from_nul.glyph_char(65), Some('A'));
    assert_eq!(from_nul.glyph_char(127), None); // DEL
}

#[test]
fn default_font_is_blank_printable_ascii() {
    let font = Font::default();
    assert_eq!((font.width, font.height, font.glyphs_per_row), (7, 10, 16));
    assert_eq!((font.first_glyph, font.total_glyphs), (b' ', 95));
    assert_eq!(font.glyphs.len(), 95);
    assert!(font.glyphs.iter().all(|g| g.len() == 70 && g.iter().all(|&p| !p)));
    assert_eq!(font.filled_pixels(), 0);
    assert!(font.is_shaped());
}

#[test]
fn pixel_edits_out_of_range_change_nothing() {
    let mut font = Font::new(4, 3, 4, b'a', 2, false);
    font.set_pixel(2, 0, 0, true);
    font.set_pixel(0, 4, 0, true);
    font.set_pixel(0, 0, 3, true);
    assert_eq!(font.filled_pixels(), 0);
    assert!(!font.toggle_pixel(0, 4, 0));
    assert!(!font.toggle_pixel(5, 0, 0));
    assert_eq!(font.filled_pixels(), 0);
    assert!(!font.get_pixel(9, 0, 0));
}

#[test]
fn set_then_get_reads_back_and_touches_one_cell() {
    let mut font = Font::new(4, 3, 4, b'a', 2, true);
    font.set_pixel(1, 3, 2, true);
    assert!(font.get_pixel(1, 3, 2));
    assert_eq!(font.filled_pixels(), 1);
    // Column-major: (3, 2) is entry 3 * 3 + 2.
    assert!(font.glyphs[1][11]);
    font.set_pixel(1, 3, 2, false);
    assert_eq!(font.filled_pixels(), 0);
}

#[test]
fn toggling_twice_restores_glyph() {
    let mut font = Font::new(3, 3, 3, b'a', 1, false);
    font.set_pixel(0, 1, 1, true);
    let before = font.glyphs.clone();
    font.toggle_pixel(0, 2, 0);
    font.toggle_pixel(0, 2, 0);
    assert_eq!(font.glyphs, before);
}

#[test]
fn clear_glyph_clears_only_that_glyph() {
    let mut font = Font::new(2, 2, 2, b'a', 2, false);
    font.set_pixel(0, 0, 0, true);
    font.set_pixel(1, 1, 1, true);
    font.clear_glyph(0);
    font.clear_glyph(7);
    assert_eq!(font.glyphs[0], vec![false; 4]);
    assert!(font.get_pixel(1, 1, 1));
    assert_eq!(font.filled_pixels(), 1);
}

#[test]
fn centering_keeps_pixels_and_is_idempotent() {
    let mut font = Font::new(7, 5, 1, b'a', 1, false);
    font.set_pixel(0, 0, 0, true);
    font.set_pixel(0, 1, 1, true);
    font.center_glyph_horizontally(0);
    // Content width 2, free width 5: left margin 2, right margin 3.
    assert!(font.get_pixel(0, 2, 0));
    assert!(font.get_pixel(0, 3, 1));
    assert_eq!(font.filled_pixels(), 2);
    let once = font.glyphs.clone();
    font.center_glyph_horizontally(0);
    assert_eq!(font.glyphs, once);

    font.center_glyph_vertically(0);
    // Content height 2, free height 3: top margin 1.
    assert!(font.get_pixel(0, 2, 1));
    assert!(font.get_pixel(0, 3, 2));
    let twice = font.glyphs.clone();
    font.center_glyph_vertically(0);
    assert_eq!(font.glyphs, twice);
}

#[test]
fn legacy_layout_never_smaller() {
    // 8 pixels per glyph: both layouts need the same bytes.
    let font = Font::new(4, 2, 1, b'a', 3, false);
    let mut v0 = vec![0x46, 0x4E, 0x54, 0x00, 4, 2, 1, b'a', 3, 0, 0, 0];
    v0.extend_from_slice(&[0, 0, 0]);
    let loaded = Font::load(&v0).unwrap();
    assert_eq!(loaded.glyphs, font.glyphs);
    let v1 = saved(&loaded);
    assert_eq!(v1.len(), v0.len());
}

#[test]
fn new_font_settings_behaviour() {
    let settings = NewFontSettings::default();
    assert_eq!((settings.width, settings.height, settings.glyphs_per_row), (8, 8, 16));
    assert_eq!(settings.first_glyph_str, "a");
    assert_eq!(settings.total_glyphs, 26);
    assert_eq!(settings.rows_preview(), 2);

    let font = Font::new(5, 6, 7, b'Q', 40, true);
    let from = NewFontSettings::from_font(&font);
    assert_eq!((from.width, from.height, from.glyphs_per_row, from.total_glyphs), (5, 6, 7, 40));
    assert_eq!(from.first_glyph_str, "Q");
    assert!(from.column_major);

    let odd = NewFontSettings {
        width: 0,
        height: 300,
        glyphs_per_row: -1,
        first_glyph_str: "é".to_string(),
        total_glyphs: 65536,
        column_major: false,
    };
    assert_eq!(odd.rows_preview(), 0);
    assert_eq!(odd.first_glyph_byte(), b'a');
    let built = odd.build_font();
    assert_eq!((built.width, built.height, built.glyphs_per_row), (1, 44, 255));
    assert_eq!(built.total_glyphs, 1);
    assert_eq!(built.first_glyph, b'a');

    let negative = NewFontSettings {
        width: 1,
        height: 1,
        glyphs_per_row: 4,
        first_glyph_str: String::new(),
        total_glyphs: -10,
        column_major: false,
    };
    // (-10 + 4 - 1) / 4 rounds toward zero.
    assert_eq!(negative.rows_preview(), -1);
    assert_eq!(negative.first_glyph_byte(), b'a');
}

#[test]
fn save_summary_snapshots_the_font() {
    let font = Font::new(5, 7, 8, b'A', 26, false);
    let summary = SaveSummary::from_font(&font, "out.fnt");
    assert_eq!(summary.path, "out.fnt");
    assert_eq!(summary.data_size, 114);
    assert_eq!(summary.file_size, 126);
    assert_eq!(summary.bytes_per_glyph, 5);
    assert_eq!(summary.rows, 4);
    assert_eq!((summary.width, summary.height, summary.total_glyphs), (5, 7, 26));
}

#[test]
fn editor_state_transitions() {
    let mut app: FontMakerApp<String> = FontMakerApp::new();
    assert_eq!(app.current_glyph, 0);
    assert_eq!(app.font.total_glyphs, 95);
    assert_eq!(app.new_settings.first_glyph_str, " ");
    app.prev_glyph();
    assert_eq!(app.current_glyph, 0);
    app.next_glyph();
    app.next_glyph();
    assert_eq!(app.current_glyph, 2);
    app.current_glyph = 94;
    app.next_glyph();
    assert_eq!(app.current_glyph, 94);

    app.paint_cell(-1, 0, true);
    app.paint_cell(7, 0, true);
    assert_eq!(app.font.filled_pixels(), 0);
    app.paint_cell(6, 9, true);
    assert!(app.font.get_pixel(94, 6, 9));

    app.open_new_dialog();
    assert!(app.show_new_dialog);
    app.new_settings.width = 3;
    app.new_settings.total_glyphs = 4;
    app.create_font();
    assert!(!app.show_new_dialog);
    assert_eq!((app.font.width, app.font.total_glyphs), (3, 4));
    assert_eq!(app.current_glyph, 0);
    assert!(app.current_path.is_none());

    assert_eq!(app.status, "New 3×10 font created (4 glyphs, first=' ', row-major).");

    app.save_font_to("a.fnt".to_string(), "a.fnt".to_string(), "/tmp/a.fnt".to_string(), FileWrite::Written);
    assert_eq!(app.current_path.as_deref(), Some("a.fnt"));
    assert_eq!(app.save_summary.as_ref().map(|s| s.total_glyphs), Some(4));
    assert_eq!(app.status, "Saved: /tmp/a.fnt");

    app.save_font_to(
        "c.fnt".to_string(),
        "c.fnt".to_string(),
        "/tmp/c.fnt".to_string(),
        FileWrite::CannotCreate("permission denied".to_string()),
    );
    assert_eq!(app.status, "Cannot create file: permission denied");
    assert_eq!(app.current_path.as_deref(), Some("a.fnt"));
    app.save_font_to(
        "c.fnt".to_string(),
        "c.fnt".to_string(),
        "/tmp/c.fnt".to_string(),
        FileWrite::WriteFailed("disk full".to_string()),
    );
    assert_eq!(app.status, "Error writing font: disk full");

    let opened = Font::new(2, 2, 2, b'0', 10, false);
    let mut bytes = Vec::new();
    opened.save(&mut bytes);
    app.current_glyph = 3;
    app.load_font("b.fnt".to_string(), "/tmp/b.fnt".to_string(), FileRead::Read(bytes));
    assert_eq!(app.current_glyph, 0);
    assert_eq!(app.font.first_glyph, b'0');
    assert_eq!(app.font.total_glyphs, 10);
    assert_eq!(app.new_settings.first_glyph_str, "0");
    assert_eq!(app.current_path.as_deref(), Some("b.fnt"));
    assert_eq!(app.status, "Opened: /tmp/b.fnt");

    app.current_glyph = 2;
    app.load_font("d.fnt".to_string(), "/tmp/d.fnt".to_string(), FileRead::Read(vec![1, 2, 3]));
    assert_eq!(app.status, "Error reading font: failed to fill whole buffer");
    assert_eq!(app.current_glyph, 2);
    assert_eq!(app.current_path.as_deref(), Some("b.fnt"));
    app.load_font(
        "d.fnt".to_string(),
        "/tmp/d.fnt".to_string(),
        FileRead::CannotOpen("No such file or directory (os error 2)".to_string()),
    );
    assert_eq!(app.status, "Cannot open file: No such file or directory (os error 2)");
    app.load_font("d.fnt".to_string(), "/tmp/d.fnt".to_string(), FileRead::ReadFailed("Is a directory".to_string()));
    assert_eq!(app.status, "Error reading font: Is a directory");
    assert_eq!(app.font.total_glyphs, 10);
}

#[test]
fn load_error_messages() {
    assert_eq!(LoadError::Truncated.message(), "failed to fill whole buffer");
    assert_eq!(LoadError::BadMagic.message(), "not a valid font file (bad magic bytes)");
    assert_eq!(
        LoadError::UnsupportedVersion(200).message(),
        "unsupported font format version 200 (this build supports up to 1)"
    );
    assert_eq!(LoadError::ZeroDimension.message(), "glyph dimensions must be at least 1×1");
    assert_eq!(LoadError::ZeroGlyphsPerRow.message(), "glyphs per row must be at least 1");
}

#[test]
fn savable_ignores_blank_extra_glyphs() {
    let mut font = Font::new(8, 1, 1, b'a', 1, false);
    font.set_pixel(0, 3, 0, true);
    let plain = saved(&font);
    font.glyphs.push(vec![false; 8]);
    assert!(font.is_savable());
    assert_eq!(saved(&font), plain);
    font.glyphs[1][0] = true;
    assert!(!font.is_savable());

    // 3 pixels per glyph: one glyph fills 3 of the 8 bits of its byte, so a
    // second glyph still fits into the padding.
    let mut small = Font::new(3, 1, 1, b'a', 1, false);
    small.glyphs.push(vec![true, false, true]);
    assert!(small.is_savable());
    assert_eq!(saved(&small)[12], 0b0010_1000);
    assert!(Font::new(5, 5, 1, b'a', 3, false).is_savable());
}

#[test]
fn load_then_save_gives_back_the_file() {
    let file = vec![0x46, 0x4E, 0x54, 0x00, 3, 2, 4, b'0', 2, 0, 1, 1, 0b1010_0110, 0b0000_1001];
    let font = Font::load(&file).unwrap();
    assert_eq!(saved(&font), file);
}

#[test]
fn centerings_commute_and_keep_pixels() {
    let mut font = Font::new(9, 7, 1, b'a', 1, true);
    font.set_pixel(0, 0, 0, true);
    font.set_pixel(0, 1, 2, true);
    font.set_pixel(0, 3, 1, true);
    let mut a = font.clone();
    let mut b = font.clone();
    a.center_glyph_horizontally(0);
    a.center_glyph_vertically(0);
    b.center_glyph_vertically(0);
    b.center_glyph_horizontally(0);
    assert_eq!(a.glyphs, b.glyphs);
    assert_eq!(a.filled_pixels(), 3);
    // Content 4x3 in 9x7: shifted by (2, 2).
    assert!(a.get_pixel(0, 2, 2));
    assert!(a.get_pixel(0, 3, 4));
    assert!(a.get_pixel(0, 5, 3));
}

#[test]
fn filled_pixels_never_exceed_total() {
    let mut font = Font::new(2, 2, 1, b'a', 2, false);
    for g in 0..2 {
        for y in 0..2 {
            for x in 0..2 {
                font.set_pixel(g, x, y, true);
            }
        }
    }
    assert_eq!(font.filled_pixels(), 8);
    assert_eq!(font.filled_pixels(), font.total_pixels());
}

#[test]
fn legacy_file_with_odd_glyph_size_loads() {
    let mut original = Font::new(3, 3, 2, b'a', 2, true);
    original.set_pixel(0, 2, 2, true); // column-major bit 8: second byte of glyph 0
    original.set_pixel(1, 0, 1, true); // bit 1 of glyph 1
    let mut v0 = vec![0x46, 0x4E, 0x54, 0x00, 3, 3, 2, b'a', 2, 0, 1, 0];
    v0.extend_from_slice(&[0x00, 0x01, 0x02, 0x00]);
    let loaded = Font::load(&v0).unwrap();
    assert_eq!(loaded.version, 0);
    assert!(loaded.column_major);
    assert_eq!(loaded.glyphs, original.glyphs);
    let mut v1 = Vec::new();
    loaded.save(&mut v1);
    // 18 bits: 3 bytes instead of 4.
    assert_eq!(v1.len(), HEADER_SIZE + 3);
    assert_eq!(&v1[12..], &[0x00, 0x05, 0x00]);
}
