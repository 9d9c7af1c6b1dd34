//! The state of the font maker and the decisions its user interface makes:
//! which glyph is being edited, which pixel a click paints, and what opening,
//! creating and saving a font change.  Drawing and file access stay with the
//! caller, which hands in the outcome.
use vstd::prelude::*;

use crate::file_format::{load_error, load_error_message};
use crate::font::{Font, FORMAT_VERSION};
use crate::settings::{NewFontSettings, SaveSummary};
use crate::text::{decimal, push_char, push_decimal};

verus! {

/// What came of reading a font file.
pub enum FileRead {
    /// The file was opened and read: its bytes.
    Read(Vec<u8>),
    /// The file could not be opened: why.
    CannotOpen(String),
    /// The file was opened but reading it failed: why.
    ReadFailed(String),
}

/// What came of writing a font file.
pub enum FileWrite {
    /// The bytes were written.
    Written,
    /// The file could not be created: why.
    CannotCreate(String),
    /// The file was created but writing to it failed: why.
    WriteFailed(String),
}

/// The status line after a new font was created: its size, glyph count,
/// first glyph and layout.
pub open spec fn created_message(font: &Font) -> Seq<char> {
    "New "@ + decimal(font.width as nat) + "×"@ + decimal(font.height as nat) + " font created ("@
        + decimal(font.total_glyphs as nat) + " glyphs, first='"@ + seq![font.first_glyph as char]
        + "', "@ + (if font.column_major {
        "column-major"@
    } else {
        "row-major"@
    }) + ")."@
}

/// Application state of the font maker; `P` is the caller's file path type.
pub struct FontMakerApp<P> {
    pub font: Font,
    pub current_glyph: usize,
    pub current_path: Option<P>,
    pub status: String,
    pub show_new_dialog: bool,
    pub new_settings: NewFontSettings,
    /// Details of the last successful save; the summary window is shown
    /// while this is `Some`.
    pub save_summary: Option<SaveSummary<P>>,
}

impl<P> FontMakerApp<P> {
    /// The start-up state: the default font, its first glyph selected, no
    /// file, and the settings dialog primed with the font's settings.
    pub fn new() -> (app: Self)
        ensures
            app.font.width == 7,
            app.font.height == 10,
            app.font.glyphs_per_row == 16,
            app.font.first_glyph == 32,
            app.font.total_glyphs == 95,
            !app.font.column_major,
            app.font.version == FORMAT_VERSION,
            app.font.wf(),
            app.font.glyph_views() == Seq::new(95, |i: int| crate::font::blank_glyph(70)),
            app.current_glyph == 0,
            app.current_path is None,
            app.status@ == "Ready – create a new font or open an existing one."@,
            !app.show_new_dialog,
            app.new_settings.describes(&app.font),
            app.save_summary is None,
    {
        let font = Font::default();
        let settings = NewFontSettings::from_font(&font);
        FontMakerApp {
            font,
            current_glyph: 0,
            current_path: None,
            status: "Ready – create a new font or open an existing one.".to_string(),
            show_new_dialog: false,
            new_settings: settings,
            save_summary: None,
        }
    }

    /// Select the previous glyph, if there is one.
    pub fn prev_glyph(&mut self)
        ensures
            final(self).current_glyph == if old(self).current_glyph > 0 {
                (old(self).current_glyph - 1) as usize
            } else {
                old(self).current_glyph
            },
            *final(self) == (FontMakerApp { current_glyph: final(self).current_glyph, ..*old(self) }),
    {
        if self.current_glyph > 0 {
            self.current_glyph = self.current_glyph - 1;
        }
    }

    /// Select the next glyph, if the font has one.
    pub fn next_glyph(&mut self)
        ensures
            final(self).current_glyph == if old(self).current_glyph + 1 < old(self).font.total_glyphs {
                (old(self).current_glyph + 1) as usize
            } else {
                old(self).current_glyph
            },
            *final(self) == (FontMakerApp { current_glyph: final(self).current_glyph, ..*old(self) }),
    {
        let total = self.font.total_glyphs as usize;
        if total > 0 && self.current_glyph < total - 1 {
            self.current_glyph = self.current_glyph + 1;
        }
    }

    /// Paint the pixel under a click on the editing grid: `(gx, gy)` is the
    /// grid cell, which may lie off the grid; cells off the grid change nothing.
    pub fn paint_cell(&mut self, gx: i32, gy: i32, value: bool)
        requires
            gx >= 0 && gy >= 0 ==> old(self).font.pixel_stored(old(self).current_glyph as int, gx as int, gy as int),
        ensures
            final(self).font.same_header(&old(self).font),
            old(self).font.shaped() ==> final(self).font.shaped(),
            final(self).font.glyph_views() == if gx >= 0 && gy >= 0 {
                old(self).font.with_pixel(old(self).current_glyph as int, gx as int, gy as int, value)
            } else {
                old(self).font.glyph_views()
            },
            *final(self) == (FontMakerApp { font: final(self).font, ..*old(self) }),
    {
        if gx >= 0 && gy >= 0 {
            let x = gx as usize;
            let y = gy as usize;
            if x < self.font.width as usize && y < self.font.height as usize {
                self.font.set_pixel(self.current_glyph, x, y, value);
            }
        }
    }

    /// Open the "New Font" dialog, primed with the current font's settings.
    pub fn open_new_dialog(&mut self)
        ensures
            final(self).new_settings.describes(&old(self).font),
            final(self).show_new_dialog,
            *final(self) == (FontMakerApp {
                new_settings: final(self).new_settings,
                show_new_dialog: true,
                ..*old(self)
            }),
    {
        self.new_settings = NewFontSettings::from_font(&self.font);
        self.show_new_dialog = true;
    }

    /// Replace the font by the blank font the dialog settings describe, with
    /// its first glyph selected and no file, close the dialog, and report the
    /// new font in the status line.
    pub fn create_font(&mut self)
        ensures
            old(self).new_settings.builds(&final(self).font),
            final(self).status@ == created_message(&final(self).font),
            *final(self) == (FontMakerApp {
                font: final(self).font,
                current_glyph: 0,
                current_path: None,
                show_new_dialog: false,
                status: final(self).status,
                ..*old(self)
            }),
    {
        self.font = self.new_settings.build_font();
        self.current_glyph = 0;
        self.current_path = None;
        let mut status = String::from_str("New ");
        push_decimal(&mut status, self.font.width as u32);
        status.append("×");
        push_decimal(&mut status, self.font.height as u32);
        status.append(" font created (");
        push_decimal(&mut status, self.font.total_glyphs as u32);
        status.append(" glyphs, first='");
        push_char(&mut status, self.font.first_glyph as char);
        status.append("', ");
        if self.font.column_major {
            status.append("column-major");
        } else {
            status.append("row-major");
        }
        status.append(").");
        self.status = status;
        self.show_new_dialog = false;
    }

    /// Open the font file at `path` (shown to the user as `path_text`),
    /// given what reading it gave.  A font read from it becomes the edited
    /// font, with its first glyph selected and the dialog settings describing
    /// it; otherwise only the status line changes, to say why.
    pub fn load_font(&mut self, path: P, path_text: String, contents: FileRead)
        ensures
            match contents {
                FileRead::CannotOpen(why) => {
                    &&& final(self).status@ == "Cannot open file: "@ + why@
                    &&& *final(self) == (FontMakerApp { status: final(self).status, ..*old(self) })
                },
                FileRead::ReadFailed(why) => {
                    &&& final(self).status@ == "Error reading font: "@ + why@
                    &&& *final(self) == (FontMakerApp { status: final(self).status, ..*old(self) })
                },
                FileRead::Read(bytes) => match load_error(bytes@) {
                    Some(e) => {
                        &&& final(self).status@ == "Error reading font: "@ + load_error_message(e)
                        &&& *final(self) == (FontMakerApp { status: final(self).status, ..*old(self) })
                    },
                    None => {
                        &&& final(self).font.loaded_from(bytes@)
                        &&& final(self).new_settings.describes(&final(self).font)
                        &&& final(self).status@ == "Opened: "@ + path_text@
                        &&& *final(self) == (FontMakerApp {
                            font: final(self).font,
                            current_glyph: 0,
                            current_path: Some(path),
                            status: final(self).status,
                            new_settings: final(self).new_settings,
                            ..*old(self)
                        })
                    },
                },
            },
    {
        match contents {
            FileRead::CannotOpen(why) => {
                let mut status = String::from_str("Cannot open file: ");
                status.append(why.as_str());
                self.status = status;
            },
            FileRead::ReadFailed(why) => {
                let mut status = String::from_str("Error reading font: ");
                status.append(why.as_str());
                self.status = status;
            },
            FileRead::Read(bytes) => match Font::load(bytes.as_slice()) {
                Ok(font) => {
                    self.new_settings = NewFontSettings::from_font(&font);
                    self.font = font;
                    self.current_glyph = 0;
                    let mut status = String::from_str("Opened: ");
                    status.append(path_text.as_str());
                    self.status = status;
                    self.current_path = Some(path);
                },
                Err(e) => {
                    let mut status = String::from_str("Error reading font: ");
                    let message = e.message();
                    status.append(message.as_str());
                    self.status = status;
                },
            },
        }
    }

    /// Record the outcome of writing the font to `path` (shown to the user as
    /// `path_text`).  After a successful write the summary snapshots the font
    /// as saved (under `summary_path`) and the font belongs to `path`;
    /// otherwise only the status line changes, to say why.
    pub fn save_font_to(&mut self, summary_path: P, path: P, path_text: String, outcome: FileWrite)
        ensures
            match outcome {
                FileWrite::Written => {
                    &&& final(self).save_summary matches Some(s) && s.summarizes(&old(self).font, summary_path)
                    &&& final(self).status@ == "Saved: "@ + path_text@
                    &&& *final(self) == (FontMakerApp {
                        current_path: Some(path),
                        save_summary: final(self).save_summary,
                        status: final(self).status,
                        ..*old(self)
                    })
                },
                FileWrite::CannotCreate(why) => {
                    &&& final(self).status@ == "Cannot create file: "@ + why@
                    &&& *final(self) == (FontMakerApp { status: final(self).status, ..*old(self) })
                },
                FileWrite::WriteFailed(why) => {
                    &&& final(self).status@ == "Error writing font: "@ + why@
                    &&& *final(self) == (FontMakerApp { status: final(self).status, ..*old(self) })
                },
            },
    {
        match outcome {
            FileWrite::Written => {
                let mut status = String::from_str("Saved: ");
                status.append(path_text.as_str());
                self.status = status;
                self.save_summary = Some(SaveSummary::from_font(&self.font, summary_path));
                self.current_path = Some(path);
            },
            FileWrite::CannotCreate(why) => {
                let mut status = String::from_str("Cannot create file: ");
                status.append(why.as_str());
                self.status = status;
            },
            FileWrite::WriteFailed(why) => {
                let mut status = String::from_str("Error writing font: ");
                status.append(why.as_str());
                self.status = status;
            },
        }
    }
}

} // verus!
