//! Bitmap fonts made of fixed-size glyphs, their binary file format, and the
//! editing operations of the font maker.

pub mod center;
pub mod editor;
pub mod file_format;
pub mod font;
pub mod grid;
pub mod laws;
pub mod settings;
pub mod text;
