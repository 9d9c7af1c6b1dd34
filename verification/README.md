# font_maker

A bitmap-font editor for embedded displays: fixed-size glyphs of on/off
pixels, a compact binary file format, and the editing operations of a
small desktop editor.

- `src/` is the library, verified with Verus:
  - `font.rs`: the `Font` type, its well-formedness, and pixel editing;
  - `grid.rs`: pixel addressing for row-major and column-major glyphs;
  - `center.rs`: bounding boxes, shifting and centring of glyphs;
  - `file_format.rs`: saving and loading the binary format (versions 0 and 1);
  - `settings.rs`: the "New Font" settings and the save summary;
  - `editor.rs`: the editor's state, its transitions and status messages;
  - `text.rs`: characters and decimal numbers for messages;
  - `laws.rs`: properties of the library as a whole (save/load round trips,
    legacy loading, layout size, centring, toggling).
- `app/` is the egui/eframe front end: windows, drawing, file dialogs and
  file access.
- `tests/` runs the library on concrete fonts and files.
