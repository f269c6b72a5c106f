//! Compositing core of a character-grid ("console") rendering library.
//!
//! A console is a 2-D grid of cells, each holding a glyph code plus
//! independent foreground and background colors, with operations to draw
//! shapes, lay out styled text, and composite one grid (or a true-color
//! bitmap) onto another with partial transparency.

pub mod blit;
pub mod img;
pub mod color;
pub mod console;
pub mod text;
