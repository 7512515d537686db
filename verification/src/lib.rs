//! Text extraction from the digital text layer of PDF files.
//!
//! The crate reads a document, repairs the two malformations that cost a
//! readable file its text, resolves fonts to code-to-text tables and runs page
//! content into a stream of placed glyphs.

pub mod box_laws;
pub mod bytes;
pub mod cell_laws;
pub mod cells;
pub mod cmap;
pub mod cmap_laws;
pub mod content;
pub mod document;
pub mod document_laws;
pub mod encoding;
pub mod filter_laws;
pub mod filters;
pub mod font;
pub mod font_laws;
pub mod form_laws;
pub mod geometry;
pub mod images;
pub mod laws;
pub mod length_laws;
pub mod loading;
pub mod machine;
pub mod matrix;
pub mod name_laws;
pub mod names;
pub mod number;
pub mod number_laws;
pub mod object;
pub mod operator_laws;
pub mod padding_laws;
pub mod page_box;
pub mod page_laws;
pub mod page_parts;
pub mod pages;
pub mod pdf;
pub mod reference_laws;
pub mod repair;
pub mod repair_laws;
pub mod tables;
pub mod text;
pub mod tokens;
pub mod width_laws;
pub mod widths;
