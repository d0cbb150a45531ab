//! Turns the glyphs and ruling lines of a rendered manual page into
//! headings, paragraphs, code blocks and tables.

pub mod analyze;
pub mod fragments;
pub mod order;
pub mod paragraphs;
pub mod pdf;
pub mod render;
pub mod text;
pub mod vertical;

pub use analyze::{analyze, try_analyze, Block, Doc};
pub use render::{Font, Fragment, Line, Render, TextLine};
