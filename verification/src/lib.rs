//! A small INI document: sections of `key=value` lines, read from text,
//! edited in memory and written back as text.
//!
//! [`ini::Ini`] is the document, [`parse`] reads one from lines, [`render`]
//! writes one out, and [`model`] says in mathematical terms what both do.
//! [`laws`] and [`roundtrip`] hold what is proved of them for all inputs.

pub mod error;
pub mod ini;
pub mod laws;
pub mod line;
pub mod lines;
pub mod model;
pub mod parse;
pub mod render;
pub mod roundtrip;
pub mod sorted;
pub mod text;
