//! Turns a fragment of TikZ markup into a complete standalone LaTeX document.
//!
//! The input may start with a block of `%%` comment lines that declare
//! TikZ libraries and LaTeX packages.  [`parse::header`] extracts those
//! declarations together with the length of the recognized block, and
//! [`render::render`] substitutes the declarations and the remaining body
//! into a fixed document template.

pub mod parse;
pub mod render;
pub mod scan;
