//! Notes as a static site.
//!
//! The heart of the library is the compiler of the markup of a note: a
//! lexer over the bytes of a text buffer (`lexer`, and `characters` for the
//! same tokens told character by character), a recursive-descent parser
//! that builds a tree of paragraphs and inline elements (`grammar`,
//! `parser`), and a renderer that turns the tree into HTML by slicing the
//! buffer that the tree was built from (`render`, with `boundaries` for
//! what can be sliced). What holds of them for every input stands in
//! `theorems`.
//!
//! Around the compiler stand the note as a file (`note`), what is kept of
//! it between two builds (`meta`, `read`) and what a build puts out
//! (`site`, `template`). `runs` and `text` hold what the others are
//! written with.

pub mod boundaries;
pub mod characters;
pub mod error;
pub mod grammar;
pub mod lexer;
pub mod meta;
pub mod note;
pub mod parser;
pub mod read;
pub mod render;
pub mod runs;
pub mod site;
pub mod template;
pub mod text;
pub mod theorems;
