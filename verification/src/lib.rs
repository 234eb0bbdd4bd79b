//! Preparing markdown documents for retrieval, and tool schemas for clients.
//!
//! - [`chunk`] cuts the body of a document into chunks along its headings. What
//!   holds of the chunks of every document stands in [`chunk_laws`], how large they
//!   are in [`size_laws`], which pieces the body is cut into in [`cover_laws`], and
//!   how these are put together in [`layout_laws`].
//! - [`heading`] finds the headings of a body and how they are nested, [`section`]
//!   says which part of a document a piece of text belongs to, and
//!   [`heading_text`] cleans and compares the texts of headings. What holds of all
//!   headings stands in [`heading_laws`] and [`heading_text_laws`].
//! - [`lines`] and [`frontmatter`] relate bytes, lines of the body and lines of the
//!   file.
//! - [`tool_schema`] rewrites JSON Schemas so that they stand on their own. What
//!   holds of every rewritten schema stands in [`schema_laws`].
//!
//! Contracts speak of mathematical models: a text is the sequence of its
//! characters, a JSON object a map from names to values. What the models say of the
//! values stands in [`view_laws`]. What outside crates
//! compute is named where it takes too long to say what it is: the events of a
//! markdown text in [`markup`], the fragments of a section in [`chunk`], and the
//! case folding of a character in [`heading_text`].
pub mod chunk;
pub mod chunk_laws;
pub mod config;
pub mod cover_laws;
pub mod frontmatter;
pub mod heading;
pub mod heading_laws;
pub mod heading_text;
pub mod heading_text_laws;
pub mod json;
pub mod layout_laws;
pub mod lines;
pub mod markup;
pub mod schema_laws;
pub mod section;
pub mod size_laws;
pub mod text;
pub mod tool_schema;
pub mod view_laws;
