//! A codec for the OpenStep-style textual property-list dialect used by
//! font-editing tools: a dynamic value tree, a parser, a serializer with the
//! dialect's formatting rules, and typed encode/decode helpers.
//!
//! - `value`: the value tree and its mathematical model.
//! - `parse_spec`, `parse`: the grammar as spec functions, and the parser
//!   proved to follow it, with positions for errors.
//! - `ser`: the canonical text of a value, and the serializer proved to
//!   write it.
//! - `laws`: parsing the canonical text of a value gives the value back.
//! - `bridge`, `schema`, `enums`, `properties`, `codec`: typed records,
//!   enumerations and unions mapped to and from the value tree, with
//!   decode errors that carry their path.
//! - `curly`, `node`, `text_node`: the inline encodings of coordinates,
//!   alignment zones, transforms and path nodes.
//! - `file_name`, `package`: glyph file names and package assembly.
//! - `error`, `text`: errors with line and column, and text helpers.

pub mod bridge;
pub mod codec;
pub mod curly;
pub mod enums;
pub mod error;
pub mod file_name;
pub mod laws;
pub mod loose_real;
pub mod node;
pub mod package;
pub mod parse;
pub mod parse_spec;
pub mod properties;
pub mod schema;
pub mod ser;
pub mod text;
pub mod text_node;
pub mod value;
