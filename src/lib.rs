//! Host-side decoder for deferred-formatting log frames.
//!
//! Firmware sends a log-site index plus compactly encoded arguments; this crate
//! turns such a byte stream back into frames, using a symbol table of format
//! strings, and renders them as text.
//!
//! - `table`: the symbol table and the protocol version check;
//! - `stream`: little-endian and LEB128 reads over a byte cursor;
//! - `fragment`: parsed format strings; `guard` keeps from the parser the
//!   strings it cannot take without panicking;
//! - `bitfield`: one parameter per argument slot, bitfields merged;
//! - `decoder`: the frame decoder; `wire` states what it computes, and
//!   `prefix` that a frame takes exactly the bytes it reports and that
//!   malformed bytes stay malformed whatever follows;
//! - `text`, `render`, `display`: rendering frames as text; `same` shows that
//!   the text depends on a frame's values alone.
pub use defmt_parser::Level;

pub mod bitfield;
pub mod decoder;
pub mod display;
pub mod fragment;
pub mod guard;
pub mod prefix;
pub mod render;
pub mod same;
pub mod stream;
pub mod table;
pub mod text;
pub mod wire;
