//! Fragmented strings: a compact text encoding for tuples of strings and
//! integers, described by a small descriptor grammar such as `"%s%d?*"`.
//!
//! - `fmt_strings` compiles a descriptor into a `FormatString`: its items (each
//!   a type, `%s` or `%d`, mandatory or optional with `?`) and its ending
//!   (closed, or open with `*`).
//! - `codec` encodes a tuple of values under a compiled descriptor
//!   (`"%s%d__foo__42"`) and decodes such text back into fields.
//! - `fragments` splits encoded text at each `__`.
//! - `int_text` renders and reads base-10 `i64` text.
//! - `literals` takes the text out of a string literal as written in source.
//! - `text` holds character-level helpers.
pub mod codec;
pub mod fmt_strings;
pub mod fragments;
pub mod int_text;
pub mod literals;
pub mod text;
