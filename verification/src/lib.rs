//! Conversions between the three encodings of a 128-bit sortable identifier
//! (canonical 26-character base-32 text, 16 raw bytes, 32 hexadecimal digits)
//! and the SQL lookup snippets built from them.

pub mod codec;
pub mod commands;
pub mod digits;
pub mod sql;
