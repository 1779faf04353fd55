//! Decoder for the binary region of QVD columnar files.
//!
//! A QVD file stores tabular data as an XML header (which an external parser
//! turns into a [`header::TableHeader`]) followed by a binary region holding,
//! per field, a symbol table of distinct values and, per row, a bit-packed
//! index into that symbol table. This crate decodes that binary region:
//! [`symtab::decode_symbols`] walks a field's symbol-table bytes and
//! [`rowindex::decode_row_indexes`] unpacks the per-row indexes.

pub mod boundary;
pub mod codec;
pub mod error;
pub mod header;
pub mod rowindex;
pub mod symbol;
pub mod symtab;
