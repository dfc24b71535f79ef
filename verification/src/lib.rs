//! Codec for the GXT packed string-table format used by several legacy game
//! titles.  A GXT file stores a directory of named string tables as chained
//! sections: an optional table of contents, then one key index and one data
//! blob per table.  This crate converts between that binary layout and an
//! in-memory document, byte for byte: parsing decodes every string through
//! per-variant character tables, and compilation rebuilds the exact layout
//! with content-addressed deduplication and token-sorted key indexes.

use vstd::prelude::*;

pub mod bytes;
pub mod charcodec;
pub mod compiler;
pub mod error;
pub mod format;
pub mod hashing;
pub mod laws;
pub mod model;
pub mod names;
pub mod parser;
pub mod strutil;
pub mod tables;
pub mod tokens;

pub use charcodec::GXTCharacterTable;
pub use charcodec::decode_character;
pub use charcodec::encode_character;
pub use charcodec::encode_string;
pub use error::GXTError;
pub use format::GXTFileFormat;
pub use format::ImportOrdering;
pub use hashing::build_name_list;
pub use hashing::crc32_jamcrc;
pub use model::GXTFile;
pub use model::GXTStringTable;
pub use names::GXTStringName;
pub use names::string_from_name;
pub use names::string_to_name;
pub use names::string_to_name_basic;
pub use parser::gxt_read_tabl;
pub use parser::gxt_read_tkey;
pub use parser::gxt_read_tdat;
pub use tokens::GXTToken;
pub use tokens::split_into_tokens;

verus! {

} // verus!
