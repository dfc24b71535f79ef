//! The closed set of supported on-disk format variants and the per-variant
//! framing facts that the parser and the compiler share.

use vstd::prelude::*;

verus! {

/// Specifies one of the possible formats to be used when creating or loading a GXT file.
#[derive(Clone, Copy, PartialEq, Eq, Structural, Debug)]
pub enum GXTFileFormat {
    /// Single-table format: no table of contents, 8-byte text names, 16-bit characters.
    Three,
    /// Table of contents, 8-byte text names, 16-bit characters.
    Vice,
    /// Version header, table of contents, CRC32 hash names, 8-bit characters.
    San8,
    /// Version header, table of contents, CRC32 hash names, 16-bit characters.
    San16,
}

/// Specifies the order in which strings are to be stored, when read from a GXT file.
#[derive(Clone, Copy, PartialEq, Eq, Structural, Debug)]
pub enum ImportOrdering {
    /// Do not change the order during import (order according to TDAT and TKEY entries).
    Native,
    /// Sort tables and strings by their names (alphabetically or by CRC32 hash).
    Key,
    /// Sort tables and strings by their data offsets in the GXT file.
    Offset,
}

impl GXTFileFormat {
    /// Whether string names are stored as 8-byte text tokens (as opposed to CRC32 hashes).
    pub open spec fn spec_uses_text_names(&self) -> bool {
        *self == GXTFileFormat::Three || *self == GXTFileFormat::Vice
    }

    /// Whether string names are stored as 8-byte text tokens (as opposed to CRC32 hashes).
    #[verifier::when_used_as_spec(spec_uses_text_names)]
    pub fn uses_text_names(&self) -> (r: bool)
        ensures
            r == self.spec_uses_text_names(),
    {
        match self {
            GXTFileFormat::Three | GXTFileFormat::Vice => true,
            GXTFileFormat::San8 | GXTFileFormat::San16 => false,
        }
    }

    /// Whether string characters are stored as single bytes (only the 8-bit variant)
    /// rather than 16-bit little-endian units.
    pub open spec fn spec_uses_narrow_chars(&self) -> bool {
        *self == GXTFileFormat::San8
    }

    /// Whether string characters are stored as single bytes (only the 8-bit variant)
    /// rather than 16-bit little-endian units.
    #[verifier::when_used_as_spec(spec_uses_narrow_chars)]
    pub fn uses_narrow_chars(&self) -> (r: bool)
        ensures
            r == self.spec_uses_narrow_chars(),
    {
        match self {
            GXTFileFormat::San8 => true,
            _ => false,
        }
    }

    /// Size in bytes of one key-index entry: a 4-byte data offset followed by
    /// the name token (8 text bytes, or a 4-byte hash).
    pub open spec fn spec_key_entry_size(&self) -> u32 {
        if self.spec_uses_text_names() {
            12
        } else {
            8
        }
    }

    /// Size in bytes of one key-index entry: a 4-byte data offset followed by
    /// the name token (8 text bytes, or a 4-byte hash).
    #[verifier::when_used_as_spec(spec_key_entry_size)]
    pub fn key_entry_size(&self) -> (r: u32)
        ensures
            r == self.spec_key_entry_size(),
    {
        if self.uses_text_names() {
            12
        } else {
            8
        }
    }
}

} // verus!
