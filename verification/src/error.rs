//! The single error type shared by parsing and compilation.

use vstd::prelude::*;

verus! {

/// Describes the possible errors that can be returned by the codec.
///
/// Both kinds are fatal: a parse or compile call either yields a complete
/// result or one of these, never partial output.
#[derive(Clone, Debug)]
pub enum GXTError {
    /// Error during parsing of a GXT file: a bad magic number, a wrong version
    /// or character width, a missing "MAIN" entry, a missing name on an
    /// auxiliary block, or a truncated read.
    ParsingError(String),
    /// Error during compilation of a GXT file: a name longer than 8 bytes, a
    /// name kind that the target variant cannot store, a character with no
    /// encodable representation, or a section that exceeds the 32-bit size
    /// and offset fields of the format.
    CompilationError(String),
}

impl GXTError {
    /// Renders the error as one line of text for diagnostics.
    pub fn describe(&self) -> String {
        let mut out = String::new();
        match self {
            GXTError::ParsingError(m) => {
                out.append("GXT file parsing error: ");
                out.append(m.as_str());
            },
            GXTError::CompilationError(m) => {
                out.append("GXT file compilation error: ");
                out.append(m.as_str());
            },
        }
        out
    }
}

} // verus!
