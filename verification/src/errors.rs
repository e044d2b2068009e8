//! The failures that abort one mate's pipeline. Every one of them is fatal
//! for the affected mate: there is no retry and no partial recovery.

use vstd::prelude::*;
use vstd::string::StringExecFns;

verus! {

/// Why a mate's pipeline stopped.
#[derive(Clone, Copy, Debug, PartialEq, Eq, Structural)]
pub enum ChunkError {
    /// The input file could not be opened.
    OpenError,
    /// A line was not valid text, or the compressed stream was corrupt.
    DecodeError,
    /// The output directory could not be created.
    DirectoryCreateError,
    /// An output file could not be created or a write to it failed.
    WriteError,
}

impl ChunkError {
    /// The message that describes this error to the user.
    pub open spec fn spec_message(self) -> Seq<char> {
        match self {
            ChunkError::OpenError => "cannot open input file"@,
            ChunkError::DecodeError => "input is not valid text or the compressed stream is corrupt"@,
            ChunkError::DirectoryCreateError => "cannot create output directory"@,
            ChunkError::WriteError => "cannot create or write an output file"@,
        }
    }

    /// The message that describes this error to the user.
    pub fn message(&self) -> (m: String)
        ensures
            m@ == self.spec_message(),
    {
        match self {
            ChunkError::OpenError => String::from_str("cannot open input file"),
            ChunkError::DecodeError => String::from_str(
                "input is not valid text or the compressed stream is corrupt",
            ),
            ChunkError::DirectoryCreateError => String::from_str("cannot create output directory"),
            ChunkError::WriteError => String::from_str("cannot create or write an output file"),
        }
    }
}

} // verus!
