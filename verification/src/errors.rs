//! The ways the analysis can fail.

use vstd::prelude::*;

verus! {

/// Why an analysis step failed.
#[derive(Clone, Debug, PartialEq, Eq)]
pub enum Error {
    /// A symbol names a section index that the object does not have.
    UnrecognizedSection,
    /// A symbol's bytes do not lie inside its section's data.
    BadSlice,
    /// The `elf` crate refused the file; the text is its message.
    ElfParse(String),
    /// The file is an ELF, but not a 32-bit one.
    NotElf32,
    /// The file is a 32-bit ELF, but not for ARM.
    NotArm32,
    /// The file has no symbol table or no string table for it.
    NoSymtab,
    /// A `.o` listed in the link spec has both a `.c` and a `.s` source; the text is its stem.
    BothCAndAsm(String),
    /// Two objects of one stem come from different source languages; the text is the stem.
    ConflictingSourceTypes(String),
    /// An object path in the link spec has no `/` to split its stem off.
    NoSlashInPath,
}

} // verus!
