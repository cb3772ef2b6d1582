//! A static linker for ELF64 little-endian AArch64 relocatable objects.
//!
//! The library parses relocatable object files, merges their allocatable
//! sections into a virtual address space, resolves global symbols, applies
//! AArch64 relocations, and emits the byte image of a statically linked
//! executable with two `PT_LOAD` program headers.

pub mod bytes;
pub mod elf;
pub mod linker;

use vstd::prelude::*;

verus! {

/// The errors a link can end with.  I/O failures belong to the caller that
/// reads and writes files; everything the library itself detects is here.
#[derive(Clone, Copy, Debug, PartialEq, Eq)]
pub enum LinkError {
    /// Fewer bytes than a complete record requires.
    ShortInput,
    /// The input does not start with the ELF magic bytes.
    BadMagic,
    /// Class, data encoding, or machine is not ELF64/little-endian/AArch64.
    UnsupportedTarget,
    /// A table is inconsistent: zero entry size, a size not divisible by the
    /// entry size, or an offset that indexes past the end of the file.
    Malformed,
    /// Neither `_start` nor `main` is defined as a global symbol.
    NoEntryPoint,
    /// A `SHT_PROGBITS`/`SHT_NOBITS` section whose name starts with `.rel`
    /// was encountered during layout.
    ConsistencyViolation,
}

} // verus!
