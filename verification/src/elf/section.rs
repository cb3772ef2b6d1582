//! Section headers: the decoded record, the section header table parser,
//! and section-name lookup.

use crate::bytes::{read_u32_at, read_u64_at};
use crate::elf::header::ElfHeader;
use crate::elf::{lookup_name, spec_name};
use crate::LinkError;
use vstd::bytes::{spec_u32_from_le_bytes, spec_u64_from_le_bytes};
use vstd::prelude::*;

verus! {

/// Section type: program-defined contents.
pub const SHT_PROGBITS: u32 = 1;

/// Section type: symbol table.
pub const SHT_SYMTAB: u32 = 2;

/// Section type: relocations with explicit addends.
pub const SHT_RELA: u32 = 4;

/// Section type: occupies no file space.
pub const SHT_NOBITS: u32 = 8;

/// Section flag: occupies memory during execution.
pub const SHF_ALLOC: u64 = 0x2;

/// Section flag: holds executable instructions.
pub const SHF_EXECINSTR: u64 = 0x4;

/// The decoded 64-byte section header.
#[derive(Clone, Copy, Debug, PartialEq, Eq, Structural)]
pub struct SectionHeader {
    /// Index into the section header string table.
    pub name_offset: u32,
    /// Section type.
    pub sh_type: u32,
    /// Section flags.
    pub flags: u64,
    /// Virtual address of the section in memory.
    pub addr: u64,
    /// Byte offset of the section's contents in the file.
    pub offset: u64,
    /// Section's size in bytes.
    pub size: u64,
    /// A section header table index link, whose meaning depends on the type.
    pub link: u32,
    /// Extra information, whose meaning depends on the type.
    pub info: u32,
    /// Address alignment constraint.
    pub addralign: u64,
    /// Entry size for sections holding fixed-size entries.
    pub entsize: u64,
}

/// The section header decoded from the first 64 bytes of `b`.
pub open spec fn spec_section_header_of(b: Seq<u8>) -> SectionHeader
    recommends
        b.len() >= 64,
{
    SectionHeader {
        name_offset: spec_u32_from_le_bytes(b.subrange(0, 4)),
        sh_type: spec_u32_from_le_bytes(b.subrange(4, 8)),
        flags: spec_u64_from_le_bytes(b.subrange(8, 16)),
        addr: spec_u64_from_le_bytes(b.subrange(16, 24)),
        offset: spec_u64_from_le_bytes(b.subrange(24, 32)),
        size: spec_u64_from_le_bytes(b.subrange(32, 40)),
        link: spec_u32_from_le_bytes(b.subrange(40, 44)),
        info: spec_u32_from_le_bytes(b.subrange(44, 48)),
        addralign: spec_u64_from_le_bytes(b.subrange(48, 56)),
        entsize: spec_u64_from_le_bytes(b.subrange(56, 64)),
    }
}

/// Parse one section header at byte position `pos` of `file`.
pub fn parse_section_header(file: &[u8], pos: usize) -> (r: SectionHeader)
    requires
        pos + 64 <= file@.len(),
    ensures
        r == spec_section_header_of(file@.subrange(pos as int, pos + 64)),
{
    let n = file.len();
    let r = SectionHeader {
        name_offset: read_u32_at(file, pos),
        sh_type: read_u32_at(file, pos + 4),
        flags: read_u64_at(file, pos + 8),
        addr: read_u64_at(file, pos + 16),
        offset: read_u64_at(file, pos + 24),
        size: read_u64_at(file, pos + 32),
        link: read_u32_at(file, pos + 40),
        info: read_u32_at(file, pos + 44),
        addralign: read_u64_at(file, pos + 48),
        entsize: read_u64_at(file, pos + 56),
    };
    proof {
        let b = file@.subrange(pos as int, pos + 64);
        assert(file@.subrange(pos as int, pos + 4) =~= b.subrange(0, 4));
        assert(file@.subrange(pos + 4, pos + 8) =~= b.subrange(4, 8));
        assert(file@.subrange(pos + 8, pos + 16) =~= b.subrange(8, 16));
        assert(file@.subrange(pos + 16, pos + 24) =~= b.subrange(16, 24));
        assert(file@.subrange(pos + 24, pos + 32) =~= b.subrange(24, 32));
        assert(file@.subrange(pos + 32, pos + 40) =~= b.subrange(32, 40));
        assert(file@.subrange(pos + 40, pos + 44) =~= b.subrange(40, 44));
        assert(file@.subrange(pos + 44, pos + 48) =~= b.subrange(44, 48));
        assert(file@.subrange(pos + 48, pos + 56) =~= b.subrange(48, 56));
        assert(file@.subrange(pos + 56, pos + 64) =~= b.subrange(56, 64));
    }
    r
}

/// The section header table of `b`: `e_shnum` records of 64 bytes each,
/// starting at `e_shoff`.
pub open spec fn sections_of(b: Seq<u8>, h: ElfHeader) -> Seq<SectionHeader> {
    Seq::new(
        h.e_shnum as nat,
        |i: int| spec_section_header_of(b.subrange(h.e_shoff + 64 * i, h.e_shoff + 64 * i + 64)),
    )
}

/// Does the table of `h.e_shnum` section headers, each 64 bytes, starting at
/// `h.e_shoff`, lie within the file?
pub open spec fn spec_shtable_in_bounds(b: Seq<u8>, h: ElfHeader) -> bool {
    h.e_shoff + 64 * h.e_shnum <= b.len()
}

/// Parse the section header table: `e_shnum` entries of 64 bytes starting at
/// byte offset `e_shoff`.
pub fn parse_section_header_table(file: &[u8], elf_header: &ElfHeader) -> (r: Result<
    Vec<SectionHeader>,
    LinkError,
>)
    ensures
        r is Ok <==> spec_shtable_in_bounds(file@, *elf_header),
        r is Err ==> r == Err::<Vec<SectionHeader>, LinkError>(LinkError::Malformed),
        r matches Ok(v) ==> v@ == sections_of(file@, *elf_header),
{
    let n = file.len();
    let num: usize = elf_header.e_shnum as usize;
    let table_bytes: u64 = 64 * (elf_header.e_shnum as u64);
    if elf_header.e_shoff > n as u64 || table_bytes > n as u64 - elf_header.e_shoff {
        return Err(LinkError::Malformed);
    }
    let off = elf_header.e_shoff as usize;
    let mut v: Vec<SectionHeader> = Vec::new();
    let mut i: usize = 0;
    while i < num
        invariant
            i <= num,
            v@.len() == i,
            n == file@.len(),
            off + 64 * num <= n,
            forall|j: int|
                0 <= j < i ==> v@[j] == spec_section_header_of(
                    #[trigger] file@.subrange(off + 64 * j, off + 64 * j + 64),
                ),
        decreases num - i,
    {
        let sh = parse_section_header(file, off + 64 * i);
        v.push(sh);
        i = i + 1;
    }
    proof {
        assert(v@ =~= sections_of(file@, *elf_header));
    }
    Ok(v)
}

/// Resolve a section's name from the section header string table.
pub fn get_section_name(shstrtab_data: &Vec<u8>, section_header: &SectionHeader) -> (r: Option<
    Vec<u8>,
>)
    ensures
        match r {
            Some(v) => spec_name(shstrtab_data@, section_header.name_offset as int) == Some(v@),
            None => spec_name(shstrtab_data@, section_header.name_offset as int) is None,
        },
{
    lookup_name(shstrtab_data, section_header.name_offset)
}

} // verus!
