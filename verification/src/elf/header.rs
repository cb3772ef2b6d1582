//! The ELF header: its decoded record, its 64-byte little-endian layout,
//! and the proof that serialising and re-parsing a header is the identity.

use crate::bytes::{push_u16_le, push_u32_le, push_u64_le, read_u16_at, read_u32_at, read_u64_at,
    read_u8_at};
use crate::LinkError;
use vstd::bytes::{lemma_auto_spec_u16_to_from_le_bytes, lemma_auto_spec_u32_to_from_le_bytes,
    lemma_auto_spec_u64_to_from_le_bytes, spec_u16_from_le_bytes, spec_u16_to_le_bytes,
    spec_u32_from_le_bytes, spec_u32_to_le_bytes, spec_u64_from_le_bytes, spec_u64_to_le_bytes};
use vstd::prelude::*;

verus! {

/// File class: 64-bit objects.
pub const EI_CLASS_64: u8 = 2;

/// Data encoding: little-endian.
pub const EI_DATA_2LSB: u8 = 1;

/// File type: relocatable object.
pub const ET_REL: u16 = 1;

/// File type: executable.
pub const ET_EXEC: u16 = 2;

/// Machine: AArch64.
pub const EM_AARCH64: u16 = 183;

/// The decoded 64-byte ELF header.
#[derive(Clone, Copy, Debug, PartialEq, Eq, Structural)]
pub struct ElfHeader {
    /// File class from `e_ident` (32-bit or 64-bit).
    pub class: u8,
    /// Data encoding from `e_ident`.
    pub data: u8,
    /// ELF version from `e_ident`.
    pub version: u8,
    /// OS/ABI identification from `e_ident`.
    pub os_abi: u8,
    /// ABI version from `e_ident`.
    pub abi_version: u8,
    /// Object file type.
    pub e_type: u16,
    /// Target architecture.
    pub e_machine: u16,
    /// Object file version.
    pub e_version: u32,
    /// Virtual address to which the system first transfers control.
    pub e_entry: u64,
    /// Program header table's file offset in bytes.
    pub e_phoff: u64,
    /// Section header table's file offset in bytes.
    pub e_shoff: u64,
    /// Processor-specific flags.
    pub e_flags: u32,
    /// ELF header's size in bytes.
    pub e_ehsize: u16,
    /// Size of one program header table entry.
    pub e_phentsize: u16,
    /// Number of entries in the program header table.
    pub e_phnum: u16,
    /// Size of one section header table entry.
    pub e_shentsize: u16,
    /// Number of entries in the section header table.
    pub e_shnum: u16,
    /// Index of the section holding all section names.
    pub e_shstrndx: u16,
}

/// Do the first four bytes carry the ELF magic?
pub open spec fn spec_magic_ok(b: Seq<u8>) -> bool {
    b.len() >= 4 && b[0] == 0x7fu8 && b[1] == 0x45u8 && b[2] == 0x4cu8 && b[3] == 0x46u8
}

/// The header decoded from the first 64 bytes of `b`.
pub open spec fn spec_elf_header_of(b: Seq<u8>) -> ElfHeader
    recommends
        b.len() >= 64,
{
    ElfHeader {
        class: b[4],
        data: b[5],
        version: b[6],
        os_abi: b[7],
        abi_version: b[8],
        e_type: spec_u16_from_le_bytes(b.subrange(16, 18)),
        e_machine: spec_u16_from_le_bytes(b.subrange(18, 20)),
        e_version: spec_u32_from_le_bytes(b.subrange(20, 24)),
        e_entry: spec_u64_from_le_bytes(b.subrange(24, 32)),
        e_phoff: spec_u64_from_le_bytes(b.subrange(32, 40)),
        e_shoff: spec_u64_from_le_bytes(b.subrange(40, 48)),
        e_flags: spec_u32_from_le_bytes(b.subrange(48, 52)),
        e_ehsize: spec_u16_from_le_bytes(b.subrange(52, 54)),
        e_phentsize: spec_u16_from_le_bytes(b.subrange(54, 56)),
        e_phnum: spec_u16_from_le_bytes(b.subrange(56, 58)),
        e_shentsize: spec_u16_from_le_bytes(b.subrange(58, 60)),
        e_shnum: spec_u16_from_le_bytes(b.subrange(60, 62)),
        e_shstrndx: spec_u16_from_le_bytes(b.subrange(62, 64)),
    }
}

/// What parsing an ELF header returns: the magic is checked first, then the
/// 64-byte length, then every field is decoded at its documented offset.
pub open spec fn spec_parse_elf_header(b: Seq<u8>) -> Result<ElfHeader, LinkError> {
    if b.len() >= 4 && !spec_magic_ok(b) {
        Err(LinkError::BadMagic)
    } else if b.len() < 64 {
        Err(LinkError::ShortInput)
    } else {
        Ok(spec_elf_header_of(b))
    }
}

/// Parse the ELF header from the start of `input`.
pub fn parse_elf_header(input: &[u8]) -> (r: Result<ElfHeader, LinkError>)
    ensures
        r == spec_parse_elf_header(input@),
{
    let n = input.len();
    if n >= 4 {
        if read_u8_at(input, 0) != 0x7f || read_u8_at(input, 1) != 0x45 || read_u8_at(input, 2)
            != 0x4c || read_u8_at(input, 3) != 0x46 {
            return Err(LinkError::BadMagic);
        }
    }
    if n < 64 {
        return Err(LinkError::ShortInput);
    }
    Ok(
        ElfHeader {
            class: read_u8_at(input, 4),
            data: read_u8_at(input, 5),
            version: read_u8_at(input, 6),
            os_abi: read_u8_at(input, 7),
            abi_version: read_u8_at(input, 8),
            e_type: read_u16_at(input, 16),
            e_machine: read_u16_at(input, 18),
            e_version: read_u32_at(input, 20),
            e_entry: read_u64_at(input, 24),
            e_phoff: read_u64_at(input, 32),
            e_shoff: read_u64_at(input, 40),
            e_flags: read_u32_at(input, 48),
            e_ehsize: read_u16_at(input, 52),
            e_phentsize: read_u16_at(input, 54),
            e_phnum: read_u16_at(input, 56),
            e_shentsize: read_u16_at(input, 58),
            e_shnum: read_u16_at(input, 60),
            e_shstrndx: read_u16_at(input, 62),
        },
    )
}

/// The 64-byte little-endian image of a header: the `e_ident` bytes with
/// zero padding, then every field at its documented offset.
pub open spec fn spec_elf_header_bytes(h: ElfHeader) -> Seq<u8> {
    seq![
        0x7fu8,
        0x45u8,
        0x4cu8,
        0x46u8,
        h.class,
        h.data,
        h.version,
        h.os_abi,
        h.abi_version,
        0u8,
        0u8,
        0u8,
        0u8,
        0u8,
        0u8,
        0u8,
    ] + spec_u16_to_le_bytes(h.e_type) + spec_u16_to_le_bytes(h.e_machine) + spec_u32_to_le_bytes(
        h.e_version,
    ) + spec_u64_to_le_bytes(h.e_entry) + spec_u64_to_le_bytes(h.e_phoff) + spec_u64_to_le_bytes(
        h.e_shoff,
    ) + spec_u32_to_le_bytes(h.e_flags) + spec_u16_to_le_bytes(h.e_ehsize) + spec_u16_to_le_bytes(
        h.e_phentsize,
    ) + spec_u16_to_le_bytes(h.e_phnum) + spec_u16_to_le_bytes(h.e_shentsize)
        + spec_u16_to_le_bytes(h.e_shnum) + spec_u16_to_le_bytes(h.e_shstrndx)
}

/// Serialise a header into its 64-byte little-endian image.
pub fn serialize_elf_header(h: &ElfHeader) -> (r: Vec<u8>)
    ensures
        r@ == spec_elf_header_bytes(*h),
        r@.len() == 64,
{
    proof {
        lemma_auto_spec_u16_to_from_le_bytes();
        lemma_auto_spec_u32_to_from_le_bytes();
        lemma_auto_spec_u64_to_from_le_bytes();
    }
    let mut r: Vec<u8> = Vec::new();
    r.push(0x7f);
    r.push(0x45);
    r.push(0x4c);
    r.push(0x46);
    r.push(h.class);
    r.push(h.data);
    r.push(h.version);
    r.push(h.os_abi);
    r.push(h.abi_version);
    let mut k: usize = 0;
    while k < 7
        invariant
            0 <= k <= 7,
            r@ =~= seq![
                0x7fu8,
                0x45u8,
                0x4cu8,
                0x46u8,
                h.class,
                h.data,
                h.version,
                h.os_abi,
                h.abi_version,
            ] + crate::bytes::zero_bytes(k as int),
        decreases 7 - k,
    {
        r.push(0u8);
        k = k + 1;
    }
    proof {
        assert(r@ =~= seq![
            0x7fu8,
            0x45u8,
            0x4cu8,
            0x46u8,
            h.class,
            h.data,
            h.version,
            h.os_abi,
            h.abi_version,
            0u8,
            0u8,
            0u8,
            0u8,
            0u8,
            0u8,
            0u8,
        ]);
    }
    push_u16_le(&mut r, h.e_type);
    push_u16_le(&mut r, h.e_machine);
    push_u32_le(&mut r, h.e_version);
    push_u64_le(&mut r, h.e_entry);
    push_u64_le(&mut r, h.e_phoff);
    push_u64_le(&mut r, h.e_shoff);
    push_u32_le(&mut r, h.e_flags);
    push_u16_le(&mut r, h.e_ehsize);
    push_u16_le(&mut r, h.e_phentsize);
    push_u16_le(&mut r, h.e_phnum);
    push_u16_le(&mut r, h.e_shentsize);
    push_u16_le(&mut r, h.e_shnum);
    push_u16_le(&mut r, h.e_shstrndx);
    r
}

/// Serialising a header with the documented field widths and re-parsing it
/// yields the original header.
pub proof fn lemma_elf_header_round_trip(h: ElfHeader)
    ensures
        spec_parse_elf_header(spec_elf_header_bytes(h)) == Ok::<ElfHeader, LinkError>(h),
{
    lemma_auto_spec_u16_to_from_le_bytes();
    lemma_auto_spec_u32_to_from_le_bytes();
    lemma_auto_spec_u64_to_from_le_bytes();
    let b = spec_elf_header_bytes(h);
    assert(b.len() == 64);
    assert(spec_magic_ok(b));
    assert(b.subrange(16, 18) =~= spec_u16_to_le_bytes(h.e_type));
    assert(b.subrange(18, 20) =~= spec_u16_to_le_bytes(h.e_machine));
    assert(b.subrange(20, 24) =~= spec_u32_to_le_bytes(h.e_version));
    assert(b.subrange(24, 32) =~= spec_u64_to_le_bytes(h.e_entry));
    assert(b.subrange(32, 40) =~= spec_u64_to_le_bytes(h.e_phoff));
    assert(b.subrange(40, 48) =~= spec_u64_to_le_bytes(h.e_shoff));
    assert(b.subrange(48, 52) =~= spec_u32_to_le_bytes(h.e_flags));
    assert(b.subrange(52, 54) =~= spec_u16_to_le_bytes(h.e_ehsize));
    assert(b.subrange(54, 56) =~= spec_u16_to_le_bytes(h.e_phentsize));
    assert(b.subrange(56, 58) =~= spec_u16_to_le_bytes(h.e_phnum));
    assert(b.subrange(58, 60) =~= spec_u16_to_le_bytes(h.e_shentsize));
    assert(b.subrange(60, 62) =~= spec_u16_to_le_bytes(h.e_shnum));
    assert(b.subrange(62, 64) =~= spec_u16_to_le_bytes(h.e_shstrndx));
    assert(spec_elf_header_of(b) == h);
}

} // verus!
