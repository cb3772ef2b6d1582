//! RELA relocation entries: the decoded record and the RELA table parser.

use crate::bytes::read_u64_at;
use crate::elf::section::SectionHeader;
use crate::LinkError;
use vstd::bytes::spec_u64_from_le_bytes;
use vstd::prelude::*;

verus! {

/// Relocation: absolute 64-bit, `S + A`.
pub const R_AARCH64_ABS64: u32 = 257;

/// Relocation: absolute 32-bit, low 32 bits of `S + A`.
pub const R_AARCH64_ABS32: u32 = 258;

/// Relocation: absolute 16-bit, low 16 bits of `S + A`.
pub const R_AARCH64_ABS16: u32 = 259;

/// Relocation: PC-relative 32-bit, low 32 bits of `S + A - P`.
pub const R_AARCH64_PREL32: u32 = 261;

/// Relocation: B instruction, imm26 field of `(S + A - P) >> 2`.
pub const R_AARCH64_JUMP26: u32 = 282;

/// Relocation: BL instruction, imm26 field of `(S + A - P) >> 2`.
pub const R_AARCH64_CALL26: u32 = 283;

/// The decoded 24-byte RELA entry: a relocation with an explicit addend.
#[derive(Clone, Copy, Debug, PartialEq, Eq, Structural)]
pub struct Rela {
    /// Byte offset of the patched location within the target section.
    pub offset: u64,
    /// Symbol index (high 32 bits) and relocation type (low 32 bits).
    pub info: u64,
    /// The signed addend.
    pub addend: i64,
}

impl Rela {
    /// The index of the referenced symbol in the file's symbol table.
    pub fn get_symbol_index(&self) -> (r: u32)
        ensures
            r == (self.info >> 32) as u32,
    {
        (self.info >> 32) as u32
    }

    /// The relocation type code.
    pub fn get_type(&self) -> (r: u32)
        ensures
            r == (self.info & 0xFFFFFFFF) as u32,
    {
        (self.info & 0xFFFFFFFF) as u32
    }
}

/// The RELA entry decoded from the first 24 bytes of `b`.
pub open spec fn spec_rela_of(b: Seq<u8>) -> Rela
    recommends
        b.len() >= 24,
{
    Rela {
        offset: spec_u64_from_le_bytes(b.subrange(0, 8)),
        info: spec_u64_from_le_bytes(b.subrange(8, 16)),
        addend: spec_u64_from_le_bytes(b.subrange(16, 24)) as i64,
    }
}

/// Parse one RELA entry at byte position `pos` of `file`.
pub fn parse_rela_entry(file: &[u8], pos: usize) -> (r: Rela)
    requires
        pos + 24 <= file@.len(),
    ensures
        r == spec_rela_of(file@.subrange(pos as int, pos + 24)),
{
    let n = file.len();
    let r = Rela {
        offset: read_u64_at(file, pos),
        info: read_u64_at(file, pos + 8),
        addend: #[verifier::truncate] (read_u64_at(file, pos + 16) as i64),
    };
    proof {
        let b = file@.subrange(pos as int, pos + 24);
        assert(file@.subrange(pos as int, pos + 8) =~= b.subrange(0, 8));
        assert(file@.subrange(pos + 8, pos + 16) =~= b.subrange(8, 16));
        assert(file@.subrange(pos + 16, pos + 24) =~= b.subrange(16, 24));
    }
    r
}

/// The RELA table described by `h` inside `b`: `size / entsize` records of
/// 24 bytes each, starting at `offset`.
pub open spec fn relas_of(b: Seq<u8>, h: SectionHeader) -> Seq<Rela> {
    Seq::new(
        (h.size / h.entsize) as nat,
        |i: int| spec_rela_of(b.subrange(h.offset + 24 * i, h.offset + 24 * i + 24)),
    )
}

/// Parse the RELA table described by `rela_header`: `size / entsize`
/// consecutive 24-byte records starting at `offset`.
pub fn parse_rela_table(file: &[u8], rela_header: &SectionHeader) -> (r: Result<
    Vec<Rela>,
    LinkError,
>)
    ensures
        r is Ok <==> crate::elf::symbol::spec_entry_table_in_bounds(file@, *rela_header),
        r is Err ==> r == Err::<Vec<Rela>, LinkError>(LinkError::Malformed),
        r matches Ok(v) ==> v@ == relas_of(file@, *rela_header),
{
    let n = file.len();
    if rela_header.entsize == 0 || rela_header.size % rela_header.entsize != 0 {
        return Err(LinkError::Malformed);
    }
    let num64: u64 = rela_header.size / rela_header.entsize;
    if rela_header.offset > n as u64 || num64 > (n as u64 - rela_header.offset) / 24 {
        proof {
            assert(!crate::elf::symbol::spec_entry_table_in_bounds(file@, *rela_header))
                by (nonlinear_arith)
                requires
                    rela_header.offset <= n as u64 ==> num64 > (n as u64 - rela_header.offset)
                        / 24,
                    num64 == rela_header.size / rela_header.entsize,
                    rela_header.entsize != 0,
                    n == file@.len(),
            ;
        }
        return Err(LinkError::Malformed);
    }
    proof {
        assert(rela_header.offset + 24 * num64 <= n) by (nonlinear_arith)
            requires
                rela_header.offset <= n as u64,
                num64 <= (n as u64 - rela_header.offset) / 24,
        ;
    }
    let num: usize = num64 as usize;
    let off = rela_header.offset as usize;
    let mut v: Vec<Rela> = Vec::new();
    let mut i: usize = 0;
    while i < num
        invariant
            i <= num,
            v@.len() == i,
            n == file@.len(),
            off + 24 * num <= n,
            forall|j: int|
                0 <= j < i ==> v@[j] == spec_rela_of(
                    #[trigger] file@.subrange(off + 24 * j, off + 24 * j + 24),
                ),
        decreases num - i,
    {
        let e = parse_rela_entry(file, off + 24 * i);
        v.push(e);
        i = i + 1;
    }
    proof {
        assert(v@ =~= relas_of(file@, *rela_header));
    }
    Ok(v)
}

} // verus!
