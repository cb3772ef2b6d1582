//! Symbols: the decoded record, the symbol table parser, and symbol-name
//! lookup.

use crate::bytes::{read_u16_at, read_u32_at, read_u64_at, read_u8_at};
use crate::elf::section::SectionHeader;
use crate::elf::{lookup_name, spec_name};
use crate::LinkError;
use vstd::bytes::{spec_u16_from_le_bytes, spec_u32_from_le_bytes, spec_u64_from_le_bytes};
use vstd::prelude::*;

verus! {

/// Symbol binding: local.
pub const STB_LOCAL: u8 = 0;

/// Symbol binding: global.
pub const STB_GLOBAL: u8 = 1;

/// Symbol binding: weak.
pub const STB_WEAK: u8 = 2;

/// The decoded 24-byte symbol table entry.
#[derive(Clone, Copy, Debug, PartialEq, Eq, Structural)]
pub struct Symbol {
    /// Index into the symbol string table.
    pub name_offset: u32,
    /// Binding (high nibble) and type (low nibble).
    pub info: u8,
    /// Reserved visibility byte.
    pub other: u8,
    /// Index of the section this symbol is defined in; 0 means undefined.
    pub shndx: u16,
    /// The symbol's value: its offset within its section.
    pub value: u64,
    /// The symbol's size in bytes.
    pub size: u64,
}

impl Symbol {
    /// The binding attribute: LOCAL, GLOBAL, or WEAK.
    pub fn get_bind(&self) -> (r: u8)
        ensures
            r == self.info >> 4,
    {
        self.info >> 4
    }

    /// The type attribute: NOTYPE, OBJECT, FUNC, SECTION, or FILE.
    pub fn get_type(&self) -> (r: u8)
        ensures
            r == self.info & 0x0F,
    {
        self.info & 0x0F
    }
}

/// The symbol decoded from the first 24 bytes of `b`.
pub open spec fn spec_symbol_of(b: Seq<u8>) -> Symbol
    recommends
        b.len() >= 24,
{
    Symbol {
        name_offset: spec_u32_from_le_bytes(b.subrange(0, 4)),
        info: b[4],
        other: b[5],
        shndx: spec_u16_from_le_bytes(b.subrange(6, 8)),
        value: spec_u64_from_le_bytes(b.subrange(8, 16)),
        size: spec_u64_from_le_bytes(b.subrange(16, 24)),
    }
}

/// Parse one symbol at byte position `pos` of `file`.
pub fn parse_symbol(file: &[u8], pos: usize) -> (r: Symbol)
    requires
        pos + 24 <= file@.len(),
    ensures
        r == spec_symbol_of(file@.subrange(pos as int, pos + 24)),
{
    let n = file.len();
    let r = Symbol {
        name_offset: read_u32_at(file, pos),
        info: read_u8_at(file, pos + 4),
        other: read_u8_at(file, pos + 5),
        shndx: read_u16_at(file, pos + 6),
        value: read_u64_at(file, pos + 8),
        size: read_u64_at(file, pos + 16),
    };
    proof {
        let b = file@.subrange(pos as int, pos + 24);
        assert(file@.subrange(pos as int, pos + 4) =~= b.subrange(0, 4));
        assert(file@.subrange(pos + 6, pos + 8) =~= b.subrange(6, 8));
        assert(file@.subrange(pos + 8, pos + 16) =~= b.subrange(8, 16));
        assert(file@.subrange(pos + 16, pos + 24) =~= b.subrange(16, 24));
    }
    r
}

/// Is a table of fixed-size entries consistent, and does it lie within the
/// file?  The entry size must be non-zero, the table size divisible by it,
/// and the `size / entsize` records of 24 bytes each must fit after `offset`.
pub open spec fn spec_entry_table_in_bounds(b: Seq<u8>, h: SectionHeader) -> bool {
    &&& h.entsize != 0
    &&& h.size % h.entsize == 0
    &&& h.offset + 24 * (h.size / h.entsize) <= b.len()
}

/// The symbol table described by `h` inside `b`: `size / entsize` records of
/// 24 bytes each, starting at `offset`.
pub open spec fn symbols_of(b: Seq<u8>, h: SectionHeader) -> Seq<Symbol> {
    Seq::new(
        (h.size / h.entsize) as nat,
        |i: int| spec_symbol_of(b.subrange(h.offset + 24 * i, h.offset + 24 * i + 24)),
    )
}

/// Parse the symbol table described by `symtab_header`: `size / entsize`
/// consecutive 24-byte records starting at `offset`.
pub fn parse_symbol_table(file: &[u8], symtab_header: &SectionHeader) -> (r: Result<
    Vec<Symbol>,
    LinkError,
>)
    ensures
        r is Ok <==> spec_entry_table_in_bounds(file@, *symtab_header),
        r is Err ==> r == Err::<Vec<Symbol>, LinkError>(LinkError::Malformed),
        r matches Ok(v) ==> v@ == symbols_of(file@, *symtab_header),
{
    let n = file.len();
    if symtab_header.entsize == 0 || symtab_header.size % symtab_header.entsize != 0 {
        return Err(LinkError::Malformed);
    }
    let num64: u64 = symtab_header.size / symtab_header.entsize;
    if symtab_header.offset > n as u64 || num64 > (n as u64 - symtab_header.offset) / 24 {
        proof {
            assert(!spec_entry_table_in_bounds(file@, *symtab_header)) by (nonlinear_arith)
                requires
                    symtab_header.offset <= n as u64 ==> num64 > (n as u64 - symtab_header.offset)
                        / 24,
                    num64 == symtab_header.size / symtab_header.entsize,
                    symtab_header.entsize != 0,
                    n == file@.len(),
            ;
        }
        return Err(LinkError::Malformed);
    }
    proof {
        assert(symtab_header.offset + 24 * num64 <= n) by (nonlinear_arith)
            requires
                symtab_header.offset <= n as u64,
                num64 <= (n as u64 - symtab_header.offset) / 24,
        ;
    }
    let num: usize = num64 as usize;
    let off = symtab_header.offset as usize;
    let mut v: Vec<Symbol> = Vec::new();
    let mut i: usize = 0;
    while i < num
        invariant
            i <= num,
            v@.len() == i,
            n == file@.len(),
            off + 24 * num <= n,
            forall|j: int|
                0 <= j < i ==> v@[j] == spec_symbol_of(
                    #[trigger] file@.subrange(off + 24 * j, off + 24 * j + 24),
                ),
        decreases num - i,
    {
        let s = parse_symbol(file, off + 24 * i);
        v.push(s);
        i = i + 1;
    }
    proof {
        assert(v@ =~= symbols_of(file@, *symtab_header));
    }
    Ok(v)
}

/// Resolve a symbol's name from the symbol string table.
pub fn get_symbol_name(strtab_data: &Vec<u8>, symbol: &Symbol) -> (r: Option<Vec<u8>>)
    ensures
        match r {
            Some(v) => spec_name(strtab_data@, symbol.name_offset as int) == Some(v@),
            None => spec_name(strtab_data@, symbol.name_offset as int) is None,
        },
{
    lookup_name(strtab_data, symbol.name_offset)
}

} // verus!
