//! The linker pipeline: input bookkeeping, section layout and merging,
//! symbol resolution, relocation, and emission of the executable image.

use crate::bytes::{append_bytes, bytes_eq, bytes_starts_with, copy_into, copy_range, push_u32_le,
    push_u64_le, push_zeros, spec_store, store_u16_le, store_u32_le, store_u64_le, zero_bytes,
    zero_vec};
use crate::elf::header::{spec_elf_header_bytes, spec_parse_elf_header, serialize_elf_header,
    ElfHeader, EI_CLASS_64, EI_DATA_2LSB, EM_AARCH64, ET_EXEC, parse_elf_header};
use crate::elf::relocation::{parse_rela_table, relas_of, Rela, R_AARCH64_ABS16, R_AARCH64_ABS32,
    R_AARCH64_ABS64, R_AARCH64_CALL26, R_AARCH64_JUMP26, R_AARCH64_PREL32};
use crate::elf::section::{get_section_name, parse_section_header_table, sections_of,
    spec_shtable_in_bounds, SectionHeader, SHF_ALLOC, SHF_EXECINSTR, SHT_NOBITS, SHT_PROGBITS,
    SHT_RELA, SHT_SYMTAB};
use crate::elf::symbol::{get_symbol_name, parse_symbol_table, spec_entry_table_in_bounds,
    symbols_of, Symbol, STB_GLOBAL};
use crate::elf::spec_name;
use crate::LinkError;
use vstd::prelude::*;

verus! {

/// Program header type: loadable segment.
pub const PT_LOAD: u32 = 1;

/// Program header flag: readable.
pub const PF_R: u32 = 4;

/// Program header flag: writable.
pub const PF_W: u32 = 2;

/// Program header flag: executable.
pub const PF_X: u32 = 1;

/// The virtual base address of the executable.
pub const BASE_ADDR: u64 = 0x400000;

/// The loader's page size; segments are aligned to it.
pub const PAGE_SIZE: u64 = 0x1000;

/// Size of the ELF header in bytes.
pub const ELF_HEADER_SIZE: u64 = 64;

/// Size of one program header in bytes.
pub const PROGRAM_HEADER_SIZE: u64 = 56;

/// The linker emits exactly two program headers: code and data.
pub const NUM_PROGRAM_HEADERS: u64 = 2;

/// Total bytes the ELF header and both program headers occupy.
pub const HEADERS_TOTAL_SIZE: u64 = 176;

/// One parsed input object: its raw bytes, decoded header, section list,
/// symbol table, and owned copies of its two string tables.
pub struct InputFile {
    /// The path the file was read from, kept for diagnostics.
    pub filename: String,
    /// The raw file bytes.
    pub content: Vec<u8>,
    /// The decoded ELF header.
    pub header: ElfHeader,
    /// The decoded section header table.
    pub sections: Vec<SectionHeader>,
    /// The decoded symbol table.
    pub symbols: Vec<Symbol>,
    /// The section header string table's bytes.
    pub shstrtab_data: Vec<u8>,
    /// The symbol string table's bytes.
    pub strtab_data: Vec<u8>,
}

/// The merged image of all input sections of a given name.
pub struct OutputSection {
    /// The section name, as the bytes of its NUL-terminated source.
    pub name: Vec<u8>,
    /// The merged header: flags and type inherited from a contributing
    /// section, `size` the merged total, `addr` assigned by layout.
    pub header: SectionHeader,
    /// The merged contents, of length `header.size` after layout.
    pub data: Vec<u8>,
}

/// A resolved global symbol: its name and final virtual address.
pub struct GlobalSymbol {
    /// The symbol name bytes.
    pub name: Vec<u8>,
    /// The symbol's virtual address in the output image.
    pub final_addr: u64,
}

/// One program header of the output executable.
#[derive(Clone, Copy, Debug, PartialEq, Eq, Structural)]
pub struct ProgramHeader {
    /// Segment type.
    pub p_type: u32,
    /// Segment flags.
    pub flags: u32,
    /// File offset of the segment.
    pub offset: u64,
    /// Virtual address of the segment.
    pub vaddr: u64,
    /// Physical address of the segment.
    pub paddr: u64,
    /// Bytes of the segment present in the file.
    pub filesz: u64,
    /// Bytes of the segment in memory.
    pub memsz: u64,
    /// Segment alignment.
    pub align: u64,
}

/// Where one input section's bytes start within its output section.
#[derive(Clone, Copy, Debug, PartialEq, Eq, Structural)]
pub struct SectionOffset {
    /// Index of the input file.
    pub file_idx: usize,
    /// Index of the section within that file.
    pub section_idx: usize,
    /// Byte offset of that section's contents inside the output section.
    pub offset: u64,
}

/// The linker's workspace: inputs, merged output sections, resolved global
/// symbols, the address cursor, and the input-section offset table.
pub struct LinkerContext {
    /// The input files, in the order they were added.
    pub input_files: Vec<InputFile>,
    /// The merged output sections.
    pub output_sections: Vec<OutputSection>,
    /// The resolved global symbols; names are unique.
    pub global_symbols: Vec<GlobalSymbol>,
    /// The address cursor used while assigning virtual addresses.
    pub current_addr: u64,
    /// Where each input section's bytes start within its output section.
    pub input_section_offsets: Vec<SectionOffset>,
}

impl Default for LinkerContext {
    /// A fresh context: no inputs, no outputs, the cursor at the base
    /// virtual address.
    fn default() -> (r: Self)
        ensures
            r.input_files@.len() == 0,
            r.output_sections@.len() == 0,
            r.global_symbols@.len() == 0,
            r.current_addr == BASE_ADDR,
            r.input_section_offsets@.len() == 0,
    {
        LinkerContext {
            input_files: Vec::new(),
            output_sections: Vec::new(),
            global_symbols: Vec::new(),
            current_addr: 0x400000,
            input_section_offsets: Vec::new(),
        }
    }
}

/// The bytes of the name `.text`.
pub open spec fn text_name() -> Seq<u8> {
    seq![0x2eu8, 0x74u8, 0x65u8, 0x78u8, 0x74u8]
}

/// The bytes of the name `.rodata`.
pub open spec fn rodata_name() -> Seq<u8> {
    seq![0x2eu8, 0x72u8, 0x6fu8, 0x64u8, 0x61u8, 0x74u8, 0x61u8]
}

/// The bytes of the name `.data`.
pub open spec fn data_name() -> Seq<u8> {
    seq![0x2eu8, 0x64u8, 0x61u8, 0x74u8, 0x61u8]
}

/// The bytes of the name `.bss`.
pub open spec fn bss_name() -> Seq<u8> {
    seq![0x2eu8, 0x62u8, 0x73u8, 0x73u8]
}

/// The bytes of the prefix `.rel`.
pub open spec fn rel_prefix() -> Seq<u8> {
    seq![0x2eu8, 0x72u8, 0x65u8, 0x6cu8]
}

/// The bytes of the name `_start`.
pub open spec fn start_name() -> Seq<u8> {
    seq![0x5fu8, 0x73u8, 0x74u8, 0x61u8, 0x72u8, 0x74u8]
}

/// The bytes of the name `main`.
pub open spec fn main_name() -> Seq<u8> {
    seq![0x6du8, 0x61u8, 0x69u8, 0x6eu8]
}

/// The deterministic ordering rank of an output section name:
/// `.text` before `.rodata` before `.data` before `.bss` before the rest.
pub open spec fn spec_priority(name: Seq<u8>) -> int {
    if name == text_name() {
        0
    } else if name == rodata_name() {
        1
    } else if name == data_name() {
        2
    } else if name == bss_name() {
        3
    } else {
        4
    }
}

/// The exec image of `.text`.
pub fn make_text_name() -> (v: Vec<u8>)
    ensures
        v@ == text_name(),
{
    let mut v: Vec<u8> = Vec::new();
    v.push(0x2e);
    v.push(0x74);
    v.push(0x65);
    v.push(0x78);
    v.push(0x74);
    proof {
        assert(v@ =~= text_name());
    }
    v
}

/// The exec image of `.rodata`.
pub fn make_rodata_name() -> (v: Vec<u8>)
    ensures
        v@ == rodata_name(),
{
    let mut v: Vec<u8> = Vec::new();
    v.push(0x2e);
    v.push(0x72);
    v.push(0x6f);
    v.push(0x64);
    v.push(0x61);
    v.push(0x74);
    v.push(0x61);
    proof {
        assert(v@ =~= rodata_name());
    }
    v
}

/// The exec image of `.data`.
pub fn make_data_name() -> (v: Vec<u8>)
    ensures
        v@ == data_name(),
{
    let mut v: Vec<u8> = Vec::new();
    v.push(0x2e);
    v.push(0x64);
    v.push(0x61);
    v.push(0x74);
    v.push(0x61);
    proof {
        assert(v@ =~= data_name());
    }
    v
}

/// The exec image of `.bss`.
pub fn make_bss_name() -> (v: Vec<u8>)
    ensures
        v@ == bss_name(),
{
    let mut v: Vec<u8> = Vec::new();
    v.push(0x2e);
    v.push(0x62);
    v.push(0x73);
    v.push(0x73);
    proof {
        assert(v@ =~= bss_name());
    }
    v
}

/// The exec image of the prefix `.rel`.
pub fn make_rel_prefix() -> (v: Vec<u8>)
    ensures
        v@ == rel_prefix(),
{
    let mut v: Vec<u8> = Vec::new();
    v.push(0x2e);
    v.push(0x72);
    v.push(0x65);
    v.push(0x6c);
    proof {
        assert(v@ =~= rel_prefix());
    }
    v
}

/// The exec image of `_start`.
pub fn make_start_name() -> (v: Vec<u8>)
    ensures
        v@ == start_name(),
{
    let mut v: Vec<u8> = Vec::new();
    v.push(0x5f);
    v.push(0x73);
    v.push(0x74);
    v.push(0x61);
    v.push(0x72);
    v.push(0x74);
    proof {
        assert(v@ =~= start_name());
    }
    v
}

/// The exec image of `main`.
pub fn make_main_name() -> (v: Vec<u8>)
    ensures
        v@ == main_name(),
{
    let mut v: Vec<u8> = Vec::new();
    v.push(0x6d);
    v.push(0x61);
    v.push(0x69);
    v.push(0x6e);
    proof {
        assert(v@ =~= main_name());
    }
    v
}

/// The ordering rank of a name, computed.
pub fn priority_of(name: &Vec<u8>) -> (p: u8)
    ensures
        p == spec_priority(name@),
{
    let t = make_text_name();
    if bytes_eq(name, &t) {
        return 0;
    }
    let r = make_rodata_name();
    if bytes_eq(name, &r) {
        return 1;
    }
    let d = make_data_name();
    if bytes_eq(name, &d) {
        return 2;
    }
    let b = make_bss_name();
    if bytes_eq(name, &b) {
        return 3;
    }
    4
}

/// `addr` rounded up to the next multiple of `page_size`, computed with the
/// usual power-of-two mask.
pub open spec fn spec_align_up(addr: u64, page_size: u64) -> u64
    recommends
        page_size >= 1,
        addr + page_size - 1 <= u64::MAX,
{
    ((addr + page_size - 1) as u64) & !((page_size - 1) as u64)
}

/// Round `addr` up with the mask `!(page_size - 1)`.
pub fn align_up(addr: u64, page_size: u64) -> (r: u64)
    requires
        page_size >= 1,
        addr + page_size - 1 <= u64::MAX,
    ensures
        r == spec_align_up(addr, page_size),
{
    (addr + (page_size - 1)) & !(page_size - 1)
}

/// Rounding up never moves an address down, and moves it up by less than
/// one alignment unit.
pub proof fn lemma_align_up_bounds(addr: u64, align: u64)
    requires
        align >= 1,
        addr + align - 1 <= u64::MAX,
    ensures
        addr <= spec_align_up(addr, align) <= addr + (align - 1),
{
    let s: u64 = (addr + align - 1) as u64;
    assert(s == addr + (align - 1));
    assert(s - (align - 1) <= (s & !((align - 1) as u64)) <= s) by (bit_vector)
        requires
            align >= 1,
    ;
}

/// For a power-of-two alignment `align == pow2(n)`, the rounded address is
/// a multiple of the alignment.
pub proof fn lemma_align_up_aligned(addr: u64, align: u64, n: nat)
    requires
        n < 64,
        align == vstd::arithmetic::power2::pow2(n),
        addr + align - 1 <= u64::MAX,
    ensures
        spec_align_up(addr, align) % align == 0,
{
    vstd::arithmetic::power2::lemma_pow2_pos(n);
    vstd::arithmetic::power2::lemma2_to64();
    vstd::arithmetic::power2::lemma_pow2_strictly_increases(n, 64);
    let s: u64 = (addr + align - 1) as u64;
    let m: u64 = (align - 1) as u64;
    assert((s & !m) & m == 0) by (bit_vector);
    vstd::bits::lemma_u64_low_bits_mask_is_mod(s & !m, n);
    assert(vstd::bits::low_bits_mask(n) == m);
}

/// The first index at or after `k` whose section has type `SHT_SYMTAB`.
pub open spec fn spec_find_symtab_from(sections: Seq<SectionHeader>, k: int) -> Option<int>
    decreases sections.len() - k,
{
    if k < 0 || k >= sections.len() {
        None
    } else if sections[k].sh_type == SHT_SYMTAB {
        Some(k)
    } else {
        spec_find_symtab_from(sections, k + 1)
    }
}

/// The first index at or after `k` whose output section bears `name`.
pub open spec fn spec_find_output_from(outs: Seq<OutputSection>, name: Seq<u8>, k: int) -> Option<
    int,
>
    decreases outs.len() - k,
{
    if k < 0 || k >= outs.len() {
        None
    } else if outs[k].name@ == name {
        Some(k)
    } else {
        spec_find_output_from(outs, name, k + 1)
    }
}

/// The first output section bearing `name`.
pub open spec fn spec_find_output(outs: Seq<OutputSection>, name: Seq<u8>) -> Option<int> {
    spec_find_output_from(outs, name, 0)
}

/// The first index at or after `k` whose global symbol bears `name`.
pub open spec fn spec_find_global_from(syms: Seq<GlobalSymbol>, name: Seq<u8>, k: int) -> Option<
    int,
>
    decreases syms.len() - k,
{
    if k < 0 || k >= syms.len() {
        None
    } else if syms[k].name@ == name {
        Some(k)
    } else {
        spec_find_global_from(syms, name, k + 1)
    }
}

/// The first global symbol bearing `name`.
pub open spec fn spec_find_global(syms: Seq<GlobalSymbol>, name: Seq<u8>) -> Option<int> {
    spec_find_global_from(syms, name, 0)
}

/// Find the symbol bearing `name` in a resolved symbol list.
pub fn find_global_in(syms: &Vec<GlobalSymbol>, name: &Vec<u8>) -> (r: Option<usize>)
    ensures
        match r {
            Some(i) => {
                &&& spec_find_global(syms@, name@) == Some(i as int)
                &&& i < syms@.len()
                &&& syms@[i as int].name@ == name@
            },
            None => spec_find_global(syms@, name@) is None,
        },
{
    let n = syms.len();
    let mut i: usize = 0;
    while i < n
        invariant
            i <= n,
            n == syms@.len(),
            spec_find_global(syms@, name@) == spec_find_global_from(syms@, name@, i as int),
        decreases n - i,
    {
        if bytes_eq(&syms[i].name, name) {
            return Some(i);
        }
        i = i + 1;
    }
    None
}

/// The first offset-table entry at or after `k` for `(file_idx, section_idx)`.
pub open spec fn spec_find_offset_from(
    offs: Seq<SectionOffset>,
    file_idx: int,
    section_idx: int,
    k: int,
) -> Option<int>
    decreases offs.len() - k,
{
    if k < 0 || k >= offs.len() {
        None
    } else if offs[k].file_idx == file_idx && offs[k].section_idx == section_idx {
        Some(k)
    } else {
        spec_find_offset_from(offs, file_idx, section_idx, k + 1)
    }
}

/// The recorded start of input section `(file_idx, section_idx)` within its
/// output section.
pub open spec fn spec_find_offset(offs: Seq<SectionOffset>, file_idx: int, section_idx: int)
    -> Option<int> {
    spec_find_offset_from(offs, file_idx, section_idx, 0)
}

impl LinkerContext {
    /// Find the output section bearing `name`.
    pub fn find_output_section(&self, name: &Vec<u8>) -> (r: Option<usize>)
        ensures
            match r {
                Some(i) => {
                    &&& spec_find_output(self.output_sections@, name@) == Some(i as int)
                    &&& i < self.output_sections@.len()
                    &&& self.output_sections@[i as int].name@ == name@
                },
                None => spec_find_output(self.output_sections@, name@) is None,
            },
    {
        let n = self.output_sections.len();
        let mut i: usize = 0;
        while i < n
            invariant
                i <= n,
                n == self.output_sections@.len(),
                spec_find_output(self.output_sections@, name@) == spec_find_output_from(
                    self.output_sections@,
                    name@,
                    i as int,
                ),
            decreases n - i,
        {
            if bytes_eq(&self.output_sections[i].name, name) {
                return Some(i);
            }
            i = i + 1;
        }
        None
    }

    /// Find the global symbol bearing `name`.
    pub fn find_global_symbol(&self, name: &Vec<u8>) -> (r: Option<usize>)
        ensures
            match r {
                Some(i) => {
                    &&& spec_find_global(self.global_symbols@, name@) == Some(i as int)
                    &&& i < self.global_symbols@.len()
                    &&& self.global_symbols@[i as int].name@ == name@
                },
                None => spec_find_global(self.global_symbols@, name@) is None,
            },
    {
        find_global_in(&self.global_symbols, name)
    }

    /// Find the recorded offset of input section `(file_idx, section_idx)`
    /// within its output section.
    pub fn find_input_section_offset(&self, file_idx: usize, section_idx: usize) -> (r: Option<
        u64,
    >)
        ensures
            match r {
                Some(off) => {
                    &&& spec_find_offset(
                        self.input_section_offsets@,
                        file_idx as int,
                        section_idx as int,
                    ) matches Some(k)
                        && self.input_section_offsets@[k].offset == off
                },
                None => spec_find_offset(
                    self.input_section_offsets@,
                    file_idx as int,
                    section_idx as int,
                ) is None,
            },
    {
        let n = self.input_section_offsets.len();
        let mut i: usize = 0;
        while i < n
            invariant
                i <= n,
                n == self.input_section_offsets@.len(),
                spec_find_offset(
                    self.input_section_offsets@,
                    file_idx as int,
                    section_idx as int,
                ) == spec_find_offset_from(
                    self.input_section_offsets@,
                    file_idx as int,
                    section_idx as int,
                    i as int,
                ),
            decreases n - i,
        {
            let e = self.input_section_offsets[i];
            if e.file_idx == file_idx && e.section_idx == section_idx {
                return Some(e.offset);
            }
            i = i + 1;
        }
        None
    }
}

/// Is an ELF header's target the one this linker accepts:
/// 64-bit, little-endian, AArch64?
pub open spec fn spec_target_ok(h: ElfHeader) -> bool {
    h.class == EI_CLASS_64 && h.data == EI_DATA_2LSB && h.e_machine == EM_AARCH64
}

/// Everything `add_file` checks, in the order it checks it: header parse,
/// target, section table bounds, string table bounds, symbol table presence
/// and bounds.  `Ok` carries nothing; the parsed values are functions of the
/// bytes, stated by `add_file` itself.
pub open spec fn spec_load_check(b: Seq<u8>) -> Result<(), LinkError> {
    match spec_parse_elf_header(b) {
        Err(e) => Err(e),
        Ok(h) => if !spec_target_ok(h) {
            Err(LinkError::UnsupportedTarget)
        } else if !spec_shtable_in_bounds(b, h) {
            Err(LinkError::Malformed)
        } else {
            let ss = sections_of(b, h);
            if h.e_shstrndx >= ss.len() {
                Err(LinkError::Malformed)
            } else if ss[h.e_shstrndx as int].offset + ss[h.e_shstrndx as int].size > b.len() {
                Err(LinkError::Malformed)
            } else {
                match spec_find_symtab_from(ss, 0) {
                    None => Err(LinkError::Malformed),
                    Some(k) => if ss[k].link >= ss.len() {
                        Err(LinkError::Malformed)
                    } else if ss[ss[k].link as int].offset + ss[ss[k].link as int].size
                        > b.len() {
                        Err(LinkError::Malformed)
                    } else if !spec_entry_table_in_bounds(b, ss[k]) {
                        Err(LinkError::Malformed)
                    } else {
                        Ok(())
                    },
                }
            }
        },
    }
}

impl LinkerContext {
    /// Parse `content` as a relocatable ELF64 little-endian AArch64 object
    /// and append it to the input list.  On success the stored header,
    /// section list, symbol table, and string tables are exactly the decoded
    /// images of `content`; on failure the context is unchanged.
    pub fn add_file(&mut self, filename: String, content: &[u8]) -> (r: Result<(), LinkError>)
        ensures
            final(self).output_sections@ == old(self).output_sections@,
            final(self).global_symbols@ == old(self).global_symbols@,
            final(self).current_addr == old(self).current_addr,
            final(self).input_section_offsets@ == old(self).input_section_offsets@,
            r matches Err(e) ==> {
                &&& spec_load_check(content@) == Err::<(), LinkError>(e)
                &&& final(self).input_files@ == old(self).input_files@
            },
            r is Ok ==> {
                &&& spec_load_check(content@) is Ok
                &&& final(self).input_files@.len() == old(self).input_files@.len() + 1
                &&& forall|i: int|
                    0 <= i < old(self).input_files@.len() ==> final(self).input_files@[i]
                        == old(self).input_files@[i]
                &&& {
                    let f = final(self).input_files@.last();
                    let h = spec_parse_elf_header(content@)->Ok_0;
                    let ss = sections_of(content@, h);
                    let k = spec_find_symtab_from(ss, 0)->Some_0;
                    &&& f.content@ == content@
                    &&& f.header == h
                    &&& spec_target_ok(h)
                    &&& f.sections@ == ss
                    &&& f.shstrtab_data@ == content@.subrange(
                        ss[h.e_shstrndx as int].offset as int,
                        ss[h.e_shstrndx as int].offset + ss[h.e_shstrndx as int].size,
                    )
                    &&& f.symbols@ == symbols_of(content@, ss[k])
                    &&& f.strtab_data@ == content@.subrange(
                        ss[ss[k].link as int].offset as int,
                        ss[ss[k].link as int].offset + ss[ss[k].link as int].size,
                    )
                }
            },
    {
        let n = content.len();
        let header = match parse_elf_header(content) {
            Ok(h) => h,
            Err(e) => {
                return Err(e);
            },
        };
        if !(header.class == EI_CLASS_64 && header.data == EI_DATA_2LSB && header.e_machine
            == EM_AARCH64) {
            return Err(LinkError::UnsupportedTarget);
        }
        let sections = match parse_section_header_table(content, &header) {
            Ok(v) => v,
            Err(e) => {
                return Err(e);
            },
        };
        if header.e_shstrndx as usize >= sections.len() {
            return Err(LinkError::Malformed);
        }
        let shstrtab_h = sections[header.e_shstrndx as usize];
        if shstrtab_h.offset > n as u64 || shstrtab_h.size > n as u64 - shstrtab_h.offset {
            return Err(LinkError::Malformed);
        }
        let shstrtab_data = copy_range(
            content,
            shstrtab_h.offset as usize,
            (shstrtab_h.offset + shstrtab_h.size) as usize,
        );
        let mut symtab_idx: usize = 0;
        let mut found = false;
        while symtab_idx < sections.len() && !found
            invariant
                symtab_idx <= sections@.len(),
                found ==> symtab_idx < sections@.len() && sections@[symtab_idx as int].sh_type
                    == SHT_SYMTAB,
                !found ==> spec_find_symtab_from(sections@, 0) == spec_find_symtab_from(
                    sections@,
                    symtab_idx as int,
                ),
                found ==> spec_find_symtab_from(sections@, 0) == Some(symtab_idx as int),
            decreases sections@.len() - symtab_idx + (if found {
                0int
            } else {
                1int
            }),
        {
            if sections[symtab_idx].sh_type == SHT_SYMTAB {
                found = true;
            } else {
                proof {
                    assert(spec_find_symtab_from(sections@, symtab_idx as int)
                        == spec_find_symtab_from(sections@, symtab_idx + 1));
                }
                symtab_idx = symtab_idx + 1;
            }
        }
        if !found {
            return Err(LinkError::Malformed);
        }
        let symtab_h = sections[symtab_idx];
        if symtab_h.link as usize >= sections.len() {
            return Err(LinkError::Malformed);
        }
        let strtab_h = sections[symtab_h.link as usize];
        if strtab_h.offset > n as u64 || strtab_h.size > n as u64 - strtab_h.offset {
            return Err(LinkError::Malformed);
        }
        let strtab_data = copy_range(
            content,
            strtab_h.offset as usize,
            (strtab_h.offset + strtab_h.size) as usize,
        );
        let symbols = match parse_symbol_table(content, &symtab_h) {
            Ok(v) => v,
            Err(e) => {
                return Err(e);
            },
        };
        let content_copy = copy_range(content, 0, n);
        proof {
            assert(content@.subrange(0, n as int) =~= content@);
        }
        self.input_files.push(
            InputFile {
                filename,
                content: content_copy,
                header,
                sections,
                symbols,
                shstrtab_data,
                strtab_data,
            },
        );
        Ok(())
    }
}

/// The name of section `i` of file `f`, resolved from the file's section
/// header string table.
pub open spec fn spec_sec_name(f: InputFile, i: int) -> Option<Seq<u8>> {
    spec_name(f.shstrtab_data@, f.sections@[i].name_offset as int)
}

/// Does section `i` of file `f` take part in layout: `SHT_PROGBITS` or
/// `SHT_NOBITS`, a non-empty resolvable name, and the `SHF_ALLOC` flag?
pub open spec fn spec_qualifies(f: InputFile, i: int) -> bool {
    let sh = f.sections@[i];
    &&& (sh.sh_type == SHT_PROGBITS || sh.sh_type == SHT_NOBITS)
    &&& spec_sec_name(f, i) is Some
    &&& spec_sec_name(f, i)->Some_0.len() > 0
    &&& sh.flags & SHF_ALLOC != 0
}

/// Does a name start with `.rel`?
pub open spec fn spec_is_rel_name(nm: Seq<u8>) -> bool {
    nm.len() >= 4 && nm.subrange(0, 4) == rel_prefix()
}

/// Total size of the qualifying sections named `nm` among the first `k`
/// sections of `f`.
pub open spec fn spec_size_in_file_upto(f: InputFile, nm: Seq<u8>, k: int) -> int
    decreases k,
{
    if k <= 0 {
        0
    } else {
        spec_size_in_file_upto(f, nm, k - 1) + (if 0 <= k - 1 < f.sections@.len()
            && spec_qualifies(f, k - 1) && spec_sec_name(f, k - 1) == Some(nm) {
            f.sections@[k - 1].size as int
        } else {
            0
        })
    }
}

/// Total size of the qualifying sections named `nm` in file `f`.
pub open spec fn spec_size_in_file(f: InputFile, nm: Seq<u8>) -> int {
    spec_size_in_file_upto(f, nm, f.sections@.len() as int)
}

/// Total size of the qualifying sections named `nm` over the first `k` files.
pub open spec fn spec_total_size_upto(files: Seq<InputFile>, nm: Seq<u8>, k: int) -> int
    decreases k,
{
    if k <= 0 {
        0
    } else {
        spec_total_size_upto(files, nm, k - 1) + (if 0 <= k - 1 < files.len() {
            spec_size_in_file(files[k - 1], nm)
        } else {
            0
        })
    }
}

/// Total size of the qualifying sections named `nm` over all files: what the
/// merged output section of that name must have as its size.
pub open spec fn spec_total_size(files: Seq<InputFile>, nm: Seq<u8>) -> int {
    spec_total_size_upto(files, nm, files.len() as int)
}

/// No two output sections bear the same name.
pub open spec fn spec_unique_names(outs: Seq<OutputSection>) -> bool {
    forall|a: int, b: int| 0 <= a < b < outs.len() ==> outs[a].name@ != outs[b].name@
}

/// Is `(a, b)` the first section, files in input order and sections in
/// table order, that qualifies for layout under the name `nm`?
pub open spec fn spec_first_contributor(files: Seq<InputFile>, nm: Seq<u8>, a: int, b: int)
    -> bool {
    &&& 0 <= a < files.len()
    &&& 0 <= b < files[a].sections@.len()
    &&& spec_qualifies(files[a], b)
    &&& spec_sec_name(files[a], b) == Some(nm)
    &&& forall|a2: int, b2: int|
        0 <= a2 < files.len() && 0 <= b2 < files[a2].sections@.len() && (a2 < a || (a2 == a && b2
            < b)) ==> !((#[trigger] spec_qualifies(files[a2], b2)) && spec_sec_name(
            files[a2],
            b2,
        ) == Some(nm))
}

/// Does accumulating the qualifying sections' sizes overflow 64 bits at
/// some point of the traversal?  This is the one way phase one can fail
/// with `Malformed`.
pub open spec fn spec_merge_overflow(files: Seq<InputFile>) -> bool {
    exists|a: int, b: int|
        0 <= a < files.len() && 0 <= b < files[a].sections@.len() && (#[trigger] spec_qualifies(
            files[a],
            b,
        )) && spec_total_size_upto(files, spec_sec_name(files[a], b)->Some_0, a)
            + spec_size_in_file_upto(files[a], spec_sec_name(files[a], b)->Some_0, b)
            + files[a].sections@[b].size > u64::MAX
}

/// The outcome of layout phase one: output section names are distinct and
/// none starts with `.rel`; every output section's size is the total size of
/// the qualifying input sections bearing its name, its header is the first
/// contributing section's header with only the size replaced, and its data
/// buffer is still empty; and every qualifying input section's name has an
/// output section.
pub open spec fn spec_merged_ok(files: Seq<InputFile>, outs: Seq<OutputSection>) -> bool {
    &&& spec_unique_names(outs)
    &&& forall|j: int|
        0 <= j < outs.len() ==> {
            &&& (#[trigger] outs[j]).header.size as int == spec_total_size(files, outs[j].name@)
            &&& outs[j].data@.len() == 0
            &&& outs[j].name@.len() > 0
            &&& !spec_is_rel_name(outs[j].name@)
            &&& exists|a: int, b: int|
                spec_first_contributor(files, outs[j].name@, a, b) && outs[j].header
                    == SectionHeader { size: outs[j].header.size, ..files[a].sections@[b] }
        }
    &&& forall|a: int, b: int|
        0 <= a < files.len() && 0 <= b < files[a].sections@.len() && spec_qualifies(files[a], b)
            ==> spec_find_output(outs, (#[trigger] spec_sec_name(files[a], b))->Some_0) is Some
}

/// A failed search means no output section at or after `k` bears `nm`.
proof fn lemma_find_output_none(outs: Seq<OutputSection>, nm: Seq<u8>, k: int)
    requires
        0 <= k,
        spec_find_output_from(outs, nm, k) is None,
    ensures
        forall|j: int| k <= j < outs.len() ==> (#[trigger] outs[j]).name@ != nm,
    decreases outs.len() - k,
{
    if k < outs.len() {
        lemma_find_output_none(outs, nm, k + 1);
    }
}

/// A successful search returns an in-range index bearing the name sought.
proof fn lemma_find_output_some(outs: Seq<OutputSection>, nm: Seq<u8>, k: int)
    requires
        0 <= k,
        spec_find_output_from(outs, nm, k) is Some,
    ensures
        k <= spec_find_output_from(outs, nm, k)->Some_0 < outs.len(),
        outs[spec_find_output_from(outs, nm, k)->Some_0].name@ == nm,
    decreases outs.len() - k,
{
    if k < outs.len() && outs[k].name@ != nm {
        lemma_find_output_some(outs, nm, k + 1);
    }
}

/// Appending an output section changes a search only when the search was
/// failing and the new section bears the name sought.
proof fn lemma_find_output_push(outs: Seq<OutputSection>, x: OutputSection, nm: Seq<u8>, k: int)
    requires
        0 <= k <= outs.len(),
    ensures
        spec_find_output_from(outs.push(x), nm, k) == (match spec_find_output_from(outs, nm, k) {
            Some(i) => Some(i),
            None => if x.name@ == nm {
                Some(outs.len() as int)
            } else {
                None
            },
        }),
    decreases outs.len() - k,
{
    assert(outs.push(x).len() == outs.len() + 1);
    assert(outs.push(x)[outs.len() as int] == x);
    if k < outs.len() {
        assert(outs.push(x)[k] == outs[k]);
        lemma_find_output_push(outs, x, nm, k + 1);
    }
}

/// A present name is found.
proof fn lemma_has_name_find_output(outs: Seq<OutputSection>, nm: Seq<u8>)
    requires
        spec_has_name(outs, nm),
    ensures
        spec_find_output(outs, nm) is Some,
{
    if spec_find_output(outs, nm) is None {
        lemma_find_output_none(outs, nm, 0);
        let j = choose|j: int| 0 <= j < outs.len() && (#[trigger] outs[j]).name@ == nm;
        assert(false);
    }
}

/// Replacing an output section by one with the same name leaves every
/// search result unchanged.
proof fn lemma_find_output_update(
    outs: Seq<OutputSection>,
    j: int,
    e: OutputSection,
    nm: Seq<u8>,
    k: int,
)
    requires
        0 <= k,
        0 <= j < outs.len(),
        e.name@ == outs[j].name@,
    ensures
        spec_find_output_from(outs.update(j, e), nm, k) == spec_find_output_from(outs, nm, k),
    decreases outs.len() - k,
{
    if k < outs.len() {
        lemma_find_output_update(outs, j, e, nm, k + 1);
    }
}

/// If no section among the first `k` of `f` both qualifies and bears `nm`,
/// the in-file size sum up to `k` is zero.
proof fn lemma_size_in_file_upto_zero(f: InputFile, nm: Seq<u8>, k: int)
    requires
        forall|b: int|
            0 <= b < k ==> !(spec_qualifies(f, b) && spec_sec_name(f, b) == Some(nm)),
    ensures
        spec_size_in_file_upto(f, nm, k) == 0,
    decreases k,
{
    if k > 0 {
        lemma_size_in_file_upto_zero(f, nm, k - 1);
    }
}

/// If no qualifying section named `nm` exists in the first `k` files, the
/// total size sum up to `k` is zero.
proof fn lemma_total_size_upto_zero(files: Seq<InputFile>, nm: Seq<u8>, k: int)
    requires
        k <= files.len(),
        forall|a: int, b: int|
            0 <= a < k && 0 <= b < files[a].sections@.len() ==> !(spec_qualifies(files[a], b)
                && spec_sec_name(files[a], b) == Some(nm)),
    ensures
        spec_total_size_upto(files, nm, k) == 0,
    decreases k,
{
    if k > 0 {
        lemma_total_size_upto_zero(files, nm, k - 1);
        lemma_size_in_file_upto_zero(files[k - 1], nm, files[k - 1].sections@.len() as int);
    }
}

impl LinkerContext {
    /// Layout phase one: create one output section per distinct qualifying
    /// section name and accumulate the merged sizes.  On success every
    /// output section's size is exactly the total size of the qualifying
    /// input sections bearing its name, every qualifying name is present,
    /// and no name starts with `.rel`.
    fn merge_section_sizes(&mut self) -> (r: Result<(), LinkError>)
        requires
            old(self).output_sections@.len() == 0,
        ensures
            final(self).input_files@ == old(self).input_files@,
            final(self).global_symbols@ == old(self).global_symbols@,
            final(self).current_addr == old(self).current_addr,
            final(self).input_section_offsets@ == old(self).input_section_offsets@,
            r matches Err(e) ==> (e == LinkError::ConsistencyViolation || e
                == LinkError::Malformed),
            r is Err ==> spec_unique_names(final(self).output_sections@),
            r == Err::<(), LinkError>(LinkError::ConsistencyViolation) ==> exists|a: int, b: int|
                0 <= a < final(self).input_files@.len() && 0 <= b
                    < final(self).input_files@[a].sections@.len() && spec_qualifies(
                    final(self).input_files@[a],
                    b,
                ) && spec_is_rel_name(
                    (#[trigger] spec_sec_name(final(self).input_files@[a], b))->Some_0,
                ),
            r == Err::<(), LinkError>(LinkError::Malformed) ==> spec_merge_overflow(
                final(self).input_files@,
            ),
            r is Ok ==> spec_merged_ok(final(self).input_files@, final(self).output_sections@),
    {
        let nfiles = self.input_files.len();
        let mut f: usize = 0;
        while f < nfiles
            invariant
                f <= nfiles,
                nfiles == self.input_files@.len(),
                self.input_files@ == old(self).input_files@,
                self.global_symbols@ == old(self).global_symbols@,
                self.current_addr == old(self).current_addr,
                self.input_section_offsets@ == old(self).input_section_offsets@,
                spec_unique_names(self.output_sections@),
                forall|j: int|
                    0 <= j < self.output_sections@.len() ==> {
                        &&& (#[trigger] self.output_sections@[j]).header.size as int
                            == spec_total_size_upto(
                            self.input_files@,
                            self.output_sections@[j].name@,
                            f as int,
                        )
                        &&& self.output_sections@[j].data@.len() == 0
                        &&& self.output_sections@[j].name@.len() > 0
                        &&& !spec_is_rel_name(self.output_sections@[j].name@)
                        &&& exists|a: int, b: int|
                            spec_first_contributor(
                                self.input_files@,
                                self.output_sections@[j].name@,
                                a,
                                b,
                            ) && self.output_sections@[j].header == SectionHeader {
                                size: self.output_sections@[j].header.size,
                                ..self.input_files@[a].sections@[b]
                            }
                    },
                forall|a: int, b: int|
                    0 <= a < f && 0 <= b < self.input_files@[a].sections@.len()
                        && spec_qualifies(self.input_files@[a], b) ==> spec_find_output(
                        self.output_sections@,
                        (#[trigger] spec_sec_name(self.input_files@[a], b))->Some_0,
                    ) is Some,
            decreases nfiles - f,
        {
            let nsec = self.input_files[f].sections.len();
            let mut i: usize = 0;
            while i < nsec
                invariant
                    f < nfiles,
                    i <= nsec,
                    nfiles == self.input_files@.len(),
                    nsec == self.input_files@[f as int].sections@.len(),
                    self.input_files@ == old(self).input_files@,
                    self.global_symbols@ == old(self).global_symbols@,
                    self.current_addr == old(self).current_addr,
                    self.input_section_offsets@ == old(self).input_section_offsets@,
                    spec_unique_names(self.output_sections@),
                    forall|j: int|
                        0 <= j < self.output_sections@.len() ==> {
                            &&& (#[trigger] self.output_sections@[j]).header.size as int
                                == spec_total_size_upto(
                                self.input_files@,
                                self.output_sections@[j].name@,
                                f as int,
                            ) + spec_size_in_file_upto(
                                self.input_files@[f as int],
                                self.output_sections@[j].name@,
                                i as int,
                            )
                            &&& self.output_sections@[j].data@.len() == 0
                            &&& self.output_sections@[j].name@.len() > 0
                            &&& !spec_is_rel_name(self.output_sections@[j].name@)
                            &&& exists|a: int, b: int|
                                spec_first_contributor(
                                    self.input_files@,
                                    self.output_sections@[j].name@,
                                    a,
                                    b,
                                ) && self.output_sections@[j].header == SectionHeader {
                                    size: self.output_sections@[j].header.size,
                                    ..self.input_files@[a].sections@[b]
                                }
                        },
                    forall|a: int, b: int|
                        0 <= a < nfiles && 0 <= b < self.input_files@[a].sections@.len() && (a < f
                            || (a == f && b < i)) && spec_qualifies(self.input_files@[a], b)
                            ==> spec_find_output(
                            self.output_sections@,
                            (#[trigger] spec_sec_name(self.input_files@[a], b))->Some_0,
                        ) is Some,
                decreases nsec - i,
            {
                let ghost files = self.input_files@;
                let ghost fcur = self.input_files@[f as int];
                let sh = self.input_files[f].sections[i];
                if sh.sh_type == SHT_PROGBITS || sh.sh_type == SHT_NOBITS {
                    match get_section_name(&self.input_files[f].shstrtab_data, &sh) {
                        None => {
                            proof {
                                assert(!spec_qualifies(fcur, i as int));
                            }
                        },
                        Some(nm) => {
                            if nm.len() == 0 {
                                proof {
                                    assert(!spec_qualifies(fcur, i as int));
                                }
                            } else if (sh.flags & SHF_ALLOC) == 0 {
                                proof {
                                    assert(!spec_qualifies(fcur, i as int));
                                }
                            } else {
                                proof {
                                    assert(spec_qualifies(fcur, i as int));
                                    assert(spec_sec_name(fcur, i as int) == Some(nm@));
                                }
                                let pre = make_rel_prefix();
                                if bytes_starts_with(&nm, &pre) {
                                    proof {
                                        assert(spec_is_rel_name(nm@));
                                        assert(spec_qualifies(
                                            self.input_files@[f as int],
                                            i as int,
                                        ) && spec_sec_name(self.input_files@[f as int], i as int)
                                            == Some(nm@));
                                    }
                                    return Err(LinkError::ConsistencyViolation);
                                }
                                match self.find_output_section(&nm) {
                                    Some(j) => {
                                        let cur = self.output_sections[j].header.size;
                                        if cur > u64::MAX - sh.size {
                                            proof {
                                                assert(self.output_sections@[j as int].name@
                                                    == nm@);
                                                assert(spec_merge_overflow(files)) by {
                                                    assert(spec_qualifies(files[f as int], i as int)
                                                        && spec_total_size_upto(
                                                        files,
                                                        spec_sec_name(
                                                            files[f as int],
                                                            i as int,
                                                        )->Some_0,
                                                        f as int,
                                                    ) + spec_size_in_file_upto(
                                                        files[f as int],
                                                        spec_sec_name(
                                                            files[f as int],
                                                            i as int,
                                                        )->Some_0,
                                                        i as int,
                                                    ) + files[f as int].sections@[i as int].size
                                                        > u64::MAX);
                                                }
                                            }
                                            return Err(LinkError::Malformed);
                                        }
                                        let ghost pre = self.output_sections@;
                                        let mut entry = self.output_sections.remove(j);
                                        entry.header.size = cur + sh.size;
                                        self.output_sections.insert(j, entry);
                                        proof {
                                            assert(self.output_sections@ =~= pre.update(
                                                j as int,
                                                entry,
                                            ));
                                            assert forall|nm2: Seq<u8>|
                                                spec_find_output(self.output_sections@, nm2)
                                                    == spec_find_output(pre, nm2) by {
                                                lemma_find_output_update(
                                                    pre,
                                                    j as int,
                                                    entry,
                                                    nm2,
                                                    0,
                                                );
                                            }
                                        }
                                    },
                                    None => {
                                        let ghost pre = self.output_sections@;
                                        proof {
                                            lemma_find_output_none(pre, nm@, 0);
                                            lemma_total_size_upto_zero(files, nm@, f as int);
                                            lemma_size_in_file_upto_zero(fcur, nm@, i as int);
                                            assert forall|a2: int, b2: int|
                                                0 <= a2 < files.len() && 0 <= b2
                                                    < files[a2].sections@.len() && (a2 < f || (a2
                                                    == f && b2 < i)) implies !((
                                            #[trigger] spec_qualifies(files[a2], b2))
                                                && spec_sec_name(files[a2], b2) == Some(
                                                nm@,
                                            )) by {
                                                if spec_qualifies(files[a2], b2) && spec_sec_name(
                                                    files[a2],
                                                    b2,
                                                ) == Some(nm@) {
                                                    assert(spec_find_output(pre, nm@) is Some);
                                                }
                                            }
                                            assert(spec_first_contributor(
                                                files,
                                                nm@,
                                                f as int,
                                                i as int,
                                            ));
                                        }
                                        self.output_sections.push(
                                            OutputSection { name: nm, header: sh, data: Vec::new() },
                                        );
                                        proof {
                                            assert forall|nm2: Seq<u8>|
                                                spec_find_output(pre, nm2) is Some
                                                    implies spec_find_output(
                                                    self.output_sections@,
                                                    nm2,
                                                ) == spec_find_output(pre, nm2) by {
                                                lemma_find_output_push(
                                                    pre,
                                                    self.output_sections@.last(),
                                                    nm2,
                                                    0,
                                                );
                                            }
                                            lemma_find_output_push(
                                                pre,
                                                self.output_sections@.last(),
                                                nm@,
                                                0,
                                            );
                                        }
                                    },
                                }
                            }
                        },
                    }
                } else {
                    proof {
                        assert(!spec_qualifies(fcur, i as int));
                    }
                }
                i = i + 1;
            }
            f = f + 1;
        }
        Ok(())
    }
}

/// Output sections stand in the deterministic name order: `.text`,
/// `.rodata`, `.data`, `.bss`, then everything else.
pub open spec fn spec_priority_sorted(outs: Seq<OutputSection>) -> bool {
    forall|a: int, b: int|
        0 <= a < b < outs.len() ==> spec_priority(outs[a].name@) <= spec_priority(outs[b].name@)
}

/// Is `x` one of the sections of `s`?
pub open spec fn spec_is_elem(x: OutputSection, s: Seq<OutputSection>) -> bool {
    exists|k: int| 0 <= k < s.len() && x == s[k]
}

/// Does some output section bear `nm`?
pub open spec fn spec_has_name(outs: Seq<OutputSection>, nm: Seq<u8>) -> bool {
    exists|j: int| 0 <= j < outs.len() && (#[trigger] outs[j]).name@ == nm
}

/// The cursor value from which section `j` is placed: `start` for the
/// first section, the previous section's end for the rest.
pub open spec fn spec_prev_end(outs: Seq<OutputSection>, j: int, start: u64) -> int {
    if j == 0 {
        start as int
    } else {
        outs[j - 1].header.addr + outs[j - 1].header.size
    }
}

/// Section `j`'s address is its predecessor's end, rounded up to its
/// alignment when that is non-zero, with no 64-bit overflow on the way.
pub open spec fn spec_addr_at_ok(outs: Seq<OutputSection>, j: int, start: u64) -> bool {
    &&& spec_prev_end(outs, j, start) <= u64::MAX
    &&& (outs[j].header.addralign > 0 ==> spec_prev_end(outs, j, start)
        + outs[j].header.addralign - 1 <= u64::MAX && outs[j].header.addr == spec_align_up(
        spec_prev_end(outs, j, start) as u64,
        outs[j].header.addralign,
    ))
    &&& (outs[j].header.addralign == 0 ==> outs[j].header.addr == spec_prev_end(outs, j, start))
}

/// Every section's address is the cursor after the previous section's end,
/// rounded up to the section's alignment when that is non-zero; the first
/// section starts from `start`.
pub open spec fn spec_addr_assigned(outs: Seq<OutputSection>, start: u64) -> bool {
    forall|j: int| 0 <= j < outs.len() ==> #[trigger] spec_addr_at_ok(outs, j, start)
}

/// Every output section's buffer is `header.size` zero bytes.
pub open spec fn spec_data_zeroed(outs: Seq<OutputSection>) -> bool {
    forall|j: int|
        0 <= j < outs.len() ==> (#[trigger] outs[j]).data@ == zero_bytes(
            outs[j].header.size as int,
        )
}

/// The address cursor after placing the first `k` sections from `start`:
/// each step rounds up to the section's alignment and adds its size.
pub open spec fn spec_place_cursor(outs: Seq<OutputSection>, k: int, start: int) -> int
    decreases k,
{
    if k <= 0 {
        start
    } else {
        let prev = spec_place_cursor(outs, k - 1, start);
        let al = outs[k - 1].header.addralign;
        (if al > 0 {
            spec_align_up(prev as u64, al) as int
        } else {
            prev
        }) + outs[k - 1].header.size
    }
}

/// Does placing the first `k` sections from `start` overflow: an alignment
/// rounding past `u64`, a buffer size past `usize`, or a section end past
/// `u64`?  These are the ways phase two can fail with `Malformed` once the
/// cursor has cleared the header bytes.
pub open spec fn spec_place_fails(outs: Seq<OutputSection>, k: int, start: int) -> bool
    decreases k,
{
    if k <= 0 {
        false
    } else {
        ||| spec_place_fails(outs, k - 1, start)
        ||| {
            let prev = spec_place_cursor(outs, k - 1, start);
            let al = outs[k - 1].header.addralign;
            ||| (al > 0 && prev + al - 1 > u64::MAX)
            ||| outs[k - 1].header.size > usize::MAX
            ||| (if al > 0 {
                spec_align_up(prev as u64, al) as int
            } else {
                prev
            }) + outs[k - 1].header.size > u64::MAX
        }
    }
}

/// A placing failure persists as the prefix grows.
proof fn lemma_place_fails_mono(outs: Seq<OutputSection>, k1: int, k2: int, start: int)
    requires
        0 <= k1 <= k2,
        spec_place_fails(outs, k1, start),
    ensures
        spec_place_fails(outs, k2, start),
    decreases k2 - k1,
{
    if k1 < k2 {
        lemma_place_fails_mono(outs, k1, k2 - 1, start);
    }
}

/// Appending a section whose address continues the cursor keeps the
/// address-assignment discipline.
proof fn lemma_addr_assigned_push(outs: Seq<OutputSection>, e: OutputSection, start: u64)
    requires
        spec_addr_assigned(outs, start),
        ({
            let prev: int = if outs.len() == 0 {
                start as int
            } else {
                outs.last().header.addr + outs.last().header.size
            };
            &&& prev <= u64::MAX
            &&& (e.header.addralign > 0 ==> prev + e.header.addralign - 1 <= u64::MAX
                && e.header.addr == spec_align_up(prev as u64, e.header.addralign))
            &&& (e.header.addralign == 0 ==> e.header.addr == prev)
        }),
    ensures
        spec_addr_assigned(outs.push(e), start),
{
    let post = outs.push(e);
    assert forall|j: int| 0 <= j < post.len() implies #[trigger] spec_addr_at_ok(
        post,
        j,
        start,
    ) by {
        if j < outs.len() {
            assert(spec_addr_at_ok(outs, j, start));
            assert(post[j] == outs[j]);
            if j > 0 {
                assert(post[j - 1] == outs[j - 1]);
            }
            assert(spec_prev_end(post, j, start) == spec_prev_end(outs, j, start));
        } else {
            assert(post[j] == e);
            if j > 0 {
                assert(post[j - 1] == outs[j - 1]);
                assert(outs[j - 1] == outs.last());
            }
        }
    }
}

impl LinkerContext {
    /// Order the output sections by name priority, keeping the relative
    /// order of sections of equal priority.
    #[verifier::rlimit(100)]
    fn sort_output_sections(&mut self)
        requires
            spec_unique_names(old(self).output_sections@),
        ensures
            final(self).input_files@ == old(self).input_files@,
            final(self).global_symbols@ == old(self).global_symbols@,
            final(self).current_addr == old(self).current_addr,
            final(self).input_section_offsets@ == old(self).input_section_offsets@,
            final(self).output_sections@.len() == old(self).output_sections@.len(),
            spec_unique_names(final(self).output_sections@),
            spec_priority_sorted(final(self).output_sections@),
            forall|j: int|
                0 <= j < final(self).output_sections@.len() ==> spec_is_elem(
                    #[trigger] final(self).output_sections@[j],
                    old(self).output_sections@,
                ),
            forall|k: int|
                0 <= k < old(self).output_sections@.len() ==> spec_has_name(
                    final(self).output_sections@,
                    (#[trigger] old(self).output_sections@[k]).name@,
                ),
    {
        let mut src: Vec<OutputSection> = Vec::new();
        core::mem::swap(&mut self.output_sections, &mut src);
        let ghost orig = src@;
        proof {
            assert forall|j: int| 0 <= j < src@.len() implies spec_is_elem(
                #[trigger] src@[j],
                orig,
            ) by {
                assert(src@[j] == orig[j]);
            }
            assert forall|k: int| 0 <= k < orig.len() implies spec_has_name(
                src@,
                (#[trigger] orig[k]).name@,
            ) by {
                assert(src@[k].name@ == orig[k].name@);
            }
            assert forall|j: int| 0 <= j < src@.len() implies spec_priority(
                (#[trigger] src@[j]).name@,
            ) >= 0 by {}
        }
        let mut dst: Vec<OutputSection> = Vec::new();
        let mut p: u8 = 0;
        while p < 5
            invariant
                p <= 5,
                src@.len() + dst@.len() == orig.len(),
                spec_unique_names(src@),
                spec_unique_names(dst@),
                forall|a: int, b: int|
                    0 <= a < src@.len() && 0 <= b < dst@.len() ==> (#[trigger] src@[a]).name@ != (
                    #[trigger] dst@[b]).name@,
                spec_priority_sorted(dst@),
                forall|j: int|
                    0 <= j < dst@.len() ==> spec_priority((#[trigger] dst@[j]).name@) < p as int,
                forall|j: int|
                    0 <= j < src@.len() ==> spec_priority((#[trigger] src@[j]).name@) >= p as int,
                forall|j: int|
                    0 <= j < src@.len() ==> spec_is_elem(#[trigger] src@[j], orig),
                forall|j: int|
                    0 <= j < dst@.len() ==> spec_is_elem(#[trigger] dst@[j], orig),
                forall|k: int|
                    0 <= k < orig.len() ==> spec_has_name(src@, (#[trigger] orig[k]).name@)
                        || spec_has_name(dst@, orig[k].name@),
            decreases 5 - p,
        {
            let mut i: usize = 0;
            while i < src.len()
                invariant
                    i <= src@.len(),
                    p < 5,
                    src@.len() + dst@.len() == orig.len(),
                    spec_unique_names(src@),
                    spec_unique_names(dst@),
                    forall|a: int, b: int|
                        0 <= a < src@.len() && 0 <= b < dst@.len() ==> (#[trigger] src@[a]).name@
                            != (#[trigger] dst@[b]).name@,
                    spec_priority_sorted(dst@),
                    forall|j: int|
                        0 <= j < dst@.len() ==> spec_priority((#[trigger] dst@[j]).name@)
                            <= p as int,
                    forall|j: int|
                        0 <= j < src@.len() ==> spec_priority((#[trigger] src@[j]).name@)
                            >= p as int,
                    forall|j: int|
                        0 <= j < i ==> spec_priority((#[trigger] src@[j]).name@) > p as int,
                    forall|j: int|
                        0 <= j < src@.len() ==> spec_is_elem(#[trigger] src@[j], orig),
                    forall|j: int|
                        0 <= j < dst@.len() ==> spec_is_elem(#[trigger] dst@[j], orig),
                    forall|k: int|
                        0 <= k < orig.len() ==> spec_has_name(src@, (#[trigger] orig[k]).name@)
                            || spec_has_name(dst@, orig[k].name@),
                decreases src@.len() - i,
            {
                if priority_of(&src[i].name) == p {
                    let ghost presrc = src@;
                    let ghost predst = dst@;
                    let e = src.remove(i);
                    dst.push(e);
                    proof {
                        assert forall|j: int| 0 <= j < src@.len() implies spec_is_elem(
                            #[trigger] src@[j],
                            orig,
                        ) by {
                            if j < i {
                                assert(src@[j] == presrc[j]);
                            } else {
                                assert(src@[j] == presrc[j + 1]);
                            }
                        }
                        assert forall|k: int| 0 <= k < orig.len() implies spec_has_name(
                            src@,
                            (#[trigger] orig[k]).name@,
                        ) || spec_has_name(dst@, orig[k].name@) by {
                            if spec_has_name(presrc, orig[k].name@) {
                                let j = choose|j: int|
                                    0 <= j < presrc.len() && (#[trigger] presrc[j]).name@
                                        == orig[k].name@;
                                if j < i {
                                    assert(src@[j] == presrc[j]);
                                    assert(spec_has_name(src@, orig[k].name@));
                                } else if j == i {
                                    assert(dst@.last().name@ == orig[k].name@);
                                    assert(spec_has_name(dst@, orig[k].name@));
                                } else {
                                    assert(src@[j - 1] == presrc[j]);
                                    assert(spec_has_name(src@, orig[k].name@));
                                }
                            } else {
                                let j = choose|j: int|
                                    0 <= j < predst.len() && (#[trigger] predst[j]).name@
                                        == orig[k].name@;
                                assert(dst@[j] == predst[j]);
                                assert(spec_has_name(dst@, orig[k].name@));
                            }
                        }
                        assert forall|a: int, b: int|
                            0 <= a < src@.len() && 0 <= b < dst@.len() implies (
                        #[trigger] src@[a]).name@ != (#[trigger] dst@[b]).name@ by {
                            if a < i {
                                assert(src@[a] == presrc[a]);
                            } else {
                                assert(src@[a] == presrc[a + 1]);
                            }
                        }
                        assert forall|a: int, b: int| 0 <= a < b < src@.len() implies (
                        #[trigger] src@[a]).name@ != (#[trigger] src@[b]).name@ by {
                            let a0: int = if a < i {
                                a
                            } else {
                                a + 1
                            };
                            let b0: int = if b < i {
                                b
                            } else {
                                b + 1
                            };
                            assert(src@[a] == presrc[a0]);
                            assert(src@[b] == presrc[b0]);
                        }
                        assert forall|j: int| 0 <= j < src@.len() implies spec_priority(
                            (#[trigger] src@[j]).name@,
                        ) >= p as int by {
                            if j < i {
                                assert(src@[j] == presrc[j]);
                            } else {
                                assert(src@[j] == presrc[j + 1]);
                            }
                        }
                        assert forall|j: int| 0 <= j < i implies spec_priority(
                            (#[trigger] src@[j]).name@,
                        ) > p as int by {
                            assert(src@[j] == presrc[j]);
                        }
                    }
                } else {
                    i = i + 1;
                }
            }
            p = p + 1;
        }
        proof {
            if src@.len() > 0 {
                assert(spec_priority(src@[0].name@) >= 5);
                assert(spec_priority(src@[0].name@) <= 4);
            }
            assert(dst@.len() == orig.len());
        }
        self.output_sections = dst;
    }

    /// Layout phase two, after sorting: advance the cursor past the 176
    /// header bytes, then walk the sections in order, rounding the cursor up
    /// to each section's alignment, recording its virtual address, and
    /// allocating its zero-filled buffer.
    #[verifier::rlimit(100)]
    #[verifier::spinoff_prover]
    fn place_output_sections(&mut self) -> (r: Result<(), LinkError>)
        requires
            spec_unique_names(old(self).output_sections@),
        ensures
            final(self).input_files@ == old(self).input_files@,
            final(self).global_symbols@ == old(self).global_symbols@,
            final(self).input_section_offsets@ == old(self).input_section_offsets@,
            final(self).current_addr >= old(self).current_addr,
            r matches Err(e) ==> e == LinkError::Malformed,
            r is Err ==> spec_unique_names(final(self).output_sections@),
            r is Err ==> (old(self).current_addr + HEADERS_TOTAL_SIZE > u64::MAX
                || spec_place_fails(
                old(self).output_sections@,
                old(self).output_sections@.len() as int,
                old(self).current_addr + HEADERS_TOTAL_SIZE,
            )),
            r is Ok ==> {
                &&& old(self).current_addr + HEADERS_TOTAL_SIZE <= u64::MAX
                &&& final(self).output_sections@.len() == old(self).output_sections@.len()
                &&& forall|j: int|
                    0 <= j < final(self).output_sections@.len() ==> {
                        &&& (#[trigger] final(self).output_sections@[j]).name@
                            == old(self).output_sections@[j].name@
                        &&& final(self).output_sections@[j].header == (SectionHeader {
                            addr: final(self).output_sections@[j].header.addr,
                            ..old(self).output_sections@[j].header
                        })
                        &&& final(self).output_sections@[j].data@ == zero_bytes(
                            final(self).output_sections@[j].header.size as int,
                        )
                    }
                &&& spec_addr_assigned(
                    final(self).output_sections@,
                    (old(self).current_addr + HEADERS_TOTAL_SIZE) as u64,
                )
                &&& final(self).current_addr as int == (if final(self).output_sections@.len()
                    == 0 {
                    old(self).current_addr + HEADERS_TOTAL_SIZE
                } else {
                    final(self).output_sections@.last().header.addr
                        + final(self).output_sections@.last().header.size
                })
            },
    {
        if self.current_addr > u64::MAX - HEADERS_TOTAL_SIZE {
            return Err(LinkError::Malformed);
        }
        self.current_addr = self.current_addr + 176;
        let ghost start = self.current_addr;
        let mut dst: Vec<OutputSection> = Vec::new();
        core::mem::swap(&mut self.output_sections, &mut dst);
        let ghost sorted_seq = dst@;
        let mut placed: Vec<OutputSection> = Vec::new();
        while dst.len() > 0
            invariant
                placed@.len() + dst@.len() == sorted_seq.len(),
                dst@ == sorted_seq.subrange(placed@.len() as int, sorted_seq.len() as int),
                sorted_seq == old(self).output_sections@,
                start as int == old(self).current_addr + HEADERS_TOTAL_SIZE,
                self.current_addr as int == spec_place_cursor(
                    sorted_seq,
                    placed@.len() as int,
                    start as int,
                ),
                !spec_place_fails(sorted_seq, placed@.len() as int, start as int),
                spec_addr_assigned(placed@, start),
                self.output_sections@.len() == 0,
                self.current_addr >= old(self).current_addr,
                self.current_addr as int == (if placed@.len() == 0 {
                    start as int
                } else {
                    placed@.last().header.addr + placed@.last().header.size
                }),
                forall|j: int|
                    0 <= j < placed@.len() ==> {
                        &&& (#[trigger] placed@[j]).name@ == sorted_seq[j].name@
                        &&& placed@[j].header == (SectionHeader {
                            addr: placed@[j].header.addr,
                            ..sorted_seq[j].header
                        })
                        &&& placed@[j].data@ == zero_bytes(placed@[j].header.size as int)
                    },
                self.input_files@ == old(self).input_files@,
                self.global_symbols@ == old(self).global_symbols@,
                self.input_section_offsets@ == old(self).input_section_offsets@,
            decreases dst@.len(),
        {
            let ghost m = placed@.len() as int;
            let mut e = dst.remove(0);
            proof {
                assert(e == sorted_seq[m]);
                assert(dst@ =~= sorted_seq.subrange(m + 1, sorted_seq.len() as int));
            }
            let ghost prevcur = self.current_addr as int;
            let align = e.header.addralign;
            if align > 0 {
                if self.current_addr > u64::MAX - (align - 1) {
                    proof {
                        assert(spec_place_fails(sorted_seq, m + 1, start as int));
                        lemma_place_fails_mono(
                            sorted_seq,
                            m + 1,
                            sorted_seq.len() as int,
                            start as int,
                        );
                    }
                    return Err(LinkError::Malformed);
                }
                proof {
                    lemma_align_up_bounds(self.current_addr, align);
                }
                self.current_addr = align_up(self.current_addr, align);
            }
            e.header.addr = self.current_addr;
            if e.header.size > usize::MAX as u64 {
                proof {
                    assert(spec_place_fails(sorted_seq, m + 1, start as int));
                    lemma_place_fails_mono(
                        sorted_seq,
                        m + 1,
                        sorted_seq.len() as int,
                        start as int,
                    );
                }
                return Err(LinkError::Malformed);
            }
            e.data = zero_vec(e.header.size as usize);
            if self.current_addr > u64::MAX - e.header.size {
                proof {
                    assert(spec_place_fails(sorted_seq, m + 1, start as int));
                    lemma_place_fails_mono(
                        sorted_seq,
                        m + 1,
                        sorted_seq.len() as int,
                        start as int,
                    );
                }
                return Err(LinkError::Malformed);
            }
            self.current_addr = self.current_addr + e.header.size;
            let ghost preplaced = placed@;
            placed.push(e);
            proof {
                lemma_addr_assigned_push(preplaced, e, start);
                assert(placed@ == preplaced.push(e));
                assert(spec_place_cursor(sorted_seq, m + 1, start as int)
                    == self.current_addr as int);
                assert(!spec_place_fails(sorted_seq, m + 1, start as int));
            }
        }
        self.output_sections = placed;
        Ok(())
    }
}

/// Every output section's buffer length agrees with its header size.
pub open spec fn spec_data_len_ok(outs: Seq<OutputSection>) -> bool {
    forall|j: int|
        0 <= j < outs.len() ==> (#[trigger] outs[j]).data@.len() == outs[j].header.size
}

/// Total size of the `SHT_PROGBITS` sections named `nm` among the first
/// `k` sections of `f`.
pub open spec fn spec_progbits_in_file_upto(f: InputFile, nm: Seq<u8>, k: int) -> int
    decreases k,
{
    if k <= 0 {
        0
    } else {
        spec_progbits_in_file_upto(f, nm, k - 1) + (if 0 <= k - 1 < f.sections@.len()
            && f.sections@[k - 1].sh_type == SHT_PROGBITS && spec_sec_name(f, k - 1) == Some(
            nm,
        ) {
            f.sections@[k - 1].size as int
        } else {
            0
        })
    }
}

/// Total size of the `SHT_PROGBITS` sections named `nm` over the first `k`
/// files.
pub open spec fn spec_progbits_total_upto(files: Seq<InputFile>, nm: Seq<u8>, k: int) -> int
    decreases k,
{
    if k <= 0 {
        0
    } else {
        spec_progbits_total_upto(files, nm, k - 1) + (if 0 <= k - 1 < files.len() {
            spec_progbits_in_file_upto(
                files[k - 1],
                nm,
                files[k - 1].sections@.len() as int,
            )
        } else {
            0
        })
    }
}

/// The per-name copy cursor when the traversal reaches section `i` of file
/// `f`: the total size of the `SHT_PROGBITS` sections named `nm` that come
/// strictly before, files in input order, sections in table order.
pub open spec fn spec_copied_before(files: Seq<InputFile>, nm: Seq<u8>, f: int, i: int) -> int {
    spec_progbits_total_upto(files, nm, f) + spec_progbits_in_file_upto(files[f], nm, i)
}

/// One offset-table entry is faithful: it names a real `SHT_PROGBITS` input
/// section, its output section exists, the recorded range lies within the
/// output section, and the output bytes there are exactly the input
/// section's bytes.
pub open spec fn spec_offset_entry_ok(
    files: Seq<InputFile>,
    outs: Seq<OutputSection>,
    e: SectionOffset,
) -> bool {
    &&& e.file_idx < files.len()
    &&& e.section_idx < files[e.file_idx as int].sections@.len()
    &&& files[e.file_idx as int].sections@[e.section_idx as int].sh_type == SHT_PROGBITS
    &&& spec_sec_name(files[e.file_idx as int], e.section_idx as int) is Some
    &&& spec_find_output(
        outs,
        spec_sec_name(files[e.file_idx as int], e.section_idx as int)->Some_0,
    ) is Some
    &&& {
        let sec = files[e.file_idx as int].sections@[e.section_idx as int];
        let j = spec_find_output(
            outs,
            spec_sec_name(files[e.file_idx as int], e.section_idx as int)->Some_0,
        )->Some_0;
        &&& e.offset as int == spec_copied_before(
            files,
            spec_sec_name(files[e.file_idx as int], e.section_idx as int)->Some_0,
            e.file_idx as int,
            e.section_idx as int,
        )
        &&& e.offset + sec.size <= outs[j].header.size
        &&& sec.offset + sec.size <= files[e.file_idx as int].content@.len()
        &&& outs[j].data@.subrange(e.offset as int, e.offset + sec.size) == files[
            e.file_idx as int
        ].content@.subrange(sec.offset as int, sec.offset + sec.size)
    }
}

/// Does copying overflow: some `SHT_PROGBITS` section whose name belongs
/// to a merged output section either lands past that section's merged size
/// (possible only when a non-qualifying section shares the name) or reads
/// past its own file's end?  These are the ways phase three can fail with
/// `Malformed`.
pub open spec fn spec_copy_overflow(files: Seq<InputFile>) -> bool {
    exists|a: int, b: int|
        0 <= a < files.len() && 0 <= b < files[a].sections@.len() && files[a].sections@[b].sh_type
            == SHT_PROGBITS && (#[trigger] spec_sec_name(files[a], b)) is Some && (exists|
            a2: int,
            b2: int,
        |
            spec_first_contributor(files, spec_sec_name(files[a], b)->Some_0, a2, b2)) && {
            ||| spec_copied_before(files, spec_sec_name(files[a], b)->Some_0, a, b)
                + files[a].sections@[b].size > spec_total_size(
                files,
                spec_sec_name(files[a], b)->Some_0,
            )
            ||| files[a].sections@[b].offset + files[a].sections@[b].size > files[
                a
            ].content@.len()
        }
}

/// Every `SHT_PROGBITS` input section whose name has an output section got
/// an offset-table entry.
pub open spec fn spec_offsets_complete(
    files: Seq<InputFile>,
    outs: Seq<OutputSection>,
    offs: Seq<SectionOffset>,
) -> bool {
    forall|a: int, b: int|
        0 <= a < files.len() && 0 <= b < files[a].sections@.len() && files[a].sections@[b].sh_type
            == SHT_PROGBITS && (#[trigger] spec_sec_name(files[a], b)) is Some
            && spec_find_output(outs, spec_sec_name(files[a], b)->Some_0) is Some
            ==> spec_find_offset(offs, a, b) is Some
}

/// No two offset-table entries share a key.
pub open spec fn spec_offsets_unique(offs: Seq<SectionOffset>) -> bool {
    forall|t1: int, t2: int|
        0 <= t1 < t2 < offs.len() ==> !((#[trigger] offs[t1]).file_idx == (
        #[trigger] offs[t2]).file_idx && offs[t1].section_idx == offs[t2].section_idx)
}

/// If no entry at or after `k` bears the key, the search from `k` fails.
proof fn lemma_find_offset_absent(offs: Seq<SectionOffset>, fi: int, si: int, k: int)
    requires
        0 <= k,
        forall|t: int|
            k <= t < offs.len() ==> !((#[trigger] offs[t]).file_idx == fi && offs[t].section_idx
                == si),
    ensures
        spec_find_offset_from(offs, fi, si, k) is None,
    decreases offs.len() - k,
{
    if k < offs.len() {
        lemma_find_offset_absent(offs, fi, si, k + 1);
    }
}

/// Appending an offset entry changes a search only when the search was
/// failing and the new entry bears the key sought.
proof fn lemma_find_offset_push(
    offs: Seq<SectionOffset>,
    x: SectionOffset,
    fi: int,
    si: int,
    k: int,
)
    requires
        0 <= k <= offs.len(),
    ensures
        spec_find_offset_from(offs.push(x), fi, si, k) == (match spec_find_offset_from(
            offs,
            fi,
            si,
            k,
        ) {
            Some(i) => Some(i),
            None => if x.file_idx == fi && x.section_idx == si {
                Some(offs.len() as int)
            } else {
                None
            },
        }),
    decreases offs.len() - k,
{
    assert(offs.push(x)[offs.len() as int] == x);
    if k < offs.len() {
        assert(offs.push(x)[k] == offs[k]);
        lemma_find_offset_push(offs, x, fi, si, k + 1);
    }
}

/// Every recorded offset-table entry is faithful.
pub open spec fn spec_offsets_ok(
    files: Seq<InputFile>,
    outs: Seq<OutputSection>,
    offs: Seq<SectionOffset>,
) -> bool {
    forall|t: int| 0 <= t < offs.len() ==> spec_offset_entry_ok(files, outs, #[trigger] offs[t])
}

impl LinkerContext {
    /// Layout phase three: walk the input files in order and copy each
    /// `SHT_PROGBITS` section whose name has an output section into that
    /// section's buffer, at a per-name cursor shared across files, recording
    /// the landing offset in the offset table.
    #[verifier::rlimit(100)]
    fn copy_section_data(&mut self) -> (r: Result<(), LinkError>)
        requires
            old(self).input_section_offsets@.len() == 0,
            spec_data_len_ok(old(self).output_sections@),
            spec_unique_names(old(self).output_sections@),
            forall|j: int|
                0 <= j < old(self).output_sections@.len() ==> {
                    &&& (#[trigger] old(self).output_sections@[j]).header.size as int
                        == spec_total_size(
                        old(self).input_files@,
                        old(self).output_sections@[j].name@,
                    )
                    &&& exists|a: int, b: int|
                        spec_first_contributor(
                            old(self).input_files@,
                            old(self).output_sections@[j].name@,
                            a,
                            b,
                        )
                },
        ensures
            final(self).input_files@ == old(self).input_files@,
            final(self).global_symbols@ == old(self).global_symbols@,
            final(self).current_addr == old(self).current_addr,
            final(self).output_sections@.len() == old(self).output_sections@.len(),
            forall|j: int|
                0 <= j < final(self).output_sections@.len() ==> {
                    &&& (#[trigger] final(self).output_sections@[j]).name@
                        == old(self).output_sections@[j].name@
                    &&& final(self).output_sections@[j].header
                        == old(self).output_sections@[j].header
                    &&& final(self).output_sections@[j].data@.len()
                        == old(self).output_sections@[j].data@.len()
                },
            r matches Err(e) ==> e == LinkError::Malformed,
            r is Err ==> spec_copy_overflow(final(self).input_files@),
            spec_offsets_ok(
                final(self).input_files@,
                final(self).output_sections@,
                final(self).input_section_offsets@,
            ),
            spec_offsets_unique(final(self).input_section_offsets@),
            r is Ok ==> spec_offsets_complete(
                final(self).input_files@,
                final(self).output_sections@,
                final(self).input_section_offsets@,
            ),
    {
        let ghost files = self.input_files@;
        let ghost orig_outs = self.output_sections@;
        let mut cur: Vec<u64> = Vec::new();
        let nouts = self.output_sections.len();
        let mut z: usize = 0;
        while z < nouts
            invariant
                z <= nouts,
                cur@.len() == z,
                forall|j: int| 0 <= j < z ==> cur@[j] == 0,
            decreases nouts - z,
        {
            cur.push(0);
            z = z + 1;
        }
        let nfiles = self.input_files.len();
        let mut f: usize = 0;
        while f < nfiles
            invariant
                f <= nfiles,
                nfiles == self.input_files@.len(),
                nouts == self.output_sections@.len(),
                cur@.len() == nouts,
                self.input_files@ == old(self).input_files@,
                self.global_symbols@ == old(self).global_symbols@,
                self.current_addr == old(self).current_addr,
                self.input_files@ == files,
                orig_outs == old(self).output_sections@,
                orig_outs.len() == nouts,
                forall|j: int|
                    0 <= j < nouts ==> (#[trigger] self.output_sections@[j]).name@
                        == orig_outs[j].name@ && self.output_sections@[j].header
                        == orig_outs[j].header && self.output_sections@[j].data@.len()
                        == orig_outs[j].data@.len(),
                spec_data_len_ok(self.output_sections@),
                spec_unique_names(self.output_sections@),
                forall|j: int|
                    0 <= j < nouts ==> (#[trigger] cur@[j]) as int
                        <= self.output_sections@[j].header.size,
                forall|j: int|
                    0 <= j < nouts ==> (#[trigger] cur@[j]) as int == spec_progbits_total_upto(
                        files,
                        orig_outs[j].name@,
                        f as int,
                    ),
                forall|j: int|
                    0 <= j < nouts ==> {
                        &&& (#[trigger] orig_outs[j]).header.size as int == spec_total_size(
                            files,
                            orig_outs[j].name@,
                        )
                        &&& exists|a: int, b: int|
                            spec_first_contributor(files, orig_outs[j].name@, a, b)
                    },
                spec_offsets_unique(self.input_section_offsets@),
                forall|t: int|
                    0 <= t < self.input_section_offsets@.len() ==> (
                    #[trigger] self.input_section_offsets@[t]).file_idx < f,
                forall|a: int, b: int|
                    0 <= a < f && 0 <= b < files[a].sections@.len() && files[a].sections@[b].sh_type
                        == SHT_PROGBITS && (#[trigger] spec_sec_name(files[a], b)) is Some
                        && spec_find_output(
                        self.output_sections@,
                        spec_sec_name(files[a], b)->Some_0,
                    ) is Some ==> spec_find_offset(self.input_section_offsets@, a, b) is Some,
                spec_offsets_ok(
                    self.input_files@,
                    self.output_sections@,
                    self.input_section_offsets@,
                ),
                forall|t: int|
                    0 <= t < self.input_section_offsets@.len() ==> {
                        let e = #[trigger] self.input_section_offsets@[t];
                        let j = spec_find_output(
                            self.output_sections@,
                            spec_sec_name(files[e.file_idx as int], e.section_idx as int)->Some_0,
                        )->Some_0;
                        e.offset + files[e.file_idx as int].sections@[e.section_idx as int].size
                            <= cur@[j]
                    },
            decreases nfiles - f,
        {
            let nsec = self.input_files[f].sections.len();
            let mut i: usize = 0;
            while i < nsec
                invariant
                    f < nfiles,
                    i <= nsec,
                    nfiles == self.input_files@.len(),
                    nsec == self.input_files@[f as int].sections@.len(),
                    nouts == self.output_sections@.len(),
                    cur@.len() == nouts,
                    self.input_files@ == old(self).input_files@,
                    self.global_symbols@ == old(self).global_symbols@,
                    self.current_addr == old(self).current_addr,
                    self.input_files@ == files,
                    orig_outs == old(self).output_sections@,
                    orig_outs.len() == nouts,
                    forall|j: int|
                        0 <= j < nouts ==> (#[trigger] self.output_sections@[j]).name@
                            == orig_outs[j].name@ && self.output_sections@[j].header
                            == orig_outs[j].header && self.output_sections@[j].data@.len()
                            == orig_outs[j].data@.len(),
                    spec_data_len_ok(self.output_sections@),
                    spec_unique_names(self.output_sections@),
                    forall|j: int|
                        0 <= j < nouts ==> (#[trigger] cur@[j]) as int
                            <= self.output_sections@[j].header.size,
                    forall|j: int|
                        0 <= j < nouts ==> (#[trigger] cur@[j]) as int
                            == spec_progbits_total_upto(files, orig_outs[j].name@, f as int)
                            + spec_progbits_in_file_upto(
                            files[f as int],
                            orig_outs[j].name@,
                            i as int,
                        ),
                    forall|j: int|
                        0 <= j < nouts ==> {
                            &&& (#[trigger] orig_outs[j]).header.size as int == spec_total_size(
                                files,
                                orig_outs[j].name@,
                            )
                            &&& exists|a: int, b: int|
                                spec_first_contributor(files, orig_outs[j].name@, a, b)
                        },
                    spec_offsets_unique(self.input_section_offsets@),
                    forall|t: int|
                        0 <= t < self.input_section_offsets@.len() ==> {
                            let e = #[trigger] self.input_section_offsets@[t];
                            e.file_idx < f || (e.file_idx == f && e.section_idx < i)
                        },
                    forall|a: int, b: int|
                        0 <= a < nfiles && 0 <= b < files[a].sections@.len() && (a < f || (a == f
                            && b < i)) && files[a].sections@[b].sh_type == SHT_PROGBITS && (
                        #[trigger] spec_sec_name(files[a], b)) is Some && spec_find_output(
                            self.output_sections@,
                            spec_sec_name(files[a], b)->Some_0,
                        ) is Some ==> spec_find_offset(self.input_section_offsets@, a, b) is Some,
                    spec_offsets_ok(
                        self.input_files@,
                        self.output_sections@,
                        self.input_section_offsets@,
                    ),
                    forall|t: int|
                        0 <= t < self.input_section_offsets@.len() ==> {
                            let e = #[trigger] self.input_section_offsets@[t];
                            let j = spec_find_output(
                                self.output_sections@,
                                spec_sec_name(
                                    files[e.file_idx as int],
                                    e.section_idx as int,
                                )->Some_0,
                            )->Some_0;
                            e.offset + files[e.file_idx as int].sections@[e.section_idx
                                as int].size <= cur@[j]
                        },
                decreases nsec - i,
            {
                let sh = self.input_files[f].sections[i];
                if sh.sh_type != SHT_PROGBITS {
                    proof {
                        assert forall|j: int| 0 <= j < nouts implies spec_progbits_in_file_upto(
                            files[f as int],
                            (#[trigger] orig_outs[j]).name@,
                            i + 1,
                        ) == spec_progbits_in_file_upto(
                            files[f as int],
                            orig_outs[j].name@,
                            i as int,
                        ) by {}
                    }
                } else {
                    match get_section_name(&self.input_files[f].shstrtab_data, &sh) {
                        None => {
                            proof {
                                assert(spec_sec_name(files[f as int], i as int) is None);
                                assert forall|j: int|
                                    0 <= j < nouts implies spec_progbits_in_file_upto(
                                    files[f as int],
                                    (#[trigger] orig_outs[j]).name@,
                                    i + 1,
                                ) == spec_progbits_in_file_upto(
                                    files[f as int],
                                    orig_outs[j].name@,
                                    i as int,
                                ) by {}
                            }
                        },
                        Some(nm) => {
                            match self.find_output_section(&nm) {
                                None => {
                                    proof {
                                        lemma_find_output_none(self.output_sections@, nm@, 0);
                                        assert(spec_sec_name(files[f as int], i as int) == Some(
                                            nm@,
                                        ));
                                        assert forall|j: int|
                                            0 <= j < nouts implies spec_progbits_in_file_upto(
                                            files[f as int],
                                            (#[trigger] orig_outs[j]).name@,
                                            i + 1,
                                        ) == spec_progbits_in_file_upto(
                                            files[f as int],
                                            orig_outs[j].name@,
                                            i as int,
                                        ) by {
                                            assert(self.output_sections@[j].name@
                                                == orig_outs[j].name@);
                                            assert(orig_outs[j].name@ != nm@);
                                        }
                                    }
                                },
                                Some(j) => {
                                    let start64 = cur[j];
                                    let dlen = self.output_sections[j].data.len();
                                    proof {
                                        assert(self.output_sections@[j as int].name@ == nm@);
                                        assert(orig_outs[j as int].name@ == nm@);
                                        assert(sh == files[f as int].sections@[i as int]);
                                        assert(spec_sec_name(files[f as int], i as int) == Some(
                                            nm@,
                                        ));
                                        assert(dlen as int == spec_total_size(files, nm@));
                                        assert(exists|a2: int, b2: int|
                                            spec_first_contributor(files, nm@, a2, b2));
                                        assert(start64 as int == spec_copied_before(
                                            files,
                                            nm@,
                                            f as int,
                                            i as int,
                                        ));
                                    }
                                    if start64 > dlen as u64 || sh.size > dlen as u64 - start64 {
                                        proof {
                                            assert(spec_copy_overflow(files));
                                        }
                                        return Err(LinkError::Malformed);
                                    }
                                    let clen = self.input_files[f].content.len();
                                    if sh.offset > clen as u64 || sh.size > clen as u64
                                        - sh.offset {
                                        proof {
                                            assert(spec_copy_overflow(files));
                                        }
                                        return Err(LinkError::Malformed);
                                    }
                                    let ghost preouts = self.output_sections@;
                                    let ghost preoffs = self.input_section_offsets@;
                                    let ghost precur = cur@;
                                    let mut out = self.output_sections.remove(j);
                                    copy_into(
                                        &mut out.data,
                                        start64 as usize,
                                        self.input_files[f].content.as_slice(),
                                        sh.offset as usize,
                                        sh.size as usize,
                                    );
                                    self.output_sections.insert(j, out);
                                    proof {
                                        assert(self.output_sections@ =~= preouts.update(
                                            j as int,
                                            self.output_sections@[j as int],
                                        ));
                                        assert forall|nm2: Seq<u8>|
                                            spec_find_output(self.output_sections@, nm2)
                                                == spec_find_output(preouts, nm2) by {
                                            lemma_find_output_update(
                                                preouts,
                                                j as int,
                                                self.output_sections@[j as int],
                                                nm2,
                                                0,
                                            );
                                        }
                                    }
                                    let ghost newent = SectionOffset {
                                        file_idx: f,
                                        section_idx: i,
                                        offset: start64,
                                    };
                                    self.input_section_offsets.push(
                                        SectionOffset {
                                            file_idx: f,
                                            section_idx: i,
                                            offset: start64,
                                        },
                                    );
                                    cur.set(j, start64 + sh.size);
                                    proof {
                                        assert(spec_sec_name(files[f as int], i as int) == Some(
                                            nm@,
                                        ));
                                        let newdata = self.output_sections@[j as int].data@;
                                        let olddata = preouts[j as int].data@;
                                        let content = files[f as int].content@;
                                        assert(newdata.subrange(
                                            start64 as int,
                                            start64 + sh.size,
                                        ) =~= content.subrange(sh.offset as int, sh.offset
                                            + sh.size));
                                        assert forall|t: int|
                                            0 <= t < self.input_section_offsets@.len()
                                                implies spec_offset_entry_ok(
                                            files,
                                            self.output_sections@,
                                            #[trigger] self.input_section_offsets@[t],
                                        ) by {
                                            let e = self.input_section_offsets@[t];
                                            if t < preoffs.len() {
                                                assert(e == preoffs[t]);
                                                assert(spec_offset_entry_ok(files, preouts, e));
                                                let enm = spec_sec_name(
                                                    files[e.file_idx as int],
                                                    e.section_idx as int,
                                                )->Some_0;
                                                lemma_find_output_some(preouts, enm, 0);
                                                let ej = spec_find_output(preouts, enm)->Some_0;
                                                let esec = files[e.file_idx as int].sections@[
                                                    e.section_idx as int
                                                ];
                                                if ej == j {
                                                    assert(e.offset + esec.size
                                                        <= precur[j as int]);
                                                    assert(self.output_sections@[ej].data@.subrange(
                                                        e.offset as int,
                                                        e.offset + esec.size,
                                                    ) =~= preouts[ej].data@.subrange(
                                                        e.offset as int,
                                                        e.offset + esec.size,
                                                    ));
                                                } else {
                                                    assert(self.output_sections@[ej]
                                                        == preouts[ej]);
                                                }
                                            } else {
                                                assert(e == SectionOffset {
                                                    file_idx: f,
                                                    section_idx: i,
                                                    offset: start64,
                                                });
                                            }
                                        }
                                        assert forall|t: int|
                                            0 <= t < self.input_section_offsets@.len() implies {
                                            let e =
                                                #[trigger] self.input_section_offsets@[t];
                                            let j2 = spec_find_output(
                                                self.output_sections@,
                                                spec_sec_name(
                                                    files[e.file_idx as int],
                                                    e.section_idx as int,
                                                )->Some_0,
                                            )->Some_0;
                                            e.offset + files[e.file_idx as int].sections@[
                                                e.section_idx as int
                                            ].size <= cur@[j2]
                                        } by {
                                            let e = self.input_section_offsets@[t];
                                            if t < preoffs.len() {
                                                assert(e == preoffs[t]);
                                                assert(spec_offset_entry_ok(files, preouts, e));
                                                let enm = spec_sec_name(
                                                    files[e.file_idx as int],
                                                    e.section_idx as int,
                                                )->Some_0;
                                                lemma_find_output_some(preouts, enm, 0);
                                            }
                                        }
                                        assert(orig_outs[j as int].name@ == nm@);
                                        assert(sh == files[f as int].sections@[i as int]);
                                        assert forall|j2: int|
                                            0 <= j2 < nouts implies (#[trigger] cur@[j2]) as int
                                                == spec_progbits_total_upto(
                                                files,
                                                orig_outs[j2].name@,
                                                f as int,
                                            ) + spec_progbits_in_file_upto(
                                                files[f as int],
                                                orig_outs[j2].name@,
                                                i + 1,
                                            ) by {
                                            if j2 == j as int {
                                                assert(spec_progbits_in_file_upto(
                                                    files[f as int],
                                                    nm@,
                                                    i + 1,
                                                ) == spec_progbits_in_file_upto(
                                                    files[f as int],
                                                    nm@,
                                                    i as int,
                                                ) + sh.size);
                                            } else {
                                                assert(spec_unique_names(preouts));
                                                assert(preouts[j2].name@ == orig_outs[j2].name@);
                                                assert(preouts[j as int].name@ == nm@);
                                                assert(orig_outs[j2].name@ != nm@);
                                                assert(cur@[j2] == precur[j2]);
                                                assert(spec_progbits_in_file_upto(
                                                    files[f as int],
                                                    orig_outs[j2].name@,
                                                    i + 1,
                                                ) == spec_progbits_in_file_upto(
                                                    files[f as int],
                                                    orig_outs[j2].name@,
                                                    i as int,
                                                ));
                                            }
                                        }
                                        assert(self.input_section_offsets@ == preoffs.push(
                                            newent,
                                        ));
                                        assert forall|t1: int, t2: int|
                                            0 <= t1 < t2 < self.input_section_offsets@.len()
                                                implies !((
                                        #[trigger] self.input_section_offsets@[t1]).file_idx == (
                                        #[trigger] self.input_section_offsets@[t2]).file_idx
                                            && self.input_section_offsets@[t1].section_idx
                                            == self.input_section_offsets@[t2].section_idx) by {
                                            if t2 < preoffs.len() {
                                                assert(self.input_section_offsets@[t1]
                                                    == preoffs[t1]);
                                                assert(self.input_section_offsets@[t2]
                                                    == preoffs[t2]);
                                            } else {
                                                assert(self.input_section_offsets@[t2] == newent);
                                                assert(self.input_section_offsets@[t1]
                                                    == preoffs[t1]);
                                            }
                                        }
                                        assert forall|a: int, b: int|
                                            0 <= a < nfiles && 0 <= b < files[a].sections@.len()
                                                && (a < f || (a == f && b < i + 1))
                                                && files[a].sections@[b].sh_type == SHT_PROGBITS
                                                && (#[trigger] spec_sec_name(files[a], b)) is Some
                                                && spec_find_output(
                                                self.output_sections@,
                                                spec_sec_name(files[a], b)->Some_0,
                                            ) is Some implies spec_find_offset(
                                            self.input_section_offsets@,
                                            a,
                                            b,
                                        ) is Some by {
                                            if a == f && b == i as int {
                                                assert forall|t: int|
                                                    0 <= t < preoffs.len() implies !((
                                                #[trigger] preoffs[t]).file_idx == f
                                                    && preoffs[t].section_idx == i) by {}
                                                lemma_find_offset_absent(
                                                    preoffs,
                                                    f as int,
                                                    i as int,
                                                    0,
                                                );
                                                lemma_find_offset_push(
                                                    preoffs,
                                                    newent,
                                                    f as int,
                                                    i as int,
                                                    0,
                                                );
                                            } else {
                                                assert(spec_find_offset(preoffs, a, b) is Some);
                                                lemma_find_offset_push(preoffs, newent, a, b, 0);
                                            }
                                        }
                                    }
                                },
                            }
                        },
                    }
                }
                i = i + 1;
            }
            f = f + 1;
        }
        Ok(())
    }
}

/// Everything layout guarantees, over the context's files, output sections,
/// and offset table: distinct non-`.rel` names in priority order, addresses
/// assigned from `start`, buffer lengths equal to the merged sizes, each
/// size the total of the qualifying input sections of that name, headers
/// inherited from a contributing section, every qualifying name present,
/// and a faithful offset table: sound, complete over the `SHT_PROGBITS`
/// sections, and with unique keys.
pub open spec fn spec_layout_ok(
    files: Seq<InputFile>,
    outs: Seq<OutputSection>,
    offs: Seq<SectionOffset>,
    start: u64,
) -> bool {
    &&& spec_unique_names(outs)
    &&& spec_priority_sorted(outs)
    &&& spec_addr_assigned(outs, start)
    &&& spec_data_len_ok(outs)
    &&& forall|j: int|
        0 <= j < outs.len() ==> {
            &&& (#[trigger] outs[j]).header.size as int == spec_total_size(files, outs[j].name@)
            &&& outs[j].name@.len() > 0
            &&& !spec_is_rel_name(outs[j].name@)
            &&& exists|a: int, b: int|
                spec_first_contributor(files, outs[j].name@, a, b) && outs[j].header
                    == (SectionHeader {
                    size: outs[j].header.size,
                    addr: outs[j].header.addr,
                    ..files[a].sections@[b]
                })
        }
    &&& forall|a: int, b: int|
        0 <= a < files.len() && 0 <= b < files[a].sections@.len() && spec_qualifies(files[a], b)
            ==> spec_has_name(outs, (#[trigger] spec_sec_name(files[a], b))->Some_0)
    &&& spec_offsets_ok(files, outs, offs)
    &&& spec_offsets_complete(files, outs, offs)
    &&& spec_offsets_unique(offs)
}

impl LinkerContext {
    /// Merge and lay out the sections: accumulate per-name sizes, order the
    /// output sections by name priority, assign each a virtual address past
    /// the 176 reserved header bytes, allocate the buffers, and copy every
    /// `SHT_PROGBITS` section's bytes into place, recording the offsets.
    #[verifier::rlimit(100)]
    #[verifier::spinoff_prover]
    pub fn layout_and_merge_sections(&mut self) -> (r: Result<(), LinkError>)
        requires
            old(self).output_sections@.len() == 0,
            old(self).input_section_offsets@.len() == 0,
        ensures
            final(self).input_files@ == old(self).input_files@,
            final(self).global_symbols@ == old(self).global_symbols@,
            r matches Err(e) ==> (e == LinkError::ConsistencyViolation || e
                == LinkError::Malformed),
            r == Err::<(), LinkError>(LinkError::ConsistencyViolation) ==> exists|a: int, b: int|
                0 <= a < final(self).input_files@.len() && 0 <= b
                    < final(self).input_files@[a].sections@.len() && spec_qualifies(
                    final(self).input_files@[a],
                    b,
                ) && spec_is_rel_name(
                    (#[trigger] spec_sec_name(final(self).input_files@[a], b))->Some_0,
                ),
            (exists|a: int, b: int|
                0 <= a < old(self).input_files@.len() && 0 <= b
                    < old(self).input_files@[a].sections@.len() && spec_qualifies(
                    old(self).input_files@[a],
                    b,
                )
                    && spec_is_rel_name(
                    (#[trigger] spec_sec_name(old(self).input_files@[a], b))->Some_0,
                )) ==> r is Err,
            r is Err ==> {
                &&& spec_unique_names(final(self).output_sections@)
                &&& spec_offsets_ok(
                    final(self).input_files@,
                    final(self).output_sections@,
                    final(self).input_section_offsets@,
                )
                &&& final(self).current_addr >= old(self).current_addr
            },
            r == Err::<(), LinkError>(LinkError::Malformed) ==> {
                ||| spec_merge_overflow(final(self).input_files@)
                ||| old(self).current_addr + HEADERS_TOTAL_SIZE > u64::MAX
                ||| exists|mid: Seq<OutputSection>|
                    spec_merged_ok(final(self).input_files@, mid) && spec_priority_sorted(mid)
                        && spec_place_fails(
                        mid,
                        mid.len() as int,
                        old(self).current_addr + HEADERS_TOTAL_SIZE,
                    )
                ||| spec_copy_overflow(final(self).input_files@)
            },
            r is Ok ==> {
                &&& old(self).current_addr + HEADERS_TOTAL_SIZE <= u64::MAX
                &&& spec_layout_ok(
                    final(self).input_files@,
                    final(self).output_sections@,
                    final(self).input_section_offsets@,
                    (old(self).current_addr + HEADERS_TOTAL_SIZE) as u64,
                )
                &&& final(self).current_addr as int == (if final(self).output_sections@.len()
                    == 0 {
                    old(self).current_addr + HEADERS_TOTAL_SIZE
                } else {
                    final(self).output_sections@.last().header.addr
                        + final(self).output_sections@.last().header.size
                })
            },
    {
        let ghost files = self.input_files@;
        match self.merge_section_sizes() {
            Err(e) => {
                return Err(e);
            },
            Ok(u) => u,
        };
        let ghost m_outs = self.output_sections@;
        self.sort_output_sections();
        let ghost s_outs = self.output_sections@;
        let ghost cursor_before_place = self.current_addr;
        proof {
            assert forall|j: int| 0 <= j < s_outs.len() implies {
                &&& (#[trigger] s_outs[j]).header.size as int == spec_total_size(
                    files,
                    s_outs[j].name@,
                )
                &&& s_outs[j].data@.len() == 0
                &&& s_outs[j].name@.len() > 0
                &&& !spec_is_rel_name(s_outs[j].name@)
                &&& exists|a: int, b: int|
                    spec_first_contributor(files, s_outs[j].name@, a, b) && s_outs[j].header
                        == SectionHeader { size: s_outs[j].header.size, ..files[a].sections@[b] }
            } by {
                assert(spec_is_elem(s_outs[j], m_outs));
                let k = choose|k: int| 0 <= k < m_outs.len() && s_outs[j] == m_outs[k];
                assert(m_outs[k].header.size as int == spec_total_size(files, m_outs[k].name@));
            }
            assert forall|a: int, b: int|
                0 <= a < files.len() && 0 <= b < files[a].sections@.len() && spec_qualifies(
                    files[a],
                    b,
                ) implies spec_find_output(
                s_outs,
                (#[trigger] spec_sec_name(files[a], b))->Some_0,
            ) is Some by {
                let nm = spec_sec_name(files[a], b)->Some_0;
                assert(spec_find_output(m_outs, nm) is Some);
                lemma_find_output_some(m_outs, nm, 0);
                let k = spec_find_output(m_outs, nm)->Some_0;
                assert(spec_has_name(s_outs, m_outs[k].name@));
                lemma_has_name_find_output(s_outs, nm);
            }
            assert(spec_merged_ok(files, s_outs));
        }
        match self.place_output_sections() {
            Err(e) => {
                proof {
                    assert(spec_place_fails(
                        s_outs,
                        s_outs.len() as int,
                        cursor_before_place + HEADERS_TOTAL_SIZE,
                    ) || cursor_before_place + HEADERS_TOTAL_SIZE > u64::MAX);
                }
                return Err(e);
            },
            Ok(u) => u,
        };
        let ghost p_outs = self.output_sections@;
        proof {
            assert(spec_merged_ok(files, m_outs));
            assert forall|j: int| 0 <= j < p_outs.len() implies {
                &&& (#[trigger] p_outs[j]).header.size as int == spec_total_size(
                    files,
                    p_outs[j].name@,
                )
                &&& p_outs[j].name@.len() > 0
                &&& !spec_is_rel_name(p_outs[j].name@)
                &&& p_outs[j].data@ == zero_bytes(p_outs[j].header.size as int)
                &&& exists|a: int, b: int|
                    spec_first_contributor(files, p_outs[j].name@, a, b) && p_outs[j].header
                        == (SectionHeader {
                        size: p_outs[j].header.size,
                        addr: p_outs[j].header.addr,
                        ..files[a].sections@[b]
                    })
            } by {
                assert(spec_is_elem(s_outs[j], m_outs));
                let k = choose|k: int| 0 <= k < m_outs.len() && s_outs[j] == m_outs[k];
                assert(m_outs[k].header.size as int == spec_total_size(files, m_outs[k].name@));
                let (a, b) = choose|a: int, b: int|
                    spec_first_contributor(files, m_outs[k].name@, a, b) && m_outs[k].header
                        == (SectionHeader { size: m_outs[k].header.size, ..files[a].sections@[b] });
                assert(spec_first_contributor(files, p_outs[j].name@, a, b));
                assert(p_outs[j].name@ == s_outs[j].name@);
                assert(p_outs[j].header == (SectionHeader {
                    addr: p_outs[j].header.addr,
                    ..s_outs[j].header
                }));
                assert(p_outs[j].header == (SectionHeader {
                    size: p_outs[j].header.size,
                    addr: p_outs[j].header.addr,
                    ..files[a].sections@[b]
                }));
            }
            assert forall|a: int, b: int|
                0 <= a < files.len() && 0 <= b < files[a].sections@.len() && spec_qualifies(
                    files[a],
                    b,
                ) implies spec_has_name(
                p_outs,
                (#[trigger] spec_sec_name(files[a], b))->Some_0,
            ) by {
                let nm = spec_sec_name(files[a], b)->Some_0;
                assert(spec_find_output(m_outs, nm) is Some);
                lemma_find_output_some(m_outs, nm, 0);
                let k = spec_find_output(m_outs, nm)->Some_0;
                assert(spec_has_name(s_outs, m_outs[k].name@));
                let j = choose|j: int| 0 <= j < s_outs.len() && (#[trigger] s_outs[j]).name@ == nm;
                assert(p_outs[j].name@ == nm);
                assert(spec_has_name(p_outs, nm));
            }
            assert forall|a: int, b: int| 0 <= a < b < p_outs.len() implies (
            #[trigger] p_outs[a]).name@ != (#[trigger] p_outs[b]).name@ by {
                assert(p_outs[a].name@ == s_outs[a].name@);
                assert(p_outs[b].name@ == s_outs[b].name@);
            }
            assert forall|a: int, b: int| 0 <= a < b < p_outs.len() implies spec_priority(
                (#[trigger] p_outs[a]).name@,
            ) <= spec_priority((#[trigger] p_outs[b]).name@) by {
                assert(p_outs[a].name@ == s_outs[a].name@);
                assert(p_outs[b].name@ == s_outs[b].name@);
            }
            assert(spec_data_len_ok(p_outs));
        }
        let ghost start = self.current_addr;
        proof {
            assert forall|j: int| 0 <= j < self.output_sections@.len() implies {
                &&& (#[trigger] self.output_sections@[j]).header.size as int == spec_total_size(
                    self.input_files@,
                    self.output_sections@[j].name@,
                )
                &&& exists|a: int, b: int|
                    spec_first_contributor(
                        self.input_files@,
                        self.output_sections@[j].name@,
                        a,
                        b,
                    )
            } by {
                assert(self.output_sections@[j] == p_outs[j]);
                let (a, b) = choose|a: int, b: int|
                    spec_first_contributor(files, p_outs[j].name@, a, b) && p_outs[j].header
                        == (SectionHeader {
                        size: p_outs[j].header.size,
                        addr: p_outs[j].header.addr,
                        ..files[a].sections@[b]
                    });
                assert(spec_first_contributor(files, p_outs[j].name@, a, b));
            }
        }
        match self.copy_section_data() {
            Err(e) => {
                return Err(e);
            },
            Ok(u) => u,
        };
        proof {
            let c_outs = self.output_sections@;
            assert forall|j: int| 0 <= j < c_outs.len() implies {
                &&& (#[trigger] c_outs[j]).name@ == p_outs[j].name@
                &&& c_outs[j].header == p_outs[j].header
                &&& c_outs[j].data@.len() == p_outs[j].data@.len()
            } by {}
            assert forall|j: int| 0 <= j < c_outs.len() implies #[trigger] spec_addr_at_ok(
                c_outs,
                j,
                (old(self).current_addr + HEADERS_TOTAL_SIZE) as u64,
            ) by {
                assert(spec_addr_at_ok(
                    p_outs,
                    j,
                    (old(self).current_addr + HEADERS_TOTAL_SIZE) as u64,
                ));
                assert(c_outs[j] == c_outs[j]);
                if j > 0 {
                    assert(c_outs[j - 1].header == p_outs[j - 1].header);
                }
            }
            assert forall|a: int, b: int| 0 <= a < b < c_outs.len() implies (
            #[trigger] c_outs[a]).name@ != (#[trigger] c_outs[b]).name@ by {
                assert(c_outs[a].name@ == p_outs[a].name@);
                assert(c_outs[b].name@ == p_outs[b].name@);
            }
            assert forall|a: int, b: int| 0 <= a < b < c_outs.len() implies spec_priority(
                (#[trigger] c_outs[a]).name@,
            ) <= spec_priority((#[trigger] c_outs[b]).name@) by {
                assert(c_outs[a].name@ == p_outs[a].name@);
                assert(c_outs[b].name@ == p_outs[b].name@);
            }
            assert forall|a: int, b: int|
                0 <= a < files.len() && 0 <= b < files[a].sections@.len() && spec_qualifies(
                    files[a],
                    b,
                ) implies spec_has_name(
                self.output_sections@,
                (#[trigger] spec_sec_name(files[a], b))->Some_0,
            ) by {
                let nm = spec_sec_name(files[a], b)->Some_0;
                assert(spec_has_name(p_outs, nm));
                let j = choose|j: int| 0 <= j < p_outs.len() && (#[trigger] p_outs[j]).name@ == nm;
                assert(c_outs[j].name@ == nm);
            }
        }
        Ok(())
    }
}

/// Addition on `u64` with 64-bit wrap-around.
pub open spec fn spec_add_wrap(a: u64, b: u64) -> u64 {
    ((a + b) % 0x10000000000000000) as u64
}

/// Compute `a + b` modulo `2^64`.
pub fn add_wrap(a: u64, b: u64) -> (r: u64)
    ensures
        r == spec_add_wrap(a, b),
{
    if b <= u64::MAX - a {
        a + b
    } else {
        (a - (u64::MAX - b)) - 1
    }
}

/// Subtraction on `u64` with 64-bit wrap-around.
pub open spec fn spec_sub_wrap(a: u64, b: u64) -> u64 {
    (((a - b) % 0x10000000000000000 + 0x10000000000000000) % 0x10000000000000000) as u64
}

/// Compute `a - b` modulo `2^64`.
pub fn sub_wrap(a: u64, b: u64) -> (r: u64)
    ensures
        r == spec_sub_wrap(a, b),
{
    if b <= a {
        proof {
            assert((a - b) % 0x10000000000000000 == a - b);
        }
        a - b
    } else {
        proof {
            assert(a - b + 0x10000000000000000 == ((a - b) % 0x10000000000000000
                + 0x10000000000000000) % 0x10000000000000000) by (nonlinear_arith)
                requires
                    0 < a - b + 0x10000000000000000 < 0x10000000000000000,
            ;
        }
        ((u64::MAX - b) + a) + 1
    }
}

/// A failed search means no global symbol at or after `k` bears `nm`.
proof fn lemma_find_global_none(syms: Seq<GlobalSymbol>, nm: Seq<u8>, k: int)
    requires
        0 <= k,
        spec_find_global_from(syms, nm, k) is None,
    ensures
        forall|j: int| k <= j < syms.len() ==> (#[trigger] syms[j]).name@ != nm,
    decreases syms.len() - k,
{
    if k < syms.len() {
        lemma_find_global_none(syms, nm, k + 1);
    }
}

/// Appending a global symbol changes a search only when the search was
/// failing and the new symbol bears the name sought.
proof fn lemma_find_global_push(syms: Seq<GlobalSymbol>, x: GlobalSymbol, nm: Seq<u8>, k: int)
    requires
        0 <= k <= syms.len(),
    ensures
        spec_find_global_from(syms.push(x), nm, k) == (match spec_find_global_from(syms, nm, k) {
            Some(i) => Some(i),
            None => if x.name@ == nm {
                Some(syms.len() as int)
            } else {
                None
            },
        }),
    decreases syms.len() - k,
{
    assert(syms.push(x)[syms.len() as int] == x);
    if k < syms.len() {
        assert(syms.push(x)[k] == syms[k]);
        lemma_find_global_push(syms, x, nm, k + 1);
    }
}

/// No two resolved global symbols bear the same name.
pub open spec fn spec_unique_sym_names(syms: Seq<GlobalSymbol>) -> bool {
    forall|a: int, b: int| 0 <= a < b < syms.len() ==> syms[a].name@ != syms[b].name@
}

/// One resolved global symbol is faithful: the lex-first input occurrence
/// (files in input order, symbols in table order) of a GLOBAL-binding
/// symbol of that non-empty name, defined in a section whose output
/// section exists, determined it, and the recorded address is
/// `output.addr + input_section_offset + symbol.value`, with 64-bit
/// wrap-around, the offset defaulting to zero when unrecorded.
pub open spec fn spec_resolved_entry_ok(
    files: Seq<InputFile>,
    outs: Seq<OutputSection>,
    offs: Seq<SectionOffset>,
    g: GlobalSymbol,
) -> bool {
    &&& g.name@.len() > 0
    &&& exists|fi: int, si: int|
        {
            &&& 0 <= fi < files.len()
            &&& 0 <= si < files[fi].symbols@.len()
            &&& (#[trigger] files[fi].symbols@[si]).info >> 4 == STB_GLOBAL
            &&& spec_name(files[fi].strtab_data@, files[fi].symbols@[si].name_offset as int)
                == Some(g.name@)
            &&& 0 < files[fi].symbols@[si].shndx < files[fi].sections@.len()
            &&& spec_sec_name(files[fi], files[fi].symbols@[si].shndx as int) is Some
            &&& spec_find_output(
                outs,
                spec_sec_name(files[fi], files[fi].symbols@[si].shndx as int)->Some_0,
            ) is Some
            &&& forall|a: int, b: int|
                0 <= a < files.len() && 0 <= b < files[a].symbols@.len() && (a < fi || (a == fi
                    && b < si)) ==> !((#[trigger] spec_sym_resolvable(files, outs, a, b))
                    && spec_name(
                    files[a].strtab_data@,
                    files[a].symbols@[b].name_offset as int,
                ) == Some(g.name@))
            &&& g.final_addr == spec_add_wrap(
                spec_add_wrap(
                    outs[spec_find_output(
                        outs,
                        spec_sec_name(files[fi], files[fi].symbols@[si].shndx as int)->Some_0,
                    )->Some_0].header.addr,
                    match spec_find_offset(offs, fi, files[fi].symbols@[si].shndx as int) {
                        Some(t) => offs[t].offset,
                        None => 0,
                    },
                ),
                files[fi].symbols@[si].value,
            )
        }
}

/// Does symbol `si` of file `fi` demand resolution: GLOBAL binding, a
/// non-empty name, a valid defining section index, and a section name that
/// has an output section?
pub open spec fn spec_sym_resolvable(
    files: Seq<InputFile>,
    outs: Seq<OutputSection>,
    fi: int,
    si: int,
) -> bool {
    &&& files[fi].symbols@[si].info >> 4 == STB_GLOBAL
    &&& spec_name(files[fi].strtab_data@, files[fi].symbols@[si].name_offset as int) is Some
    &&& spec_name(files[fi].strtab_data@, files[fi].symbols@[si].name_offset as int)->Some_0.len()
        > 0
    &&& 0 < files[fi].symbols@[si].shndx < files[fi].sections@.len()
    &&& spec_sec_name(files[fi], files[fi].symbols@[si].shndx as int) is Some
    &&& spec_find_output(
        outs,
        spec_sec_name(files[fi], files[fi].symbols@[si].shndx as int)->Some_0,
    ) is Some
}

impl LinkerContext {
    /// Resolve the global symbols: for each input file, in order, record
    /// each GLOBAL-binding symbol with a non-empty, not yet seen name that
    /// is defined in a section with an output section.  Its final address is
    /// `output.addr + input_section_offset + symbol.value`.  The first
    /// definition of a name wins; LOCAL and WEAK symbols and undefined
    /// symbols are ignored.
    #[verifier::rlimit(100)]
    pub fn resolve_symbols(&mut self)
        requires
            old(self).global_symbols@.len() == 0,
        ensures
            final(self).input_files@ == old(self).input_files@,
            final(self).output_sections@ == old(self).output_sections@,
            final(self).current_addr == old(self).current_addr,
            final(self).input_section_offsets@ == old(self).input_section_offsets@,
            spec_unique_sym_names(final(self).global_symbols@),
            forall|t: int|
                0 <= t < final(self).global_symbols@.len() ==> spec_resolved_entry_ok(
                    final(self).input_files@,
                    final(self).output_sections@,
                    final(self).input_section_offsets@,
                    #[trigger] final(self).global_symbols@[t],
                ),
            forall|fi: int, si: int|
                0 <= fi < final(self).input_files@.len() && 0 <= si
                    < final(self).input_files@[fi].symbols@.len() && spec_sym_resolvable(
                    final(self).input_files@,
                    final(self).output_sections@,
                    fi,
                    si,
                ) ==> spec_find_global(
                    final(self).global_symbols@,
                    (#[trigger] spec_name(
                        final(self).input_files@[fi].strtab_data@,
                        final(self).input_files@[fi].symbols@[si].name_offset as int,
                    ))->Some_0,
                ) is Some,
    {
        let ghost files = self.input_files@;
        let ghost outs = self.output_sections@;
        let ghost offs = self.input_section_offsets@;
        let nfiles = self.input_files.len();
        let mut f: usize = 0;
        while f < nfiles
            invariant
                f <= nfiles,
                nfiles == self.input_files@.len(),
                self.input_files@ == old(self).input_files@,
                self.output_sections@ == old(self).output_sections@,
                self.current_addr == old(self).current_addr,
                self.input_section_offsets@ == old(self).input_section_offsets@,
                files == self.input_files@,
                outs == self.output_sections@,
                offs == self.input_section_offsets@,
                spec_unique_sym_names(self.global_symbols@),
                forall|t: int|
                    0 <= t < self.global_symbols@.len() ==> spec_resolved_entry_ok(
                        files,
                        outs,
                        offs,
                        #[trigger] self.global_symbols@[t],
                    ),
                forall|fi: int, si: int|
                    0 <= fi < f && 0 <= si < files[fi].symbols@.len() && spec_sym_resolvable(
                        files,
                        outs,
                        fi,
                        si,
                    ) ==> spec_find_global(
                        self.global_symbols@,
                        (#[trigger] spec_name(
                            files[fi].strtab_data@,
                            files[fi].symbols@[si].name_offset as int,
                        ))->Some_0,
                    ) is Some,
            decreases nfiles - f,
        {
            let nsyms = self.input_files[f].symbols.len();
            let mut k: usize = 0;
            while k < nsyms
                invariant
                    f < nfiles,
                    k <= nsyms,
                    nfiles == self.input_files@.len(),
                    nsyms == files[f as int].symbols@.len(),
                    self.input_files@ == old(self).input_files@,
                    self.output_sections@ == old(self).output_sections@,
                    self.current_addr == old(self).current_addr,
                    self.input_section_offsets@ == old(self).input_section_offsets@,
                    files == self.input_files@,
                    outs == self.output_sections@,
                    offs == self.input_section_offsets@,
                    spec_unique_sym_names(self.global_symbols@),
                    forall|t: int|
                        0 <= t < self.global_symbols@.len() ==> spec_resolved_entry_ok(
                            files,
                            outs,
                            offs,
                            #[trigger] self.global_symbols@[t],
                        ),
                    forall|fi: int, si: int|
                        0 <= fi < nfiles && 0 <= si < files[fi].symbols@.len() && (fi < f || (fi
                            == f && si < k)) && spec_sym_resolvable(files, outs, fi, si)
                            ==> spec_find_global(
                            self.global_symbols@,
                            (#[trigger] spec_name(
                                files[fi].strtab_data@,
                                files[fi].symbols@[si].name_offset as int,
                            ))->Some_0,
                        ) is Some,
                decreases nsyms - k,
            {
                let sym = self.input_files[f].symbols[k];
                if sym.get_bind() == STB_GLOBAL {
                    match get_symbol_name(&self.input_files[f].strtab_data, &sym) {
                        None => {},
                        Some(nm) => {
                            if nm.len() == 0 {
                            } else {
                                match self.find_global_symbol(&nm) {
                                    Some(_present) => {},
                                    None => {
                                        if sym.shndx > 0 && (sym.shndx as usize)
                                            < self.input_files[f].sections.len() {
                                            let sec =
                                                self.input_files[f].sections[sym.shndx as usize];
                                            match get_section_name(
                                                &self.input_files[f].shstrtab_data,
                                                &sec,
                                            ) {
                                                None => {},
                                                Some(secnm) => {
                                                    match self.find_output_section(&secnm) {
                                                        None => {},
                                                        Some(j) => {
                                                            let off = match self
                                                                .find_input_section_offset(
                                                                f,
                                                                sym.shndx as usize,
                                                            ) {
                                                                Some(o) => o,
                                                                None => 0,
                                                            };
                                                            let addr = add_wrap(
                                                                add_wrap(
                                                                    self.output_sections[j].header.addr,
                                                                    off,
                                                                ),
                                                                sym.value,
                                                            );
                                                            let ghost pre = self.global_symbols@;
                                                            proof {
                                                                lemma_find_global_none(
                                                                    pre,
                                                                    nm@,
                                                                    0,
                                                                );
                                                            }
                                                            self.global_symbols.push(
                                                                GlobalSymbol {
                                                                    name: nm,
                                                                    final_addr: addr,
                                                                },
                                                            );
                                                            proof {
                                                                assert forall|a: int, b: int|
                                                                    0 <= a < files.len() && 0 <= b
                                                                        < files[a].symbols@.len()
                                                                        && (a < f || (a == f && b
                                                                        < k)) implies !((
                                                                #[trigger] spec_sym_resolvable(
                                                                    files,
                                                                    outs,
                                                                    a,
                                                                    b,
                                                                )) && spec_name(
                                                                    files[a].strtab_data@,
                                                                    files[a].symbols@[b].name_offset
                                                                        as int,
                                                                ) == Some(nm@)) by {
                                                                    if spec_sym_resolvable(
                                                                        files,
                                                                        outs,
                                                                        a,
                                                                        b,
                                                                    ) && spec_name(
                                                                        files[a].strtab_data@,
                                                                        files[a].symbols@[b].name_offset
                                                                            as int,
                                                                    ) == Some(nm@) {
                                                                        assert(spec_find_global(
                                                                            pre,
                                                                            nm@,
                                                                        ) is Some);
                                                                    }
                                                                }
                                                                assert(spec_resolved_entry_ok(
                                                                    files,
                                                                    outs,
                                                                    offs,
                                                                    self.global_symbols@.last(),
                                                                )) by {
                                                                    assert(0 <= f < files.len()
                                                                        && 0 <= k
                                                                        < files[f as int].symbols@.len()
                                                                        && files[f as int].symbols@[k as int].info
                                                                        >> 4 == STB_GLOBAL);
                                                                }
                                                                assert forall|nm2: Seq<u8>|
                                                                    spec_find_global(pre, nm2)
                                                                        is Some
                                                                        implies spec_find_global(
                                                                        self.global_symbols@,
                                                                        nm2,
                                                                    ) is Some by {
                                                                    lemma_find_global_push(
                                                                        pre,
                                                                        self.global_symbols@.last(),
                                                                        nm2,
                                                                        0,
                                                                    );
                                                                }
                                                                lemma_find_global_push(
                                                                    pre,
                                                                    self.global_symbols@.last(),
                                                                    nm@,
                                                                    0,
                                                                );
                                                            }
                                                        },
                                                    }
                                                },
                                            }
                                        }
                                    },
                                }
                            }
                        },
                    }
                }
                k = k + 1;
            }
            f = f + 1;
        }
    }
}

/// The imm26 instruction rewrite: keep the instruction word's top six bits,
/// insert bits `2..28` of the displacement as the low 26 bits.
pub open spec fn spec_patch_imm26(word: u32, disp: u64) -> u32 {
    (word & 0xFC000000) | (((disp >> 2) & 0x03FFFFFF) as u32)
}

/// The bytes a relocation of type `ty` stores: the low bytes of `S + A`
/// for the absolute types, the low 32 bits of the displacement for PREL32,
/// and the old instruction word with its imm26 field rewritten for
/// JUMP26/CALL26.  `old_bytes` is the patched range's previous contents.
pub open spec fn spec_reloc_bytes(ty: u32, s_plus_a: u64, disp: u64, old_bytes: Seq<u8>) -> Seq<
    u8,
> {
    if ty == R_AARCH64_ABS64 {
        vstd::bytes::spec_u64_to_le_bytes(s_plus_a)
    } else if ty == R_AARCH64_ABS32 {
        vstd::bytes::spec_u32_to_le_bytes(s_plus_a as u32)
    } else if ty == R_AARCH64_ABS16 {
        vstd::bytes::spec_u16_to_le_bytes(s_plus_a as u16)
    } else if ty == R_AARCH64_PREL32 {
        vstd::bytes::spec_u32_to_le_bytes(disp as u32)
    } else {
        vstd::bytes::spec_u32_to_le_bytes(
            spec_patch_imm26(vstd::bytes::spec_u32_from_le_bytes(old_bytes), disp),
        )
    }
}

/// Is `ty` one of the six relocation types the engine rewrites?
pub open spec fn spec_known_reloc(ty: u32) -> bool {
    ty == R_AARCH64_ABS64 || ty == R_AARCH64_ABS32 || ty == R_AARCH64_ABS16 || ty
        == R_AARCH64_PREL32 || ty == R_AARCH64_JUMP26 || ty == R_AARCH64_CALL26
}

/// The width in bytes that relocation type `ty` patches.
pub open spec fn spec_reloc_width(ty: u32) -> int {
    if ty == R_AARCH64_ABS64 {
        8
    } else if ty == R_AARCH64_ABS16 {
        2
    } else {
        4
    }
}

/// Patch one relocation into `data` at byte position `pos`, given the
/// symbol-plus-addend value `s_plus_a` and the displacement
/// `disp = S + A - P` (64-bit wrap-around).  Each type stores exactly the
/// bytes of the table: ABS64/ABS32/ABS16 the low bytes of `S + A`, PREL32
/// the low 32 bits of the displacement, JUMP26/CALL26 the instruction word
/// with its imm26 field rewritten.  An unknown type stores nothing.
pub fn apply_rela_patch(data: &mut Vec<u8>, pos: usize, ty: u32, s_plus_a: u64, disp: u64)
    requires
        spec_known_reloc(ty) ==> pos + spec_reloc_width(ty) <= old(data)@.len(),
    ensures
        spec_known_reloc(ty) ==> final(data)@ == spec_store(
            old(data)@,
            pos as int,
            spec_reloc_bytes(
                ty,
                s_plus_a,
                disp,
                old(data)@.subrange(pos as int, pos + spec_reloc_width(ty)),
            ),
        ),
        !spec_known_reloc(ty) ==> final(data)@ == old(data)@,
{
    if ty == R_AARCH64_ABS64 {
        store_u64_le(data, pos, s_plus_a);
    } else if ty == R_AARCH64_ABS32 {
        store_u32_le(data, pos, #[verifier::truncate] (s_plus_a as u32));
    } else if ty == R_AARCH64_ABS16 {
        store_u16_le(data, pos, #[verifier::truncate] (s_plus_a as u16));
    } else if ty == R_AARCH64_PREL32 {
        store_u32_le(data, pos, #[verifier::truncate] (disp as u32));
    } else if ty == R_AARCH64_JUMP26 || ty == R_AARCH64_CALL26 {
        let word = crate::bytes::read_u32_at(data.as_slice(), pos);
        proof {
            assert(((disp >> 2) & 0x03FFFFFF) <= 0x03FFFFFF) by (bit_vector);
        }
        let imm26: u32 = ((disp >> 2) & 0x03FFFFFF) as u32;
        store_u32_le(data, pos, (word & 0xFC000000) | imm26);
    }
}

/// The output sections' buffers, as a sequence of byte sequences.
pub open spec fn spec_datas_of(outs: Seq<OutputSection>) -> Seq<Seq<u8>> {
    Seq::new(outs.len(), |j: int| outs[j].data@)
}

/// The effect of one RELA entry on its target section's bytes.  A symbol
/// index out of range or an unresolvable symbol name is malformed; an entry
/// whose symbol has no global definition, or whose type is unknown, leaves
/// the bytes unchanged; otherwise the entry's bytes are stored at
/// `input_off + entry.offset`, out-of-range positions being malformed.
#[verifier::opaque]
pub open spec fn spec_rela_entry_effect(
    file: InputFile,
    globals: Seq<GlobalSymbol>,
    addr: u64,
    input_off: u64,
    e: Rela,
    data: Seq<u8>,
) -> Result<Seq<u8>, LinkError> {
    let si = ((e.info >> 32) as u32) as int;
    if si >= file.symbols@.len() {
        Err(LinkError::Malformed)
    } else if spec_name(file.strtab_data@, file.symbols@[si].name_offset as int) is None {
        Err(LinkError::Malformed)
    } else {
        match spec_find_global(
            globals,
            spec_name(file.strtab_data@, file.symbols@[si].name_offset as int)->Some_0,
        ) {
            None => Ok(data),
            Some(g) => {
                let ty = (e.info & 0xFFFFFFFF) as u32;
                let s_plus_a = spec_add_wrap(globals[g].final_addr, e.addend as u64);
                let p = spec_add_wrap(spec_add_wrap(addr, input_off), e.offset);
                let disp = spec_sub_wrap(s_plus_a, p);
                let pos = spec_add_wrap(input_off, e.offset);
                if !spec_known_reloc(ty) {
                    Ok(data)
                } else if pos > data.len() || spec_reloc_width(ty) > data.len() - pos {
                    Err(LinkError::Malformed)
                } else {
                    Ok(
                        spec_store(
                            data,
                            pos as int,
                            spec_reloc_bytes(
                                ty,
                                s_plus_a,
                                disp,
                                data.subrange(pos as int, pos + spec_reloc_width(ty)),
                            ),
                        ),
                    )
                }
            },
        }
    }
}

/// The effect of the first `k` RELA entries, applied in order; the first
/// error stops the run.
pub open spec fn spec_rela_entries_effect(
    file: InputFile,
    globals: Seq<GlobalSymbol>,
    addr: u64,
    input_off: u64,
    entries: Seq<Rela>,
    k: int,
    data: Seq<u8>,
) -> Result<Seq<u8>, LinkError>
    decreases k,
{
    if k <= 0 {
        Ok(data)
    } else {
        match spec_rela_entries_effect(file, globals, addr, input_off, entries, k - 1, data) {
            Err(e) => Err(e),
            Ok(d) => if 0 <= k - 1 < entries.len() {
                spec_rela_entry_effect(file, globals, addr, input_off, entries[k - 1], d)
            } else {
                Ok(d)
            },
        }
    }
}

/// The effect of section `si` of file `fi` on the buffers: nothing unless
/// it is `SHT_RELA`; else its whole entry table is applied to the output
/// section holding the target section's bytes, when that section exists.
pub open spec fn spec_reloc_section_effect(
    file: InputFile,
    globals: Seq<GlobalSymbol>,
    offs: Seq<SectionOffset>,
    outs: Seq<OutputSection>,
    fi: int,
    si: int,
    datas: Seq<Seq<u8>>,
) -> Result<Seq<Seq<u8>>, LinkError> {
    let sh = file.sections@[si];
    if sh.sh_type != SHT_RELA {
        Ok(datas)
    } else if sh.info >= file.sections@.len() {
        Err(LinkError::Malformed)
    } else if spec_sec_name(file, sh.info as int) is None {
        Err(LinkError::Malformed)
    } else {
        match spec_find_output(outs, spec_sec_name(file, sh.info as int)->Some_0) {
            None => Ok(datas),
            Some(j) => {
                if !spec_entry_table_in_bounds(file.content@, sh) {
                    Err(LinkError::Malformed)
                } else {
                    match spec_rela_entries_effect(
                        file,
                        globals,
                        outs[j].header.addr,
                        match spec_find_offset(offs, fi, sh.info as int) {
                            Some(t) => offs[t].offset,
                            None => 0,
                        },
                        relas_of(file.content@, sh),
                        relas_of(file.content@, sh).len() as int,
                        datas[j],
                    ) {
                        Err(e) => Err(e),
                        Ok(d) => Ok(datas.update(j, d)),
                    }
                }
            },
        }
    }
}

/// The effect of the first `k` sections of file `fi`, in order.
pub open spec fn spec_reloc_file_effect(
    file: InputFile,
    globals: Seq<GlobalSymbol>,
    offs: Seq<SectionOffset>,
    outs: Seq<OutputSection>,
    fi: int,
    k: int,
    datas: Seq<Seq<u8>>,
) -> Result<Seq<Seq<u8>>, LinkError>
    decreases k,
{
    if k <= 0 {
        Ok(datas)
    } else {
        match spec_reloc_file_effect(file, globals, offs, outs, fi, k - 1, datas) {
            Err(e) => Err(e),
            Ok(d) => if 0 <= k - 1 < file.sections@.len() {
                spec_reloc_section_effect(file, globals, offs, outs, fi, k - 1, d)
            } else {
                Ok(d)
            },
        }
    }
}

/// The effect of the first `k` input files, in order: what the whole
/// relocation pass does to the output buffers.
pub open spec fn spec_reloc_all_effect(
    files: Seq<InputFile>,
    globals: Seq<GlobalSymbol>,
    offs: Seq<SectionOffset>,
    outs: Seq<OutputSection>,
    k: int,
    datas: Seq<Seq<u8>>,
) -> Result<Seq<Seq<u8>>, LinkError>
    decreases k,
{
    if k <= 0 {
        Ok(datas)
    } else {
        match spec_reloc_all_effect(files, globals, offs, outs, k - 1, datas) {
            Err(e) => Err(e),
            Ok(d) => if 0 <= k - 1 < files.len() {
                spec_reloc_file_effect(
                    files[k - 1],
                    globals,
                    offs,
                    outs,
                    k - 1,
                    files[k - 1].sections@.len() as int,
                    d,
                )
            } else {
                Ok(d)
            },
        }
    }
}

/// Once an entry run has failed, every longer run fails the same way.
proof fn lemma_entries_effect_err_persists(
    file: InputFile,
    globals: Seq<GlobalSymbol>,
    addr: u64,
    input_off: u64,
    entries: Seq<Rela>,
    k: int,
    k2: int,
    data: Seq<u8>,
)
    requires
        0 <= k <= k2,
        spec_rela_entries_effect(file, globals, addr, input_off, entries, k, data) is Err,
    ensures
        spec_rela_entries_effect(file, globals, addr, input_off, entries, k2, data)
            == spec_rela_entries_effect(file, globals, addr, input_off, entries, k, data),
    decreases k2 - k,
{
    if k < k2 {
        lemma_entries_effect_err_persists(file, globals, addr, input_off, entries, k, k2 - 1, data);
    }
}

/// Once a file's section run has failed, every longer run fails the same way.
proof fn lemma_file_effect_err_persists(
    file: InputFile,
    globals: Seq<GlobalSymbol>,
    offs: Seq<SectionOffset>,
    outs: Seq<OutputSection>,
    fi: int,
    k: int,
    k2: int,
    datas: Seq<Seq<u8>>,
)
    requires
        0 <= k <= k2,
        spec_reloc_file_effect(file, globals, offs, outs, fi, k, datas) is Err,
    ensures
        spec_reloc_file_effect(file, globals, offs, outs, fi, k2, datas)
            == spec_reloc_file_effect(file, globals, offs, outs, fi, k, datas),
    decreases k2 - k,
{
    if k < k2 {
        lemma_file_effect_err_persists(file, globals, offs, outs, fi, k, k2 - 1, datas);
    }
}

/// Once the file run has failed, every longer run fails the same way.
proof fn lemma_all_effect_err_persists(
    files: Seq<InputFile>,
    globals: Seq<GlobalSymbol>,
    offs: Seq<SectionOffset>,
    outs: Seq<OutputSection>,
    k: int,
    k2: int,
    datas: Seq<Seq<u8>>,
)
    requires
        0 <= k <= k2,
        spec_reloc_all_effect(files, globals, offs, outs, k, datas) is Err,
    ensures
        spec_reloc_all_effect(files, globals, offs, outs, k2, datas) == spec_reloc_all_effect(
            files,
            globals,
            offs,
            outs,
            k,
            datas,
        ),
    decreases k2 - k,
{
    if k < k2 {
        lemma_all_effect_err_persists(files, globals, offs, outs, k, k2 - 1, datas);
    }
}

/// A section-level failure makes the whole relocation pass fail the same
/// way: the failing section's error propagates through the rest of its
/// file's sections and through the remaining files.
proof fn reloc_err_chain(
    files: Seq<InputFile>,
    globals: Seq<GlobalSymbol>,
    offs: Seq<SectionOffset>,
    outs: Seq<OutputSection>,
    datas0: Seq<Seq<u8>>,
    fsd: Seq<Seq<u8>>,
    pre_datas: Seq<Seq<u8>>,
    f: int,
    si: int,
    nfiles: int,
    nsec: int,
)
    requires
        0 <= f < files.len(),
        nfiles == files.len(),
        0 <= si < files[f].sections@.len(),
        nsec == files[f].sections@.len(),
        spec_reloc_all_effect(files, globals, offs, outs, f, datas0) == Ok::<
            Seq<Seq<u8>>,
            LinkError,
        >(fsd),
        spec_reloc_file_effect(files[f], globals, offs, outs, f, si, fsd) == Ok::<
            Seq<Seq<u8>>,
            LinkError,
        >(pre_datas),
        spec_reloc_section_effect(files[f], globals, offs, outs, f, si, pre_datas) == Err::<
            Seq<Seq<u8>>,
            LinkError,
        >(LinkError::Malformed),
    ensures
        spec_reloc_all_effect(files, globals, offs, outs, nfiles, datas0) == Err::<
            Seq<Seq<u8>>,
            LinkError,
        >(LinkError::Malformed),
{
    assert(spec_reloc_file_effect(files[f], globals, offs, outs, f, si + 1, fsd) == Err::<
        Seq<Seq<u8>>,
        LinkError,
    >(LinkError::Malformed));
    lemma_file_effect_err_persists(files[f], globals, offs, outs, f, si + 1, nsec, fsd);
    assert(spec_reloc_all_effect(files, globals, offs, outs, f + 1, datas0) == Err::<
        Seq<Seq<u8>>,
        LinkError,
    >(LinkError::Malformed));
    lemma_all_effect_err_persists(files, globals, offs, outs, f + 1, nfiles, datas0);
}

/// An entry-level failure makes the whole relocation pass fail the same
/// way: the failing entry's error propagates through the rest of its
/// table, its section, its file, and the remaining files.
proof fn reloc_entry_err_chain(
    files: Seq<InputFile>,
    globals: Seq<GlobalSymbol>,
    offs: Seq<SectionOffset>,
    outs: Seq<OutputSection>,
    datas0: Seq<Seq<u8>>,
    fsd: Seq<Seq<u8>>,
    ssd: Seq<Seq<u8>>,
    dstart: Seq<u8>,
    dcur: Seq<u8>,
    addr_j: u64,
    input_off: u64,
    entries: Seq<Rela>,
    f: int,
    si: int,
    j: int,
    t: int,
    nfiles: int,
    nsec: int,
)
    requires
        0 <= f < files.len(),
        nfiles == files.len(),
        0 <= si < files[f].sections@.len(),
        nsec == files[f].sections@.len(),
        0 <= j < outs.len(),
        0 <= t < entries.len(),
        files[f].sections@[si].sh_type == SHT_RELA,
        (files[f].sections@[si].info as int) < files[f].sections@.len(),
        spec_sec_name(files[f], files[f].sections@[si].info as int) is Some,
        spec_find_output(
            outs,
            spec_sec_name(files[f], files[f].sections@[si].info as int)->Some_0,
        ) == Some(j),
        crate::elf::symbol::spec_entry_table_in_bounds(
            files[f].content@,
            files[f].sections@[si],
        ),
        entries == relas_of(files[f].content@, files[f].sections@[si]),
        input_off == (match spec_find_offset(offs, f, files[f].sections@[si].info as int) {
            Some(t2) => offs[t2].offset,
            None => 0,
        }),
        addr_j == outs[j].header.addr,
        ssd[j] == dstart,
        spec_reloc_all_effect(files, globals, offs, outs, f, datas0) == Ok::<
            Seq<Seq<u8>>,
            LinkError,
        >(fsd),
        spec_reloc_file_effect(files[f], globals, offs, outs, f, si, fsd) == Ok::<
            Seq<Seq<u8>>,
            LinkError,
        >(ssd),
        spec_rela_entries_effect(files[f], globals, addr_j, input_off, entries, t, dstart)
            == Ok::<Seq<u8>, LinkError>(dcur),
        spec_rela_entry_effect(files[f], globals, addr_j, input_off, entries[t], dcur) == Err::<
            Seq<u8>,
            LinkError,
        >(LinkError::Malformed),
    ensures
        spec_reloc_all_effect(files, globals, offs, outs, nfiles, datas0) == Err::<
            Seq<Seq<u8>>,
            LinkError,
        >(LinkError::Malformed),
{
    assert(spec_rela_entries_effect(files[f], globals, addr_j, input_off, entries, t + 1, dstart)
        == Err::<Seq<u8>, LinkError>(LinkError::Malformed));
    lemma_entries_effect_err_persists(
        files[f],
        globals,
        addr_j,
        input_off,
        entries,
        t + 1,
        entries.len() as int,
        dstart,
    );
    assert(spec_reloc_section_effect(files[f], globals, offs, outs, f, si, ssd) == Err::<
        Seq<Seq<u8>>,
        LinkError,
    >(LinkError::Malformed));
    reloc_err_chain(files, globals, offs, outs, datas0, fsd, ssd, f, si, nfiles, nsec);
}

/// Process one RELA entry against the target output section's buffer:
/// look the referenced symbol up, skip the entry when it has no global
/// definition or an unknown type, and otherwise patch the bytes at
/// `input_off + rela.offset`.  The buffer becomes exactly what the entry's
/// effect prescribes.
#[verifier::rlimit(100)]
pub fn apply_rela_entry(
    file: &InputFile,
    globals: &Vec<GlobalSymbol>,
    addr: u64,
    input_off: u64,
    rela: &Rela,
    data: &mut Vec<u8>,
) -> (r: Result<(), LinkError>)
    ensures
        final(data)@.len() == old(data)@.len(),
        r is Ok ==> spec_rela_entry_effect(*file, globals@, addr, input_off, *rela, old(data)@)
            == Ok::<Seq<u8>, LinkError>(final(data)@),
        r matches Err(e) ==> {
            &&& e == LinkError::Malformed
            &&& spec_rela_entry_effect(*file, globals@, addr, input_off, *rela, old(data)@)
                == Err::<Seq<u8>, LinkError>(e)
            &&& final(data)@ == old(data)@
        },
{
    proof {
        reveal(spec_rela_entry_effect);
    }
    let sym_index = rela.get_symbol_index() as usize;
    if sym_index >= file.symbols.len() {
        return Err(LinkError::Malformed);
    }
    let symbol = file.symbols[sym_index];
    let sym_name = match get_symbol_name(&file.strtab_data, &symbol) {
        None => {
            return Err(LinkError::Malformed);
        },
        Some(nm) => nm,
    };
    match find_global_in(globals, &sym_name) {
        None => Ok(()),
        Some(g) => {
            let sv = globals[g].final_addr;
            let a: u64 = #[verifier::truncate] (rela.addend as u64);
            let s_plus_a = add_wrap(sv, a);
            let p = add_wrap(add_wrap(addr, input_off), rela.offset);
            let disp = sub_wrap(s_plus_a, p);
            let ty = rela.get_type();
            if ty == R_AARCH64_ABS64 || ty == R_AARCH64_ABS32 || ty == R_AARCH64_ABS16 || ty
                == R_AARCH64_PREL32 || ty == R_AARCH64_JUMP26 || ty == R_AARCH64_CALL26 {
                let width: u64 = if ty == R_AARCH64_ABS64 {
                    8
                } else if ty == R_AARCH64_ABS16 {
                    2
                } else {
                    4
                };
                let pos64 = add_wrap(input_off, rela.offset);
                let dlen = data.len();
                if pos64 > dlen as u64 || width > dlen as u64 - pos64 {
                    return Err(LinkError::Malformed);
                }
                apply_rela_patch(data, pos64 as usize, ty, s_plus_a, disp);
            }
            Ok(())
        },
    }
}

/// Two section sequences with the same names give every search the same
/// result.
proof fn lemma_find_output_same_names(
    a: Seq<OutputSection>,
    b: Seq<OutputSection>,
    nm: Seq<u8>,
    k: int,
)
    requires
        0 <= k,
        a.len() == b.len(),
        forall|j: int| 0 <= j < a.len() ==> (#[trigger] a[j]).name@ == b[j].name@,
    ensures
        spec_find_output_from(a, nm, k) == spec_find_output_from(b, nm, k),
    decreases a.len() - k,
{
    if k < a.len() {
        lemma_find_output_same_names(a, b, nm, k + 1);
    }
}

impl LinkerContext {
    /// Apply the relocations: for each input file, for each `SHT_RELA`
    /// section, patch the output section that holds the target section's
    /// bytes.  For each entry, `S` is the referenced symbol's resolved
    /// address (entries whose symbol has no global definition are skipped),
    /// `A` the addend, and `P` the patched location's virtual address; the
    /// bytes at `input_section_offset + entry.offset` are rewritten
    /// according to the entry's type.  The resulting buffers are exactly
    /// the fold of every entry's effect in traversal order; section names,
    /// headers, and buffer lengths are unchanged.
    #[verifier::rlimit(100)]
    pub fn apply_relocations(&mut self) -> (r: Result<(), LinkError>)
        ensures
            final(self).input_files@ == old(self).input_files@,
            final(self).global_symbols@ == old(self).global_symbols@,
            final(self).current_addr == old(self).current_addr,
            final(self).input_section_offsets@ == old(self).input_section_offsets@,
            final(self).output_sections@.len() == old(self).output_sections@.len(),
            forall|j: int|
                0 <= j < final(self).output_sections@.len() ==> {
                    &&& (#[trigger] final(self).output_sections@[j]).name@
                        == old(self).output_sections@[j].name@
                    &&& final(self).output_sections@[j].header
                        == old(self).output_sections@[j].header
                    &&& final(self).output_sections@[j].data@.len()
                        == old(self).output_sections@[j].data@.len()
                },
            r matches Err(e) ==> e == LinkError::Malformed,
            r is Ok ==> spec_reloc_all_effect(
                old(self).input_files@,
                old(self).global_symbols@,
                old(self).input_section_offsets@,
                old(self).output_sections@,
                old(self).input_files@.len() as int,
                spec_datas_of(old(self).output_sections@),
            ) == Ok::<Seq<Seq<u8>>, LinkError>(spec_datas_of(final(self).output_sections@)),
            r matches Err(e) ==> spec_reloc_all_effect(
                old(self).input_files@,
                old(self).global_symbols@,
                old(self).input_section_offsets@,
                old(self).output_sections@,
                old(self).input_files@.len() as int,
                spec_datas_of(old(self).output_sections@),
            ) == Err::<Seq<Seq<u8>>, LinkError>(e),
    {
        let ghost files = self.input_files@;
        let ghost globals = self.global_symbols@;
        let ghost offs = self.input_section_offsets@;
        let ghost orig_outs = self.output_sections@;
        let ghost datas0 = spec_datas_of(orig_outs);
        let nouts = self.output_sections.len();
        let nfiles = self.input_files.len();
        let mut f: usize = 0;
        while f < nfiles
            invariant
                f <= nfiles,
                nfiles == self.input_files@.len(),
                nouts == self.output_sections@.len(),
                orig_outs == old(self).output_sections@,
                orig_outs.len() == nouts,
                files == self.input_files@,
                globals == self.global_symbols@,
                offs == self.input_section_offsets@,
                datas0 == spec_datas_of(orig_outs),
                self.input_files@ == old(self).input_files@,
                self.global_symbols@ == old(self).global_symbols@,
                self.current_addr == old(self).current_addr,
                self.input_section_offsets@ == old(self).input_section_offsets@,
                forall|j: int|
                    0 <= j < nouts ==> {
                        &&& (#[trigger] self.output_sections@[j]).name@ == orig_outs[j].name@
                        &&& self.output_sections@[j].header == orig_outs[j].header
                        &&& self.output_sections@[j].data@.len() == orig_outs[j].data@.len()
                    },
                spec_reloc_all_effect(files, globals, offs, orig_outs, f as int, datas0)
                    == Ok::<Seq<Seq<u8>>, LinkError>(spec_datas_of(self.output_sections@)),
            decreases nfiles - f,
        {
            let nsec = self.input_files[f].sections.len();
            let ghost fsd = spec_datas_of(self.output_sections@);
            let mut si: usize = 0;
            while si < nsec
                invariant
                    f < nfiles,
                    si <= nsec,
                    nfiles == self.input_files@.len(),
                    nsec == files[f as int].sections@.len(),
                    nouts == self.output_sections@.len(),
                    orig_outs == old(self).output_sections@,
                    orig_outs.len() == nouts,
                    files == self.input_files@,
                    globals == self.global_symbols@,
                    offs == self.input_section_offsets@,
                    datas0 == spec_datas_of(orig_outs),
                    self.input_files@ == old(self).input_files@,
                    self.global_symbols@ == old(self).global_symbols@,
                    self.current_addr == old(self).current_addr,
                    self.input_section_offsets@ == old(self).input_section_offsets@,
                    forall|j: int|
                        0 <= j < nouts ==> {
                            &&& (#[trigger] self.output_sections@[j]).name@ == orig_outs[j].name@
                            &&& self.output_sections@[j].header == orig_outs[j].header
                            &&& self.output_sections@[j].data@.len() == orig_outs[j].data@.len()
                        },
                    spec_reloc_all_effect(files, globals, offs, orig_outs, f as int, datas0)
                        == Ok::<Seq<Seq<u8>>, LinkError>(fsd),
                    spec_reloc_file_effect(
                        files[f as int],
                        globals,
                        offs,
                        orig_outs,
                        f as int,
                        si as int,
                        fsd,
                    ) == Ok::<Seq<Seq<u8>>, LinkError>(spec_datas_of(self.output_sections@)),
                decreases nsec - si,
            {
                let ghost pre_datas = spec_datas_of(self.output_sections@);
                let sh = self.input_files[f].sections[si];
                if sh.sh_type == SHT_RELA {
                    let target_sec_idx = sh.info as usize;
                    if target_sec_idx >= self.input_files[f].sections.len() {
                        proof {
                            reloc_err_chain(
                                files,
                                globals,
                                offs,
                                orig_outs,
                                datas0,
                                fsd,
                                pre_datas,
                                f as int,
                                si as int,
                                nfiles as int,
                                nsec as int,
                            );
                        }
                        return Err(LinkError::Malformed);
                    }
                    let target_sec = self.input_files[f].sections[target_sec_idx];
                    let target_name = match get_section_name(
                        &self.input_files[f].shstrtab_data,
                        &target_sec,
                    ) {
                        None => {
                            proof {
                                reloc_err_chain(
                                    files,
                                    globals,
                                    offs,
                                    orig_outs,
                                    datas0,
                                    fsd,
                                    pre_datas,
                                    f as int,
                                    si as int,
                                    nfiles as int,
                                    nsec as int,
                                );
                            }
                            return Err(LinkError::Malformed);
                        },
                        Some(tn) => tn,
                    };
                    let found = self.find_output_section(&target_name);
                    proof {
                        lemma_find_output_same_names(
                            self.output_sections@,
                            orig_outs,
                            target_name@,
                            0,
                        );
                    }
                    match found {
                        None => {},
                        Some(j) => {
                            let relas = match parse_rela_table(
                                self.input_files[f].content.as_slice(),
                                &sh,
                            ) {
                                Err(e) => {
                                    proof {
                                        reloc_err_chain(
                                            files,
                                            globals,
                                            offs,
                                            orig_outs,
                                            datas0,
                                            fsd,
                                            pre_datas,
                                            f as int,
                                            si as int,
                                            nfiles as int,
                                            nsec as int,
                                        );
                                    }
                                    return Err(LinkError::Malformed);
                                },
                                Ok(v) => v,
                            };
                            let input_off = match self.find_input_section_offset(
                                f,
                                target_sec_idx,
                            ) {
                                Some(o) => o,
                                None => 0,
                            };
                            let addr_of_j = self.output_sections[j].header.addr;
                            let ghost addr_j = orig_outs[j as int].header.addr;
                            let ghost ssd = spec_datas_of(self.output_sections@);
                            let ghost dstart = self.output_sections@[j as int].data@;
                            proof {
                                assert(ssd[j as int] == dstart);
                                assert(ssd =~= ssd.update(j as int, dstart));
                            }
                            let nrel = relas.len();
                            let mut t: usize = 0;
                            while t < nrel
                                invariant
                                    t <= nrel,
                                    j < nouts,
                                    nrel == relas@.len(),
                                    nfiles == self.input_files@.len(),
                                    f < nfiles,
                                    si < nsec,
                                    nsec == files[f as int].sections@.len(),
                                    nouts == self.output_sections@.len(),
                                    orig_outs == old(self).output_sections@,
                                    orig_outs.len() == nouts,
                                    files == self.input_files@,
                                    globals == self.global_symbols@,
                                    offs == self.input_section_offsets@,
                                    datas0 == spec_datas_of(orig_outs),
                                    self.input_files@ == old(self).input_files@,
                                    self.global_symbols@ == old(self).global_symbols@,
                                    self.current_addr == old(self).current_addr,
                                    self.input_section_offsets@ == old(
                                        self,
                                    ).input_section_offsets@,
                                    forall|j2: int|
                                        0 <= j2 < nouts ==> {
                                            &&& (#[trigger] self.output_sections@[j2]).name@
                                                == orig_outs[j2].name@
                                            &&& self.output_sections@[j2].header
                                                == orig_outs[j2].header
                                            &&& self.output_sections@[j2].data@.len()
                                                == orig_outs[j2].data@.len()
                                        },
                                    spec_reloc_all_effect(
                                        files,
                                        globals,
                                        offs,
                                        orig_outs,
                                        f as int,
                                        datas0,
                                    ) == Ok::<Seq<Seq<u8>>, LinkError>(fsd),
                                    spec_reloc_file_effect(
                                        files[f as int],
                                        globals,
                                        offs,
                                        orig_outs,
                                        f as int,
                                        si as int,
                                        fsd,
                                    ) == Ok::<Seq<Seq<u8>>, LinkError>(ssd),
                                    sh == files[f as int].sections@[si as int],
                                    sh.sh_type == SHT_RELA,
                                    (sh.info as int) < files[f as int].sections@.len(),
                                    spec_sec_name(files[f as int], sh.info as int) == Some(
                                        target_name@,
                                    ),
                                    spec_find_output(orig_outs, target_name@) == Some(j as int),
                                    crate::elf::symbol::spec_entry_table_in_bounds(
                                        files[f as int].content@,
                                        sh,
                                    ),
                                    relas@ == relas_of(files[f as int].content@, sh),
                                    input_off == (match spec_find_offset(
                                        offs,
                                        f as int,
                                        sh.info as int,
                                    ) {
                                        Some(t2) => offs[t2].offset,
                                        None => 0,
                                    }),
                                    addr_j == orig_outs[j as int].header.addr,
                                    addr_of_j == addr_j,
                                    ssd[j as int] == dstart,
                                    ssd.len() == nouts,
                                    spec_rela_entries_effect(
                                        files[f as int],
                                        globals,
                                        addr_j,
                                        input_off,
                                        relas@,
                                        t as int,
                                        dstart,
                                    ) == Ok::<Seq<u8>, LinkError>(
                                        self.output_sections@[j as int].data@,
                                    ),
                                    spec_datas_of(self.output_sections@) == ssd.update(
                                        j as int,
                                        self.output_sections@[j as int].data@,
                                    ),
                                decreases nrel - t,
                            {
                                let ghost dcur = self.output_sections@[j as int].data@;
                                let rela = relas[t];
                                let ghost preouts = self.output_sections@;
                                let mut out = self.output_sections.remove(j);
                                let res = apply_rela_entry(
                                    &self.input_files[f],
                                    &self.global_symbols,
                                    addr_of_j,
                                    input_off,
                                    &rela,
                                    &mut out.data,
                                );
                                self.output_sections.insert(j, out);
                                proof {
                                    assert(self.output_sections@ =~= preouts.update(
                                        j as int,
                                        self.output_sections@[j as int],
                                    ));
                                }
                                match res {
                                    Err(e) => {
                                        proof {
                                            reloc_entry_err_chain(
                                                files,
                                                globals,
                                                offs,
                                                orig_outs,
                                                datas0,
                                                fsd,
                                                ssd,
                                                dstart,
                                                dcur,
                                                addr_j,
                                                input_off,
                                                relas@,
                                                f as int,
                                                si as int,
                                                j as int,
                                                t as int,
                                                nfiles as int,
                                                nsec as int,
                                            );
                                        }
                                        return Err(e);
                                    },
                                    Ok(u) => {
                                        proof {
                                            assert(files[f as int] == self.input_files@[
                                                f as int
                                            ]);
                                            assert(globals == self.global_symbols@);
                                            assert(addr_j == addr_of_j);
                                            assert(relas@[t as int] == rela);
                                            assert(dcur == preouts[j as int].data@);
                                            assert(self.output_sections@[j as int]
                                                == preouts.update(
                                                j as int,
                                                self.output_sections@[j as int],
                                            )[j as int]);
                                            assert(spec_rela_entry_effect(
                                                files[f as int],
                                                globals,
                                                addr_j,
                                                input_off,
                                                relas@[t as int],
                                                dcur,
                                            ) == Ok::<Seq<u8>, LinkError>(
                                                self.output_sections@[j as int].data@,
                                            ));
                                            assert forall|j2: int|
                                                0 <= j2 < nouts implies spec_datas_of(
                                                self.output_sections@,
                                            )[j2] == ssd.update(
                                                j as int,
                                                self.output_sections@[j as int].data@,
                                            )[j2] by {
                                                if j2 != j as int {
                                                    assert(self.output_sections@[j2]
                                                        == preouts[j2]);
                                                    assert(spec_datas_of(preouts)[j2]
                                                        == ssd.update(j as int, dcur)[j2]);
                                                }
                                            }
                                            assert(spec_datas_of(self.output_sections@)
                                                =~= ssd.update(
                                                j as int,
                                                self.output_sections@[j as int].data@,
                                            ));
                                        }
                                        u
                                    },
                                };
                                                                t = t + 1;
                            }
                            proof {
                                assert(spec_reloc_section_effect(
                                    files[f as int],
                                    globals,
                                    offs,
                                    orig_outs,
                                    f as int,
                                    si as int,
                                    ssd,
                                ) == Ok::<Seq<Seq<u8>>, LinkError>(
                                    spec_datas_of(self.output_sections@),
                                ));
                            }
                        },
                    }
                }
                si = si + 1;
            }
            f = f + 1;
        }
        Ok(())
    }
}

/// The 56-byte little-endian image of a program header, fields in their
/// documented order.
pub open spec fn spec_phdr_bytes(p: ProgramHeader) -> Seq<u8> {
    vstd::bytes::spec_u32_to_le_bytes(p.p_type) + vstd::bytes::spec_u32_to_le_bytes(p.flags)
        + vstd::bytes::spec_u64_to_le_bytes(p.offset) + vstd::bytes::spec_u64_to_le_bytes(p.vaddr)
        + vstd::bytes::spec_u64_to_le_bytes(p.paddr) + vstd::bytes::spec_u64_to_le_bytes(p.filesz)
        + vstd::bytes::spec_u64_to_le_bytes(p.memsz) + vstd::bytes::spec_u64_to_le_bytes(p.align)
}

/// Serialise a program header into its 56-byte little-endian image.
pub fn serialize_program_header(p: &ProgramHeader) -> (r: Vec<u8>)
    ensures
        r@ == spec_phdr_bytes(*p),
        r@.len() == 56,
{
    proof {
        vstd::bytes::lemma_auto_spec_u32_to_from_le_bytes();
        vstd::bytes::lemma_auto_spec_u64_to_from_le_bytes();
    }
    let mut r: Vec<u8> = Vec::new();
    push_u32_le(&mut r, p.p_type);
    push_u32_le(&mut r, p.flags);
    push_u64_le(&mut r, p.offset);
    push_u64_le(&mut r, p.vaddr);
    push_u64_le(&mut r, p.paddr);
    push_u64_le(&mut r, p.filesz);
    push_u64_le(&mut r, p.memsz);
    push_u64_le(&mut r, p.align);
    proof {
        assert(r@ =~= spec_phdr_bytes(*p));
    }
    r
}

/// Is section `j` of the output a code section (`SHF_EXECINSTR` set)?
pub open spec fn spec_is_code(outs: Seq<OutputSection>, j: int) -> bool {
    outs[j].header.flags & SHF_EXECINSTR != 0
}

/// Total size of the code sections among the first `k` output sections.
pub open spec fn spec_code_size_upto(outs: Seq<OutputSection>, k: int) -> int
    decreases k,
{
    if k <= 0 {
        0
    } else {
        spec_code_size_upto(outs, k - 1) + (if 0 <= k - 1 < outs.len() && spec_is_code(
            outs,
            k - 1,
        ) {
            outs[k - 1].header.size as int
        } else {
            0
        })
    }
}

/// Bytes the data segment occupies in the file: the sizes of the non-code
/// sections that are not `SHT_NOBITS`, among the first `k`.
pub open spec fn spec_data_filesz_upto(outs: Seq<OutputSection>, k: int) -> int
    decreases k,
{
    if k <= 0 {
        0
    } else {
        spec_data_filesz_upto(outs, k - 1) + (if 0 <= k - 1 < outs.len() && !spec_is_code(
            outs,
            k - 1,
        ) && outs[k - 1].header.sh_type != SHT_NOBITS {
            outs[k - 1].header.size as int
        } else {
            0
        })
    }
}

/// Bytes the data segment occupies in memory: the sizes of all non-code
/// sections, `SHT_NOBITS` included, among the first `k`.
pub open spec fn spec_data_memsz_upto(outs: Seq<OutputSection>, k: int) -> int
    decreases k,
{
    if k <= 0 {
        0
    } else {
        spec_data_memsz_upto(outs, k - 1) + (if 0 <= k - 1 < outs.len() && !spec_is_code(
            outs,
            k - 1,
        ) {
            outs[k - 1].header.size as int
        } else {
            0
        })
    }
}

/// The concatenated buffers of the code sections among the first `k`.
pub open spec fn spec_code_concat(outs: Seq<OutputSection>, k: int) -> Seq<u8>
    decreases k,
{
    if k <= 0 {
        Seq::empty()
    } else {
        spec_code_concat(outs, k - 1) + (if 0 <= k - 1 < outs.len() && spec_is_code(outs, k - 1) {
            outs[k - 1].data@
        } else {
            Seq::empty()
        })
    }
}

/// The concatenated buffers of the non-code, non-`SHT_NOBITS` sections
/// among the first `k`.
pub open spec fn spec_data_concat(outs: Seq<OutputSection>, k: int) -> Seq<u8>
    decreases k,
{
    if k <= 0 {
        Seq::empty()
    } else {
        spec_data_concat(outs, k - 1) + (if 0 <= k - 1 < outs.len() && !spec_is_code(outs, k - 1)
            && outs[k - 1].header.sh_type != SHT_NOBITS {
            outs[k - 1].data@
        } else {
            Seq::empty()
        })
    }
}

/// The entry point: the `_start` global symbol's address, else `main`'s,
/// else nothing.
pub open spec fn spec_entry_point(syms: Seq<GlobalSymbol>) -> Option<u64> {
    match spec_find_global(syms, start_name()) {
        Some(i) => Some(syms[i].final_addr),
        None => match spec_find_global(syms, main_name()) {
            Some(i) => Some(syms[i].final_addr),
            None => None,
        },
    }
}

/// The output executable's ELF header: the first input's header with the
/// `e_ident` fields forced to ELF64/little-endian defaults, type `ET_EXEC`,
/// the entry point set, two 56-byte program headers at offset 64, and no
/// section header table.
pub open spec fn spec_out_header(first: ElfHeader, entry: u64) -> ElfHeader {
    ElfHeader {
        class: EI_CLASS_64,
        data: EI_DATA_2LSB,
        version: 1,
        os_abi: 0,
        abi_version: 0,
        e_type: ET_EXEC,
        e_entry: entry,
        e_phoff: ELF_HEADER_SIZE,
        e_phnum: 2,
        e_phentsize: PROGRAM_HEADER_SIZE as u16,
        e_shoff: 0,
        e_shnum: 0,
        e_shstrndx: 0,
        ..first
    }
}

/// The code segment's program header: read+execute, mapped from the file's
/// beginning (headers included) at the page-aligned base address.
pub open spec fn spec_code_phdr(outs: Seq<OutputSection>) -> ProgramHeader {
    ProgramHeader {
        p_type: PT_LOAD,
        flags: PF_R | PF_X,
        offset: spec_align_up(0, PAGE_SIZE),
        vaddr: spec_align_up(BASE_ADDR, PAGE_SIZE),
        paddr: spec_align_up(BASE_ADDR, PAGE_SIZE),
        filesz: (HEADERS_TOTAL_SIZE + spec_code_size_upto(outs, outs.len() as int)) as u64,
        memsz: (HEADERS_TOTAL_SIZE + spec_code_size_upto(outs, outs.len() as int)) as u64,
        align: PAGE_SIZE,
    }
}

/// The data segment's program header: read+write, page-aligned after the
/// code segment in both the file and the address space; `SHT_NOBITS`
/// sections count toward `memsz` but not `filesz`.
pub open spec fn spec_data_phdr(outs: Seq<OutputSection>) -> ProgramHeader {
    let code_filesz = (HEADERS_TOTAL_SIZE + spec_code_size_upto(outs, outs.len() as int)) as u64;
    ProgramHeader {
        p_type: PT_LOAD,
        flags: PF_R | PF_W,
        offset: spec_align_up(code_filesz, PAGE_SIZE),
        vaddr: spec_align_up((BASE_ADDR + code_filesz) as u64, PAGE_SIZE),
        paddr: spec_align_up((BASE_ADDR + code_filesz) as u64, PAGE_SIZE),
        filesz: spec_data_filesz_upto(outs, outs.len() as int) as u64,
        memsz: spec_data_memsz_upto(outs, outs.len() as int) as u64,
        align: PAGE_SIZE,
    }
}

/// Are the output sections in ascending order of virtual address?
pub open spec fn spec_addr_sorted(outs: Seq<OutputSection>) -> bool {
    forall|a: int|
        0 <= a && a + 1 < outs.len() ==> (#[trigger] outs[a]).header.addr <= outs[a
            + 1].header.addr
}

/// The code-size sum grows with its prefix length.
proof fn lemma_code_size_upto_le(outs: Seq<OutputSection>, k1: int, k2: int)
    requires
        0 <= k1 <= k2,
    ensures
        spec_code_size_upto(outs, k1) <= spec_code_size_upto(outs, k2),
    decreases k2,
{
    if k1 < k2 {
        lemma_code_size_upto_le(outs, k1, k2 - 1);
    }
}

/// The data file-size sum grows with its prefix length.
proof fn lemma_data_filesz_upto_le(outs: Seq<OutputSection>, k1: int, k2: int)
    requires
        0 <= k1 <= k2,
    ensures
        spec_data_filesz_upto(outs, k1) <= spec_data_filesz_upto(outs, k2),
    decreases k2,
{
    if k1 < k2 {
        lemma_data_filesz_upto_le(outs, k1, k2 - 1);
    }
}

/// The data memory-size sum grows with its prefix length.
proof fn lemma_data_memsz_upto_le(outs: Seq<OutputSection>, k1: int, k2: int)
    requires
        0 <= k1 <= k2,
    ensures
        spec_data_memsz_upto(outs, k1) <= spec_data_memsz_upto(outs, k2),
    decreases k2,
{
    if k1 < k2 {
        lemma_data_memsz_upto_le(outs, k1, k2 - 1);
    }
}

/// When the emitter fails with `Malformed`, exactly one of these holds of
/// the state: no input file supplies the template header; the output
/// sections are not in ascending address order; a segment size sum, the
/// code segment's total, or a page rounding exceeds `u64`; or a padding
/// run exceeds `usize`.  On any other state, given an entry point, the
/// emitter succeeds.
pub open spec fn spec_emit_fails(files: Seq<InputFile>, outs: Seq<OutputSection>) -> bool {
    let code_sz = spec_code_size_upto(outs, outs.len() as int);
    let code_filesz = HEADERS_TOTAL_SIZE + code_sz;
    let pad1: int = if spec_align_up(0, PAGE_SIZE) > HEADERS_TOTAL_SIZE {
        spec_align_up(0, PAGE_SIZE) - HEADERS_TOTAL_SIZE
    } else {
        0
    };
    ||| files.len() == 0
    ||| !spec_addr_sorted(outs)
    ||| code_sz > u64::MAX
    ||| spec_data_memsz_upto(outs, outs.len() as int) > u64::MAX
    ||| spec_data_filesz_upto(outs, outs.len() as int) > u64::MAX
    ||| code_filesz > u64::MAX
    ||| code_filesz + (PAGE_SIZE - 1) > u64::MAX
    ||| BASE_ADDR + code_filesz > u64::MAX
    ||| BASE_ADDR + code_filesz + (PAGE_SIZE - 1) > u64::MAX
    ||| pad1 > usize::MAX
    ||| spec_align_up(code_filesz as u64, PAGE_SIZE) > HEADERS_TOTAL_SIZE + pad1
        + spec_code_concat(outs, outs.len() as int).len() + usize::MAX
}

/// The whole output image: ELF header, the two program headers, padding to
/// the code segment's file offset, the code sections' buffers in order,
/// padding to the data segment's file offset, then the data sections'
/// buffers in order with `SHT_NOBITS` sections omitted.
pub open spec fn spec_image(
    h: ElfHeader,
    cp: ProgramHeader,
    dp: ProgramHeader,
    outs: Seq<OutputSection>,
) -> Seq<u8> {
    let head = spec_elf_header_bytes(h) + spec_phdr_bytes(cp) + spec_phdr_bytes(dp);
    let pad1: int = if cp.offset > head.len() {
        cp.offset - head.len()
    } else {
        0
    };
    let with_code = head + zero_bytes(pad1) + spec_code_concat(outs, outs.len() as int);
    let pad2: int = if dp.offset > with_code.len() {
        dp.offset - with_code.len()
    } else {
        0
    };
    with_code + zero_bytes(pad2) + spec_data_concat(outs, outs.len() as int)
}

impl LinkerContext {
    /// Build the executable's byte image: pick the entry point (`_start`,
    /// else `main`), derive the output ELF header from the first input's,
    /// lay the code and data segments out page-aligned, and emit header,
    /// program headers, padding, and section buffers in order.  The caller
    /// writes the returned bytes to the output path.
    #[verifier::rlimit(100)]
    pub fn write_executable(&self) -> (r: Result<Vec<u8>, LinkError>)
        ensures
            r == Err::<Vec<u8>, LinkError>(LinkError::NoEntryPoint) <==> spec_entry_point(
                self.global_symbols@,
            ) is None,
            r == Err::<Vec<u8>, LinkError>(LinkError::Malformed) <==> (spec_entry_point(
                self.global_symbols@,
            ) is Some && spec_emit_fails(self.input_files@, self.output_sections@)),
            r matches Err(e) ==> (e == LinkError::NoEntryPoint || e == LinkError::Malformed),
            r matches Ok(img) ==> {
                &&& spec_entry_point(self.global_symbols@) is Some
                &&& !spec_emit_fails(self.input_files@, self.output_sections@)
                &&& spec_addr_sorted(self.output_sections@)
                &&& self.input_files@.len() > 0
                &&& img@ == spec_image(
                    spec_out_header(
                        self.input_files@[0].header,
                        spec_entry_point(self.global_symbols@)->Some_0,
                    ),
                    spec_code_phdr(self.output_sections@),
                    spec_data_phdr(self.output_sections@),
                    self.output_sections@,
                )
            },
    {
        let start_nm = make_start_name();
        let entry: u64 = match self.find_global_symbol(&start_nm) {
            Some(i) => self.global_symbols[i].final_addr,
            None => {
                let main_nm = make_main_name();
                match self.find_global_symbol(&main_nm) {
                    Some(i) => self.global_symbols[i].final_addr,
                    None => {
                        return Err(LinkError::NoEntryPoint);
                    },
                }
            },
        };
        proof {
            assert(spec_entry_point(self.global_symbols@) == Some(entry));
        }
        if self.input_files.len() == 0 {
            return Err(LinkError::Malformed);
        }
        let ghost outs = self.output_sections@;
        let n = self.output_sections.len();
        let mut s0: usize = 0;
        while n > 0 && s0 < n - 1
            invariant
                s0 <= n,
                n == self.output_sections@.len(),
                outs == self.output_sections@,
                spec_entry_point(self.global_symbols@) == Some(entry),
                self.input_files@.len() > 0,
                forall|a: int|
                    0 <= a < s0 && a + 1 < n ==> (#[trigger] outs[a]).header.addr <= outs[a
                        + 1].header.addr,
            decreases n - s0,
        {
            if self.output_sections[s0].header.addr > self.output_sections[s0 + 1].header.addr {
                proof {
                    assert(!spec_addr_sorted(outs));
                }
                return Err(LinkError::Malformed);
            }
            s0 = s0 + 1;
        }
        proof {
            assert(spec_addr_sorted(outs));
        }
        let mut code_total: u64 = 0;
        let mut data_filesz: u64 = 0;
        let mut data_memsz: u64 = 0;
        let mut i: usize = 0;
        while i < n
            invariant
                i <= n,
                n == self.output_sections@.len(),
                outs == self.output_sections@,
                spec_entry_point(self.global_symbols@) == Some(entry),
                self.input_files@.len() > 0,
                code_total as int == spec_code_size_upto(outs, i as int),
                data_filesz as int == spec_data_filesz_upto(outs, i as int),
                data_memsz as int == spec_data_memsz_upto(outs, i as int),
            decreases n - i,
        {
            let sh = self.output_sections[i].header;
            if sh.flags & SHF_EXECINSTR != 0 {
                if sh.size > u64::MAX - code_total {
                    proof {
                        assert(spec_code_size_upto(outs, i + 1) > u64::MAX);
                        lemma_code_size_upto_le(outs, i + 1, n as int);
                    }
                    return Err(LinkError::Malformed);
                }
                code_total = code_total + sh.size;
            } else {
                if sh.size > u64::MAX - data_memsz {
                    proof {
                        assert(spec_data_memsz_upto(outs, i + 1) > u64::MAX);
                        lemma_data_memsz_upto_le(outs, i + 1, n as int);
                    }
                    return Err(LinkError::Malformed);
                }
                data_memsz = data_memsz + sh.size;
                if sh.sh_type != SHT_NOBITS {
                    if sh.size > u64::MAX - data_filesz {
                        proof {
                            assert(spec_data_filesz_upto(outs, i + 1) > u64::MAX);
                            lemma_data_filesz_upto_le(outs, i + 1, n as int);
                        }
                        return Err(LinkError::Malformed);
                    }
                    data_filesz = data_filesz + sh.size;
                }
            }
            i = i + 1;
        }
        if code_total > u64::MAX - HEADERS_TOTAL_SIZE {
            return Err(LinkError::Malformed);
        }
        let code_filesz: u64 = HEADERS_TOTAL_SIZE + code_total;
        if code_filesz > u64::MAX - (PAGE_SIZE - 1) {
            return Err(LinkError::Malformed);
        }
        let data_offset = align_up(code_filesz, PAGE_SIZE);
        if BASE_ADDR > u64::MAX - code_filesz || BASE_ADDR + code_filesz > u64::MAX - (PAGE_SIZE
            - 1) {
            return Err(LinkError::Malformed);
        }
        let data_vaddr = align_up(BASE_ADDR + code_filesz, PAGE_SIZE);
        let code_vaddr = align_up(BASE_ADDR, PAGE_SIZE);
        let code_offset = align_up(0, PAGE_SIZE);
        let code_header = ProgramHeader {
            p_type: PT_LOAD,
            flags: PF_R | PF_X,
            offset: code_offset,
            vaddr: code_vaddr,
            paddr: code_vaddr,
            filesz: code_filesz,
            memsz: code_filesz,
            align: PAGE_SIZE,
        };
        let data_header = ProgramHeader {
            p_type: PT_LOAD,
            flags: PF_R | PF_W,
            offset: data_offset,
            vaddr: data_vaddr,
            paddr: data_vaddr,
            filesz: data_filesz,
            memsz: data_memsz,
            align: PAGE_SIZE,
        };
        proof {
            assert(code_header == spec_code_phdr(outs));
            assert(data_header == spec_data_phdr(outs));
        }
        let first = self.input_files[0].header;
        let out_h = ElfHeader {
            class: EI_CLASS_64,
            data: EI_DATA_2LSB,
            version: 1,
            os_abi: 0,
            abi_version: 0,
            e_type: ET_EXEC,
            e_entry: entry,
            e_phoff: ELF_HEADER_SIZE,
            e_phnum: 2,
            e_phentsize: 56,
            e_shoff: 0,
            e_shnum: 0,
            e_shstrndx: 0,
            ..first
        };
        proof {
            assert(out_h == spec_out_header(self.input_files@[0].header, entry));
        }
        let mut buf = serialize_elf_header(&out_h);
        let cb = serialize_program_header(&code_header);
        append_bytes(&mut buf, &cb);
        let db = serialize_program_header(&data_header);
        append_bytes(&mut buf, &db);
        let ghost head = spec_elf_header_bytes(out_h) + spec_phdr_bytes(code_header)
            + spec_phdr_bytes(data_header);
        proof {
            assert(buf@ =~= head);
            assert(buf@.len() == 176);
        }
        let pad1: u64 = if code_header.offset > buf.len() as u64 {
            code_header.offset - buf.len() as u64
        } else {
            0
        };
        if pad1 > usize::MAX as u64 {
            return Err(LinkError::Malformed);
        }
        push_zeros(&mut buf, pad1 as usize);
        let ghost with_head_pad = head + zero_bytes(pad1 as int);
        let mut k: usize = 0;
        while k < n
            invariant
                k <= n,
                n == self.output_sections@.len(),
                outs == self.output_sections@,
                buf@ == with_head_pad + spec_code_concat(outs, k as int),
            decreases n - k,
        {
            if self.output_sections[k].header.flags & SHF_EXECINSTR != 0 {
                append_bytes(&mut buf, &self.output_sections[k].data);
                proof {
                    assert(with_head_pad + spec_code_concat(outs, k as int)
                        + outs[k as int].data@ =~= with_head_pad + spec_code_concat(
                        outs,
                        k + 1,
                    ));
                }
            } else {
                proof {
                    assert(with_head_pad + spec_code_concat(outs, k as int) =~= with_head_pad
                        + spec_code_concat(outs, k + 1));
                }
            }
            k = k + 1;
        }
        let ghost with_code = with_head_pad + spec_code_concat(outs, outs.len() as int);
        let pad2: u64 = if data_header.offset > buf.len() as u64 {
            data_header.offset - buf.len() as u64
        } else {
            0
        };
        if pad2 > usize::MAX as u64 {
            return Err(LinkError::Malformed);
        }
        push_zeros(&mut buf, pad2 as usize);
        let ghost with_pad2 = with_code + zero_bytes(pad2 as int);
        let mut k2: usize = 0;
        while k2 < n
            invariant
                k2 <= n,
                n == self.output_sections@.len(),
                outs == self.output_sections@,
                buf@ == with_pad2 + spec_data_concat(outs, k2 as int),
            decreases n - k2,
        {
            let sh = self.output_sections[k2].header;
            if sh.flags & SHF_EXECINSTR == 0 && sh.sh_type != SHT_NOBITS {
                append_bytes(&mut buf, &self.output_sections[k2].data);
                proof {
                    assert(with_pad2 + spec_data_concat(outs, k2 as int)
                        + outs[k2 as int].data@ =~= with_pad2 + spec_data_concat(outs, k2 + 1));
                }
            } else {
                proof {
                    assert(with_pad2 + spec_data_concat(outs, k2 as int) =~= with_pad2
                        + spec_data_concat(outs, k2 + 1));
                }
            }
            k2 = k2 + 1;
        }
        proof {
            assert(buf@ =~= spec_image(
                spec_out_header(self.input_files@[0].header, entry),
                spec_code_phdr(outs),
                spec_data_phdr(outs),
                outs,
            ));
        }
        Ok(buf)
    }
}

/// Law: every recorded offset-table entry lies within its output section:
/// the entry's offset plus the input section's size is at most the output
/// section's merged size.
pub proof fn lemma_offsets_within_bounds(
    files: Seq<InputFile>,
    outs: Seq<OutputSection>,
    offs: Seq<SectionOffset>,
    t: int,
)
    requires
        spec_offsets_ok(files, outs, offs),
        0 <= t < offs.len(),
    ensures
        offs[t].offset + files[offs[t].file_idx as int].sections@[offs[t].section_idx
            as int].size <= outs[spec_find_output(
            outs,
            spec_sec_name(files[offs[t].file_idx as int], offs[t].section_idx as int)->Some_0,
        )->Some_0].header.size,
{
    assert(spec_offset_entry_ok(files, outs, offs[t]));
}

/// Each laid-out section starts at or after the previous section's end.
pub proof fn lemma_layout_addr_after_prev(outs: Seq<OutputSection>, start: u64, j: int)
    requires
        spec_addr_assigned(outs, start),
        0 <= j < outs.len(),
    ensures
        outs[j].header.addr as int >= spec_prev_end(outs, j, start),
{
    assert(spec_addr_at_ok(outs, j, start));
    if outs[j].header.addralign > 0 {
        lemma_align_up_bounds(
            spec_prev_end(outs, j, start) as u64,
            outs[j].header.addralign,
        );
    }
}

/// After layout the output section addresses increase along the priority
/// order: each later section starts at or after every earlier section's
/// end, and strictly after its start whenever the earlier section is
/// non-empty.  Together with the priority ordering this is the address law
/// `.text < .rodata < .data < .bss < other` for non-empty sections.
pub proof fn lemma_layout_addresses_increase(outs: Seq<OutputSection>, start: u64, a: int, b: int)
    requires
        spec_addr_assigned(outs, start),
        0 <= a < b < outs.len(),
    ensures
        outs[a].header.addr + outs[a].header.size <= outs[b].header.addr,
        outs[a].header.size > 0 ==> outs[a].header.addr < outs[b].header.addr,
    decreases b - a,
{
    lemma_layout_addr_after_prev(outs, start, b);
    if a < b - 1 {
        lemma_layout_addresses_increase(outs, start, a, b - 1);
    }
}

/// After layout each section with a power-of-two alignment `pow2(n)` sits
/// on a multiple of that alignment.
pub proof fn lemma_layout_address_aligned(outs: Seq<OutputSection>, start: u64, j: int, n: nat)
    requires
        spec_addr_assigned(outs, start),
        0 <= j < outs.len(),
        n < 64,
        outs[j].header.addralign == vstd::arithmetic::power2::pow2(n),
    ensures
        outs[j].header.addr % outs[j].header.addralign == 0,
{
    assert(spec_addr_at_ok(outs, j, start));
    vstd::arithmetic::power2::lemma_pow2_pos(n);
    lemma_align_up_aligned(spec_prev_end(outs, j, start) as u64, outs[j].header.addralign, n);
}

/// The low 26 bits of an instruction word, sign-extended to 64 bits.
pub open spec fn spec_sign_extend_26(x: u32) -> u64 {
    if x & 0x2000000 != 0 {
        (x as u64) | 0xFFFFFFFFFC000000u64
    } else {
        x as u64
    }
}

/// The branch target a patched imm26 instruction encodes: the place plus
/// four times the sign-extended low 26 bits, with 64-bit wrap-around.
pub open spec fn spec_imm26_target(word: u32, place: u64) -> u64 {
    spec_add_wrap(place, spec_sign_extend_26(word & 0x03FFFFFF) << 2)
}

/// Does a displacement fit an imm26 field: a multiple of four within the
/// signed 28-bit range (as a wrapped 64-bit value)?
pub open spec fn spec_imm26_fits(disp: u64) -> bool {
    disp & 3 == 0 && (disp < 0x8000000 || disp >= 0xFFFFFFFFF8000000)
}

/// Decoding law for `R_AARCH64_CALL26` and `R_AARCH64_JUMP26`: after
/// patching an instruction word with the displacement `S + A - P`, reading
/// the word back, masking its low 26 bits, sign-extending, shifting left by
/// two and adding the place `P` yields `S + A` modulo `2^64` — whenever the
/// displacement is a multiple of four in the signed 28-bit range.
pub proof fn lemma_imm26_patch_decodes(word: u32, s_plus_a: u64, p: u64)
    requires
        spec_imm26_fits(spec_sub_wrap(s_plus_a, p)),
    ensures
        spec_imm26_target(spec_patch_imm26(word, spec_sub_wrap(s_plus_a, p)), p) == s_plus_a,
{
    let d = spec_sub_wrap(s_plus_a, p);
    assert(spec_sign_extend_26(spec_patch_imm26(word, d) & 0x03FFFFFF) << 2 == d) by (bit_vector)
        requires
            d & 3 == 0 && (d < 0x8000000 || d >= 0xFFFFFFFFF8000000),
    ;
    assert(p + d == s_plus_a || p + d == s_plus_a + 0x10000000000000000);
    if p + d < 0x10000000000000000 {
        assert((p + d) % 0x10000000000000000 == p + d) by (nonlinear_arith)
            requires
                0 <= p + d < 0x10000000000000000,
        ;
    } else {
        assert((p + d) % 0x10000000000000000 == p + d - 0x10000000000000000) by (nonlinear_arith)
            requires
                0x10000000000000000 <= p + d < 0x20000000000000000,
        ;
    }
}

/// Total size of the non-code `SHT_NOBITS` sections among the first `k`.
pub open spec fn spec_nobits_size_upto(outs: Seq<OutputSection>, k: int) -> int
    decreases k,
{
    if k <= 0 {
        0
    } else {
        spec_nobits_size_upto(outs, k - 1) + (if 0 <= k - 1 < outs.len() && !spec_is_code(
            outs,
            k - 1,
        ) && outs[k - 1].header.sh_type == SHT_NOBITS {
            outs[k - 1].header.size as int
        } else {
            0
        })
    }
}

/// The data segment's memory size splits into its file size plus the
/// `SHT_NOBITS` total.
proof fn lemma_data_sizes_split(outs: Seq<OutputSection>, k: int)
    requires
        0 <= k,
    ensures
        spec_data_memsz_upto(outs, k) == spec_data_filesz_upto(outs, k) + spec_nobits_size_upto(
            outs,
            k,
        ),
        spec_nobits_size_upto(outs, k) >= 0,
    decreases k,
{
    if k > 0 {
        lemma_data_sizes_split(outs, k - 1);
    }
}

/// Law: the code segment occupies the same bytes in the file as in memory,
/// and the data segment's memory size exceeds its file size by exactly the
/// total size of the `SHT_NOBITS` output sections, whose bytes the image
/// therefore omits.
pub proof fn lemma_segment_sizes(outs: Seq<OutputSection>)
    requires
        spec_data_memsz_upto(outs, outs.len() as int) <= u64::MAX,
    ensures
        spec_code_phdr(outs).filesz == spec_code_phdr(outs).memsz,
        spec_data_phdr(outs).memsz as int == spec_data_phdr(outs).filesz
            + spec_nobits_size_upto(outs, outs.len() as int),
{
    lemma_data_sizes_split(outs, outs.len() as int);
    lemma_data_filesz_upto_le(outs, 0, outs.len() as int);
    lemma_data_memsz_upto_le(outs, 0, outs.len() as int);
    assert(spec_nobits_size_upto(outs, 0) == 0);
}

/// Law: the emitted image begins with the fixed ELF identification bytes,
/// and the eight bytes at offset 24 are the little-endian entry point.
pub proof fn lemma_image_prefix(
    h: ElfHeader,
    cp: ProgramHeader,
    dp: ProgramHeader,
    outs: Seq<OutputSection>,
)
    ensures
        spec_image(h, cp, dp, outs).len() >= 176,
        spec_image(h, cp, dp, outs)[0] == 0x7fu8,
        spec_image(h, cp, dp, outs)[1] == 0x45u8,
        spec_image(h, cp, dp, outs)[2] == 0x4cu8,
        spec_image(h, cp, dp, outs)[3] == 0x46u8,
        vstd::bytes::spec_u64_from_le_bytes(spec_image(h, cp, dp, outs).subrange(24, 32))
            == h.e_entry,
{
    vstd::bytes::lemma_auto_spec_u16_to_from_le_bytes();
    vstd::bytes::lemma_auto_spec_u32_to_from_le_bytes();
    vstd::bytes::lemma_auto_spec_u64_to_from_le_bytes();
    let hb = spec_elf_header_bytes(h);
    assert(hb.len() == 64);
    let img = spec_image(h, cp, dp, outs);
    assert(forall|i: int| 0 <= i < 64 ==> img[i] == hb[i]);
    assert(img.subrange(24, 32) =~= hb.subrange(24, 32));
    assert(hb.subrange(24, 32) =~= vstd::bytes::spec_u64_to_le_bytes(h.e_entry));
}

/// Law: after a PREL32 patch with symbol-plus-addend `s_plus_a` at the
/// place `p`, the four patched bytes decode, little-endian, to
/// `S + A - P` modulo `2^32`.
pub proof fn lemma_prel32_patch_decodes(data: Seq<u8>, pos: int, s_plus_a: u64, p: u64)
    requires
        0 <= pos,
        pos + 4 <= data.len(),
    ensures
        vstd::bytes::spec_u32_from_le_bytes(
            spec_store(
                data,
                pos,
                vstd::bytes::spec_u32_to_le_bytes(spec_sub_wrap(s_plus_a, p) as u32),
            ).subrange(pos, pos + 4),
        ) == spec_sub_wrap(s_plus_a, p) as u32,
{
    vstd::bytes::lemma_auto_spec_u32_to_from_le_bytes();
    let v = spec_sub_wrap(s_plus_a, p) as u32;
    assert(spec_store(data, pos, vstd::bytes::spec_u32_to_le_bytes(v)).subrange(pos, pos + 4)
        =~= vstd::bytes::spec_u32_to_le_bytes(v));
}

} // verus!
