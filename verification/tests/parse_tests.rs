use elkr::elf::header::{parse_elf_header, serialize_elf_header, ElfHeader};
use elkr::elf::lookup_name;
use elkr::elf::relocation::{parse_rela_table, Rela};
use elkr::elf::section::{parse_section_header_table, SectionHeader};
use elkr::elf::symbol::{parse_symbol_table, Symbol};
use elkr::linker::align_up;
use elkr::LinkError;

fn sample_header() -> ElfHeader {
    ElfHeader {
        class: 2,
        data: 1,
        version: 1,
        os_abi: 3,
        abi_version: 7,
        e_type: 1,
        e_machine: 183,
        e_version: 1,
        e_entry: 0x400123,
        e_phoff: 64,
        e_shoff: 0x1234,
        e_flags: 0x55,
        e_ehsize: 64,
        e_phentsize: 56,
        e_phnum: 2,
        e_shentsize: 64,
        e_shnum: 9,
        e_shstrndx: 8,
    }
}

#[test]
fn header_round_trip() {
    // Serialising a header with the documented widths and re-parsing it
    // yields the original.
    let h = sample_header();
    let bytes = serialize_elf_header(&h);
    assert_eq!(bytes.len(), 64);
    let parsed = parse_elf_header(&bytes).expect("round trip parse failed");
    assert_eq!(parsed, h);
}

#[test]
fn header_field_decoding() {
    let h = sample_header();
    let bytes = serialize_elf_header(&h);
    // Spot-check the documented little-endian field offsets.
    assert_eq!(u16::from_le_bytes(bytes[18..20].try_into().unwrap()), 183);
    assert_eq!(u64::from_le_bytes(bytes[24..32].try_into().unwrap()), 0x400123);
    assert_eq!(u16::from_le_bytes(bytes[60..62].try_into().unwrap()), 9);
}

#[test]
fn header_bad_magic() {
    let mut bytes = serialize_elf_header(&sample_header());
    bytes[0] = 0x7e;
    assert_eq!(parse_elf_header(&bytes).unwrap_err(), LinkError::BadMagic);
}

#[test]
fn header_short_input() {
    let bytes = serialize_elf_header(&sample_header());
    assert_eq!(parse_elf_header(&bytes[..32]).unwrap_err(), LinkError::ShortInput);
    assert_eq!(parse_elf_header(&bytes[..2]).unwrap_err(), LinkError::ShortInput);
}

#[test]
fn section_table_count_matches_header() {
    // e_shnum section headers are read from e_shoff; the count invariant.
    let mut file = vec![0u8; 64];
    let mut h = sample_header();
    h.e_shoff = 64;
    h.e_shnum = 2;
    let mut sh0 = vec![0u8; 64];
    sh0[0..4].copy_from_slice(&7u32.to_le_bytes()); // name_offset
    sh0[4..8].copy_from_slice(&1u32.to_le_bytes()); // sh_type
    sh0[32..40].copy_from_slice(&0x30u64.to_le_bytes()); // size
    let sh1 = vec![0xAAu8; 64];
    file.extend_from_slice(&sh0);
    file.extend_from_slice(&sh1);
    let table = parse_section_header_table(&file, &h).expect("parse failed");
    assert_eq!(table.len(), h.e_shnum as usize);
    assert_eq!(table[0].name_offset, 7);
    assert_eq!(table[0].sh_type, 1);
    assert_eq!(table[0].size, 0x30);
    assert_eq!(table[1].flags, 0xAAAAAAAAAAAAAAAA);
}

#[test]
fn section_table_out_of_bounds() {
    let mut h = sample_header();
    h.e_shoff = 1000;
    h.e_shnum = 2;
    let file = vec![0u8; 64];
    assert_eq!(
        parse_section_header_table(&file, &h).unwrap_err(),
        LinkError::Malformed
    );
}

#[test]
fn symbol_table_parse_and_checks() {
    // Two 24-byte records; entsize 0 and a non-divisible size are rejected.
    let mut file = vec![0u8; 100];
    let mut rec = Vec::new();
    rec.extend_from_slice(&5u32.to_le_bytes());
    rec.push(0x12);
    rec.push(0);
    rec.extend_from_slice(&1u16.to_le_bytes());
    rec.extend_from_slice(&0x40u64.to_le_bytes());
    rec.extend_from_slice(&0u64.to_le_bytes());
    file.extend_from_slice(&rec);
    file.extend_from_slice(&[0u8; 24]);
    let sh = SectionHeader {
        name_offset: 0,
        sh_type: 2,
        flags: 0,
        addr: 0,
        offset: 100,
        size: 48,
        link: 0,
        info: 0,
        addralign: 8,
        entsize: 24,
    };
    let syms = parse_symbol_table(&file, &sh).expect("parse failed");
    assert_eq!(syms.len(), 2);
    assert_eq!(syms[0].name_offset, 5);
    assert_eq!(syms[0].info, 0x12);
    assert_eq!(syms[0].get_bind(), 1);
    assert_eq!(syms[0].get_type(), 2);
    assert_eq!(syms[0].shndx, 1);
    assert_eq!(syms[0].value, 0x40);

    let bad_entsize = SectionHeader { entsize: 0, ..sh };
    assert_eq!(parse_symbol_table(&file, &bad_entsize).unwrap_err(), LinkError::Malformed);
    let bad_size = SectionHeader { size: 47, ..sh };
    assert_eq!(parse_symbol_table(&file, &bad_size).unwrap_err(), LinkError::Malformed);
}

#[test]
fn rela_table_parse_and_fields() {
    let mut file = vec![0u8; 64];
    let mut rec = Vec::new();
    rec.extend_from_slice(&0x10u64.to_le_bytes());
    rec.extend_from_slice(&(((3u64) << 32) | 283).to_le_bytes());
    rec.extend_from_slice(&(-8i64).to_le_bytes());
    file.extend_from_slice(&rec);
    let sh = SectionHeader {
        name_offset: 0,
        sh_type: 4,
        flags: 0,
        addr: 0,
        offset: 64,
        size: 24,
        link: 0,
        info: 1,
        addralign: 8,
        entsize: 24,
    };
    let relas = parse_rela_table(&file, &sh).expect("parse failed");
    assert_eq!(relas.len(), 1);
    assert_eq!(relas[0].offset, 0x10);
    assert_eq!(relas[0].get_symbol_index(), 3);
    assert_eq!(relas[0].get_type(), 283);
    assert_eq!(relas[0].addend, -8);
}

#[test]
fn rela_accessors() {
    let r = Rela { offset: 0, info: (0xABCDu64 << 32) | 261, addend: 9 };
    assert_eq!(r.get_symbol_index(), 0xABCD);
    assert_eq!(r.get_type(), 261);
}

#[test]
fn symbol_accessors() {
    let s = Symbol { name_offset: 0, info: 0x21, other: 0, shndx: 0, value: 0, size: 0 };
    assert_eq!(s.get_bind(), 2);
    assert_eq!(s.get_type(), 1);
}

#[test]
fn name_lookup() {
    let tab = b"\0.text\0.data\0".to_vec();
    assert_eq!(lookup_name(&tab, 1).unwrap(), b".text".to_vec());
    assert_eq!(lookup_name(&tab, 7).unwrap(), b".data".to_vec());
    assert_eq!(lookup_name(&tab, 0).unwrap(), Vec::<u8>::new());
    // Offset past the table end.
    assert!(lookup_name(&tab, 13).is_none());
    assert!(lookup_name(&tab, 100).is_none());
    // No terminator before the table ends.
    let unterminated = b"abc".to_vec();
    assert!(lookup_name(&unterminated, 0).is_none());
}

#[test]
fn align_up_values() {
    assert_eq!(align_up(0, 0x1000), 0);
    assert_eq!(align_up(1, 0x1000), 0x1000);
    assert_eq!(align_up(0x1000, 0x1000), 0x1000);
    assert_eq!(align_up(0x401234, 0x1000), 0x402000);
    assert_eq!(align_up(7, 1), 7);
    assert_eq!(align_up(5, 4), 8);
}
