use elkr::linker::LinkerContext;
use elkr::LinkError;

struct SecDef {
    name: &'static str,
    sh_type: u32,
    flags: u64,
    addralign: u64,
    data: Vec<u8>,
    nobits_size: u64,
}

struct SymDef {
    name: &'static str,
    info: u8,
    shndx: u16,
    value: u64,
}

struct RelaSec {
    target: u32,
    entries: Vec<(u64, u32, u32, i64)>,
}

fn put16(v: &mut Vec<u8>, x: u16) {
    v.extend_from_slice(&x.to_le_bytes());
}

fn put32(v: &mut Vec<u8>, x: u32) {
    v.extend_from_slice(&x.to_le_bytes());
}

fn put64(v: &mut Vec<u8>, x: u64) {
    v.extend_from_slice(&x.to_le_bytes());
}

fn puti64(v: &mut Vec<u8>, x: i64) {
    v.extend_from_slice(&x.to_le_bytes());
}

/// Assemble a minimal ELF64 little-endian AArch64 relocatable object.
/// Section table: NULL, the content sections, the RELA sections, then
/// `.symtab`, `.strtab`, `.shstrtab`.
fn build_object(secs: &[SecDef], syms: &[SymDef], relas: &[RelaSec]) -> Vec<u8> {
    build_object_with_machine(secs, syms, relas, 183)
}

fn build_object_with_machine(
    secs: &[SecDef],
    syms: &[SymDef],
    relas: &[RelaSec],
    machine: u16,
) -> Vec<u8> {
    let n = secs.len();
    let r = relas.len();
    let symtab_idx = (1 + n + r) as u32;
    let strtab_idx = symtab_idx + 1;
    let shstrtab_idx = strtab_idx + 1;
    let shnum = (shstrtab_idx + 1) as u16;

    // String tables.
    let mut shstrtab: Vec<u8> = vec![0];
    let mut sec_name_offs: Vec<u32> = vec![0];
    for s in secs {
        sec_name_offs.push(shstrtab.len() as u32);
        shstrtab.extend_from_slice(s.name.as_bytes());
        shstrtab.push(0);
    }
    let mut rela_name_offs: Vec<u32> = Vec::new();
    for rs in relas {
        rela_name_offs.push(shstrtab.len() as u32);
        shstrtab.extend_from_slice(b".rela");
        shstrtab.extend_from_slice(secs[(rs.target - 1) as usize].name.as_bytes());
        shstrtab.push(0);
    }
    let symtab_name_off = shstrtab.len() as u32;
    shstrtab.extend_from_slice(b".symtab\0");
    let strtab_name_off = shstrtab.len() as u32;
    shstrtab.extend_from_slice(b".strtab\0");
    let shstrtab_name_off = shstrtab.len() as u32;
    shstrtab.extend_from_slice(b".shstrtab\0");

    let mut strtab: Vec<u8> = vec![0];
    let mut sym_name_offs: Vec<u32> = Vec::new();
    for s in syms {
        sym_name_offs.push(strtab.len() as u32);
        strtab.extend_from_slice(s.name.as_bytes());
        strtab.push(0);
    }

    let mut symtab: Vec<u8> = Vec::new();
    for (k, s) in syms.iter().enumerate() {
        put32(&mut symtab, sym_name_offs[k]);
        symtab.push(s.info);
        symtab.push(0);
        put16(&mut symtab, s.shndx);
        put64(&mut symtab, s.value);
        put64(&mut symtab, 0);
    }

    let mut rela_datas: Vec<Vec<u8>> = Vec::new();
    for rs in relas {
        let mut d: Vec<u8> = Vec::new();
        for &(off, sym, rtype, addend) in &rs.entries {
            put64(&mut d, off);
            put64(&mut d, ((sym as u64) << 32) | rtype as u64);
            puti64(&mut d, addend);
        }
        rela_datas.push(d);
    }

    // Place section contents after the 64-byte header.
    let mut body: Vec<u8> = Vec::new();
    let base = 64u64;
    let mut sec_offs: Vec<u64> = Vec::new();
    let mut sec_sizes: Vec<u64> = Vec::new();
    for s in secs {
        sec_offs.push(base + body.len() as u64);
        if s.sh_type == 8 {
            sec_sizes.push(s.nobits_size);
        } else {
            sec_sizes.push(s.data.len() as u64);
            body.extend_from_slice(&s.data);
        }
    }
    let mut rela_offs: Vec<u64> = Vec::new();
    for d in &rela_datas {
        rela_offs.push(base + body.len() as u64);
        body.extend_from_slice(d);
    }
    let symtab_off = base + body.len() as u64;
    body.extend_from_slice(&symtab);
    let strtab_off = base + body.len() as u64;
    body.extend_from_slice(&strtab);
    let shstrtab_off = base + body.len() as u64;
    body.extend_from_slice(&shstrtab);
    let e_shoff = base + body.len() as u64;

    // Section header table.
    let mut sht: Vec<u8> = Vec::new();
    let mut put_sh = |t: &mut Vec<u8>,
                      name_off: u32,
                      sh_type: u32,
                      flags: u64,
                      off: u64,
                      size: u64,
                      link: u32,
                      info: u32,
                      align: u64,
                      entsize: u64| {
        put32(t, name_off);
        put32(t, sh_type);
        put64(t, flags);
        put64(t, 0);
        put64(t, off);
        put64(t, size);
        put32(t, link);
        put32(t, info);
        put64(t, align);
        put64(t, entsize);
    };
    put_sh(&mut sht, 0, 0, 0, 0, 0, 0, 0, 0, 0);
    for (k, s) in secs.iter().enumerate() {
        put_sh(
            &mut sht,
            sec_name_offs[k + 1],
            s.sh_type,
            s.flags,
            sec_offs[k],
            sec_sizes[k],
            0,
            0,
            s.addralign,
            0,
        );
    }
    for (k, rs) in relas.iter().enumerate() {
        put_sh(
            &mut sht,
            rela_name_offs[k],
            4,
            0,
            rela_offs[k],
            rela_datas[k].len() as u64,
            symtab_idx,
            rs.target,
            8,
            24,
        );
    }
    put_sh(
        &mut sht,
        symtab_name_off,
        2,
        0,
        symtab_off,
        symtab.len() as u64,
        strtab_idx,
        0,
        8,
        24,
    );
    put_sh(&mut sht, strtab_name_off, 3, 0, strtab_off, strtab.len() as u64, 0, 0, 1, 0);
    put_sh(
        &mut sht,
        shstrtab_name_off,
        3,
        0,
        shstrtab_off,
        shstrtab.len() as u64,
        0,
        0,
        1,
        0,
    );

    // ELF header.
    let mut out: Vec<u8> = Vec::new();
    out.extend_from_slice(&[0x7f, b'E', b'L', b'F', 2, 1, 1, 0, 0, 0, 0, 0, 0, 0, 0, 0]);
    put16(&mut out, 1); // ET_REL
    put16(&mut out, machine);
    put32(&mut out, 1);
    put64(&mut out, 0); // e_entry
    put64(&mut out, 0); // e_phoff
    put64(&mut out, e_shoff);
    put32(&mut out, 0);
    put16(&mut out, 64);
    put16(&mut out, 0);
    put16(&mut out, 0);
    put16(&mut out, 64);
    put16(&mut out, shnum);
    put16(&mut out, shstrtab_idx as u16);
    out.extend_from_slice(&body);
    out.extend_from_slice(&sht);
    out
}

fn text_sec(data: Vec<u8>) -> SecDef {
    SecDef { name: ".text", sh_type: 1, flags: 0x6, addralign: 4, data, nobits_size: 0 }
}

fn rd64(b: &[u8], off: usize) -> u64 {
    u64::from_le_bytes(b[off..off + 8].try_into().unwrap())
}

fn rd32(b: &[u8], off: usize) -> u32 {
    u32::from_le_bytes(b[off..off + 4].try_into().unwrap())
}

fn run_link(objects: &[Vec<u8>]) -> (LinkerContext, Vec<u8>) {
    let mut ctx = LinkerContext::default();
    for (i, o) in objects.iter().enumerate() {
        ctx.add_file(format!("input{}.o", i), o).expect("add_file failed");
    }
    ctx.layout_and_merge_sections().expect("layout failed");
    ctx.resolve_symbols();
    ctx.apply_relocations().expect("relocation failed");
    let img = ctx.write_executable().expect("emit failed");
    (ctx, img)
}

#[test]
fn single_input_entry_point() {
    // One input defining `_start` in `.text` at value 0, no relocations.
    let obj = build_object(
        &[text_sec(vec![0u8; 8])],
        &[SymDef { name: "_start", info: 0x12, shndx: 1, value: 0 }],
        &[],
    );
    let (_ctx, img) = run_link(&[obj]);
    // .text lands at 0x400000 + 176, already 4-aligned.
    assert_eq!(rd64(&img, 24), 0x400000 + 176);
    assert_eq!(&img[0..4], &[0x7f, b'E', b'L', b'F']);
}

#[test]
fn two_inputs_merge_text() {
    // Both contribute to `.text`; file 1 defines `_start` at 0, file 2
    // defines `helper` at 0 of its own `.text`.
    let obj1 = build_object(
        &[text_sec(vec![1u8; 8])],
        &[SymDef { name: "_start", info: 0x12, shndx: 1, value: 0 }],
        &[],
    );
    let obj2 = build_object(
        &[text_sec(vec![2u8; 4])],
        &[SymDef { name: "helper", info: 0x12, shndx: 1, value: 0 }],
        &[],
    );
    let (ctx, _img) = run_link(&[obj1, obj2]);
    let si = ctx.find_global_symbol(&b"_start".to_vec()).expect("_start missing");
    let hi = ctx.find_global_symbol(&b"helper".to_vec()).expect("helper missing");
    let sa = ctx.global_symbols[si].final_addr;
    let ha = ctx.global_symbols[hi].final_addr;
    assert!(sa < ha);
    assert_eq!(ha - sa, 8);
}

#[test]
fn call26_patch() {
    // A CALL26 from `.text+0x4` to `helper` at `.text+0x40`, addend 0:
    // displacement 0x3C, so the low 26 bits become 0xF.
    let mut text = vec![0u8; 0x44];
    // A BL opcode word at offset 4 so the masked top bits are visible.
    text[4..8].copy_from_slice(&0x94000000u32.to_le_bytes());
    let obj = build_object(
        &[text_sec(text)],
        &[
            SymDef { name: "_start", info: 0x12, shndx: 1, value: 0 },
            SymDef { name: "helper", info: 0x12, shndx: 1, value: 0x40 },
        ],
        &[RelaSec { target: 1, entries: vec![(0x4, 1, 283, 0)] }],
    );
    let (ctx, _img) = run_link(&[obj]);
    let word = rd32(&ctx.output_sections[0].data, 4);
    assert_eq!(word & 0x03FFFFFF, 0xF);
    assert_eq!(word & 0xFC000000, 0x94000000);
}

#[test]
fn prel32_patch() {
    // A PREL32 at `.text+0x10` to a symbol at `.data+0x0`.
    let text = vec![0u8; 0x20];
    let data = SecDef {
        name: ".data",
        sh_type: 1,
        flags: 0x3,
        addralign: 8,
        data: vec![9u8; 8],
        nobits_size: 0,
    };
    let obj = build_object(
        &[text_sec(text), data],
        &[
            SymDef { name: "_start", info: 0x12, shndx: 1, value: 0 },
            SymDef { name: "var", info: 0x11, shndx: 2, value: 0 },
        ],
        &[RelaSec { target: 1, entries: vec![(0x10, 1, 261, 0)] }],
    );
    let (ctx, _img) = run_link(&[obj]);
    let text_addr = ctx.output_sections[0].header.addr;
    let data_addr = ctx.output_sections[1].header.addr;
    assert_eq!(&ctx.output_sections[0].name, b".text");
    assert_eq!(&ctx.output_sections[1].name, b".data");
    let got = rd32(&ctx.output_sections[0].data, 0x10);
    let expected = (data_addr.wrapping_sub(text_addr + 0x10)) as u32;
    assert_eq!(got, expected);
}

#[test]
fn no_entry_point() {
    // Neither `_start` nor `main` defined.
    let obj = build_object(
        &[text_sec(vec![0u8; 8])],
        &[SymDef { name: "foo", info: 0x12, shndx: 1, value: 0 }],
        &[],
    );
    let mut ctx = LinkerContext::default();
    ctx.add_file("input.o".to_string(), &obj).unwrap();
    ctx.layout_and_merge_sections().unwrap();
    ctx.resolve_symbols();
    ctx.apply_relocations().unwrap();
    assert_eq!(ctx.write_executable().unwrap_err(), LinkError::NoEntryPoint);
}

#[test]
fn bss_counts_in_memsz_not_filesz() {
    // A `.bss` of size 0x100: the code segment has filesz == memsz, the
    // data segment has memsz - filesz == 0x100, and the zeros are not in
    // the file.
    let bss = SecDef {
        name: ".bss",
        sh_type: 8,
        flags: 0x3,
        addralign: 8,
        data: Vec::new(),
        nobits_size: 0x100,
    };
    let obj = build_object(
        &[text_sec(vec![0u8; 8]), bss],
        &[SymDef { name: "_start", info: 0x12, shndx: 1, value: 0 }],
        &[],
    );
    let (_ctx, img) = run_link(&[obj]);
    // Code program header at byte 64, data program header at byte 120;
    // within each: filesz at +32, memsz at +40, offset at +8.
    let code_filesz = rd64(&img, 64 + 32);
    let code_memsz = rd64(&img, 64 + 40);
    let data_offset = rd64(&img, 120 + 8);
    let data_filesz = rd64(&img, 120 + 32);
    let data_memsz = rd64(&img, 120 + 40);
    assert_eq!(code_filesz, code_memsz);
    assert_eq!(code_filesz, 176 + 8);
    assert_eq!(data_memsz - data_filesz, 0x100);
    assert_eq!(data_filesz, 0);
    assert_eq!(img.len() as u64, data_offset + data_filesz);
}

#[test]
fn unsupported_target_rejected() {
    let obj = build_object_with_machine(
        &[text_sec(vec![0u8; 8])],
        &[SymDef { name: "_start", info: 0x12, shndx: 1, value: 0 }],
        &[],
        62,
    );
    let mut ctx = LinkerContext::default();
    assert_eq!(
        ctx.add_file("input.o".to_string(), &obj).unwrap_err(),
        LinkError::UnsupportedTarget
    );
}

#[test]
fn rel_named_section_rejected() {
    // An allocatable PROGBITS section whose name starts with `.rel` must
    // abort layout.
    let weird = SecDef {
        name: ".relx",
        sh_type: 1,
        flags: 0x2,
        addralign: 1,
        data: vec![1u8; 4],
        nobits_size: 0,
    };
    let obj = build_object(
        &[weird],
        &[SymDef { name: "_start", info: 0x12, shndx: 1, value: 0 }],
        &[],
    );
    let mut ctx = LinkerContext::default();
    ctx.add_file("input.o".to_string(), &obj).unwrap();
    assert_eq!(
        ctx.layout_and_merge_sections().unwrap_err(),
        LinkError::ConsistencyViolation
    );
}

#[test]
fn alignment_pads_section_addresses() {
    // `.data` with addralign 0x10 is rounded up; `.text` with align 1
    // receives no padding.
    let t = SecDef {
        name: ".text",
        sh_type: 1,
        flags: 0x6,
        addralign: 1,
        data: vec![0u8; 5],
        nobits_size: 0,
    };
    let d = SecDef {
        name: ".data",
        sh_type: 1,
        flags: 0x3,
        addralign: 0x10,
        data: vec![7u8; 4],
        nobits_size: 0,
    };
    let obj = build_object(
        &[t, d],
        &[SymDef { name: "_start", info: 0x12, shndx: 1, value: 0 }],
        &[],
    );
    let (ctx, _img) = run_link(&[obj]);
    let ta = ctx.output_sections[0].header.addr;
    let da = ctx.output_sections[1].header.addr;
    assert_eq!(ta, 0x400000 + 176);
    assert_eq!(da, (ta + 5).div_ceil(0x10) * 0x10);
    assert_eq!(da % 0x10, 0);
}

#[test]
fn abs64_patch() {
    // An ABS64 stores S + A as eight little-endian bytes.
    let text = vec![0u8; 0x18];
    let obj = build_object(
        &[text_sec(text)],
        &[
            SymDef { name: "_start", info: 0x12, shndx: 1, value: 0 },
            SymDef { name: "helper", info: 0x12, shndx: 1, value: 0x8 },
        ],
        &[RelaSec { target: 1, entries: vec![(0x10, 1, 257, 5)] }],
    );
    let (ctx, _img) = run_link(&[obj]);
    let text_addr = ctx.output_sections[0].header.addr;
    let got = rd64(&ctx.output_sections[0].data, 0x10);
    assert_eq!(got, text_addr + 0x8 + 5);
}

#[test]
fn missing_symbol_relocation_skipped() {
    // A relocation against an undefined global is skipped: the bytes stay.
    let mut text = vec![0u8; 0x10];
    text[4..8].copy_from_slice(&0xDEADBEEFu32.to_le_bytes());
    let obj = build_object(
        &[text_sec(text)],
        &[
            SymDef { name: "_start", info: 0x12, shndx: 1, value: 0 },
            SymDef { name: "ghost_fn", info: 0x10, shndx: 0, value: 0 },
        ],
        &[RelaSec { target: 1, entries: vec![(0x4, 1, 283, 0)] }],
    );
    let (ctx, _img) = run_link(&[obj]);
    assert_eq!(rd32(&ctx.output_sections[0].data, 4), 0xDEADBEEF);
}

#[test]
fn image_layout_headers() {
    // The image starts with the fixed e_ident, ET_EXEC, machine AArch64,
    // e_phoff 64, two 56-byte program headers, no section headers.
    let obj = build_object(
        &[text_sec(vec![0u8; 8])],
        &[SymDef { name: "_start", info: 0x12, shndx: 1, value: 0 }],
        &[],
    );
    let (_ctx, img) = run_link(&[obj]);
    assert_eq!(
        &img[0..16],
        &[0x7f, 0x45, 0x4c, 0x46, 2, 1, 1, 0, 0, 0, 0, 0, 0, 0, 0, 0]
    );
    assert_eq!(u16::from_le_bytes(img[16..18].try_into().unwrap()), 2); // ET_EXEC
    assert_eq!(u16::from_le_bytes(img[18..20].try_into().unwrap()), 183);
    assert_eq!(rd64(&img, 32), 64); // e_phoff
    assert_eq!(u16::from_le_bytes(img[56..58].try_into().unwrap()), 2); // e_phnum
    assert_eq!(u16::from_le_bytes(img[54..56].try_into().unwrap()), 56); // e_phentsize
    assert_eq!(rd64(&img, 40), 0); // e_shoff
    assert_eq!(rd32(&img, 64), 1); // PT_LOAD
    assert_eq!(rd32(&img, 64 + 4), 5); // code: R+X
    assert_eq!(rd32(&img, 120), 1); // PT_LOAD
    assert_eq!(rd32(&img, 120 + 4), 6); // data: R+W
    assert_eq!(rd64(&img, 64 + 48), 0x1000); // align
    // The code bytes sit right after the 176 header bytes.
    assert_eq!(&img[176..184], &[0u8; 8]);
}

#[test]
fn first_definition_wins() {
    // Both files define GLOBAL `dup`; the first file's definition decides
    // the resolved address, the second is silently ignored.
    let obj1 = build_object(
        &[text_sec(vec![1u8; 0x10])],
        &[
            SymDef { name: "_start", info: 0x12, shndx: 1, value: 0 },
            SymDef { name: "dup", info: 0x12, shndx: 1, value: 0x4 },
        ],
        &[],
    );
    let obj2 = build_object(
        &[text_sec(vec![2u8; 8])],
        &[SymDef { name: "dup", info: 0x12, shndx: 1, value: 0x8 }],
        &[],
    );
    let (ctx, _img) = run_link(&[obj1.clone(), obj2]);
    let di = ctx.find_global_symbol(&b"dup".to_vec()).expect("dup missing");
    let text_addr = ctx.output_sections[0].header.addr;
    // File 1's `.text` lands first, so `dup` is its base plus value 0x4.
    assert_eq!(ctx.global_symbols[di].final_addr, text_addr + 0x4);
}
