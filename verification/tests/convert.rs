use cargo_wiiu::elf::{
    Class, Data, Eabi, Header, Machine, Magic, Rela, SectionFlags, SectionHeader, SectionType,
};
use cargo_wiiu::rpl::{from_elf, ElfFile, RplError, Section, SectionData, DISCARDED};

/// One section of a test input: name, type, flags, address, contents,
/// link, info and alignment.
struct Spec {
    name: &'static str,
    ty: u32,
    flags: u32,
    addr: u32,
    data: Vec<u8>,
    link: u32,
    info: u32,
    align: u32,
}

fn spec(name: &'static str, ty: u32, flags: u32, addr: u32, data: Vec<u8>) -> Spec {
    Spec { name, ty, flags, addr, data, link: 0, info: 0, align: 4 }
}

fn header(shnum: u16, shstrndx: u16) -> Header {
    Header {
        magic: Magic(0x7f454c46),
        file_class: Class(1),
        encoding: Data(2),
        elf_version: 1,
        abi: Eabi(0),
        pad: [0; 7],
        ty: 2,
        machine: Machine(0x14),
        version: 1,
        entry: 0x0200_0000,
        phoff: 0,
        shoff: 0x40,
        flags: 0,
        ehsize: 0x34,
        phentsize: 0,
        phnum: 0,
        shentsize: 0x28,
        shnum,
        shstrndx,
    }
}

/// An ELF file with a null section, the given sections and a section name
/// string table at the end.
fn build(sections: Vec<Spec>) -> Vec<u8> {
    let mut all = vec![spec("", 0, 0, 0, Vec::new())];
    all.extend(sections);
    let mut names = vec![0u8];
    let mut name_offsets = Vec::new();
    for s in &all {
        if s.name.is_empty() {
            name_offsets.push(0u32);
        } else {
            name_offsets.push(names.len() as u32);
            names.extend_from_slice(s.name.as_bytes());
            names.push(0);
        }
    }
    let strtab_name = names.len() as u32;
    names.extend_from_slice(b".shstrtab\0");
    let shnum = all.len() + 1;
    let mut out = Vec::new();
    header(shnum as u16, (shnum - 1) as u16).write_to(&mut out);
    out.resize(0x40, 0);
    let mut data_offset = 0x40 + 0x28 * shnum as u32;
    let mut bodies = Vec::new();
    for (s, name) in all.iter().zip(name_offsets.iter()) {
        let offset = if s.data.is_empty() { 0 } else { data_offset };
        SectionHeader {
            name: *name,
            ty: SectionType(s.ty),
            flags: SectionFlags(s.flags),
            addr: s.addr,
            offset,
            size: s.data.len() as u32,
            link: s.link,
            info: s.info,
            addralign: s.align,
            entsize: 0,
        }
        .write_to(&mut out);
        data_offset += s.data.len() as u32;
        bodies.extend_from_slice(&s.data);
    }
    SectionHeader {
        name: strtab_name,
        ty: SectionType(3),
        flags: SectionFlags(0),
        addr: 0,
        offset: data_offset,
        size: names.len() as u32,
        link: 0,
        info: 0,
        addralign: 1,
        entsize: 0,
    }
    .write_to(&mut out);
    out.extend_from_slice(&bodies);
    out.extend_from_slice(&names);
    out
}

fn text_only() -> Vec<u8> {
    build(vec![spec(".text", 1, 0x6, 0x0200_0000, b"123456789".to_vec())])
}

fn be32_at(b: &[u8], at: usize) -> u32 {
    u32::from_be_bytes([b[at], b[at + 1], b[at + 2], b[at + 3]])
}

fn be16_at(b: &[u8], at: usize) -> u16 {
    u16::from_be_bytes([b[at], b[at + 1]])
}

#[test]
fn rpx_from_minimal_elf() {
    let out = from_elf(text_only(), false).unwrap();
    // Header: Cafe ABI, module type, section headers at 64, five sections.
    assert_eq!(&out[0..4], &[0x7f, b'E', b'L', b'F']);
    assert_eq!(be16_at(&out, 7), 0xCAFE);
    assert_eq!(be16_at(&out, 16), 0xFE01);
    assert_eq!(be32_at(&out, 32), 64);
    assert_eq!(be16_at(&out, 48), 5);
    assert_eq!(be16_at(&out, 50), 2);
    // Section headers: null, .text, .shstrtab, CRCs, file information.
    let sh = |k: usize| 64 + 40 * k;
    assert_eq!(be32_at(&out, sh(3) + 4), 0x8000_0003);
    assert_eq!(be32_at(&out, sh(4) + 4), 0x8000_0004);
    // The CRC table comes first after the headers, then the file information.
    assert_eq!(be32_at(&out, sh(3) + 16), 320);
    assert_eq!(be32_at(&out, sh(3) + 20), 20);
    assert_eq!(be32_at(&out, sh(4) + 16), 340);
    assert_eq!(be32_at(&out, sh(4) + 20), 0x60);
    // The string table is loaded above the loader base and placed next.
    assert_eq!(be32_at(&out, sh(2) + 12), 0xC000_0000);
    assert_eq!(be32_at(&out, sh(2) + 8) & 0x2, 0x2);
    assert_eq!(be32_at(&out, sh(2) + 16), 436);
    // The text comes last.
    assert_eq!(be32_at(&out, sh(1) + 16), 453);
    assert_eq!(&out[453..462], b"123456789");
    assert_eq!(out.len(), 462);
    // CRCs: none for the null section, then .text, .shstrtab, the zero slot,
    // and the file information.
    assert_eq!(be32_at(&out, 320), 0);
    assert_eq!(be32_at(&out, 324), 0xCBF4_3926);
    assert_eq!(be32_at(&out, 332), 0);
    // File information.
    assert_eq!(be32_at(&out, 340), 0xCAFE_0402);
    assert_eq!(be32_at(&out, 344), 32);
    assert_eq!(be32_at(&out, 352), 0);
    assert_eq!(be32_at(&out, 360), 32);
    assert_eq!(be32_at(&out, 368), 128);
    assert_eq!(be32_at(&out, 340 + 13 * 4), 0);
}

#[test]
fn sections_lie_apart_after_the_header_table() {
    let input = build(vec![
        spec(".text", 1, 0x6, 0x0200_0000, vec![0x60; 40]),
        spec(".data", 1, 0x3, 0x1000_0000, vec![7; 30]),
        spec(".rodata", 1, 0x2, 0x1000_0100, b"abc".to_vec()),
        spec(".comment", 1, 0, 0, b"note".to_vec()),
    ]);
    let out = from_elf(input, false).unwrap();
    let shnum = be16_at(&out, 48) as usize;
    let table_end = 64 + 40 * shnum;
    let mut ranges = Vec::new();
    for k in 0..shnum {
        let sh = 64 + 40 * k;
        let off = be32_at(&out, sh + 16) as usize;
        let size = be32_at(&out, sh + 20) as usize;
        if size > 0 {
            assert!(off >= table_end);
            assert!(off + size <= out.len());
            ranges.push((off, off + size));
        }
    }
    for (i, a) in ranges.iter().enumerate() {
        for b in ranges.iter().skip(i + 1) {
            assert!(a.1 <= b.0 || b.1 <= a.0);
        }
    }
    // The uncompressed read-only data is read back where its header says.
    let sh = 64 + 40 * 3;
    let off = be32_at(&out, sh + 16) as usize;
    assert_eq!(&out[off..off + 3], b"abc");
}

#[test]
fn rpl_is_flagged_in_file_information() {
    let out = from_elf(text_only(), true).unwrap();
    assert_eq!(be32_at(&out, 340 + 13 * 4), 2);
}

#[test]
fn large_sections_are_deflated() {
    let text = vec![0x60u8; 64];
    let out = from_elf(build(vec![spec(".text", 1, 0x6, 0x0200_0000, text.clone())]), false).unwrap();
    let sh = 64 + 40;
    assert_eq!(be32_at(&out, sh + 8) & 0x0800_0000, 0x0800_0000);
    let off = be32_at(&out, sh + 16) as usize;
    let size = be32_at(&out, sh + 20) as usize;
    assert_eq!(be32_at(&out, off), 64);
    let mut decoder = flate2::read::ZlibDecoder::new(&out[off + 4..off + size]);
    let mut back = Vec::new();
    std::io::Read::read_to_end(&mut decoder, &mut back).unwrap();
    assert_eq!(back, text);
    assert!(size < 64);
}

#[test]
fn debug_sections_are_left_out() {
    let input = build(vec![
        spec(".text", 1, 0x6, 0x0200_0000, b"123456789".to_vec()),
        spec(".debug_info", 1, 0, 0, vec![1, 2, 3]),
    ]);
    let out = from_elf(input, false).unwrap();
    // null, .text, .shstrtab, CRCs, file information: the debug section is gone.
    assert_eq!(be16_at(&out, 48), 5);
    assert_eq!(be16_at(&out, 50), 2);
}

#[test]
fn rel32_relocations_are_split() {
    let mut rels = Vec::new();
    Rela { offset: 0x0200_0000, info: (1 << 8) | 0x1a, addend: 8 }.write_to(&mut rels);
    let mut rela = spec(".rela.text", 4, 0, 0, rels);
    rela.info = 1;
    let input = build(vec![spec(".text", 1, 0x6, 0x0200_0000, b"123456789".to_vec()), rela]);
    let out = from_elf(input, false).unwrap();
    let sh = 64 + 40 * 2;
    assert_eq!(be32_at(&out, sh + 4), 4);
    // Two records of twelve bytes are long enough to be stored compressed.
    assert_eq!(be32_at(&out, sh + 8), 0x0800_0000);
    let off = be32_at(&out, sh + 16) as usize;
    let size = be32_at(&out, sh + 20) as usize;
    assert_eq!(be32_at(&out, off), 24);
    let mut decoder = flate2::read::ZlibDecoder::new(&out[off + 4..off + size]);
    let mut recs = Vec::new();
    std::io::Read::read_to_end(&mut decoder, &mut recs).unwrap();
    assert_eq!(recs.len(), 24);
    assert_eq!(Rela::parse(&recs, 0), Some(Rela { offset: 0x0200_0000, info: (1 << 8) | 0xfc, addend: 8 }));
    assert_eq!(Rela::parse(&recs, 12), Some(Rela { offset: 0x0200_0002, info: (1 << 8) | 0xfc, addend: 10 }));
}

#[test]
fn empty_input_is_truncated() {
    assert_eq!(from_elf(Vec::new(), false), Err(RplError::TruncatedHeader));
}

#[test]
fn header_checks_in_order() {
    let mut bad = text_only();
    bad[0] = 0;
    assert_eq!(from_elf(bad, false), Err(RplError::InvalidMagic));
    let mut bad = text_only();
    bad[4] = 2;
    assert_eq!(from_elf(bad, false), Err(RplError::InvalidClass));
    let mut bad = text_only();
    bad[5] = 1;
    assert_eq!(from_elf(bad, false), Err(RplError::InvalidEncoding));
    let mut bad = text_only();
    bad[19] = 3;
    assert_eq!(from_elf(bad, false), Err(RplError::InvalidMachine));
    let mut bad = text_only();
    bad[6] = 0;
    assert_eq!(from_elf(bad, false), Err(RplError::InvalidIdentVersion));
    let mut bad = text_only();
    bad[23] = 2;
    assert_eq!(from_elf(bad, false), Err(RplError::InvalidVersion));
}

#[test]
fn missing_section_headers() {
    let mut bad = text_only();
    bad[49] = 200;
    assert_eq!(from_elf(bad, false), Err(RplError::TruncatedSectionHeader));
}

#[test]
fn section_contents_past_end() {
    let mut bad = text_only();
    let sh = 64 + 40;
    bad[sh + 20..sh + 24].copy_from_slice(&0x1000u32.to_be_bytes());
    assert_eq!(from_elf(bad, false), Err(RplError::SectionOutOfBounds));
}

#[test]
fn string_table_index_out_of_range() {
    let mut bad = text_only();
    bad[51] = 9;
    assert_eq!(from_elf(bad, false), Err(RplError::InvalidStringTableIndex));
}

#[test]
fn bad_section_names() {
    let mut bad = text_only();
    let sh = 64 + 40;
    bad[sh..sh + 4].copy_from_slice(&0x1000u32.to_be_bytes());
    assert_eq!(from_elf(bad, false), Err(RplError::InvalidSectionName));
    let input = build(vec![spec("\u{e9}t\u{e9}", 1, 0x6, 0x0200_0000, b"abc".to_vec())]);
    let mut bad = input.clone();
    let pos = input.len() - 11 - 5;
    assert_eq!(&input[pos..pos + 2], "\u{e9}".as_bytes());
    bad[pos] = 0xff;
    assert_eq!(from_elf(bad, false), Err(RplError::SectionNameNotUtf8));
}

#[test]
fn relocation_target_out_of_range() {
    let mut rela = spec(".rela.text", 4, 0, 0, Vec::new());
    rela.info = 40;
    let input = build(vec![spec(".text", 1, 0x6, 0x0200_0000, b"123456789".to_vec()), rela]);
    assert_eq!(from_elf(input, false), Err(RplError::InvalidRelocationTarget));
}

#[test]
fn unsupported_relocation_type() {
    let mut rels = Vec::new();
    Rela { offset: 0x0200_0000, info: (1 << 8) | 0x02, addend: 0 }.write_to(&mut rels);
    let mut rela = spec(".rela.text", 4, 0, 0, rels);
    rela.info = 1;
    let input = build(vec![spec(".text", 1, 0x6, 0x0200_0000, b"123456789".to_vec()), rela]);
    assert_eq!(from_elf(input, false), Err(RplError::UnsupportedRelocation(2)));
}

#[test]
fn string_table_without_alignment() {
    let mut strtab = spec(".strtab", 3, 0, 0, b"\0a\0".to_vec());
    strtab.align = 0;
    let input = build(vec![spec(".text", 1, 0x6, 0x0200_0000, b"123456789".to_vec()), strtab]);
    assert_eq!(from_elf(input, false), Err(RplError::ZeroAlignment));
}

#[test]
fn section_below_code_segment() {
    let input = build(vec![spec(".text", 1, 0x6, 0x1000, b"123456789".to_vec())]);
    assert_eq!(from_elf(input, false), Err(RplError::InvalidSectionAddress));
}

#[test]
fn load_address_overflow() {
    let input = build(vec![spec(".load", 1, 0x2, 0xFFFF_FFF0, vec![0; 32])]);
    assert_eq!(from_elf(input, false), Err(RplError::Overflow));
}

#[test]
fn empty_program_section_has_no_place() {
    let input = build(vec![
        spec(".text", 1, 0x6, 0x0200_0000, b"123456789".to_vec()),
        spec(".empty", 1, 0x6, 0x0200_0100, Vec::new()),
    ]);
    assert_eq!(from_elf(input, false), Err(RplError::UnplacedSection));
}

#[test]
fn link_to_missing_section() {
    let mut text = spec(".text", 1, 0x6, 0x0200_0000, b"123456789".to_vec());
    text.link = 77;
    let input = build(vec![text]);
    assert_eq!(from_elf(input, false), Err(RplError::InvalidLink));
}

fn section(name: &str, ty: u32, flags: u32, addr: u32, data: Vec<u8>) -> Section {
    Section {
        header: SectionHeader {
            name: 0,
            ty: SectionType(ty),
            flags: SectionFlags(flags),
            addr,
            offset: 0,
            size: data.len() as u32,
            link: 0,
            info: 0,
            addralign: 4,
            entsize: 0,
        },
        name: name.as_bytes().to_vec(),
        data: SectionData::new(data),
        index: 0,
    }
}

fn file(sections: Vec<Section>) -> ElfFile {
    ElfFile { header: header(sections.len() as u16, 0), sections, num_discarded_sections: 0 }
}

#[test]
fn read_numbers_kept_sections() {
    let input = build(vec![
        spec(".debug_line", 1, 0, 0, vec![1]),
        spec(".text", 1, 0x6, 0x0200_0000, b"123456789".to_vec()),
        spec(".data", 1, 0x2, 0x1000_0000, vec![5; 4]),
    ]);
    let elf = ElfFile::read(&input).unwrap();
    assert_eq!(elf.num_discarded_sections, 1);
    let indices: Vec<usize> = elf.sections.iter().map(|s| s.index).collect();
    assert_eq!(indices, vec![0, DISCARDED, 1, 2, 3]);
    assert_eq!(elf.sections[1].data.len(), 0);
    assert_eq!(elf.sections[1].header.ty, SectionType(0));
    assert_eq!(elf.sections[2].name, b".text".to_vec());
    // Sections in the data segment become writable.
    assert_eq!(elf.sections[3].header.flags, SectionFlags(0x3));
}

#[test]
fn section_flags_by_name() {
    let mut elf = file(vec![
        section(".cafe_load_bounds", 1, 0x7, 0, vec![]),
        section(".rodata", 1, 0x2, 0, vec![]),
        section(".eh_frame", 1, 0x0, 0, vec![]),
        section(".text", 1, 0x6, 0, vec![]),
    ]);
    elf.fix_section_flags();
    assert_eq!(elf.sections[0].header.flags, SectionFlags(0x2));
    assert_eq!(elf.sections[1].header.flags, SectionFlags(0x3));
    assert_eq!(elf.sections[2].header.flags, SectionFlags(0x3));
    assert_eq!(elf.sections[3].header.flags, SectionFlags(0x6));
}

#[test]
fn section_types_by_name() {
    let mut elf = file(vec![
        section(".fexports", 1, 0, 0, vec![]),
        section(".dimport_coreinit", 1, 0, 0, vec![]),
        section(".fimport_nsysnet", 1, 0, 0, vec![]),
        section(".fexportsx", 1, 0, 0, vec![]),
    ]);
    elf.fix_section_types();
    assert_eq!(elf.sections[0].header.ty, SectionType(0x8000_0001));
    assert_eq!(elf.sections[1].header.ty, SectionType(0x8000_0002));
    assert_eq!(elf.sections[2].header.ty, SectionType(0x8000_0002));
    assert_eq!(elf.sections[3].header.ty, SectionType(1));
}

#[test]
fn relocation_sections_lose_flags_and_take_their_byte_size() {
    let mut rels = Vec::new();
    Rela { offset: 4, info: (2 << 8) | 0x1a, addend: 0 }.write_to(&mut rels);
    Rela { offset: 8, info: (2 << 8) | 0x01, addend: 0 }.write_to(&mut rels);
    let mut elf = file(vec![section(".text", 1, 0x6, 0, vec![0; 8]), section(".rela.text", 4, 0x40, 0, rels)]);
    elf.fix_relocations().unwrap();
    assert_eq!(elf.sections[1].header.flags, SectionFlags(0));
    // The size is that of the converted contents, in bytes.
    assert_eq!(elf.sections[1].header.size, 36);
    assert_eq!(elf.sections[1].data.len(), 36);
}

#[test]
fn string_tables_move_to_loader_segment() {
    let mut elf = file(vec![
        section(".text", 1, 0x6, 0x0200_0000, vec![0; 8]),
        section(".load", 1, 0x2, 0xC000_0000, vec![0; 0x21]),
        section(".strtab", 3, 0, 0, vec![0; 5]),
        section(".symtab", 2, 0, 0, vec![0; 16]),
    ]);
    elf.fix_loader_virtual_addresses().unwrap();
    assert_eq!(elf.sections[2].header.addr, 0xC000_0024);
    assert_eq!(elf.sections[2].header.flags, SectionFlags(0x2));
    assert_eq!(elf.sections[3].header.addr, 0xC000_002C);
    assert_eq!(elf.sections[0].header.addr, 0x0200_0000);
}

#[test]
fn file_header_for_cafe_os() {
    let mut elf = file(vec![section("", 0, 0, 0, vec![]), section(".text", 1, 0x6, 0, vec![])]);
    elf.header.shstrndx = 1;
    elf.sections[1].index = 7;
    elf.header.phnum = 3;
    elf.fix_file_header();
    assert_eq!(elf.header.abi, Eabi(0xCAFE));
    assert_eq!(elf.header.ty, 0xFE01);
    assert_eq!(elf.header.shoff, 64);
    assert_eq!(elf.header.phnum, 0);
    assert_eq!(elf.header.shnum, 2);
    assert_eq!(elf.header.shstrndx, 7);
}

#[test]
fn crc_section_holds_checksums_of_kept_sections() {
    let mut elf = file(vec![
        section(".text", 1, 0x6, 0x0200_0000, b"123456789".to_vec()),
        section(".data", 1, 0x3, 0x1000_0000, b"a".to_vec()),
        section(".bss", 8, 0x3, 0x1000_0010, vec![]),
    ]);
    elf.generate_crc_section().unwrap();
    assert_eq!(elf.sections.len(), 4);
    assert_eq!(elf.sections[2].header.ty, SectionType(0x8000_0003));
    assert_eq!(
        elf.sections[2].data.as_bytes(),
        &[0xCB, 0xF4, 0x39, 0x26, 0xE8, 0xB7, 0xBE, 0x43, 0, 0, 0, 0, 0, 0, 0, 0][..]
    );
}
