use cargo_wiiu::elf::{
    Class, Data, Eabi, Header, Machine, Magic, Rela, RplCrc, RplFileInfo, SectionFlags,
    SectionHeader, SectionType, Symbol, HEADER_SIZE, RELA_SIZE, RPL_CRC_SIZE,
    RPL_FILE_INFO_SIZE, SECTION_HEADER_SIZE, SYMBOL_SIZE,
};

fn sample_header() -> Header {
    Header {
        magic: Magic(0x7f454c46),
        file_class: Class(1),
        encoding: Data(2),
        elf_version: 1,
        abi: Eabi(0),
        pad: [0; 7],
        ty: 2,
        machine: Machine(0x14),
        version: 1,
        entry: 0x0200_0000,
        phoff: 0,
        shoff: 0x40,
        flags: 0,
        ehsize: 0x34,
        phentsize: 0,
        phnum: 0,
        shentsize: 0x28,
        shnum: 3,
        shstrndx: 2,
    }
}

#[test]
fn header_bytes_are_big_endian_and_read_back() {
    let h = sample_header();
    let mut out = Vec::new();
    h.write_to(&mut out);
    assert_eq!(out.len(), HEADER_SIZE);
    assert_eq!(&out[0..4], &[0x7f, b'E', b'L', b'F']);
    assert_eq!(out[4], 1);
    assert_eq!(out[5], 2);
    assert_eq!(&out[18..20], &[0x00, 0x14]);
    assert_eq!(&out[32..36], &[0, 0, 0, 0x40]);
    assert_eq!(&out[48..52], &[0, 3, 0, 2]);
    let back = Header::parse(&out, 0).unwrap();
    assert_eq!(back.magic, h.magic);
    assert_eq!(back.machine, h.machine);
    assert_eq!(back.entry, h.entry);
    assert_eq!(back.shoff, h.shoff);
    assert_eq!(back.shnum, h.shnum);
    assert_eq!(back.shstrndx, h.shstrndx);
}

#[test]
fn header_parse_needs_whole_record() {
    let mut out = Vec::new();
    sample_header().write_to(&mut out);
    assert!(Header::parse(&out[..HEADER_SIZE - 1], 0).is_none());
    assert!(Header::parse(&out, 1).is_none());
}

#[test]
fn section_header_roundtrip() {
    let sh = SectionHeader {
        name: 7,
        ty: SectionType(1),
        flags: SectionFlags(6),
        addr: 0x0200_0000,
        offset: 0x100,
        size: 0x20,
        link: 0,
        info: 0,
        addralign: 4,
        entsize: 0,
    };
    let mut out = vec![0xAA];
    sh.write_to(&mut out);
    assert_eq!(out.len(), 1 + SECTION_HEADER_SIZE);
    assert_eq!(&out[1..5], &[0, 0, 0, 7]);
    assert_eq!(&out[13..17], &[0x02, 0, 0, 0]);
    assert_eq!(SectionHeader::parse(&out, 1), Some(sh));
    assert_eq!(SectionHeader::parse(&out, 2), None);
}

#[test]
fn symbol_roundtrip() {
    let sym = Symbol { name: 1, value: 0xC000_0010, size: 8, info: 0x12, other: 0, shndx: 3 };
    let mut out = Vec::new();
    sym.write_to(&mut out);
    assert_eq!(out.len(), SYMBOL_SIZE);
    assert_eq!(out, vec![0, 0, 0, 1, 0xC0, 0, 0, 0x10, 0, 0, 0, 8, 0x12, 0, 0, 3]);
    assert_eq!(Symbol::parse(&out, 0), Some(sym));
}

#[test]
fn rela_roundtrip_with_negative_addend() {
    let rela = Rela { offset: 0x10, info: (5 << 8) | 0x1a, addend: -2 };
    let mut out = Vec::new();
    rela.write_to(&mut out);
    assert_eq!(out.len(), RELA_SIZE);
    assert_eq!(out, vec![0, 0, 0, 0x10, 0, 0, 5, 0x1a, 0xff, 0xff, 0xff, 0xfe]);
    assert_eq!(Rela::parse(&out, 0), Some(rela));
}

#[test]
fn crc_record_roundtrip() {
    let crc = RplCrc { crc: 0xCBF4_3926 };
    let mut out = Vec::new();
    crc.write_to(&mut out);
    assert_eq!(out.len(), RPL_CRC_SIZE);
    assert_eq!(out, vec![0xCB, 0xF4, 0x39, 0x26]);
    assert_eq!(RplCrc::parse(&out, 0), Some(crc));
}

#[test]
fn file_info_roundtrip() {
    let info = RplFileInfo {
        version: 0xCAFE0402,
        text_size: 0x20,
        text_align: 32,
        data_size: 0x1000,
        data_align: 4096,
        load_size: 0x40,
        load_align: 32,
        temp_size: 0x90,
        tramp_adjust: 0,
        sda_base: 0,
        sda2_base: 0,
        stack_size: 0x10000,
        filename: 0,
        flags: 2,
        heap_size: 0x8000,
        tag_offset: 0,
        min_version: 0x5078,
        compression_level: 6,
        tramp_addition: 0,
        file_info_pad: 0,
        cafe_sdk_version: 0x5335,
        cafe_sdk_revision: 0x10D4B,
        tls_module_index: 0,
        tls_align_shift: 0,
        runtime_file_info_size: 0,
    };
    let mut out = Vec::new();
    info.write_to(&mut out);
    assert_eq!(out.len(), RPL_FILE_INFO_SIZE);
    assert_eq!(&out[0..4], &[0xCA, 0xFE, 0x04, 0x02]);
    assert_eq!(RplFileInfo::parse(&out, 0), Some(info));
}
