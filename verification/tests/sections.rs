use cargo_wiiu::elf::{Rela, Symbol};
use cargo_wiiu::rpl::fixes::convert_relocations_exec;
use cargo_wiiu::rpl::info::crc_section_data;
use cargo_wiiu::rpl::layout::deflated_contents;
use cargo_wiiu::rpl::loader::{add_u32_exec, round_up_exec};
use cargo_wiiu::rpl::read::{c_string, is_debug_name};
use cargo_wiiu::rpl::{encode_words, RplError, SectionData};

#[test]
fn section_data_accessors() {
    let mut d = SectionData::new(vec![1, 2, 3]);
    assert_eq!(d.len(), 3);
    assert_eq!(d.as_bytes(), &[1, 2, 3]);
    assert_eq!(d.as_vec(), vec![1, 2, 3]);
    d.from_vec(vec![9; 5]);
    assert_eq!(d.len(), 5);
    assert_eq!(d.as_vec(), vec![9; 5]);
    d.clear();
    assert_eq!(d.len(), 0);
}

#[test]
fn relocations_read_whole_records_only() {
    let mut bytes = Vec::new();
    Rela { offset: 0x100, info: 0x0101, addend: 4 }.write_to(&mut bytes);
    Rela { offset: 0x104, info: 0x0201, addend: -8 }.write_to(&mut bytes);
    bytes.extend_from_slice(&[0xAB, 0xCD]);
    let d = SectionData::new(bytes);
    let rels = d.as_rela();
    assert_eq!(rels.len(), 2);
    assert_eq!(rels[0], Rela { offset: 0x100, info: 0x0101, addend: 4 });
    assert_eq!(rels[1], Rela { offset: 0x104, info: 0x0201, addend: -8 });
}

#[test]
fn relocations_write_back_what_was_read() {
    let rels = vec![
        Rela { offset: 1, info: 0x0306, addend: 0 },
        Rela { offset: 2, info: 0x040a, addend: -1 },
    ];
    let mut d = SectionData::new(Vec::new());
    d.from_rela(rels.clone());
    assert_eq!(d.len(), 24);
    assert_eq!(d.as_rela(), rels);
}

#[test]
fn symbols_are_read_in_records() {
    let mut bytes = Vec::new();
    Symbol { name: 1, value: 2, size: 3, info: 0x11, other: 0, shndx: 4 }.write_to(&mut bytes);
    Symbol { name: 5, value: 6, size: 7, info: 0x02, other: 1, shndx: 8 }.write_to(&mut bytes);
    let d = SectionData::new(bytes);
    let syms = d.as_symbol();
    assert_eq!(syms.len(), 2);
    assert_eq!(syms[1], Symbol { name: 5, value: 6, size: 7, info: 0x02, other: 1, shndx: 8 });
}

#[test]
fn words_are_big_endian() {
    assert_eq!(encode_words(&vec![0x01020304, 0xA0B0C0D0]), vec![1, 2, 3, 4, 0xA0, 0xB0, 0xC0, 0xD0]);
    assert_eq!(encode_words(&vec![]), Vec::<u8>::new());
}

#[test]
fn crc_table_has_zero_slot_before_last() {
    assert_eq!(crc_section_data(vec![]), vec![0, 0, 0, 0]);
    assert_eq!(crc_section_data(vec![7]), vec![0, 0, 0, 0, 0, 0, 0, 7]);
    assert_eq!(
        crc_section_data(vec![1, 2, 3]),
        vec![0, 0, 0, 1, 0, 0, 0, 2, 0, 0, 0, 0, 0, 0, 0, 3]
    );
}

#[test]
fn rel32_becomes_two_ghs_relocations() {
    let rels = vec![
        Rela { offset: 0x10, info: (5 << 8) | 0x01, addend: 0 },
        Rela { offset: 0x20, info: (7 << 8) | 0x1a, addend: 0x30 },
    ];
    let out = convert_relocations_exec(&rels).unwrap();
    assert_eq!(
        out,
        vec![
            Rela { offset: 0x10, info: (5 << 8) | 0x01, addend: 0 },
            Rela { offset: 0x20, info: (7 << 8) | 0xfc, addend: 0x30 },
            Rela { offset: 0x22, info: (7 << 8) | 0xfc, addend: 0x32 },
        ]
    );
}

#[test]
fn unsupported_relocation_is_refused() {
    let rels = vec![
        Rela { offset: 0x10, info: 0x01, addend: 0 },
        Rela { offset: 0x20, info: (3 << 8) | 0x02, addend: 0 },
    ];
    assert_eq!(convert_relocations_exec(&rels), Err(RplError::UnsupportedRelocation(0x02)));
}

#[test]
fn every_listed_relocation_type_is_kept() {
    for ty in [0x00u32, 0x01, 0x04, 0x05, 0x06, 0x0a, 0x0b, 0x44, 0x4e, 0x6d, 0x74, 0xb4, 0xb5, 0xb6, 0xb7, 0xb8, 0xb9] {
        let rels = vec![Rela { offset: 4, info: (9 << 8) | ty, addend: 1 }];
        assert_eq!(convert_relocations_exec(&rels), Ok(rels.clone()));
    }
}

#[test]
fn deflated_contents_start_with_length() {
    assert_eq!(deflated_contents(0x1234, vec![0x78, 0xda]), vec![0, 0, 0x12, 0x34, 0x78, 0xda]);
}

#[test]
fn c_strings_end_at_zero() {
    let table = b"\0.text\0.data\0".to_vec();
    assert_eq!(c_string(&table, 1), Some(b".text".to_vec()));
    assert_eq!(c_string(&table, 7), Some(b".data".to_vec()));
    assert_eq!(c_string(&table, 0), Some(Vec::new()));
    assert_eq!(c_string(&table, 13), None);
    assert_eq!(c_string(&table, 99), None);
    assert_eq!(c_string(b"abc", 0), None);
}

#[test]
fn debug_names() {
    assert!(is_debug_name(b".debug_info"));
    assert!(is_debug_name(b".debug_"));
    assert!(!is_debug_name(b".debug"));
    assert!(!is_debug_name(b".text"));
}

#[test]
fn rounding_and_adding() {
    assert_eq!(round_up_exec(0x21, 4), Ok(0x24));
    assert_eq!(round_up_exec(0x20, 4), Ok(0x20));
    assert_eq!(round_up_exec(7, 1), Ok(7));
    assert_eq!(round_up_exec(5, 0), Err(RplError::ZeroAlignment));
    assert_eq!(round_up_exec(u32::MAX, 2), Err(RplError::Overflow));
    assert_eq!(add_u32_exec(1, 2), Ok(3));
    assert_eq!(add_u32_exec(u32::MAX, 1), Err(RplError::Overflow));
}
