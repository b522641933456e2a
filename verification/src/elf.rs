//! The big-endian ELF records of a Cafe OS module, with their encodings.
use vstd::prelude::*;
use crate::bytes::{
    be16, be32, get16, get32, lemma_be32_roundtrip, lemma_get16_bytes, lemma_get16_of, lemma_get32_bytes,
    lemma_get32_of, lemma_i32_u32, lemma_subrange_concat, lemma_u32_i32, push_be16, push_be32, read_be16, read_be32,
};

verus! {

/// ELF file identification (`\x7fELF`).
pub const MAGIC_ELF: u32 = 0x7f454c46;
/// 32-bit file class.
pub const CLASS_B32: u8 = 1;
/// Big-endian data encoding.
pub const DATA_MSB: u8 = 2;
/// The Cafe OS ABI.
pub const EABI_CAFE: u16 = 0xcafe;
/// The PowerPC machine.
pub const MACHINE_PPC: u16 = 0x14;

pub const SHT_NULL: u32 = 0x0;
pub const SHT_SYMTAB: u32 = 0x2;
pub const SHT_STRTAB: u32 = 0x3;
pub const SHT_RELA: u32 = 0x4;
pub const SHT_NOBITS: u32 = 0x8;
pub const SHT_RPL_EXPORTS: u32 = 0x80000001;
pub const SHT_RPL_IMPORTS: u32 = 0x80000002;
pub const SHT_RPL_CRCS: u32 = 0x80000003;
pub const SHT_RPL_FILEINFO: u32 = 0x80000004;

pub const SHF_EMPTY: u32 = 0x0;
pub const SHF_WRITE: u32 = 0x1;
pub const SHF_ALLOC: u32 = 0x2;
pub const SHF_EXEC: u32 = 0x4;
pub const SHF_DEFLATED: u32 = 0x08000000;

pub const STT_OBJECT: u8 = 0x1;
pub const STT_FUNC: u8 = 0x2;
pub const STT_SECTION: u8 = 0x3;

pub const R_PPC_NONE: u32 = 0x0;
pub const R_PPC_ADDR32: u32 = 0x1;
pub const R_PPC_ADDR16_LO: u32 = 0x4;
pub const R_PPC_ADDR16_HI: u32 = 0x5;
pub const R_PPC_ADDR16_HA: u32 = 0x6;
pub const R_PPC_REL24: u32 = 0xa;
pub const R_PPC_REL14: u32 = 0xb;
pub const R_PPC_REL32: u32 = 0x1a;
pub const R_PPC_DTPMOD32: u32 = 0x44;
pub const R_PPC_DTPREL32: u32 = 0x4e;
pub const R_PPC_EMB_SDA21: u32 = 0x6d;
pub const R_PPC_EMB_RELSDA: u32 = 0x74;
pub const R_PPC_DIAB_SDA21_LO: u32 = 0xb4;
pub const R_PPC_DIAB_SDA21_HI: u32 = 0xb5;
pub const R_PPC_DIAB_SDA21_HA: u32 = 0xb6;
pub const R_PPC_DIAB_RELSDA_LO: u32 = 0xb7;
pub const R_PPC_DIAB_RELSDA_HI: u32 = 0xb8;
pub const R_PPC_DIAB_RELSDA_HA: u32 = 0xb9;
pub const R_PPC_GHS_REL16_HI: u32 = 0xfc;

/// Encoded sizes of the records.
pub const HEADER_SIZE: usize = 0x34;
pub const SECTION_HEADER_SIZE: usize = 0x28;
pub const SYMBOL_SIZE: usize = 0x10;
pub const RELA_SIZE: usize = 0x0C;
pub const RPL_CRC_SIZE: usize = 0x04;
pub const RPL_FILE_INFO_SIZE: usize = 0x60;

#[derive(PartialEq, Eq, Structural, Clone, Copy, Debug)]
pub struct Magic(pub u32);

#[derive(PartialEq, Eq, Structural, Clone, Copy, Debug)]
pub struct Class(pub u8);

#[derive(PartialEq, Eq, Structural, Clone, Copy, Debug)]
pub struct Data(pub u8);

#[derive(PartialEq, Eq, Structural, Clone, Copy, Debug)]
pub struct Eabi(pub u16);

#[derive(PartialEq, Eq, Structural, Clone, Copy, Debug)]
pub struct Machine(pub u16);

#[derive(PartialEq, Eq, Structural, Clone, Copy, Debug)]
pub struct SectionType(pub u32);

#[derive(PartialEq, Eq, Structural, Clone, Copy, Debug)]
pub struct SectionFlags(pub u32);

#[derive(PartialEq, Eq, Structural, Clone, Copy, Debug)]
pub struct SymbolType(pub u8);

#[derive(PartialEq, Eq, Structural, Clone, Copy, Debug)]
pub struct RelaType(pub u32);

/// The ELF file header.
#[derive(Clone, Copy, Debug)]
pub struct Header {
    /// File identification.
    pub magic: Magic,
    /// File class.
    pub file_class: Class,
    /// Data encoding.
    pub encoding: Data,
    /// File version.
    pub elf_version: u8,
    /// OS/ABI identification.
    pub abi: Eabi,
    pub pad: [u8; 7],
    /// Type of file.
    pub ty: u16,
    /// Required architecture for this file.
    pub machine: Machine,
    /// Must be equal to 1.
    pub version: u32,
    /// Address to jump to in order to start program.
    pub entry: u32,
    /// Program header table's file offset, in bytes.
    pub phoff: u32,
    /// Section header table's file offset, in bytes.
    pub shoff: u32,
    /// Processor-specific flags.
    pub flags: u32,
    /// Size of ELF header, in bytes.
    pub ehsize: u16,
    /// Size of an entry in the program header table.
    pub phentsize: u16,
    /// Number of entries in the program header table.
    pub phnum: u16,
    /// Size of an entry in the section header table.
    pub shentsize: u16,
    /// Number of entries in the section header table.
    pub shnum: u16,
    /// Section header table index of the section name string table.
    pub shstrndx: u16,
}

/// A section header.
#[derive(PartialEq, Eq, Structural, Clone, Copy, Debug)]
pub struct SectionHeader {
    /// Section name (index into string table).
    pub name: u32,
    /// Section type.
    pub ty: SectionType,
    /// Section flags.
    pub flags: SectionFlags,
    /// Address where section is to be loaded.
    pub addr: u32,
    /// File offset of section data, in bytes.
    pub offset: u32,
    /// Size of section, in bytes.
    pub size: u32,
    /// Section type-specific header table index link.
    pub link: u32,
    /// Section type-specific extra information.
    pub info: u32,
    /// Section address alignment.
    pub addralign: u32,
    /// Size of records contained within the section.
    pub entsize: u32,
}

/// A symbol table entry.
#[derive(PartialEq, Eq, Structural, Clone, Copy, Debug)]
pub struct Symbol {
    /// Symbol name (index into string table).
    pub name: u32,
    /// Value or address associated with the symbol.
    pub value: u32,
    /// Size of the symbol.
    pub size: u32,
    /// Symbol's type and binding attributes.
    pub info: u8,
    /// Must be zero; reserved.
    pub other: u8,
    /// Which section (header table index) it's defined in.
    pub shndx: u16,
}

/// A relocation entry with an explicit addend.
#[derive(PartialEq, Eq, Structural, Clone, Copy, Debug)]
pub struct Rela {
    pub offset: u32,
    pub info: u32,
    pub addend: i32,
}

/// One entry of the CRC section.
#[derive(PartialEq, Eq, Structural, Clone, Copy, Debug)]
pub struct RplCrc {
    pub crc: u32,
}

/// The file information record of a Cafe OS module.
#[derive(PartialEq, Eq, Structural, Clone, Copy, Debug)]
pub struct RplFileInfo {
    pub version: u32,
    pub text_size: u32,
    pub text_align: u32,
    pub data_size: u32,
    pub data_align: u32,
    pub load_size: u32,
    pub load_align: u32,
    pub temp_size: u32,
    pub tramp_adjust: u32,
    pub sda_base: u32,
    pub sda2_base: u32,
    pub stack_size: u32,
    pub filename: u32,
    pub flags: u32,
    pub heap_size: u32,
    pub tag_offset: u32,
    pub min_version: u32,
    pub compression_level: i32,
    pub tramp_addition: u32,
    pub file_info_pad: u32,
    pub cafe_sdk_version: u32,
    pub cafe_sdk_revision: u32,
    pub tls_module_index: u16,
    pub tls_align_shift: u16,
    pub runtime_file_info_size: u32,
}

// ---------------------------------------------------------------- Header

impl Header {
    /// The encoding of the header.
    pub open spec fn spec_bytes(self) -> Seq<u8> {
        be32(self.magic.0) + seq![self.file_class.0, self.encoding.0, self.elf_version] + be16(
            self.abi.0,
        ) + self.pad@ + be16(self.ty) + be16(self.machine.0) + be32(self.version) + be32(
            self.entry,
        ) + be32(self.phoff) + be32(self.shoff) + be32(self.flags) + be16(self.ehsize) + be16(
            self.phentsize,
        ) + be16(self.phnum) + be16(self.shentsize) + be16(self.shnum) + be16(self.shstrndx)
    }

    /// The header decoded from `s[pos..pos + 0x34]`.
    pub open spec fn spec_parse(s: Seq<u8>, pos: int) -> Header {
        Header {
            magic: Magic(get32(s, pos)),
            file_class: Class(s[pos + 4]),
            encoding: Data(s[pos + 5]),
            elf_version: s[pos + 6],
            abi: Eabi(get16(s, pos + 7)),
            pad: [s[pos + 9], s[pos + 10], s[pos + 11], s[pos + 12], s[pos + 13], s[pos + 14], s[pos + 15]],
            ty: get16(s, pos + 16),
            machine: Machine(get16(s, pos + 18)),
            version: get32(s, pos + 20),
            entry: get32(s, pos + 24),
            phoff: get32(s, pos + 28),
            shoff: get32(s, pos + 32),
            flags: get32(s, pos + 36),
            ehsize: get16(s, pos + 40),
            phentsize: get16(s, pos + 42),
            phnum: get16(s, pos + 44),
            shentsize: get16(s, pos + 46),
            shnum: get16(s, pos + 48),
            shstrndx: get16(s, pos + 50),
        }
    }

    /// Appends the encoding of the header.
    pub fn write_to(&self, out: &mut Vec<u8>)
        ensures
            final(out)@ == old(out)@ + self.spec_bytes(),
    {
        let ghost start = out@;
        push_be32(out, self.magic.0);
        out.push(self.file_class.0);
        out.push(self.encoding.0);
        out.push(self.elf_version);
        push_be16(out, self.abi.0);
        let mut k: usize = 0;
        while k < 7
            invariant
                k <= 7,
                out@ == start + be32(self.magic.0) + seq![self.file_class.0, self.encoding.0, self.elf_version]
                    + be16(self.abi.0) + self.pad@.subrange(0, k as int),
            decreases 7 - k,
        {
            out.push(self.pad[k]);
            assert(self.pad@.subrange(0, k + 1) =~= self.pad@.subrange(0, k as int).push(self.pad@[k as int]));
            k = k + 1;
        }
        assert(self.pad@.subrange(0, 7) =~= self.pad@);
        push_be16(out, self.ty);
        push_be16(out, self.machine.0);
        push_be32(out, self.version);
        push_be32(out, self.entry);
        push_be32(out, self.phoff);
        push_be32(out, self.shoff);
        push_be32(out, self.flags);
        push_be16(out, self.ehsize);
        push_be16(out, self.phentsize);
        push_be16(out, self.phnum);
        push_be16(out, self.shentsize);
        push_be16(out, self.shnum);
        push_be16(out, self.shstrndx);
        assert(out@ =~= start + self.spec_bytes());
    }

    /// Decodes a header at `pos`; `None` where fewer than 0x34 bytes remain.
    pub fn parse(s: &[u8], pos: usize) -> (r: Option<Header>)
        ensures
            r == if pos + HEADER_SIZE <= s@.len() {
                Some(Header::spec_parse(s@, pos as int))
            } else {
                None::<Header>
            },
    {
        if pos > s.len() || s.len() - pos < HEADER_SIZE {
            return None;
        }
        Some(
            Header {
                magic: Magic(read_be32(s, pos)),
                file_class: Class(s[pos + 4]),
                encoding: Data(s[pos + 5]),
                elf_version: s[pos + 6],
                abi: Eabi(read_be16(s, pos + 7)),
                pad: [s[pos + 9], s[pos + 10], s[pos + 11], s[pos + 12], s[pos + 13], s[pos + 14], s[pos + 15]],
                ty: read_be16(s, pos + 16),
                machine: Machine(read_be16(s, pos + 18)),
                version: read_be32(s, pos + 20),
                entry: read_be32(s, pos + 24),
                phoff: read_be32(s, pos + 28),
                shoff: read_be32(s, pos + 32),
                flags: read_be32(s, pos + 36),
                ehsize: read_be16(s, pos + 40),
                phentsize: read_be16(s, pos + 42),
                phnum: read_be16(s, pos + 44),
                shentsize: read_be16(s, pos + 46),
                shnum: read_be16(s, pos + 48),
                shstrndx: read_be16(s, pos + 50),
            },
        )
    }

    /// The encoding is 0x34 bytes long, and decoding it gives the header back.
    pub proof fn lemma_roundtrip(self)
        ensures
            self.spec_bytes().len() == HEADER_SIZE,
            Header::spec_parse(self.spec_bytes(), 0) == self,
    {
        let b = self.spec_bytes();
        lemma_be32_roundtrip(self.magic.0);
        assert(b.len() == 52);
        assert(b.subrange(0, 4) =~= be32(self.magic.0));
        lemma_get32_of(b, 0, self.magic.0);
        assert(b.subrange(7, 9) =~= be16(self.abi.0));
        lemma_get16_of(b, 7, self.abi.0);
        assert(b.subrange(16, 18) =~= be16(self.ty));
        lemma_get16_of(b, 16, self.ty);
        assert(b.subrange(18, 20) =~= be16(self.machine.0));
        lemma_get16_of(b, 18, self.machine.0);
        assert(b.subrange(20, 24) =~= be32(self.version));
        lemma_get32_of(b, 20, self.version);
        assert(b.subrange(24, 28) =~= be32(self.entry));
        lemma_get32_of(b, 24, self.entry);
        assert(b.subrange(28, 32) =~= be32(self.phoff));
        lemma_get32_of(b, 28, self.phoff);
        assert(b.subrange(32, 36) =~= be32(self.shoff));
        lemma_get32_of(b, 32, self.shoff);
        assert(b.subrange(36, 40) =~= be32(self.flags));
        lemma_get32_of(b, 36, self.flags);
        assert(b.subrange(40, 42) =~= be16(self.ehsize));
        lemma_get16_of(b, 40, self.ehsize);
        assert(b.subrange(42, 44) =~= be16(self.phentsize));
        lemma_get16_of(b, 42, self.phentsize);
        assert(b.subrange(44, 46) =~= be16(self.phnum));
        lemma_get16_of(b, 44, self.phnum);
        assert(b.subrange(46, 48) =~= be16(self.shentsize));
        lemma_get16_of(b, 46, self.shentsize);
        assert(b.subrange(48, 50) =~= be16(self.shnum));
        lemma_get16_of(b, 48, self.shnum);
        assert(b.subrange(50, 52) =~= be16(self.shstrndx));
        lemma_get16_of(b, 50, self.shstrndx);
        let p = Header::spec_parse(b, 0);
        assert(p.pad@ =~= self.pad@);
        assert(p.pad == self.pad);
    }

    /// Encoding a decoded header gives back the bytes it was decoded from.
    pub proof fn lemma_parse_bytes(s: Seq<u8>, pos: int)
        requires
            0 <= pos,
            pos + HEADER_SIZE <= s.len(),
        ensures
            Header::spec_parse(s, pos).spec_bytes() == s.subrange(pos, pos + HEADER_SIZE),
    {
        let h = Header::spec_parse(s, pos);
        lemma_get32_bytes(s, pos);
        lemma_get16_bytes(s, pos + 7);
        lemma_get16_bytes(s, pos + 16);
        lemma_get16_bytes(s, pos + 18);
        lemma_get32_bytes(s, pos + 20);
        lemma_get32_bytes(s, pos + 24);
        lemma_get32_bytes(s, pos + 28);
        lemma_get32_bytes(s, pos + 32);
        lemma_get32_bytes(s, pos + 36);
        lemma_get16_bytes(s, pos + 40);
        lemma_get16_bytes(s, pos + 42);
        lemma_get16_bytes(s, pos + 44);
        lemma_get16_bytes(s, pos + 46);
        lemma_get16_bytes(s, pos + 48);
        lemma_get16_bytes(s, pos + 50);
        assert(h.spec_bytes() =~= s.subrange(pos, pos + HEADER_SIZE));
    }
}

// ---------------------------------------------------------------- SectionHeader

impl SectionHeader {
    /// The encoding of the record.
    pub open spec fn spec_bytes(self) -> Seq<u8> {
        be32(self.name) + be32(self.ty.0) + be32(self.flags.0) + be32(self.addr) + be32(self.offset) + be32(self.size) + be32(self.link) + be32(self.info) + be32(self.addralign) + be32(self.entsize)
    }

    /// The record decoded from `s[pos..pos + 0x28]`.
    pub open spec fn spec_parse(s: Seq<u8>, pos: int) -> SectionHeader {
        SectionHeader {
            name: get32(s, pos + 0),
            ty: SectionType(get32(s, pos + 4)),
            flags: SectionFlags(get32(s, pos + 8)),
            addr: get32(s, pos + 12),
            offset: get32(s, pos + 16),
            size: get32(s, pos + 20),
            link: get32(s, pos + 24),
            info: get32(s, pos + 28),
            addralign: get32(s, pos + 32),
            entsize: get32(s, pos + 36),
        }
    }

    /// Appends the encoding of the record.
    pub fn write_to(&self, out: &mut Vec<u8>)
        ensures
            final(out)@ == old(out)@ + self.spec_bytes(),
    {
        let ghost start = out@;
        push_be32(out, self.name);
        push_be32(out, self.ty.0);
        push_be32(out, self.flags.0);
        push_be32(out, self.addr);
        push_be32(out, self.offset);
        push_be32(out, self.size);
        push_be32(out, self.link);
        push_be32(out, self.info);
        push_be32(out, self.addralign);
        push_be32(out, self.entsize);
        assert(out@ =~= start + self.spec_bytes());
    }

    /// Decodes a record at `pos`; `None` where fewer than 0x28 bytes remain.
    pub fn parse(s: &[u8], pos: usize) -> (r: Option<SectionHeader>)
        ensures
            r == if pos + SECTION_HEADER_SIZE <= s@.len() {
                Some(SectionHeader::spec_parse(s@, pos as int))
            } else {
                None::<SectionHeader>
            },
    {
        if pos > s.len() || s.len() - pos < SECTION_HEADER_SIZE {
            return None;
        }
        Some(SectionHeader {
            name: read_be32(s, pos + 0),
            ty: SectionType(read_be32(s, pos + 4)),
            flags: SectionFlags(read_be32(s, pos + 8)),
            addr: read_be32(s, pos + 12),
            offset: read_be32(s, pos + 16),
            size: read_be32(s, pos + 20),
            link: read_be32(s, pos + 24),
            info: read_be32(s, pos + 28),
            addralign: read_be32(s, pos + 32),
            entsize: read_be32(s, pos + 36),
        })
    }

    /// The encoding is 0x28 bytes long, and decoding it gives the record back.
    pub proof fn lemma_roundtrip(self)
        ensures
            self.spec_bytes().len() == SECTION_HEADER_SIZE,
            SectionHeader::spec_parse(self.spec_bytes(), 0) == self,
    {
        let b = self.spec_bytes();
        assert(b.len() == 40);
        assert(b.subrange(0, 4) =~= be32(self.name));
        lemma_get32_of(b, 0, self.name);
        assert(b.subrange(4, 8) =~= be32(self.ty.0));
        lemma_get32_of(b, 4, self.ty.0);
        assert(b.subrange(8, 12) =~= be32(self.flags.0));
        lemma_get32_of(b, 8, self.flags.0);
        assert(b.subrange(12, 16) =~= be32(self.addr));
        lemma_get32_of(b, 12, self.addr);
        assert(b.subrange(16, 20) =~= be32(self.offset));
        lemma_get32_of(b, 16, self.offset);
        assert(b.subrange(20, 24) =~= be32(self.size));
        lemma_get32_of(b, 20, self.size);
        assert(b.subrange(24, 28) =~= be32(self.link));
        lemma_get32_of(b, 24, self.link);
        assert(b.subrange(28, 32) =~= be32(self.info));
        lemma_get32_of(b, 28, self.info);
        assert(b.subrange(32, 36) =~= be32(self.addralign));
        lemma_get32_of(b, 32, self.addralign);
        assert(b.subrange(36, 40) =~= be32(self.entsize));
        lemma_get32_of(b, 36, self.entsize);
    }

    /// Encoding a decoded record gives back the bytes it was decoded from.
    pub proof fn lemma_parse_bytes(s: Seq<u8>, pos: int)
        requires
            0 <= pos,
            pos + SECTION_HEADER_SIZE <= s.len(),
        ensures
            SectionHeader::spec_parse(s, pos).spec_bytes() == s.subrange(pos, pos + SECTION_HEADER_SIZE),
    {
        lemma_get32_bytes(s, pos + 0);
        lemma_get32_bytes(s, pos + 4);
        lemma_subrange_concat(s, pos, pos + 4, pos + 8);
        lemma_get32_bytes(s, pos + 8);
        lemma_subrange_concat(s, pos, pos + 8, pos + 12);
        lemma_get32_bytes(s, pos + 12);
        lemma_subrange_concat(s, pos, pos + 12, pos + 16);
        lemma_get32_bytes(s, pos + 16);
        lemma_subrange_concat(s, pos, pos + 16, pos + 20);
        lemma_get32_bytes(s, pos + 20);
        lemma_subrange_concat(s, pos, pos + 20, pos + 24);
        lemma_get32_bytes(s, pos + 24);
        lemma_subrange_concat(s, pos, pos + 24, pos + 28);
        lemma_get32_bytes(s, pos + 28);
        lemma_subrange_concat(s, pos, pos + 28, pos + 32);
        lemma_get32_bytes(s, pos + 32);
        lemma_subrange_concat(s, pos, pos + 32, pos + 36);
        lemma_get32_bytes(s, pos + 36);
        lemma_subrange_concat(s, pos, pos + 36, pos + 40);
    }
}

// ---------------------------------------------------------------- Symbol

impl Symbol {
    /// The encoding of the record.
    pub open spec fn spec_bytes(self) -> Seq<u8> {
        be32(self.name) + be32(self.value) + be32(self.size) + seq![self.info] + seq![self.other] + be16(self.shndx)
    }

    /// The record decoded from `s[pos..pos + 0x10]`.
    pub open spec fn spec_parse(s: Seq<u8>, pos: int) -> Symbol {
        Symbol {
            name: get32(s, pos + 0),
            value: get32(s, pos + 4),
            size: get32(s, pos + 8),
            info: s[pos + 12],
            other: s[pos + 13],
            shndx: get16(s, pos + 14),
        }
    }

    /// Appends the encoding of the record.
    pub fn write_to(&self, out: &mut Vec<u8>)
        ensures
            final(out)@ == old(out)@ + self.spec_bytes(),
    {
        let ghost start = out@;
        push_be32(out, self.name);
        push_be32(out, self.value);
        push_be32(out, self.size);
        out.push(self.info);
        out.push(self.other);
        push_be16(out, self.shndx);
        assert(out@ =~= start + self.spec_bytes());
    }

    /// Decodes a record at `pos`; `None` where fewer than 0x10 bytes remain.
    pub fn parse(s: &[u8], pos: usize) -> (r: Option<Symbol>)
        ensures
            r == if pos + SYMBOL_SIZE <= s@.len() {
                Some(Symbol::spec_parse(s@, pos as int))
            } else {
                None::<Symbol>
            },
    {
        if pos > s.len() || s.len() - pos < SYMBOL_SIZE {
            return None;
        }
        Some(Symbol {
            name: read_be32(s, pos + 0),
            value: read_be32(s, pos + 4),
            size: read_be32(s, pos + 8),
            info: s[pos + 12],
            other: s[pos + 13],
            shndx: read_be16(s, pos + 14),
        })
    }

    /// The encoding is 0x10 bytes long, and decoding it gives the record back.
    pub proof fn lemma_roundtrip(self)
        ensures
            self.spec_bytes().len() == SYMBOL_SIZE,
            Symbol::spec_parse(self.spec_bytes(), 0) == self,
    {
        let b = self.spec_bytes();
        assert(b.len() == 16);
        assert(b.subrange(0, 4) =~= be32(self.name));
        lemma_get32_of(b, 0, self.name);
        assert(b.subrange(4, 8) =~= be32(self.value));
        lemma_get32_of(b, 4, self.value);
        assert(b.subrange(8, 12) =~= be32(self.size));
        lemma_get32_of(b, 8, self.size);
        assert(b.subrange(14, 16) =~= be16(self.shndx));
        lemma_get16_of(b, 14, self.shndx);
    }

    /// Encoding a decoded record gives back the bytes it was decoded from.
    pub proof fn lemma_parse_bytes(s: Seq<u8>, pos: int)
        requires
            0 <= pos,
            pos + SYMBOL_SIZE <= s.len(),
        ensures
            Symbol::spec_parse(s, pos).spec_bytes() == s.subrange(pos, pos + SYMBOL_SIZE),
    {
        lemma_get32_bytes(s, pos + 0);
        lemma_get32_bytes(s, pos + 4);
        lemma_subrange_concat(s, pos, pos + 4, pos + 8);
        lemma_get32_bytes(s, pos + 8);
        lemma_subrange_concat(s, pos, pos + 8, pos + 12);
        assert(seq![s[pos + 12]] =~= s.subrange(pos + 12, pos + 13));
        lemma_subrange_concat(s, pos, pos + 12, pos + 13);
        assert(seq![s[pos + 13]] =~= s.subrange(pos + 13, pos + 14));
        lemma_subrange_concat(s, pos, pos + 13, pos + 14);
        lemma_get16_bytes(s, pos + 14);
        lemma_subrange_concat(s, pos, pos + 14, pos + 16);
    }
}

// ---------------------------------------------------------------- Rela

impl Rela {
    /// The encoding of the record.
    pub open spec fn spec_bytes(self) -> Seq<u8> {
        be32(self.offset) + be32(self.info) + be32(self.addend as u32)
    }

    /// The record decoded from `s[pos..pos + 0xc]`.
    pub open spec fn spec_parse(s: Seq<u8>, pos: int) -> Rela {
        Rela {
            offset: get32(s, pos + 0),
            info: get32(s, pos + 4),
            addend: get32(s, pos + 8) as i32,
        }
    }

    /// Appends the encoding of the record.
    pub fn write_to(&self, out: &mut Vec<u8>)
        ensures
            final(out)@ == old(out)@ + self.spec_bytes(),
    {
        let ghost start = out@;
        push_be32(out, self.offset);
        push_be32(out, self.info);
        push_be32(out, self.addend as u32);
        assert(out@ =~= start + self.spec_bytes());
    }

    /// Decodes a record at `pos`; `None` where fewer than 0xc bytes remain.
    pub fn parse(s: &[u8], pos: usize) -> (r: Option<Rela>)
        ensures
            r == if pos + RELA_SIZE <= s@.len() {
                Some(Rela::spec_parse(s@, pos as int))
            } else {
                None::<Rela>
            },
    {
        if pos > s.len() || s.len() - pos < RELA_SIZE {
            return None;
        }
        Some(Rela {
            offset: read_be32(s, pos + 0),
            info: read_be32(s, pos + 4),
            addend: read_be32(s, pos + 8) as i32,
        })
    }

    /// The encoding is 0xc bytes long, and decoding it gives the record back.
    pub proof fn lemma_roundtrip(self)
        ensures
            self.spec_bytes().len() == RELA_SIZE,
            Rela::spec_parse(self.spec_bytes(), 0) == self,
    {
        let b = self.spec_bytes();
        lemma_i32_u32(self.addend);
        assert(b.len() == 12);
        assert(b.subrange(0, 4) =~= be32(self.offset));
        lemma_get32_of(b, 0, self.offset);
        assert(b.subrange(4, 8) =~= be32(self.info));
        lemma_get32_of(b, 4, self.info);
        assert(b.subrange(8, 12) =~= be32((self.addend as u32)));
        lemma_get32_of(b, 8, (self.addend as u32));
    }

    /// Encoding a decoded record gives back the bytes it was decoded from.
    pub proof fn lemma_parse_bytes(s: Seq<u8>, pos: int)
        requires
            0 <= pos,
            pos + RELA_SIZE <= s.len(),
        ensures
            Rela::spec_parse(s, pos).spec_bytes() == s.subrange(pos, pos + RELA_SIZE),
    {
        lemma_get32_bytes(s, pos + 0);
        lemma_get32_bytes(s, pos + 4);
        lemma_subrange_concat(s, pos, pos + 4, pos + 8);
        lemma_get32_bytes(s, pos + 8);
        lemma_u32_i32(get32(s, pos + 8));
        lemma_subrange_concat(s, pos, pos + 8, pos + 12);
    }
}

// ---------------------------------------------------------------- RplCrc

impl RplCrc {
    /// The encoding of the record.
    pub open spec fn spec_bytes(self) -> Seq<u8> {
        be32(self.crc)
    }

    /// The record decoded from `s[pos..pos + 0x4]`.
    pub open spec fn spec_parse(s: Seq<u8>, pos: int) -> RplCrc {
        RplCrc {
            crc: get32(s, pos + 0),
        }
    }

    /// Appends the encoding of the record.
    pub fn write_to(&self, out: &mut Vec<u8>)
        ensures
            final(out)@ == old(out)@ + self.spec_bytes(),
    {
        let ghost start = out@;
        push_be32(out, self.crc);
        assert(out@ =~= start + self.spec_bytes());
    }

    /// Decodes a record at `pos`; `None` where fewer than 0x4 bytes remain.
    pub fn parse(s: &[u8], pos: usize) -> (r: Option<RplCrc>)
        ensures
            r == if pos + RPL_CRC_SIZE <= s@.len() {
                Some(RplCrc::spec_parse(s@, pos as int))
            } else {
                None::<RplCrc>
            },
    {
        if pos > s.len() || s.len() - pos < RPL_CRC_SIZE {
            return None;
        }
        Some(RplCrc {
            crc: read_be32(s, pos + 0),
        })
    }

    /// The encoding is 0x4 bytes long, and decoding it gives the record back.
    pub proof fn lemma_roundtrip(self)
        ensures
            self.spec_bytes().len() == RPL_CRC_SIZE,
            RplCrc::spec_parse(self.spec_bytes(), 0) == self,
    {
        let b = self.spec_bytes();
        assert(b.len() == 4);
        assert(b.subrange(0, 4) =~= be32(self.crc));
        lemma_get32_of(b, 0, self.crc);
    }

    /// Encoding a decoded record gives back the bytes it was decoded from.
    pub proof fn lemma_parse_bytes(s: Seq<u8>, pos: int)
        requires
            0 <= pos,
            pos + RPL_CRC_SIZE <= s.len(),
        ensures
            RplCrc::spec_parse(s, pos).spec_bytes() == s.subrange(pos, pos + RPL_CRC_SIZE),
    {
        lemma_get32_bytes(s, pos + 0);
    }
}

// ---------------------------------------------------------------- RplFileInfo

impl RplFileInfo {
    /// The encoding of the record.
    pub open spec fn spec_bytes(self) -> Seq<u8> {
        be32(self.version) + be32(self.text_size) + be32(self.text_align) + be32(self.data_size) + be32(self.data_align) + be32(self.load_size) + be32(self.load_align) + be32(self.temp_size) + be32(self.tramp_adjust) + be32(self.sda_base) + be32(self.sda2_base) + be32(self.stack_size) + be32(self.filename) + be32(self.flags) + be32(self.heap_size) + be32(self.tag_offset) + be32(self.min_version) + be32(self.compression_level as u32) + be32(self.tramp_addition) + be32(self.file_info_pad) + be32(self.cafe_sdk_version) + be32(self.cafe_sdk_revision) + be16(self.tls_module_index) + be16(self.tls_align_shift) + be32(self.runtime_file_info_size)
    }

    /// The record decoded from `s[pos..pos + 0x60]`.
    pub open spec fn spec_parse(s: Seq<u8>, pos: int) -> RplFileInfo {
        RplFileInfo {
            version: get32(s, pos + 0),
            text_size: get32(s, pos + 4),
            text_align: get32(s, pos + 8),
            data_size: get32(s, pos + 12),
            data_align: get32(s, pos + 16),
            load_size: get32(s, pos + 20),
            load_align: get32(s, pos + 24),
            temp_size: get32(s, pos + 28),
            tramp_adjust: get32(s, pos + 32),
            sda_base: get32(s, pos + 36),
            sda2_base: get32(s, pos + 40),
            stack_size: get32(s, pos + 44),
            filename: get32(s, pos + 48),
            flags: get32(s, pos + 52),
            heap_size: get32(s, pos + 56),
            tag_offset: get32(s, pos + 60),
            min_version: get32(s, pos + 64),
            compression_level: get32(s, pos + 68) as i32,
            tramp_addition: get32(s, pos + 72),
            file_info_pad: get32(s, pos + 76),
            cafe_sdk_version: get32(s, pos + 80),
            cafe_sdk_revision: get32(s, pos + 84),
            tls_module_index: get16(s, pos + 88),
            tls_align_shift: get16(s, pos + 90),
            runtime_file_info_size: get32(s, pos + 92),
        }
    }

    /// Appends the encoding of the record.
    pub fn write_to(&self, out: &mut Vec<u8>)
        ensures
            final(out)@ == old(out)@ + self.spec_bytes(),
    {
        let ghost start = out@;
        push_be32(out, self.version);
        push_be32(out, self.text_size);
        push_be32(out, self.text_align);
        push_be32(out, self.data_size);
        push_be32(out, self.data_align);
        push_be32(out, self.load_size);
        push_be32(out, self.load_align);
        push_be32(out, self.temp_size);
        push_be32(out, self.tramp_adjust);
        push_be32(out, self.sda_base);
        push_be32(out, self.sda2_base);
        push_be32(out, self.stack_size);
        push_be32(out, self.filename);
        push_be32(out, self.flags);
        push_be32(out, self.heap_size);
        push_be32(out, self.tag_offset);
        push_be32(out, self.min_version);
        push_be32(out, self.compression_level as u32);
        push_be32(out, self.tramp_addition);
        push_be32(out, self.file_info_pad);
        push_be32(out, self.cafe_sdk_version);
        push_be32(out, self.cafe_sdk_revision);
        push_be16(out, self.tls_module_index);
        push_be16(out, self.tls_align_shift);
        push_be32(out, self.runtime_file_info_size);
        assert(out@ =~= start + self.spec_bytes());
    }

    /// Decodes a record at `pos`; `None` where fewer than 0x60 bytes remain.
    pub fn parse(s: &[u8], pos: usize) -> (r: Option<RplFileInfo>)
        ensures
            r == if pos + RPL_FILE_INFO_SIZE <= s@.len() {
                Some(RplFileInfo::spec_parse(s@, pos as int))
            } else {
                None::<RplFileInfo>
            },
    {
        if pos > s.len() || s.len() - pos < RPL_FILE_INFO_SIZE {
            return None;
        }
        Some(RplFileInfo {
            version: read_be32(s, pos + 0),
            text_size: read_be32(s, pos + 4),
            text_align: read_be32(s, pos + 8),
            data_size: read_be32(s, pos + 12),
            data_align: read_be32(s, pos + 16),
            load_size: read_be32(s, pos + 20),
            load_align: read_be32(s, pos + 24),
            temp_size: read_be32(s, pos + 28),
            tramp_adjust: read_be32(s, pos + 32),
            sda_base: read_be32(s, pos + 36),
            sda2_base: read_be32(s, pos + 40),
            stack_size: read_be32(s, pos + 44),
            filename: read_be32(s, pos + 48),
            flags: read_be32(s, pos + 52),
            heap_size: read_be32(s, pos + 56),
            tag_offset: read_be32(s, pos + 60),
            min_version: read_be32(s, pos + 64),
            compression_level: read_be32(s, pos + 68) as i32,
            tramp_addition: read_be32(s, pos + 72),
            file_info_pad: read_be32(s, pos + 76),
            cafe_sdk_version: read_be32(s, pos + 80),
            cafe_sdk_revision: read_be32(s, pos + 84),
            tls_module_index: read_be16(s, pos + 88),
            tls_align_shift: read_be16(s, pos + 90),
            runtime_file_info_size: read_be32(s, pos + 92),
        })
    }

    /// The encoding is 0x60 bytes long, and decoding it gives the record back.
    pub proof fn lemma_roundtrip(self)
        ensures
            self.spec_bytes().len() == RPL_FILE_INFO_SIZE,
            RplFileInfo::spec_parse(self.spec_bytes(), 0) == self,
    {
        let b = self.spec_bytes();
        lemma_i32_u32(self.compression_level);
        assert(b.len() == 96);
        assert(b.subrange(0, 4) =~= be32(self.version));
        lemma_get32_of(b, 0, self.version);
        assert(b.subrange(4, 8) =~= be32(self.text_size));
        lemma_get32_of(b, 4, self.text_size);
        assert(b.subrange(8, 12) =~= be32(self.text_align));
        lemma_get32_of(b, 8, self.text_align);
        assert(b.subrange(12, 16) =~= be32(self.data_size));
        lemma_get32_of(b, 12, self.data_size);
        assert(b.subrange(16, 20) =~= be32(self.data_align));
        lemma_get32_of(b, 16, self.data_align);
        assert(b.subrange(20, 24) =~= be32(self.load_size));
        lemma_get32_of(b, 20, self.load_size);
        assert(b.subrange(24, 28) =~= be32(self.load_align));
        lemma_get32_of(b, 24, self.load_align);
        assert(b.subrange(28, 32) =~= be32(self.temp_size));
        lemma_get32_of(b, 28, self.temp_size);
        assert(b.subrange(32, 36) =~= be32(self.tramp_adjust));
        lemma_get32_of(b, 32, self.tramp_adjust);
        assert(b.subrange(36, 40) =~= be32(self.sda_base));
        lemma_get32_of(b, 36, self.sda_base);
        assert(b.subrange(40, 44) =~= be32(self.sda2_base));
        lemma_get32_of(b, 40, self.sda2_base);
        assert(b.subrange(44, 48) =~= be32(self.stack_size));
        lemma_get32_of(b, 44, self.stack_size);
        assert(b.subrange(48, 52) =~= be32(self.filename));
        lemma_get32_of(b, 48, self.filename);
        assert(b.subrange(52, 56) =~= be32(self.flags));
        lemma_get32_of(b, 52, self.flags);
        assert(b.subrange(56, 60) =~= be32(self.heap_size));
        lemma_get32_of(b, 56, self.heap_size);
        assert(b.subrange(60, 64) =~= be32(self.tag_offset));
        lemma_get32_of(b, 60, self.tag_offset);
        assert(b.subrange(64, 68) =~= be32(self.min_version));
        lemma_get32_of(b, 64, self.min_version);
        assert(b.subrange(68, 72) =~= be32((self.compression_level as u32)));
        lemma_get32_of(b, 68, (self.compression_level as u32));
        assert(b.subrange(72, 76) =~= be32(self.tramp_addition));
        lemma_get32_of(b, 72, self.tramp_addition);
        assert(b.subrange(76, 80) =~= be32(self.file_info_pad));
        lemma_get32_of(b, 76, self.file_info_pad);
        assert(b.subrange(80, 84) =~= be32(self.cafe_sdk_version));
        lemma_get32_of(b, 80, self.cafe_sdk_version);
        assert(b.subrange(84, 88) =~= be32(self.cafe_sdk_revision));
        lemma_get32_of(b, 84, self.cafe_sdk_revision);
        assert(b.subrange(88, 90) =~= be16(self.tls_module_index));
        lemma_get16_of(b, 88, self.tls_module_index);
        assert(b.subrange(90, 92) =~= be16(self.tls_align_shift));
        lemma_get16_of(b, 90, self.tls_align_shift);
        assert(b.subrange(92, 96) =~= be32(self.runtime_file_info_size));
        lemma_get32_of(b, 92, self.runtime_file_info_size);
    }

    /// Encoding a decoded record gives back the bytes it was decoded from.
    pub proof fn lemma_parse_bytes(s: Seq<u8>, pos: int)
        requires
            0 <= pos,
            pos + RPL_FILE_INFO_SIZE <= s.len(),
        ensures
            RplFileInfo::spec_parse(s, pos).spec_bytes() == s.subrange(pos, pos + RPL_FILE_INFO_SIZE),
    {
        lemma_get32_bytes(s, pos + 0);
        lemma_get32_bytes(s, pos + 4);
        lemma_subrange_concat(s, pos, pos + 4, pos + 8);
        lemma_get32_bytes(s, pos + 8);
        lemma_subrange_concat(s, pos, pos + 8, pos + 12);
        lemma_get32_bytes(s, pos + 12);
        lemma_subrange_concat(s, pos, pos + 12, pos + 16);
        lemma_get32_bytes(s, pos + 16);
        lemma_subrange_concat(s, pos, pos + 16, pos + 20);
        lemma_get32_bytes(s, pos + 20);
        lemma_subrange_concat(s, pos, pos + 20, pos + 24);
        lemma_get32_bytes(s, pos + 24);
        lemma_subrange_concat(s, pos, pos + 24, pos + 28);
        lemma_get32_bytes(s, pos + 28);
        lemma_subrange_concat(s, pos, pos + 28, pos + 32);
        lemma_get32_bytes(s, pos + 32);
        lemma_subrange_concat(s, pos, pos + 32, pos + 36);
        lemma_get32_bytes(s, pos + 36);
        lemma_subrange_concat(s, pos, pos + 36, pos + 40);
        lemma_get32_bytes(s, pos + 40);
        lemma_subrange_concat(s, pos, pos + 40, pos + 44);
        lemma_get32_bytes(s, pos + 44);
        lemma_subrange_concat(s, pos, pos + 44, pos + 48);
        lemma_get32_bytes(s, pos + 48);
        lemma_subrange_concat(s, pos, pos + 48, pos + 52);
        lemma_get32_bytes(s, pos + 52);
        lemma_subrange_concat(s, pos, pos + 52, pos + 56);
        lemma_get32_bytes(s, pos + 56);
        lemma_subrange_concat(s, pos, pos + 56, pos + 60);
        lemma_get32_bytes(s, pos + 60);
        lemma_subrange_concat(s, pos, pos + 60, pos + 64);
        lemma_get32_bytes(s, pos + 64);
        lemma_subrange_concat(s, pos, pos + 64, pos + 68);
        lemma_get32_bytes(s, pos + 68);
        lemma_u32_i32(get32(s, pos + 68));
        lemma_subrange_concat(s, pos, pos + 68, pos + 72);
        lemma_get32_bytes(s, pos + 72);
        lemma_subrange_concat(s, pos, pos + 72, pos + 76);
        lemma_get32_bytes(s, pos + 76);
        lemma_subrange_concat(s, pos, pos + 76, pos + 80);
        lemma_get32_bytes(s, pos + 80);
        lemma_subrange_concat(s, pos, pos + 80, pos + 84);
        lemma_get32_bytes(s, pos + 84);
        lemma_subrange_concat(s, pos, pos + 84, pos + 88);
        lemma_get16_bytes(s, pos + 88);
        lemma_subrange_concat(s, pos, pos + 88, pos + 90);
        lemma_get16_bytes(s, pos + 90);
        lemma_subrange_concat(s, pos, pos + 90, pos + 92);
        lemma_get32_bytes(s, pos + 92);
        lemma_subrange_concat(s, pos, pos + 92, pos + 96);
    }
}


} // verus!
