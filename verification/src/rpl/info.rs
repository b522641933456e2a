//! The file information and CRC sections of the module.
use vstd::prelude::*;
use crate::elf::{
    RplFileInfo, SectionFlags, SectionHeader, SectionType, SHF_EMPTY, SHT_NOBITS, SHT_RPL_CRCS,
    SHT_RPL_FILEINFO,
};
use crate::external::{crc32, crc32_of};
use super::fixes::step_agrees;
use super::loader::{add_u32, add_u32_exec, round_up, round_up_exec};
use super::{
    encode_words, section_views, words_bytes, ElfFile, ElfFileView, RplError, Section,
    SectionData, SectionView, CODE_BASE_ADDRESS, DATA_BASE_ADDRESS, DISCARDED, LOAD_BASE_ADDRESS,
};

verus! {

/// The file information before the section sizes are added up.
pub open spec fn default_file_info(is_rpl: bool) -> RplFileInfo {
    RplFileInfo {
        version: 0xCAFE0402,
        text_size: 0,
        text_align: 32,
        data_size: 0,
        data_align: 4096,
        load_size: 0,
        load_align: 32,
        temp_size: 0,
        tramp_adjust: 0,
        sda_base: 0,
        sda2_base: 0,
        stack_size: 0x10000,
        filename: 0,
        flags: if is_rpl {
            0x2
        } else {
            0x0
        },
        heap_size: 0x8000,
        tag_offset: 0,
        min_version: 0x5078,
        compression_level: 6,
        tramp_addition: 0,
        file_info_pad: 0,
        cafe_sdk_version: 0x5335,
        cafe_sdk_revision: 0x10D4B,
        tls_module_index: 0,
        tls_align_shift: 0,
        runtime_file_info_size: 0,
    }
}

/// The larger of `a` and `b`.
pub open spec fn max_u32(a: u32, b: u32) -> u32 {
    if a >= b {
        a
    } else {
        b
    }
}

/// The segment sizes after counting section `s`: a section at address zero
/// takes its size and 128 bytes of temporary memory; a section in the text,
/// data or loader segment extends that segment up to its end.
pub open spec fn info_step(info: RplFileInfo, s: SectionView) -> Result<RplFileInfo, RplError> {
    if s.index == DISCARDED {
        Ok(info)
    } else {
        let size = if s.header.ty.0 == SHT_NOBITS {
            s.header.size
        } else {
            s.data.len() as u32
        };
        let addr = s.header.addr;
        if addr == 0 {
            match add_u32(size, 128) {
                Err(e) => Err(e),
                Ok(t) => match add_u32(info.temp_size, t) {
                    Err(e) => Err(e),
                    Ok(temp) => Ok(RplFileInfo { temp_size: temp, ..info }),
                },
            }
        } else if CODE_BASE_ADDRESS <= addr && addr < DATA_BASE_ADDRESS {
            match add_u32(addr, s.header.size) {
                Err(e) => Err(e),
                Ok(end) => Ok(
                    RplFileInfo {
                        text_size: max_u32(info.text_size, (end - CODE_BASE_ADDRESS) as u32),
                        ..info
                    },
                ),
            }
        } else if DATA_BASE_ADDRESS <= addr && addr < LOAD_BASE_ADDRESS {
            match add_u32(addr, s.header.size) {
                Err(e) => Err(e),
                Ok(end) => Ok(
                    RplFileInfo {
                        data_size: max_u32(info.data_size, (end - DATA_BASE_ADDRESS) as u32),
                        ..info
                    },
                ),
            }
        } else if LOAD_BASE_ADDRESS <= addr {
            match add_u32(addr, s.header.size) {
                Err(e) => Err(e),
                Ok(end) => Ok(
                    RplFileInfo {
                        load_size: max_u32(info.load_size, (end - LOAD_BASE_ADDRESS) as u32),
                        ..info
                    },
                ),
            }
        } else {
            Err(RplError::InvalidSectionAddress)
        }
    }
}

/// The file information after counting the first `k` sections.
pub open spec fn info_fold(info: RplFileInfo, secs: Seq<SectionView>, k: nat) -> Result<RplFileInfo, RplError>
    decreases k,
{
    if k == 0 {
        Ok(info)
    } else {
        match info_fold(info, secs, (k - 1) as nat) {
            Err(e) => Err(e),
            Ok(i) => info_step(i, secs[k - 1]),
        }
    }
}

/// The segment sizes rounded up to the segment alignments.
pub open spec fn round_sizes(info: RplFileInfo) -> Result<RplFileInfo, RplError> {
    match round_up(info.text_size, info.text_align) {
        Err(e) => Err(e),
        Ok(text) => match round_up(info.data_size, info.data_align) {
            Err(e) => Err(e),
            Ok(data) => match round_up(info.load_size, info.load_align) {
                Err(e) => Err(e),
                Ok(load) => Ok(
                    RplFileInfo { text_size: text, data_size: data, load_size: load, ..info },
                ),
            },
        },
    }
}

/// The file information of the module made from `secs`.
pub open spec fn file_info(secs: Seq<SectionView>, is_rpl: bool) -> Result<RplFileInfo, RplError> {
    match info_fold(default_file_info(is_rpl), secs, secs.len()) {
        Err(e) => Err(e),
        Ok(info) => round_sizes(info),
    }
}

/// The header of a section the module adds, of type `ty`.
pub open spec fn added_section_header(ty: u32, entsize: u32) -> SectionHeader {
    SectionHeader {
        name: 0,
        ty: SectionType(ty),
        flags: SectionFlags(SHF_EMPTY),
        addr: 0,
        offset: 0,
        size: 0,
        link: 0,
        info: 0,
        addralign: 4,
        entsize,
    }
}

/// The file with its file information section appended.
pub open spec fn spec_generate_file_info_section(e: ElfFileView, is_rpl: bool) -> Result<ElfFileView, RplError> {
    match file_info(e.sections, is_rpl) {
        Err(err) => Err(err),
        Ok(info) => {
            let s = SectionView {
                header: added_section_header(SHT_RPL_FILEINFO, 0),
                name: Seq::empty(),
                data: info.spec_bytes(),
                index: e.sections.len() as usize,
            };
            if e.header.shnum + 1 > u16::MAX {
                Err(RplError::Overflow)
            } else {
                Ok(
                    ElfFileView {
                        header: crate::elf::Header { shnum: (e.header.shnum + 1) as u16, ..e.header },
                        sections: e.sections.push(s),
                        ..e
                    },
                )
            }
        },
    }
}

/// The checksum of a section: the CRC-32 of its contents, zero where it has none.
pub open spec fn section_crc(s: SectionView) -> u32 {
    if s.data.len() > 0 {
        crc32_of(s.data)
    } else {
        0
    }
}

/// The checksums of the kept sections, in order.
pub open spec fn kept_crcs(secs: Seq<SectionView>) -> Seq<u32>
    decreases secs.len(),
{
    if secs.len() == 0 {
        Seq::empty()
    } else {
        let p = kept_crcs(secs.drop_last());
        if secs.last().index == DISCARDED {
            p
        } else {
            p.push(section_crc(secs.last()))
        }
    }
}

/// The CRC table: the checksums with a zero entry, for the CRC section
/// itself, before the last one.
pub open spec fn with_crc_slot(crcs: Seq<u32>) -> Seq<u32> {
    if crcs.len() > 0 {
        crcs.insert(crcs.len() - 1, 0)
    } else {
        seq![0u32]
    }
}

/// The file with its CRC section inserted before the last section.
pub open spec fn spec_generate_crc_section(e: ElfFileView) -> Result<ElfFileView, RplError> {
    let s = SectionView {
        header: added_section_header(SHT_RPL_CRCS, 4),
        name: Seq::empty(),
        data: words_bytes(with_crc_slot(kept_crcs(e.sections))),
        index: e.sections.len() as usize,
    };
    if e.header.shnum + 1 > u16::MAX {
        Err(RplError::Overflow)
    } else {
        Ok(
            ElfFileView {
                header: crate::elf::Header { shnum: (e.header.shnum + 1) as u16, ..e.header },
                sections: e.sections.insert(e.sections.len() - 1, s),
                ..e
            },
        )
    }
}

/// The contents of the CRC section for the checksums `crcs` of the kept
/// sections: a zero entry goes before the last checksum, and the entries are
/// stored big-endian.
pub fn crc_section_data(crcs: Vec<u32>) -> (r: Vec<u8>)
    ensures
        r@ == words_bytes(with_crc_slot(crcs@)),
{
    let mut crcs = crcs;
    if crcs.len() > 0 {
        let last = crcs.len() - 1;
        crcs.insert(last, 0);
    } else {
        crcs.push(0);
        assert(crcs@ =~= seq![0u32]);
    }
    encode_words(&crcs)
}

fn info_step_exec(info: &mut RplFileInfo, s: &Section) -> (r: Result<(), RplError>)
    ensures
        match info_step(*old(info), s@) {
            Ok(v) => r is Ok && *final(info) == v,
            Err(e) => r == Err::<(), RplError>(e),
        },
{
    if s.index == DISCARDED {
        return Ok(());
    }
    let size = if s.header.ty.0 == SHT_NOBITS {
        s.header.size
    } else {
        s.data.len() as u32
    };
    let addr = s.header.addr;
    if addr == 0 {
        let t = add_u32_exec(size, 128)?;
        info.temp_size = add_u32_exec(info.temp_size, t)?;
    } else if CODE_BASE_ADDRESS <= addr && addr < DATA_BASE_ADDRESS {
        let end = add_u32_exec(addr, s.header.size)?;
        let v = end - CODE_BASE_ADDRESS;
        if v > info.text_size {
            info.text_size = v;
        }
    } else if DATA_BASE_ADDRESS <= addr && addr < LOAD_BASE_ADDRESS {
        let end = add_u32_exec(addr, s.header.size)?;
        let v = end - DATA_BASE_ADDRESS;
        if v > info.data_size {
            info.data_size = v;
        }
    } else if LOAD_BASE_ADDRESS <= addr {
        let end = add_u32_exec(addr, s.header.size)?;
        let v = end - LOAD_BASE_ADDRESS;
        if v > info.load_size {
            info.load_size = v;
        }
    } else {
        return Err(RplError::InvalidSectionAddress);
    }
    Ok(())
}

proof fn lemma_info_fold_err(info: RplFileInfo, secs: Seq<SectionView>, m: nat, n: nat)
    requires
        m <= n,
        info_fold(info, secs, m) is Err,
    ensures
        info_fold(info, secs, n) == info_fold(info, secs, m),
    decreases n,
{
    if n > m {
        lemma_info_fold_err(info, secs, m, (n - 1) as nat);
    }
}

fn file_info_exec(sections: &Vec<Section>, is_rpl: bool) -> (r: Result<RplFileInfo, RplError>)
    ensures
        r == file_info(section_views(sections@), is_rpl),
{
    let ghost secs = section_views(sections@);
    let mut info = RplFileInfo {
        version: 0xCAFE0402,
        text_size: 0,
        text_align: 32,
        data_size: 0,
        data_align: 4096,
        load_size: 0,
        load_align: 32,
        temp_size: 0,
        tramp_adjust: 0,
        sda_base: 0,
        sda2_base: 0,
        stack_size: 0x10000,
        filename: 0,
        flags: if is_rpl {
            0x2
        } else {
            0x0
        },
        heap_size: 0x8000,
        tag_offset: 0,
        min_version: 0x5078,
        compression_level: 6,
        tramp_addition: 0,
        file_info_pad: 0,
        cafe_sdk_version: 0x5335,
        cafe_sdk_revision: 0x10D4B,
        tls_module_index: 0,
        tls_align_shift: 0,
        runtime_file_info_size: 0,
    };
    let mut k: usize = 0;
    while k < sections.len()
        invariant
            k <= sections@.len(),
            secs == section_views(sections@),
            info_fold(default_file_info(is_rpl), secs, k as nat) == Ok::<RplFileInfo, RplError>(
                info,
            ),
        decreases sections@.len() - k,
    {
        assert(sections@[k as int]@ == secs[k as int]);
        match info_step_exec(&mut info, &sections[k]) {
            Ok(()) => {},
            Err(e) => {
                proof {
                    lemma_info_fold_err(
                        default_file_info(is_rpl),
                        secs,
                        (k + 1) as nat,
                        sections@.len(),
                    );
                }
                return Err(e);
            },
        }
        k = k + 1;
    }
    info.text_size = round_up_exec(info.text_size, info.text_align)?;
    info.data_size = round_up_exec(info.data_size, info.data_align)?;
    info.load_size = round_up_exec(info.load_size, info.load_align)?;
    Ok(info)
}

fn kept_crcs_exec(sections: &Vec<Section>) -> (r: Vec<u32>)
    ensures
        r@ == kept_crcs(section_views(sections@)),
{
    let ghost secs = section_views(sections@);
    let mut crcs: Vec<u32> = Vec::new();
    let mut k: usize = 0;
    assert(secs.take(0) =~= Seq::<SectionView>::empty());
    while k < sections.len()
        invariant
            k <= sections@.len(),
            secs == section_views(sections@),
            crcs@ == kept_crcs(secs.take(k as int)),
        decreases sections@.len() - k,
    {
        assert(secs.take(k + 1).drop_last() =~= secs.take(k as int));
        assert(sections@[k as int]@ == secs[k as int]);
        if sections[k].index != DISCARDED {
            let mut crc: u32 = 0;
            if sections[k].data.len() > 0 {
                crc = crc32(sections[k].data.as_bytes());
            }
            crcs.push(crc);
        }
        k = k + 1;
    }
    assert(secs.take(sections@.len() as int) =~= secs);
    crcs
}

impl ElfFile {
    /// Appends the file information section, whose record holds the sizes
    /// of the module's segments.
    pub fn generate_file_info_section(&mut self, is_rpl: bool) -> (r: Result<(), RplError>)
        ensures
            step_agrees(r, final(self)@, spec_generate_file_info_section(old(self)@, is_rpl)),
    {
        let info = match file_info_exec(&self.sections, is_rpl) {
            Ok(info) => info,
            Err(e) => {
                return Err(e);
            },
        };
        let mut bytes: Vec<u8> = Vec::new();
        info.write_to(&mut bytes);
        assert(bytes@ =~= info.spec_bytes());
        let index = self.sections.len();
        let ghost prev = self.sections@;
        self.sections.push(
            Section {
                header: SectionHeader {
                    name: 0,
                    ty: SectionType(SHT_RPL_FILEINFO),
                    flags: SectionFlags(SHF_EMPTY),
                    addr: 0,
                    offset: 0,
                    size: 0,
                    link: 0,
                    info: 0,
                    addralign: 4,
                    entsize: 0,
                },
                name: Vec::new(),
                data: SectionData::new(bytes),
                index,
            },
        );
        assert(section_views(self.sections@) =~= section_views(prev).push(self.sections@.last()@));
        if self.header.shnum == u16::MAX {
            return Err(RplError::Overflow);
        }
        self.header.shnum = self.header.shnum + 1;
        Ok(())
    }

    /// Inserts the CRC section, which holds the checksum of every kept
    /// section, before the last section.
    pub fn generate_crc_section(&mut self) -> (r: Result<(), RplError>)
        requires
            old(self).sections@.len() >= 1,
        ensures
            step_agrees(r, final(self)@, spec_generate_crc_section(old(self)@)),
    {
        let crcs = kept_crcs_exec(&self.sections);
        let data = crc_section_data(crcs);
        let index = self.sections.len();
        let ghost prev = self.sections@;
        let section = Section {
            header: SectionHeader {
                name: 0,
                ty: SectionType(SHT_RPL_CRCS),
                flags: SectionFlags(SHF_EMPTY),
                addr: 0,
                offset: 0,
                size: 0,
                link: 0,
                info: 0,
                addralign: 4,
                entsize: 4,
            },
            name: Vec::new(),
            data: SectionData::new(data),
            index,
        };
        let ghost sv = section@;
        self.sections.insert(index - 1, section);
        assert(section_views(self.sections@) =~= section_views(prev).insert(index - 1, sv));
        if self.header.shnum == u16::MAX {
            return Err(RplError::Overflow);
        }
        self.header.shnum = self.header.shnum + 1;
        Ok(())
    }
}

} // verus!
