//! Reading the sections of a PowerPC ELF file.
use vstd::prelude::*;
use crate::bytes::{copy_range, has_prefix, starts_with};
use crate::elf::{
    Header, SectionFlags, SectionHeader, SectionType, CLASS_B32, DATA_MSB, HEADER_SIZE, MACHINE_PPC,
    MAGIC_ELF, SHF_WRITE, SHT_NULL, SHT_RELA,
};
use crate::external::utf8_valid;
use vstd::utf8::valid_utf8;
use super::{
    lemma_try_seq_err, lemma_try_seq_ok, lemma_try_seq_step, section_views, try_seq, ElfFile,
    ElfFileView, RplError, Section, SectionData, SectionView, DATA_BASE_ADDRESS, DISCARDED,
    LOAD_BASE_ADDRESS,
};

verus! {

/// The header checks, in the order in which they are made.
pub open spec fn check_header(h: Header) -> Result<(), RplError> {
    if h.magic.0 != MAGIC_ELF {
        Err(RplError::InvalidMagic)
    } else if h.file_class.0 != CLASS_B32 {
        Err(RplError::InvalidClass)
    } else if h.encoding.0 != DATA_MSB {
        Err(RplError::InvalidEncoding)
    } else if h.machine.0 != MACHINE_PPC {
        Err(RplError::InvalidMachine)
    } else if h.elf_version != 1 {
        Err(RplError::InvalidIdentVersion)
    } else if h.version != 1 {
        Err(RplError::InvalidVersion)
    } else {
        Ok(())
    }
}

/// Sections loaded into the data segment are writable.
pub open spec fn mark_writable(sh: SectionHeader) -> SectionHeader {
    if DATA_BASE_ADDRESS <= sh.addr && sh.addr < LOAD_BASE_ADDRESS {
        SectionHeader { flags: SectionFlags(sh.flags.0 | SHF_WRITE), ..sh }
    } else {
        sh
    }
}

/// The `k`-th section as the file stores it, not yet named.
pub open spec fn raw_section(file: Seq<u8>, shoff: u32, k: int) -> Result<SectionView, RplError> {
    let pos = shoff + 40 * k;
    if pos + 40 > file.len() {
        Err(RplError::TruncatedSectionHeader)
    } else {
        let sh = SectionHeader::spec_parse(file, pos);
        let end = sh.offset + sh.size;
        if end > file.len() {
            Err(RplError::SectionOutOfBounds)
        } else {
            Ok(
                SectionView {
                    header: mark_writable(sh),
                    name: Seq::empty(),
                    data: file.subrange(sh.offset as int, end),
                    index: 0,
                },
            )
        }
    }
}

/// The zero-terminated string that starts at `start` in `table`, without its
/// terminator; `None` where `start` lies past the table or no zero byte follows.
pub open spec fn c_string_at(table: Seq<u8>, start: int) -> Option<Seq<u8>> {
    if 0 <= start <= table.len() && exists|i: int|
        start <= i < table.len() && table[i] == 0 && (forall|j: int|
            start <= j < i ==> #[trigger] table[j] != 0) {
        let end = choose|i: int|
            start <= i < table.len() && table[i] == 0 && (forall|j: int|
                start <= j < i ==> #[trigger] table[j] != 0);
        Some(table.subrange(start, end))
    } else {
        None
    }
}

/// The name stored at `start` in the section name string table.
pub open spec fn section_name(table: Seq<u8>, start: int) -> Result<Seq<u8>, RplError> {
    match c_string_at(table, start) {
        None => Err(RplError::InvalidSectionName),
        Some(n) => if valid_utf8(n) {
            Ok(n)
        } else {
            Err(RplError::SectionNameNotUtf8)
        },
    }
}

/// `raw` with the name of its `k`-th section looked up in `table`.
pub open spec fn named_section(raw: Seq<SectionView>, table: Seq<u8>, k: int) -> Result<SectionView, RplError> {
    match section_name(table, raw[k].header.name as int) {
        Ok(n) => Ok(SectionView { name: n, ..raw[k] }),
        Err(e) => Err(e),
    }
}

/// `.debug_`
pub open spec fn debug_prefix() -> Seq<u8> {
    seq![46u8, 100u8, 101u8, 98u8, 117u8, 103u8, 95u8]
}

/// The name that decides whether section `i` is left out: a relocation
/// section goes with the section it relocates.
pub open spec fn deciding_name(secs: Seq<SectionView>, i: int) -> Result<Seq<u8>, RplError> {
    if secs[i].header.ty.0 == SHT_RELA {
        if secs[i].header.info < secs.len() {
            Ok(secs[secs[i].header.info as int].name)
        } else {
            Err(RplError::InvalidRelocationTarget)
        }
    } else {
        Ok(secs[i].name)
    }
}

/// Whether section `i` holds debugging information and is left out.
pub open spec fn is_debug_section(secs: Seq<SectionView>, i: int) -> Result<bool, RplError> {
    match deciding_name(secs, i) {
        Ok(n) => Ok(starts_with(n, debug_prefix())),
        Err(e) => Err(e),
    }
}

/// Number of sections that are kept among `discards`.
pub open spec fn count_kept(discards: Seq<bool>) -> nat
    decreases discards.len(),
{
    if discards.len() == 0 {
        0
    } else {
        count_kept(discards.drop_last()) + if discards.last() {
            0nat
        } else {
            1nat
        }
    }
}

pub proof fn lemma_count_kept_bound(discards: Seq<bool>)
    ensures
        count_kept(discards) <= discards.len(),
    decreases discards.len(),
{
    if discards.len() > 0 {
        lemma_count_kept_bound(discards.drop_last());
    }
}

/// A section left out of the output: no type, address, place or contents.
pub open spec fn discard_section(s: SectionView) -> SectionView {
    SectionView {
        header: SectionHeader { ty: SectionType(SHT_NULL), addr: 0, offset: 0, size: 0, ..s.header },
        data: Seq::empty(),
        index: DISCARDED,
        ..s
    }
}

/// The sections after leaving out those marked in `discards`; the others are
/// numbered consecutively.
pub open spec fn apply_discards(secs: Seq<SectionView>, discards: Seq<bool>) -> Seq<SectionView> {
    Seq::new(
        secs.len(),
        |i: int|
            if discards[i] {
                discard_section(secs[i])
            } else {
                SectionView { index: count_kept(discards.take(i)) as usize, ..secs[i] }
            },
    )
}

/// The section reader for the section header table at `shoff`.
pub open spec fn raw_fn(file: Seq<u8>, shoff: u32) -> spec_fn(int) -> Result<SectionView, RplError> {
    |k: int| raw_section(file, shoff, k)
}

/// The section namer for the sections `raw` with string table `table`.
pub open spec fn name_fn(raw: Seq<SectionView>, table: Seq<u8>) -> spec_fn(int) -> Result<SectionView, RplError> {
    |k: int| named_section(raw, table, k)
}

/// Which of `secs` hold debugging information.
pub open spec fn debug_fn(secs: Seq<SectionView>) -> spec_fn(int) -> Result<bool, RplError> {
    |i: int| is_debug_section(secs, i)
}

/// The file as read from `file`: its header, its sections with their names,
/// and the debugging sections left out.
pub open spec fn spec_read(file: Seq<u8>) -> Result<ElfFileView, RplError> {
    if file.len() < HEADER_SIZE {
        Err(RplError::TruncatedHeader)
    } else {
        let h = Header::spec_parse(file, 0);
        match check_header(h) {
            Err(e) => Err(e),
            Ok(_) => match try_seq(h.shnum as nat, raw_fn(file, h.shoff)) {
                Err(e) => Err(e),
                Ok(raw) => if h.shstrndx >= raw.len() {
                    Err(RplError::InvalidStringTableIndex)
                } else {
                    match try_seq(raw.len(), name_fn(raw, raw[h.shstrndx as int].data)) {
                        Err(e) => Err(e),
                        Ok(named) => match try_seq(named.len(), debug_fn(named)) {
                            Err(e) => Err(e),
                            Ok(discards) => Ok(
                                ElfFileView {
                                    header: h,
                                    sections: apply_discards(named, discards),
                                    num_discarded_sections: (discards.len() - count_kept(
                                        discards,
                                    )) as usize,
                                },
                            ),
                        },
                    }
                },
            },
        }
    }
}

/// Whether `r` is what `spec` says: the same value where `spec` succeeds,
/// the same error where it fails.
pub open spec fn agrees<T: View>(r: Result<T, RplError>, spec: Result<T::V, RplError>) -> bool {
    match spec {
        Ok(v) => r is Ok && r->Ok_0@ == v,
        Err(e) => r == Err::<T, RplError>(e),
    }
}

fn check_header_exec(h: &Header) -> (r: Result<(), RplError>)
    ensures
        r == check_header(*h),
{
    if h.magic.0 != MAGIC_ELF {
        Err(RplError::InvalidMagic)
    } else if h.file_class.0 != CLASS_B32 {
        Err(RplError::InvalidClass)
    } else if h.encoding.0 != DATA_MSB {
        Err(RplError::InvalidEncoding)
    } else if h.machine.0 != MACHINE_PPC {
        Err(RplError::InvalidMachine)
    } else if h.elf_version != 1 {
        Err(RplError::InvalidIdentVersion)
    } else if h.version != 1 {
        Err(RplError::InvalidVersion)
    } else {
        Ok(())
    }
}

fn read_raw_section(file: &[u8], shoff: u32, k: u16) -> (r: Result<Section, RplError>)
    ensures
        agrees(r, raw_section(file@, shoff, k as int)),
{
    let pos: u64 = shoff as u64 + 40 * (k as u64);
    if pos + 40 > file.len() as u64 {
        return Err(RplError::TruncatedSectionHeader);
    }
    let sh = match SectionHeader::parse(file, pos as usize) {
        Some(sh) => sh,
        None => {
            return Err(RplError::TruncatedSectionHeader);
        },
    };
    let end: u64 = sh.offset as u64 + sh.size as u64;
    if end > file.len() as u64 {
        return Err(RplError::SectionOutOfBounds);
    }
    let mut header = sh;
    if DATA_BASE_ADDRESS <= sh.addr && sh.addr < LOAD_BASE_ADDRESS {
        header.flags = SectionFlags(sh.flags.0 | SHF_WRITE);
    }
    let data = copy_range(file, sh.offset as usize, end as usize);
    Ok(Section { header, name: Vec::new(), data: SectionData::new(data), index: 0 })
}

/// The zero-terminated string at `start` in `table`, without its terminator.
pub fn c_string(table: &[u8], start: usize) -> (r: Option<Vec<u8>>)
    ensures
        r matches Some(v) ==> c_string_at(table@, start as int) == Some(v@),
        r is None ==> c_string_at(table@, start as int) is None,
{
    if start > table.len() {
        return None;
    }
    let mut i = start;
    while i < table.len() && table[i] != 0
        invariant
            start <= i <= table@.len(),
            forall|j: int| start <= j < i ==> #[trigger] table@[j] != 0,
        decreases table@.len() - i,
    {
        i = i + 1;
    }
    if i == table.len() {
        return None;
    }
    let ghost t = table@;
    let ghost pred = |x: int|
        start <= x < t.len() && t[x] == 0 && (forall|j: int| start <= j < x ==> #[trigger] t[j] != 0);
    assert(pred(i as int));
    proof {
        let end = choose|x: int|
            start <= x < t.len() && t[x] == 0 && (forall|j: int| start <= j < x ==> #[trigger] t[j] != 0);
        assert(pred(end));
        if end < i {
            assert(t[end] != 0);
        }
        if end > i {
            assert(t[i as int] != 0);
        }
        assert(end == i);
    }
    Some(copy_range(table, start, i))
}

fn read_section_name(table: &[u8], start: u32) -> (r: Result<Vec<u8>, RplError>)
    ensures
        match section_name(table@, start as int) {
            Ok(n) => r is Ok && r->Ok_0@ == n,
            Err(e) => r == Err::<Vec<u8>, RplError>(e),
        },
{
    match c_string(table, start as usize) {
        None => Err(RplError::InvalidSectionName),
        Some(n) => if utf8_valid(n.as_slice()) {
            Ok(n)
        } else {
            Err(RplError::SectionNameNotUtf8)
        },
    }
}

/// Whether `name` starts with `.debug_`.
pub fn is_debug_name(name: &[u8]) -> (r: bool)
    ensures
        r == starts_with(name@, debug_prefix()),
{
    let lit: [u8; 7] = [46u8, 100u8, 101u8, 98u8, 117u8, 103u8, 95u8];
    assert(lit@ =~= debug_prefix());
    has_prefix(name, &lit)
}

fn read_raw_sections(file: &[u8], header: &Header) -> (r: Result<Vec<Section>, RplError>)
    ensures
        match try_seq(header.shnum as nat, raw_fn(file@, header.shoff)) {
            Ok(v) => r is Ok && section_views(r->Ok_0@) == v,
            Err(e) => r == Err::<Vec<Section>, RplError>(e),
        },
{
    let ghost f = raw_fn(file@, header.shoff);
    let mut sections: Vec<Section> = Vec::new();
    assert(section_views(sections@) =~= Seq::<SectionView>::empty());
    let mut k: u16 = 0;
    while k < header.shnum
        invariant
            k <= header.shnum,
            f == raw_fn(file@, header.shoff),
            try_seq(k as nat, f) == Ok::<Seq<SectionView>, RplError>(section_views(sections@)),
        decreases header.shnum - k,
    {
        let s = read_raw_section(file, header.shoff, k);
        proof {
            lemma_try_seq_step(k as nat, f);
        }
        match s {
            Ok(s) => {
                let ghost prev = sections@;
                sections.push(s);
                assert(section_views(sections@) =~= section_views(prev).push(s@));
            },
            Err(e) => {
                proof {
                    lemma_try_seq_err((k + 1) as nat, header.shnum as nat, f);
                }
                return Err(e);
            },
        }
        k = k + 1;
    }
    Ok(sections)
}

fn name_sections(sections: &mut Vec<Section>, table: &[u8]) -> (r: Result<(), RplError>)
    ensures
        final(sections)@.len() == old(sections)@.len(),
        match try_seq(old(sections)@.len(), name_fn(section_views(old(sections)@), table@)) {
            Ok(v) => r is Ok && section_views(final(sections)@) == v,
            Err(e) => r == Err::<(), RplError>(e),
        },
{
    let ghost raw = section_views(sections@);
    let ghost f = name_fn(raw, table@);
    let n = sections.len();
    assert(section_views(sections@).take(0) =~= Seq::<SectionView>::empty());
    let mut i: usize = 0;
    while i < n
        invariant
            i <= n,
            n == sections@.len(),
            n == raw.len(),
            raw == section_views(old(sections)@),
            f == name_fn(raw, table@),
            try_seq(i as nat, f) == Ok::<Seq<SectionView>, RplError>(
                section_views(sections@).take(i as int),
            ),
            forall|j: int| i <= j < n ==> #[trigger] sections@[j]@ == raw[j],
        decreases n - i,
    {
        assert(sections@[i as int]@ == raw[i as int]);
        let nm = read_section_name(table, sections[i].header.name);
        proof {
            lemma_try_seq_step(i as nat, f);
        }
        match nm {
            Ok(nm) => {
                let ghost prev = sections@;
                sections[i].name = nm;
                assert(section_views(sections@).take(i as int) =~= section_views(prev).take(i as int));
                assert(section_views(sections@).take(i + 1) =~= section_views(sections@).take(
                    i as int,
                ).push(sections@[i as int]@));
            },
            Err(e) => {
                proof {
                    lemma_try_seq_err((i + 1) as nat, n as nat, f);
                }
                return Err(e);
            },
        }
        i = i + 1;
    }
    assert(section_views(sections@).take(n as int) =~= section_views(sections@));
    Ok(())
}

fn debug_flags(sections: &Vec<Section>) -> (r: Result<Vec<bool>, RplError>)
    ensures
        match try_seq(sections@.len(), debug_fn(section_views(sections@))) {
            Ok(v) => r is Ok && r->Ok_0@ == v,
            Err(e) => r == Err::<Vec<bool>, RplError>(e),
        },
{
    let ghost secs = section_views(sections@);
    let ghost f = debug_fn(secs);
    let n = sections.len();
    let mut discards: Vec<bool> = Vec::new();
    assert(discards@ =~= Seq::<bool>::empty());
    let mut i: usize = 0;
    while i < n
        invariant
            i <= n,
            n == sections@.len(),
            secs == section_views(sections@),
            f == debug_fn(secs),
            try_seq(i as nat, f) == Ok::<Seq<bool>, RplError>(discards@),
        decreases n - i,
    {
        proof {
            lemma_try_seq_step(i as nat, f);
        }
        let flag = if sections[i].header.ty.0 == SHT_RELA {
            let t = sections[i].header.info as usize;
            if t >= n {
                proof {
                    lemma_try_seq_err((i + 1) as nat, n as nat, f);
                }
                return Err(RplError::InvalidRelocationTarget);
            }
            is_debug_name(sections[t].name.as_slice())
        } else {
            is_debug_name(sections[i].name.as_slice())
        };
        discards.push(flag);
        i = i + 1;
    }
    Ok(discards)
}

fn discard_debug_sections(sections: &mut Vec<Section>, discards: &Vec<bool>) -> (num_discarded: usize)
    requires
        discards@.len() == old(sections)@.len(),
    ensures
        section_views(final(sections)@) == apply_discards(section_views(old(sections)@), discards@),
        num_discarded == discards@.len() - count_kept(discards@),
{
    let ghost named = section_views(sections@);
    let n = sections.len();
    let mut valid_index: usize = 0;
    let mut num_discarded_sections: usize = 0;
    let mut i: usize = 0;
    while i < n
        invariant
            i <= n,
            n == sections@.len(),
            n == named.len(),
            discards@.len() == n,
            valid_index == count_kept(discards@.take(i as int)),
            valid_index + num_discarded_sections == i,
            forall|j: int| 0 <= j < i ==> #[trigger] sections@[j]@ == apply_discards(
                named,
                discards@,
            )[j],
            forall|j: int| i <= j < n ==> #[trigger] sections@[j]@ == named[j],
        decreases n - i,
    {
        assert(discards@.take(i + 1).drop_last() =~= discards@.take(i as int));
        assert(sections@[i as int]@ == named[i as int]);
        proof {
            lemma_count_kept_bound(discards@.take(i as int));
        }
        if discards[i] {
            sections[i].header.ty = SectionType(SHT_NULL);
            sections[i].header.addr = 0;
            sections[i].header.offset = 0;
            sections[i].header.size = 0;
            sections[i].data.clear();
            sections[i].index = DISCARDED;
            num_discarded_sections = num_discarded_sections + 1;
        } else {
            sections[i].index = valid_index;
            valid_index = valid_index + 1;
        }
        i = i + 1;
    }
    assert(section_views(sections@) =~= apply_discards(named, discards@));
    assert(discards@.take(n as int) =~= discards@);
    num_discarded_sections
}

impl ElfFile {
    /// Reads the file: checks that it is a big-endian 32-bit PowerPC ELF
    /// file, reads its sections and their names, and leaves out the sections
    /// that hold debugging information.
    pub fn read(file: &[u8]) -> (r: Result<ElfFile, RplError>)
        ensures
            agrees(r, spec_read(file@)),
    {
        let header = match Header::parse(file, 0) {
            Some(h) => h,
            None => {
                return Err(RplError::TruncatedHeader);
            },
        };
        match check_header_exec(&header) {
            Ok(()) => {},
            Err(e) => {
                return Err(e);
            },
        }
        let mut sections = match read_raw_sections(file, &header) {
            Ok(s) => s,
            Err(e) => {
                return Err(e);
            },
        };
        let n = sections.len();
        if header.shstrndx as usize >= n {
            return Err(RplError::InvalidStringTableIndex);
        }
        let table = sections[header.shstrndx as usize].data.as_vec();
        match name_sections(&mut sections, table.as_slice()) {
            Ok(()) => {},
            Err(e) => {
                return Err(e);
            },
        }
        let discards = match debug_flags(&sections) {
            Ok(d) => d,
            Err(e) => {
                return Err(e);
            },
        };
        proof {
            lemma_try_seq_ok(n as nat, debug_fn(section_views(sections@)));
        }
        let num_discarded_sections = discard_debug_sections(&mut sections, &discards);
        Ok(ElfFile { header, sections, num_discarded_sections })
    }
}

} // verus!
