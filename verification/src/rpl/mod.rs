//! Conversion of a PowerPC ELF executable into a Cafe OS module (RPX / RPL).
use vstd::prelude::*;
use crate::bytes::{be32, lemma_subrange_concat, push_be32};
use crate::elf::{Header, Rela, SectionHeader, Symbol, RELA_SIZE, SYMBOL_SIZE};
use self::fixes::{
    spec_fix_file_header, spec_fix_relocations, spec_fix_section_flags, spec_fix_section_types,
    relocation_fn,
};
use self::info::{spec_generate_crc_section, spec_generate_file_info_section};
use self::layout::{spec_calculate_section_offsets, spec_deflate_sections, spec_write};
use self::loader::{
    initial_load_max, lemma_loader_fold_len, spec_fix_loader_virtual_addresses,
};
use self::read::{debug_fn, lemma_count_kept_bound, name_fn, raw_fn, spec_read};

pub mod read;
pub mod fixes;
pub mod loader;
pub mod info;
pub mod layout;
pub mod laws;

verus! {

/// Start of the code (text) segment in the module's address space.
pub const CODE_BASE_ADDRESS: u32 = 0x02000000;
/// Start of the data segment.
pub const DATA_BASE_ADDRESS: u32 = 0x10000000;
/// Start of the loader-only segment.
pub const LOAD_BASE_ADDRESS: u32 = 0xC0000000;
/// Sections shorter than this are stored uncompressed.
pub const DEFLATE_MIN_SECTION_SIZE: usize = 0x18;
/// The `index` of a section that is left out of the output.
pub const DISCARDED: usize = usize::MAX;

/// Why a conversion was refused.
#[derive(PartialEq, Eq, Structural, Clone, Copy, Debug)]
pub enum RplError {
    /// The input is shorter than an ELF header.
    TruncatedHeader,
    /// The input does not start with the ELF magic.
    InvalidMagic,
    /// The input is not a 32-bit ELF file.
    InvalidClass,
    /// The input is not big-endian.
    InvalidEncoding,
    /// The input is not for PowerPC.
    InvalidMachine,
    /// The identification version is not 1.
    InvalidIdentVersion,
    /// The ELF version is not 1.
    InvalidVersion,
    /// A section header lies past the end of the input.
    TruncatedSectionHeader,
    /// A section's contents lie past the end of the input.
    SectionOutOfBounds,
    /// The section name string table index names no section.
    InvalidStringTableIndex,
    /// A section name does not start within the string table or is not
    /// terminated by a zero byte.
    InvalidSectionName,
    /// A section name is not UTF-8.
    SectionNameNotUtf8,
    /// A relocation section refers to a section that does not exist.
    InvalidRelocationTarget,
    /// A relocation of this type cannot be converted.
    UnsupportedRelocation(u32),
    /// An address, size or offset does not fit in its field.
    Overflow,
    /// A section that has to be aligned has alignment zero.
    ZeroAlignment,
    /// A section is loaded below the code segment.
    InvalidSectionAddress,
    /// A section that has contents was given no place in the output.
    UnplacedSection,
    /// A section refers through its link to a section that does not exist.
    InvalidLink,
}

/// The contents of a section.
#[derive(Debug)]
pub struct SectionData(Vec<u8>);

impl View for SectionData {
    type V = Seq<u8>;

    closed spec fn view(&self) -> Seq<u8> {
        self.0@
    }
}

/// The relocations stored in `data`, one per whole 12-byte record; trailing
/// bytes that do not fill a record are not read.
pub open spec fn parse_relas(data: Seq<u8>) -> Seq<Rela> {
    Seq::new(data.len() / 12, |k: int| Rela::spec_parse(data, 12 * k))
}

/// The symbols stored in `data`, one per whole 16-byte record.
pub open spec fn parse_symbols(data: Seq<u8>) -> Seq<Symbol> {
    Seq::new(data.len() / 16, |k: int| Symbol::spec_parse(data, 16 * k))
}

/// The encodings of `relas`, one after the other.
pub open spec fn relas_bytes(relas: Seq<Rela>) -> Seq<u8>
    decreases relas.len(),
{
    if relas.len() == 0 {
        Seq::empty()
    } else {
        relas_bytes(relas.drop_last()) + relas.last().spec_bytes()
    }
}

/// The big-endian encodings of `words`, one after the other.
pub open spec fn words_bytes(words: Seq<u32>) -> Seq<u8>
    decreases words.len(),
{
    if words.len() == 0 {
        Seq::empty()
    } else {
        words_bytes(words.drop_last()) + be32(words.last())
    }
}

pub proof fn lemma_relas_bytes_len(relas: Seq<Rela>)
    ensures
        relas_bytes(relas).len() == 12 * relas.len(),
    decreases relas.len(),
{
    if relas.len() > 0 {
        lemma_relas_bytes_len(relas.drop_last());
        relas.last().lemma_roundtrip();
    }
}

pub proof fn lemma_words_bytes_len(words: Seq<u32>)
    ensures
        words_bytes(words).len() == 4 * words.len(),
    decreases words.len(),
{
    if words.len() > 0 {
        lemma_words_bytes_len(words.drop_last());
    }
}

/// The k-th record of an encoded relocation list is the k-th relocation's encoding.
proof fn lemma_relas_bytes_at(relas: Seq<Rela>, k: int)
    requires
        0 <= k < relas.len(),
    ensures
        relas_bytes(relas).subrange(12 * k, 12 * k + 12) == relas[k].spec_bytes(),
    decreases relas.len(),
{
    lemma_relas_bytes_len(relas);
    lemma_relas_bytes_len(relas.drop_last());
    relas.last().lemma_roundtrip();
    let prev = relas_bytes(relas.drop_last());
    if k == relas.len() - 1 {
        assert(relas_bytes(relas).subrange(12 * k, 12 * k + 12) =~= relas.last().spec_bytes());
    } else {
        lemma_relas_bytes_at(relas.drop_last(), k);
        assert(relas_bytes(relas).subrange(12 * k, 12 * k + 12) =~= prev.subrange(
            12 * k,
            12 * k + 12,
        ));
    }
}

/// A record decoded at `pos` only depends on the bytes at `pos`.
proof fn lemma_rela_parse_local(s: Seq<u8>, pos: int)
    requires
        0 <= pos,
        pos + 12 <= s.len(),
    ensures
        Rela::spec_parse(s, pos) == Rela::spec_parse(s.subrange(pos, pos + 12), 0),
{
}

/// Decoding the encoding of a relocation list gives the list back.
pub proof fn law_relas_roundtrip(relas: Seq<Rela>)
    ensures
        parse_relas(relas_bytes(relas)) == relas,
{
    let b = relas_bytes(relas);
    lemma_relas_bytes_len(relas);
    assert forall|k: int| 0 <= k < relas.len() implies #[trigger] Rela::spec_parse(b, 12 * k)
        == relas[k] by {
        lemma_relas_bytes_at(relas, k);
        lemma_rela_parse_local(b, 12 * k);
        relas[k].lemma_roundtrip();
    }
    assert(parse_relas(b) =~= relas);
}

/// Encoding the relocations read from `data` gives back `data` up to its
/// last whole record.
pub proof fn law_relas_reencode(data: Seq<u8>)
    ensures
        relas_bytes(parse_relas(data)) == data.subrange(0, 12 * (data.len() / 12) as int),
{
    lemma_relas_reencode_prefix(data, (data.len() / 12) as int);
    assert(parse_relas(data).take((data.len() / 12) as int) =~= parse_relas(data));
}

proof fn lemma_relas_reencode_prefix(data: Seq<u8>, n: int)
    requires
        0 <= n <= data.len() / 12,
    ensures
        relas_bytes(parse_relas(data).take(n)) == data.subrange(0, 12 * n),
    decreases n,
{
    let rs = parse_relas(data).take(n);
    if n == 0 {
        assert(data.subrange(0, 0) =~= Seq::<u8>::empty());
    } else {
        lemma_relas_reencode_prefix(data, n - 1);
        assert(rs.drop_last() =~= parse_relas(data).take(n - 1));
        Rela::lemma_parse_bytes(data, 12 * (n - 1));
        lemma_subrange_concat(data, 0, 12 * (n - 1), 12 * n);
    }
}

impl SectionData {
    /// Section contents holding `data`.
    pub fn new(data: Vec<u8>) -> (r: SectionData)
        ensures
            r@ == data@,
    {
        SectionData(data)
    }

    /// Number of bytes.
    pub fn len(&self) -> (r: usize)
        ensures
            r == self@.len(),
    {
        self.0.len()
    }

    /// The bytes.
    pub fn as_bytes(&self) -> (r: &[u8])
        ensures
            r@ == self@,
    {
        self.0.as_slice()
    }

    /// A copy of the bytes.
    pub fn as_vec(&self) -> (r: Vec<u8>)
        ensures
            r@ == self@,
    {
        let mut out: Vec<u8> = Vec::with_capacity(self.0.len());
        let mut k: usize = 0;
        while k < self.0.len()
            invariant
                k <= self.0@.len(),
                out@ == self.0@.subrange(0, k as int),
            decreases self.0@.len() - k,
        {
            out.push(self.0[k]);
            assert(self.0@.subrange(0, k + 1) =~= self.0@.subrange(0, k as int).push(self.0@[k as int]));
            k = k + 1;
        }
        assert(self.0@.subrange(0, k as int) =~= self.0@);
        out
    }

    /// Replaces the bytes with `data`.
    pub fn from_vec(&mut self, data: Vec<u8>)
        ensures
            final(self)@ == data@,
    {
        self.0 = data;
    }

    /// Removes all bytes.
    pub fn clear(&mut self)
        ensures
            final(self)@ == Seq::<u8>::empty(),
    {
        self.0.clear();
    }

    /// The relocations stored in the section, one per whole 12-byte record.
    pub fn as_rela(&self) -> (r: Vec<Rela>)
        ensures
            r@ == parse_relas(self@),
    {
        let n = self.0.len() / RELA_SIZE;
        let mut out: Vec<Rela> = Vec::with_capacity(n);
        let mut k: usize = 0;
        while k < n
            invariant
                n == self.0@.len() / 12,
                self.0@.len() <= usize::MAX,
                k <= n,
                out@ == parse_relas(self@).take(k as int),
            decreases n - k,
        {
            assert(k * 12 + 12 <= self.0@.len()) by (nonlinear_arith)
                requires
                    k < n,
                    n == self.0@.len() / 12,
            ;
            let r = Rela::parse(self.0.as_slice(), k * 12);
            match r {
                Some(rela) => {
                    out.push(rela);
                },
                None => {
                    assert(false);
                },
            }
            assert(parse_relas(self@).take(k + 1) =~= parse_relas(self@).take(k as int).push(
                parse_relas(self@)[k as int],
            ));
            k = k + 1;
        }
        assert(parse_relas(self@).take(n as int) =~= parse_relas(self@));
        out
    }

    /// Replaces the contents with the encodings of `rela`.
    pub fn from_rela(&mut self, rela: Vec<Rela>)
        ensures
            final(self)@ == relas_bytes(rela@),
    {
        let mut out: Vec<u8> = Vec::new();
        let mut k: usize = 0;
        while k < rela.len()
            invariant
                k <= rela@.len(),
                out@ == relas_bytes(rela@.take(k as int)),
            decreases rela@.len() - k,
        {
            rela[k].write_to(&mut out);
            assert(rela@.take(k + 1).drop_last() =~= rela@.take(k as int));
            k = k + 1;
        }
        assert(rela@.take(k as int) =~= rela@);
        self.0 = out;
    }

    /// The symbols stored in the section, one per whole 16-byte record.
    pub fn as_symbol(&self) -> (r: Vec<Symbol>)
        ensures
            r@ == parse_symbols(self@),
    {
        let n = self.0.len() / SYMBOL_SIZE;
        let mut out: Vec<Symbol> = Vec::with_capacity(n);
        let mut k: usize = 0;
        while k < n
            invariant
                n == self.0@.len() / 16,
                self.0@.len() <= usize::MAX,
                k <= n,
                out@ == parse_symbols(self@).take(k as int),
            decreases n - k,
        {
            assert(k * 16 + 16 <= self.0@.len()) by (nonlinear_arith)
                requires
                    k < n,
                    n == self.0@.len() / 16,
            ;
            let r = Symbol::parse(self.0.as_slice(), k * 16);
            match r {
                Some(sym) => {
                    out.push(sym);
                },
                None => {
                    assert(false);
                },
            }
            assert(parse_symbols(self@).take(k + 1) =~= parse_symbols(self@).take(k as int).push(
                parse_symbols(self@)[k as int],
            ));
            k = k + 1;
        }
        assert(parse_symbols(self@).take(n as int) =~= parse_symbols(self@));
        out
    }
}

/// Encodes `words` big-endian, one after the other.
pub fn encode_words(words: &Vec<u32>) -> (r: Vec<u8>)
    ensures
        r@ == words_bytes(words@),
{
    let mut out: Vec<u8> = Vec::new();
    let mut k: usize = 0;
    while k < words.len()
        invariant
            k <= words@.len(),
            out@ == words_bytes(words@.take(k as int)),
        decreases words@.len() - k,
    {
        push_be32(&mut out, words[k]);
        assert(words@.take(k + 1).drop_last() =~= words@.take(k as int));
        k = k + 1;
    }
    assert(words@.take(k as int) =~= words@);
    out
}

/// One section of the file being converted.
#[derive(Debug)]
pub struct Section {
    pub header: SectionHeader,
    /// The section's name, without its terminating zero byte.
    pub name: Vec<u8>,
    pub data: SectionData,
    /// Position of the section in the output, or `DISCARDED`.
    pub index: usize,
}

/// A section as a mathematical value.
pub struct SectionView {
    pub header: SectionHeader,
    pub name: Seq<u8>,
    pub data: Seq<u8>,
    pub index: usize,
}

impl View for Section {
    type V = SectionView;

    open spec fn view(&self) -> SectionView {
        SectionView { header: self.header, name: self.name@, data: self.data@, index: self.index }
    }
}

/// The file being converted.
#[derive(Debug)]
pub struct ElfFile {
    pub header: Header,
    pub sections: Vec<Section>,
    pub num_discarded_sections: usize,
}

/// The file being converted, as a mathematical value.
pub struct ElfFileView {
    pub header: Header,
    pub sections: Seq<SectionView>,
    pub num_discarded_sections: usize,
}

pub open spec fn section_views(sections: Seq<Section>) -> Seq<SectionView> {
    sections.map_values(|s: Section| s@)
}

impl View for ElfFile {
    type V = ElfFileView;

    open spec fn view(&self) -> ElfFileView {
        ElfFileView {
            header: self.header,
            sections: section_views(self.sections@),
            num_discarded_sections: self.num_discarded_sections,
        }
    }
}

/// The sequence `f(0), .., f(n - 1)` where every element is `Ok`, else the
/// first error, in order.
pub open spec fn try_seq<A>(n: nat, f: spec_fn(int) -> Result<A, RplError>) -> Result<Seq<A>, RplError>
    decreases n,
{
    if n == 0 {
        Ok(Seq::empty())
    } else {
        match try_seq((n - 1) as nat, f) {
            Ok(s) => match f(n - 1) {
                Ok(a) => Ok(s.push(a)),
                Err(e) => Err(e),
            },
            Err(e) => Err(e),
        }
    }
}

/// A successful `try_seq` holds every `f(i)`.
pub proof fn lemma_try_seq_ok<A>(n: nat, f: spec_fn(int) -> Result<A, RplError>)
    requires
        try_seq(n, f) is Ok,
    ensures
        try_seq(n, f)->Ok_0.len() == n,
        forall|i: int| 0 <= i < n ==> f(i) == Ok::<A, RplError>(#[trigger] try_seq(n, f)->Ok_0[i]),
    decreases n,
{
    if n > 0 {
        lemma_try_seq_ok((n - 1) as nat, f);
    }
}

/// An error in a prefix is the error of the whole sequence.
pub proof fn lemma_try_seq_err<A>(m: nat, n: nat, f: spec_fn(int) -> Result<A, RplError>)
    requires
        m <= n,
        try_seq(m, f) is Err,
    ensures
        try_seq(n, f) == try_seq(m, f),
    decreases n,
{
    if n > m {
        lemma_try_seq_err(m, (n - 1) as nat, f);
    }
}

/// Extends a successful prefix by one element.
pub proof fn lemma_try_seq_step<A>(i: nat, f: spec_fn(int) -> Result<A, RplError>)
    ensures
        try_seq(i + 1, f) == match try_seq(i, f) {
            Ok(s) => match f(i as int) {
                Ok(a) => Ok(s.push(a)),
                Err(e) => Err(e),
            },
            Err(e) => Err(e),
        },
{
    assert((i + 1) as nat - 1 == i);
}

/// A sequence whose elements all are `Ok`.
pub proof fn lemma_try_seq_all_ok<A>(n: nat, f: spec_fn(int) -> Result<A, RplError>, s: Seq<A>)
    requires
        s.len() == n,
        forall|i: int| 0 <= i < n ==> f(i) == Ok::<A, RplError>(#[trigger] s[i]),
    ensures
        try_seq(n, f) == Ok::<Seq<A>, RplError>(s),
    decreases n,
{
    if n > 0 {
        assert forall|i: int| 0 <= i < n - 1 implies f(i) == Ok::<A, RplError>(
            #[trigger] s.drop_last()[i],
        ) by {
            assert(s.drop_last()[i] == s[i]);
        }
        lemma_try_seq_all_ok((n - 1) as nat, f, s.drop_last());
        assert(f(n - 1) == Ok::<A, RplError>(s[n - 1]));
        assert(s.drop_last().push(s[n - 1]) =~= s);
    } else {
        assert(s =~= Seq::<A>::empty());
    }
}

/// The module made from the ELF file `file`, with its header and its
/// sections laid out for writing: an RPL library where `is_rpl` holds, else
/// an RPX executable.
pub open spec fn spec_module(file: Seq<u8>, is_rpl: bool) -> Result<ElfFileView, RplError> {
    match spec_read(file) {
        Err(e) => Err(e),
        Ok(e0) => match spec_fix_relocations(spec_fix_section_types(spec_fix_section_flags(e0))) {
            Err(e) => Err(e),
            Ok(e3) => match spec_fix_loader_virtual_addresses(e3) {
                Err(e) => Err(e),
                Ok(e4) => match spec_generate_file_info_section(e4, is_rpl) {
                    Err(e) => Err(e),
                    Ok(e5) => match spec_generate_crc_section(e5) {
                        Err(e) => Err(e),
                        Ok(e6) => spec_calculate_section_offsets(
                            spec_deflate_sections(spec_fix_file_header(e6)),
                        ),
                    },
                },
            },
        },
    }
}

/// The bytes of the module made from the ELF file `file`.
pub open spec fn spec_from_elf(file: Seq<u8>, is_rpl: bool) -> Result<Seq<u8>, RplError> {
    match spec_module(file, is_rpl) {
        Err(e) => Err(e),
        Ok(e9) => spec_write(e9),
    }
}

/// A file that was read has a section name string table, and no more
/// sections were left out than it has.
proof fn lemma_read_shape(file: Seq<u8>)
    requires
        spec_read(file) is Ok,
    ensures
        spec_read(file)->Ok_0.header.shstrndx < spec_read(file)->Ok_0.sections.len(),
        spec_read(file)->Ok_0.num_discarded_sections <= spec_read(file)->Ok_0.sections.len(),
{
    let h = Header::spec_parse(file, 0);
    let raw = try_seq(h.shnum as nat, raw_fn(file, h.shoff))->Ok_0;
    lemma_try_seq_ok(h.shnum as nat, raw_fn(file, h.shoff));
    let table = raw[h.shstrndx as int].data;
    lemma_try_seq_ok(raw.len(), name_fn(raw, table));
    let named = try_seq(raw.len(), name_fn(raw, table))->Ok_0;
    lemma_try_seq_ok(named.len(), debug_fn(named));
    let discards = try_seq(named.len(), debug_fn(named))->Ok_0;
    lemma_count_kept_bound(discards);
}

/// Converts the PowerPC ELF executable `input` into a Cafe OS module: an RPL
/// library where `is_rpl` holds, else an RPX executable.
pub fn from_elf(input: Vec<u8>, is_rpl: bool) -> (r: Result<Vec<u8>, RplError>)
    ensures
        match spec_from_elf(input@, is_rpl) {
            Ok(v) => r is Ok && r->Ok_0@ == v,
            Err(e) => r == Err::<Vec<u8>, RplError>(e),
        },
{
    let mut elf = ElfFile::read(input.as_slice())?;
    proof {
        lemma_read_shape(input@);
    }
    let ghost e0 = elf@;
    elf.fix_section_flags();
    elf.fix_section_types();
    let ghost e2 = elf@;
    elf.fix_relocations()?;
    proof {
        lemma_try_seq_ok(e2.sections.len(), relocation_fn(e2.sections));
    }
    let ghost e3 = elf@;
    elf.fix_loader_virtual_addresses()?;
    proof {
        let m = initial_load_max(e3.sections, e3.sections.len())->Ok_0;
        lemma_loader_fold_len(m, e3.sections, e3.sections.len());
    }
    elf.generate_file_info_section(is_rpl)?;
    elf.generate_crc_section()?;
    elf.fix_file_header();
    elf.deflate_sections();
    elf.calculate_section_offsets()?;
    elf.write()
}

} // verus!
