//! Section flags, section types, relocations and the file header of the module.
use vstd::prelude::*;
use crate::bytes::{bytes_equal, has_prefix, starts_with};
use crate::elf::{
    Eabi, Header, Rela, SectionFlags, SectionHeader, SectionType, EABI_CAFE, R_PPC_ADDR16_HA,
    R_PPC_ADDR16_HI, R_PPC_ADDR16_LO, R_PPC_ADDR32, R_PPC_DIAB_RELSDA_HA, R_PPC_DIAB_RELSDA_HI,
    R_PPC_DIAB_RELSDA_LO, R_PPC_DIAB_SDA21_HA, R_PPC_DIAB_SDA21_HI, R_PPC_DIAB_SDA21_LO,
    R_PPC_DTPMOD32, R_PPC_DTPREL32, R_PPC_EMB_RELSDA, R_PPC_EMB_SDA21, R_PPC_GHS_REL16_HI,
    R_PPC_NONE, R_PPC_REL14, R_PPC_REL24, R_PPC_REL32, SHF_ALLOC, SHF_EMPTY, SHF_WRITE,
    SHT_RELA, SHT_RPL_EXPORTS, SHT_RPL_IMPORTS,
};
use super::{
    lemma_try_seq_err, lemma_try_seq_step, parse_relas, relas_bytes,
    section_views, try_seq, ElfFile, ElfFileView, RplError, SectionView,
};

verus! {

/// `.cafe_load_bounds`
pub open spec fn name_cafe_load_bounds() -> Seq<u8> {
    seq![46u8, 99u8, 97u8, 102u8, 101u8, 95u8, 108u8, 111u8, 97u8, 100u8, 95u8, 98u8, 111u8, 117u8, 110u8, 100u8, 115u8]
}

/// `.rodata`
pub open spec fn name_rodata() -> Seq<u8> {
    seq![46u8, 114u8, 111u8, 100u8, 97u8, 116u8, 97u8]
}

/// `.eh_frame`
pub open spec fn name_eh_frame() -> Seq<u8> {
    seq![46u8, 101u8, 104u8, 95u8, 102u8, 114u8, 97u8, 109u8, 101u8]
}

/// `.fexports`
pub open spec fn name_fexports() -> Seq<u8> {
    seq![46u8, 102u8, 101u8, 120u8, 112u8, 111u8, 114u8, 116u8, 115u8]
}

/// `.dimport_`
pub open spec fn prefix_dimport() -> Seq<u8> {
    seq![46u8, 100u8, 105u8, 109u8, 112u8, 111u8, 114u8, 116u8, 95u8]
}

/// `.fimport_`
pub open spec fn prefix_fimport() -> Seq<u8> {
    seq![46u8, 102u8, 105u8, 109u8, 112u8, 111u8, 114u8, 116u8, 95u8]
}

/// The flags a section gets by its name.
pub open spec fn fixed_flags(name: Seq<u8>, flags: SectionFlags) -> SectionFlags {
    if name == name_cafe_load_bounds() {
        SectionFlags(SHF_ALLOC)
    } else if name == name_rodata() || name == name_eh_frame() {
        SectionFlags(SHF_ALLOC | SHF_WRITE)
    } else {
        flags
    }
}

/// The type a section gets by its name.
pub open spec fn fixed_type(name: Seq<u8>, ty: SectionType) -> SectionType {
    if name == name_fexports() {
        SectionType(SHT_RPL_EXPORTS)
    } else if starts_with(name, prefix_dimport()) || starts_with(name, prefix_fimport()) {
        SectionType(SHT_RPL_IMPORTS)
    } else {
        ty
    }
}

pub open spec fn with_fixed_flags(s: SectionView) -> SectionView {
    SectionView {
        header: SectionHeader { flags: fixed_flags(s.name, s.header.flags), ..s.header },
        ..s
    }
}

pub open spec fn with_fixed_type(s: SectionView) -> SectionView {
    SectionView { header: SectionHeader { ty: fixed_type(s.name, s.header.ty), ..s.header }, ..s }
}

pub open spec fn spec_fix_section_flags(e: ElfFileView) -> ElfFileView {
    ElfFileView { sections: e.sections.map_values(|s: SectionView| with_fixed_flags(s)), ..e }
}

pub open spec fn spec_fix_section_types(e: ElfFileView) -> ElfFileView {
    ElfFileView { sections: e.sections.map_values(|s: SectionView| with_fixed_type(s)), ..e }
}

/// The relocation types that the loader handles as they are.
pub open spec fn is_kept_relocation(ty: u32) -> bool {
    ty == R_PPC_NONE || ty == R_PPC_ADDR32 || ty == R_PPC_ADDR16_LO || ty == R_PPC_ADDR16_HI || ty
        == R_PPC_ADDR16_HA || ty == R_PPC_REL24 || ty == R_PPC_REL14 || ty == R_PPC_DTPMOD32 || ty
        == R_PPC_DTPREL32 || ty == R_PPC_EMB_SDA21 || ty == R_PPC_EMB_RELSDA || ty
        == R_PPC_DIAB_SDA21_LO || ty == R_PPC_DIAB_SDA21_HI || ty == R_PPC_DIAB_SDA21_HA || ty
        == R_PPC_DIAB_RELSDA_LO || ty == R_PPC_DIAB_RELSDA_HI || ty == R_PPC_DIAB_RELSDA_HA
}

/// The relocation type, the low byte of `info`.
pub open spec fn rela_type(r: Rela) -> u32 {
    r.info & 0xffu32
}

/// The relocations that stand for `r` in the module: a 32-bit relative
/// relocation becomes two 16-bit ones, at `offset` and `offset + 2`.
pub open spec fn convert_relocation(r: Rela) -> Result<Seq<Rela>, RplError> {
    let ty = rela_type(r);
    let info = ((r.info >> 8u32) << 8u32) | R_PPC_GHS_REL16_HI;
    if ty == R_PPC_REL32 {
        if r.addend + 2 > i32::MAX || r.offset + 2 > u32::MAX {
            Err(RplError::Overflow)
        } else {
            Ok(
                seq![Rela { info, ..r }, Rela {
                    info,
                    addend: (r.addend + 2) as i32,
                    offset: (r.offset + 2) as u32,
                }],
            )
        }
    } else if is_kept_relocation(ty) {
        Ok(seq![r])
    } else {
        Err(RplError::UnsupportedRelocation(ty))
    }
}

/// The sequences of `parts`, one after the other.
pub open spec fn concat_all(parts: Seq<Seq<Rela>>) -> Seq<Rela>
    decreases parts.len(),
{
    if parts.len() == 0 {
        Seq::empty()
    } else {
        concat_all(parts.drop_last()) + parts.last()
    }
}

pub open spec fn convert_fn(rels: Seq<Rela>) -> spec_fn(int) -> Result<Seq<Rela>, RplError> {
    |k: int| convert_relocation(rels[k])
}

/// The relocations that stand for `rels` in the module, in order.
pub open spec fn convert_relocations(rels: Seq<Rela>) -> Result<Seq<Rela>, RplError> {
    match try_seq(rels.len(), convert_fn(rels)) {
        Ok(parts) => Ok(concat_all(parts)),
        Err(e) => Err(e),
    }
}

/// A relocation section with its relocations converted, its flags cleared
/// and its size set to that of its new contents in bytes; other sections as
/// they are.
pub open spec fn fixed_relocation_section(s: SectionView) -> Result<SectionView, RplError> {
    if s.header.ty.0 != SHT_RELA {
        Ok(s)
    } else {
        match convert_relocations(parse_relas(s.data)) {
            Err(e) => Err(e),
            Ok(rels) => Ok(
                SectionView {
                    header: SectionHeader {
                        flags: SectionFlags(SHF_EMPTY),
                        size: relas_bytes(rels).len() as u32,
                        ..s.header
                    },
                    data: relas_bytes(rels),
                    ..s
                },
            ),
        }
    }
}

pub open spec fn relocation_fn(secs: Seq<SectionView>) -> spec_fn(int) -> Result<SectionView, RplError> {
    |i: int| fixed_relocation_section(secs[i])
}

pub open spec fn spec_fix_relocations(e: ElfFileView) -> Result<ElfFileView, RplError> {
    match try_seq(e.sections.len(), relocation_fn(e.sections)) {
        Ok(secs) => Ok(ElfFileView { sections: secs, ..e }),
        Err(err) => Err(err),
    }
}

/// The module's file header: Cafe OS ABI, module type, no program headers,
/// the section header table right after the file header, and the section
/// counts and string table index of the kept sections.
pub open spec fn spec_fix_file_header(e: ElfFileView) -> ElfFileView {
    ElfFileView {
        header: Header {
            abi: Eabi(EABI_CAFE),
            ty: 0xFE01,
            flags: 0,
            phoff: 0,
            phentsize: 0,
            phnum: 0,
            shoff: 64,
            shnum: (e.sections.len() - e.num_discarded_sections) as u16,
            shstrndx: e.sections[e.header.shstrndx as int].index as u16,
            ..e.header
        },
        ..e
    }
}

/// Whether `step` agrees with `spec`: where `spec` succeeds the file became
/// its value, else `step` failed with the same error.
pub open spec fn step_agrees(step: Result<(), RplError>, after: ElfFileView, spec: Result<ElfFileView, RplError>) -> bool {
    match spec {
        Ok(v) => step is Ok && after == v,
        Err(e) => step == Err::<(), RplError>(e),
    }
}

fn exec_fixed_flags(name: &[u8], flags: SectionFlags) -> (r: SectionFlags)
    ensures
        r == fixed_flags(name@, flags),
{
    let cafe_load_bounds: [u8; 17] = [46u8, 99u8, 97u8, 102u8, 101u8, 95u8, 108u8, 111u8, 97u8, 100u8, 95u8, 98u8, 111u8, 117u8, 110u8, 100u8, 115u8];
    let rodata: [u8; 7] = [46u8, 114u8, 111u8, 100u8, 97u8, 116u8, 97u8];
    let eh_frame: [u8; 9] = [46u8, 101u8, 104u8, 95u8, 102u8, 114u8, 97u8, 109u8, 101u8];
    assert(cafe_load_bounds@ =~= name_cafe_load_bounds());
    assert(rodata@ =~= name_rodata());
    assert(eh_frame@ =~= name_eh_frame());
    if bytes_equal(name, &cafe_load_bounds) {
        SectionFlags(SHF_ALLOC)
    } else if bytes_equal(name, &rodata) || bytes_equal(name, &eh_frame) {
        SectionFlags(SHF_ALLOC | SHF_WRITE)
    } else {
        flags
    }
}

fn exec_fixed_type(name: &[u8], ty: SectionType) -> (r: SectionType)
    ensures
        r == fixed_type(name@, ty),
{
    let fexports: [u8; 9] = [46u8, 102u8, 101u8, 120u8, 112u8, 111u8, 114u8, 116u8, 115u8];
    let dimport: [u8; 9] = [46u8, 100u8, 105u8, 109u8, 112u8, 111u8, 114u8, 116u8, 95u8];
    let fimport: [u8; 9] = [46u8, 102u8, 105u8, 109u8, 112u8, 111u8, 114u8, 116u8, 95u8];
    assert(fexports@ =~= name_fexports());
    assert(dimport@ =~= prefix_dimport());
    assert(fimport@ =~= prefix_fimport());
    if bytes_equal(name, &fexports) {
        SectionType(SHT_RPL_EXPORTS)
    } else if has_prefix(name, &dimport) || has_prefix(name, &fimport) {
        SectionType(SHT_RPL_IMPORTS)
    } else {
        ty
    }
}

fn exec_is_kept_relocation(ty: u32) -> (r: bool)
    ensures
        r == is_kept_relocation(ty),
{
    ty == R_PPC_NONE || ty == R_PPC_ADDR32 || ty == R_PPC_ADDR16_LO || ty == R_PPC_ADDR16_HI || ty
        == R_PPC_ADDR16_HA || ty == R_PPC_REL24 || ty == R_PPC_REL14 || ty == R_PPC_DTPMOD32 || ty
        == R_PPC_DTPREL32 || ty == R_PPC_EMB_SDA21 || ty == R_PPC_EMB_RELSDA || ty
        == R_PPC_DIAB_SDA21_LO || ty == R_PPC_DIAB_SDA21_HI || ty == R_PPC_DIAB_SDA21_HA || ty
        == R_PPC_DIAB_RELSDA_LO || ty == R_PPC_DIAB_RELSDA_HI || ty == R_PPC_DIAB_RELSDA_HA
}

/// Converts `rels` for the module: 32-bit relative relocations become two
/// 16-bit ones, the types the loader handles stay, and any other type is
/// refused.
pub fn convert_relocations_exec(rels: &Vec<Rela>) -> (r: Result<Vec<Rela>, RplError>)
    ensures
        match convert_relocations(rels@) {
            Ok(v) => r is Ok && r->Ok_0@ == v,
            Err(e) => r == Err::<Vec<Rela>, RplError>(e),
        },
{
    let ghost f = convert_fn(rels@);
    let mut out: Vec<Rela> = Vec::new();
    let ghost mut parts: Seq<Seq<Rela>> = Seq::empty();
    assert(out@ =~= concat_all(parts));
    let mut k: usize = 0;
    while k < rels.len()
        invariant
            k <= rels@.len(),
            f == convert_fn(rels@),
            try_seq(k as nat, f) == Ok::<Seq<Seq<Rela>>, RplError>(parts),
            out@ == concat_all(parts),
        decreases rels@.len() - k,
    {
        proof {
            lemma_try_seq_step(k as nat, f);
        }
        let r = rels[k];
        let ty = r.info & 0xffu32;
        let info = ((r.info >> 8u32) << 8u32) | R_PPC_GHS_REL16_HI;
        if ty == R_PPC_REL32 {
            if r.addend > i32::MAX - 2 || r.offset > u32::MAX - 2 {
                proof {
                    lemma_try_seq_err((k + 1) as nat, rels@.len(), f);
                }
                return Err(RplError::Overflow);
            }
            let first = Rela { info, ..r };
            let second = Rela { info, addend: r.addend + 2, offset: r.offset + 2 };
            out.push(first);
            out.push(second);
            proof {
                let part = seq![first, second];
                assert(concat_all(parts.push(part)).len() >= 0);
                assert(parts.push(part).drop_last() =~= parts);
                assert(out@ =~= concat_all(parts.push(part)));
                parts = parts.push(part);
            }
        } else if exec_is_kept_relocation(ty) {
            out.push(r);
            proof {
                let part = seq![r];
                assert(parts.push(part).drop_last() =~= parts);
                assert(out@ =~= concat_all(parts.push(part)));
                parts = parts.push(part);
            }
        } else {
            proof {
                lemma_try_seq_err((k + 1) as nat, rels@.len(), f);
            }
            return Err(RplError::UnsupportedRelocation(ty));
        }
        k = k + 1;
    }
    Ok(out)
}

impl ElfFile {
    /// Gives the sections that the loader needs to be writable, or only
    /// allocated, their flags.
    pub fn fix_section_flags(&mut self)
        ensures
            final(self)@ == spec_fix_section_flags(old(self)@),
    {
        let n = self.sections.len();
        let mut i: usize = 0;
        while i < n
            invariant
                i <= n,
                n == self.sections@.len(),
                n == old(self).sections@.len(),
                self.header == old(self).header,
                self.num_discarded_sections == old(self).num_discarded_sections,
                forall|j: int| 0 <= j < i ==> #[trigger] self.sections@[j]@ == with_fixed_flags(
                    old(self).sections@[j]@,
                ),
                forall|j: int| i <= j < n ==> #[trigger] self.sections@[j] == old(self).sections@[j],
            decreases n - i,
        {
            let flags = exec_fixed_flags(self.sections[i].name.as_slice(), self.sections[i].header.flags);
            self.sections[i].header.flags = flags;
            i = i + 1;
        }
        assert(self@.sections =~= spec_fix_section_flags(old(self)@).sections);
    }

    /// Gives the export and import sections their module section types.
    pub fn fix_section_types(&mut self)
        ensures
            final(self)@ == spec_fix_section_types(old(self)@),
    {
        let n = self.sections.len();
        let mut i: usize = 0;
        while i < n
            invariant
                i <= n,
                n == self.sections@.len(),
                n == old(self).sections@.len(),
                self.header == old(self).header,
                self.num_discarded_sections == old(self).num_discarded_sections,
                forall|j: int| 0 <= j < i ==> #[trigger] self.sections@[j]@ == with_fixed_type(
                    old(self).sections@[j]@,
                ),
                forall|j: int| i <= j < n ==> #[trigger] self.sections@[j] == old(self).sections@[j],
            decreases n - i,
        {
            let ty = exec_fixed_type(self.sections[i].name.as_slice(), self.sections[i].header.ty);
            self.sections[i].header.ty = ty;
            i = i + 1;
        }
        assert(self@.sections =~= spec_fix_section_types(old(self)@).sections);
    }

    /// Converts the relocations of every relocation section for the module,
    /// clears the section's flags and sets its size to the size of the new
    /// contents in bytes.
    pub fn fix_relocations(&mut self) -> (r: Result<(), RplError>)
        ensures
            step_agrees(r, final(self)@, spec_fix_relocations(old(self)@)),
    {
        let ghost f = relocation_fn(old(self)@.sections);
        let n = self.sections.len();
        let mut i: usize = 0;
        assert(section_views(self.sections@).take(0) =~= Seq::<SectionView>::empty());
        while i < n
            invariant
                i <= n,
                n == self.sections@.len(),
                n == old(self).sections@.len(),
                self.header == old(self).header,
                self.num_discarded_sections == old(self).num_discarded_sections,
                f == relocation_fn(old(self)@.sections),
                try_seq(i as nat, f) == Ok::<Seq<SectionView>, RplError>(
                    section_views(self.sections@).take(i as int),
                ),
                forall|j: int| i <= j < n ==> #[trigger] self.sections@[j] == old(self).sections@[j],
            decreases n - i,
        {
            proof {
                lemma_try_seq_step(i as nat, f);
            }
            assert(self.sections@[i as int]@ == old(self)@.sections[i as int]);
            let ghost prev = self.sections@;
            if self.sections[i].header.ty.0 == SHT_RELA {
                let rels = self.sections[i].data.as_rela();
                match convert_relocations_exec(&rels) {
                    Ok(converted) => {
                        self.sections[i].header.flags = SectionFlags(SHF_EMPTY);
                        self.sections[i].data.from_rela(converted);
                        self.sections[i].header.size = self.sections[i].data.len() as u32;
                    },
                    Err(e) => {
                        proof {
                            lemma_try_seq_err((i + 1) as nat, n as nat, f);
                        }
                        return Err(e);
                    },
                }
            }
            assert(section_views(self.sections@).take(i as int) =~= section_views(prev).take(
                i as int,
            ));
            assert(section_views(self.sections@).take(i + 1) =~= section_views(self.sections@).take(
                i as int,
            ).push(self.sections@[i as int]@));
            i = i + 1;
        }
        assert(section_views(self.sections@).take(n as int) =~= section_views(self.sections@));
        Ok(())
    }

    /// Sets the module's file header.
    pub fn fix_file_header(&mut self)
        requires
            old(self).header.shstrndx < old(self).sections@.len(),
            old(self).num_discarded_sections <= old(self).sections@.len(),
        ensures
            final(self)@ == spec_fix_file_header(old(self)@),
    {
        self.header.abi = Eabi(EABI_CAFE);
        self.header.ty = 0xFE01;
        self.header.flags = 0;
        self.header.phoff = 0;
        self.header.phentsize = 0;
        self.header.phnum = 0;
        self.header.shoff = 64;
        self.header.shnum = (self.sections.len() - self.num_discarded_sections) as u16;
        self.header.shstrndx = self.sections[self.header.shstrndx as usize].index as u16;
        assert(self@.header.pad == spec_fix_file_header(old(self)@).header.pad);
    }
}

} // verus!
