//! Placement of the symbol and string tables in the loader segment.
use vstd::prelude::*;
use crate::elf::{Rela, SectionFlags, SectionHeader, SHF_ALLOC, SHT_RELA, SHT_STRTAB, SHT_SYMTAB};
use super::fixes::step_agrees;
use super::{
    lemma_try_seq_err, lemma_try_seq_ok, lemma_try_seq_step, parse_relas, relas_bytes,
    section_views, try_seq, ElfFile, ElfFileView, RplError, Section, SectionView,
    LOAD_BASE_ADDRESS,
};

verus! {

/// The smallest multiple of `align` that is at least `v`; an error where
/// `align` is zero or the multiple does not fit in 32 bits.
pub open spec fn round_up(v: u32, align: u32) -> Result<u32, RplError> {
    if align == 0 {
        Err(RplError::ZeroAlignment)
    } else {
        let r = if v % align == 0 {
            v as int
        } else {
            v + (align - v % align)
        };
        if r > u32::MAX {
            Err(RplError::Overflow)
        } else {
            Ok(r as u32)
        }
    }
}

/// `a + b` where it fits in 32 bits.
pub open spec fn add_u32(a: u32, b: u32) -> Result<u32, RplError> {
    if a + b > u32::MAX {
        Err(RplError::Overflow)
    } else {
        Ok((a + b) as u32)
    }
}

/// Computes `round_up(v, align)`.
pub fn round_up_exec(v: u32, align: u32) -> (r: Result<u32, RplError>)
    ensures
        r == round_up(v, align),
{
    if align == 0 {
        return Err(RplError::ZeroAlignment);
    }
    let rem = v % align;
    if rem == 0 {
        Ok(v)
    } else {
        let add = align - rem;
        if v > u32::MAX - add {
            Err(RplError::Overflow)
        } else {
            Ok(v + add)
        }
    }
}

/// Computes `add_u32(a, b)`.
pub fn add_u32_exec(a: u32, b: u32) -> (r: Result<u32, RplError>)
    ensures
        r == add_u32(a, b),
{
    if a > u32::MAX - b {
        Err(RplError::Overflow)
    } else {
        Ok(a + b)
    }
}

/// The end of the loader segment's contents among the first `k` sections:
/// every section that starts at or after the current end moves the end past
/// its contents.
pub open spec fn initial_load_max(secs: Seq<SectionView>, k: nat) -> Result<u32, RplError>
    decreases k,
{
    if k == 0 {
        Ok(LOAD_BASE_ADDRESS)
    } else {
        match initial_load_max(secs, (k - 1) as nat) {
            Err(e) => Err(e),
            Ok(m) => {
                let s = secs[k - 1];
                if s.header.addr >= m {
                    add_u32(s.header.addr, s.data.len() as u32)
                } else {
                    Ok(m)
                }
            },
        }
    }
}

/// A relocation whose offset lies in `lo..=hi` moved by `base - lo`.
pub open spec fn relocate_rela(r: Rela, lo: u32, hi: u32, base: u32) -> Result<Rela, RplError> {
    if lo <= r.offset && r.offset <= hi {
        match add_u32((r.offset - lo) as u32, base) {
            Ok(o) => Ok(Rela { offset: o, ..r }),
            Err(e) => Err(e),
        }
    } else {
        Ok(r)
    }
}

pub open spec fn relocate_rela_fn(rels: Seq<Rela>, lo: u32, hi: u32, base: u32) -> spec_fn(int) -> Result<Rela, RplError> {
    |k: int| relocate_rela(rels[k], lo, hi, base)
}

/// Section `s` with the relocations that target section `i` moved.
pub open spec fn relocate_section(s: SectionView, i: int, lo: u32, hi: u32, base: u32) -> Result<SectionView, RplError> {
    if s.header.ty.0 == SHT_RELA && s.header.info == i as u32 {
        let rels = parse_relas(s.data);
        match try_seq(rels.len(), relocate_rela_fn(rels, lo, hi, base)) {
            Ok(rs) => Ok(SectionView { data: relas_bytes(rs), ..s }),
            Err(e) => Err(e),
        }
    } else {
        Ok(s)
    }
}

pub open spec fn relocate_section_fn(secs: Seq<SectionView>, i: int, lo: u32, hi: u32, base: u32) -> spec_fn(int) -> Result<SectionView, RplError> {
    |j: int| relocate_section(secs[j], i, lo, hi, base)
}

/// One step of the placement: a symbol or string table is moved to the next
/// address of the loader segment aligned to its alignment, the relocations
/// into it follow it, and it is marked allocated.
pub open spec fn loader_step(load_max: u32, secs: Seq<SectionView>, i: int) -> Result<(u32, Seq<SectionView>), RplError> {
    let s = secs[i];
    if s.header.ty.0 == SHT_SYMTAB || s.header.ty.0 == SHT_STRTAB {
        match round_up(load_max, s.header.addralign) {
            Err(e) => Err(e),
            Ok(m) => {
                let size = s.data.len() as u32;
                match add_u32(s.header.addr, size) {
                    Err(e) => Err(e),
                    Ok(hi) => match try_seq(
                        secs.len(),
                        relocate_section_fn(secs, i, s.header.addr, hi, m),
                    ) {
                        Err(e) => Err(e),
                        Ok(moved) => {
                            let placed = SectionView {
                                header: SectionHeader {
                                    addr: m,
                                    flags: SectionFlags(moved[i].header.flags.0 | SHF_ALLOC),
                                    ..moved[i].header
                                },
                                ..moved[i]
                            };
                            match add_u32(m, size) {
                                Err(e) => Err(e),
                                Ok(next) => Ok((next, moved.update(i, placed))),
                            }
                        },
                    },
                }
            },
        }
    } else {
        Ok((load_max, secs))
    }
}

/// The placement after the first `k` sections.
pub open spec fn loader_fold(load_max: u32, secs: Seq<SectionView>, k: nat) -> Result<(u32, Seq<SectionView>), RplError>
    decreases k,
{
    if k == 0 {
        Ok((load_max, secs))
    } else {
        match loader_fold(load_max, secs, (k - 1) as nat) {
            Err(e) => Err(e),
            Ok(st) => loader_step(st.0, st.1, k - 1),
        }
    }
}

pub open spec fn spec_fix_loader_virtual_addresses(e: ElfFileView) -> Result<ElfFileView, RplError> {
    match initial_load_max(e.sections, e.sections.len()) {
        Err(err) => Err(err),
        Ok(m) => match loader_fold(m, e.sections, e.sections.len()) {
            Err(err) => Err(err),
            Ok(st) => Ok(ElfFileView { sections: st.1, ..e }),
        },
    }
}

proof fn lemma_loader_fold_err(load_max: u32, secs: Seq<SectionView>, m: nat, n: nat)
    requires
        m <= n,
        loader_fold(load_max, secs, m) is Err,
    ensures
        loader_fold(load_max, secs, n) == loader_fold(load_max, secs, m),
    decreases n,
{
    if n > m {
        lemma_loader_fold_err(load_max, secs, m, (n - 1) as nat);
    }
}

/// The placement keeps the number of sections.
pub proof fn lemma_loader_fold_len(load_max: u32, secs: Seq<SectionView>, k: nat)
    requires
        k <= secs.len(),
    ensures
        loader_fold(load_max, secs, k) matches Ok(st) ==> st.1.len() == secs.len(),
    decreases k,
{
    if k > 0 {
        lemma_loader_fold_len(load_max, secs, (k - 1) as nat);
        if let Ok(st) = loader_fold(load_max, secs, (k - 1) as nat) {
            let s = st.1[k - 1];
            if s.header.ty.0 == SHT_SYMTAB || s.header.ty.0 == SHT_STRTAB {
                if let Ok(m) = round_up(st.0, s.header.addralign) {
                    if let Ok(hi) = add_u32(s.header.addr, s.data.len() as u32) {
                        let f = relocate_section_fn(st.1, k - 1, s.header.addr, hi, m);
                        if try_seq(st.1.len(), f) is Ok {
                            lemma_try_seq_ok(st.1.len(), f);
                        }
                    }
                }
            }
        }
    }
}

proof fn lemma_initial_load_max_err(secs: Seq<SectionView>, m: nat, n: nat)
    requires
        m <= n,
        initial_load_max(secs, m) is Err,
    ensures
        initial_load_max(secs, n) == initial_load_max(secs, m),
    decreases n,
{
    if n > m {
        lemma_initial_load_max_err(secs, m, (n - 1) as nat);
    }
}

fn initial_load_max_exec(sections: &Vec<Section>) -> (r: Result<u32, RplError>)
    ensures
        r == initial_load_max(section_views(sections@), sections@.len()),
{
    let ghost secs = section_views(sections@);
    let mut load_max = LOAD_BASE_ADDRESS;
    let mut k: usize = 0;
    while k < sections.len()
        invariant
            k <= sections@.len(),
            secs == section_views(sections@),
            initial_load_max(secs, k as nat) == Ok::<u32, RplError>(load_max),
        decreases sections@.len() - k,
    {
        assert(sections@[k as int]@ == secs[k as int]);
        if sections[k].header.addr >= load_max {
            match add_u32_exec(sections[k].header.addr, sections[k].data.len() as u32) {
                Ok(m) => {
                    load_max = m;
                },
                Err(e) => {
                    proof {
                        lemma_initial_load_max_err(secs, (k + 1) as nat, sections@.len());
                    }
                    return Err(e);
                },
            }
        }
        k = k + 1;
    }
    Ok(load_max)
}

fn relocate_relas(rels: &Vec<Rela>, lo: u32, hi: u32, base: u32) -> (r: Result<Vec<Rela>, RplError>)
    ensures
        match try_seq(rels@.len(), relocate_rela_fn(rels@, lo, hi, base)) {
            Ok(v) => r is Ok && r->Ok_0@ == v,
            Err(e) => r == Err::<Vec<Rela>, RplError>(e),
        },
{
    let ghost f = relocate_rela_fn(rels@, lo, hi, base);
    let mut out: Vec<Rela> = Vec::new();
    assert(out@ =~= Seq::<Rela>::empty());
    let mut k: usize = 0;
    while k < rels.len()
        invariant
            k <= rels@.len(),
            f == relocate_rela_fn(rels@, lo, hi, base),
            try_seq(k as nat, f) == Ok::<Seq<Rela>, RplError>(out@),
        decreases rels@.len() - k,
    {
        proof {
            lemma_try_seq_step(k as nat, f);
        }
        let r = rels[k];
        if lo <= r.offset && r.offset <= hi {
            match add_u32_exec(r.offset - lo, base) {
                Ok(o) => {
                    out.push(Rela { offset: o, ..r });
                },
                Err(e) => {
                    proof {
                        lemma_try_seq_err((k + 1) as nat, rels@.len(), f);
                    }
                    return Err(e);
                },
            }
        } else {
            out.push(r);
        }
        k = k + 1;
    }
    Ok(out)
}

fn relocate_sections(sections: &mut Vec<Section>, i: usize, lo: u32, hi: u32, base: u32) -> (r: Result<(), RplError>)
    ensures
        final(sections)@.len() == old(sections)@.len(),
        match try_seq(
            old(sections)@.len(),
            relocate_section_fn(section_views(old(sections)@), i as int, lo, hi, base),
        ) {
            Ok(v) => r is Ok && section_views(final(sections)@) == v,
            Err(e) => r == Err::<(), RplError>(e),
        },
{
    let ghost secs = section_views(sections@);
    let ghost f = relocate_section_fn(secs, i as int, lo, hi, base);
    let n = sections.len();
    assert(section_views(sections@).take(0) =~= Seq::<SectionView>::empty());
    let mut j: usize = 0;
    while j < n
        invariant
            j <= n,
            n == sections@.len(),
            n == secs.len(),
            secs == section_views(old(sections)@),
            f == relocate_section_fn(secs, i as int, lo, hi, base),
            try_seq(j as nat, f) == Ok::<Seq<SectionView>, RplError>(
                section_views(sections@).take(j as int),
            ),
            forall|k: int| j <= k < n ==> #[trigger] sections@[k]@ == secs[k],
        decreases n - j,
    {
        proof {
            lemma_try_seq_step(j as nat, f);
        }
        assert(sections@[j as int]@ == secs[j as int]);
        let ghost prev = sections@;
        if sections[j].header.ty.0 == SHT_RELA && sections[j].header.info == i as u32 {
            let rels = sections[j].data.as_rela();
            match relocate_relas(&rels, lo, hi, base) {
                Ok(moved) => {
                    sections[j].data.from_rela(moved);
                },
                Err(e) => {
                    proof {
                        lemma_try_seq_err((j + 1) as nat, n as nat, f);
                    }
                    return Err(e);
                },
            }
        }
        assert(section_views(sections@).take(j as int) =~= section_views(prev).take(j as int));
        assert(section_views(sections@).take(j + 1) =~= section_views(sections@).take(
            j as int,
        ).push(sections@[j as int]@));
        j = j + 1;
    }
    assert(section_views(sections@).take(n as int) =~= section_views(sections@));
    Ok(())
}

impl ElfFile {
    /// Moves the symbol and string tables into the loader segment, after
    /// everything already there, together with the relocations that point
    /// into them. The symbol tables keep their contents: the values of the
    /// symbols are not rewritten.
    pub fn fix_loader_virtual_addresses(&mut self) -> (r: Result<(), RplError>)
        ensures
            step_agrees(r, final(self)@, spec_fix_loader_virtual_addresses(old(self)@)),
    {
        let ghost secs0 = old(self)@.sections;
        let m0 = match initial_load_max_exec(&self.sections) {
            Ok(m) => m,
            Err(e) => {
                return Err(e);
            },
        };
        let mut load_max = m0;
        let n = self.sections.len();
        let mut i: usize = 0;
        while i < n
            invariant
                i <= n,
                n == self.sections@.len(),
                n == secs0.len(),
                secs0 == old(self)@.sections,
                self.header == old(self).header,
                self.num_discarded_sections == old(self).num_discarded_sections,
                initial_load_max(secs0, n as nat) == Ok::<u32, RplError>(m0),
                loader_fold(m0, secs0, i as nat) == Ok::<(u32, Seq<SectionView>), RplError>(
                    (load_max, section_views(self.sections@)),
                ),
            decreases n - i,
        {
            let ghost cur = section_views(self.sections@);
            assert(loader_fold(m0, secs0, (i + 1) as nat) == loader_step(load_max, cur, i as int));
            let ty = self.sections[i].header.ty.0;
            if ty == SHT_SYMTAB || ty == SHT_STRTAB {
                assert(self.sections@[i as int]@ == cur[i as int]);
                let m = match round_up_exec(load_max, self.sections[i].header.addralign) {
                    Ok(m) => m,
                    Err(e) => {
                        proof {
                            lemma_loader_fold_err(m0, secs0, (i + 1) as nat, n as nat);
                        }
                        return Err(e);
                    },
                };
                let size = self.sections[i].data.len() as u32;
                let lo = self.sections[i].header.addr;
                let hi = match add_u32_exec(lo, size) {
                    Ok(h) => h,
                    Err(e) => {
                        proof {
                            lemma_loader_fold_err(m0, secs0, (i + 1) as nat, n as nat);
                        }
                        return Err(e);
                    },
                };
                match relocate_sections(&mut self.sections, i, lo, hi, m) {
                    Ok(()) => {},
                    Err(e) => {
                        proof {
                            lemma_loader_fold_err(m0, secs0, (i + 1) as nat, n as nat);
                        }
                        return Err(e);
                    },
                }
                let ghost moved = section_views(self.sections@);
                proof {
                    lemma_try_seq_ok(n as nat, relocate_section_fn(cur, i as int, lo, hi, m));
                }
                assert(self.sections@[i as int]@ == moved[i as int]);
                self.sections[i].header.addr = m;
                self.sections[i].header.flags = SectionFlags(self.sections[i].header.flags.0 | SHF_ALLOC);
                let next = match add_u32_exec(m, size) {
                    Ok(v) => v,
                    Err(e) => {
                        proof {
                            lemma_loader_fold_err(m0, secs0, (i + 1) as nat, n as nat);
                        }
                        return Err(e);
                    },
                };
                load_max = next;
                assert(section_views(self.sections@) =~= moved.update(
                    i as int,
                    self.sections@[i as int]@,
                ));
            }
            i = i + 1;
        }
        proof {
            assert(self@.sections == section_views(self.sections@));
        }
        Ok(())
    }
}

} // verus!
