//! Compression, placement and writing of the module's sections.
use vstd::prelude::*;
use crate::bytes::{be32, push_be32, write_at, write_bytes_at};
use crate::elf::{
    SectionFlags, SectionHeader, SHF_ALLOC, SHF_DEFLATED, SHF_EXEC, SHF_WRITE, SHT_NOBITS,
    SHT_NULL, SHT_RELA, SHT_RPL_CRCS, SHT_RPL_EXPORTS, SHT_RPL_FILEINFO, SHT_RPL_IMPORTS,
};
use crate::external::{zlib_compress, zlib_of};
use super::fixes::step_agrees;
use super::loader::{add_u32, add_u32_exec};
use super::{
    lemma_try_seq_err, lemma_try_seq_ok, lemma_try_seq_step, section_views, try_seq, ElfFile,
    ElfFileView, RplError, Section, SectionView, DEFLATE_MIN_SECTION_SIZE, DISCARDED,
};

verus! {

/// The zlib level sections are compressed at (the best compression).
pub const DEFLATE_LEVEL: u32 = 9;

/// Whether a section is stored compressed: it is not the CRC or file
/// information section and has at least 0x18 bytes.
pub open spec fn is_deflated(s: SectionView) -> bool {
    !(s.data.len() < 0x18 || s.header.ty.0 == SHT_RPL_CRCS || s.header.ty.0 == SHT_RPL_FILEINFO)
}

/// The stored form of compressed contents: the uncompressed length,
/// big-endian, then the zlib stream.
pub open spec fn deflated_bytes(uncompressed_len: nat, compressed: Seq<u8>) -> Seq<u8> {
    be32(uncompressed_len as u32) + compressed
}

/// A section as stored in the module.
pub open spec fn deflated_section(s: SectionView) -> SectionView {
    if is_deflated(s) {
        SectionView {
            header: SectionHeader {
                flags: SectionFlags(s.header.flags.0 | SHF_DEFLATED),
                ..s.header
            },
            data: deflated_bytes(s.data.len(), zlib_of(s.data, DEFLATE_LEVEL)),
            ..s
        }
    } else {
        s
    }
}

pub open spec fn spec_deflate_sections(e: ElfFileView) -> ElfFileView {
    ElfFileView { sections: e.sections.map_values(|s: SectionView| deflated_section(s)), ..e }
}

/// The stored form of contents of `uncompressed_len` bytes that compressed
/// to `compressed`.
pub fn deflated_contents(uncompressed_len: usize, compressed: Vec<u8>) -> (r: Vec<u8>)
    ensures
        r@ == deflated_bytes(uncompressed_len as nat, compressed@),
{
    let mut out: Vec<u8> = Vec::new();
    push_be32(&mut out, uncompressed_len as u32);
    let mut compressed = compressed;
    out.append(&mut compressed);
    out
}

// ------------------------------------------------------------------ offsets

/// `n` rounded up to a multiple of 64.
pub open spec fn round_up_64(n: int) -> int {
    if n % 64 == 0 {
        n
    } else {
        n + (64 - n % 64)
    }
}

/// The first offset after the section header table: the table starts at
/// `shoff` and takes 40 bytes per kept section, rounded up to 64 bytes.
pub open spec fn header_table_end(e: ElfFileView) -> Result<u32, RplError> {
    let t = (e.sections.len() - e.num_discarded_sections) * 40;
    if t > usize::MAX || round_up_64(t) > usize::MAX {
        Err(RplError::Overflow)
    } else {
        add_u32(e.header.shoff, round_up_64(t) as u32)
    }
}

/// Empty and unsized sections lose their contents, and no section has an
/// offset yet.
pub open spec fn cleared_section(s: SectionView) -> SectionView {
    SectionView {
        header: SectionHeader { offset: 0, ..s.header },
        data: if s.header.ty.0 == SHT_NOBITS || s.header.ty.0 == SHT_NULL {
            Seq::empty()
        } else {
            s.data
        },
        ..s
    }
}

/// Sections that no layout pass other than the first two places.
pub open spec fn skipped_in_layout(h: SectionHeader) -> bool {
    h.size == 0 || h.ty.0 == SHT_RPL_FILEINFO || h.ty.0 == SHT_RPL_IMPORTS || h.ty.0
        == SHT_RPL_CRCS || h.ty.0 == SHT_NOBITS
}

/// Whether layout pass `pass` places a section with header `h`. The passes
/// place, in order: the CRC section, the file information section, the
/// writable data, the read-only data with exports and imports, the code, and
/// the sections that are not loaded.
pub open spec fn placed_in_pass(pass: int, h: SectionHeader) -> bool {
    let f = h.flags.0;
    if pass == 0 {
        h.ty.0 == SHT_RPL_CRCS
    } else if pass == 1 {
        h.ty.0 == SHT_RPL_FILEINFO
    } else if pass == 2 {
        !skipped_in_layout(h) && f & SHF_EXEC == 0 && f & SHF_WRITE != 0 && f & SHF_ALLOC != 0
    } else if pass == 3 {
        h.size > 0 && f & SHF_ALLOC != 0 && (h.ty.0 == SHT_RPL_EXPORTS || h.ty.0 == SHT_RPL_IMPORTS
            || f & (SHF_EXEC | SHF_WRITE) == 0)
    } else if pass == 4 {
        !skipped_in_layout(h) && f & SHF_EXEC != 0 && h.ty.0 != SHT_RPL_EXPORTS
    } else {
        !skipped_in_layout(h) && f & SHF_EXEC == 0 && f & SHF_ALLOC == 0
    }
}

/// Layout pass `pass` over the first `k` sections, starting at `offset`:
/// each placed section gets the current offset and its size, and the offset
/// moves past it.
pub open spec fn place_pass(secs: Seq<SectionView>, offset: u32, pass: int, k: nat) -> Result<(Seq<SectionView>, u32), RplError>
    decreases k,
{
    if k == 0 {
        Ok((secs, offset))
    } else {
        match place_pass(secs, offset, pass, (k - 1) as nat) {
            Err(e) => Err(e),
            Ok(st) => {
                let s = st.0[k - 1];
                if placed_in_pass(pass, s.header) {
                    let size = s.data.len() as u32;
                    match add_u32(st.1, size) {
                        Err(e) => Err(e),
                        Ok(next) => Ok(
                            (
                                st.0.update(
                                    k - 1,
                                    SectionView {
                                        header: SectionHeader { offset: st.1, size, ..s.header },
                                        ..s
                                    },
                                ),
                                next,
                            ),
                        ),
                    }
                } else {
                    Ok(st)
                }
            },
        }
    }
}

/// The first `p` layout passes.
pub open spec fn place_passes(secs: Seq<SectionView>, offset: u32, p: nat) -> Result<(Seq<SectionView>, u32), RplError>
    decreases p,
{
    if p == 0 {
        Ok((secs, offset))
    } else {
        match place_passes(secs, offset, (p - 1) as nat) {
            Err(e) => Err(e),
            Ok(st) => place_pass(st.0, st.1, p - 1, st.0.len()),
        }
    }
}

/// Section `i` with its link and relocation target renumbered to the
/// output's section numbers; an error where a section with contents was not
/// placed or a link names no section.
pub open spec fn linked_section(secs: Seq<SectionView>, i: int) -> Result<SectionView, RplError> {
    let s = secs[i];
    if s.header.offset == 0 && s.header.ty.0 != SHT_NULL && s.header.ty.0 != SHT_NOBITS {
        Err(RplError::UnplacedSection)
    } else if s.index == DISCARDED {
        Ok(s)
    } else {
        let link = if s.header.link != 0 {
            if s.header.link < secs.len() {
                Ok(secs[s.header.link as int].index as u32)
            } else {
                Err(RplError::InvalidLink)
            }
        } else {
            Ok(s.header.link)
        };
        match link {
            Err(e) => Err(e),
            Ok(l) => if s.header.ty.0 == SHT_RELA {
                if s.header.info < secs.len() {
                    Ok(
                        SectionView {
                            header: SectionHeader {
                                link: l,
                                info: secs[s.header.info as int].index as u32,
                                ..s.header
                            },
                            ..s
                        },
                    )
                } else {
                    Err(RplError::InvalidRelocationTarget)
                }
            } else {
                Ok(SectionView { header: SectionHeader { link: l, ..s.header }, ..s })
            },
        }
    }
}

pub open spec fn link_fn(secs: Seq<SectionView>) -> spec_fn(int) -> Result<SectionView, RplError> {
    |i: int| linked_section(secs, i)
}

/// The file with every section given its place in the output.
pub open spec fn spec_calculate_section_offsets(e: ElfFileView) -> Result<ElfFileView, RplError> {
    match header_table_end(e) {
        Err(err) => Err(err),
        Ok(start) => match place_passes(
            e.sections.map_values(|s: SectionView| cleared_section(s)),
            start,
            6,
        ) {
            Err(err) => Err(err),
            Ok(st) => match try_seq(st.0.len(), link_fn(st.0)) {
                Err(err) => Err(err),
                Ok(secs) => Ok(ElfFileView { sections: secs, ..e }),
            },
        },
    }
}

// ------------------------------------------------------------------ writing

/// The headers of the kept sections, one after the other.
pub open spec fn kept_headers_bytes(secs: Seq<SectionView>) -> Seq<u8>
    decreases secs.len(),
{
    if secs.len() == 0 {
        Seq::empty()
    } else {
        let p = kept_headers_bytes(secs.drop_last());
        if secs.last().index == DISCARDED {
            p
        } else {
            p + secs.last().header.spec_bytes()
        }
    }
}

/// `buf` with the contents of the first `k` sections written at their offsets.
pub open spec fn write_contents(buf: Seq<u8>, secs: Seq<SectionView>, k: nat) -> Seq<u8>
    decreases k,
{
    if k == 0 {
        buf
    } else {
        let p = write_contents(buf, secs, (k - 1) as nat);
        let s = secs[k - 1];
        if s.data.len() > 0 {
            write_at(p, s.header.offset as int, s.data)
        } else {
            p
        }
    }
}

/// Whether some write of the output would end past the address space.
pub open spec fn image_too_large(e: ElfFileView) -> bool {
    e.header.shoff + kept_headers_bytes(e.sections).len() > usize::MAX || exists|i: int|
        0 <= i < e.sections.len() && #[trigger] e.sections[i].data.len() > 0
            && e.sections[i].header.offset + e.sections[i].data.len() > usize::MAX
}

/// The module's bytes: the file header at the start, the headers of the kept
/// sections at `shoff`, and each section's contents at its offset; gaps are
/// zero.
pub open spec fn spec_image(e: ElfFileView) -> Seq<u8> {
    let with_header = write_at(Seq::empty(), 0, e.header.spec_bytes());
    let with_table = write_at(with_header, e.header.shoff as int, kept_headers_bytes(e.sections));
    write_contents(with_table, e.sections, e.sections.len())
}

pub open spec fn spec_write(e: ElfFileView) -> Result<Seq<u8>, RplError> {
    if image_too_large(e) {
        Err(RplError::Overflow)
    } else {
        Ok(spec_image(e))
    }
}

fn is_placed_in_pass(pass: u8, h: &SectionHeader) -> (r: bool)
    ensures
        r == placed_in_pass(pass as int, *h),
{
    let f = h.flags.0;
    let skipped = h.size == 0 || h.ty.0 == SHT_RPL_FILEINFO || h.ty.0 == SHT_RPL_IMPORTS || h.ty.0
        == SHT_RPL_CRCS || h.ty.0 == SHT_NOBITS;
    if pass == 0 {
        h.ty.0 == SHT_RPL_CRCS
    } else if pass == 1 {
        h.ty.0 == SHT_RPL_FILEINFO
    } else if pass == 2 {
        !skipped && f & SHF_EXEC == 0 && f & SHF_WRITE != 0 && f & SHF_ALLOC != 0
    } else if pass == 3 {
        h.size > 0 && f & SHF_ALLOC != 0 && (h.ty.0 == SHT_RPL_EXPORTS || h.ty.0 == SHT_RPL_IMPORTS
            || f & (SHF_EXEC | SHF_WRITE) == 0)
    } else if pass == 4 {
        !skipped && f & SHF_EXEC != 0 && h.ty.0 != SHT_RPL_EXPORTS
    } else {
        !skipped && f & SHF_EXEC == 0 && f & SHF_ALLOC == 0
    }
}

proof fn lemma_place_pass_err(secs: Seq<SectionView>, offset: u32, pass: int, m: nat, n: nat)
    requires
        m <= n,
        place_pass(secs, offset, pass, m) is Err,
    ensures
        place_pass(secs, offset, pass, n) == place_pass(secs, offset, pass, m),
    decreases n,
{
    if n > m {
        lemma_place_pass_err(secs, offset, pass, m, (n - 1) as nat);
    }
}

proof fn lemma_place_pass_len(secs: Seq<SectionView>, offset: u32, pass: int, k: nat)
    requires
        k <= secs.len(),
    ensures
        place_pass(secs, offset, pass, k) matches Ok(st) ==> st.0.len() == secs.len(),
    decreases k,
{
    if k > 0 {
        lemma_place_pass_len(secs, offset, pass, (k - 1) as nat);
    }
}

proof fn lemma_place_passes_err(secs: Seq<SectionView>, offset: u32, m: nat, n: nat)
    requires
        m <= n,
        place_passes(secs, offset, m) is Err,
    ensures
        place_passes(secs, offset, n) == place_passes(secs, offset, m),
    decreases n,
{
    if n > m {
        lemma_place_passes_err(secs, offset, m, (n - 1) as nat);
    }
}

fn place_sections(sections: &mut Vec<Section>, offset: u32, pass: u8) -> (r: Result<u32, RplError>)
    ensures
        final(sections)@.len() == old(sections)@.len(),
        match place_pass(section_views(old(sections)@), offset, pass as int, old(sections)@.len()) {
            Ok(st) => r == Ok::<u32, RplError>(st.1) && section_views(final(sections)@) == st.0,
            Err(e) => r == Err::<u32, RplError>(e),
        },
{
    let ghost secs0 = section_views(sections@);
    let n = sections.len();
    let mut off = offset;
    let mut k: usize = 0;
    while k < n
        invariant
            k <= n,
            n == sections@.len(),
            n == secs0.len(),
            secs0 == section_views(old(sections)@),
            place_pass(secs0, offset, pass as int, k as nat) == Ok::<
                (Seq<SectionView>, u32),
                RplError,
            >((section_views(sections@), off)),
        decreases n - k,
    {
        let ghost cur = section_views(sections@);
        assert(sections@[k as int]@ == cur[k as int]);
        if is_placed_in_pass(pass, &sections[k].header) {
            let size = sections[k].data.len() as u32;
            match add_u32_exec(off, size) {
                Ok(next) => {
                    sections[k].header.offset = off;
                    sections[k].header.size = size;
                    assert(section_views(sections@) =~= cur.update(k as int, sections@[k as int]@));
                    off = next;
                },
                Err(e) => {
                    proof {
                        lemma_place_pass_err(secs0, offset, pass as int, (k + 1) as nat, n as nat);
                    }
                    return Err(e);
                },
            }
        }
        k = k + 1;
    }
    Ok(off)
}

fn linked_section_exec(sections: &Vec<Section>, i: usize) -> (r: Result<SectionHeader, RplError>)
    requires
        i < sections@.len(),
    ensures
        match linked_section(section_views(sections@), i as int) {
            Ok(s) => r == Ok::<SectionHeader, RplError>(s.header) && s == (SectionView {
                header: s.header,
                ..section_views(sections@)[i as int]
            }),
            Err(e) => r == Err::<SectionHeader, RplError>(e),
        },
{
    let ghost secs = section_views(sections@);
    assert(sections@[i as int]@ == secs[i as int]);
    let s = &sections[i];
    let mut h = s.header;
    if s.header.offset == 0 && s.header.ty.0 != SHT_NULL && s.header.ty.0 != SHT_NOBITS {
        return Err(RplError::UnplacedSection);
    }
    if s.index == DISCARDED {
        return Ok(h);
    }
    if s.header.link != 0 {
        let l = s.header.link as usize;
        if l >= sections.len() {
            return Err(RplError::InvalidLink);
        }
        assert(sections@[l as int]@ == secs[l as int]);
        h.link = sections[l].index as u32;
    }
    if s.header.ty.0 == SHT_RELA {
        let t = s.header.info as usize;
        if t >= sections.len() {
            return Err(RplError::InvalidRelocationTarget);
        }
        assert(sections@[t as int]@ == secs[t as int]);
        h.info = sections[t].index as u32;
    }
    Ok(h)
}

fn header_table_end_exec(e: &ElfFile) -> (r: Result<u32, RplError>)
    requires
        e.num_discarded_sections <= e.sections@.len(),
    ensures
        r == header_table_end(e@),
{
    let count = e.sections.len() - e.num_discarded_sections;
    if count > usize::MAX / 40 {
        assert(count * 40 > usize::MAX) by (nonlinear_arith)
            requires
                count > usize::MAX / 40,
        ;
        return Err(RplError::Overflow);
    }
    assert(count * 40 <= usize::MAX) by (nonlinear_arith)
        requires
            count <= usize::MAX / 40,
    ;
    let table = count * 40;
    let rem = table % 64;
    let rounded = if rem == 0 {
        table
    } else {
        if table > usize::MAX - (64 - rem) {
            return Err(RplError::Overflow);
        }
        table + (64 - rem)
    };
    add_u32_exec(e.header.shoff, rounded as u32)
}

fn clear_for_layout(sections: &mut Vec<Section>)
    ensures
        section_views(final(sections)@) == section_views(old(sections)@).map_values(
            |s: SectionView| cleared_section(s),
        ),
{
    let n = sections.len();
    let mut i: usize = 0;
    while i < n
        invariant
            i <= n,
            n == sections@.len(),
            n == old(sections)@.len(),
            forall|j: int| 0 <= j < i ==> #[trigger] sections@[j]@ == cleared_section(
                old(sections)@[j]@,
            ),
            forall|j: int| i <= j < n ==> #[trigger] sections@[j] == old(sections)@[j],
        decreases n - i,
    {
        let ty = sections[i].header.ty.0;
        if ty == SHT_NOBITS || ty == SHT_NULL {
            sections[i].data.clear();
        }
        sections[i].header.offset = 0;
        i = i + 1;
    }
    assert(section_views(sections@) =~= section_views(old(sections)@).map_values(
        |s: SectionView| cleared_section(s),
    ));
}

fn link_headers(sections: &Vec<Section>) -> (r: Result<Vec<SectionHeader>, RplError>)
    ensures
        match try_seq(sections@.len(), link_fn(section_views(sections@))) {
            Ok(v) => r is Ok && r->Ok_0@.len() == sections@.len() && forall|j: int|
                0 <= j < sections@.len() ==> #[trigger] v[j] == (SectionView {
                    header: r->Ok_0@[j],
                    ..section_views(sections@)[j]
                }),
            Err(e) => r == Err::<Vec<SectionHeader>, RplError>(e),
        },
{
    let ghost placed = section_views(sections@);
    let ghost f = link_fn(placed);
    let m = sections.len();
    let mut headers: Vec<SectionHeader> = Vec::new();
    let ghost mut linked: Seq<SectionView> = Seq::empty();
    let mut i: usize = 0;
    while i < m
        invariant
            i <= m,
            m == sections@.len(),
            placed == section_views(sections@),
            f == link_fn(placed),
            headers@.len() == i,
            linked.len() == i,
            try_seq(i as nat, f) == Ok::<Seq<SectionView>, RplError>(linked),
            forall|j: int| 0 <= j < i ==> #[trigger] linked[j] == (SectionView {
                header: headers@[j],
                ..placed[j]
            }),
        decreases m - i,
    {
        proof {
            lemma_try_seq_step(i as nat, f);
        }
        match linked_section_exec(sections, i) {
            Ok(h) => {
                headers.push(h);
                proof {
                    linked = linked.push(SectionView { header: h, ..placed[i as int] });
                }
            },
            Err(e) => {
                proof {
                    lemma_try_seq_err((i + 1) as nat, m as nat, f);
                }
                return Err(e);
            },
        }
        i = i + 1;
    }
    Ok(headers)
}

impl ElfFile {
    /// Compresses every section of at least 0x18 bytes, other than the CRC
    /// and file information sections, and marks it compressed.
    pub fn deflate_sections(&mut self)
        ensures
            final(self)@ == spec_deflate_sections(old(self)@),
    {
        let n = self.sections.len();
        let mut i: usize = 0;
        while i < n
            invariant
                i <= n,
                n == self.sections@.len(),
                n == old(self).sections@.len(),
                self.header == old(self).header,
                self.num_discarded_sections == old(self).num_discarded_sections,
                forall|j: int| 0 <= j < i ==> #[trigger] self.sections@[j]@ == deflated_section(
                    old(self).sections@[j]@,
                ),
                forall|j: int| i <= j < n ==> #[trigger] self.sections@[j] == old(self).sections@[j],
            decreases n - i,
        {
            let len = self.sections[i].data.len();
            let ty = self.sections[i].header.ty.0;
            if !(len < DEFLATE_MIN_SECTION_SIZE || ty == SHT_RPL_CRCS || ty == SHT_RPL_FILEINFO) {
                let compressed = zlib_compress(self.sections[i].data.as_bytes(), DEFLATE_LEVEL);
                let stored = deflated_contents(len, compressed);
                self.sections[i].data.from_vec(stored);
                self.sections[i].header.flags = SectionFlags(self.sections[i].header.flags.0 | SHF_DEFLATED);
            }
            i = i + 1;
        }
        assert(self@.sections =~= spec_deflate_sections(old(self)@).sections);
    }

    /// Gives every section its offset in the output: after the section
    /// header table come the CRC section, the file information section, the
    /// writable data, the read-only data, the code and the sections that are
    /// not loaded. Then links and relocation targets are renumbered to the
    /// output's section numbers.
    pub fn calculate_section_offsets(&mut self) -> (r: Result<(), RplError>)
        requires
            old(self).num_discarded_sections <= old(self).sections@.len(),
        ensures
            step_agrees(r, final(self)@, spec_calculate_section_offsets(old(self)@)),
    {
        let start = match header_table_end_exec(self) {
            Ok(s) => s,
            Err(e) => {
                return Err(e);
            },
        };
        clear_for_layout(&mut self.sections);
        let ghost cleared = old(self)@.sections.map_values(|s: SectionView| cleared_section(s));
        assert(section_views(self.sections@) =~= cleared);
        let mut offset = start;
        let mut pass: u8 = 0;
        while pass < 6
            invariant
                pass <= 6,
                cleared == old(self)@.sections.map_values(|s: SectionView| cleared_section(s)),
                header_table_end(old(self)@) == Ok::<u32, RplError>(start),
                self.header == old(self).header,
                self.num_discarded_sections == old(self).num_discarded_sections,
                place_passes(cleared, start, pass as nat) == Ok::<(Seq<SectionView>, u32), RplError>(
                    (section_views(self.sections@), offset),
                ),
            decreases 6 - pass,
        {
            let ghost before = section_views(self.sections@);
            assert(place_passes(cleared, start, (pass + 1) as nat) == place_pass(
                before,
                offset,
                pass as int,
                before.len(),
            ));
            match place_sections(&mut self.sections, offset, pass) {
                Ok(next) => {
                    offset = next;
                },
                Err(e) => {
                    assert(place_pass(before, offset, pass as int, before.len()) == Err::<
                        (Seq<SectionView>, u32),
                        RplError,
                    >(e));
                    proof {
                        lemma_place_passes_err(cleared, start, (pass + 1) as nat, 6);
                    }
                    return Err(e);
                },
            }
            pass = pass + 1;
        }
        let ghost placed = section_views(self.sections@);
        assert(placed.len() == self.sections@.len());
        let headers = match link_headers(&self.sections) {
            Ok(h) => h,
            Err(e) => {
                return Err(e);
            },
        };
        assert(try_seq(placed.len(), link_fn(placed)) is Ok);
        let ghost linked = try_seq(placed.len(), link_fn(placed))->Ok_0;
        proof {
            lemma_try_seq_ok(placed.len(), link_fn(placed));
        }
        let m = self.sections.len();
        let mut i: usize = 0;
        while i < m
            invariant
                i <= m,
                m == self.sections@.len(),
                m == placed.len(),
                headers@.len() == m,
                linked.len() == m,
                self.header == old(self).header,
                self.num_discarded_sections == old(self).num_discarded_sections,
                forall|j: int| 0 <= j < m ==> #[trigger] linked[j] == (SectionView {
                    header: headers@[j],
                    ..placed[j]
                }),
                forall|j: int| 0 <= j < i ==> #[trigger] self.sections@[j]@ == linked[j],
                forall|j: int| i <= j < m ==> #[trigger] self.sections@[j]@ == placed[j],
            decreases m - i,
        {
            assert(self.sections@[i as int]@ == placed[i as int]);
            assert(linked[i as int] == (SectionView { header: headers@[i as int], ..placed[i as int] }));
            self.sections[i].header = headers[i];
            i = i + 1;
        }
        assert(section_views(self.sections@) =~= linked);
        Ok(())
    }

    /// The bytes of the module.
    pub fn write(&self) -> (r: Result<Vec<u8>, RplError>)
        ensures
            match spec_write(self@) {
                Ok(v) => r is Ok && r->Ok_0@ == v,
                Err(e) => r == Err::<Vec<u8>, RplError>(e),
            },
    {
        let ghost secs = self@.sections;
        let mut out: Vec<u8> = Vec::new();
        let mut header_bytes: Vec<u8> = Vec::new();
        self.header.write_to(&mut header_bytes);
        assert(header_bytes@ =~= self.header.spec_bytes());
        write_bytes_at(&mut out, 0, header_bytes.as_slice());
        let mut table: Vec<u8> = Vec::new();
        let n = self.sections.len();
        let mut k: usize = 0;
        assert(secs.take(0) =~= Seq::<SectionView>::empty());
        while k < n
            invariant
                k <= n,
                n == self.sections@.len(),
                secs == self@.sections,
                table@ == kept_headers_bytes(secs.take(k as int)),
            decreases n - k,
        {
            assert(secs.take(k + 1).drop_last() =~= secs.take(k as int));
            assert(self.sections@[k as int]@ == secs[k as int]);
            if self.sections[k].index != DISCARDED {
                self.sections[k].header.write_to(&mut table);
            }
            k = k + 1;
        }
        assert(secs.take(n as int) =~= secs);
        if self.header.shoff as usize > usize::MAX - table.len() {
            return Err(RplError::Overflow);
        }
        write_bytes_at(&mut out, self.header.shoff as usize, table.as_slice());
        let ghost with_table = out@;
        let mut k: usize = 0;
        while k < n
            invariant
                k <= n,
                n == self.sections@.len(),
                secs == self@.sections,
                out@ == write_contents(with_table, secs, k as nat),
                forall|j: int|
                    0 <= j < k ==> !(#[trigger] secs[j].data.len() > 0 && secs[j].header.offset
                        + secs[j].data.len() > usize::MAX),
            decreases n - k,
        {
            assert(self.sections@[k as int]@ == secs[k as int]);
            let len = self.sections[k].data.len();
            if len > 0 {
                let offset = self.sections[k].header.offset as usize;
                if offset > usize::MAX - len {
                    assert(secs[k as int].data.len() > 0 && secs[k as int].header.offset
                        + secs[k as int].data.len() > usize::MAX);
                    return Err(RplError::Overflow);
                }
                write_bytes_at(&mut out, offset, self.sections[k].data.as_bytes());
            }
            k = k + 1;
        }
        Ok(out)
    }
}

} // verus!
