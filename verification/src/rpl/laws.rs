//! Properties of the conversion that hold for every input.
use vstd::prelude::*;
use vstd::arithmetic::div_mod::{lemma_fundamental_div_mod, lemma_mod_multiples_vanish};
use crate::bytes::{
    be32, get32, holds_at, lemma_be32_roundtrip, lemma_get32_of, lemma_write_at_holds,
    lemma_write_at_keeps,
};
use crate::bytes::starts_with;
use crate::elf::{
    Rela, SectionHeader, R_PPC_GHS_REL16_HI, R_PPC_REL32, SHF_ALLOC, SHF_EXEC, SHF_WRITE,
    SHT_NOBITS, SHT_RELA, SHT_RPL_CRCS, SHT_RPL_EXPORTS, SHT_RPL_FILEINFO, SHT_RPL_IMPORTS,
};
use crate::external::{crc32_of, crc32_register, crc32_shift, crc32_shifts};
use super::fixes::{
    concat_all, convert_fn, convert_relocation, convert_relocations, is_kept_relocation,
    rela_type, spec_fix_file_header, spec_fix_relocations, spec_fix_section_flags,
    spec_fix_section_types,
};
use super::info::{
    default_file_info, file_info, info_fold, kept_crcs, round_sizes, spec_generate_crc_section,
    spec_generate_file_info_section, with_crc_slot,
};
use super::layout::{
    cleared_section, deflated_bytes, header_table_end, link_fn, linked_section, place_pass,
    place_passes, placed_in_pass, spec_calculate_section_offsets, spec_deflate_sections,
    spec_image, write_contents,
};
use super::loader::{
    add_u32, initial_load_max, loader_fold, loader_step, relocate_section_fn, round_up,
    spec_fix_loader_virtual_addresses,
};
use super::read::{
    apply_discards, count_kept, debug_fn, debug_prefix, lemma_count_kept_bound, name_fn, raw_fn,
    spec_read,
};
use super::{
    lemma_try_seq_ok, lemma_try_seq_step, spec_from_elf, spec_module, try_seq, ElfFileView,
    RplError, SectionView, CODE_BASE_ADDRESS, DATA_BASE_ADDRESS, DISCARDED, LOAD_BASE_ADDRESS,
};

verus! {

/// Number of 32-bit relative relocations in `rels`.
pub open spec fn count_rel32(rels: Seq<Rela>) -> nat
    decreases rels.len(),
{
    if rels.len() == 0 {
        0
    } else {
        count_rel32(rels.drop_last()) + if rela_type(rels.last()) == R_PPC_REL32 {
            1nat
        } else {
            0nat
        }
    }
}

/// Whether the loader handles relocations of type `ty` in a module.
pub open spec fn is_module_relocation(ty: u32) -> bool {
    ty != R_PPC_REL32 && (is_kept_relocation(ty) || ty == R_PPC_GHS_REL16_HI)
}

proof fn lemma_ghs_type(info: u32)
    ensures
        (((info >> 8u32) << 8u32) | R_PPC_GHS_REL16_HI) & 0xffu32 == R_PPC_GHS_REL16_HI,
{
    assert((((info >> 8u32) << 8u32) | 0xfcu32) & 0xffu32 == 0xfcu32) by (bit_vector);
}

proof fn lemma_convert_prefix(rels: Seq<Rela>, m: nat)
    requires
        m <= rels.len(),
        try_seq(m, convert_fn(rels)) is Ok,
    ensures
        concat_all(try_seq(m, convert_fn(rels))->Ok_0).len() == m + count_rel32(rels.take(m as int)),
        forall|k: int|
            0 <= k < concat_all(try_seq(m, convert_fn(rels))->Ok_0).len() ==> is_module_relocation(
                rela_type(#[trigger] concat_all(try_seq(m, convert_fn(rels))->Ok_0)[k]),
            ),
    decreases m,
{
    let f = convert_fn(rels);
    if m == 0 {
        assert(rels.take(0) =~= Seq::<Rela>::empty());
    } else {
        lemma_try_seq_step((m - 1) as nat, f);
        lemma_convert_prefix(rels, (m - 1) as nat);
        let parts = try_seq((m - 1) as nat, f)->Ok_0;
        let part = convert_relocation(rels[m - 1])->Ok_0;
        assert(parts.push(part).drop_last() =~= parts);
        assert(rels.take(m as int).drop_last() =~= rels.take(m - 1));
        let r = rels[m - 1];
        lemma_ghs_type(r.info);
        let all = concat_all(parts.push(part));
        assert(all == concat_all(parts) + part);
        assert forall|k: int| 0 <= k < all.len() implies is_module_relocation(
            rela_type(#[trigger] all[k]),
        ) by {
            if k >= concat_all(parts).len() {
                assert(all[k] == part[k - concat_all(parts).len()]);
            } else {
                assert(all[k] == concat_all(parts)[k]);
            }
        }
    }
}

/// Converting relocations for the module adds one relocation for every
/// 32-bit relative relocation, and every relocation that results is of a type
/// the loader handles.
pub proof fn law_convert_relocations(rels: Seq<Rela>)
    requires
        convert_relocations(rels) is Ok,
    ensures
        convert_relocations(rels)->Ok_0.len() == rels.len() + count_rel32(rels),
        forall|k: int|
            0 <= k < convert_relocations(rels)->Ok_0.len() ==> is_module_relocation(
                rela_type(#[trigger] convert_relocations(rels)->Ok_0[k]),
            ),
{
    lemma_convert_prefix(rels, rels.len());
    assert(rels.take(rels.len() as int) =~= rels);
}

/// The CRC table has one more entry than there are kept sections: a zero
/// entry for the CRC section itself, just before the entry of the last
/// section; the other entries keep their order.
pub proof fn law_crc_table(crcs: Seq<u32>)
    ensures
        with_crc_slot(crcs).len() == crcs.len() + 1,
        crcs.len() > 0 ==> with_crc_slot(crcs)[crcs.len() - 1] == 0u32 && with_crc_slot(crcs).last()
            == crcs.last() && forall|k: int|
            0 <= k < crcs.len() - 1 ==> #[trigger] with_crc_slot(crcs)[k] == crcs[k],
        crcs.len() == 0 ==> with_crc_slot(crcs) == seq![0u32],
{
}

/// Number of sections of `secs` that are kept.
pub open spec fn count_kept_sections(secs: Seq<SectionView>) -> nat
    decreases secs.len(),
{
    if secs.len() == 0 {
        0
    } else {
        count_kept_sections(secs.drop_last()) + if secs.last().index == DISCARDED {
            0nat
        } else {
            1nat
        }
    }
}

/// There is one checksum for every kept section.
pub proof fn law_one_crc_per_kept_section(secs: Seq<SectionView>)
    ensures
        kept_crcs(secs).len() == count_kept_sections(secs),
    decreases secs.len(),
{
    if secs.len() > 0 {
        law_one_crc_per_kept_section(secs.drop_last());
    }
}

/// A rounded-up value is the least multiple of the alignment that is not
/// below the value.
pub proof fn law_round_up(v: u32, align: u32)
    requires
        round_up(v, align) is Ok,
    ensures
        round_up(v, align)->Ok_0 % align == 0,
        v <= round_up(v, align)->Ok_0 < v + align,
{
    let a = align as int;
    let x = v as int;
    assert(x == a * (x / a) + x % a) by {
        lemma_fundamental_div_mod(x, a);
    }
    if x % a != 0 {
        let q = x / a;
        assert(a * (q + 1) == a * q + a) by (nonlinear_arith);
        assert((x + (a - x % a)) == a * (x / a + 1));
        assert((a * (x / a + 1)) % a == 0) by {
            lemma_mod_multiples_vanish(x / a + 1, 0, a);
        }
    }
}

/// The segment sizes in the file information are multiples of the segment
/// alignments: 32 bytes for code and loader data, 4096 for data.
pub proof fn law_file_info_aligned(secs: Seq<SectionView>, is_rpl: bool)
    requires
        file_info(secs, is_rpl) is Ok,
    ensures
        file_info(secs, is_rpl)->Ok_0.text_size % 32 == 0,
        file_info(secs, is_rpl)->Ok_0.data_size % 4096 == 0,
        file_info(secs, is_rpl)->Ok_0.load_size % 32 == 0,
{
    let info = info_fold(default_file_info(is_rpl), secs, secs.len())->Ok_0;
    lemma_info_fold_aligns(default_file_info(is_rpl), secs, secs.len());
    law_round_up(info.text_size, info.text_align);
    law_round_up(info.data_size, info.data_align);
    law_round_up(info.load_size, info.load_align);
}

proof fn lemma_info_fold_aligns(info: super::super::elf::RplFileInfo, secs: Seq<SectionView>, k: nat)
    ensures
        info_fold(info, secs, k) matches Ok(r) ==> r.text_align == info.text_align && r.data_align
            == info.data_align && r.load_align == info.load_align,
    decreases k,
{
    if k > 0 {
        lemma_info_fold_aligns(info, secs, (k - 1) as nat);
    }
}

/// A compressed section starts with its uncompressed length, big-endian,
/// followed by the zlib stream.
pub proof fn law_deflated_prefix(uncompressed_len: nat, compressed: Seq<u8>)
    ensures
        get32(deflated_bytes(uncompressed_len, compressed), 0) == uncompressed_len as u32,
        deflated_bytes(uncompressed_len, compressed).subrange(
            4,
            deflated_bytes(uncompressed_len, compressed).len() as int,
        ) == compressed,
{
    let b = deflated_bytes(uncompressed_len, compressed);
    lemma_be32_roundtrip(uncompressed_len as u32);
    assert(b.subrange(0, 4) =~= be32(uncompressed_len as u32));
    lemma_get32_of(b, 0, uncompressed_len as u32);
    assert(b.subrange(4, b.len() as int) =~= compressed);
}

proof fn lemma_count_kept_prefix(d: Seq<bool>, i: int, j: int)
    requires
        0 <= i < j <= d.len(),
        !d[i],
    ensures
        count_kept(d.take(i)) < count_kept(d.take(j)),
    decreases j,
{
    assert(d.take(j).drop_last() =~= d.take(j - 1));
    if j - 1 > i {
        lemma_count_kept_prefix(d, i, j - 1);
    } else {
        assert(d.take(j).last() == d[i]);
    }
}

proof fn lemma_count_kept_prefix_le(d: Seq<bool>, j: int)
    requires
        0 <= j <= d.len(),
    ensures
        count_kept(d.take(j)) <= count_kept(d),
    decreases d.len() - j,
{
    if j < d.len() {
        lemma_count_kept_prefix_le(d, j + 1);
        assert(d.take(j + 1).drop_last() =~= d.take(j));
    } else {
        assert(d.take(j) =~= d);
    }
}

/// The kept sections of a file that was read are numbered in order, without
/// gaps: the numbers of two kept sections are in the order of the sections,
/// and every number is below the number of kept sections.
pub proof fn law_read_numbering(file: Seq<u8>, i: int, j: int)
    requires
        spec_read(file) is Ok,
        0 <= i < j < spec_read(file)->Ok_0.sections.len(),
        spec_read(file)->Ok_0.sections[i].index != DISCARDED,
        spec_read(file)->Ok_0.sections[j].index != DISCARDED,
    ensures
        spec_read(file)->Ok_0.sections[i].index < spec_read(file)->Ok_0.sections[j].index,
        spec_read(file)->Ok_0.sections[j].index < spec_read(file)->Ok_0.sections.len()
            - spec_read(file)->Ok_0.num_discarded_sections,
{
    let e = spec_read(file)->Ok_0;
    let h = super::super::elf::Header::spec_parse(file, 0);
    let raw = try_seq(h.shnum as nat, super::read::raw_fn(file, h.shoff))->Ok_0;
    lemma_try_seq_ok(h.shnum as nat, super::read::raw_fn(file, h.shoff));
    let table = raw[h.shstrndx as int].data;
    lemma_try_seq_ok(raw.len(), super::read::name_fn(raw, table));
    let named = try_seq(raw.len(), super::read::name_fn(raw, table))->Ok_0;
    lemma_try_seq_ok(named.len(), super::read::debug_fn(named));
    let d = try_seq(named.len(), super::read::debug_fn(named))->Ok_0;
    assert(e.sections == apply_discards(named, d));
    assert(!d[i] && !d[j]);
    lemma_count_kept_prefix(d, i, j);
    lemma_count_kept_prefix(d, j, d.len() as int);
    assert(d.take(d.len() as int) =~= d);
    super::read::lemma_count_kept_bound(d);
}

/// Whether the placed sections of `secs`, those with an offset, lie between
/// `start` and `cursor` with their sizes recorded, and no two of them overlap.
pub open spec fn placed_apart(secs: Seq<SectionView>, start: int, cursor: int) -> bool {
    &&& forall|i: int|
        0 <= i < secs.len() && (#[trigger] secs[i]).header.offset != 0 ==> start <= secs[i].header.offset
            && secs[i].header.offset + secs[i].data.len() <= cursor && secs[i].header.size == secs[i].data.len()
    &&& forall|i: int, j: int|
        0 <= i < secs.len() && 0 <= j < secs.len() && i != j && (#[trigger] secs[i]).header.offset != 0
            && (#[trigger] secs[j]).header.offset != 0 ==> secs[i].header.offset + secs[i].data.len()
            <= secs[j].header.offset || secs[j].header.offset + secs[j].data.len() <= secs[i].header.offset
}

proof fn lemma_place_pass_apart(secs: Seq<SectionView>, start: int, offset: u32, pass: int, k: nat)
    requires
        k <= secs.len(),
        0 < start <= offset,
        placed_apart(secs, start, offset as int),
        forall|i: int| 0 <= i < secs.len() ==> (#[trigger] secs[i]).data.len() <= u32::MAX,
    ensures
        place_pass(secs, offset, pass, k) matches Ok(st) ==> {
            &&& placed_apart(st.0, start, st.1 as int)
            &&& offset <= st.1
            &&& st.0.len() == secs.len()
            &&& forall|i: int| 0 <= i < secs.len() ==> (#[trigger] st.0[i]).data == secs[i].data && st.0[i].header.ty == secs[i].header.ty
        },
    decreases k,
{
    if k > 0 {
        lemma_place_pass_apart(secs, start, offset, pass, (k - 1) as nat);
        if let Ok(st) = place_pass(secs, offset, pass, (k - 1) as nat) {
            let s = st.0[k - 1];
            if placed_in_pass(pass, s.header) {
                let size = s.data.len() as u32;
                assert(secs[k - 1].data.len() <= u32::MAX);
                if let Ok(next) = add_u32(st.1, size) {
                    let s2 = st.0.update(k - 1, SectionView { header: super::super::elf::SectionHeader { offset: st.1, size, ..s.header }, ..s });
                    assert forall|i: int| 0 <= i < s2.len() && (#[trigger] s2[i]).header.offset != 0 implies start
                        <= s2[i].header.offset && s2[i].header.offset + s2[i].data.len() <= next
                        && s2[i].header.size == s2[i].data.len() by {
                        if i != k - 1 {
                            assert(s2[i] == st.0[i]);
                        }
                    }
                    assert forall|i: int, j: int|
                        0 <= i < s2.len() && 0 <= j < s2.len() && i != j && (#[trigger] s2[i]).header.offset != 0
                            && (#[trigger] s2[j]).header.offset != 0 implies s2[i].header.offset + s2[i].data.len()
                            <= s2[j].header.offset || s2[j].header.offset + s2[j].data.len() <= s2[i].header.offset by {
                        if i != k - 1 && j != k - 1 {
                            assert(s2[i] == st.0[i]);
                            assert(s2[j] == st.0[j]);
                        } else if i == k - 1 {
                            assert(s2[j] == st.0[j]);
                        } else {
                            assert(s2[i] == st.0[i]);
                        }
                    }
                }
            }
        }
    }
}

proof fn lemma_place_passes_apart(secs: Seq<SectionView>, start: int, offset: u32, p: nat)
    requires
        0 < start <= offset,
        placed_apart(secs, start, offset as int),
        forall|i: int| 0 <= i < secs.len() ==> (#[trigger] secs[i]).data.len() <= u32::MAX,
    ensures
        place_passes(secs, offset, p) matches Ok(st) ==> {
            &&& placed_apart(st.0, start, st.1 as int)
            &&& offset <= st.1
            &&& st.0.len() == secs.len()
            &&& forall|i: int| 0 <= i < secs.len() ==> (#[trigger] st.0[i]).data == secs[i].data && st.0[i].header.ty == secs[i].header.ty
        },
    decreases p,
{
    if p > 0 {
        lemma_place_passes_apart(secs, start, offset, (p - 1) as nat);
        if let Ok(st) = place_passes(secs, offset, (p - 1) as nat) {
            assert forall|i: int| 0 <= i < st.0.len() implies (#[trigger] st.0[i]).data.len() <= u32::MAX by {
                assert(st.0[i].data == secs[i].data);
            }
            lemma_place_pass_apart(st.0, start, st.1, p - 1, st.0.len());
        }
    }
}

proof fn lemma_place_pass_keeps(secs: Seq<SectionView>, offset: u32, pass: int, k: nat)
    requires
        k <= secs.len(),
    ensures
        place_pass(secs, offset, pass, k) matches Ok(st) ==> st.0.len() == secs.len() && forall|i: int|
            0 <= i < secs.len() ==> (#[trigger] st.0[i]).data == secs[i].data && st.0[i].header.ty == secs[i].header.ty
                && st.0[i].index == secs[i].index,
    decreases k,
{
    if k > 0 {
        lemma_place_pass_keeps(secs, offset, pass, (k - 1) as nat);
    }
}

proof fn lemma_place_passes_keep(secs: Seq<SectionView>, offset: u32, p: nat)
    ensures
        place_passes(secs, offset, p) matches Ok(st) ==> st.0.len() == secs.len() && forall|i: int|
            0 <= i < secs.len() ==> (#[trigger] st.0[i]).data == secs[i].data && st.0[i].header.ty == secs[i].header.ty
                && st.0[i].index == secs[i].index,
    decreases p,
{
    if p > 0 {
        lemma_place_passes_keep(secs, offset, (p - 1) as nat);
        if let Ok(st) = place_passes(secs, offset, (p - 1) as nat) {
            lemma_place_pass_keeps(st.0, st.1, p - 1, st.0.len());
        }
    }
}

/// Laying out the sections gives every section with contents its own range
/// of the module, after the section header table, with its size recorded,
/// where each section's contents fit in 32 bits.
pub proof fn law_sections_laid_out_apart(e: ElfFileView, i: int, j: int)
    requires
        spec_calculate_section_offsets(e) is Ok,
        e.header.shoff > 0,
        forall|k: int|
            0 <= k < spec_calculate_section_offsets(e)->Ok_0.sections.len() ==> (#[trigger] spec_calculate_section_offsets(
                e,
            )->Ok_0.sections[k]).data.len() <= u32::MAX,
        0 <= i < spec_calculate_section_offsets(e)->Ok_0.sections.len(),
        0 <= j < spec_calculate_section_offsets(e)->Ok_0.sections.len(),
        spec_calculate_section_offsets(e)->Ok_0.sections[i].data.len() > 0,
        spec_calculate_section_offsets(e)->Ok_0.sections[j].data.len() > 0,
    ensures
        ({
            let secs = spec_calculate_section_offsets(e)->Ok_0.sections;
            &&& header_table_end(e)->Ok_0 <= secs[i].header.offset
            &&& secs[i].header.size == secs[i].data.len()
            &&& i != j ==> secs[i].header.offset + secs[i].data.len() <= secs[j].header.offset
                || secs[j].header.offset + secs[j].data.len() <= secs[i].header.offset
        }),
{
    let start = header_table_end(e)->Ok_0;
    let c = e.sections.map_values(|s: SectionView| cleared_section(s));
    let out = spec_calculate_section_offsets(e)->Ok_0.sections;
    let st = place_passes(c, start, 6)->Ok_0;
    lemma_place_passes_keep(c, start, 6);
    lemma_try_seq_ok(st.0.len(), link_fn(st.0));
    assert(out == try_seq(st.0.len(), link_fn(st.0))->Ok_0);
    assert forall|k: int| 0 <= k < c.len() implies (#[trigger] c[k]).data.len() <= u32::MAX by {
        assert(linked_section(st.0, k) == Ok::<SectionView, RplError>(out[k]));
        assert(st.0[k].data == c[k].data);
    }
    assert(placed_apart(c, start as int, start as int));
    lemma_place_passes_apart(c, start as int, start, 6);
    assert(linked_section(st.0, i) == Ok::<SectionView, RplError>(out[i]));
    assert(linked_section(st.0, j) == Ok::<SectionView, RplError>(out[j]));
    assert(st.0[i].data == c[i].data);
    assert(st.0[j].data == c[j].data);
}

/// Whether no two sections of `secs` with contents overlap.
pub open spec fn contents_apart(secs: Seq<SectionView>) -> bool {
    forall|i: int, j: int|
        0 <= i < secs.len() && 0 <= j < secs.len() && i != j && (#[trigger] secs[i]).data.len() > 0
            && (#[trigger] secs[j]).data.len() > 0 ==> secs[i].header.offset + secs[i].data.len()
            <= secs[j].header.offset || secs[j].header.offset + secs[j].data.len() <= secs[i].header.offset
}

proof fn lemma_write_contents_holds(buf: Seq<u8>, secs: Seq<SectionView>, k: nat)
    requires
        k <= secs.len(),
        contents_apart(secs),
    ensures
        forall|i: int|
            0 <= i < k && (#[trigger] secs[i]).data.len() > 0 ==> holds_at(
                write_contents(buf, secs, k),
                secs[i].header.offset as int,
                secs[i].data,
            ),
    decreases k,
{
    if k > 0 {
        lemma_write_contents_holds(buf, secs, (k - 1) as nat);
        let p = write_contents(buf, secs, (k - 1) as nat);
        let s = secs[k - 1];
        if s.data.len() > 0 {
            lemma_write_at_holds(p, s.header.offset as int, s.data);
            assert forall|i: int| 0 <= i < k && (#[trigger] secs[i]).data.len() > 0 implies holds_at(
                write_contents(buf, secs, k),
                secs[i].header.offset as int,
                secs[i].data,
            ) by {
                if i < k - 1 {
                    lemma_write_at_keeps(p, s.header.offset as int, s.data, secs[i].header.offset as int, secs[i].data);
                }
            }
        }
    }
}

/// The module holds the contents of each section at the offset its header
/// records, where no two sections with contents overlap.
pub proof fn law_image_holds_sections(e: ElfFileView, i: int)
    requires
        contents_apart(e.sections),
        0 <= i < e.sections.len(),
        e.sections[i].data.len() > 0,
    ensures
        holds_at(spec_image(e), e.sections[i].header.offset as int, e.sections[i].data),
{
    lemma_write_contents_holds(
        crate::bytes::write_at(
            crate::bytes::write_at(Seq::empty(), 0, e.header.spec_bytes()),
            e.header.shoff as int,
            super::layout::kept_headers_bytes(e.sections),
        ),
        e.sections,
        e.sections.len(),
    );
}

/// A converted module holds the contents of each of its sections at the
/// offset and with the size the section's header records, where each
/// section's contents fit in 32 bits.
#[verifier::spinoff_prover]
pub proof fn law_module_holds_sections(file: Seq<u8>, is_rpl: bool, i: int)
    requires
        spec_from_elf(file, is_rpl) is Ok,
        forall|k: int|
            0 <= k < spec_module(file, is_rpl)->Ok_0.sections.len() ==> (#[trigger] spec_module(
                file,
                is_rpl,
            )->Ok_0.sections[k]).data.len() <= u32::MAX,
        0 <= i < spec_module(file, is_rpl)->Ok_0.sections.len(),
        spec_module(file, is_rpl)->Ok_0.sections[i].data.len() > 0,
    ensures
        holds_at(
            spec_from_elf(file, is_rpl)->Ok_0,
            spec_module(file, is_rpl)->Ok_0.sections[i].header.offset as int,
            spec_module(file, is_rpl)->Ok_0.sections[i].data,
        ),
        spec_module(file, is_rpl)->Ok_0.sections[i].header.size == spec_module(file, is_rpl)->Ok_0.sections[i].data.len(),
{
    let e8 = lemma_module_laid_out(file, is_rpl);
    let e9 = spec_module(file, is_rpl)->Ok_0;
    assert forall|a: int, b: int|
        0 <= a < e9.sections.len() && 0 <= b < e9.sections.len() && a != b && (#[trigger] e9.sections[a]).data.len() > 0
            && (#[trigger] e9.sections[b]).data.len() > 0 implies e9.sections[a].header.offset + e9.sections[a].data.len()
            <= e9.sections[b].header.offset || e9.sections[b].header.offset + e9.sections[b].data.len()
            <= e9.sections[a].header.offset by {
        law_sections_laid_out_apart(e8, a, b);
    }
    law_sections_laid_out_apart(e8, i, i);
    law_image_holds_sections(e9, i);
}

proof fn lemma_write_contents_keeps(buf: Seq<u8>, secs: Seq<SectionView>, k: nat, pos: int, data: Seq<u8>)
    requires
        k <= secs.len(),
        holds_at(buf, pos, data),
        forall|i: int| 0 <= i < secs.len() && (#[trigger] secs[i]).data.len() > 0 ==> pos + data.len() <= secs[i].header.offset,
    ensures
        holds_at(write_contents(buf, secs, k), pos, data),
    decreases k,
{
    if k > 0 {
        lemma_write_contents_keeps(buf, secs, (k - 1) as nat, pos, data);
        let s = secs[k - 1];
        if s.data.len() > 0 {
            lemma_write_at_keeps(write_contents(buf, secs, (k - 1) as nat), s.header.offset as int, s.data, pos, data);
        }
    }
}

/// The file that is laid out to make the module, and its header.
proof fn lemma_module_laid_out(file: Seq<u8>, is_rpl: bool) -> (e8: ElfFileView)
    requires
        spec_module(file, is_rpl) is Ok,
    ensures
        spec_calculate_section_offsets(e8) == Ok::<ElfFileView, RplError>(spec_module(file, is_rpl)->Ok_0),
        e8.header.shoff == 64,
        e8.header.abi.0 == crate::elf::EABI_CAFE,
        e8.header.ty == 0xFE01,
        spec_module(file, is_rpl)->Ok_0.header == e8.header,
{
    let e0 = spec_read(file)->Ok_0;
    let e3 = spec_fix_relocations(spec_fix_section_types(spec_fix_section_flags(e0)))->Ok_0;
    let e4 = spec_fix_loader_virtual_addresses(e3)->Ok_0;
    let e5 = spec_generate_file_info_section(e4, is_rpl)->Ok_0;
    let e6 = spec_generate_crc_section(e5)->Ok_0;
    spec_deflate_sections(spec_fix_file_header(e6))
}

/// A converted module starts with its file header, which marks it as a Cafe
/// OS module (ABI 0xCAFE, type 0xFE01) with its section headers at offset
/// 64, where each section's contents fit in 32 bits.
#[verifier::spinoff_prover]
#[verifier::rlimit(40)]
pub proof fn law_module_header(file: Seq<u8>, is_rpl: bool)
    requires
        spec_from_elf(file, is_rpl) is Ok,
        forall|k: int|
            0 <= k < spec_module(file, is_rpl)->Ok_0.sections.len() ==> (#[trigger] spec_module(
                file,
                is_rpl,
            )->Ok_0.sections[k]).data.len() <= u32::MAX,
    ensures
        holds_at(spec_from_elf(file, is_rpl)->Ok_0, 0, spec_module(file, is_rpl)->Ok_0.header.spec_bytes()),
        spec_module(file, is_rpl)->Ok_0.header.abi.0 == crate::elf::EABI_CAFE,
        spec_module(file, is_rpl)->Ok_0.header.ty == 0xFE01,
        spec_module(file, is_rpl)->Ok_0.header.shoff == 64,
{
    let e8 = lemma_module_laid_out(file, is_rpl);
    let e9 = spec_module(file, is_rpl)->Ok_0;
    let h = e9.header.spec_bytes();
    assert(h.len() == 52);
    let b1 = crate::bytes::write_at(Seq::empty(), 0, h);
    let buf = crate::bytes::write_at(b1, 64, super::layout::kept_headers_bytes(e9.sections));
    lemma_write_at_holds(Seq::empty(), 0, h);
    lemma_write_at_keeps(b1, 64, super::layout::kept_headers_bytes(e9.sections), 0, h);
    assert forall|i: int| 0 <= i < e9.sections.len() && (#[trigger] e9.sections[i]).data.len() > 0 implies 0 + h.len()
        <= e9.sections[i].header.offset by {
        law_sections_laid_out_apart(e8, i, i);
    }
    lemma_write_contents_keeps(buf, e9.sections, e9.sections.len(), 0, h);
    assert(spec_from_elf(file, is_rpl)->Ok_0 == spec_image(e9));
}

/// Whether `s` is a symbol or string table.
pub open spec fn is_table(s: SectionView) -> bool {
    s.header.ty.0 == crate::elf::SHT_SYMTAB || s.header.ty.0 == crate::elf::SHT_STRTAB
}

proof fn lemma_alloc_bit(f: u32)
    ensures
        (f | crate::elf::SHF_ALLOC) & crate::elf::SHF_ALLOC != 0,
{
    assert((f | 2u32) & 2u32 != 0) by (bit_vector);
}

proof fn lemma_loader_step_tables(m0: u32, secs: Seq<SectionView>, i: int)
    requires
        0 <= i < secs.len(),
    ensures
        loader_step(m0, secs, i) matches Ok(st) ==> {
            &&& st.1.len() == secs.len()
            &&& forall|x: int| 0 <= x < secs.len() ==> (#[trigger] st.1[x]).header.ty == secs[x].header.ty
                && st.1[x].header.addralign == secs[x].header.addralign
            &&& forall|x: int| 0 <= x < secs.len() && x != i && !(secs[x].header.ty.0 == crate::elf::SHT_RELA)
                ==> #[trigger] st.1[x] == secs[x]
            &&& st.1[i].data == secs[i].data
            &&& is_table(secs[i]) ==> {
                &&& round_up(m0, secs[i].header.addralign) == Ok::<u32, RplError>(st.1[i].header.addr)
                &&& st.1[i].header.flags.0 == secs[i].header.flags.0 | crate::elf::SHF_ALLOC
                &&& st.0 == st.1[i].header.addr + (secs[i].data.len() as u32)
            }
            &&& !is_table(secs[i]) ==> st.0 == m0 && st.1 == secs
        },
{
    let s = secs[i];
    if is_table(s) {
        if let Ok(m) = round_up(m0, s.header.addralign) {
            let size = s.data.len() as u32;
            if let Ok(hi) = add_u32(s.header.addr, size) {
                let f = relocate_section_fn(secs, i, s.header.addr, hi, m);
                if try_seq(secs.len(), f) is Ok {
                    lemma_try_seq_ok(secs.len(), f);
                    let moved = try_seq(secs.len(), f)->Ok_0;
                    assert forall|x: int| 0 <= x < secs.len() implies (#[trigger] moved[x]).header == secs[x].header
                        && (!(secs[x].header.ty.0 == crate::elf::SHT_RELA) ==> moved[x] == secs[x]) by {
                        assert(f(x) == Ok::<SectionView, RplError>(moved[x]));
                    }
                }
            }
        }
    }
}

proof fn lemma_loader_fold_tables(m0: u32, secs: Seq<SectionView>, k: nat)
    requires
        k <= secs.len(),
        m0 >= super::LOAD_BASE_ADDRESS,
        forall|x: int| 0 <= x < secs.len() && is_table(#[trigger] secs[x]) ==> secs[x].data.len() <= u32::MAX,
    ensures
        loader_fold(m0, secs, k) matches Ok(st) ==> {
            &&& st.1.len() == secs.len()
            &&& st.0 >= m0
            &&& forall|x: int| 0 <= x < secs.len() ==> (#[trigger] st.1[x]).header.ty == secs[x].header.ty
                && st.1[x].header.addralign == secs[x].header.addralign
            &&& forall|x: int| 0 <= x < secs.len() && is_table(secs[x]) ==> (#[trigger] st.1[x]).data == secs[x].data
            &&& forall|x: int| 0 <= x < k && is_table(secs[x]) ==> {
                &&& super::LOAD_BASE_ADDRESS <= (#[trigger] st.1[x]).header.addr
                &&& st.1[x].header.addr % st.1[x].header.addralign == 0
                &&& st.1[x].header.flags.0 & crate::elf::SHF_ALLOC != 0
                &&& st.1[x].header.addr + st.1[x].data.len() <= st.0
            }
            &&& forall|x: int, y: int| 0 <= x < y < k && is_table(secs[x]) && is_table(secs[y]) ==>
                (#[trigger] st.1[x]).header.addr + st.1[x].data.len() <= (#[trigger] st.1[y]).header.addr
        },
    decreases k,
{
    if k > 0 {
        lemma_loader_fold_tables(m0, secs, (k - 1) as nat);
        if let Ok(st) = loader_fold(m0, secs, (k - 1) as nat) {
            let i = k - 1;
            lemma_loader_step_tables(st.0, st.1, i);
            if let Ok(st2) = loader_step(st.0, st.1, i) {
                if is_table(secs[i]) {
                    assert(is_table(st.1[i]));
                    let m = st2.1[i].header.addr;
                    law_round_up(st.0, st.1[i].header.addralign);
                    lemma_alloc_bit(st.1[i].header.flags.0);
                    assert(st.1[i].data == secs[i].data);
                    assert(secs[i].data.len() <= u32::MAX);
                }
                assert forall|x: int| 0 <= x < secs.len() && is_table(secs[x]) implies (#[trigger] st2.1[x]).data == secs[x].data by {
                    assert(is_table(st.1[x]));
                    if x != i {
                        assert(st2.1[x] == st.1[x]);
                    }
                }
                assert forall|x: int| 0 <= x < k && is_table(secs[x]) implies {
                    &&& super::LOAD_BASE_ADDRESS <= (#[trigger] st2.1[x]).header.addr
                    &&& st2.1[x].header.addr % st2.1[x].header.addralign == 0
                    &&& st2.1[x].header.flags.0 & crate::elf::SHF_ALLOC != 0
                    &&& st2.1[x].header.addr + st2.1[x].data.len() <= st2.0
                } by {
                    assert(is_table(st.1[x]));
                    if x != i {
                        assert(st2.1[x] == st.1[x]);
                    }
                }
                assert forall|x: int, y: int| 0 <= x < y < k && is_table(secs[x]) && is_table(secs[y]) implies
                    (#[trigger] st2.1[x]).header.addr + st2.1[x].data.len() <= (#[trigger] st2.1[y]).header.addr by {
                    assert(is_table(st.1[x]));
                    assert(st2.1[x] == st.1[x]);
                    if y != i {
                        assert(is_table(st.1[y]));
                        assert(st2.1[y] == st.1[y]);
                    }
                }
            }
        }
    }
}

proof fn lemma_initial_load_max_floor(secs: Seq<SectionView>, k: nat)
    ensures
        initial_load_max(secs, k) matches Ok(m) ==> m >= super::LOAD_BASE_ADDRESS,
    decreases k,
{
    if k > 0 {
        lemma_initial_load_max_floor(secs, (k - 1) as nat);
    }
}

/// The symbol and string tables move into the loader segment: each is
/// allocated at an address at or above 0xC0000000 aligned to its alignment,
/// keeps its contents, and lies before the tables that follow it, where each
/// table's contents fit in 32 bits.
pub proof fn law_loader_tables(e: ElfFileView, i: int, j: int)
    requires
        spec_fix_loader_virtual_addresses(e) is Ok,
        forall|x: int| 0 <= x < e.sections.len() && is_table(#[trigger] e.sections[x]) ==> e.sections[x].data.len() <= u32::MAX,
        0 <= i < e.sections.len(),
        is_table(e.sections[i]),
    ensures
        ({
            let out = spec_fix_loader_virtual_addresses(e)->Ok_0.sections;
            &&& super::LOAD_BASE_ADDRESS <= out[i].header.addr
            &&& out[i].header.addr % out[i].header.addralign == 0
            &&& out[i].header.flags.0 & crate::elf::SHF_ALLOC != 0
            &&& out[i].data == e.sections[i].data
            &&& i < j < e.sections.len() && is_table(e.sections[j]) ==> out[i].header.addr + out[i].data.len()
                <= out[j].header.addr
        }),
{
    let m = initial_load_max(e.sections, e.sections.len())->Ok_0;
    lemma_initial_load_max_floor(e.sections, e.sections.len());
    lemma_loader_fold_tables(m, e.sections, e.sections.len());
    let st = loader_fold(m, e.sections, e.sections.len())->Ok_0;
    assert(spec_fix_loader_virtual_addresses(e)->Ok_0.sections == st.1);
    assert(st.1[i].header.addr + st.1[i].data.len() <= st.0);
}

/// Sections with the same numbers keep the same number of kept sections.
proof fn lemma_count_kept_same_index(a: Seq<SectionView>, b: Seq<SectionView>)
    requires
        a.len() == b.len(),
        forall|i: int| 0 <= i < a.len() ==> (#[trigger] a[i]).index == b[i].index,
    ensures
        count_kept_sections(a) == count_kept_sections(b),
    decreases a.len(),
{
    if a.len() > 0 {
        lemma_count_kept_same_index(a.drop_last(), b.drop_last());
        assert(a.last() == a[a.len() - 1]);
        assert(b.last() == b[b.len() - 1]);
    }
}

proof fn lemma_count_kept_take(secs: Seq<SectionView>, d: Seq<bool>, k: int)
    requires
        secs.len() == d.len(),
        d.len() < usize::MAX,
        0 <= k <= d.len(),
    ensures
        count_kept_sections(apply_discards(secs, d).take(k)) == count_kept(d.take(k)),
    decreases k,
{
    if k > 0 {
        lemma_count_kept_take(secs, d, k - 1);
        let x = apply_discards(secs, d);
        assert(x.take(k).drop_last() =~= x.take(k - 1));
        assert(d.take(k).drop_last() =~= d.take(k - 1));
        lemma_count_kept_bound(d.take(k - 1));
    }
}

/// A file that was read keeps all its sections but the discarded ones, and
/// has as many sections as its header says.
proof fn lemma_read_counts(file: Seq<u8>)
    requires
        spec_read(file) is Ok,
    ensures
        count_kept_sections(spec_read(file)->Ok_0.sections) + spec_read(file)->Ok_0.num_discarded_sections
            == spec_read(file)->Ok_0.sections.len(),
        spec_read(file)->Ok_0.sections.len() == spec_read(file)->Ok_0.header.shnum,
{
    let h = super::super::elf::Header::spec_parse(file, 0);
    let raw = try_seq(h.shnum as nat, raw_fn(file, h.shoff))->Ok_0;
    lemma_try_seq_ok(h.shnum as nat, raw_fn(file, h.shoff));
    let table = raw[h.shstrndx as int].data;
    lemma_try_seq_ok(raw.len(), name_fn(raw, table));
    let named = try_seq(raw.len(), name_fn(raw, table))->Ok_0;
    lemma_try_seq_ok(named.len(), debug_fn(named));
    let d = try_seq(named.len(), debug_fn(named))->Ok_0;
    lemma_count_kept_take(named, d, d.len() as int);
    assert(apply_discards(named, d).take(d.len() as int) =~= apply_discards(named, d));
    assert(d.take(d.len() as int) =~= d);
    lemma_count_kept_bound(d);
}

proof fn lemma_loader_fold_index(m0: u32, secs: Seq<SectionView>, k: nat)
    requires
        k <= secs.len(),
    ensures
        loader_fold(m0, secs, k) matches Ok(st) ==> st.1.len() == secs.len() && forall|x: int|
            0 <= x < secs.len() ==> (#[trigger] st.1[x]).index == secs[x].index,
    decreases k,
{
    if k > 0 {
        lemma_loader_fold_index(m0, secs, (k - 1) as nat);
        if let Ok(st) = loader_fold(m0, secs, (k - 1) as nat) {
            let i = k - 1;
            let s = st.1[i];
            if is_table(s) {
                if let Ok(m) = round_up(st.0, s.header.addralign) {
                    if let Ok(hi) = add_u32(s.header.addr, s.data.len() as u32) {
                        let f = relocate_section_fn(st.1, i, s.header.addr, hi, m);
                        if try_seq(st.1.len(), f) is Ok {
                            lemma_try_seq_ok(st.1.len(), f);
                        }
                    }
                }
            }
        }
    }
}

/// Whether `e` keeps every section but the discarded ones and has as many
/// sections as its header says.
pub open spec fn counts_agree(e: ElfFileView) -> bool {
    &&& count_kept_sections(e.sections) + e.num_discarded_sections == e.sections.len()
    &&& e.sections.len() == e.header.shnum
}

proof fn lemma_counts_fixes(e0: ElfFileView)
    requires
        counts_agree(e0),
        spec_fix_relocations(spec_fix_section_types(spec_fix_section_flags(e0))) is Ok,
    ensures
        counts_agree(spec_fix_relocations(spec_fix_section_types(spec_fix_section_flags(e0)))->Ok_0),
{
    let e2 = spec_fix_section_types(spec_fix_section_flags(e0));
    lemma_count_kept_same_index(e2.sections, e0.sections);
    let e3 = spec_fix_relocations(e2)->Ok_0;
    lemma_try_seq_ok(e2.sections.len(), super::fixes::relocation_fn(e2.sections));
    lemma_count_kept_same_index(e3.sections, e2.sections);
}

proof fn lemma_counts_loader(e3: ElfFileView)
    requires
        counts_agree(e3),
        spec_fix_loader_virtual_addresses(e3) is Ok,
    ensures
        counts_agree(spec_fix_loader_virtual_addresses(e3)->Ok_0),
{
    let e4 = spec_fix_loader_virtual_addresses(e3)->Ok_0;
    let m = initial_load_max(e3.sections, e3.sections.len())->Ok_0;
    lemma_loader_fold_index(m, e3.sections, e3.sections.len());
    lemma_count_kept_same_index(e4.sections, e3.sections);
}

proof fn lemma_counts_added(e4: ElfFileView, is_rpl: bool)
    requires
        counts_agree(e4),
        spec_generate_file_info_section(e4, is_rpl) is Ok,
        spec_generate_crc_section(spec_generate_file_info_section(e4, is_rpl)->Ok_0) is Ok,
    ensures
        counts_agree(spec_generate_crc_section(spec_generate_file_info_section(e4, is_rpl)->Ok_0)->Ok_0),
{
    let n4 = e4.sections.len();
    let e5 = spec_generate_file_info_section(e4, is_rpl)->Ok_0;
    assert(e5.sections.drop_last() =~= e4.sections);
    assert(e5.sections.last().index == n4);
    assert(count_kept_sections(e5.sections) == count_kept_sections(e4.sections) + 1);
    let e6 = spec_generate_crc_section(e5)->Ok_0;
    let n5 = e5.sections.len();
    let c = e6.sections[n5 - 1];
    assert(c.index == n5);
    assert(e6.sections.drop_last() =~= e5.sections.drop_last().push(c));
    assert(e6.sections.drop_last().drop_last() =~= e5.sections.drop_last());
    assert(e6.sections.last() == e5.sections.last());
    assert(count_kept_sections(e6.sections.drop_last()) == count_kept_sections(e4.sections) + 1);
    assert(count_kept_sections(e6.sections) == count_kept_sections(e4.sections) + 2);
}

proof fn lemma_counts_layout(e6: ElfFileView)
    requires
        counts_agree(e6),
        spec_calculate_section_offsets(spec_deflate_sections(spec_fix_file_header(e6))) is Ok,
    ensures
        ({
            let e9 = spec_calculate_section_offsets(spec_deflate_sections(spec_fix_file_header(e6)))->Ok_0;
            &&& count_kept_sections(e9.sections) + e9.num_discarded_sections == e9.sections.len()
            &&& e9.sections.len() <= 0xFFFF
        }),
{
    let e8 = spec_deflate_sections(spec_fix_file_header(e6));
    lemma_count_kept_same_index(e8.sections, e6.sections);
    let e9 = spec_calculate_section_offsets(e8)->Ok_0;
    let start = header_table_end(e8)->Ok_0;
    let cl = e8.sections.map_values(|s: SectionView| cleared_section(s));
    lemma_place_passes_keep(cl, start, 6);
    let st = place_passes(cl, start, 6)->Ok_0;
    lemma_try_seq_ok(st.0.len(), link_fn(st.0));
    assert forall|i: int| 0 <= i < e9.sections.len() implies (#[trigger] e9.sections[i]).index == e8.sections[i].index by {
        assert(linked_section(st.0, i) == Ok::<SectionView, RplError>(e9.sections[i]));
    }
    lemma_count_kept_same_index(e9.sections, e8.sections);
}

/// The module keeps every section but the discarded ones.
proof fn lemma_module_counts(file: Seq<u8>, is_rpl: bool)
    requires
        spec_module(file, is_rpl) is Ok,
    ensures
        count_kept_sections(spec_module(file, is_rpl)->Ok_0.sections) + spec_module(file, is_rpl)->Ok_0.num_discarded_sections
            == spec_module(file, is_rpl)->Ok_0.sections.len(),
        spec_module(file, is_rpl)->Ok_0.sections.len() <= 0xFFFF,
{
    let e0 = spec_read(file)->Ok_0;
    lemma_read_counts(file);
    lemma_counts_fixes(e0);
    let e3 = spec_fix_relocations(spec_fix_section_types(spec_fix_section_flags(e0)))->Ok_0;
    lemma_counts_loader(e3);
    let e4 = spec_fix_loader_virtual_addresses(e3)->Ok_0;
    lemma_counts_added(e4, is_rpl);
    let e6 = spec_generate_crc_section(spec_generate_file_info_section(e4, is_rpl)->Ok_0)->Ok_0;
    lemma_counts_layout(e6);
}

/// The section header table ends before the first section's contents.
proof fn lemma_table_fits(e8: ElfFileView, kept: nat)
    requires
        header_table_end(e8) is Ok,
        kept + e8.num_discarded_sections == e8.sections.len(),
        e8.sections.len() <= 0xFFFF,
    ensures
        e8.header.shoff + 40 * kept <= header_table_end(e8)->Ok_0,
{
    let t = (e8.sections.len() - e8.num_discarded_sections) * 40;
    assert(t == 40 * kept);
    assert(t <= 40 * 0xFFFF);
    let r = super::layout::round_up_64(t);
    assert(t <= r <= t + 64);
}

/// The module's image holds the headers of its kept sections at 64, after
/// the file header and before the first section's contents.
proof fn lemma_image_table(e8: ElfFileView, e9: ElfFileView)
    requires
        spec_calculate_section_offsets(e8) == Ok::<ElfFileView, RplError>(e9),
        e8.header.shoff == 64,
        e9.header == e8.header,
        forall|k: int| 0 <= k < e9.sections.len() ==> (#[trigger] e9.sections[k]).data.len() <= u32::MAX,
        count_kept_sections(e9.sections) + e9.num_discarded_sections == e9.sections.len(),
        e9.sections.len() <= 0xFFFF,
    ensures
        holds_at(spec_image(e9), 64, super::layout::kept_headers_bytes(e9.sections)),
{
    let t = super::layout::kept_headers_bytes(e9.sections);
    lemma_kept_headers_len(e9.sections);
    let b1 = crate::bytes::write_at(Seq::empty(), 0, e9.header.spec_bytes());
    let buf = crate::bytes::write_at(b1, 64, t);
    lemma_write_at_holds(b1, 64, t);
    let start = header_table_end(e8)->Ok_0;
    let cl = e8.sections.map_values(|s: SectionView| cleared_section(s));
    lemma_place_passes_keep(cl, start, 6);
    let st = place_passes(cl, start, 6)->Ok_0;
    lemma_try_seq_ok(st.0.len(), link_fn(st.0));
    assert(e8.sections.len() == e9.sections.len());
    assert(e8.num_discarded_sections == e9.num_discarded_sections);
    lemma_table_fits(e8, count_kept_sections(e9.sections));
    assert forall|i: int| 0 <= i < e9.sections.len() && (#[trigger] e9.sections[i]).data.len() > 0 implies 64 + t.len()
        <= e9.sections[i].header.offset by {
        law_sections_laid_out_apart(e8, i, i);
    }
    lemma_write_contents_keeps(buf, e9.sections, e9.sections.len(), 64, t);
}

/// The section header table takes forty bytes per kept section.
proof fn lemma_kept_headers_len(secs: Seq<SectionView>)
    ensures
        super::layout::kept_headers_bytes(secs).len() == 40 * count_kept_sections(secs),
    decreases secs.len(),
{
    if secs.len() > 0 {
        lemma_kept_headers_len(secs.drop_last());
    }
}

/// A converted module lists the headers of its kept sections, in order,
/// right after its file header at offset 64, where each section's contents
/// fit in 32 bits.
#[verifier::spinoff_prover]
#[verifier::rlimit(40)]
pub proof fn law_module_section_table(file: Seq<u8>, is_rpl: bool)
    requires
        spec_from_elf(file, is_rpl) is Ok,
        forall|k: int|
            0 <= k < spec_module(file, is_rpl)->Ok_0.sections.len() ==> (#[trigger] spec_module(
                file,
                is_rpl,
            )->Ok_0.sections[k]).data.len() <= u32::MAX,
    ensures
        holds_at(
            spec_from_elf(file, is_rpl)->Ok_0,
            64,
            super::layout::kept_headers_bytes(spec_module(file, is_rpl)->Ok_0.sections),
        ),
{
    let e8 = lemma_module_laid_out(file, is_rpl);
    let e9 = spec_module(file, is_rpl)->Ok_0;
    lemma_module_counts(file, is_rpl);
    lemma_image_table(e8, e9);
    assert(spec_from_elf(file, is_rpl)->Ok_0 == spec_image(e9));
}

/// The base address of segment `seg`: 0 for code, 1 for data, 2 for the
/// loader's data.
pub open spec fn segment_base(seg: int) -> u32 {
    if seg == 0 {
        CODE_BASE_ADDRESS
    } else if seg == 1 {
        DATA_BASE_ADDRESS
    } else {
        LOAD_BASE_ADDRESS
    }
}

/// The alignment that the size of segment `seg` is rounded up to.
pub open spec fn segment_align(seg: int) -> u32 {
    if seg == 1 {
        4096
    } else {
        32
    }
}

/// Whether section `s` is kept and lies in segment `seg`: at or above its
/// base and below the next segment's.
pub open spec fn in_segment(s: SectionView, seg: int) -> bool {
    &&& s.index != DISCARDED
    &&& segment_base(seg) <= s.header.addr
    &&& seg == 0 ==> s.header.addr < DATA_BASE_ADDRESS
    &&& seg == 1 ==> s.header.addr < LOAD_BASE_ADDRESS
}

/// How far into segment `seg` section `s` reaches: its address plus its
/// size, from the segment's base.
pub open spec fn segment_reach(s: SectionView, seg: int) -> int {
    s.header.addr + s.header.size - segment_base(seg)
}

/// The size that `info` gives segment `seg`.
pub open spec fn segment_size(info: crate::elf::RplFileInfo, seg: int) -> u32 {
    if seg == 0 {
        info.text_size
    } else if seg == 1 {
        info.data_size
    } else {
        info.load_size
    }
}

/// The temporary memory that the first `k` sections need: for each kept
/// section at address zero, its size and 128 bytes.
pub open spec fn temp_total(secs: Seq<SectionView>, k: nat) -> int
    decreases k,
{
    if k == 0 {
        0
    } else {
        let s = secs[k - 1];
        temp_total(secs, (k - 1) as nat) + if s.index != DISCARDED && s.header.addr == 0 {
            (if s.header.ty.0 == SHT_NOBITS {
                s.header.size as int
            } else {
                s.data.len() as u32 as int
            }) + 128
        } else {
            0
        }
    }
}

proof fn lemma_info_fold_segment(info: crate::elf::RplFileInfo, secs: Seq<SectionView>, k: nat, seg: int)
    requires
        0 <= seg < 3,
        k <= secs.len(),
        info_fold(info, secs, k) is Ok,
    ensures
        segment_size(info_fold(info, secs, k)->Ok_0, seg) >= segment_size(info, seg),
        forall|i: int|
            0 <= i < k && #[trigger] in_segment(secs[i], seg) ==> segment_size(
                info_fold(info, secs, k)->Ok_0,
                seg,
            ) >= segment_reach(secs[i], seg),
        segment_size(info_fold(info, secs, k)->Ok_0, seg) == segment_size(info, seg) || exists|i: int|
            0 <= i < k && #[trigger] in_segment(secs[i], seg) && segment_size(
                info_fold(info, secs, k)->Ok_0,
                seg,
            ) == segment_reach(secs[i], seg),
        info_fold(info, secs, k)->Ok_0.temp_size == info.temp_size + temp_total(secs, k),
    decreases k,
{
    if k > 0 {
        lemma_info_fold_segment(info, secs, (k - 1) as nat, seg);
        let prev = info_fold(info, secs, (k - 1) as nat)->Ok_0;
        let r = info_fold(info, secs, k)->Ok_0;
        let s = secs[k - 1];
        assert(segment_size(r, seg) >= segment_size(prev, seg));
        if in_segment(s, seg) {
            assert(segment_size(r, seg) >= segment_reach(s, seg));
            if segment_size(r, seg) != segment_size(prev, seg) {
                assert(segment_size(r, seg) == segment_reach(s, seg));
            }
        } else {
            assert(segment_size(r, seg) == segment_size(prev, seg));
        }
    }
}

/// Each segment of the file information covers every kept section in it:
/// its size is at least each such section's address plus size, from the
/// segment's base; and it is the least multiple of the segment's alignment
/// that does so (zero where no section reaches into the segment). The
/// temporary memory is the total, over the kept sections at address zero,
/// of their sizes and 128 bytes each.
pub proof fn law_segment_sizes_cover_sections(secs: Seq<SectionView>, is_rpl: bool, seg: int)
    requires
        file_info(secs, is_rpl) is Ok,
        0 <= seg < 3,
    ensures
        forall|i: int|
            0 <= i < secs.len() && #[trigger] in_segment(secs[i], seg) ==> segment_size(
                file_info(secs, is_rpl)->Ok_0,
                seg,
            ) >= segment_reach(secs[i], seg),
        segment_size(file_info(secs, is_rpl)->Ok_0, seg) % segment_align(seg) == 0,
        segment_size(file_info(secs, is_rpl)->Ok_0, seg) == 0 || exists|i: int|
            0 <= i < secs.len() && #[trigger] in_segment(secs[i], seg) && segment_size(
                file_info(secs, is_rpl)->Ok_0,
                seg,
            ) < segment_reach(secs[i], seg) + segment_align(seg),
        file_info(secs, is_rpl)->Ok_0.temp_size == temp_total(secs, secs.len()),
{
    let d0 = default_file_info(is_rpl);
    let info = info_fold(d0, secs, secs.len())->Ok_0;
    lemma_info_fold_segment(d0, secs, secs.len(), seg);
    lemma_info_fold_aligns(d0, secs, secs.len());
    assert(round_sizes(info) is Ok);
    law_round_up(info.text_size, info.text_align);
    law_round_up(info.data_size, info.data_align);
    law_round_up(info.load_size, info.load_align);
    let r = file_info(secs, is_rpl)->Ok_0;
    let v = segment_size(info, seg);
    assert(segment_size(r, seg) == round_up(v, segment_align(seg))->Ok_0);
    if v != 0 {
        let i = choose|i: int|
            0 <= i < secs.len() && #[trigger] in_segment(secs[i], seg) && v == segment_reach(secs[i], seg);
        assert(in_segment(secs[i], seg));
    }
}

/// The bytes of `.debug_`, with which the names of debugging sections start.
pub open spec fn debug_name_start() -> Seq<u8> {
    seq![0x2Eu8, 0x64u8, 0x65u8, 0x62u8, 0x75u8, 0x67u8, 0x5Fu8]
}

/// Whether section `i` of `secs` is kept or left out as debugging
/// information should be: by the name of the section it relocates, where it
/// is a relocation section, else by its own name.
pub open spec fn leaves_out_debug(secs: Seq<SectionView>, i: int) -> bool {
    let s = secs[i];
    &&& s.index != DISCARDED && s.header.ty.0 == SHT_RELA ==> s.header.info < secs.len()
        && !starts_with(secs[s.header.info as int].name, debug_name_start())
    &&& s.index != DISCARDED && s.header.ty.0 != SHT_RELA ==> !starts_with(s.name, debug_name_start())
    &&& s.index == DISCARDED ==> starts_with(s.name, debug_name_start()) || (s.header.info < secs.len()
        && starts_with(secs[s.header.info as int].name, debug_name_start()))
}

proof fn lemma_discards_debug(named: Seq<SectionView>, d: Seq<bool>, i: int)
    requires
        d.len() == named.len(),
        named.len() <= u16::MAX,
        0 <= i < named.len(),
        debug_fn(named)(i) == Ok::<bool, RplError>(d[i]),
    ensures
        leaves_out_debug(apply_discards(named, d), i),
{
    let secs = apply_discards(named, d);
    lemma_count_kept_bound(d.take(i));
    assert(debug_prefix() == debug_name_start());
    if named[i].header.ty.0 == SHT_RELA {
        let t = named[i].header.info as int;
        if t < named.len() {
            assert(secs[t].name == named[t].name);
        }
    }
}

/// The reading leaves out debugging information: a kept relocation section
/// relocates a section whose name does not start with `.debug_`, no other
/// kept section has such a name, and a section that was left out is named
/// `.debug_...` or relocates a section so named.
pub proof fn law_read_leaves_out_debug(file: Seq<u8>, i: int)
    requires
        spec_read(file) is Ok,
        0 <= i < spec_read(file)->Ok_0.sections.len(),
    ensures
        leaves_out_debug(spec_read(file)->Ok_0.sections, i),
{
    let e = spec_read(file)->Ok_0;
    let h = super::super::elf::Header::spec_parse(file, 0);
    let raw = try_seq(h.shnum as nat, raw_fn(file, h.shoff))->Ok_0;
    lemma_try_seq_ok(h.shnum as nat, raw_fn(file, h.shoff));
    let table = raw[h.shstrndx as int].data;
    lemma_try_seq_ok(raw.len(), name_fn(raw, table));
    let named = try_seq(raw.len(), name_fn(raw, table))->Ok_0;
    lemma_try_seq_ok(named.len(), debug_fn(named));
    let d = try_seq(named.len(), debug_fn(named))->Ok_0;
    assert(e.sections == apply_discards(named, d));
    lemma_discards_debug(named, d, i);
}

/// The layout places every allocated section with contents: each one that
/// is not unsized, the file information or the CRC section goes into one of
/// the data, read-only and code passes; an import section goes into the
/// read-only pass, whatever its other flags, and no other pass.
pub proof fn law_allocated_sections_are_placed(h: SectionHeader)
    requires
        h.size > 0,
        h.flags.0 & SHF_ALLOC != 0,
        h.ty.0 != SHT_NOBITS,
        h.ty.0 != SHT_RPL_FILEINFO,
        h.ty.0 != SHT_RPL_CRCS,
    ensures
        placed_in_pass(2, h) || placed_in_pass(3, h) || placed_in_pass(4, h),
        h.ty.0 == SHT_RPL_IMPORTS ==> placed_in_pass(3, h) && !placed_in_pass(0, h)
            && !placed_in_pass(1, h) && !placed_in_pass(2, h) && !placed_in_pass(4, h)
            && !placed_in_pass(5, h),
{
    let f = h.flags.0;
    assert(f & 0x4u32 == 0 && f & 0x1u32 == 0 ==> f & (0x4u32 | 0x1u32) == 0) by (bit_vector);
}

/// Whether a section of type `ty` is one that only the first two layout
/// passes, or none, place by its type: the file information, the imports,
/// the CRC section, or an unsized section.
pub open spec fn is_special_type(ty: u32) -> bool {
    ty == SHT_RPL_FILEINFO || ty == SHT_RPL_IMPORTS || ty == SHT_RPL_CRCS || ty == SHT_NOBITS
}

/// Which pass places a section, by kind: the CRC section first, the file
/// information second, then writable data, then read-only data with the
/// exports and imports, then code other than exports, then what is not
/// loaded. Empty sections take no place in the later passes, nor do
/// sections that are not allocated in the data passes or not executable in
/// the code pass.
pub proof fn law_layout_pass_of_kind(h: SectionHeader)
    ensures
        h.ty.0 == SHT_RPL_CRCS ==> placed_in_pass(0, h),
        h.ty.0 == SHT_RPL_FILEINFO ==> placed_in_pass(1, h),
        h.size > 0 && h.flags.0 & SHF_ALLOC != 0 && h.flags.0 & SHF_WRITE != 0 && h.flags.0
            & SHF_EXEC == 0 && !is_special_type(h.ty.0) ==> placed_in_pass(2, h),
        h.size > 0 && h.flags.0 & SHF_ALLOC != 0 && (h.ty.0 == SHT_RPL_EXPORTS || h.ty.0
            == SHT_RPL_IMPORTS || (h.flags.0 & SHF_WRITE == 0 && h.flags.0 & SHF_EXEC == 0))
            ==> placed_in_pass(3, h),
        h.size > 0 && h.flags.0 & SHF_EXEC != 0 && !is_special_type(h.ty.0) && h.ty.0
            != SHT_RPL_EXPORTS ==> placed_in_pass(4, h),
        h.size > 0 && h.flags.0 & SHF_ALLOC == 0 && h.flags.0 & SHF_EXEC == 0 && !is_special_type(
            h.ty.0,
        ) ==> placed_in_pass(5, h),
        h.flags.0 & SHF_ALLOC == 0 ==> !placed_in_pass(2, h) && !placed_in_pass(3, h),
        h.flags.0 & SHF_EXEC == 0 ==> !placed_in_pass(4, h),
        h.size == 0 ==> !placed_in_pass(2, h) && !placed_in_pass(3, h) && !placed_in_pass(4, h)
            && !placed_in_pass(5, h),
{
    let f = h.flags.0;
    assert(f & 0x4u32 == 0 && f & 0x1u32 == 0 ==> f & (0x4u32 | 0x1u32) == 0) by (bit_vector);
}

/// Position of section `i` among the kept sections of `secs`.
pub open spec fn kept_position(secs: Seq<SectionView>, i: int) -> nat {
    count_kept_sections(secs.take(i))
}

/// The checksums of the kept sections are, in order, the CRC-32 of each
/// one's whole contents, or zero where it has none.
pub proof fn law_crc_of_whole_contents(secs: Seq<SectionView>, i: int)
    requires
        0 <= i < secs.len(),
        secs[i].index != DISCARDED,
    ensures
        kept_position(secs, i) < kept_crcs(secs).len(),
        kept_crcs(secs)[kept_position(secs, i) as int] == if secs[i].data.len() > 0 {
            crc32_of(secs[i].data)
        } else {
            0u32
        },
    decreases secs.len(),
{
    let n = secs.len() as int;
    law_one_crc_per_kept_section(secs);
    if i == n - 1 {
        assert(secs.take(i) =~= secs.drop_last());
        law_one_crc_per_kept_section(secs.drop_last());
    } else {
        let p = secs.drop_last();
        law_crc_of_whole_contents(p, i);
        assert(p.take(i) =~= secs.take(i));
        assert(p[i] == secs[i]);
    }
}

/// Eight bits of the CRC-32 register, one after the other.
pub open spec fn crc32_eight(c: u32) -> u32 {
    crc32_shift(crc32_shift(crc32_shift(crc32_shift(crc32_shift(crc32_shift(crc32_shift(crc32_shift(c))))))))
}

proof fn lemma_crc32_byte(reg: u32, b: u8, next: u32)
    requires
        crc32_eight(reg ^ (b as u32)) == next,
    ensures
        crc32_shifts(reg ^ (b as u32), 8) == next,
{
    reveal_with_fuel(crc32_shifts, 9);
}

/// The checksum is the standard CRC-32: the bytes of `123456789` give
/// 0xCBF43926, the check value that names this variant of the CRC.
pub proof fn law_crc32_check_value()
    ensures
        crc32_of(seq![0x31u8, 0x32u8, 0x33u8, 0x34u8, 0x35u8, 0x36u8, 0x37u8, 0x38u8, 0x39u8])
            == 0xCBF4_3926u32,
{
    let d = seq![0x31u8, 0x32u8, 0x33u8, 0x34u8, 0x35u8, 0x36u8, 0x37u8, 0x38u8, 0x39u8];
    assert(crc32_eight(0xFFFFFFFFu32 ^ (0x31u8 as u32)) == 0x7C231048u32) by (bit_vector);
    lemma_crc32_byte(0xFFFFFFFFu32, 0x31u8, 0x7C231048u32);
    assert(crc32_register(d.take(0)) == 0xFFFF_FFFFu32);
    assert(d.take(1).drop_last() =~= d.take(0));
    assert(d.take(1).last() == 0x31u8);
    assert(crc32_register(d.take(1)) == 0x7C231048u32);
    assert(crc32_eight(0x7C231048u32 ^ (0x32u8 as u32)) == 0xB0ACBB32u32) by (bit_vector);
    lemma_crc32_byte(0x7C231048u32, 0x32u8, 0xB0ACBB32u32);
    assert(d.take(2).drop_last() =~= d.take(1));
    assert(d.take(2).last() == 0x32u8);
    assert(crc32_register(d.take(2)) == 0xB0ACBB32u32);
    assert(crc32_eight(0xB0ACBB32u32 ^ (0x33u8 as u32)) == 0x77B79C2Du32) by (bit_vector);
    lemma_crc32_byte(0xB0ACBB32u32, 0x33u8, 0x77B79C2Du32);
    assert(d.take(3).drop_last() =~= d.take(2));
    assert(d.take(3).last() == 0x33u8);
    assert(crc32_register(d.take(3)) == 0x77B79C2Du32);
    assert(crc32_eight(0x77B79C2Du32 ^ (0x34u8 as u32)) == 0x641C1F5Cu32) by (bit_vector);
    lemma_crc32_byte(0x77B79C2Du32, 0x34u8, 0x641C1F5Cu32);
    assert(d.take(4).drop_last() =~= d.take(3));
    assert(d.take(4).last() == 0x34u8);
    assert(crc32_register(d.take(4)) == 0x641C1F5Cu32);
    assert(crc32_eight(0x641C1F5Cu32 ^ (0x35u8 as u32)) == 0x340AC5E3u32) by (bit_vector);
    lemma_crc32_byte(0x641C1F5Cu32, 0x35u8, 0x340AC5E3u32);
    assert(d.take(5).drop_last() =~= d.take(4));
    assert(d.take(5).last() == 0x35u8);
    assert(crc32_register(d.take(5)) == 0x340AC5E3u32);
    assert(crc32_eight(0x340AC5E3u32 ^ (0x36u8 as u32)) == 0xF68D2C9Eu32) by (bit_vector);
    lemma_crc32_byte(0x340AC5E3u32, 0x36u8, 0xF68D2C9Eu32);
    assert(d.take(6).drop_last() =~= d.take(5));
    assert(d.take(6).last() == 0x36u8);
    assert(crc32_register(d.take(6)) == 0xF68D2C9Eu32);
    assert(crc32_eight(0xF68D2C9Eu32 ^ (0x37u8 as u32)) == 0xAFFC9660u32) by (bit_vector);
    lemma_crc32_byte(0xF68D2C9Eu32, 0x37u8, 0xAFFC9660u32);
    assert(d.take(7).drop_last() =~= d.take(6));
    assert(d.take(7).last() == 0x37u8);
    assert(crc32_register(d.take(7)) == 0xAFFC9660u32);
    assert(crc32_eight(0xAFFC9660u32 ^ (0x38u8 as u32)) == 0x651F2550u32) by (bit_vector);
    lemma_crc32_byte(0xAFFC9660u32, 0x38u8, 0x651F2550u32);
    assert(d.take(8).drop_last() =~= d.take(7));
    assert(d.take(8).last() == 0x38u8);
    assert(crc32_register(d.take(8)) == 0x651F2550u32);
    assert(crc32_eight(0x651F2550u32 ^ (0x39u8 as u32)) == 0x340BC6D9u32) by (bit_vector);
    lemma_crc32_byte(0x651F2550u32, 0x39u8, 0x340BC6D9u32);
    assert(d.take(9).drop_last() =~= d.take(8));
    assert(d.take(9).last() == 0x39u8);
    assert(crc32_register(d.take(9)) == 0x340BC6D9u32);
    assert(d.take(9) =~= d);
    assert(0x340BC6D9u32 ^ 0xFFFF_FFFFu32 == 0xCBF4_3926u32) by (bit_vector);
}

} // verus!
