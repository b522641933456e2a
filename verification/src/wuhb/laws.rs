//! Properties of images that hold for every input.
use vstd::prelude::*;
use crate::bytes::{holds_at, lemma_write_at_holds, lemma_write_at_keeps};
use super::image::{
    closing_dir_entry, dir_entry_bytes, file_entry_bytes, files_placed, lemma_dir_entries_pos,
    lemma_file_entries_pos, put, spec_image, write_dir_entries, write_file_entries,
    write_partition, Cursor,
};
use super::romfs::{
    align_up, empty_table, file_kept, file_meta_fold, file_meta_step, file_parent, last_file_in,
    lemma_file_meta_step_shape, files_in, folder_meta_fold,
    folder_meta_step, folder_siblings_are_folders, folders_in, hash_files_fold,
    hash_folders_fold, lemma_files_in, lemma_folders_in, same_kinds, spec_file_metadata,
    spec_folder_metadata, spec_hash_tables, tree_order, EntryView,
};
use super::tree::{data_at, parents_first, preorder, preorder_children, previous_sibling};
use super::order::lemma_tree_order_no_duplicates;
use super::image::{
    bundle_entries, bundle_tree, laid_out_image, lemma_bundle_siblings, meta_ini_bytes,
    spec_from_rpx, lemma_file_meta_places, lemma_files_in_same_kinds, lemma_hash_files_keep,
    lemma_hash_folders_keep,
    lemma_layout_places_files,
};
use super::{buckets_bytes, name_hash, table_size, upper_code, RomFsHeader, NONE};

verus! {

/// Whether the contents of `files` lie one after another in the partition,
/// in the order of `files`, without overlapping.
pub open spec fn files_in_order(ents: Seq<EntryView>, files: Seq<usize>) -> bool {
    forall|i: int, j: int|
        0 <= i < j < files.len() ==> (#[trigger] ents[files[i] as int])->File_0.meta.offset
            + ents[files[i] as int]->File_0.content.len() <= (#[trigger] ents[
            files[j] as int
        ])->File_0.meta.offset
}

/// The contents of the file at `f`.
pub open spec fn content_of(ents: Seq<EntryView>, f: usize) -> Seq<u8> {
    ents[f as int]->File_0.content
}

/// Where the contents of the file at `f` lie in the image: the partition
/// starts 0x200 bytes in.
pub open spec fn place_of(ents: Seq<EntryView>, f: usize) -> int {
    0x200 + ents[f as int]->File_0.meta.offset
}

/// An encoded image header is 0x50 bytes long.
proof fn lemma_header_len(h: RomFsHeader)
    ensures
        h.spec_bytes().len() == 0x50,
{
}

proof fn lemma_partition_holds(ents: Seq<EntryView>, files: Seq<usize>, k: nat)
    requires
        k <= files.len(),
        files_placed(ents, files),
        files_in_order(ents, files),
    ensures
        write_partition(ents, files, k) matches Ok(c) ==> {
            &&& forall|j: int|
                0 <= j < k ==> holds_at(c.0, place_of(ents, files[j]), #[trigger] content_of(ents, files[j]))
            &&& forall|j: int|
                0 <= j < k ==> place_of(ents, files[j]) + (#[trigger] content_of(ents, files[j])).len() <= c.1
        },
    decreases k,
{
    if k > 0 {
        lemma_partition_holds(ents, files, (k - 1) as nat);
        if let Ok(c) = write_partition(ents, files, (k - 1) as nat) {
            let f = files[k - 1];
            let fi = ents[f as int]->File_0;
            let v = 0x200 + fi.meta.offset;
            assert(ents[files[k - 1] as int]->File_0.meta.offset % 16 == 0);
            assert(v % 16 == 0);
            let start = align_up(v, 16);
            assert(start == place_of(ents, f));
            if let Ok(c2) = put((c.0, start), fi.content) {
                lemma_write_at_holds(c.0, start, fi.content);
                assert forall|j: int| 0 <= j < k implies holds_at(
                    c2.0,
                    place_of(ents, files[j]),
                    #[trigger] content_of(ents, files[j]),
                ) by {
                    if j < k - 1 {
                        assert(ents[files[j] as int]->File_0.meta.offset + ents[files[j] as int]->File_0.content.len()
                            <= ents[files[k - 1] as int]->File_0.meta.offset);
                        lemma_write_at_keeps(c.0, start, fi.content, place_of(ents, files[j]), content_of(ents, files[j]));
                    }
                }
                assert forall|j: int| 0 <= j < k implies place_of(ents, files[j]) + (#[trigger] content_of(
                    ents,
                    files[j],
                )).len() <= align_up(c2.1, 4) by {
                    if j < k - 1 {
                        assert(ents[files[j] as int]->File_0.meta.offset + ents[files[j] as int]->File_0.content.len()
                            <= ents[files[k - 1] as int]->File_0.meta.offset);
                    }
                }
            }
        }
    }
}

proof fn lemma_dir_entries_keep(ents: Seq<EntryView>, folders: Seq<usize>, base: int, c: Cursor, k: nat, pos: int, data: Seq<u8>)
    requires
        0 <= base,
        holds_at(c.0, pos, data),
        pos + data.len() <= base,
    ensures
        write_dir_entries(ents, folders, base, c, k) matches Ok(c2) ==> holds_at(c2.0, pos, data),
    decreases k,
{
    if k > 0 {
        lemma_dir_entries_keep(ents, folders, base, c, (k - 1) as nat, pos, data);
        if let Ok(c1) = write_dir_entries(ents, folders, base, c, (k - 1) as nat) {
            let fo = ents[folders[k - 1] as int]->Folder_0;
            lemma_write_at_keeps(c1.0, base + fo.offset, dir_entry_bytes(fo.meta), pos, data);
        }
    }
}

proof fn lemma_file_entries_keep(ents: Seq<EntryView>, files: Seq<usize>, base: int, c: Cursor, k: nat, pos: int, data: Seq<u8>)
    requires
        0 <= base,
        holds_at(c.0, pos, data),
        pos + data.len() <= base,
    ensures
        write_file_entries(ents, files, base, c, k) matches Ok(c2) ==> holds_at(c2.0, pos, data),
    decreases k,
{
    if k > 0 {
        lemma_file_entries_keep(ents, files, base, c, (k - 1) as nat, pos, data);
        if let Ok(c1) = write_file_entries(ents, files, base, c, (k - 1) as nat) {
            let fi = ents[files[k - 1] as int]->File_0;
            lemma_write_at_keeps(c1.0, base + fi.offset, file_entry_bytes(fi.meta), pos, data);
        }
    }
}

/// Every file of an image is read back from the partition, 0x200 bytes in,
/// at the offset its entry records, where the files lie one after another.
pub proof fn law_image_holds_files(ents: Seq<EntryView>, folders: Seq<usize>, files: Seq<usize>, dirs: Seq<u32>, ftab: Seq<u32>, i: int)
    requires
        spec_image(ents, folders, files, dirs, ftab) is Ok,
        files_placed(ents, files),
        files_in_order(ents, files),
        0 <= i < files.len(),
    ensures
        holds_at(spec_image(ents, folders, files, dirs, ftab)->Ok_0, place_of(ents, files[i]), content_of(ents, files[i])),
{
    let pos = place_of(ents, files[i]);
    let data = content_of(ents, files[i]);
    lemma_partition_holds(ents, files, files.len());
    let c1 = write_partition(ents, files, files.len())->Ok_0;
    assert(holds_at(c1.0, pos, data));
    assert(pos + data.len() <= c1.1);
    let c2 = put(c1, buckets_bytes(dirs))->Ok_0;
    lemma_write_at_keeps(c1.0, c1.1, buckets_bytes(dirs), pos, data);
    lemma_dir_entries_keep(ents, folders, c2.1, c2, folders.len(), pos, data);
    lemma_dir_entries_pos(ents, folders, c2.1, c2, folders.len());
    let c3 = write_dir_entries(ents, folders, c2.1, c2, folders.len())->Ok_0;
    lemma_write_at_keeps(c3.0, c3.1, closing_dir_entry(), pos, data);
    let c4 = put(c3, closing_dir_entry())->Ok_0;
    lemma_write_at_keeps(c4.0, c4.1, buckets_bytes(ftab), pos, data);
    let c5 = put(c4, buckets_bytes(ftab))->Ok_0;
    lemma_file_entries_keep(ents, files, c5.1, c5, files.len(), pos, data);
    lemma_file_entries_pos(ents, files, c5.1, c5, files.len());
    let c6 = write_file_entries(ents, files, c5.1, c5, files.len())->Ok_0;
    assert forall|h: RomFsHeader| #[trigger] h.spec_bytes().len() == 0x50 by {
        lemma_header_len(h);
    }
    let img = spec_image(ents, folders, files, dirs, ftab)->Ok_0;
    let h = RomFsHeader {
        dir_hash_table_ofs: c1.1 as u64,
        dir_hash_table_size: (4 * dirs.len()) as u64,
        dir_table_ofs: c2.1 as u64,
        dir_table_size: (c4.1 - c2.1) as u64,
        file_hash_table_ofs: c4.1 as u64,
        file_hash_table_size: (4 * ftab.len()) as u64,
        file_table_ofs: c5.1 as u64,
        file_table_size: (c6.1 - c5.1) as u64,
        ..RomFsHeader::spec_default()
    };
    lemma_header_len(h);
    lemma_write_at_keeps(c6.0, 0, h.spec_bytes(), pos, data);
}

proof fn lemma_folder_meta_step_keeps(t: Seq<(usize, Option<usize>)>, e: Seq<EntryView>, seek: u32, f: int)
    requires
        0 <= f < e.len(),
        t.len() == e.len(),
        e[f] is Folder,
        t[f].1 matches Some(p) ==> p < e.len() && e[p as int] is Folder,
        previous_sibling(t, f) matches Some(s) ==> 0 <= s < e.len() && e[s] is Folder,
    ensures
        folder_meta_step(t, e, seek, f) matches Ok(st) ==> {
            &&& same_kinds(st.0, e)
            &&& forall|i: int| 0 <= i < e.len() && #[trigger] e[i] is File ==> st.0[i] == e[i]
        },
{
}

/// The folder layout changes only folders: every file entry stays as it was.
proof fn lemma_folder_meta_keeps_files(t: Seq<(usize, Option<usize>)>, ents: Seq<EntryView>, order: Seq<usize>, k: nat)
    requires
        k <= order.len(),
        t.len() == ents.len(),
        forall|j: int| 0 <= j < order.len() ==> #[trigger] order[j] < ents.len() && ents[order[j] as int] is Folder,
        forall|j: int| 0 <= j < t.len() ==> (#[trigger] t[j].1 matches Some(p) ==> p < ents.len() && ents[p as int] is Folder),
        folder_siblings_are_folders(t, ents),
    ensures
        folder_meta_fold(t, ents, order, k) matches Ok(st) ==> {
            &&& same_kinds(st.0, ents)
            &&& forall|i: int| 0 <= i < ents.len() && #[trigger] ents[i] is File ==> st.0[i] == ents[i]
        },
    decreases k,
{
    if k > 0 {
        lemma_folder_meta_keeps_files(t, ents, order, (k - 1) as nat);
        if let Ok(st) = folder_meta_fold(t, ents, order, (k - 1) as nat) {
            let f = order[k - 1] as int;
            assert(ents[f] is Folder);
            assert(st.0[f] is Folder);
            if let Some(p) = t[f].1 {
                assert(ents[p as int] is Folder);
                assert(st.0[p as int] is Folder);
            }
            if let Some(s) = previous_sibling(t, f) {
                assert(0 <= s < ents.len() && ents[s] is Folder);
                assert(st.0[s] is Folder);
            }
            lemma_folder_meta_step_keeps(t, st.0, st.1, f);
            if let Ok(st2) = folder_meta_step(t, st.0, st.1, f) {
                assert forall|i: int| 0 <= i < ents.len() && #[trigger] ents[i] is File implies st2.0[i] == ents[i] by {
                    assert(st.0[i] == ents[i]);
                }
            }
        }
    }
}

/// Where the `j`-th of `files` starts in the partition when the contents are
/// packed in order, each at a 16-byte boundary: the first at zero, each next
/// one at the first boundary after the contents of the one before.
pub open spec fn packed_offset(ents: Seq<EntryView>, files: Seq<usize>, j: nat) -> int
    decreases j,
{
    if j == 0 {
        0
    } else {
        align_up(packed_offset(ents, files, (j - 1) as nat) + content_of(ents, files[j - 1]).len(), 16)
    }
}

proof fn lemma_file_meta_packs(t: Seq<(usize, Option<usize>)>, root: int, ents: Seq<EntryView>, files: Seq<usize>, k: nat)
    requires
        k <= files.len(),
        files.no_duplicates(),
        t.len() == ents.len(),
        0 <= root < ents.len(),
        ents[root] is Folder,
        forall|j: int|
            0 <= j < files.len() ==> #[trigger] files[j] < ents.len() && ents[files[j] as int] is File
                && ents[files[j] as int]->File_0.content.len() <= u64::MAX,
        forall|j: int| 0 <= j < t.len() ==> (#[trigger] t[j].1 matches Some(p) ==> p < ents.len() && ents[p as int] is Folder),
    ensures
        file_meta_fold(t, root, ents, files, k) matches Ok(st) ==> {
            &&& same_kinds(st.0, ents)
            &&& st.2 == packed_offset(ents, files, k)
            &&& forall|j: int|
                0 <= j < k ==> (#[trigger] st.0[files[j] as int])->File_0.meta.offset == packed_offset(ents, files, j as nat)
            &&& forall|i: int|
                0 <= i < ents.len() && #[trigger] ents[i] is File ==> st.0[i]->File_0.content == ents[i]->File_0.content
        },
    decreases k,
{
    if k > 0 {
        lemma_file_meta_packs(t, root, ents, files, (k - 1) as nat);
        if let Ok(st) = file_meta_fold(t, root, ents, files, (k - 1) as nat) {
            let f = files[k - 1] as int;
            assert(ents[f] is File);
            assert(st.0[f] is File);
            assert(st.0[f]->File_0.content == ents[f]->File_0.content);
            let p = file_parent(t, root, f);
            assert(ents[p] is Folder);
            assert(st.0[p] is Folder);
            let prev = last_file_in(t, root, files, (k - 1) as nat, p);
            lemma_file_meta_step_shape(t, root, st.0, st.1, st.2, f, prev);
            if let Ok(st2) = file_meta_step(t, root, st.0, st.1, st.2, f, prev) {
                assert forall|j: int| 0 <= j < k implies (#[trigger] st2.0[files[j] as int])->File_0.meta.offset
                    == packed_offset(ents, files, j as nat) by {
                    if j < k - 1 {
                        assert(files[j] != files[k - 1]);
                        assert(ents[files[j] as int] is File);
                        assert(st.0[files[j] as int] is File);
                        assert(file_kept(st2.0[files[j] as int], st.0[files[j] as int]));
                    }
                }
                assert forall|i: int| 0 <= i < ents.len() && #[trigger] ents[i] is File implies st2.0[i]->File_0.content
                    == ents[i]->File_0.content by {
                    assert(st.0[i] is File);
                    if i != f {
                        assert(file_kept(st2.0[i], st.0[i]));
                    }
                }
            }
        }
    }
}

proof fn lemma_hash_files_keep_places(ents: Seq<EntryView>, table: Seq<u32>, order: Seq<usize>, k: nat)
    requires
        k <= order.len(),
        forall|j: int| 0 <= j < order.len() ==> #[trigger] order[j] < ents.len() && ents[order[j] as int] is File,
    ensures
        forall|i: int|
            0 <= i < ents.len() && #[trigger] ents[i] is File ==> hash_files_fold(ents, table, order, k).0[i] is File
                && hash_files_fold(ents, table, order, k).0[i]->File_0.meta.offset == ents[i]->File_0.meta.offset
                && hash_files_fold(ents, table, order, k).0[i]->File_0.content == ents[i]->File_0.content,
        hash_files_fold(ents, table, order, k).0.len() == ents.len(),
    decreases k,
{
    if k > 0 {
        lemma_hash_files_keep_places(ents, table, order, (k - 1) as nat);
        let st = hash_files_fold(ents, table, order, (k - 1) as nat);
        let f = order[k - 1] as int;
        assert(ents[f] is File);
        assert(st.0[f] is File);
    }
}

/// Whether `t` and `ents` form a file system tree: each node holds its own
/// position, every node but the root hangs below a folder created before it,
/// the sibling before each folder is a folder, and the contents of every file
/// fit in memory.
pub open spec fn well_shaped(t: Seq<(usize, Option<usize>)>, ents: Seq<EntryView>) -> bool {
    &&& t.len() == ents.len()
    &&& 1 <= t.len() <= usize::MAX
    &&& parents_first(t)
    &&& t[0].1 is None
    &&& ents[0] is Folder
    &&& forall|k: int| 0 <= k < t.len() ==> #[trigger] t[k].0 == k
    &&& forall|k: int| 0 < k < t.len() ==> (#[trigger] t[k].1 matches Some(p) && ents[p as int] is Folder)
    &&& folder_siblings_are_folders(t, ents)
    &&& forall|i: int| 0 <= i < ents.len() && #[trigger] ents[i] is File ==> ents[i]->File_0.content.len() <= usize::MAX
}

proof fn lemma_files_in_no_duplicates(ents: Seq<EntryView>, order: Seq<usize>)
    requires
        order.no_duplicates(),
    ensures
        files_in(ents, order).no_duplicates(),
    decreases order.len(),
{
    if order.len() > 0 {
        let rest = order.drop_last();
        assert(rest.no_duplicates());
        lemma_files_in_no_duplicates(ents, rest);
        lemma_files_in(ents, rest);
        let p = files_in(ents, rest);
        if ents[order.last() as int] is File {
            assert forall|i: int, j: int| 0 <= i < p.push(order.last()).len() && 0 <= j < p.push(order.last()).len() && i != j
                implies p.push(order.last())[i] != p.push(order.last())[j] by {
                if i == p.len() || j == p.len() {
                    let other = if i == p.len() { j } else { i };
                    assert(rest.contains(p[other]));
                    let m = choose|m: int| 0 <= m < rest.len() && rest[m] == p[other];
                    assert(order[m] == rest[m]);
                    assert(order[order.len() - 1] == order.last());
                }
            }
        }
    }
}

proof fn lemma_packed_same(a: Seq<EntryView>, b: Seq<EntryView>, files: Seq<usize>, j: nat)
    requires
        forall|i: int| 0 <= i < j ==> content_of(a, #[trigger] files[i]) == content_of(b, files[i]),
    ensures
        packed_offset(a, files, j) == packed_offset(b, files, j),
    decreases j,
{
    if j > 0 {
        lemma_packed_same(a, b, files, (j - 1) as nat);
        assert(content_of(a, files[j - 1]) == content_of(b, files[j - 1]));
    }
}

proof fn lemma_packed_grows(ents: Seq<EntryView>, files: Seq<usize>, i: nat, j: nat)
    requires
        i < j,
    ensures
        packed_offset(ents, files, i) + content_of(ents, files[i as int]).len() <= packed_offset(ents, files, j),
    decreases j,
{
    if j > i + 1 {
        lemma_packed_grows(ents, files, i, (j - 1) as nat);
    }
}

/// Whether each of `files` is a file of `e` whose contents are those it has
/// in `ents`, placed at its packed offset.
pub open spec fn files_packed(e: Seq<EntryView>, ents: Seq<EntryView>, files: Seq<usize>) -> bool {
    forall|i: int|
        0 <= i < files.len() ==> files[i] < e.len() && (#[trigger] e[files[i] as int]) is File
            && e[files[i] as int]->File_0.meta.offset == packed_offset(ents, files, i as nat)
            && content_of(e, files[i]) == content_of(ents, files[i])
}

/// The positions of the tree's files and folders are in range and of their kind.
proof fn lemma_order_kinds(t: Seq<(usize, Option<usize>)>, ents: Seq<EntryView>)
    requires
        well_shaped(t, ents),
    ensures
        files_in(ents, tree_order(t)).no_duplicates(),
        forall|i: int| 0 <= i < tree_order(t).len() ==> #[trigger] tree_order(t)[i] < ents.len(),
        forall|i: int|
            0 <= i < files_in(ents, tree_order(t)).len() ==> #[trigger] files_in(ents, tree_order(t))[i] < ents.len()
                && ents[files_in(ents, tree_order(t))[i] as int] is File,
        forall|i: int|
            0 <= i < folders_in(ents, tree_order(t)).len() ==> #[trigger] folders_in(ents, tree_order(t))[i] < ents.len()
                && ents[folders_in(ents, tree_order(t))[i] as int] is Folder,
        forall|k: int| 0 <= k < t.len() ==> (#[trigger] t[k].1 matches Some(p) ==> p < ents.len() && ents[p as int] is Folder),
{
    let order = tree_order(t);
    lemma_tree_order_no_duplicates(t);
    let files = files_in(ents, order);
    let folders = folders_in(ents, order);
    lemma_files_in_no_duplicates(ents, order);
    lemma_files_in(ents, order);
    lemma_folders_in(ents, order);
    assert forall|i: int| 0 <= i < files.len() implies #[trigger] files[i] < ents.len() && ents[files[i] as int] is File by {
        let m = choose|m: int| 0 <= m < order.len() && order[m] == files[i];
        assert(order[m] < t.len());
    }
    assert forall|i: int| 0 <= i < folders.len() implies #[trigger] folders[i] < ents.len() && ents[folders[i] as int] is Folder by {
        let m = choose|m: int| 0 <= m < order.len() && order[m] == folders[i];
        assert(order[m] < t.len());
    }
    assert forall|k: int| 0 <= k < t.len() implies (#[trigger] t[k].1 matches Some(p) ==> p < ents.len() && ents[p as int] is Folder) by {
        if k > 0 {
            assert(t[k].1 matches Some(p) && p < k && ents[p as int] is Folder);
        }
    }
}

/// After the folder and file layouts, the files lie packed in the partition.
proof fn lemma_layout_packs(t: Seq<(usize, Option<usize>)>, ents: Seq<EntryView>, e1: Seq<EntryView>, e2: Seq<EntryView>)
    requires
        well_shaped(t, ents),
        spec_folder_metadata(t, ents) == Ok::<Seq<EntryView>, super::WuhbError>(e1),
        spec_file_metadata(t, 0, e1) == Ok::<Seq<EntryView>, super::WuhbError>(e2),
    ensures
        same_kinds(e1, ents),
        same_kinds(e2, ents),
        files_in(e2, tree_order(t)) == files_in(ents, tree_order(t)),
        files_packed(e2, ents, files_in(ents, tree_order(t))),
        files_placed(e2, files_in(ents, tree_order(t))),
        forall|i: int| 0 <= i < ents.len() && #[trigger] ents[i] is File ==> e1[i] == ents[i],
{
    let order = tree_order(t);
    let files = files_in(ents, order);
    let folders = folders_in(ents, order);
    lemma_order_kinds(t, ents);
    lemma_folder_meta_keeps_files(t, ents, folders, folders.len());
    lemma_files_in_same_kinds(e1, ents, order);
    assert forall|i: int| 0 <= i < files.len() implies #[trigger] files[i] < e1.len() && e1[files[i] as int] is File
        && e1[files[i] as int]->File_0.content.len() <= u64::MAX by {
        assert(ents[files[i] as int] is File);
    }
    assert forall|k: int| 0 <= k < t.len() implies (#[trigger] t[k].1 matches Some(p) ==> p < e1.len() && e1[p as int] is Folder) by {
        if let Some(p) = t[k].1 {
            assert(ents[p as int] is Folder);
        }
    }
    lemma_file_meta_packs(t, 0, e1, files, files.len());
    let st = file_meta_fold(t, 0, e1, files, files.len())->Ok_0;
    assert(st.0 == e2);
    lemma_files_in_same_kinds(e2, e1, order);
    assert forall|i: int| 0 <= i < files.len() implies files[i] < e2.len() && (#[trigger] e2[files[i] as int]) is File
        && e2[files[i] as int]->File_0.meta.offset == packed_offset(ents, files, i as nat)
        && content_of(e2, files[i]) == content_of(ents, files[i]) by {
        let f = files[i] as int;
        assert(ents[f] is File);
        assert(e1[f] == ents[f]);
        assert(st.0[files[i] as int]->File_0.meta.offset == packed_offset(e1, files, i as nat));
        assert forall|m: int| 0 <= m < i implies content_of(e1, #[trigger] files[m]) == content_of(ents, files[m]) by {
            assert(ents[files[m] as int] is File);
        }
        lemma_packed_same(e1, ents, files, i as nat);
    }
    lemma_file_meta_places(t, 0, e1, files, files.len());
    assert(files.take(files.len() as int) =~= files);
}

/// Building the hash tables moves no file.
#[verifier::rlimit(50)]
proof fn lemma_hashing_keeps_packing(t: Seq<(usize, Option<usize>)>, ents: Seq<EntryView>, e2: Seq<EntryView>, e3: Seq<EntryView>)
    requires
        well_shaped(t, ents),
        same_kinds(e2, ents),
        files_in(e2, tree_order(t)) == files_in(ents, tree_order(t)),
        files_packed(e2, ents, files_in(ents, tree_order(t))),
        files_placed(e2, files_in(ents, tree_order(t))),
        spec_hash_tables(t, e2) matches Ok(h) && h.0 == e3,
    ensures
        files_in(e3, tree_order(t)) == files_in(ents, tree_order(t)),
        files_packed(e3, ents, files_in(ents, tree_order(t))),
{
    let order = tree_order(t);
    let files = files_in(ents, order);
    lemma_order_kinds(t, ents);
    let folders2 = folders_in(e2, order);
    lemma_folders_in(e2, order);
    assert forall|i: int| 0 <= i < folders2.len() implies #[trigger] folders2[i] < e2.len() && e2[folders2[i] as int] is Folder by {
        let m = choose|m: int| 0 <= m < order.len() && order[m] == folders2[i];
        assert(order[m] < t.len());
    }
    assert forall|i: int| 0 <= i < files.len() implies #[trigger] files[i] < e2.len() && e2[files[i] as int] is File by {
        assert(ents[files[i] as int] is File);
    }
    let dt = empty_table(table_size(folders2.len() + 1));
    let d = hash_folders_fold(e2, dt, folders2, folders2.len());
    lemma_hash_folders_keep(e2, dt, folders2, files, folders2.len());
    let ft = empty_table(table_size(files.len()));
    assert forall|i: int| 0 <= i < files.len() implies #[trigger] files[i] < d.0.len() && d.0[files[i] as int] is File by {
        assert(e2[files[i] as int] is File);
    }
    lemma_hash_files_keep_places(d.0, ft, files, files.len());
    lemma_hash_files_keep(d.0, ft, files, files.len());
    assert(e3 == hash_files_fold(d.0, ft, files, files.len()).0);
    assert forall|i: int| 0 <= i < files.len() implies files[i] < e3.len() && (#[trigger] e3[files[i] as int]) is File
        && e3[files[i] as int]->File_0.meta.offset == packed_offset(ents, files, i as nat)
        && content_of(e3, files[i]) == content_of(ents, files[i]) by {
        let f = files[i] as int;
        assert(e2[f] is File);
        assert(d.0[f] == e2[f]);
    }
    assert(same_kinds(e3, ents)) by {
        assert forall|k: int| 0 <= k < e3.len() implies (#[trigger] e3[k] is Folder <==> ents[k] is Folder) by {
            assert(d.0[k] is Folder <==> e2[k] is Folder);
            assert(e2[k] is Folder <==> ents[k] is Folder);
        }
    }
    lemma_files_in_same_kinds(e3, ents, order);
}

/// Every file of a laid-out image is read back from its partition, where the
/// contents of the files lie in depth-first order, each at the first 16-byte
/// boundary after the one before, starting 0x200 bytes into the image.
pub proof fn law_laid_out_image_holds_files(t: Seq<(usize, Option<usize>)>, ents: Seq<EntryView>, j: int)
    requires
        well_shaped(t, ents),
        laid_out_image(t, ents) is Ok,
        0 <= j < files_in(ents, tree_order(t)).len(),
    ensures
        holds_at(
            laid_out_image(t, ents)->Ok_0,
            0x200 + packed_offset(ents, files_in(ents, tree_order(t)), j as nat),
            content_of(ents, files_in(ents, tree_order(t))[j]),
        ),
{
    reveal(laid_out_image);
    let order = tree_order(t);
    let files = files_in(ents, order);
    let e1 = spec_folder_metadata(t, ents)->Ok_0;
    let e2 = spec_file_metadata(t, 0, e1)->Ok_0;
    let h = spec_hash_tables(t, e2)->Ok_0;
    let e3 = h.0;
    lemma_layout_packs(t, ents, e1, e2);
    lemma_order_kinds(t, ents);
    lemma_hashing_keeps_packing(t, ents, e2, e3);
    assert forall|k: int| 0 < k < t.len() implies (#[trigger] t[k].1 matches Some(p) && e1[p as int] is Folder) by {
        assert(t[k].1 matches Some(p) && ents[p as int] is Folder);
    }
    lemma_layout_places_files(t, e1, e2, e3);
    assert forall|a: int, b: int| 0 <= a < b < files.len() implies (#[trigger] e3[files[a] as int])->File_0.meta.offset
        + e3[files[a] as int]->File_0.content.len() <= (#[trigger] e3[files[b] as int])->File_0.meta.offset by {
        lemma_packed_grows(ents, files, a as nat, b as nat);
    }
    law_image_holds_files(e3, folders_in(e3, order), files, h.1, h.2, j);
}

/// The bundle's tree in depth-first order: the root, `code`, `root.rpx`,
/// `meta`, `meta.ini`.
proof fn lemma_bundle_order()
    ensures
        tree_order(bundle_tree()) == seq![0usize, 1usize, 3usize, 2usize, 4usize],
{
    let t = bundle_tree();
    assert(preorder_children(t, 3, 5) == Seq::<int>::empty());
    assert(preorder_children(t, 3, 4) == Seq::<int>::empty());
    assert(preorder(t, 3) =~= seq![3int]);
    assert(preorder_children(t, 4, 5) == Seq::<int>::empty());
    assert(preorder(t, 4) =~= seq![4int]);
    assert(preorder_children(t, 1, 5) == Seq::<int>::empty());
    assert(preorder_children(t, 1, 4) == Seq::<int>::empty());
    assert(preorder_children(t, 1, 3) =~= seq![3int]);
    assert(preorder_children(t, 1, 2) =~= seq![3int]);
    assert(preorder(t, 1) =~= seq![1int, 3int]);
    assert(preorder_children(t, 2, 5) == Seq::<int>::empty());
    assert(preorder_children(t, 2, 4) =~= seq![4int]);
    assert(preorder_children(t, 2, 3) =~= seq![4int]);
    assert(preorder(t, 2) =~= seq![2int, 4int]);
    assert(preorder_children(t, 0, 5) == Seq::<int>::empty());
    assert(preorder_children(t, 0, 4) == Seq::<int>::empty());
    assert(preorder_children(t, 0, 3) == Seq::<int>::empty());
    assert(preorder_children(t, 0, 2) =~= seq![2int, 4int]);
    assert(preorder_children(t, 0, 1) =~= seq![1int, 3int, 2int, 4int]);
    assert(preorder(t, 0) =~= seq![0int, 1int, 3int, 2int, 4int]);
    assert(data_at(t, preorder(t, 0)) =~= seq![0usize, 1usize, 3usize, 2usize, 4usize]);
}

proof fn lemma_bundle_shape(rpx: Seq<u8>, ini: Seq<u8>)
    requires
        rpx.len() <= usize::MAX,
        ini.len() <= usize::MAX,
    ensures
        well_shaped(bundle_tree(), bundle_entries(rpx, ini)),
        files_in(bundle_entries(rpx, ini), tree_order(bundle_tree())) == seq![3usize, 4usize],
{
    let t = bundle_tree();
    let ents = bundle_entries(rpx, ini);
    lemma_bundle_siblings(ents);
    lemma_bundle_order();
    let o5 = tree_order(t);
    let o4 = seq![0usize, 1usize, 3usize, 2usize];
    let o3 = seq![0usize, 1usize, 3usize];
    let o2 = seq![0usize, 1usize];
    let o1 = seq![0usize];
    assert(o5.drop_last() =~= o4);
    assert(o4.drop_last() =~= o3);
    assert(o3.drop_last() =~= o2);
    assert(o2.drop_last() =~= o1);
    assert(o1.drop_last() =~= Seq::<usize>::empty());
    assert(files_in(ents, Seq::<usize>::empty()) =~= Seq::<usize>::empty());
    assert(o1.last() == 0usize);
    assert(ents[0] is Folder);
    assert(files_in(ents, o1) =~= Seq::<usize>::empty());
    assert(files_in(ents, o2) =~= Seq::<usize>::empty());
    assert(files_in(ents, o3) =~= seq![3usize]);
    assert(files_in(ents, o4) =~= seq![3usize]);
    assert(files_in(ents, o5) =~= seq![3usize, 4usize]);
}

/// A bundle holds the module at the start of its file partition, 0x200
/// bytes in, and its `meta.ini` at the first 16-byte boundary after the
/// module.
#[verifier::rlimit(40)]
pub proof fn law_bundle_holds_module(rpx: Seq<u8>, long_name: Seq<char>, short_name: Seq<char>, author: Seq<char>)
    requires
        spec_from_rpx(rpx, long_name, short_name, author) is Ok,
        rpx.len() <= usize::MAX,
        meta_ini_bytes(long_name, short_name, author).len() <= usize::MAX,
    ensures
        holds_at(spec_from_rpx(rpx, long_name, short_name, author)->Ok_0, 0x200, rpx),
        holds_at(
            spec_from_rpx(rpx, long_name, short_name, author)->Ok_0,
            0x200 + align_up(rpx.len() as int, 16),
            meta_ini_bytes(long_name, short_name, author),
        ),
{
    let ini = meta_ini_bytes(long_name, short_name, author);
    let t = bundle_tree();
    let ents = bundle_entries(rpx, ini);
    lemma_bundle_shape(rpx, ini);
    let files = files_in(ents, tree_order(t));
    assert(packed_offset(ents, files, 0) == 0);
    assert(packed_offset(ents, files, 1) == align_up(rpx.len() as int, 16));
    law_laid_out_image_holds_files(t, ents, 0);
    law_laid_out_image_holds_files(t, ents, 1);
}

/// The position among the first `k` of `order` of the next file after the
/// `j`-th in the same folder, if any.
pub open spec fn next_in_folder(t: Seq<(usize, Option<usize>)>, root: int, order: Seq<usize>, j: int, k: nat) -> Option<int>
    decreases k,
{
    if k == 0 || k <= j + 1 {
        None
    } else {
        match next_in_folder(t, root, order, j, (k - 1) as nat) {
            Some(x) => Some(x),
            None => if file_parent(t, root, order[k - 1] as int) == file_parent(t, root, order[j] as int) {
                Some(k - 1)
            } else {
                None
            },
        }
    }
}

proof fn lemma_next_in_folder(t: Seq<(usize, Option<usize>)>, root: int, order: Seq<usize>, j: int, k: nat)
    requires
        0 <= j,
    ensures
        next_in_folder(t, root, order, j, k) matches Some(x) ==> j < x < k && file_parent(t, root, order[x] as int)
            == file_parent(t, root, order[j] as int),
        next_in_folder(t, root, order, j, k) is None ==> forall|x: int|
            j < x < k ==> file_parent(t, root, #[trigger] order[x] as int) != file_parent(t, root, order[j] as int),
    decreases k,
{
    if k > 0 && k > j + 1 {
        lemma_next_in_folder(t, root, order, j, (k - 1) as nat);
    }
}

proof fn lemma_last_file_index(t: Seq<(usize, Option<usize>)>, root: int, order: Seq<usize>, k: nat, p: int)
    requires
        k <= order.len(),
    ensures
        last_file_in(t, root, order, k, p) matches Some(g) ==> exists|m: int|
            0 <= m < k && order[m] == g && file_parent(t, root, order[m] as int) == p && forall|x: int|
                m < x < k ==> file_parent(t, root, #[trigger] order[x] as int) != p,
        last_file_in(t, root, order, k, p) is None ==> forall|x: int|
            0 <= x < k ==> file_parent(t, root, #[trigger] order[x] as int) != p,
    decreases k,
{
    if k > 0 {
        lemma_last_file_index(t, root, order, (k - 1) as nat, p);
        if file_parent(t, root, order[k - 1] as int) != p {
            if let Some(g) = last_file_in(t, root, order, (k - 1) as nat, p) {
                let m = choose|m: int|
                    0 <= m < k - 1 && order[m] == g && file_parent(t, root, order[m] as int) == p && forall|x: int|
                        m < x < k - 1 ==> file_parent(t, root, #[trigger] order[x] as int) != p;
                assert forall|x: int| m < x < k implies file_parent(t, root, #[trigger] order[x] as int) != p by {
                    if x < k - 1 {
                        assert(m < x < k - 1);
                    }
                }
            }
        }
    }
}

/// Whether, after laying out the first `k` files of `files`, each of them
/// records the offset of the next file of its folder, and the last file of
/// a folder records none.
pub open spec fn files_linked(e: Seq<EntryView>, t: Seq<(usize, Option<usize>)>, root: int, files: Seq<usize>, k: nat) -> bool {
    forall|j: int|
        0 <= j < k ==> match next_in_folder(t, root, files, j, k) {
            Some(x) => (#[trigger] e[files[j] as int])->File_0.meta.sibling == e[files[x] as int]->File_0.offset,
            None => e[files[j] as int]->File_0.meta.sibling == NONE,
        }
}

proof fn lemma_file_meta_links(t: Seq<(usize, Option<usize>)>, root: int, ents: Seq<EntryView>, files: Seq<usize>, k: nat)
    requires
        k <= files.len(),
        files.no_duplicates(),
        t.len() == ents.len(),
        0 <= root < ents.len(),
        ents[root] is Folder,
        forall|j: int| 0 <= j < files.len() ==> #[trigger] files[j] < ents.len() && ents[files[j] as int] is File,
        forall|j: int| 0 <= j < t.len() ==> (#[trigger] t[j].1 matches Some(p) ==> p < ents.len() && ents[p as int] is Folder),
    ensures
        file_meta_fold(t, root, ents, files, k) matches Ok(st) ==> same_kinds(st.0, ents) && files_linked(st.0, t, root, files, k),
    decreases k,
{
    if k > 0 {
        lemma_file_meta_links(t, root, ents, files, (k - 1) as nat);
        if let Ok(st) = file_meta_fold(t, root, ents, files, (k - 1) as nat) {
            let f = files[k - 1] as int;
            assert(ents[f] is File);
            assert(st.0[f] is File);
            let p = file_parent(t, root, f);
            assert(ents[p] is Folder);
            assert(st.0[p] is Folder);
            let prev = last_file_in(t, root, files, (k - 1) as nat, p);
            lemma_file_meta_step_shape(t, root, st.0, st.1, st.2, f, prev);
            lemma_last_file_index(t, root, files, (k - 1) as nat, p);
            if let Ok(st2) = file_meta_step(t, root, st.0, st.1, st.2, f, prev) {
                assert forall|j: int| 0 <= j < k implies match next_in_folder(t, root, files, j, k) {
                    Some(x) => (#[trigger] st2.0[files[j] as int])->File_0.meta.sibling == st2.0[files[x] as int]->File_0.offset,
                    None => st2.0[files[j] as int]->File_0.meta.sibling == NONE,
                } by {
                    if j < k - 1 {
                        let g = files[j] as int;
                        assert(g != f);
                        assert(ents[g] is File);
                        assert(st.0[g] is File);
                        lemma_next_in_folder(t, root, files, j, (k - 1) as nat);
                        lemma_next_in_folder(t, root, files, j, k);
                        match next_in_folder(t, root, files, j, (k - 1) as nat) {
                            Some(x) => {
                                assert(st.0[g]->File_0.meta.sibling == st.0[files[x] as int]->File_0.offset);
                                if prev == Some(g) {
                                    let m = choose|m: int|
                                        0 <= m < k - 1 && files[m] == g && file_parent(t, root, files[m] as int) == p
                                            && forall|y: int| m < y < k - 1 ==> file_parent(t, root, #[trigger] files[y] as int) != p;
                                    assert(m == j);
                                    assert(file_parent(t, root, files[x] as int) != p);
                                }
                                assert(st2.0[g] == st.0[g]);
                                let h = files[x] as int;
                                assert(h != f);
                                assert(ents[h] is File);
                                assert(st.0[h] is File);
                                assert(file_kept(st2.0[h], st.0[h]));
                            },
                            None => {
                                if file_parent(t, root, g) == p {
                                    assert(prev is Some) by {
                                        if prev is None {
                                            assert(file_parent(t, root, files[j] as int) != p);
                                        }
                                    }
                                    let m = choose|m: int|
                                        0 <= m < k - 1 && files[m] == prev->Some_0 && file_parent(t, root, files[m] as int) == p
                                            && forall|y: int| m < y < k - 1 ==> file_parent(t, root, #[trigger] files[y] as int) != p;
                                    if m < j {
                                        assert(file_parent(t, root, files[j] as int) != p);
                                    } else if m > j {
                                        assert(file_parent(t, root, files[m] as int) != file_parent(t, root, files[j] as int));
                                    }
                                    assert(prev == Some(g));
                                } else {
                                    if prev == Some(g) {
                                        let m = choose|m: int|
                                            0 <= m < k - 1 && files[m] == g && file_parent(t, root, files[m] as int) == p
                                                && forall|y: int| m < y < k - 1 ==> file_parent(t, root, #[trigger] files[y] as int) != p;
                                        assert(m == j);
                                    }
                                    assert(st2.0[g] == st.0[g]);
                                }
                            },
                        }
                    }
                }
            }
        }
    }
}

/// After the file layout, every file records the offset in the file table
/// of the next file of its folder, in depth-first order, and the last file
/// of each folder records none.
pub proof fn law_file_layout_links_folders(t: Seq<(usize, Option<usize>)>, ents: Seq<EntryView>, j: int)
    requires
        well_shaped(t, ents),
        spec_file_metadata(t, 0, ents) is Ok,
        0 <= j < files_in(ents, tree_order(t)).len(),
    ensures
        ({
            let files = files_in(ents, tree_order(t));
            let e = spec_file_metadata(t, 0, ents)->Ok_0;
            match next_in_folder(t, 0, files, j, files.len()) {
                Some(x) => e[files[j] as int]->File_0.meta.sibling == e[files[x] as int]->File_0.offset,
                None => e[files[j] as int]->File_0.meta.sibling == NONE,
            }
        }),
{
    let files = files_in(ents, tree_order(t));
    lemma_order_kinds(t, ents);
    lemma_file_meta_links(t, 0, ents, files, files.len());
    let st = file_meta_fold(t, 0, ents, files, files.len())->Ok_0;
    assert(st.0[files[j] as int] == spec_file_metadata(t, 0, ents)->Ok_0[files[j] as int]);
}

/// `h` rotated right by five bits: its low five bits move to the top.
pub open spec fn rotated_right_5(h: u32) -> u32 {
    (h / 32 + (h % 32) * 0x0800_0000) as u32
}

/// The hash of a name starts from the parent's offset XOR 123456789; each
/// further character rotates the hash right by five bits and XORs in the
/// character's code, upper-cased for ASCII letters.
pub proof fn law_name_hash_rotates_right(parent: u32, chars: Seq<char>, c: char)
    ensures
        name_hash(parent, Seq::empty()) == parent ^ 123456789u32,
        name_hash(parent, chars.push(c)) == rotated_right_5(name_hash(parent, chars)) ^ upper_code(c),
        'a' <= c <= 'z' ==> upper_code(c) + 32 == c as u32,
        !('a' <= c <= 'z') ==> upper_code(c) == c as u32,
{
    let h = name_hash(parent, chars);
    assert(chars.push(c).drop_last() =~= chars);
    assert((h >> 5u32) | (h << 27u32) == ((h / 32 + (h % 32) * 0x0800_0000) as u32)) by (bit_vector);
}

} // verus!
