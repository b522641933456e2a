//! Writing a file system image and building a WUHB bundle.
use vstd::prelude::*;
use vstd::utf8::encode_utf8;
use crate::bytes::{push_bytes, write_at, write_bytes_at};
use super::romfs::{
    file_kept, file_parent, last_file_in, lemma_file_meta_step_shape, lemma_files_in, lemma_folders_in, lemma_order_in_range, empty_table, align_up, align_up_u64, empty_dir_entry, empty_file_entry, file_meta_fold, file_meta_step,
    files_in, folder_siblings_are_folders, folders_in, hash_files_fold,
    hash_folders_fold, same_kinds, spec_file_metadata, spec_folder_metadata,
    spec_hash_tables, tree_order, Entry, EntryView, FileView, FolderView, RomFs,
};
use super::tree::{is_child_of, parents_first, previous_sibling};
use super::{buckets_bytes, push_str_bytes, table_size, HashTable, RomFsHeader, WuhbConfig, WuhbError};

verus! {

/// A write buffer and its position.
pub type Cursor = (Seq<u8>, int);

/// `data` written at the cursor, which moves past it; an error where the end
/// lies past the address space.
pub open spec fn put(c: Cursor, data: Seq<u8>) -> Result<Cursor, WuhbError> {
    if c.1 + data.len() > usize::MAX {
        Err(WuhbError::Overflow)
    } else {
        Ok((write_at(c.0, c.1, data), c.1 + data.len()))
    }
}

/// The cursor after writing the contents of the first `k` files of `files`:
/// each goes to the file partition at 0x200 plus its partition offset,
/// rounded up to 16 bytes, and the cursor is then aligned to 4 bytes.
pub open spec fn write_partition(ents: Seq<EntryView>, files: Seq<usize>, k: nat) -> Result<Cursor, WuhbError>
    decreases k,
{
    if k == 0 {
        Ok((Seq::empty(), 0))
    } else {
        match write_partition(ents, files, (k - 1) as nat) {
            Err(e) => Err(e),
            Ok(c) => {
                let fi = ents[files[k - 1] as int]->File_0;
                let start = align_up(0x200 + fi.meta.offset, 16);
                if start > u64::MAX {
                    Err(WuhbError::Overflow)
                } else {
                    match put((c.0, start), fi.content) {
                        Err(e) => Err(e),
                        Ok(c2) => if align_up(c2.1, 4) > usize::MAX {
                            Err(WuhbError::Overflow)
                        } else {
                            Ok((c2.0, align_up(c2.1, 4)))
                        },
                    }
                }
            },
        }
    }
}

/// The cursor after writing the directory entries of the first `k` folders,
/// each at `base` plus the folder's offset.
pub open spec fn write_dir_entries(ents: Seq<EntryView>, folders: Seq<usize>, base: int, c: Cursor, k: nat) -> Result<Cursor, WuhbError>
    decreases k,
{
    if k == 0 {
        Ok(c)
    } else {
        match write_dir_entries(ents, folders, base, c, (k - 1) as nat) {
            Err(e) => Err(e),
            Ok(c1) => {
                let fo = ents[folders[k - 1] as int]->Folder_0;
                put((c1.0, base + fo.offset), dir_entry_bytes(fo.meta))
            },
        }
    }
}

/// The cursor after writing the file entries of the first `k` files, each
/// at `base` plus the file's offset.
pub open spec fn write_file_entries(ents: Seq<EntryView>, files: Seq<usize>, base: int, c: Cursor, k: nat) -> Result<Cursor, WuhbError>
    decreases k,
{
    if k == 0 {
        Ok(c)
    } else {
        match write_file_entries(ents, files, base, c, (k - 1) as nat) {
            Err(e) => Err(e),
            Ok(c1) => {
                let fi = ents[files[k - 1] as int]->File_0;
                put((c1.0, base + fi.offset), file_entry_bytes(fi.meta))
            },
        }
    }
}

pub open spec fn dir_entry_bytes(m: super::romfs::DirEntryView) -> Seq<u8> {
    crate::bytes::be32(m.parent) + crate::bytes::be32(m.sibling) + crate::bytes::be32(m.child)
        + crate::bytes::be32(m.file) + crate::bytes::be32(m.hash) + crate::bytes::be32(m.name_size)
        + encode_utf8(m.name)
}

pub open spec fn file_entry_bytes(m: super::romfs::FileEntryView) -> Seq<u8> {
    crate::bytes::be32(m.parent) + crate::bytes::be32(m.sibling) + crate::bytes::be64(m.offset)
        + crate::bytes::be64(m.size) + crate::bytes::be32(m.hash) + crate::bytes::be32(m.name_size)
        + encode_utf8(m.name)
}

/// The 24 zero bytes of the empty directory entry that ends the directory table.
pub open spec fn closing_dir_entry() -> Seq<u8> {
    Seq::new(24, |i: int| 0u8)
}

/// The image: the file contents in the partition, then the directory hash
/// table, the directory entries and a closing empty entry, the file hash
/// table and the file entries; the header at the start records where each
/// table lies and how long it is.
pub open spec fn spec_image(ents: Seq<EntryView>, folders: Seq<usize>, files: Seq<usize>, dirs: Seq<u32>, ftab: Seq<u32>) -> Result<Seq<u8>, WuhbError> {
    match write_partition(ents, files, files.len()) {
        Err(e) => Err(e),
        Ok(c1) => match put(c1, buckets_bytes(dirs)) {
            Err(e) => Err(e),
            Ok(c2) => match write_dir_entries(ents, folders, c2.1, c2, folders.len()) {
                Err(e) => Err(e),
                Ok(c3) => match put(c3, closing_dir_entry()) {
                    Err(e) => Err(e),
                    Ok(c4) => match put(c4, buckets_bytes(ftab)) {
                        Err(e) => Err(e),
                        Ok(c5) => match write_file_entries(ents, files, c5.1, c5, files.len()) {
                            Err(e) => Err(e),
                            Ok(c6) => {
                                let header = RomFsHeader {
                                    dir_hash_table_ofs: c1.1 as u64,
                                    dir_hash_table_size: (4 * dirs.len()) as u64,
                                    dir_table_ofs: c2.1 as u64,
                                    dir_table_size: (c4.1 - c2.1) as u64,
                                    file_hash_table_ofs: c4.1 as u64,
                                    file_hash_table_size: (4 * ftab.len()) as u64,
                                    file_table_ofs: c5.1 as u64,
                                    file_table_size: (c6.1 - c5.1) as u64,
                                    ..RomFsHeader::spec_default()
                                };
                                Ok(write_at(c6.0, 0, header.spec_bytes()))
                            },
                        },
                    },
                },
            },
        },
    }
}

/// Whether every file of `files` has its contents at a 16-byte boundary of
/// the partition and its recorded size is the size of its contents.
pub open spec fn files_placed(ents: Seq<EntryView>, files: Seq<usize>) -> bool {
    forall|i: int|
        0 <= i < files.len() ==> (#[trigger] ents[files[i] as int])->File_0.meta.offset % 16 == 0
            && ents[files[i] as int]->File_0.meta.size == ents[files[i] as int]->File_0.content.len() as u64
}

pub(crate) proof fn lemma_dir_entries_pos(ents: Seq<EntryView>, folders: Seq<usize>, base: int, c: Cursor, k: nat)
    requires
        c.1 >= base,
        0 <= base,
    ensures
        write_dir_entries(ents, folders, base, c, k) matches Ok(c2) ==> c2.1 >= base,
    decreases k,
{
    if k > 0 {
        lemma_dir_entries_pos(ents, folders, base, c, (k - 1) as nat);
    }
}

pub(crate) proof fn lemma_file_entries_pos(ents: Seq<EntryView>, files: Seq<usize>, base: int, c: Cursor, k: nat)
    requires
        c.1 >= base,
        0 <= base,
    ensures
        write_file_entries(ents, files, base, c, k) matches Ok(c2) ==> c2.1 >= base,
    decreases k,
{
    if k > 0 {
        lemma_file_entries_pos(ents, files, base, c, (k - 1) as nat);
    }
}

proof fn lemma_partition_err(ents: Seq<EntryView>, files: Seq<usize>, m: nat, n: nat)
    requires
        m <= n,
        write_partition(ents, files, m) is Err,
    ensures
        write_partition(ents, files, n) == write_partition(ents, files, m),
    decreases n,
{
    if n > m {
        lemma_partition_err(ents, files, m, (n - 1) as nat);
    }
}

proof fn lemma_dir_entries_err(ents: Seq<EntryView>, folders: Seq<usize>, base: int, c: Cursor, m: nat, n: nat)
    requires
        m <= n,
        write_dir_entries(ents, folders, base, c, m) is Err,
    ensures
        write_dir_entries(ents, folders, base, c, n) == write_dir_entries(ents, folders, base, c, m),
    decreases n,
{
    if n > m {
        lemma_dir_entries_err(ents, folders, base, c, m, (n - 1) as nat);
    }
}

proof fn lemma_file_entries_err(ents: Seq<EntryView>, files: Seq<usize>, base: int, c: Cursor, m: nat, n: nat)
    requires
        m <= n,
        write_file_entries(ents, files, base, c, m) is Err,
    ensures
        write_file_entries(ents, files, base, c, n) == write_file_entries(ents, files, base, c, m),
    decreases n,
{
    if n > m {
        lemma_file_entries_err(ents, files, base, c, m, (n - 1) as nat);
    }
}

/// Writes `data` at `pos`, where its end fits in the address space, and
/// returns the position after it.
fn put_at(buf: &mut Vec<u8>, pos: u64, data: &[u8]) -> (r: Result<usize, WuhbError>)
    ensures
        match put((old(buf)@, pos as int), data@) {
            Ok(c) => r == Ok::<usize, WuhbError>(c.1 as usize) && final(buf)@ == c.0,
            Err(e) => r == Err::<usize, WuhbError>(e),
        },
{
    if pos > usize::MAX as u64 {
        return Err(WuhbError::Overflow);
    }
    let p = pos as usize;
    if p > usize::MAX - data.len() {
        return Err(WuhbError::Overflow);
    }
    write_bytes_at(buf, p, data);
    Ok(p + data.len())
}

impl RomFs {
    fn write_partition_exec(&self, file_ids: &Vec<usize>, buf: &mut Vec<u8>) -> (r: Result<usize, WuhbError>)
        requires
            self.wf(),
            old(buf)@ == Seq::<u8>::empty(),
            forall|j: int| 0 <= j < file_ids@.len() ==> #[trigger] file_ids@[j] < self.ents().len() && self.ents()[file_ids@[j] as int] is File,
            files_placed(self.ents(), file_ids@),
        ensures
            match write_partition(self.ents(), file_ids@, file_ids@.len()) {
                Ok(c) => r == Ok::<usize, WuhbError>(c.1 as usize) && final(buf)@ == c.0,
                Err(e) => r == Err::<usize, WuhbError>(e),
            },
    {
        let ghost ents = self.ents();
        let mut pos: usize = 0;
        let mut k: usize = 0;
        while k < file_ids.len()
            invariant
                self.wf(),
                ents == self.ents(),
                k <= file_ids@.len(),
                forall|j: int| 0 <= j < file_ids@.len() ==> #[trigger] file_ids@[j] < ents.len() && ents[file_ids@[j] as int] is File,
                files_placed(ents, file_ids@),
                write_partition(ents, file_ids@, k as nat) == Ok::<Cursor, WuhbError>((buf@, pos as int)),
            decreases file_ids@.len() - k,
        {
            let id = file_ids[k];
            assert(ents[id as int] is File);
            assert(ents[id as int] == self.entries@[id as int]@);
            let ghost fi = ents[id as int]->File_0;
            let file = match &self.entries[id] {
                Entry::File(f) => f,
                Entry::Folder(_) => {
                    assert(false);
                    return Err(WuhbError::Overflow);
                },
            };
            let offset = file.meta.offset;
            let content = file.content.as_slice();
            let a = match offset.checked_add(0x200) {
                Some(v) => v,
                None => {
                    proof {
                        lemma_partition_err(ents, file_ids@, (k + 1) as nat, file_ids@.len());
                    }
                    return Err(WuhbError::Overflow);
                },
            };
            let start = match align_up_u64(a, 16) {
                Ok(v) => v,
                Err(e) => {
                    proof {
                        lemma_partition_err(ents, file_ids@, (k + 1) as nat, file_ids@.len());
                    }
                    return Err(e);
                },
            };
            assert(start == 0x200 + fi.meta.offset);
            let end = match put_at(buf, start, content) {
                Ok(v) => v,
                Err(e) => {
                    proof {
                        lemma_partition_err(ents, file_ids@, (k + 1) as nat, file_ids@.len());
                    }
                    return Err(e);
                },
            };
            assert(end == 0x200 + fi.meta.offset + fi.content.len());
            let aligned = match align_up_u64(end as u64, 4) {
                Ok(v) => v,
                Err(e) => {
                    proof {
                        lemma_partition_err(ents, file_ids@, (k + 1) as nat, file_ids@.len());
                    }
                    return Err(e);
                },
            };
            if aligned > usize::MAX as u64 {
                proof {
                    lemma_partition_err(ents, file_ids@, (k + 1) as nat, file_ids@.len());
                }
                return Err(WuhbError::Overflow);
            }
            pos = aligned as usize;
            k = k + 1;
        }
        Ok(pos)
    }

    fn write_dir_entries_exec(&self, folder_ids: &Vec<usize>, base: usize, buf: &mut Vec<u8>, start: usize) -> (r: Result<usize, WuhbError>)
        requires
            self.wf(),
            forall|j: int| 0 <= j < folder_ids@.len() ==> #[trigger] folder_ids@[j] < self.ents().len() && self.ents()[folder_ids@[j] as int] is Folder,
        ensures
            match write_dir_entries(self.ents(), folder_ids@, base as int, (old(buf)@, start as int), folder_ids@.len()) {
                Ok(c) => r == Ok::<usize, WuhbError>(c.1 as usize) && final(buf)@ == c.0,
                Err(e) => r == Err::<usize, WuhbError>(e),
            },
    {
        let ghost ents = self.ents();
        let ghost c0 = (buf@, start as int);
        let mut pos = start;
        let mut k: usize = 0;
        while k < folder_ids.len()
            invariant
                self.wf(),
                ents == self.ents(),
                c0 == (old(buf)@, start as int),
                k <= folder_ids@.len(),
                forall|j: int| 0 <= j < folder_ids@.len() ==> #[trigger] folder_ids@[j] < ents.len() && ents[folder_ids@[j] as int] is Folder,
                write_dir_entries(ents, folder_ids@, base as int, c0, k as nat) == Ok::<Cursor, WuhbError>((buf@, pos as int)),
            decreases folder_ids@.len() - k,
        {
            let id = folder_ids[k];
            assert(ents[id as int] is Folder);
            assert(ents[id as int] == self.entries@[id as int]@);
            let mut bytes: Vec<u8> = Vec::new();
            let offset = match &self.entries[id] {
                Entry::Folder(f) => {
                    f.meta.write_to(&mut bytes);
                    f.offset
                },
                Entry::File(_) => 0,
            };
            assert(bytes@ =~= dir_entry_bytes(ents[id as int]->Folder_0.meta));
            let at = match (base as u64).checked_add(offset as u64) {
                Some(v) => v,
                None => {
                    proof {
                        lemma_dir_entries_err(ents, folder_ids@, base as int, c0, (k + 1) as nat, folder_ids@.len());
                    }
                    return Err(WuhbError::Overflow);
                },
            };
            pos = match put_at(buf, at, bytes.as_slice()) {
                Ok(v) => v,
                Err(e) => {
                    proof {
                        lemma_dir_entries_err(ents, folder_ids@, base as int, c0, (k + 1) as nat, folder_ids@.len());
                    }
                    return Err(e);
                },
            };
            k = k + 1;
        }
        Ok(pos)
    }

    fn write_file_entries_exec(&self, file_ids: &Vec<usize>, base: usize, buf: &mut Vec<u8>, start: usize) -> (r: Result<usize, WuhbError>)
        requires
            self.wf(),
            forall|j: int| 0 <= j < file_ids@.len() ==> #[trigger] file_ids@[j] < self.ents().len() && self.ents()[file_ids@[j] as int] is File,
        ensures
            match write_file_entries(self.ents(), file_ids@, base as int, (old(buf)@, start as int), file_ids@.len()) {
                Ok(c) => r == Ok::<usize, WuhbError>(c.1 as usize) && final(buf)@ == c.0,
                Err(e) => r == Err::<usize, WuhbError>(e),
            },
    {
        let ghost ents = self.ents();
        let ghost c0 = (buf@, start as int);
        let mut pos = start;
        let mut k: usize = 0;
        while k < file_ids.len()
            invariant
                self.wf(),
                ents == self.ents(),
                c0 == (old(buf)@, start as int),
                k <= file_ids@.len(),
                forall|j: int| 0 <= j < file_ids@.len() ==> #[trigger] file_ids@[j] < ents.len() && ents[file_ids@[j] as int] is File,
                write_file_entries(ents, file_ids@, base as int, c0, k as nat) == Ok::<Cursor, WuhbError>((buf@, pos as int)),
            decreases file_ids@.len() - k,
        {
            let id = file_ids[k];
            assert(ents[id as int] is File);
            assert(ents[id as int] == self.entries@[id as int]@);
            let mut bytes: Vec<u8> = Vec::new();
            let offset = match &self.entries[id] {
                Entry::File(f) => {
                    f.meta.write_to(&mut bytes);
                    f.offset
                },
                Entry::Folder(_) => 0,
            };
            assert(bytes@ =~= file_entry_bytes(ents[id as int]->File_0.meta));
            let at = match (base as u64).checked_add(offset as u64) {
                Some(v) => v,
                None => {
                    proof {
                        lemma_file_entries_err(ents, file_ids@, base as int, c0, (k + 1) as nat, file_ids@.len());
                    }
                    return Err(WuhbError::Overflow);
                },
            };
            pos = match put_at(buf, at, bytes.as_slice()) {
                Ok(v) => v,
                Err(e) => {
                    proof {
                        lemma_file_entries_err(ents, file_ids@, base as int, c0, (k + 1) as nat, file_ids@.len());
                    }
                    return Err(e);
                },
            };
            k = k + 1;
        }
        Ok(pos)
    }

    /// The bytes of the image with directory hash table `dirs` and file hash
    /// table `ftab`.
    #[verifier::rlimit(80)]
    #[verifier::spinoff_prover]
    pub fn write_image(&self, dirs: &HashTable, ftab: &HashTable) -> (r: Result<Vec<u8>, WuhbError>)
        requires
            self.wf(),
            dirs.wf(),
            ftab.wf(),
            files_placed(self.ents(), files_in(self.ents(), self.order())),
        ensures
            match spec_image(self.ents(), folders_in(self.ents(), self.order()), files_in(self.ents(), self.order()), dirs@, ftab@) {
                Ok(v) => r is Ok && r->Ok_0@ == v,
                Err(e) => r == Err::<Vec<u8>, WuhbError>(e),
            },
    {
        let folder_ids = self.folders();
        let file_ids = self.files();
        let mut buf: Vec<u8> = Vec::new();
        let pos = self.write_partition_exec(&file_ids, &mut buf)?;
        let dir_hash_table_ofs = pos;
        let mut table: Vec<u8> = Vec::new();
        dirs.write_to(&mut table);
        assert(table@ =~= buckets_bytes(dirs@));
        let pos = put_at(&mut buf, pos as u64, table.as_slice())?;
        let dir_table_ofs = pos;
        let ghost c2 = (buf@, pos as int);
        let pos = self.write_dir_entries_exec(&folder_ids, dir_table_ofs, &mut buf, pos)?;
        proof {
            lemma_dir_entries_pos(self.ents(), folder_ids@, dir_table_ofs as int, c2, folder_ids@.len());
        }
        let closing: [u8; 24] = [0u8; 24];
        assert(closing@ =~= closing_dir_entry());
        let pos = put_at(&mut buf, pos as u64, &closing)?;
        let file_hash_table_ofs = pos;
        let mut table: Vec<u8> = Vec::new();
        ftab.write_to(&mut table);
        assert(table@ =~= buckets_bytes(ftab@));
        let pos = put_at(&mut buf, pos as u64, table.as_slice())?;
        let file_table_ofs = pos;
        let ghost c5 = (buf@, pos as int);
        let pos = self.write_file_entries_exec(&file_ids, file_table_ofs, &mut buf, pos)?;
        proof {
            lemma_file_entries_pos(self.ents(), file_ids@, file_table_ofs as int, c5, file_ids@.len());
        }
        let mut header = RomFsHeader::default();
        header.dir_hash_table_ofs = dir_hash_table_ofs as u64;
        header.dir_hash_table_size = dirs.bytes();
        header.dir_table_ofs = dir_table_ofs as u64;
        header.dir_table_size = (file_hash_table_ofs - dir_table_ofs) as u64;
        header.file_hash_table_ofs = file_hash_table_ofs as u64;
        header.file_hash_table_size = ftab.bytes();
        header.file_table_ofs = file_table_ofs as u64;
        header.file_table_size = (pos - file_table_ofs) as u64;
        let mut header_bytes: Vec<u8> = Vec::new();
        header.write_to(&mut header_bytes);
        assert(header_bytes@ =~= header.spec_bytes());
        write_bytes_at(&mut buf, 0, header_bytes.as_slice());
        Ok(buf)
    }
}

/// `[menu]` and the line that starts the long name.
pub open spec fn ini_menu() -> Seq<u8> {
    seq![91u8, 109u8, 101u8, 110u8, 117u8, 93u8, 10u8, 108u8, 111u8, 110u8, 103u8, 110u8, 97u8, 109u8, 101u8, 61u8]
}

/// The line break and the start of the short name line.
pub open spec fn ini_short_name() -> Seq<u8> {
    seq![10u8, 115u8, 104u8, 111u8, 114u8, 116u8, 110u8, 97u8, 109u8, 101u8, 61u8]
}

/// The line break and the start of the author line.
pub open spec fn ini_author() -> Seq<u8> {
    seq![10u8, 97u8, 117u8, 116u8, 104u8, 111u8, 114u8, 61u8]
}

/// The `meta.ini` of a bundle: a `[menu]` section with the long name, the
/// short name and the author.
pub open spec fn meta_ini_bytes(long_name: Seq<char>, short_name: Seq<char>, author: Seq<char>) -> Seq<u8> {
    ini_menu() + encode_utf8(long_name) + ini_short_name() + encode_utf8(short_name) + ini_author()
        + encode_utf8(author) + seq![10u8]
}

/// The `meta.ini` of a bundle.
pub fn meta_ini(long_name: &str, short_name: &str, author: &str) -> (r: Vec<u8>)
    ensures
        r@ == meta_ini_bytes(long_name@, short_name@, author@),
{
    let menu: [u8; 16] = [91u8, 109u8, 101u8, 110u8, 117u8, 93u8, 10u8, 108u8, 111u8, 110u8, 103u8, 110u8, 97u8, 109u8, 101u8, 61u8];
    let short: [u8; 11] = [10u8, 115u8, 104u8, 111u8, 114u8, 116u8, 110u8, 97u8, 109u8, 101u8, 61u8];
    let auth: [u8; 8] = [10u8, 97u8, 117u8, 116u8, 104u8, 111u8, 114u8, 61u8];
    let end: [u8; 1] = [10u8];
    assert(menu@ =~= ini_menu());
    assert(short@ =~= ini_short_name());
    assert(auth@ =~= ini_author());
    assert(end@ =~= seq![10u8]);
    let mut out: Vec<u8> = Vec::new();
    push_bytes(&mut out, &menu);
    push_str_bytes(&mut out, long_name);
    push_bytes(&mut out, &short);
    push_str_bytes(&mut out, short_name);
    push_bytes(&mut out, &auth);
    push_str_bytes(&mut out, author);
    push_bytes(&mut out, &end);
    assert(out@ =~= meta_ini_bytes(long_name@, short_name@, author@));
    out
}

/// The folder tree of a bundle: the root with the folders `code` and
/// `meta`, `code` holding `root.rpx` and `meta` holding `meta.ini`.
pub open spec fn bundle_tree() -> Seq<(usize, Option<usize>)> {
    seq![(0usize, None::<usize>), (1usize, Some(0usize)), (2usize, Some(0usize)), (3usize, Some(1usize)), (4usize, Some(2usize))]
}

/// The entries of a bundle before layout.
pub open spec fn bundle_entries(rpx: Seq<u8>, ini: Seq<u8>) -> Seq<EntryView> {
    seq![
        EntryView::Folder(FolderView { name: Seq::empty(), meta: empty_dir_entry(), offset: 0 }),
        EntryView::Folder(FolderView { name: "code"@, meta: empty_dir_entry(), offset: 0 }),
        EntryView::Folder(FolderView { name: "meta"@, meta: empty_dir_entry(), offset: 0 }),
        EntryView::File(FileView { name: "root.rpx"@, content: rpx, meta: empty_file_entry(), offset: 0 }),
        EntryView::File(FileView { name: "meta.ini"@, content: ini, meta: empty_file_entry(), offset: 0 }),
    ]
}

/// The image of the tree `t` over the entries `ents`, after the folder
/// layout, the file layout and the hash tables.
#[verifier::opaque]
pub open spec fn laid_out_image(t: Seq<(usize, Option<usize>)>, ents: Seq<EntryView>) -> Result<Seq<u8>, WuhbError> {
    match spec_folder_metadata(t, ents) {
        Err(e) => Err(e),
        Ok(e1) => match spec_file_metadata(t, 0, e1) {
            Err(e) => Err(e),
            Ok(e2) => match spec_hash_tables(t, e2) {
                Err(e) => Err(e),
                Ok(h) => spec_image(h.0, folders_in(h.0, tree_order(t)), files_in(h.0, tree_order(t)), h.1, h.2),
            },
        },
    }
}

/// The WUHB bundle of the module `rpx` with the given names and author: the
/// laid-out image of the bundle's tree.
pub open spec fn spec_from_rpx(rpx: Seq<u8>, long_name: Seq<char>, short_name: Seq<char>, author: Seq<char>) -> Result<Seq<u8>, WuhbError> {
    laid_out_image(bundle_tree(), bundle_entries(rpx, meta_ini_bytes(long_name, short_name, author)))
}

pub(crate) proof fn lemma_files_in_same_kinds(a: Seq<EntryView>, b: Seq<EntryView>, order: Seq<usize>)
    requires
        same_kinds(a, b),
        forall|i: int| 0 <= i < order.len() ==> #[trigger] order[i] < a.len(),
    ensures
        files_in(a, order) == files_in(b, order),
        folders_in(a, order) == folders_in(b, order),
    decreases order.len(),
{
    if order.len() > 0 {
        assert forall|i: int| 0 <= i < order.drop_last().len() implies #[trigger] order.drop_last()[i] < a.len() by {
            assert(order.drop_last()[i] == order[i]);
        }
        lemma_files_in_same_kinds(a, b, order.drop_last());
        assert(order.last() == order[order.len() - 1]);
    }
}

/// The file layout places every file it lays out at a 16-byte boundary of
/// the partition, with its size, and keeps the kinds of the entries.
pub(crate) proof fn lemma_file_meta_places(t: Seq<(usize, Option<usize>)>, root: int, ents: Seq<EntryView>, order: Seq<usize>, k: nat)
    requires
        k <= order.len(),
        0 <= root < ents.len(),
        ents[root] is Folder,
        t.len() == ents.len(),
        forall|j: int| 0 <= j < order.len() ==> #[trigger] order[j] < ents.len() && ents[order[j] as int] is File,
        forall|j: int| 0 <= j < t.len() ==> (#[trigger] t[j].1 matches Some(p) ==> p < ents.len() && ents[p as int] is Folder),
    ensures
        file_meta_fold(t, root, ents, order, k) matches Ok(st) ==> {
            &&& same_kinds(st.0, ents)
            &&& st.2 % 16 == 0
            &&& files_placed(st.0, order.take(k as int))
        },
    decreases k,
{
    if k > 0 {
        lemma_file_meta_places(t, root, ents, order, (k - 1) as nat);
        if let Ok(st) = file_meta_fold(t, root, ents, order, (k - 1) as nat) {
            let f = order[k - 1] as int;
            let prev = last_file_in(t, root, order, (k - 1) as nat, file_parent(t, root, f));
            assert(ents[f] is File);
            assert(st.0[f] is File);
            let p = file_parent(t, root, f);
            assert(ents[p] is Folder);
            assert(st.0[p] is Folder);
            lemma_file_meta_step_shape(t, root, st.0, st.1, st.2, f, prev);
            if let Ok(st2) = file_meta_step(t, root, st.0, st.1, st.2, f, prev) {
                let fi = st.0[f]->File_0;
                let a = st.2 + fi.content.len();
                assert(align_up(a, 16) % 16 == 0) by {
                    if a % 16 != 0 {
                        assert((a + (16 - a % 16)) % 16 == 0);
                    }
                }
                assert forall|j: int| 0 <= j < order.take(k as int).len() implies (#[trigger] st2.0[order.take(k as int)[j] as int])->File_0.meta.offset % 16 == 0
                    && st2.0[order.take(k as int)[j] as int]->File_0.meta.size == st2.0[order.take(k as int)[j] as int]->File_0.content.len() as u64 by {
                    let g = order.take(k as int)[j] as int;
                    if g != f {
                        assert(j < k - 1);
                        assert(order.take(k - 1)[j] == order.take(k as int)[j]);
                        assert(st.0[order.take(k - 1)[j] as int]->File_0.meta.offset % 16 == 0);
                        assert(ents[g] is File);
                        assert(st.0[g] is File);
                        assert(file_kept(st2.0[g], st.0[g]));
                    }
                }
            }
        }
    }
}

pub(crate) proof fn lemma_hash_folders_keep(ents: Seq<EntryView>, table: Seq<u32>, order: Seq<usize>, files: Seq<usize>, k: nat)
    requires
        k <= order.len(),
        forall|j: int| 0 <= j < order.len() ==> #[trigger] order[j] < ents.len() && ents[order[j] as int] is Folder,
        forall|j: int| 0 <= j < files.len() ==> #[trigger] files[j] < ents.len() && ents[files[j] as int] is File,
        files_placed(ents, files),
    ensures
        same_kinds(hash_folders_fold(ents, table, order, k).0, ents),
        files_placed(hash_folders_fold(ents, table, order, k).0, files),
        forall|j: int| 0 <= j < files.len() ==> hash_folders_fold(ents, table, order, k).0[files[j] as int] == #[trigger] ents[files[j] as int],
    decreases k,
{
    if k > 0 {
        lemma_hash_folders_keep(ents, table, order, files, (k - 1) as nat);
        let st = hash_folders_fold(ents, table, order, (k - 1) as nat);
        let f = order[k - 1] as int;
        assert(st.0[f] is Folder);
        assert forall|j: int| 0 <= j < files.len() implies hash_folders_fold(ents, table, order, k).0[files[j] as int] == #[trigger] ents[files[j] as int] by {
            assert(files[j] as int != f);
        }
    }
}

pub(crate) proof fn lemma_hash_files_keep(ents: Seq<EntryView>, table: Seq<u32>, order: Seq<usize>, k: nat)
    requires
        k <= order.len(),
        forall|j: int| 0 <= j < order.len() ==> #[trigger] order[j] < ents.len() && ents[order[j] as int] is File,
        files_placed(ents, order),
    ensures
        same_kinds(hash_files_fold(ents, table, order, k).0, ents),
        files_placed(hash_files_fold(ents, table, order, k).0, order),
    decreases k,
{
    if k > 0 {
        lemma_hash_files_keep(ents, table, order, (k - 1) as nat);
        let st = hash_files_fold(ents, table, order, (k - 1) as nat);
        let f = order[k - 1] as int;
        assert(st.0[f] is File);
        let e2 = hash_files_fold(ents, table, order, k).0;
        assert forall|j: int| 0 <= j < order.len() implies (#[trigger] e2[order[j] as int])->File_0.meta.offset % 16 == 0
            && e2[order[j] as int]->File_0.meta.size == e2[order[j] as int]->File_0.content.len() as u64 by {
            assert(st.0[order[j] as int]->File_0.meta.offset % 16 == 0);
        }
    }
}

/// In the bundle's tree the sibling before each folder is a folder.
pub(crate) proof fn lemma_bundle_siblings(ents: Seq<EntryView>)
    requires
        ents.len() == 5,
        ents[0] is Folder,
        ents[1] is Folder,
        ents[2] is Folder,
        ents[3] is File,
        ents[4] is File,
    ensures
        folder_siblings_are_folders(bundle_tree(), ents),
{
    let t = bundle_tree();
    assert forall|k: int| 0 <= k < ents.len() && #[trigger] ents[k] is Folder implies match previous_sibling(t, k) {
        Some(s) => 0 <= s < ents.len() && ents[s] is Folder,
        None => true,
    } by {
        if k == 1 {
            assert(!is_child_of(t, 0, 0));
        } else if k == 2 {
            assert(!is_child_of(t, 0, 0));
            assert(is_child_of(t, 1, 0));
        }
    }
}

/// After the file layout and the hash tables, every file of the image sits
/// at a 16-byte boundary of the partition with its size recorded.
pub(crate) proof fn lemma_layout_places_files(t: Seq<(usize, Option<usize>)>, e1: Seq<EntryView>, e2: Seq<EntryView>, e3: Seq<EntryView>)
    requires
        t.len() == e1.len(),
        1 <= e1.len(),
        e1[0] is Folder,
        t[0].1 is None,
        parents_first(t),
        forall|k: int| 0 < k < t.len() ==> (#[trigger] t[k].1 matches Some(p) && e1[p as int] is Folder),
        forall|i: int| 0 <= i < tree_order(t).len() ==> #[trigger] tree_order(t)[i] < e1.len(),
        spec_file_metadata(t, 0, e1) == Ok::<Seq<EntryView>, WuhbError>(e2),
        spec_hash_tables(t, e2) matches Ok(st) && st.0 == e3,
    ensures
        files_placed(e3, files_in(e3, tree_order(t))),
{
    let order = tree_order(t);
    let files = files_in(e1, order);
    lemma_files_in(e1, order);
    assert forall|j: int| 0 <= j < files.len() implies #[trigger] files[j] < e1.len() && e1[files[j] as int] is File by {
        let i = choose|i: int| 0 <= i < order.len() && order[i] == files[j];
        assert(order[i] < e1.len());
    }
    assert forall|j: int| 0 <= j < t.len() implies (#[trigger] t[j].1 matches Some(p) ==> p < e1.len() && e1[p as int] is Folder) by {
        if j > 0 {
            assert(t[j].1 matches Some(p) && p < j && e1[p as int] is Folder);
        }
    }
    lemma_file_meta_places(t, 0, e1, files, files.len());
    assert(files.take(files.len() as int) =~= files);
    let st = file_meta_fold(t, 0, e1, files, files.len())->Ok_0;
    assert(st.0 == e2);
    lemma_files_in_same_kinds(e2, e1, order);
    let folders = folders_in(e2, order);
    lemma_folders_in(e2, order);
    assert forall|j: int| 0 <= j < folders.len() implies #[trigger] folders[j] < e2.len() && e2[folders[j] as int] is Folder by {
        let i = choose|i: int| 0 <= i < order.len() && order[i] == folders[j];
        assert(order[i] < e1.len());
    }
    assert forall|j: int| 0 <= j < files.len() implies #[trigger] files[j] < e2.len() && e2[files[j] as int] is File by {
        assert(e1[files[j] as int] is File);
    }
    let d = hash_folders_fold(e2, empty_table(table_size(folders.len() + 1)), folders, folders.len());
    lemma_hash_folders_keep(e2, empty_table(table_size(folders.len() + 1)), folders, files, folders.len());
    assert forall|j: int| 0 <= j < files.len() implies #[trigger] files[j] < d.0.len() && d.0[files[j] as int] is File by {
        assert(e2[files[j] as int] is File);
    }
    lemma_hash_files_keep(d.0, empty_table(table_size(files.len())), files, files.len());
    let f = hash_files_fold(d.0, empty_table(table_size(files.len())), files, files.len());
    assert(f.0 == e3);
    assert(same_kinds(e3, e1));
    lemma_files_in_same_kinds(e3, e1, order);
}

/// Lays out the image held by `fs` and writes it.
#[verifier::rlimit(80)]
fn write_laid_out(fs: RomFs) -> (r: Result<Vec<u8>, WuhbError>)
    requires
        fs.wf(),
        folder_siblings_are_folders(fs.nodes(), fs.ents()),
    ensures
        match laid_out_image(fs.nodes(), fs.ents()) {
            Ok(v) => r is Ok && r->Ok_0@ == v,
            Err(e) => r == Err::<Vec<u8>, WuhbError>(e),
        },
{
    let mut fs = fs;
    let ghost t = fs.nodes();
    let ghost e0 = fs.ents();
    proof {
        reveal(laid_out_image);
    }
    match fs.calculate_folder_metadata() {
        Ok(()) => {},
        Err(e) => {
            return Err(e);
        },
    }
    let ghost e1 = fs.ents();
    proof {
        lemma_order_in_range(&fs);
        assert(fs.order() == tree_order(t));
    }
    match fs.calculate_file_metadata() {
        Ok(()) => {},
        Err(e) => {
            return Err(e);
        },
    }
    let ghost e2 = fs.ents();
    let (dirs, ftab) = match fs.calculate_hash_tables() {
        Ok(h) => h,
        Err(e) => {
            return Err(e);
        },
    };
    proof {
        lemma_layout_places_files(t, e1, e2, fs.ents());
    }
    fs.write_image(&dirs, &ftab)
}

/// The WUHB bundle of the module `rpx`, named after `config`, with `author`
/// in its `meta.ini`.
pub fn from_rpx(rpx: Vec<u8>, config: WuhbConfig, author: &str) -> (r: Result<Vec<u8>, WuhbError>)
    ensures
        match spec_from_rpx(rpx@, config.long_name@, config.short_name@, author@) {
            Ok(v) => r is Ok && r->Ok_0@ == v,
            Err(e) => r == Err::<Vec<u8>, WuhbError>(e),
        },
{
    let ghost rpx_v = rpx@;
    let mut fs = RomFs::new();
    let code = fs.add_folder(0, "code");
    let meta = fs.add_folder(0, "meta");
    fs.add_file(code, "root.rpx", rpx);
    let ini = meta_ini(config.long_name.as_str(), config.short_name.as_str(), author);
    let ghost ini_v = ini@;
    fs.add_file(meta, "meta.ini", ini);
    assert(fs.nodes() =~= bundle_tree());
    assert(fs.ents() =~= bundle_entries(rpx_v, ini_v));
    proof {
        lemma_bundle_siblings(fs.ents());
    }
    write_laid_out(fs)
}

} // verus!
