//! The folders and files of a file system image and their table entries.
use vstd::prelude::*;
use vstd::utf8::encode_utf8;
use super::tree::{
    data_at, is_child_of, parents_first, preorder, preorder_children, previous_sibling, tree_nodes, Tree,
};
use super::{
    bucket_count, buckets_fit, name_hash, table_size, HashTable, RomFsDirEntry, RomFsFileEntry,
    WuhbError, NONE,
};

verus! {

/// A directory entry as a mathematical value.
pub struct DirEntryView {
    pub parent: u32,
    pub sibling: u32,
    pub child: u32,
    pub file: u32,
    pub hash: u32,
    pub name_size: u32,
    pub name: Seq<char>,
}

/// A file entry as a mathematical value.
pub struct FileEntryView {
    pub parent: u32,
    pub sibling: u32,
    pub offset: u64,
    pub size: u64,
    pub hash: u32,
    pub name_size: u32,
    pub name: Seq<char>,
}

impl View for RomFsDirEntry {
    type V = DirEntryView;

    open spec fn view(&self) -> DirEntryView {
        DirEntryView {
            parent: self.parent,
            sibling: self.sibling,
            child: self.child,
            file: self.file,
            hash: self.hash,
            name_size: self.name_size,
            name: self.name@,
        }
    }
}

impl View for RomFsFileEntry {
    type V = FileEntryView;

    open spec fn view(&self) -> FileEntryView {
        FileEntryView {
            parent: self.parent,
            sibling: self.sibling,
            offset: self.offset,
            size: self.size,
            hash: self.hash,
            name_size: self.name_size,
            name: self.name@,
        }
    }
}

/// A folder of the image.
#[derive(Debug)]
pub struct Folder {
    pub name: String,
    pub meta: RomFsDirEntry,
    /// Offset of the folder's entry in the directory table.
    pub offset: u32,
}

/// A file of the image.
#[derive(Debug)]
pub struct File {
    pub name: String,
    pub content: Vec<u8>,
    pub meta: RomFsFileEntry,
    /// Offset of the file's entry in the file table.
    pub offset: u32,
}

#[derive(Debug)]
pub enum Entry {
    Folder(Folder),
    File(File),
}

pub struct FolderView {
    pub name: Seq<char>,
    pub meta: DirEntryView,
    pub offset: u32,
}

pub struct FileView {
    pub name: Seq<char>,
    pub content: Seq<u8>,
    pub meta: FileEntryView,
    pub offset: u32,
}

pub enum EntryView {
    Folder(FolderView),
    File(FileView),
}

impl View for Folder {
    type V = FolderView;

    open spec fn view(&self) -> FolderView {
        FolderView { name: self.name@, meta: self.meta@, offset: self.offset }
    }
}

impl View for File {
    type V = FileView;

    open spec fn view(&self) -> FileView {
        FileView { name: self.name@, content: self.content@, meta: self.meta@, offset: self.offset }
    }
}

impl View for Entry {
    type V = EntryView;

    open spec fn view(&self) -> EntryView {
        match self {
            Entry::Folder(f) => EntryView::Folder(f@),
            Entry::File(f) => EntryView::File(f@),
        }
    }
}

pub open spec fn entry_views(entries: Seq<Entry>) -> Seq<EntryView> {
    entries.map_values(|e: Entry| e@)
}

/// The folders and files of an image, in a tree whose node data are the
/// positions of the entries.
pub struct RomFs {
    pub tree: Tree,
    pub entries: Vec<Entry>,
    pub root: usize,
}

/// An empty directory entry.
pub open spec fn empty_dir_entry() -> DirEntryView {
    DirEntryView {
        parent: NONE,
        sibling: NONE,
        child: NONE,
        file: NONE,
        hash: NONE,
        name_size: 0,
        name: Seq::empty(),
    }
}

/// An empty file entry.
pub open spec fn empty_file_entry() -> FileEntryView {
    FileEntryView {
        parent: NONE,
        sibling: NONE,
        offset: 0,
        size: 0,
        hash: NONE,
        name_size: 0,
        name: Seq::empty(),
    }
}

/// The data of the nodes in depth-first pre-order from the root.
pub open spec fn tree_order(t: Seq<(usize, Option<usize>)>) -> Seq<usize> {
    data_at(t, preorder(t, 0))
}

/// The positions among `order` that hold folders, in order.
pub open spec fn folders_in(ents: Seq<EntryView>, order: Seq<usize>) -> Seq<usize>
    decreases order.len(),
{
    if order.len() == 0 {
        Seq::empty()
    } else {
        let p = folders_in(ents, order.drop_last());
        if ents[order.last() as int] is Folder {
            p.push(order.last())
        } else {
            p
        }
    }
}

/// The positions among `order` that hold files, in order.
pub open spec fn files_in(ents: Seq<EntryView>, order: Seq<usize>) -> Seq<usize>
    decreases order.len(),
{
    if order.len() == 0 {
        Seq::empty()
    } else {
        let p = files_in(ents, order.drop_last());
        if ents[order.last() as int] is File {
            p.push(order.last())
        } else {
            p
        }
    }
}

/// `v` rounded up to a multiple of `m`.
pub open spec fn align_up(v: int, m: int) -> int {
    if v % m == 0 {
        v
    } else {
        v + (m - v % m)
    }
}

impl RomFs {
    pub open spec fn nodes(&self) -> Seq<(usize, Option<usize>)> {
        tree_nodes(self.tree)
    }

    pub open spec fn ents(&self) -> Seq<EntryView> {
        entry_views(self.entries@)
    }

    /// The tree and the entries agree: node `k` holds position `k`, the root
    /// is a folder at position zero, and every other node hangs below a
    /// folder created before it.
    pub open spec fn wf(&self) -> bool {
        let t = self.nodes();
        let e = self.ents();
        &&& t.len() == e.len()
        &&& 1 <= t.len()
        &&& t.len() < usize::MAX
        &&& self.root == 0
        &&& parents_first(t)
        &&& t[0].1 is None
        &&& e[0] is Folder
        &&& forall|k: int| 0 <= k < t.len() ==> #[trigger] t[k].0 == k
        &&& forall|k: int|
            0 < k < t.len() ==> (#[trigger] t[k].1 matches Some(p) && e[p as int] is Folder)
    }

    /// The positions of all entries in depth-first pre-order from the root.
    pub open spec fn order(&self) -> Seq<usize> {
        tree_order(self.nodes())
    }

    /// An image holding only the root folder.
    pub fn new() -> (r: RomFs)
        ensures
            r.wf(),
            r.ents() == seq![EntryView::Folder(FolderView { name: Seq::empty(), meta: empty_dir_entry(), offset: 0 })],
            r.nodes() == seq![(0usize, None::<usize>)],
    {
        let tree = Tree::new(0);
        let mut entries: Vec<Entry> = Vec::new();
        entries.push(
            Entry::Folder(Folder { name: String::new(), meta: RomFsDirEntry::default(), offset: 0 }),
        );
        let r = RomFs { tree, entries, root: 0 };
        assert(r.ents() =~= seq![EntryView::Folder(FolderView { name: Seq::empty(), meta: empty_dir_entry(), offset: 0 })]);
        r
    }

    /// Adds a folder named `name` as the last child of the folder at `folder`.
    pub fn add_folder(&mut self, folder: usize, name: &str) -> (pos: usize)
        requires
            old(self).wf(),
            folder < old(self).ents().len(),
            old(self).ents()[folder as int] is Folder,
            old(self).ents().len() + 1 < usize::MAX,
        ensures
            final(self).wf(),
            pos == old(self).ents().len(),
            final(self).nodes() == old(self).nodes().push((pos, Some(folder))),
            final(self).ents() == old(self).ents().push(
                EntryView::Folder(FolderView { name: name@, meta: empty_dir_entry(), offset: 0 }),
            ),
    {
        let pos = self.entries.len();
        let p = self.tree.append(folder, pos);
        let ghost prev = self.entries@;
        self.entries.push(
            Entry::Folder(Folder { name: name.to_owned(), meta: RomFsDirEntry::default(), offset: 0 }),
        );
        assert(self.ents() =~= entry_views(prev).push(self.entries@.last()@));
        pos
    }

    /// Adds a file named `name` holding `content` as the last child of the
    /// folder at `folder`.
    pub fn add_file(&mut self, folder: usize, name: &str, content: Vec<u8>) -> (pos: usize)
        requires
            old(self).wf(),
            folder < old(self).ents().len(),
            old(self).ents()[folder as int] is Folder,
            old(self).ents().len() + 1 < usize::MAX,
        ensures
            final(self).wf(),
            pos == old(self).ents().len(),
            final(self).nodes() == old(self).nodes().push((pos, Some(folder))),
            final(self).ents() == old(self).ents().push(
                EntryView::File(FileView { name: name@, content: content@, meta: empty_file_entry(), offset: 0 }),
            ),
    {
        let pos = self.entries.len();
        let p = self.tree.append(folder, pos);
        let ghost prev = self.entries@;
        let ghost c = content@;
        self.entries.push(
            Entry::File(File { name: name.to_owned(), content, meta: RomFsFileEntry::default(), offset: 0 }),
        );
        assert(self.ents() =~= entry_views(prev).push(self.entries@.last()@));
        pos
    }
}

proof fn lemma_preorder_in_range(t: Seq<(usize, Option<usize>)>, r: int)
    requires
        0 <= r < t.len(),
    ensures
        forall|i: int|
            0 <= i < preorder(t, r).len() ==> r <= #[trigger] preorder(t, r)[i] < t.len(),
    decreases t.len() - r, 0int,
{
    let c = if r + 1 <= t.len() {
        preorder_children(t, r, r + 1)
    } else {
        Seq::empty()
    };
    lemma_children_in_range(t, r, r + 1);
    assert(preorder(t, r) == seq![r] + c);
    assert forall|i: int| 0 <= i < preorder(t, r).len() implies r <= #[trigger] preorder(t, r)[i]
        < t.len() by {
        if i > 0 {
            assert(preorder(t, r)[i] == c[i - 1]);
        }
    }
}

proof fn lemma_children_in_range(t: Seq<(usize, Option<usize>)>, r: int, k: int)
    requires
        0 <= k,
    ensures
        forall|i: int|
            0 <= i < preorder_children(t, r, k).len() ==> k <= #[trigger] preorder_children(
                t,
                r,
                k,
            )[i] < t.len(),
    decreases t.len() - k, 1int,
{
    if 0 <= k < t.len() {
        lemma_children_in_range(t, r, k + 1);
        let a = if is_child_of(t, k, r) {
            preorder(t, k)
        } else {
            Seq::empty()
        };
        if is_child_of(t, k, r) {
            lemma_preorder_in_range(t, k);
        }
        let b = preorder_children(t, r, k + 1);
        assert(preorder_children(t, r, k) == a + b);
        assert forall|i: int| 0 <= i < preorder_children(t, r, k).len() implies k
            <= #[trigger] preorder_children(t, r, k)[i] < t.len() by {
            if i < a.len() {
                assert(preorder_children(t, r, k)[i] == a[i]);
            } else {
                assert(preorder_children(t, r, k)[i] == b[i - a.len()]);
            }
        }
    }
}

/// The positions in the pre-order are positions of entries.
pub(crate) proof fn lemma_order_in_range(fs: &RomFs)
    requires
        fs.wf(),
    ensures
        forall|i: int| 0 <= i < fs.order().len() ==> #[trigger] fs.order()[i] < fs.ents().len(),
{
    lemma_preorder_in_range(fs.nodes(), 0);
    assert forall|i: int| 0 <= i < fs.order().len() implies #[trigger] fs.order()[i]
        < fs.ents().len() by {
        let k = preorder(fs.nodes(), 0)[i];
        assert(fs.nodes()[k].0 == k);
    }
}

pub(crate) proof fn lemma_folders_in(ents: Seq<EntryView>, order: Seq<usize>)
    ensures
        forall|i: int|
            0 <= i < folders_in(ents, order).len() ==> order.contains(
                #[trigger] folders_in(ents, order)[i],
            ) && ents[folders_in(ents, order)[i] as int] is Folder,
    decreases order.len(),
{
    if order.len() > 0 {
        lemma_folders_in(ents, order.drop_last());
        let p = folders_in(ents, order.drop_last());
        assert forall|i: int| 0 <= i < folders_in(ents, order).len() implies order.contains(
            #[trigger] folders_in(ents, order)[i],
        ) && ents[folders_in(ents, order)[i] as int] is Folder by {
            if i < p.len() {
                let j = choose|j: int| 0 <= j < order.drop_last().len() && order.drop_last()[j] == p[i];
                assert(order[j] == p[i]);
            } else {
                assert(order[order.len() - 1] == order.last());
            }
        }
    }
}

pub(crate) proof fn lemma_files_in(ents: Seq<EntryView>, order: Seq<usize>)
    ensures
        forall|i: int|
            0 <= i < files_in(ents, order).len() ==> order.contains(
                #[trigger] files_in(ents, order)[i],
            ) && ents[files_in(ents, order)[i] as int] is File,
    decreases order.len(),
{
    if order.len() > 0 {
        lemma_files_in(ents, order.drop_last());
        let p = files_in(ents, order.drop_last());
        assert forall|i: int| 0 <= i < files_in(ents, order).len() implies order.contains(
            #[trigger] files_in(ents, order)[i],
        ) && ents[files_in(ents, order)[i] as int] is File by {
            if i < p.len() {
                let j = choose|j: int| 0 <= j < order.drop_last().len() && order.drop_last()[j] == p[i];
                assert(order[j] == p[i]);
            } else {
                assert(order[order.len() - 1] == order.last());
            }
        }
    }
}

impl RomFs {
    /// The positions of the folders, in depth-first pre-order from the root.
    pub fn folders(&self) -> (r: Vec<usize>)
        requires
            self.wf(),
        ensures
            r@ == folders_in(self.ents(), self.order()),
            forall|i: int| 0 <= i < r@.len() ==> #[trigger] r@[i] < self.ents().len() && self.ents()[r@[i] as int] is Folder,
    {
        let order = self.tree.descendant_values(self.root);
        proof {
            lemma_order_in_range(self);
        }
        let mut out: Vec<usize> = Vec::new();
        let mut k: usize = 0;
        assert(order@.take(0) =~= Seq::<usize>::empty());
        while k < order.len()
            invariant
                self.wf(),
                k <= order@.len(),
                order@ == self.order(),
                forall|i: int| 0 <= i < self.order().len() ==> #[trigger] self.order()[i] < self.ents().len(),
                out@ == folders_in(self.ents(), order@.take(k as int)),
            decreases order@.len() - k,
        {
            assert(order@.take(k + 1).drop_last() =~= order@.take(k as int));
            let pos = order[k];
            assert(self.ents()[pos as int] == self.entries@[pos as int]@);
            match &self.entries[pos] {
                Entry::Folder(_) => {
                    out.push(pos);
                },
                Entry::File(_) => {},
            }
            k = k + 1;
        }
        assert(order@.take(k as int) =~= order@);
        proof {
            lemma_folders_in(self.ents(), self.order());
        }
        out
    }

    /// The positions of the files, in depth-first pre-order from the root.
    pub fn files(&self) -> (r: Vec<usize>)
        requires
            self.wf(),
        ensures
            r@ == files_in(self.ents(), self.order()),
            forall|i: int| 0 <= i < r@.len() ==> #[trigger] r@[i] < self.ents().len() && self.ents()[r@[i] as int] is File,
    {
        let order = self.tree.descendant_values(self.root);
        proof {
            lemma_order_in_range(self);
        }
        let mut out: Vec<usize> = Vec::new();
        let mut k: usize = 0;
        assert(order@.take(0) =~= Seq::<usize>::empty());
        while k < order.len()
            invariant
                self.wf(),
                k <= order@.len(),
                order@ == self.order(),
                forall|i: int| 0 <= i < self.order().len() ==> #[trigger] self.order()[i] < self.ents().len(),
                out@ == files_in(self.ents(), order@.take(k as int)),
            decreases order@.len() - k,
        {
            assert(order@.take(k + 1).drop_last() =~= order@.take(k as int));
            let pos = order[k];
            assert(self.ents()[pos as int] == self.entries@[pos as int]@);
            match &self.entries[pos] {
                Entry::File(_) => {
                    out.push(pos);
                },
                Entry::Folder(_) => {},
            }
            k = k + 1;
        }
        assert(order@.take(k as int) =~= order@);
        proof {
            lemma_files_in(self.ents(), self.order());
        }
        out
    }
}

/// The smaller of `a` and `b`.
pub open spec fn min_u32(a: u32, b: u32) -> u32 {
    if a <= b {
        a
    } else {
        b
    }
}

/// Whether the sibling before each folder is a folder.
pub open spec fn folder_siblings_are_folders(t: Seq<(usize, Option<usize>)>, ents: Seq<EntryView>) -> bool {
    forall|k: int|
        0 <= k < ents.len() && #[trigger] ents[k] is Folder ==> match previous_sibling(t, k) {
            Some(s) => 0 <= s < ents.len() && ents[s] is Folder,
            None => true,
        }
}

/// Whether `a` and `b` have the same kinds of entries at the same positions.
pub open spec fn same_kinds(a: Seq<EntryView>, b: Seq<EntryView>) -> bool {
    a.len() == b.len() && forall|k: int|
        0 <= k < a.len() ==> (#[trigger] a[k] is Folder <==> b[k] is Folder)
}

/// One step of the folder layout, for the folder at `f`: its parent's first
/// child becomes the smaller of what it was and `seek`; its previous sibling
/// points to it; it takes its place at `seek` in the directory table, with
/// its parent's offset and its name; and `seek` moves past it, aligned to 4
/// bytes.
pub open spec fn folder_meta_step(t: Seq<(usize, Option<usize>)>, ents: Seq<EntryView>, seek: u32, f: int) -> Result<(Seq<EntryView>, u32), WuhbError> {
    let e1 = match t[f].1 {
        Some(p) => {
            let pf = ents[p as int]->Folder_0;
            ents.update(
                p as int,
                EntryView::Folder(
                    FolderView {
                        meta: DirEntryView { child: min_u32(pf.meta.child, seek), ..pf.meta },
                        ..pf
                    },
                ),
            )
        },
        None => ents,
    };
    let parent_offset = match t[f].1 {
        Some(p) => e1[p as int]->Folder_0.offset,
        None => 0,
    };
    let e2 = match previous_sibling(t, f) {
        Some(s) => {
            let sf = e1[s]->Folder_0;
            e1.update(
                s,
                EntryView::Folder(FolderView { meta: DirEntryView { sibling: seek, ..sf.meta }, ..sf }),
            )
        },
        None => e1,
    };
    let fo = e2[f]->Folder_0;
    let name_size = (encode_utf8(fo.name).len() as usize) as u32;
    let placed = FolderView {
        offset: seek,
        meta: DirEntryView { parent: parent_offset, name_size, name: fo.name, ..fo.meta },
        ..fo
    };
    let size = ((0x18 + name_size) as u64) as u32;
    if seek + size > u32::MAX || align_up(seek + size, 4) > u32::MAX {
        Err(WuhbError::Overflow)
    } else {
        Ok((e2.update(f, EntryView::Folder(placed)), align_up(seek + size, 4) as u32))
    }
}

/// The folder layout after the first `k` folders of `order`.
pub open spec fn folder_meta_fold(t: Seq<(usize, Option<usize>)>, ents: Seq<EntryView>, order: Seq<usize>, k: nat) -> Result<(Seq<EntryView>, u32), WuhbError>
    decreases k,
{
    if k == 0 {
        Ok((ents, 0u32))
    } else {
        match folder_meta_fold(t, ents, order, (k - 1) as nat) {
            Err(e) => Err(e),
            Ok(st) => folder_meta_step(t, st.0, st.1, order[k - 1] as int),
        }
    }
}

/// The entries after the folder layout.
pub open spec fn spec_folder_metadata(t: Seq<(usize, Option<usize>)>, ents: Seq<EntryView>) -> Result<Seq<EntryView>, WuhbError> {
    let order = folders_in(ents, tree_order(t));
    match folder_meta_fold(t, ents, order, order.len()) {
        Err(e) => Err(e),
        Ok(st) => Ok(st.0),
    }
}

proof fn lemma_folder_meta_fold_err(t: Seq<(usize, Option<usize>)>, ents: Seq<EntryView>, order: Seq<usize>, m: nat, n: nat)
    requires
        m <= n,
        folder_meta_fold(t, ents, order, m) is Err,
    ensures
        folder_meta_fold(t, ents, order, n) == folder_meta_fold(t, ents, order, m),
    decreases n,
{
    if n > m {
        lemma_folder_meta_fold_err(t, ents, order, m, (n - 1) as nat);
    }
}

/// `v` rounded up to a multiple of `m`, where that fits in 32 bits.
pub fn align_up_u32(v: u32, m: u32) -> (r: Result<u32, WuhbError>)
    requires
        m > 0,
    ensures
        align_up(v as int, m as int) <= u32::MAX ==> r == Ok::<u32, WuhbError>(align_up(v as int, m as int) as u32),
        align_up(v as int, m as int) > u32::MAX ==> r == Err::<u32, WuhbError>(WuhbError::Overflow),
{
    let rem = v % m;
    if rem == 0 {
        Ok(v)
    } else if v > u32::MAX - (m - rem) {
        Err(WuhbError::Overflow)
    } else {
        Ok(v + (m - rem))
    }
}

/// `v` rounded up to a multiple of `m`, where that fits in 64 bits.
pub fn align_up_u64(v: u64, m: u64) -> (r: Result<u64, WuhbError>)
    requires
        m > 0,
    ensures
        align_up(v as int, m as int) <= u64::MAX ==> r == Ok::<u64, WuhbError>(align_up(v as int, m as int) as u64),
        align_up(v as int, m as int) > u64::MAX ==> r == Err::<u64, WuhbError>(WuhbError::Overflow),
{
    let rem = v % m;
    if rem == 0 {
        Ok(v)
    } else if v > u64::MAX - (m - rem) {
        Err(WuhbError::Overflow)
    } else {
        Ok(v + (m - rem))
    }
}

impl RomFs {
    fn lower_first_child(&mut self, p: usize, seek: u32) -> (offset: u32)
        requires
            p < old(self).entries@.len(),
            old(self).ents()[p as int] is Folder,
        ensures
            final(self).tree == old(self).tree,
            final(self).root == old(self).root,
            final(self).ents() == old(self).ents().update(
                p as int,
                EntryView::Folder(
                    FolderView {
                        meta: DirEntryView {
                            child: min_u32(old(self).ents()[p as int]->Folder_0.meta.child, seek),
                            ..old(self).ents()[p as int]->Folder_0.meta
                        },
                        ..old(self).ents()[p as int]->Folder_0
                    },
                ),
            ),
            offset == old(self).ents()[p as int]->Folder_0.offset,
    {
        let ghost prev = self.entries@;
        let mut offset: u32 = 0;
        match &mut self.entries[p] {
            Entry::Folder(f) => {
                if seek < f.meta.child {
                    f.meta.child = seek;
                }
                offset = f.offset;
            },
            Entry::File(_) => {},
        }
        assert(self.ents() =~= entry_views(prev).update(p as int, self.entries@[p as int]@));
        offset
    }

    fn point_sibling(&mut self, s: usize, seek: u32)
        requires
            s < old(self).entries@.len(),
            old(self).ents()[s as int] is Folder,
        ensures
            final(self).tree == old(self).tree,
            final(self).root == old(self).root,
            final(self).ents() == old(self).ents().update(
                s as int,
                EntryView::Folder(
                    FolderView {
                        meta: DirEntryView { sibling: seek, ..old(self).ents()[s as int]->Folder_0.meta },
                        ..old(self).ents()[s as int]->Folder_0
                    },
                ),
            ),
    {
        let ghost prev = self.entries@;
        match &mut self.entries[s] {
            Entry::Folder(f) => {
                f.meta.sibling = seek;
            },
            Entry::File(_) => {},
        }
        assert(self.ents() =~= entry_views(prev).update(s as int, self.entries@[s as int]@));
    }

    fn place_folder(&mut self, k: usize, seek: u32, parent: u32) -> (size: u32)
        requires
            k < old(self).entries@.len(),
            old(self).ents()[k as int] is Folder,
        ensures
            final(self).tree == old(self).tree,
            final(self).root == old(self).root,
            ({
                let fo = old(self).ents()[k as int]->Folder_0;
                let name_size = (encode_utf8(fo.name).len() as usize) as u32;
                &&& final(self).ents() == old(self).ents().update(
                    k as int,
                    EntryView::Folder(
                        FolderView {
                            offset: seek,
                            meta: DirEntryView { parent, name_size, name: fo.name, ..fo.meta },
                            ..fo
                        },
                    ),
                )
                &&& size == ((0x18 + name_size) as u64) as u32
            }),
    {
        let ghost prev = self.entries@;
        let mut size: u32 = 0;
        match &mut self.entries[k] {
            Entry::Folder(folder) => {
                folder.offset = seek;
                folder.meta.parent = parent;
                folder.meta.name_size = folder.name.as_str().len() as u32;
                folder.meta.name = folder.name.clone();
                size = folder.meta.bytes() as u32;
            },
            Entry::File(_) => {},
        }
        assert(self.ents() =~= entry_views(prev).update(k as int, self.entries@[k as int]@));
        size
    }

    fn layout_folder(&mut self, id: usize, seek: u32) -> (r: Result<u32, WuhbError>)
        requires
            old(self).wf(),
            id < old(self).ents().len(),
            old(self).ents()[id as int] is Folder,
            folder_siblings_are_folders(old(self).nodes(), old(self).ents()),
        ensures
            final(self).wf(),
            final(self).nodes() == old(self).nodes(),
            same_kinds(final(self).ents(), old(self).ents()),
            match folder_meta_step(old(self).nodes(), old(self).ents(), seek, id as int) {
                Ok(st) => r == Ok::<u32, WuhbError>(st.1) && final(self).ents() == st.0,
                Err(e) => r == Err::<u32, WuhbError>(e),
            },
    {
        let ghost t = self.nodes();
        let ghost ents0 = self.ents();
        let parent_id = self.tree.parent_value(id);
        let sibling_id = self.tree.previous_sibling_value(id);
        let parent = match parent_id {
            Some(p) => {
                assert(t[id as int].1 is Some);
                self.lower_first_child(p, seek)
            },
            None => 0,
        };
        let ghost e1 = self.ents();
        assert(same_kinds(e1, ents0));
        match sibling_id {
            Some(s) => {
                let ghost k = previous_sibling(t, id as int)->Some_0;
                assert(0 <= k < ents0.len() && ents0[k] is Folder);
                assert(t[k].0 == k);
                self.point_sibling(s, seek);
            },
            None => {},
        }
        let ghost e2 = self.ents();
        assert(same_kinds(e2, ents0));
        let size = self.place_folder(id, seek, parent);
        assert(same_kinds(self.ents(), ents0));
        let next = match seek.checked_add(size) {
            Some(v) => v,
            None => {
                return Err(WuhbError::Overflow);
            },
        };
        align_up_u32(next, 4)
    }

    /// Lays out the directory table: every folder, in depth-first pre-order,
    /// gets the next offset, aligned to 4 bytes, and records its parent, its
    /// first child folder and its next sibling folder.
    pub fn calculate_folder_metadata(&mut self) -> (r: Result<(), WuhbError>)
        requires
            old(self).wf(),
            folder_siblings_are_folders(old(self).nodes(), old(self).ents()),
        ensures
            final(self).wf(),
            final(self).nodes() == old(self).nodes(),
            same_kinds(final(self).ents(), old(self).ents()),
            match spec_folder_metadata(old(self).nodes(), old(self).ents()) {
                Ok(ents) => r is Ok && final(self).ents() == ents,
                Err(e) => r == Err::<(), WuhbError>(e),
            },
    {
        let folder_ids = self.folders();
        let ghost t = self.nodes();
        let ghost ents0 = self.ents();
        let mut seek: u32 = 0;
        let mut i: usize = 0;
        while i < folder_ids.len()
            invariant
                self.wf(),
                i <= folder_ids@.len(),
                t == self.nodes(),
                t == old(self).nodes(),
                ents0 == old(self).ents(),
                folder_ids@ == folders_in(ents0, old(self).order()),
                forall|j: int| 0 <= j < folder_ids@.len() ==> #[trigger] folder_ids@[j] < ents0.len() && ents0[folder_ids@[j] as int] is Folder,
                same_kinds(self.ents(), ents0),
                folder_siblings_are_folders(t, ents0),
                folder_meta_fold(t, ents0, folder_ids@, i as nat) == Ok::<(Seq<EntryView>, u32), WuhbError>((self.ents(), seek)),
            decreases folder_ids@.len() - i,
        {
            let id = folder_ids[i];
            let ghost cur = self.ents();
            assert(folder_meta_fold(t, ents0, folder_ids@, (i + 1) as nat) == folder_meta_step(t, cur, seek, id as int));
            assert(ents0[id as int] is Folder);
            assert(folder_siblings_are_folders(t, cur)) by {
                assert forall|k: int| 0 <= k < cur.len() && #[trigger] cur[k] is Folder implies match previous_sibling(t, k) {
                    Some(s) => 0 <= s < cur.len() && cur[s] is Folder,
                    None => true,
                } by {
                    assert(ents0[k] is Folder);
                    if let Some(s) = previous_sibling(t, k) {
                        assert(ents0[s] is Folder);
                    }
                }
            }
            match self.layout_folder(id, seek) {
                Ok(v) => {
                    seek = v;
                },
                Err(e) => {
                    proof {
                        lemma_folder_meta_fold_err(t, ents0, folder_ids@, (i + 1) as nat, folder_ids@.len());
                    }
                    return Err(e);
                },
            }
            i = i + 1;
        }
        Ok(())
    }
}

/// The folder that holds the file at `f`: its parent in the tree, `root`
/// for a node without one.
pub open spec fn file_parent(t: Seq<(usize, Option<usize>)>, root: int, f: int) -> int {
    match t[f].1 {
        Some(p) => p as int,
        None => root,
    }
}

/// The last of the first `k` files of `order` that lie in the folder at `p`.
pub open spec fn last_file_in(t: Seq<(usize, Option<usize>)>, root: int, order: Seq<usize>, k: nat, p: int) -> Option<int>
    decreases k,
{
    if k == 0 {
        None
    } else if file_parent(t, root, order[k - 1] as int) == p {
        Some(order[k - 1] as int)
    } else {
        last_file_in(t, root, order, (k - 1) as nat, p)
    }
}

/// One step of the file layout, for the file at `f`, where `prev` is the
/// file of the same folder laid out last: the file becomes its folder's
/// first file if that folder's first file lies after `seek`; `prev` records
/// the file as the next file of the folder; the file takes its place at
/// `seek` in the file table and at `partition` in the file partition, with
/// no next file yet; `partition` moves past its contents aligned to 16
/// bytes, and `seek` past its entry aligned to 4 bytes.
pub open spec fn file_meta_step(t: Seq<(usize, Option<usize>)>, root: int, ents: Seq<EntryView>, seek: u32, partition: u64, f: int, prev: Option<int>) -> Result<(Seq<EntryView>, u32, u64), WuhbError> {
    let p = file_parent(t, root, f);
    let pf = ents[p]->Folder_0;
    let e1 = if seek < pf.meta.file {
        ents.update(
            p,
            EntryView::Folder(FolderView { meta: DirEntryView { file: seek, ..pf.meta }, ..pf }),
        )
    } else {
        ents
    };
    let e2 = match prev {
        Some(g) => if 0 <= g < e1.len() && e1[g] is File {
            let gi = e1[g]->File_0;
            e1.update(
                g,
                EntryView::File(FileView { meta: FileEntryView { sibling: seek, ..gi.meta }, ..gi }),
            )
        } else {
            e1
        },
        None => e1,
    };
    let fi = e2[f]->File_0;
    let size = fi.content.len() as u64;
    let name_size = (encode_utf8(fi.name).len() as usize) as u32;
    let placed = FileView {
        offset: seek,
        meta: FileEntryView {
            parent: pf.offset,
            sibling: NONE,
            offset: partition,
            size,
            name_size,
            name: fi.name,
            ..fi.meta
        },
        ..fi
    };
    let entry = ((0x20 + name_size) as u64) as u32;
    if partition + size > u64::MAX || align_up(partition + size, 16) > u64::MAX {
        Err(WuhbError::Overflow)
    } else if seek + entry > u32::MAX || align_up(seek + entry, 4) > u32::MAX {
        Err(WuhbError::Overflow)
    } else {
        Ok(
            (
                e2.update(f, EntryView::File(placed)),
                align_up(seek + entry, 4) as u32,
                align_up(partition + size, 16) as u64,
            ),
        )
    }
}

/// The file layout after the first `k` files of `order`.
pub open spec fn file_meta_fold(t: Seq<(usize, Option<usize>)>, root: int, ents: Seq<EntryView>, order: Seq<usize>, k: nat) -> Result<(Seq<EntryView>, u32, u64), WuhbError>
    decreases k,
{
    if k == 0 {
        Ok((ents, 0u32, 0u64))
    } else {
        match file_meta_fold(t, root, ents, order, (k - 1) as nat) {
            Err(e) => Err(e),
            Ok(st) => file_meta_step(
                t,
                root,
                st.0,
                st.1,
                st.2,
                order[k - 1] as int,
                last_file_in(t, root, order, (k - 1) as nat, file_parent(t, root, order[k - 1] as int)),
            ),
        }
    }
}

/// Whether the file entry `a` is the file entry `b` with perhaps another
/// next file.
pub open spec fn file_kept(a: EntryView, b: EntryView) -> bool {
    &&& a is File
    &&& b is File
    &&& a == EntryView::File(
        FileView {
            meta: FileEntryView { sibling: a->File_0.meta.sibling, ..b->File_0.meta },
            ..b->File_0
        },
    )
}

/// What one step of the file layout does to the entries: the file at `f`
/// is placed, every other file keeps all but its next file, and the kinds
/// stay.
pub(crate) proof fn lemma_file_meta_step_shape(t: Seq<(usize, Option<usize>)>, root: int, e: Seq<EntryView>, seek: u32, partition: u64, f: int, prev: Option<int>)
    requires
        0 <= f < e.len(),
        t.len() == e.len(),
        e[f] is File,
        0 <= file_parent(t, root, f) < e.len(),
        e[file_parent(t, root, f)] is Folder,
    ensures
        file_meta_step(t, root, e, seek, partition, f, prev) matches Ok(st) ==> {
            &&& same_kinds(st.0, e)
            &&& st.0[f] is File
            &&& st.0[f]->File_0.meta.offset == partition
            &&& st.0[f]->File_0.meta.size == e[f]->File_0.content.len() as u64
            &&& st.0[f]->File_0.content == e[f]->File_0.content
            &&& e[f]->File_0.content.len() <= u64::MAX ==> st.2 == align_up(partition + e[f]->File_0.content.len(), 16)
            &&& forall|i: int| 0 <= i < e.len() && i != f && #[trigger] e[i] is File ==> file_kept(st.0[i], e[i])
            &&& st.0[f]->File_0.offset == seek
            &&& st.0[f]->File_0.meta.sibling == NONE
            &&& forall|i: int| 0 <= i < e.len() && i != f && prev != Some(i) && #[trigger] e[i] is File ==> st.0[i] == e[i]
            &&& forall|g: int| 0 <= g < e.len() && g != f && prev == Some(g) && #[trigger] e[g] is File ==> st.0[g]->File_0.meta.sibling == seek
        },
{
    let p = file_parent(t, root, f);
    let pf = e[p]->Folder_0;
    let e1 = if seek < pf.meta.file {
        e.update(p, EntryView::Folder(FolderView { meta: DirEntryView { file: seek, ..pf.meta }, ..pf }))
    } else {
        e
    };
    assert(e1[f] == e[f]);
    if let Ok(st) = file_meta_step(t, root, e, seek, partition, f, prev) {
        assert forall|i: int| 0 <= i < e.len() && i != f && #[trigger] e[i] is File implies file_kept(st.0[i], e[i]) by {
            assert(e1[i] == e[i]);
            match prev {
                Some(g) => {
                    if i == g && 0 <= g < e1.len() && e1[g] is File {
                    } else {
                        assert(st.0[i] == e[i]);
                    }
                },
                None => {
                    assert(st.0[i] == e[i]);
                },
            }
        }
    }
}

/// The entries after the file layout.
pub open spec fn spec_file_metadata(t: Seq<(usize, Option<usize>)>, root: int, ents: Seq<EntryView>) -> Result<Seq<EntryView>, WuhbError> {
    let order = files_in(ents, tree_order(t));
    match file_meta_fold(t, root, ents, order, order.len()) {
        Err(e) => Err(e),
        Ok(st) => Ok(st.0),
    }
}

proof fn lemma_file_meta_fold_err(t: Seq<(usize, Option<usize>)>, root: int, ents: Seq<EntryView>, order: Seq<usize>, m: nat, n: nat)
    requires
        m <= n,
        file_meta_fold(t, root, ents, order, m) is Err,
    ensures
        file_meta_fold(t, root, ents, order, n) == file_meta_fold(t, root, ents, order, m),
    decreases n,
{
    if n > m {
        lemma_file_meta_fold_err(t, root, ents, order, m, (n - 1) as nat);
    }
}

impl RomFs {
    fn claim_first_file(&mut self, p: usize, seek: u32) -> (r: u32)
        requires
            p < old(self).entries@.len(),
            old(self).ents()[p as int] is Folder,
        ensures
            final(self).tree == old(self).tree,
            final(self).root == old(self).root,
            ({
                let pf = old(self).ents()[p as int]->Folder_0;
                &&& final(self).ents() == if seek < pf.meta.file {
                    old(self).ents().update(
                        p as int,
                        EntryView::Folder(FolderView { meta: DirEntryView { file: seek, ..pf.meta }, ..pf }),
                    )
                } else {
                    old(self).ents()
                }
                &&& r == pf.offset
            }),
    {
        let ghost prev = self.entries@;
        let mut r: u32 = 0;
        match &mut self.entries[p] {
            Entry::Folder(f) => {
                if seek < f.meta.file {
                    f.meta.file = seek;
                }
                r = f.offset;
            },
            Entry::File(_) => {},
        }
        assert(self.ents() =~= entry_views(prev).update(p as int, self.entries@[p as int]@));
        r
    }

    fn link_next_file(&mut self, g: usize, seek: u32)
        requires
            g < old(self).entries@.len(),
            old(self).ents()[g as int] is File,
        ensures
            final(self).tree == old(self).tree,
            final(self).root == old(self).root,
            ({
                let gi = old(self).ents()[g as int]->File_0;
                final(self).ents() == old(self).ents().update(
                    g as int,
                    EntryView::File(FileView { meta: FileEntryView { sibling: seek, ..gi.meta }, ..gi }),
                )
            }),
    {
        let ghost prev = self.entries@;
        match &mut self.entries[g] {
            Entry::File(f) => {
                f.meta.sibling = seek;
            },
            Entry::Folder(_) => {},
        }
        assert(self.ents() =~= entry_views(prev).update(g as int, self.entries@[g as int]@));
    }

    fn place_file(&mut self, k: usize, seek: u32, parent: u32, partition: u64) -> (r: (u64, u32))
        requires
            k < old(self).entries@.len(),
            old(self).ents()[k as int] is File,
        ensures
            final(self).tree == old(self).tree,
            final(self).root == old(self).root,
            ({
                let fi = old(self).ents()[k as int]->File_0;
                let size = fi.content.len() as u64;
                let name_size = (encode_utf8(fi.name).len() as usize) as u32;
                &&& final(self).ents() == old(self).ents().update(
                    k as int,
                    EntryView::File(
                        FileView {
                            offset: seek,
                            meta: FileEntryView {
                                parent,
                                sibling: NONE,
                                offset: partition,
                                size,
                                name_size,
                                name: fi.name,
                                ..fi.meta
                            },
                            ..fi
                        },
                    ),
                )
                &&& r.0 == size
                &&& r.1 == ((0x20 + name_size) as u64) as u32
            }),
    {
        let ghost prev = self.entries@;
        let mut r: (u64, u32) = (0, 0);
        match &mut self.entries[k] {
            Entry::File(f) => {
                f.offset = seek;
                f.meta.parent = parent;
                f.meta.sibling = NONE;
                f.meta.offset = partition;
                f.meta.size = f.content.len() as u64;
                f.meta.name_size = f.name.as_str().len() as u32;
                f.meta.name = f.name.clone();
                r = (f.meta.size, f.meta.bytes() as u32);
            },
            Entry::Folder(_) => {},
        }
        assert(self.ents() =~= entry_views(prev).update(k as int, self.entries@[k as int]@));
        r
    }

    /// The position of the folder that holds the file at `id`.
    fn parent_of(&self, id: usize) -> (r: usize)
        requires
            self.wf(),
            id < self.ents().len(),
        ensures
            r == file_parent(self.nodes(), self.root as int, id as int),
            r < self.ents().len(),
            self.ents()[r as int] is Folder,
    {
        match self.tree.parent_value(id) {
            Some(p) => p,
            None => self.root,
        }
    }

    fn layout_file(&mut self, id: usize, parent_id: usize, prev: usize, seek: u32, partition: u64) -> (r: Result<(u32, u64), WuhbError>)
        requires
            old(self).wf(),
            id < old(self).ents().len(),
            old(self).ents()[id as int] is File,
            parent_id == file_parent(old(self).nodes(), old(self).root as int, id as int),
            prev != usize::MAX ==> prev < old(self).ents().len() && old(self).ents()[prev as int] is File,
        ensures
            final(self).wf(),
            final(self).nodes() == old(self).nodes(),
            same_kinds(final(self).ents(), old(self).ents()),
            match file_meta_step(
                old(self).nodes(),
                old(self).root as int,
                old(self).ents(),
                seek,
                partition,
                id as int,
                if prev == usize::MAX { None } else { Some(prev as int) },
            ) {
                Ok(st) => r == Ok::<(u32, u64), WuhbError>((st.1, st.2)) && final(self).ents() == st.0,
                Err(e) => r == Err::<(u32, u64), WuhbError>(e),
            },
    {
        let ghost t = self.nodes();
        let ghost ents0 = self.ents();
        assert(id != 0);
        assert(t[id as int].1 matches Some(p) && ents0[p as int] is Folder);
        let parent = self.claim_first_file(parent_id, seek);
        assert(same_kinds(self.ents(), ents0));
        if prev != usize::MAX {
            self.link_next_file(prev, seek);
            assert(same_kinds(self.ents(), ents0));
        }
        let (size, entry) = self.place_file(id, seek, parent, partition);
        assert(same_kinds(self.ents(), ents0));
        let next_partition = match partition.checked_add(size) {
            Some(v) => v,
            None => {
                return Err(WuhbError::Overflow);
            },
        };
        let next_partition = match align_up_u64(next_partition, 16) {
            Ok(v) => v,
            Err(e) => {
                return Err(e);
            },
        };
        let next_seek = match seek.checked_add(entry) {
            Some(v) => v,
            None => {
                return Err(WuhbError::Overflow);
            },
        };
        let next_seek = match align_up_u32(next_seek, 4) {
            Ok(v) => v,
            Err(e) => {
                return Err(e);
            },
        };
        Ok((next_seek, next_partition))
    }

    /// Lays out the file table and the file partition: every file, in
    /// depth-first pre-order, gets the next offset in the file table, aligned
    /// to 4 bytes, and the next offset in the partition, aligned to 16 bytes,
    /// and the file of the same folder laid out before it records it as the
    /// folder's next file.
    pub fn calculate_file_metadata(&mut self) -> (r: Result<(), WuhbError>)
        requires
            old(self).wf(),
        ensures
            final(self).wf(),
            final(self).nodes() == old(self).nodes(),
            same_kinds(final(self).ents(), old(self).ents()),
            match spec_file_metadata(old(self).nodes(), old(self).root as int, old(self).ents()) {
                Ok(ents) => r is Ok && final(self).ents() == ents,
                Err(e) => r == Err::<(), WuhbError>(e),
            },
    {
        let file_ids = self.files();
        let ghost t = self.nodes();
        let ghost ents0 = self.ents();
        let ghost root = self.root as int;
        let n = self.entries.len();
        let mut last: Vec<usize> = Vec::new();
        let mut q: usize = 0;
        while q < n
            invariant
                q <= n,
                last@.len() == q,
                forall|x: int| 0 <= x < q ==> #[trigger] last@[x] == usize::MAX,
            decreases n - q,
        {
            last.push(usize::MAX);
            q = q + 1;
        }
        let mut seek: u32 = 0;
        let mut partition: u64 = 0;
        let mut i: usize = 0;
        while i < file_ids.len()
            invariant
                self.wf(),
                i <= file_ids@.len(),
                t == self.nodes(),
                t == old(self).nodes(),
                self.root == old(self).root,
                root == self.root as int,
                ents0 == old(self).ents(),
                n == ents0.len(),
                file_ids@ == files_in(ents0, old(self).order()),
                forall|j: int| 0 <= j < file_ids@.len() ==> #[trigger] file_ids@[j] < ents0.len() && ents0[file_ids@[j] as int] is File,
                same_kinds(self.ents(), ents0),
                file_meta_fold(t, root, ents0, file_ids@, i as nat) == Ok::<(Seq<EntryView>, u32, u64), WuhbError>((self.ents(), seek, partition)),
                last@.len() == n,
                forall|x: int| 0 <= x < n ==> #[trigger] last@[x] == match last_file_in(t, root, file_ids@, i as nat, x) {
                    Some(g) => g as usize,
                    None => usize::MAX,
                },
                forall|x: int| 0 <= x < n && #[trigger] last@[x] != usize::MAX ==> last@[x] < n && ents0[last@[x] as int] is File,
            decreases file_ids@.len() - i,
        {
            let id = file_ids[i];
            let ghost cur = self.ents();
            assert(ents0[id as int] is File);
            let parent_id = self.parent_of(id);
            let prev = last[parent_id];
            assert(prev == match last_file_in(t, root, file_ids@, i as nat, parent_id as int) {
                Some(g) => g as usize,
                None => usize::MAX,
            });
            proof {
                lemma_last_file_in(t, root, file_ids@, i as nat, parent_id as int, n as nat);
            }
            assert(file_meta_fold(t, root, ents0, file_ids@, (i + 1) as nat) == file_meta_step(
                t,
                root,
                cur,
                seek,
                partition,
                id as int,
                if prev == usize::MAX { None } else { Some(prev as int) },
            ));
            match self.layout_file(id, parent_id, prev, seek, partition) {
                Ok((s, p)) => {
                    seek = s;
                    partition = p;
                },
                Err(e) => {
                    proof {
                        lemma_file_meta_fold_err(t, old(self).root as int, ents0, file_ids@, (i + 1) as nat, file_ids@.len());
                    }
                    return Err(e);
                },
            }
            let ghost before = last@;
            last.set(parent_id, id);
            assert forall|x: int| 0 <= x < n implies #[trigger] last@[x] == match last_file_in(t, root, file_ids@, (i + 1) as nat, x) {
                Some(g) => g as usize,
                None => usize::MAX,
            } by {
                if x != parent_id as int {
                    assert(last@[x] == before[x]);
                }
            }
            i = i + 1;
        }
        Ok(())
    }
}

/// The last file laid out in a folder is one of the files laid out so far,
/// at a position below `n` where they all are.
proof fn lemma_last_file_in(t: Seq<(usize, Option<usize>)>, root: int, order: Seq<usize>, k: nat, p: int, n: nat)
    requires
        k <= order.len(),
        n <= usize::MAX,
        forall|j: int| 0 <= j < order.len() ==> #[trigger] order[j] < n,
    ensures
        last_file_in(t, root, order, k, p) matches Some(g) ==> exists|j: int| 0 <= j < k && #[trigger] order[j] == g && g < n,
        last_file_in(t, root, order, k, p) matches Some(g) ==> g < usize::MAX,
    decreases k,
{
    if k > 0 {
        lemma_last_file_in(t, root, order, (k - 1) as nat, p, n);
    }
}

/// The folder at `f` hashed into `table`: the folder records the offset its
/// bucket held, and the bucket now holds the folder's offset.
pub open spec fn hash_folder_step(ents: Seq<EntryView>, table: Seq<u32>, f: int) -> (Seq<EntryView>, Seq<u32>) {
    let fo = ents[f]->Folder_0;
    let b = name_hash(fo.meta.parent, fo.name) as int % table.len() as int;
    (
        ents.update(
            f,
            EntryView::Folder(FolderView { meta: DirEntryView { hash: table[b], ..fo.meta }, ..fo }),
        ),
        table.update(b, fo.offset),
    )
}

/// The file at `f` hashed into `table`.
pub open spec fn hash_file_step(ents: Seq<EntryView>, table: Seq<u32>, f: int) -> (Seq<EntryView>, Seq<u32>) {
    let fi = ents[f]->File_0;
    let b = name_hash(fi.meta.parent, fi.name) as int % table.len() as int;
    (
        ents.update(
            f,
            EntryView::File(FileView { meta: FileEntryView { hash: table[b], ..fi.meta }, ..fi }),
        ),
        table.update(b, fi.offset),
    )
}

pub open spec fn hash_folders_fold(ents: Seq<EntryView>, table: Seq<u32>, order: Seq<usize>, k: nat) -> (Seq<EntryView>, Seq<u32>)
    decreases k,
{
    if k == 0 {
        (ents, table)
    } else {
        let st = hash_folders_fold(ents, table, order, (k - 1) as nat);
        hash_folder_step(st.0, st.1, order[k - 1] as int)
    }
}

pub open spec fn hash_files_fold(ents: Seq<EntryView>, table: Seq<u32>, order: Seq<usize>, k: nat) -> (Seq<EntryView>, Seq<u32>)
    decreases k,
{
    if k == 0 {
        (ents, table)
    } else {
        let st = hash_files_fold(ents, table, order, (k - 1) as nat);
        hash_file_step(st.0, st.1, order[k - 1] as int)
    }
}

/// A table of `n` empty buckets.
pub open spec fn empty_table(n: nat) -> Seq<u32> {
    Seq::new(n, |i: int| NONE)
}

/// The entries and the directory and file hash tables after hashing every
/// folder, then every file, in depth-first pre-order. The directory table is
/// made for one more entry than there are folders; an error where the
/// buckets of a table do not fit in one allocation.
pub open spec fn spec_hash_tables(t: Seq<(usize, Option<usize>)>, ents: Seq<EntryView>) -> Result<(Seq<EntryView>, Seq<u32>, Seq<u32>), WuhbError> {
    let folders = folders_in(ents, tree_order(t));
    let files = files_in(ents, tree_order(t));
    if folders.len() + 1 > usize::MAX || !buckets_fit(table_size(folders.len() + 1)) || !buckets_fit(
        table_size(files.len()),
    ) {
        Err(WuhbError::Overflow)
    } else {
        let d = hash_folders_fold(ents, empty_table(table_size(folders.len() + 1)), folders, folders.len());
        let f = hash_files_fold(d.0, empty_table(table_size(files.len())), files, files.len());
        Ok((f.0, d.1, f.1))
    }
}

impl RomFs {
    fn hash_folder(&mut self, id: usize, table: &mut HashTable)
        requires
            old(self).wf(),
            id < old(self).ents().len(),
            old(self).ents()[id as int] is Folder,
            old(table).wf(),
        ensures
            final(self).wf(),
            final(table).wf(),
            final(self).nodes() == old(self).nodes(),
            same_kinds(final(self).ents(), old(self).ents()),
            (final(self).ents(), final(table)@) == hash_folder_step(old(self).ents(), old(table)@, id as int),
    {
        let ghost prev = self.entries@;
        let (parent, name, offset) = match &self.entries[id] {
            Entry::Folder(f) => (f.meta.parent, f.name.clone(), f.offset),
            Entry::File(_) => (0, String::new(), 0),
        };
        let next = table.hash(parent, name.as_str(), offset);
        match &mut self.entries[id] {
            Entry::Folder(f) => {
                f.meta.hash = next;
            },
            Entry::File(_) => {},
        }
        assert(self.ents() =~= entry_views(prev).update(id as int, self.entries@[id as int]@));
    }

    fn hash_file(&mut self, id: usize, table: &mut HashTable)
        requires
            old(self).wf(),
            id < old(self).ents().len(),
            old(self).ents()[id as int] is File,
            old(table).wf(),
        ensures
            final(self).wf(),
            final(table).wf(),
            final(self).nodes() == old(self).nodes(),
            same_kinds(final(self).ents(), old(self).ents()),
            (final(self).ents(), final(table)@) == hash_file_step(old(self).ents(), old(table)@, id as int),
    {
        let ghost prev = self.entries@;
        let (parent, name, offset) = match &self.entries[id] {
            Entry::File(f) => (f.meta.parent, f.name.clone(), f.offset),
            Entry::Folder(_) => (0, String::new(), 0),
        };
        let next = table.hash(parent, name.as_str(), offset);
        match &mut self.entries[id] {
            Entry::File(f) => {
                f.meta.hash = next;
            },
            Entry::Folder(_) => {},
        }
        assert(self.ents() =~= entry_views(prev).update(id as int, self.entries@[id as int]@));
    }

    /// Builds the directory and file hash tables and records in every entry
    /// the next entry of its bucket.
    pub fn calculate_hash_tables(&mut self) -> (r: Result<(HashTable, HashTable), WuhbError>)
        requires
            old(self).wf(),
        ensures
            final(self).wf(),
            final(self).nodes() == old(self).nodes(),
            same_kinds(final(self).ents(), old(self).ents()),
            match spec_hash_tables(old(self).nodes(), old(self).ents()) {
                Ok(st) => r is Ok && final(self).ents() == st.0 && r->Ok_0.0@ == st.1 && r->Ok_0.1@ == st.2,
                Err(e) => r is Err && r->Err_0 == e,
            },
            r matches Ok(h) ==> h.0.wf() && h.1.wf(),
    {
        let folder_ids = self.folders();
        let file_ids = self.files();
        if folder_ids.len() == usize::MAX {
            return Err(WuhbError::Overflow);
        }
        if bucket_count(folder_ids.len() + 1).is_none() || bucket_count(file_ids.len()).is_none() {
            return Err(WuhbError::Overflow);
        }
        let mut dirs = HashTable::new(folder_ids.len() + 1);
        let mut files = HashTable::new(file_ids.len());
        let ghost ents0 = self.ents();
        let ghost d0 = dirs@;
        assert(d0 =~= empty_table(table_size((folder_ids@.len() + 1) as nat)));
        assert(files@ =~= empty_table(table_size(file_ids@.len())));
        let mut i: usize = 0;
        while i < folder_ids.len()
            invariant
                self.wf(),
                dirs.wf(),
                i <= folder_ids@.len(),
                self.nodes() == old(self).nodes(),
                ents0 == old(self).ents(),
                forall|j: int| 0 <= j < folder_ids@.len() ==> #[trigger] folder_ids@[j] < ents0.len() && ents0[folder_ids@[j] as int] is Folder,
                same_kinds(self.ents(), ents0),
                hash_folders_fold(ents0, d0, folder_ids@, i as nat) == (self.ents(), dirs@),
            decreases folder_ids@.len() - i,
        {
            let id = folder_ids[i];
            assert(ents0[id as int] is Folder);
            self.hash_folder(id, &mut dirs);
            i = i + 1;
        }
        let ghost e1 = self.ents();
        let ghost f0 = files@;
        let mut i: usize = 0;
        while i < file_ids.len()
            invariant
                self.wf(),
                files.wf(),
                i <= file_ids@.len(),
                self.nodes() == old(self).nodes(),
                ents0 == old(self).ents(),
                forall|j: int| 0 <= j < file_ids@.len() ==> #[trigger] file_ids@[j] < ents0.len() && ents0[file_ids@[j] as int] is File,
                same_kinds(self.ents(), ents0),
                hash_files_fold(e1, f0, file_ids@, i as nat) == (self.ents(), files@),
            decreases file_ids@.len() - i,
        {
            let id = file_ids[i];
            assert(ents0[id as int] is File);
            self.hash_file(id, &mut files);
            i = i + 1;
        }
        Ok((dirs, files))
    }
}

} // verus!
