//! WUHB bundles: a read-only file system image holding a module and its
//! metadata.
use vstd::prelude::*;
use vstd::string::StringExecFns;
use vstd::arithmetic::div_mod::lemma_mod_mod;
use vstd::utf8::encode_utf8;
use crate::bytes::{be32, be64, push_be32, push_be64};

pub mod tree;
pub mod romfs;
pub mod image;
pub mod manifest;
pub mod laws;
pub mod order;

verus! {

/// Why an image could not be built.
#[derive(PartialEq, Eq, Structural, Clone, Copy, Debug)]
pub enum WuhbError {
    /// An offset or size does not fit in its field.
    Overflow,
}

/// The configuration a bundle is made with.
pub struct WuhbConfig {
    /// Display name of the app in the Home Menu.
    pub long_name: String,
    /// Short display name of the app.
    pub short_name: String,
    /// Path of the app's icon in the Home Menu.
    pub icon: Option<String>,
    /// Path of the splash screen on the TV.
    pub tv_image: Option<String>,
    /// Path of the splash screen on the gamepad.
    pub drc_image: Option<String>,
    /// Path of the content directory.
    pub content: Option<String>,
}

/// A configuration as a mathematical value.
pub struct WuhbConfigView {
    pub long_name: Seq<char>,
    pub short_name: Seq<char>,
    pub icon: Option<Seq<char>>,
    pub tv_image: Option<Seq<char>>,
    pub drc_image: Option<Seq<char>>,
    pub content: Option<Seq<char>>,
}

/// The view of an optional string.
pub open spec fn opt_view(o: Option<String>) -> Option<Seq<char>> {
    match o {
        Some(s) => Some(s@),
        None => None,
    }
}

impl View for WuhbConfig {
    type V = WuhbConfigView;

    open spec fn view(&self) -> WuhbConfigView {
        WuhbConfigView {
            long_name: self.long_name@,
            short_name: self.short_name@,
            icon: opt_view(self.icon),
            tv_image: opt_view(self.tv_image),
            drc_image: opt_view(self.drc_image),
            content: opt_view(self.content),
        }
    }
}

/// The name an app has until one is given: `Rust App`.
pub open spec fn default_name() -> Seq<char> {
    "Rust App"@
}

/// Whether `name` is the name an app has until one is given; a name from
/// the manifest replaces only such a name.
pub fn is_default_name(name: &str) -> (r: bool)
    ensures
        r == (name@ == default_name()),
{
    let given = name.to_owned();
    let default = String::from_str("Rust App");
    given == default
}

impl Default for WuhbConfig {
    /// Both names are `Rust App`, and no path is given.
    fn default() -> (r: WuhbConfig)
        ensures
            r@ == (WuhbConfigView {
                long_name: default_name(),
                short_name: default_name(),
                icon: None,
                tv_image: None,
                drc_image: None,
                content: None,
            }),
    {
        WuhbConfig {
            long_name: "Rust App".to_owned(),
            short_name: "Rust App".to_owned(),
            icon: None,
            tv_image: None,
            drc_image: None,
            content: None,
        }
    }
}

/// The "no entry" marker of the directory and file tables.
pub const NONE: u32 = 0xFFFF_FFFF;

/// Header of the file system image.
#[derive(Debug, Clone, Copy)]
pub struct RomFsHeader {
    pub magic: [u8; 4],
    pub size: u32,
    pub dir_hash_table_ofs: u64,
    pub dir_hash_table_size: u64,
    pub dir_table_ofs: u64,
    pub dir_table_size: u64,
    pub file_hash_table_ofs: u64,
    pub file_hash_table_size: u64,
    pub file_table_ofs: u64,
    pub file_table_size: u64,
    pub file_partition_ofs: u64,
}

/// A directory entry.
#[derive(Debug)]
pub struct RomFsDirEntry {
    /// Offset of parent into directory table.
    pub parent: u32,
    /// Next folder with the same parent.
    pub sibling: u32,
    /// Offset into directory table of next folder in self.
    pub child: u32,
    /// Offset into file table of next file in self.
    pub file: u32,
    /// Offset into folder table of next folder in hash collision list.
    pub hash: u32,
    /// Number of bytes of folder name.
    pub name_size: u32,
    /// Folder name.
    pub name: String,
}

/// A file entry.
#[derive(Debug)]
pub struct RomFsFileEntry {
    /// Offset of parent into directory table.
    pub parent: u32,
    /// Offset into file table of next file in parent folder.
    pub sibling: u32,
    /// Offset of content into partition.
    pub offset: u64,
    /// Size of content in partition.
    pub size: u64,
    /// Offset into file table of next file in hash collision list.
    pub hash: u32,
    /// Number of bytes of file name.
    pub name_size: u32,
    /// File name.
    pub name: String,
}

impl RomFsHeader {
    /// The header with no tables placed yet: 0x50 bytes long, the file
    /// partition at 0x200.
    pub open spec fn spec_default() -> RomFsHeader {
        RomFsHeader {
            magic: [0x57u8, 0x55u8, 0x48u8, 0x42u8],
            size: 0x50,
            dir_hash_table_ofs: 0,
            dir_hash_table_size: 0,
            dir_table_ofs: 0,
            dir_table_size: 0,
            file_hash_table_ofs: 0,
            file_hash_table_size: 0,
            file_table_ofs: 0,
            file_table_size: 0,
            file_partition_ofs: 0x200,
        }
    }

    /// The encoding of the header.
    pub open spec fn spec_bytes(self) -> Seq<u8> {
        self.magic@ + be32(self.size) + be64(self.dir_hash_table_ofs) + be64(
            self.dir_hash_table_size,
        ) + be64(self.dir_table_ofs) + be64(self.dir_table_size) + be64(self.file_hash_table_ofs)
            + be64(self.file_hash_table_size) + be64(self.file_table_ofs) + be64(
            self.file_table_size,
        ) + be64(self.file_partition_ofs)
    }

    /// Appends the encoding of the header.
    pub fn write_to(&self, out: &mut Vec<u8>)
        ensures
            final(out)@ == old(out)@ + self.spec_bytes(),
    {
        let ghost start = out@;
        out.push(self.magic[0]);
        out.push(self.magic[1]);
        out.push(self.magic[2]);
        out.push(self.magic[3]);
        assert(out@ =~= start + self.magic@);
        push_be32(out, self.size);
        push_be64(out, self.dir_hash_table_ofs);
        push_be64(out, self.dir_hash_table_size);
        push_be64(out, self.dir_table_ofs);
        push_be64(out, self.dir_table_size);
        push_be64(out, self.file_hash_table_ofs);
        push_be64(out, self.file_hash_table_size);
        push_be64(out, self.file_table_ofs);
        push_be64(out, self.file_table_size);
        push_be64(out, self.file_partition_ofs);
        assert(out@ =~= start + self.spec_bytes());
    }
}

impl Default for RomFsHeader {
    fn default() -> (r: RomFsHeader)
        ensures
            r == RomFsHeader::spec_default(),
    {
        RomFsHeader {
            magic: [0x57u8, 0x55u8, 0x48u8, 0x42u8],
            size: 0x50,
            dir_hash_table_ofs: 0,
            dir_hash_table_size: 0,
            dir_table_ofs: 0,
            dir_table_size: 0,
            file_hash_table_ofs: 0,
            file_hash_table_size: 0,
            file_table_ofs: 0,
            file_table_size: 0,
            file_partition_ofs: 0x200,
        }
    }
}

/// Appends the UTF-8 bytes of `s`.
pub fn push_str_bytes(out: &mut Vec<u8>, s: &str)
    ensures
        final(out)@ == old(out)@ + encode_utf8(s@),
{
    let b = s.as_bytes();
    let ghost start = out@;
    let mut k: usize = 0;
    while k < b.len()
        invariant
            k <= b@.len(),
            b@ == encode_utf8(s@),
            out@ == start + b@.subrange(0, k as int),
        decreases b@.len() - k,
    {
        out.push(b[k]);
        assert(b@.subrange(0, k + 1) =~= b@.subrange(0, k as int).push(b@[k as int]));
        k = k + 1;
    }
    assert(b@.subrange(0, k as int) =~= b@);
}

/// Size of a directory entry without its name.
pub const DIR_ENTRY_SIZE: u64 = 0x18;
/// Size of a file entry without its name.
pub const FILE_ENTRY_SIZE: u64 = 0x20;

impl RomFsDirEntry {
    /// The encoding of the entry: its six fields, then the bytes of its name.
    pub open spec fn spec_bytes(&self) -> Seq<u8> {
        be32(self.parent) + be32(self.sibling) + be32(self.child) + be32(self.file) + be32(
            self.hash,
        ) + be32(self.name_size) + encode_utf8(self.name@)
    }

    /// The number of bytes the entry takes when its name has `name_size` bytes.
    pub fn bytes(&self) -> (r: u64)
        ensures
            r == DIR_ENTRY_SIZE + self.name_size,
    {
        DIR_ENTRY_SIZE + self.name_size as u64
    }

    /// Appends the encoding of the entry.
    pub fn write_to(&self, out: &mut Vec<u8>)
        ensures
            final(out)@ == old(out)@ + self.spec_bytes(),
    {
        let ghost start = out@;
        push_be32(out, self.parent);
        push_be32(out, self.sibling);
        push_be32(out, self.child);
        push_be32(out, self.file);
        push_be32(out, self.hash);
        push_be32(out, self.name_size);
        push_str_bytes(out, self.name.as_str());
        assert(out@ =~= start + self.spec_bytes());
    }
}

impl Default for RomFsDirEntry {
    fn default() -> (r: RomFsDirEntry)
        ensures
            r.parent == NONE && r.sibling == NONE && r.child == NONE && r.file == NONE && r.hash
                == NONE && r.name_size == 0 && r.name@ == Seq::<char>::empty(),
    {
        RomFsDirEntry {
            parent: NONE,
            sibling: NONE,
            child: NONE,
            file: NONE,
            hash: NONE,
            name_size: 0,
            name: String::new(),
        }
    }
}

impl RomFsFileEntry {
    /// The encoding of the entry: its six fields, then the bytes of its name.
    pub open spec fn spec_bytes(&self) -> Seq<u8> {
        be32(self.parent) + be32(self.sibling) + be64(self.offset) + be64(self.size) + be32(
            self.hash,
        ) + be32(self.name_size) + encode_utf8(self.name@)
    }

    /// The number of bytes the entry takes when its name has `name_size` bytes.
    pub fn bytes(&self) -> (r: u64)
        ensures
            r == FILE_ENTRY_SIZE + self.name_size,
    {
        FILE_ENTRY_SIZE + self.name_size as u64
    }

    /// Appends the encoding of the entry.
    pub fn write_to(&self, out: &mut Vec<u8>)
        ensures
            final(out)@ == old(out)@ + self.spec_bytes(),
    {
        let ghost start = out@;
        push_be32(out, self.parent);
        push_be32(out, self.sibling);
        push_be64(out, self.offset);
        push_be64(out, self.size);
        push_be32(out, self.hash);
        push_be32(out, self.name_size);
        push_str_bytes(out, self.name.as_str());
        assert(out@ =~= start + self.spec_bytes());
    }
}

impl Default for RomFsFileEntry {
    fn default() -> (r: RomFsFileEntry)
        ensures
            r.parent == NONE && r.sibling == NONE && r.offset == 0 && r.size == 0 && r.hash == NONE
                && r.name_size == 0 && r.name@ == Seq::<char>::empty(),
    {
        RomFsFileEntry {
            parent: NONE,
            sibling: NONE,
            offset: 0,
            size: 0,
            hash: NONE,
            name_size: 0,
            name: String::new(),
        }
    }
}

// ------------------------------------------------------------ hash tables

/// Whether `c` is divisible by none of the primes up to 17.
pub open spec fn free_of_small_primes(c: int) -> bool {
    c % 2 != 0 && c % 3 != 0 && c % 5 != 0 && c % 7 != 0 && c % 11 != 0 && c % 13 != 0 && c % 17
        != 0
}

/// Whether `c` is the number of buckets of a table made for `n` entries:
/// three for up to two entries, the next odd number up to 18 entries, and
/// beyond that the least number from `n` on that no prime up to 17 divides.
pub open spec fn is_table_size(n: nat, c: nat) -> bool {
    if n <= 2 {
        c == 3
    } else if n <= 18 {
        c == if n % 2 == 0 {
            n + 1
        } else {
            n
        }
    } else {
        n <= c && free_of_small_primes(c as int) && forall|k: int|
            n <= k < c ==> !#[trigger] free_of_small_primes(k)
    }
}

/// The number of buckets of a table made for `n` entries.
pub open spec fn table_size(n: nat) -> nat {
    choose|c: nat| is_table_size(n, c)
}

/// There is only one number of buckets for a number of entries.
pub proof fn lemma_table_size_unique(n: nat, a: nat, b: nat)
    requires
        is_table_size(n, a),
        is_table_size(n, b),
    ensures
        a == b,
{
    if n > 18 {
        if a < b {
            assert(!free_of_small_primes(a as int));
        } else if b < a {
            assert(!free_of_small_primes(b as int));
        }
    }
}

/// The code of `c` in upper case where `c` is an ASCII letter.
pub open spec fn upper_code(c: char) -> u32 {
    if 97 <= (c as u32) && (c as u32) <= 122 {
        (c as u32 - 32) as u32
    } else {
        c as u32
    }
}

/// The hash of a name in the folder at `parent`: starting from the parent's
/// offset, each character rotates the hash right by five bits and is mixed
/// in, case-insensitively.
pub open spec fn name_hash(parent: u32, chars: Seq<char>) -> u32
    decreases chars.len(),
{
    if chars.len() == 0 {
        parent ^ 123456789u32
    } else {
        let h = name_hash(parent, chars.drop_last());
        ((h >> 5u32) | (h << 27u32)) ^ upper_code(chars.last())
    }
}

/// A hash table of entry offsets: each bucket holds the offset of the last
/// entry hashed into it, and each entry records the offset that it displaced,
/// so that the entries of a bucket form a chain.
#[derive(Debug)]
pub struct HashTable(Vec<u32>);

impl View for HashTable {
    type V = Seq<u32>;

    closed spec fn view(&self) -> Seq<u32> {
        self.0@
    }
}

/// Buckets are 32-bit offsets, stored big-endian.
pub open spec fn buckets_bytes(buckets: Seq<u32>) -> Seq<u8>
    decreases buckets.len(),
{
    if buckets.len() == 0 {
        Seq::empty()
    } else {
        buckets_bytes(buckets.drop_last()) + be32(buckets.last())
    }
}

proof fn lemma_free_of_small_primes(t: int)
    requires
        t >= 0,
        t % 510510 == 1,
    ensures
        free_of_small_primes(t),
{
    lemma_mod_mod(t, 2, 255255);
    lemma_mod_mod(t, 3, 170170);
    lemma_mod_mod(t, 5, 102102);
    lemma_mod_mod(t, 7, 72930);
    lemma_mod_mod(t, 11, 46410);
    lemma_mod_mod(t, 13, 39270);
    lemma_mod_mod(t, 17, 30030);
}

/// Whether `n` buckets of four bytes fit in one allocation.
pub open spec fn buckets_fit(n: nat) -> bool {
    4 * n <= isize::MAX
}

/// From `n` on, the first number that no prime up to 17 divides lies at or
/// before `x`, where `x` is such a number.
proof fn lemma_least_free(n: int, x: int)
    requires
        0 <= n <= x,
        free_of_small_primes(x),
    ensures
        exists|c: int|
            n <= c <= x && free_of_small_primes(c) && forall|k: int| n <= k < c ==> !#[trigger] free_of_small_primes(k),
    decreases x - n,
{
    if free_of_small_primes(n) {
        assert(forall|k: int| n <= k < n ==> !#[trigger] free_of_small_primes(k));
    } else {
        lemma_least_free(n + 1, x);
        let c = choose|c: int|
            n + 1 <= c <= x && free_of_small_primes(c) && forall|k: int| n + 1 <= k < c ==> !#[trigger] free_of_small_primes(k);
        assert forall|k: int| n <= k < c implies !#[trigger] free_of_small_primes(k) by {
            if k > n {
                assert(n + 1 <= k < c);
            }
        }
    }
}

/// Every number of entries has a number of buckets.
pub proof fn lemma_table_size(n: nat)
    ensures
        is_table_size(n, table_size(n)),
{
    if n <= 2 {
        assert(is_table_size(n, 3));
    } else if n <= 18 {
        let c: nat = if n % 2 == 0 { (n + 1) as nat } else { n };
        assert(is_table_size(n, c));
    } else {
        let target: int = n + ((510511 - n % 510510) % 510510);
        assert(target % 510510 == 1);
        lemma_free_of_small_primes(target);
        lemma_least_free(n as int, target);
        let c = choose|c: int|
            n <= c <= target && free_of_small_primes(c) && forall|k: int| n <= k < c ==> !#[trigger] free_of_small_primes(k);
        assert(is_table_size(n, c as nat));
    }
}

/// The number of buckets of a table made for `n` entries, where they fit in
/// one allocation.
pub fn bucket_count(n: usize) -> (r: Option<usize>)
    ensures
        match r {
            Some(c) => c == table_size(n as nat) && buckets_fit(c as nat),
            None => !buckets_fit(table_size(n as nat)),
        },
{
    proof {
        lemma_table_size(n as nat);
    }
    let c: usize = if n <= 2 {
        3
    } else if n <= 18 {
        assert((n | 1usize) == if n % 2 == 0 {
            (n + 1) as usize
        } else {
            n
        }) by (bit_vector)
            requires
                n <= 18,
        ;
        n | 1
    } else {
        let limit: usize = (isize::MAX as usize) / 4;
        if n > limit {
            return None;
        }
        let mut count = n;
        while count % 2 == 0 || count % 3 == 0 || count % 5 == 0 || count % 7 == 0 || count % 11
            == 0 || count % 13 == 0 || count % 17 == 0
            invariant
                n <= count,
                n > 18,
                limit == (isize::MAX as usize) / 4,
                count <= limit + 1,
                is_table_size(n as nat, table_size(n as nat)),
                forall|k: int| n <= k < count ==> !#[trigger] free_of_small_primes(k),
            decreases limit + 1 - count,
        {
            if count > limit {
                assert(table_size(n as nat) >= count) by {
                    let c = table_size(n as nat);
                    if c < count {
                        assert(!free_of_small_primes(c as int));
                    }
                }
                return None;
            }
            count = count + 1;
        }
        assert(is_table_size(n as nat, count as nat));
        proof {
            lemma_table_size_unique(n as nat, table_size(n as nat), count as nat);
        }
        count
    };
    proof {
        assert(is_table_size(n as nat, c as nat));
        lemma_table_size_unique(n as nat, table_size(n as nat), c as nat);
    }
    if c > (isize::MAX as usize) / 4 {
        None
    } else {
        Some(c)
    }
}

impl HashTable {
    /// Whether the table can be hashed into: it has at least three buckets,
    /// and they fit in one allocation.
    pub open spec fn wf(&self) -> bool {
        3 <= self@.len() && buckets_fit(self@.len())
    }

    /// A table for `expected_entries` entries with every bucket empty; its
    /// buckets have to fit in one allocation.
    pub fn new(expected_entries: usize) -> (r: HashTable)
        requires
            buckets_fit(table_size(expected_entries as nat)),
        ensures
            r.wf(),
            is_table_size(expected_entries as nat, r@.len()),
            r@.len() == table_size(expected_entries as nat),
            forall|k: int| 0 <= k < r@.len() ==> #[trigger] r@[k] == NONE,
    {
        proof {
            lemma_table_size(expected_entries as nat);
        }
        let size = match bucket_count(expected_entries) {
            Some(c) => c,
            None => 3,
        };
        HashTable(vec![NONE; size])
    }

    /// Records the entry at `current_offset`, named `name` in the folder at
    /// `parent_offset`: its bucket now holds `current_offset`, and the offset
    /// the bucket held before is returned.
    pub fn hash(&mut self, parent_offset: u32, name: &str, current_offset: u32) -> (prev: u32)
        requires
            old(self).wf(),
        ensures
            final(self).wf(),
            ({
                let bucket = name_hash(parent_offset, name@) as int % old(self)@.len() as int;
                &&& prev == old(self)@[bucket]
                &&& final(self)@ == old(self)@.update(bucket, current_offset)
            }),
    {
        let mut hash: u32 = parent_offset ^ 123456789u32;
        let ghost chars = name@;
        assert(chars.take(0) =~= Seq::<char>::empty());
        for c in it: name.chars()
            invariant
                chars == name@,
                it.seq() == chars,
                hash == name_hash(parent_offset, chars.take(it.index() as int)),
        {
            let ghost i = it.index();
            let code = c as u32;
            let upper = if 97 <= code && code <= 122 {
                code - 32
            } else {
                code
            };
            hash = (hash >> 5u32) | (hash << 27u32);
            hash = hash ^ upper;
            assert(chars.take(i + 1).drop_last() =~= chars.take(i as int));
        }
        assert(chars.take(chars.len() as int) =~= chars);
        let bucket = (hash as usize) % self.0.len();
        let prev = self.0[bucket];
        self.0[bucket] = current_offset;
        prev
    }

    /// The number of bytes the table takes.
    pub fn bytes(&self) -> (r: u64)
        requires
            self.wf(),
        ensures
            r == 4 * self@.len(),
    {
        self.0.len() as u64 * 4
    }

    /// Appends the encoding of the table.
    pub fn write_to(&self, out: &mut Vec<u8>)
        ensures
            final(out)@ == old(out)@ + buckets_bytes(self@),
    {
        let ghost start = out@;
        let mut k: usize = 0;
        assert(self@.take(0) =~= Seq::<u32>::empty());
        while k < self.0.len()
            invariant
                k <= self@.len(),
                out@ == start + buckets_bytes(self@.take(k as int)),
            decreases self@.len() - k,
        {
            push_be32(out, self.0[k]);
            assert(self@.take(k + 1).drop_last() =~= self@.take(k as int));
            k = k + 1;
        }
        assert(self@.take(k as int) =~= self@);
    }
}

} // verus!
