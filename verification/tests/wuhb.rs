use cargo_wiiu::wuhb::image::{from_rpx, meta_ini};
use cargo_wiiu::wuhb::manifest::{apply_manifest, ManifestValue};
use cargo_wiiu::wuhb::romfs::{align_up_u32, align_up_u64, RomFs};
use cargo_wiiu::wuhb::{bucket_count, HashTable, RomFsDirEntry, RomFsFileEntry, RomFsHeader, WuhbConfig, WuhbError, NONE};

fn be32_at(b: &[u8], at: usize) -> u32 {
    u32::from_be_bytes([b[at], b[at + 1], b[at + 2], b[at + 3]])
}

fn be64_at(b: &[u8], at: usize) -> u64 {
    let mut w = [0u8; 8];
    w.copy_from_slice(&b[at..at + 8]);
    u64::from_be_bytes(w)
}

#[test]
fn hash_table_sizes() {
    let buckets = |n: usize| HashTable::new(n).bytes() / 4;
    assert_eq!(buckets(0), 3);
    assert_eq!(buckets(2), 3);
    assert_eq!(buckets(3), 3);
    assert_eq!(buckets(4), 5);
    assert_eq!(buckets(17), 17);
    assert_eq!(buckets(18), 19);
    assert_eq!(buckets(19), 19);
    assert_eq!(buckets(20), 23);
    assert_eq!(buckets(289), 293);
}

#[test]
fn empty_table_bytes() {
    let mut out = Vec::new();
    HashTable::new(1).write_to(&mut out);
    assert_eq!(out, vec![0xff; 12]);
}

#[test]
fn hashing_chains_entries_of_a_bucket() {
    let mut t = HashTable::new(5);
    assert_eq!(t.hash(0x18, "content", 0x40), NONE);
    assert_eq!(t.hash(0x18, "content", 0x80), 0x40);
    // Names are compared without regard to ASCII case.
    assert_eq!(t.hash(0x18, "CONTENT", 0xC0), 0x80);
}

#[test]
fn hashing_writes_the_bucket() {
    let mut t = HashTable::new(0);
    t.hash(0, "", 0x1234_5678);
    let mut out = Vec::new();
    t.write_to(&mut out);
    // The empty name hashes to 123456789, bucket 123456789 % 3 == 0.
    assert_eq!(out, vec![0x12, 0x34, 0x56, 0x78, 0xff, 0xff, 0xff, 0xff, 0xff, 0xff, 0xff, 0xff]);
}

#[test]
fn entry_sizes() {
    let mut d = RomFsDirEntry::default();
    assert_eq!(d.bytes(), 0x18);
    d.name_size = 4;
    assert_eq!(d.bytes(), 0x1C);
    let mut f = RomFsFileEntry::default();
    assert_eq!(f.bytes(), 0x20);
    f.name_size = 8;
    assert_eq!(f.bytes(), 0x28);
}

#[test]
fn entry_encodings() {
    let d = RomFsDirEntry {
        parent: 0,
        sibling: NONE,
        child: 0x18,
        file: 4,
        hash: NONE,
        name_size: 4,
        name: String::from("code"),
    };
    let mut out = Vec::new();
    d.write_to(&mut out);
    assert_eq!(out.len(), 0x1C);
    assert_eq!(&out[8..12], &[0, 0, 0, 0x18]);
    assert_eq!(&out[24..28], b"code");
    let f = RomFsFileEntry {
        parent: 0x18,
        sibling: NONE,
        offset: 0x10,
        size: 7,
        hash: NONE,
        name_size: 8,
        name: String::from("root.rpx"),
    };
    let mut out = Vec::new();
    f.write_to(&mut out);
    assert_eq!(out.len(), 0x28);
    assert_eq!(&out[8..16], &[0, 0, 0, 0, 0, 0, 0, 0x10]);
    assert_eq!(&out[16..24], &[0, 0, 0, 0, 0, 0, 0, 7]);
    assert_eq!(&out[32..40], b"root.rpx");
}

#[test]
fn default_header() {
    let mut out = Vec::new();
    RomFsHeader::default().write_to(&mut out);
    assert_eq!(out.len(), 0x50);
    assert_eq!(&out[0..4], b"WUHB");
    assert_eq!(be32_at(&out, 4), 0x50);
    assert_eq!(be64_at(&out, 72), 0x200);
}

#[test]
fn default_config_names() {
    let c = WuhbConfig::default();
    assert_eq!(c.long_name, "Rust App");
    assert_eq!(c.short_name, "Rust App");
    assert!(c.icon.is_none() && c.tv_image.is_none() && c.drc_image.is_none() && c.content.is_none());
}

#[test]
fn meta_ini_text() {
    assert_eq!(
        meta_ini("Long", "Short", "Me"),
        b"[menu]\nlongname=Long\nshortname=Short\nauthor=Me\n".to_vec()
    );
}

#[test]
fn folders_and_files_in_preorder() {
    let mut fs = RomFs::new();
    let a = fs.add_folder(0, "a");
    let b = fs.add_folder(0, "b");
    let f = fs.add_file(b, "f", vec![1]);
    let g = fs.add_file(a, "g", vec![2]);
    let c = fs.add_folder(a, "c");
    assert_eq!((a, b, f, g, c), (1, 2, 3, 4, 5));
    assert_eq!(fs.folders(), vec![0, 1, 5, 2]);
    assert_eq!(fs.files(), vec![4, 3]);
}

#[test]
fn bundle_layout() {
    let rpx = b"RPXDATA".to_vec();
    let config = WuhbConfig {
        long_name: String::from("Long"),
        short_name: String::from("S"),
        icon: None,
        tv_image: None,
        drc_image: None,
        content: None,
    };
    let ini = b"[menu]\nlongname=Long\nshortname=S\nauthor=Me\n".to_vec();
    let out = from_rpx(rpx.clone(), config, "Me").unwrap();

    assert_eq!(&out[0..4], b"WUHB");
    assert_eq!(be32_at(&out, 4), 0x50);
    assert_eq!(be64_at(&out, 72), 0x200);

    // File contents: root.rpx at the start of the partition, meta.ini at
    // the next 16-byte boundary.
    assert_eq!(&out[0x200..0x207], &rpx[..]);
    assert_eq!(&out[0x210..0x210 + ini.len()], &ini[..]);

    let dir_hash = be64_at(&out, 8) as usize;
    assert_eq!(dir_hash, (0x210 + ini.len() + 3) / 4 * 4);
    assert_eq!(be64_at(&out, 16), 20);
    let dir_table = be64_at(&out, 24) as usize;
    assert_eq!(dir_table, dir_hash + 20);
    assert_eq!(be64_at(&out, 32), 104);
    let file_hash = be64_at(&out, 40) as usize;
    assert_eq!(file_hash, dir_table + 104);
    assert_eq!(be64_at(&out, 48), 12);
    let file_table = be64_at(&out, 56) as usize;
    assert_eq!(file_table, file_hash + 12);
    assert_eq!(be64_at(&out, 64), 80);
    assert_eq!(out.len(), file_table + 80);

    // Directory entries: root, code, meta.
    let root = dir_table;
    assert_eq!(be32_at(&out, root), 0);
    assert_eq!(be32_at(&out, root + 4), NONE);
    assert_eq!(be32_at(&out, root + 8), 24);
    assert_eq!(be32_at(&out, root + 12), NONE);
    assert_eq!(be32_at(&out, root + 20), 0);
    let code = dir_table + 24;
    assert_eq!(be32_at(&out, code + 4), 52);
    assert_eq!(be32_at(&out, code + 8), NONE);
    assert_eq!(be32_at(&out, code + 12), 0);
    assert_eq!(be32_at(&out, code + 20), 4);
    assert_eq!(&out[code + 24..code + 28], b"code");
    let meta = dir_table + 52;
    assert_eq!(be32_at(&out, meta + 4), NONE);
    assert_eq!(be32_at(&out, meta + 12), 40);
    assert_eq!(&out[meta + 24..meta + 28], b"meta");
    // The closing empty entry.
    assert_eq!(&out[dir_table + 80..dir_table + 104], &[0u8; 24][..]);

    // File entries: root.rpx, meta.ini.
    let f0 = file_table;
    assert_eq!(be32_at(&out, f0), 24);
    assert_eq!(be32_at(&out, f0 + 4), NONE);
    assert_eq!(be64_at(&out, f0 + 8), 0);
    assert_eq!(be64_at(&out, f0 + 16), 7);
    assert_eq!(be32_at(&out, f0 + 28), 8);
    assert_eq!(&out[f0 + 32..f0 + 40], b"root.rpx");
    let f1 = file_table + 40;
    assert_eq!(be32_at(&out, f1), 52);
    assert_eq!(be64_at(&out, f1 + 8), 16);
    assert_eq!(be64_at(&out, f1 + 16), ini.len() as u64);
    assert_eq!(&out[f1 + 32..f1 + 40], b"meta.ini");
}

#[test]
fn default_name_is_recognised() {
    assert!(cargo_wiiu::wuhb::is_default_name("Rust App"));
    assert!(!cargo_wiiu::wuhb::is_default_name("rust app"));
    assert!(!cargo_wiiu::wuhb::is_default_name(""));
}

#[test]
fn files_are_packed_at_16_byte_boundaries() {
    let mut fs = RomFs::new();
    let a = fs.add_folder(0, "a");
    fs.add_file(a, "one", vec![1; 20]);
    fs.add_file(0, "two", vec![2; 1]);
    fs.add_file(a, "three", vec![3; 33]);
    fs.calculate_folder_metadata().unwrap();
    fs.calculate_file_metadata().unwrap();
    let (dirs, files) = fs.calculate_hash_tables().unwrap();
    let out = fs.write_image(&dirs, &files).unwrap();
    // Depth-first order: the root's folder `a` with `one` and `three`, then `two`.
    assert_eq!(&out[0x200..0x200 + 20], &[1u8; 20][..]);
    assert_eq!(&out[0x220..0x220 + 33], &[3u8; 33][..]);
    assert_eq!(&out[0x250..0x251], &[2u8][..]);
    // File entries in the same order: `one` (0), `three` (36), `two` (76).
    // `one` records `three` as the next file of folder `a`; the last file of
    // each folder records none.
    let file_table = be64_at(&out, 56) as usize;
    assert_eq!(be32_at(&out, file_table + 4), 36);
    assert_eq!(be32_at(&out, file_table + 36 + 4), NONE);
    assert_eq!(be32_at(&out, file_table + 76 + 4), NONE);
    assert_eq!(&out[file_table + 36 + 32..file_table + 36 + 37], b"three");
    // Folder `a` records `one` as its first file, the root records `two`.
    let dir_table = be64_at(&out, 24) as usize;
    assert_eq!(be32_at(&out, dir_table + 12), 76);
    assert_eq!(be32_at(&out, dir_table + 24 + 12), 0);
}

#[test]
fn alignment_overflow_is_an_error() {
    assert_eq!(align_up_u32(5, 4), Ok(8));
    assert_eq!(align_up_u32(u32::MAX, 4), Err(WuhbError::Overflow));
    assert_eq!(align_up_u64(17, 16), Ok(32));
    assert_eq!(align_up_u64(u64::MAX - 1, 16), Err(WuhbError::Overflow));
}

fn table(entries: &[(&str, Option<&str>)]) -> Vec<(String, ManifestValue)> {
    entries
        .iter()
        .map(|(k, v)| {
            let value = match v {
                Some(s) => ManifestValue::Text(String::from(*s)),
                None => ManifestValue::Other,
            };
            (String::from(*k), value)
        })
        .collect()
}

#[test]
fn manifest_names_replace_only_defaults() {
    let mut given = WuhbConfig::default();
    given.short_name = String::from("Given");
    given.icon = Some(String::from("old.png"));
    let c = apply_manifest(
        given,
        table(&[("long-name", Some("Long")), ("short-name", Some("Short")), ("tv-image", Some("tv.tga"))]),
    )
    .ok()
    .unwrap();
    assert_eq!(c.long_name, "Long");
    assert_eq!(c.short_name, "Given");
    assert_eq!(c.icon, None);
    assert_eq!(c.tv_image, Some(String::from("tv.tga")));
    assert_eq!(c.drc_image, None);
    assert_eq!(c.content, None);
}

#[test]
fn manifest_first_non_string_is_refused() {
    let e = apply_manifest(
        WuhbConfig::default(),
        table(&[("content", None), ("icon", None), ("long-name", Some("L"))]),
    )
    .err()
    .unwrap();
    assert_eq!(e.key, "icon");
    // A name that is not the default does not consult its entry.
    let mut named = WuhbConfig::default();
    named.long_name = String::from("Mine");
    let e = apply_manifest(named, table(&[("long-name", None), ("short-name", None)])).err().unwrap();
    assert_eq!(e.key, "short-name");
}

#[test]
fn bucket_counts_fit_in_memory() {
    assert_eq!(bucket_count(20), Some(23));
    assert_eq!(bucket_count(2), Some(3));
    assert_eq!(bucket_count(usize::MAX), None);
    assert_eq!(bucket_count(usize::MAX / 4 + 1), None);
}
