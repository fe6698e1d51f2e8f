//! Reading a whole filesystem, from section bytes to file contents.

#![allow(dead_code)]

use std::io::Write;

use rdwarfs::format::header::SectionHeader;
use rdwarfs::format::image::Image;
use rdwarfs::format::integrity::{compute_sha512_256, compute_xxh3};
use rdwarfs::format::types::{Compression, SectionType};
use rdwarfs::fs::read::Filesystem;
use rdwarfs::fs::walk::WalkEntry;
use rdwarfs::Error;
use rdwarfs::fs::cache::BlockCache;
use rdwarfs::fs::inode::InodeKind;

fn varint(value: u64, out: &mut Vec<u8>) {
    let mut v = value;
    while v >= 0x80 {
        out.push((v & 0x7F) as u8 | 0x80);
        v >>= 7;
    }
    out.push(v as u8);
}

fn zigzag(value: i64, out: &mut Vec<u8>) {
    varint(((value << 1) ^ (value >> 63)) as u64, out);
}

fn field_header(prev: &mut i16, ttype: u8, id: i16, out: &mut Vec<u8>) {
    out.push((((id - *prev) as u8) << 4) | ttype);
    *prev = id;
}

/// A schema layout: size, bits, and fields as (id, layout, offset).
struct LayoutSpec {
    id: i16,
    size: i32,
    bits: i16,
    fields: Vec<(i16, i16, i16)>,
}

fn layout(id: i16, size: i32, bits: i16, fields: &[(i16, i16, i16)]) -> LayoutSpec {
    LayoutSpec {
        id,
        size,
        bits,
        fields: fields.to_vec(),
    }
}

fn encode_schema(layouts: &[LayoutSpec], root: i16) -> Vec<u8> {
    let mut out = Vec::new();
    let mut prev = 0i16;
    field_header(&mut prev, 11, 2, &mut out);
    varint(layouts.len() as u64, &mut out);
    out.push((4 << 4) | 12);
    for l in layouts {
        zigzag(l.id as i64, &mut out);
        let mut p = 0i16;
        if l.size != 0 {
            field_header(&mut p, 5, 1, &mut out);
            zigzag(l.size as i64, &mut out);
        }
        if l.bits != 0 {
            field_header(&mut p, 4, 2, &mut out);
            zigzag(l.bits as i64, &mut out);
        }
        if !l.fields.is_empty() {
            field_header(&mut p, 11, 3, &mut out);
            varint(l.fields.len() as u64, &mut out);
            out.push((4 << 4) | 12);
            for (id, target, offset) in &l.fields {
                zigzag(*id as i64, &mut out);
                let mut q = 0i16;
                field_header(&mut q, 4, 1, &mut out);
                zigzag(*target as i64, &mut out);
                field_header(&mut q, 4, 2, &mut out);
                zigzag(*offset as i64, &mut out);
                out.push(0);
            }
        }
        out.push(0);
    }
    field_header(&mut prev, 4, 3, &mut out);
    zigzag(root as i64, &mut out);
    field_header(&mut prev, 5, 4, &mut out);
    zigzag(1, &mut out);
    out.push(0);
    out
}

const U32: i16 = 1;
const U64: i16 = 2;
const BIT: i16 = 3;
const U32S: i16 = 4;
const U64S: i16 = 5;
const STRING: i16 = 6;
const STRINGS: i16 = 7;
const CHUNK: i16 = 8;
const CHUNKS: i16 = 9;
const DIRECTORY: i16 = 10;
const DIRECTORIES: i16 = 11;
const INODE: i16 = 12;
const INODES: i16 = 13;
const DIR_ENTRY: i16 = 14;
const DIR_ENTRIES: i16 = 15;
const OPTIONS: i16 = 16;
const MAYBE_OPTIONS: i16 = 17;
const MAYBE_U32: i16 = 18;
const MAYBE_U64: i16 = 19;
const ROOT: i16 = 20;

/// A metadata blob under construction: the root struct, then the data its
/// ranges point at.
struct Blob {
    bytes: Vec<u8>,
    next: usize,
    fields: Vec<(i16, i16, i16)>,
}

impl Blob {
    fn new() -> Self {
        Blob {
            bytes: vec![0u8; 400],
            next: 0,
            fields: Vec::new(),
        }
    }

    fn place(&mut self, id: i16, layout: i16, len: usize) -> usize {
        let at = self.next;
        self.next += len;
        self.fields.push((id, layout, at as i16));
        at
    }

    fn put32(&mut self, at: usize, value: u32) {
        self.bytes[at..at + 4].copy_from_slice(&value.to_le_bytes());
    }

    fn put64(&mut self, at: usize, value: u64) {
        self.bytes[at..at + 8].copy_from_slice(&value.to_le_bytes());
    }

    fn int32(&mut self, id: i16, value: u32) {
        let at = self.place(id, U32, 4);
        self.put32(at, value);
    }

    fn int64(&mut self, id: i16, value: u64) {
        let at = self.place(id, U64, 8);
        self.put64(at, value);
    }

    fn maybe32(&mut self, id: i16, value: u32) {
        let at = self.place(id, MAYBE_U32, 5);
        self.bytes[at] = 1;
        self.put32(at + 1, value);
    }

    fn maybe64(&mut self, id: i16, value: u64) {
        let at = self.place(id, MAYBE_U64, 9);
        self.bytes[at] = 1;
        self.put64(at + 1, value);
    }

    fn range(&mut self, at: usize, count: usize) {
        let data = self.bytes.len();
        self.put32(at, (data - at) as u32);
        self.put32(at + 4, count as u32);
    }

    fn rows(&mut self, id: i16, layout: i16, rows: &[Vec<u32>]) {
        let at = self.place(id, layout, 8);
        self.range(at, rows.len());
        for row in rows {
            for value in row {
                self.bytes.extend_from_slice(&value.to_le_bytes());
            }
        }
    }

    fn list32(&mut self, id: i16, values: &[u32]) {
        let rows: Vec<Vec<u32>> = values.iter().map(|v| vec![*v]).collect();
        self.rows(id, U32S, &rows);
    }

    fn list64(&mut self, id: i16, values: &[u64]) {
        let at = self.place(id, U64S, 8);
        self.range(at, values.len());
        for value in values {
            self.bytes.extend_from_slice(&value.to_le_bytes());
        }
    }

    fn strings(&mut self, id: i16, values: &[&[u8]]) {
        let at = self.place(id, STRINGS, 8);
        self.range(at, values.len());
        let first = self.bytes.len();
        self.bytes.extend(vec![0u8; values.len() * 8]);
        for (i, value) in values.iter().enumerate() {
            self.range(first + i * 8, value.len());
            self.bytes.extend_from_slice(value);
        }
    }
}

/// What a test varies about the sample filesystem.
#[derive(Clone)]
struct Sample {
    packed: bool,
    /// What a packed table records as the root's parent entry.
    root_parent: u32,
    mtime_only: bool,
    nlink: bool,
    compression: Compression,
    features: Vec<&'static [u8]>,
}

fn plain() -> Sample {
    Sample {
        packed: false,
        root_parent: 0,
        mtime_only: false,
        nlink: true,
        compression: Compression::Stored,
        features: vec![b"sparsefiles"],
    }
}

const BLOCK0: &[u8] = b"hellocontent";
const BLOCK1: &[u8] = b"morezzdup";

/// The schema and the metadata of the sample filesystem.
///
/// ```text
/// /a.txt         "hello"
/// /dir/file.txt  "contentmore", over two blocks
/// /dir/nested/
/// /dup1 /dup2    "dup", shared
/// /link          -> dir/file.txt
/// /null          character device 1:3
/// /pipe          FIFO
/// /sparse.bin    19 zero bytes, then "zz"
/// ```
fn sample_metadata(s: &Sample) -> (Vec<u8>, Vec<u8>) {
    let mut b = Blob::new();
    b.int32(15, 16);
    b.int64(12, 1_000);
    b.int64(16, 64);
    b.maybe64(36, 45);
    b.maybe32(26, 0x2f);
    b.maybe32(34, 99);
    b.list32(9, &[0o040755, 0o100644, 0o120777, 0o020666, 0o010644]);
    b.list32(7, &[0, 1000]);
    b.list32(8, &[0, 100]);
    let inode = |mode: u32, owner: u32, group: u32, at: u32, mt: u32, ct: u32, nlink: u32| {
        vec![mode, owner, group, at, mt, ct, nlink]
    };
    b.rows(
        3,
        INODES,
        &[
            inode(0, 0, 0, 1, 2, 3, 0),
            inode(0, 0, 0, 1, 2, 3, 0),
            inode(0, 1, 1, 1, 2, 3, 0),
            inode(2, 1, 1, 4, 5, 6, 0),
            inode(1, 1, 1, 7, 8, 9, 0),
            inode(1, 1, 1, 7, 8, 9, 0),
            inode(1, 1, 1, 7, 8, 9, 0),
            inode(1, 1, 1, 7, 8, 9, 1),
            inode(1, 1, 1, 7, 8, 9, 1),
            inode(3, 0, 0, 7, 8, 9, 0),
            inode(4, 0, 0, 7, 8, 9, 0),
        ],
    );
    let directories = if s.packed {
        vec![vec![s.root_parent, 1, 0], vec![0, 8, 0], vec![0, 2, 0], vec![0, 0, 0]]
    } else {
        vec![vec![0, 1, 0], vec![0, 9, 2], vec![2, 11, 10], vec![0, 11, 0]]
    };
    b.rows(2, DIRECTORIES, &directories);
    b.rows(
        19,
        DIR_ENTRIES,
        &[
            vec![0, 0],
            vec![1, 4],
            vec![2, 1],
            vec![3, 7],
            vec![4, 8],
            vec![5, 3],
            vec![6, 9],
            vec![7, 10],
            vec![8, 6],
            vec![9, 5],
            vec![10, 2],
        ],
    );
    b.rows(
        1,
        CHUNKS,
        &[
            vec![0, 0, 5],
            vec![0, 5, 7],
            vec![1, 0, 4],
            vec![99, 3, 1],
            vec![1, 4, 2],
            vec![1, 6, 3],
        ],
    );
    if s.packed {
        b.list32(4, &[0, 1, 2, 2, 1]);
    } else {
        b.list32(4, &[0, 1, 3, 5, 6]);
    }
    b.list32(6, &[0]);
    b.list32(20, &[0, 0]);
    b.list64(17, &[(1 << 32) | 3]);
    b.strings(
        10,
        &[
            b"",
            b"a.txt",
            b"dir",
            b"dup1",
            b"dup2",
            b"link",
            b"null",
            b"pipe",
            b"sparse.bin",
            b"file.txt",
            b"nested",
        ],
    );
    b.strings(11, &[b"dir/file.txt"]);
    b.strings(27, &s.features);
    b.strings(28, &[b"text", b"binary"]);
    b.list32(29, &[1, 0]);
    let at = b.place(18, MAYBE_OPTIONS, 3);
    b.bytes[at] = 1;
    let mut flags = 0u16;
    if s.mtime_only {
        flags |= 1 << 1;
    }
    if s.packed {
        flags |= (1 << 3) | (1 << 4);
    }
    if s.nlink {
        flags |= 1 << 8;
    }
    b.bytes[at + 1..at + 3].copy_from_slice(&flags.to_le_bytes());
    b.fields.sort();

    let range = [(1, U32, 0), (2, U32, 4)];
    let array = |item: i16| [(1, U32, 0), (2, U32, 4), (3, item, 0)];
    let layouts = vec![
        layout(U32, 0, 32, &[]),
        layout(U64, 0, 64, &[]),
        layout(BIT, 0, 1, &[]),
        layout(U32S, 8, 0, &array(U32)),
        layout(U64S, 8, 0, &array(U64)),
        layout(STRING, 8, 0, &range),
        layout(STRINGS, 8, 0, &array(STRING)),
        layout(CHUNK, 12, 0, &[(1, U32, 0), (2, U32, 4), (3, U32, 8)]),
        layout(CHUNKS, 8, 0, &array(CHUNK)),
        layout(DIRECTORY, 12, 0, &[(1, U32, 0), (2, U32, 4), (3, U32, 8)]),
        layout(DIRECTORIES, 8, 0, &array(DIRECTORY)),
        layout(
            INODE,
            28,
            0,
            &[
                (2, U32, 0),
                (4, U32, 4),
                (5, U32, 8),
                (6, U32, 12),
                (7, U32, 16),
                (8, U32, 20),
                (14, U32, 24),
            ],
        ),
        layout(INODES, 8, 0, &array(INODE)),
        layout(DIR_ENTRY, 8, 0, &[(1, U32, 0), (2, U32, 4)]),
        layout(DIR_ENTRIES, 8, 0, &array(DIR_ENTRY)),
        layout(
            OPTIONS,
            2,
            0,
            &[
                (1, BIT, -1),
                (3, BIT, -3),
                (4, BIT, -4),
                (5, BIT, -5),
                (7, BIT, -7),
                (8, BIT, -8),
            ],
        ),
        layout(MAYBE_OPTIONS, 3, 0, &[(1, BIT, 0), (2, OPTIONS, 1)]),
        layout(MAYBE_U32, 5, 0, &[(1, BIT, 0), (2, U32, 1)]),
        layout(MAYBE_U64, 9, 0, &[(1, BIT, 0), (2, U64, 1)]),
        layout(ROOT, 400, 0, &b.fields),
    ];
    (encode_schema(&layouts, ROOT), b.bytes)
}

fn encode_payload(compression: Compression, payload: &[u8]) -> Vec<u8> {
    match compression {
        Compression::Zstd => zstd::encode_all(payload, 3).expect("zstd"),
        Compression::Lz4 | Compression::Lz4Hc => {
            let mut out = (payload.len() as u32).to_le_bytes().to_vec();
            out.extend(lz4_flex::block::compress(payload));
            out
        }
        Compression::Lzma => liblzma::encode_all(payload, 6).expect("xz"),
        Compression::Brotli => {
            let mut out = Vec::new();
            varint(payload.len() as u64, &mut out);
            {
                let mut enc = brotli::CompressorWriter::new(&mut out, 4096, 6, 22);
                enc.write_all(payload).expect("brotli");
            }
            out
        }
        _ => payload.to_vec(),
    }
}

fn section(number: u32, kind: SectionType, compression: Compression, data: &[u8]) -> Vec<u8> {
    let payload = encode_payload(compression, data);
    let mut header = SectionHeader {
        major: 2,
        minor: 5,
        sha512_256: [0; 32],
        xxh3_64: 0,
        number,
        section_type: kind,
        compression,
        payload_len: payload.len() as u64,
    };
    let mut bytes = header.write().to_vec();
    bytes.extend_from_slice(&payload);
    header.xxh3_64 = compute_xxh3(&bytes);
    bytes[..64].copy_from_slice(&header.write());
    header.sha512_256 = compute_sha512_256(&bytes);
    bytes[..64].copy_from_slice(&header.write());
    bytes
}

fn sample_image(s: &Sample) -> Vec<u8> {
    let (schema, metadata) = sample_metadata(s);
    let mut out = section(0, SectionType::Block, s.compression, BLOCK0);
    out.extend(section(1, SectionType::Block, s.compression, BLOCK1));
    out.extend(section(2, SectionType::MetadataV2Schema, s.compression, &schema));
    out.extend(section(3, SectionType::MetadataV2, s.compression, &metadata));
    out
}

fn sample(s: &Sample) -> Filesystem {
    let image = Image::from_vec(sample_image(s)).expect("image opens");
    match Filesystem::open(image) {
        Ok(fs) => fs,
        Err(e) => panic!("filesystem opens: {}", e.to_string()),
    }
}

fn walk(fs: &Filesystem) -> Vec<WalkEntry> {
    assert!(fs.tree().has_finite_walk());
    fs.walk().expect("walk")
}

#[test]
fn a_filesystem_opens_with_every_codec() {
    for compression in [
        Compression::Stored,
        Compression::Zstd,
        Compression::Lz4,
        Compression::Lz4Hc,
        Compression::Lzma,
        Compression::Brotli,
    ] {
        let mut s = plain();
        s.compression = compression;
        let fs = sample(&s);
        let node = fs.lookup(b"/dir/file.txt").expect("lookup");
        assert_eq!(fs.read_file(node.inode).expect("read"), b"contentmore");
    }
}

#[test]
fn global_facts_come_from_the_metadata() {
    let fs = sample(&plain());
    assert_eq!(fs.block_size(), 16);
    assert_eq!(fs.block_count(), 2);
    assert_eq!(fs.inode_count(), 11);
    assert_eq!(fs.timestamp_base(), 1_000);
    assert_eq!(fs.total_fs_size(), 64);
    assert_eq!(fs.total_allocated_fs_size(), Some(45));
    assert_eq!(fs.preferred_path_separator(), Some(0x2f));
    assert_eq!(fs.features().to_vec(), vec!["sparsefiles".to_string()]);
    assert_eq!(fs.block_category(0), Some("binary"));
    assert_eq!(fs.block_category(1), Some("text"));
    assert_eq!(fs.block_category(2), None);
    assert_eq!(fs.category_names(), vec!["binary", "text"]);
    assert!(fs.options().inodes_have_nlink);
    let o = fs.offsets();
    assert_eq!(
        (o.dir_offset, o.symlink_offset, o.file_offset, o.shared_file_offset),
        (0, 3, 4, 7)
    );
    assert_eq!((o.device_offset, o.special_offset, o.total), (9, 10, 11));
    assert_eq!(fs.image().sections().len(), 4);
}

#[test]
fn unsupported_features_refuse_the_image() {
    let mut s = plain();
    s.features = vec![b"sparsefiles", b"timetravel"];
    let image = Image::from_vec(sample_image(&s)).expect("image opens");
    match Filesystem::open(image) {
        Err(Error::UnsupportedFeature { name }) => assert_eq!(name, "timetravel"),
        Err(e) => panic!("unexpected {}", e.to_string()),
        Ok(_) => panic!("an unknown feature must refuse the image"),
    }
}

#[test]
fn an_image_without_metadata_has_no_filesystem() {
    let image = Image::from_vec(section(0, SectionType::Block, Compression::Stored, b"x")).unwrap();
    match Filesystem::open(image) {
        Err(e) => assert_eq!(
            e.to_string(),
            "decode error in fs: required section type MetadataV2Schema missing"
        ),
        Ok(_) => panic!("no metadata"),
    }
}

#[test]
fn stat_reports_every_attribute() {
    let fs = sample(&plain());
    let file = fs.stat(5).expect("stat");
    assert_eq!(file.kind, InodeKind::Regular);
    assert_eq!(file.mode, 0o100644);
    assert_eq!((file.uid, file.gid), (1000, 100));
    assert_eq!((file.atime, file.mtime, file.ctime), (1_007, 1_008, 1_009));
    assert_eq!(file.size, 11);
    assert_eq!((file.nlink, file.rdev), (1, 0));
    assert_eq!(fs.stat(7).expect("stat").nlink, 2);
    let device = fs.stat(9).expect("stat");
    assert_eq!(device.kind, InodeKind::CharDevice);
    assert_eq!(device.rdev, (1 << 32) | 3);
    assert_eq!(device.size, 0);
    assert_eq!(fs.stat(10).expect("stat").kind, InodeKind::Fifo);
    assert_eq!(
        fs.stat(11).unwrap_err().to_string(),
        "decode error in fs: inode 11 out of 11 entries"
    );
}

#[test]
fn an_image_of_modification_times_reports_them_as_all_times() {
    let mut s = plain();
    s.mtime_only = true;
    s.nlink = false;
    let fs = sample(&s);
    let file = fs.stat(7).expect("stat");
    assert_eq!((file.atime, file.mtime, file.ctime), (1_008, 1_008, 1_008));
    assert_eq!(file.nlink, 1);
}

#[test]
fn listings_lookups_and_walks_agree() {
    for packed in [false, true] {
        let mut s = plain();
        s.packed = packed;
        let fs = sample(&s);
        let root: Vec<Vec<u8>> = fs
            .read_dir(0)
            .expect("root")
            .into_iter()
            .map(|l| l.name)
            .collect();
        assert_eq!(root[0], b"a.txt");
        assert_eq!(root.len(), 8);
        let paths: Vec<Vec<u8>> = walk(&fs).into_iter().map(|e| e.path).collect();
        let want: Vec<&[u8]> = vec![
            b"",
            b"/a.txt",
            b"/dir",
            b"/dir/file.txt",
            b"/dir/nested",
            b"/dup1",
            b"/dup2",
            b"/link",
            b"/null",
            b"/pipe",
            b"/sparse.bin",
        ];
        assert_eq!(paths, want);
        for entry in walk(&fs) {
            let node = fs.lookup(&entry.path).expect("lookup");
            assert_eq!((node.inode, node.kind), (entry.inode, entry.kind));
        }
        assert_eq!(fs.lookup_child(1, b"nested").expect("child"), Some(2));
        assert_eq!(fs.lookup_child(1, b"absent").expect("child"), None);
        assert_eq!(fs.lookup(b"dir//file.txt/").expect("lookup").inode, 5);
    }
}

#[test]
fn failed_lookups_name_the_component() {
    let fs = sample(&plain());
    assert_eq!(
        fs.lookup(b"/dir/no\"pe").unwrap_err().to_string(),
        "decode error in fs: no entry \"no\\\"pe\" in inode 1"
    );
    assert_eq!(
        fs.lookup(b"/a.txt/x\xff").unwrap_err().to_string(),
        "decode error in fs: component \"x\u{fffd}\" not under directory"
    );
}

#[test]
fn packed_and_unpacked_directories_have_the_same_parents() {
    for packed in [false, true] {
        let mut s = plain();
        s.packed = packed;
        let fs = sample(&s);
        assert_eq!(fs.parent(0).expect("root"), 0, "the root is its own parent");
        assert_eq!(fs.parent(1).expect("dir"), 0);
        assert_eq!(fs.parent(2).expect("nested"), 1);
        assert_eq!(
            fs.parent(4).unwrap_err().to_string(),
            "decode error in fs: inode 4 is not a directory"
        );
    }
}

#[test]
fn a_packed_table_records_no_parent_of_the_root() {
    let mut s = plain();
    s.packed = true;
    s.root_parent = 10;
    let fs = sample(&s);
    assert_eq!(fs.parent(0).expect("root"), 0);
    assert_eq!(fs.parent(1).expect("dir"), 0);
}

#[test]
fn every_listed_directory_has_its_lister_as_parent() {
    for packed in [false, true] {
        let mut s = plain();
        s.packed = packed;
        let fs = sample(&s);
        for entry in walk(&fs) {
            if entry.kind == InodeKind::Directory {
                for child in fs.read_dir(entry.inode).expect("listing") {
                    if child.kind == InodeKind::Directory {
                        assert_eq!(fs.parent(child.inode).expect("parent"), entry.inode);
                    }
                }
            }
        }
    }
}

#[test]
fn a_walk_is_the_tree_in_pre_order() {
    fn below(fs: &Filesystem, path: &[u8], inode: u32, out: &mut Vec<(Vec<u8>, u32)>) {
        out.push((path.to_vec(), inode));
        if fs.kind(inode).expect("kind") == InodeKind::Directory {
            for child in fs.read_dir(inode).expect("listing") {
                let mut next = path.to_vec();
                next.push(b'/');
                next.extend_from_slice(&child.name);
                below(fs, &next, child.inode, out);
            }
        }
    }
    let fs = sample(&plain());
    let mut want = Vec::new();
    below(&fs, b"", 0, &mut want);
    let got: Vec<(Vec<u8>, u32)> = walk(&fs).into_iter().map(|e| (e.path, e.inode)).collect();
    assert_eq!(got, want);
}

#[test]
fn only_walked_paths_lead_somewhere() {
    let fs = sample(&plain());
    for path in [&b"/absent"[..], b"/dir/a.txt", b"/dir/nested/x", b"/a.txt/", b"/DIR"] {
        let mut normal = Vec::new();
        for part in path.split(|b| *b == b'/').filter(|p| !p.is_empty()) {
            normal.push(b'/');
            normal.extend_from_slice(part);
        }
        let walked = walk(&fs).into_iter().any(|e| e.path == normal);
        assert_eq!(fs.lookup(path).is_ok(), walked);
    }
}

#[test]
fn refused_reads_leave_the_buffer_and_the_cache_alone() {
    let fs = sample(&plain());
    let mut cache = BlockCache::new(64);
    assert_eq!(fs.read_at(4, 0, 5, &mut cache).expect("read"), b"hello");
    let held = cache.resident_bytes();
    for inode in [0u32, 3, 9, 10, 99] {
        let mut buf = [7u8; 8];
        assert!(fs.read_into(inode, 0, &mut buf, &mut cache).is_err());
        assert_eq!(buf, [7u8; 8]);
        assert_eq!(cache.resident_bytes(), held);
    }
}

#[test]
fn reads_stay_within_the_cache_budget() {
    let fs = sample(&plain());
    for budget in [0usize, 1, 9, 12, 16, 20, 21, 64] {
        let mut cache = BlockCache::new(budget);
        for inode in [4u32, 5, 7, 6, 5, 4] {
            let size = fs.file_size(inode).expect("size");
            fs.read_at(inode, 0, size, &mut cache).expect("read");
            assert_eq!(cache.budget(), budget);
            let held = cache.resident_bytes();
            let one = held == BLOCK0.len() || held == BLOCK1.len();
            assert!(held <= budget || one);
        }
    }
    // Both blocks fit, so both stay.
    let mut cache = BlockCache::new(BLOCK0.len() + BLOCK1.len());
    fs.read_at(5, 0, 11, &mut cache).expect("read");
    assert_eq!(cache.resident(0), Some(BLOCK0));
    assert_eq!(cache.resident(1), Some(BLOCK1));
}

#[test]
fn links_and_devices_resolve() {
    let fs = sample(&plain());
    assert_eq!(fs.read_link(3).expect("link"), b"dir/file.txt");
    assert_eq!(
        fs.read_link(4).unwrap_err().to_string(),
        "decode error in fs: inode 4 is not a symlink"
    );
    assert_eq!(fs.device_rdev(9).expect("device"), (1 << 32) | 3);
    assert!(fs.device_rdev(10).is_err());
}

#[test]
fn contents_come_from_chunks_holes_and_shared_groups() {
    let fs = sample(&plain());
    assert_eq!(fs.read_file(4).expect("a.txt"), b"hello");
    assert_eq!(fs.read_file(5).expect("file.txt"), b"contentmore");
    let mut sparse = vec![0u8; 19];
    sparse.extend_from_slice(b"zz");
    assert_eq!(fs.read_file(6).expect("sparse.bin"), sparse);
    assert_eq!(fs.read_file(7).expect("dup1"), b"dup");
    assert_eq!(fs.read_file(8).expect("dup2"), b"dup");
    assert_eq!(fs.content_id(7).expect("id"), fs.content_id(8).expect("id"));
    assert_ne!(fs.content_id(4).expect("id"), fs.content_id(5).expect("id"));
    assert_eq!(fs.file_size(0).expect("directory"), 0);
    assert_eq!(
        fs.read_file(0).unwrap_err().to_string(),
        "decode error in fs: inode 0 is not a regular file"
    );
    assert_eq!(fs.first_block(5), Some(0));
    assert_eq!(fs.first_block(7), Some(1));
    assert_eq!(fs.first_block(0), None);
    assert_eq!(fs.blocks_in_range(5, 0, 11).expect("blocks"), vec![0, 1]);
    assert_eq!(fs.blocks_in_range(5, 7, 4).expect("blocks"), vec![1]);
    assert!(fs.blocks_in_range(6, 0, 19).expect("blocks").is_empty());
}

#[test]
fn every_range_reads_that_part_of_the_file() {
    let fs = sample(&plain());
    for inode in [4u32, 5, 6, 7] {
        let whole = fs.read_file(inode).expect("whole");
        let mut cache = BlockCache::new(16);
        for start in 0..=whole.len() + 2 {
            for len in 0..=whole.len() + 2 {
                let end = (start + len).min(whole.len());
                let want: &[u8] = if start < end { &whole[start..end] } else { &[] };
                let got = fs
                    .read_at(inode, start as u64, len as u64, &mut cache)
                    .expect("range");
                assert_eq!(got, want);
                let mut buf = vec![7u8; len];
                let n = fs
                    .read_into(inode, start as u64, &mut buf, &mut cache)
                    .expect("range");
                assert_eq!(&buf[..n], want);
                assert!(buf[n..].iter().all(|b| *b == 7), "the rest is untouched");
                if let Some(slice) = fs
                    .read_borrowed(inode, start as u64, len, &mut cache)
                    .expect("borrow")
                {
                    if start < whole.len() {
                        assert_eq!(slice, want);
                    } else {
                        assert!(slice.is_empty());
                    }
                }
            }
        }
    }
}

#[test]
fn borrowed_reads_stay_inside_one_chunk() {
    let fs = sample(&plain());
    let mut cache = BlockCache::new(0);
    assert_eq!(
        fs.read_borrowed(5, 2, 5, &mut cache).expect("borrow"),
        Some(&b"ntent"[..])
    );
    assert_eq!(fs.read_borrowed(5, 5, 4, &mut cache).expect("borrow"), None);
    assert_eq!(fs.read_borrowed(6, 3, 4, &mut cache).expect("borrow"), None);
    assert_eq!(fs.read_borrowed(5, 11, 1, &mut cache).expect("borrow"), None);
    assert_eq!(
        fs.read_borrowed(5, 99, 0, &mut cache).expect("borrow"),
        Some(&b""[..])
    );
}

#[test]
fn reads_keep_the_blocks_they_decode() {
    let fs = sample(&plain());
    let mut cache = BlockCache::new(1 << 20);
    assert_eq!(fs.read_at(5, 0, 11, &mut cache).expect("read"), b"contentmore");
    assert_eq!(cache.resident_bytes(), BLOCK0.len() + BLOCK1.len());
    assert_eq!(cache.resident(0), Some(BLOCK0));
    cache.clear();
    assert_eq!(cache.resident_bytes(), 0);
}

#[test]
fn a_corrupt_block_fails_only_the_reads_that_need_it() {
    let mut bytes = sample_image(&plain());
    bytes[64] ^= 1;
    let fs = Filesystem::open(Image::from_vec(bytes).expect("image")).expect("filesystem");
    assert!(matches!(
        fs.read_file(4),
        Err(Error::IntegrityMismatch { number: 0, .. })
    ));
    assert_eq!(fs.read_file(7).expect("other block"), b"dup");
    assert!(fs.load_block(0).is_err());
    assert_eq!(
        fs.load_block(2).unwrap_err().to_string(),
        "decode error in fs: block 2 out of range"
    );
}
