//! What the extractor, the archiver, the mount and the reports make of a filesystem.

#![allow(dead_code)]

use std::io::Write;

use rdwarfs::format::header::SectionHeader;
use rdwarfs::format::image::Image;
use rdwarfs::format::integrity::{compute_sha512_256, compute_xxh3};
use rdwarfs::format::types::{Compression, SectionType};
use rdwarfs::fs::read::Filesystem;
use rdwarfs::fs::walk::WalkEntry;
use rdwarfs::cli::checksum::{
    Algorithm, Digester, checksum_line, file_checksum, hex_encode, list_line, parse_algorithm,
};
use rdwarfs::cli::details::{
    HistoryOutcome, history_report, image_table_sizes, metadata_report, offsets_report,
    section_history,
};
use rdwarfs::cli::json::{export_line, json_string, json_summary};
use rdwarfs::cli::report::{decoded_len, summary};
use rdwarfs::fs::cache::BlockCache;
use rdwarfs::fs::extract::{
    Done, ExtractOptions, Extraction, FileCursor, FileStep, extract_cache_bytes, plan_writers,
    select_entries, stream_buffer_len,
};
use rdwarfs::fs::glob::{glob_bytes, glob_match};
use rdwarfs::fs::inode::InodeKind;
use rdwarfs::fs::tar::{TarKind, tar_cache_bytes, tar_entry, tar_path};
use rdwarfs::fuse::{self, DwarfsFuse, Failure};

fn varint(value: u64, out: &mut Vec<u8>) {
    let mut v = value;
    while v >= 0x80 {
        out.push((v & 0x7F) as u8 | 0x80);
        v >>= 7;
    }
    out.push(v as u8);
}

fn zigzag(value: i64, out: &mut Vec<u8>) {
    varint(((value << 1) ^ (value >> 63)) as u64, out);
}

fn field_header(prev: &mut i16, ttype: u8, id: i16, out: &mut Vec<u8>) {
    out.push((((id - *prev) as u8) << 4) | ttype);
    *prev = id;
}

/// A schema layout: size, bits, and fields as (id, layout, offset).
struct LayoutSpec {
    id: i16,
    size: i32,
    bits: i16,
    fields: Vec<(i16, i16, i16)>,
}

fn layout(id: i16, size: i32, bits: i16, fields: &[(i16, i16, i16)]) -> LayoutSpec {
    LayoutSpec {
        id,
        size,
        bits,
        fields: fields.to_vec(),
    }
}

fn encode_schema(layouts: &[LayoutSpec], root: i16) -> Vec<u8> {
    let mut out = Vec::new();
    let mut prev = 0i16;
    field_header(&mut prev, 11, 2, &mut out);
    varint(layouts.len() as u64, &mut out);
    out.push((4 << 4) | 12);
    for l in layouts {
        zigzag(l.id as i64, &mut out);
        let mut p = 0i16;
        if l.size != 0 {
            field_header(&mut p, 5, 1, &mut out);
            zigzag(l.size as i64, &mut out);
        }
        if l.bits != 0 {
            field_header(&mut p, 4, 2, &mut out);
            zigzag(l.bits as i64, &mut out);
        }
        if !l.fields.is_empty() {
            field_header(&mut p, 11, 3, &mut out);
            varint(l.fields.len() as u64, &mut out);
            out.push((4 << 4) | 12);
            for (id, target, offset) in &l.fields {
                zigzag(*id as i64, &mut out);
                let mut q = 0i16;
                field_header(&mut q, 4, 1, &mut out);
                zigzag(*target as i64, &mut out);
                field_header(&mut q, 4, 2, &mut out);
                zigzag(*offset as i64, &mut out);
                out.push(0);
            }
        }
        out.push(0);
    }
    field_header(&mut prev, 4, 3, &mut out);
    zigzag(root as i64, &mut out);
    field_header(&mut prev, 5, 4, &mut out);
    zigzag(1, &mut out);
    out.push(0);
    out
}

const U32: i16 = 1;
const U64: i16 = 2;
const BIT: i16 = 3;
const U32S: i16 = 4;
const U64S: i16 = 5;
const STRING: i16 = 6;
const STRINGS: i16 = 7;
const CHUNK: i16 = 8;
const CHUNKS: i16 = 9;
const DIRECTORY: i16 = 10;
const DIRECTORIES: i16 = 11;
const INODE: i16 = 12;
const INODES: i16 = 13;
const DIR_ENTRY: i16 = 14;
const DIR_ENTRIES: i16 = 15;
const OPTIONS: i16 = 16;
const MAYBE_OPTIONS: i16 = 17;
const MAYBE_U32: i16 = 18;
const MAYBE_U64: i16 = 19;
const ROOT: i16 = 20;

/// A metadata blob under construction: the root struct, then the data its
/// ranges point at.
struct Blob {
    bytes: Vec<u8>,
    next: usize,
    fields: Vec<(i16, i16, i16)>,
}

impl Blob {
    fn new() -> Self {
        Blob {
            bytes: vec![0u8; 400],
            next: 0,
            fields: Vec::new(),
        }
    }

    fn place(&mut self, id: i16, layout: i16, len: usize) -> usize {
        let at = self.next;
        self.next += len;
        self.fields.push((id, layout, at as i16));
        at
    }

    fn put32(&mut self, at: usize, value: u32) {
        self.bytes[at..at + 4].copy_from_slice(&value.to_le_bytes());
    }

    fn put64(&mut self, at: usize, value: u64) {
        self.bytes[at..at + 8].copy_from_slice(&value.to_le_bytes());
    }

    fn int32(&mut self, id: i16, value: u32) {
        let at = self.place(id, U32, 4);
        self.put32(at, value);
    }

    fn int64(&mut self, id: i16, value: u64) {
        let at = self.place(id, U64, 8);
        self.put64(at, value);
    }

    fn maybe32(&mut self, id: i16, value: u32) {
        let at = self.place(id, MAYBE_U32, 5);
        self.bytes[at] = 1;
        self.put32(at + 1, value);
    }

    fn maybe64(&mut self, id: i16, value: u64) {
        let at = self.place(id, MAYBE_U64, 9);
        self.bytes[at] = 1;
        self.put64(at + 1, value);
    }

    fn range(&mut self, at: usize, count: usize) {
        let data = self.bytes.len();
        self.put32(at, (data - at) as u32);
        self.put32(at + 4, count as u32);
    }

    fn rows(&mut self, id: i16, layout: i16, rows: &[Vec<u32>]) {
        let at = self.place(id, layout, 8);
        self.range(at, rows.len());
        for row in rows {
            for value in row {
                self.bytes.extend_from_slice(&value.to_le_bytes());
            }
        }
    }

    fn list32(&mut self, id: i16, values: &[u32]) {
        let rows: Vec<Vec<u32>> = values.iter().map(|v| vec![*v]).collect();
        self.rows(id, U32S, &rows);
    }

    fn list64(&mut self, id: i16, values: &[u64]) {
        let at = self.place(id, U64S, 8);
        self.range(at, values.len());
        for value in values {
            self.bytes.extend_from_slice(&value.to_le_bytes());
        }
    }

    fn strings(&mut self, id: i16, values: &[&[u8]]) {
        let at = self.place(id, STRINGS, 8);
        self.range(at, values.len());
        let first = self.bytes.len();
        self.bytes.extend(vec![0u8; values.len() * 8]);
        for (i, value) in values.iter().enumerate() {
            self.range(first + i * 8, value.len());
            self.bytes.extend_from_slice(value);
        }
    }
}

/// What a test varies about the sample filesystem.
#[derive(Clone)]
struct Sample {
    packed: bool,
    /// What a packed table records as the root's parent entry.
    root_parent: u32,
    mtime_only: bool,
    nlink: bool,
    compression: Compression,
    features: Vec<&'static [u8]>,
    /// The length of the hole in `/sparse.bin`, where a chunk cannot hold
    /// it.
    large_hole: Option<u64>,
}

fn plain() -> Sample {
    Sample {
        packed: false,
        root_parent: 0,
        mtime_only: false,
        nlink: true,
        compression: Compression::Stored,
        features: vec![b"sparsefiles"],
        large_hole: None,
    }
}

const BLOCK0: &[u8] = b"hellocontent";
const BLOCK1: &[u8] = b"morezzdup";

/// The schema and the metadata of the sample filesystem.
///
/// ```text
/// /a.txt         "hello"
/// /dir/file.txt  "contentmore", over two blocks
/// /dir/nested/
/// /dup1 /dup2    "dup", shared
/// /link          -> dir/file.txt
/// /null          character device 1:3
/// /pipe          FIFO
/// /sparse.bin    19 zero bytes, then "zz"
/// ```
fn sample_metadata(s: &Sample) -> (Vec<u8>, Vec<u8>) {
    let mut b = Blob::new();
    b.int32(15, 16);
    b.int64(12, 1_000);
    b.int64(16, 64);
    b.maybe64(36, 45);
    b.maybe32(26, 0x2f);
    b.maybe32(34, 99);
    b.list32(9, &[0o040755, 0o100644, 0o120777, 0o020666, 0o010644]);
    b.list32(7, &[0, 1000]);
    b.list32(8, &[0, 100]);
    let inode = |mode: u32, owner: u32, group: u32, at: u32, mt: u32, ct: u32, nlink: u32| {
        vec![mode, owner, group, at, mt, ct, nlink]
    };
    b.rows(
        3,
        INODES,
        &[
            inode(0, 0, 0, 1, 2, 3, 0),
            inode(0, 0, 0, 1, 2, 3, 0),
            inode(0, 1, 1, 1, 2, 3, 0),
            inode(2, 1, 1, 4, 5, 6, 0),
            inode(1, 1, 1, 7, 8, 9, 0),
            inode(1, 1, 1, 7, 8, 9, 0),
            inode(1, 1, 1, 7, 8, 9, 0),
            inode(1, 1, 1, 7, 8, 9, 1),
            inode(1, 1, 1, 7, 8, 9, 1),
            inode(3, 0, 0, 7, 8, 9, 0),
            inode(4, 0, 0, 7, 8, 9, 0),
        ],
    );
    let directories = if s.packed {
        vec![vec![s.root_parent, 1, 0], vec![0, 8, 0], vec![0, 2, 0], vec![0, 0, 0]]
    } else {
        vec![vec![0, 1, 0], vec![0, 9, 2], vec![2, 11, 10], vec![0, 11, 0]]
    };
    b.rows(2, DIRECTORIES, &directories);
    b.rows(
        19,
        DIR_ENTRIES,
        &[
            vec![0, 0],
            vec![1, 4],
            vec![2, 1],
            vec![3, 7],
            vec![4, 8],
            vec![5, 3],
            vec![6, 9],
            vec![7, 10],
            vec![8, 6],
            vec![9, 5],
            vec![10, 2],
        ],
    );
    b.rows(
        1,
        CHUNKS,
        &[
            vec![0, 0, 5],
            vec![0, 5, 7],
            vec![1, 0, 4],
            match s.large_hole {
                None => vec![99, 3, 1],
                Some(_) => vec![99, u32::MAX, 0],
            },
            vec![1, 4, 2],
            vec![1, 6, 3],
        ],
    );
    if s.packed {
        b.list32(4, &[0, 1, 2, 2, 1]);
    } else {
        b.list32(4, &[0, 1, 3, 5, 6]);
    }
    b.list32(6, &[0]);
    b.list32(20, &[0, 0]);
    b.list64(17, &[(1 << 32) | 3]);
    if let Some(len) = s.large_hole {
        b.list64(35, &[len]);
    }
    b.strings(
        10,
        &[
            b"",
            b"a.txt",
            b"dir",
            b"dup1",
            b"dup2",
            b"link",
            b"null",
            b"pipe",
            b"sparse.bin",
            b"file.txt",
            b"nested",
        ],
    );
    b.strings(11, &[b"dir/file.txt"]);
    b.strings(27, &s.features);
    b.strings(28, &[b"text", b"binary"]);
    b.list32(29, &[1, 0]);
    let at = b.place(18, MAYBE_OPTIONS, 3);
    b.bytes[at] = 1;
    let mut flags = 0u16;
    if s.mtime_only {
        flags |= 1 << 1;
    }
    if s.packed {
        flags |= (1 << 3) | (1 << 4);
    }
    if s.nlink {
        flags |= 1 << 8;
    }
    b.bytes[at + 1..at + 3].copy_from_slice(&flags.to_le_bytes());
    b.fields.sort();

    let range = [(1, U32, 0), (2, U32, 4)];
    let array = |item: i16| [(1, U32, 0), (2, U32, 4), (3, item, 0)];
    let layouts = vec![
        layout(U32, 0, 32, &[]),
        layout(U64, 0, 64, &[]),
        layout(BIT, 0, 1, &[]),
        layout(U32S, 8, 0, &array(U32)),
        layout(U64S, 8, 0, &array(U64)),
        layout(STRING, 8, 0, &range),
        layout(STRINGS, 8, 0, &array(STRING)),
        layout(CHUNK, 12, 0, &[(1, U32, 0), (2, U32, 4), (3, U32, 8)]),
        layout(CHUNKS, 8, 0, &array(CHUNK)),
        layout(DIRECTORY, 12, 0, &[(1, U32, 0), (2, U32, 4), (3, U32, 8)]),
        layout(DIRECTORIES, 8, 0, &array(DIRECTORY)),
        layout(
            INODE,
            28,
            0,
            &[
                (2, U32, 0),
                (4, U32, 4),
                (5, U32, 8),
                (6, U32, 12),
                (7, U32, 16),
                (8, U32, 20),
                (14, U32, 24),
            ],
        ),
        layout(INODES, 8, 0, &array(INODE)),
        layout(DIR_ENTRY, 8, 0, &[(1, U32, 0), (2, U32, 4)]),
        layout(DIR_ENTRIES, 8, 0, &array(DIR_ENTRY)),
        layout(
            OPTIONS,
            2,
            0,
            &[
                (1, BIT, -1),
                (3, BIT, -3),
                (4, BIT, -4),
                (5, BIT, -5),
                (7, BIT, -7),
                (8, BIT, -8),
            ],
        ),
        layout(MAYBE_OPTIONS, 3, 0, &[(1, BIT, 0), (2, OPTIONS, 1)]),
        layout(MAYBE_U32, 5, 0, &[(1, BIT, 0), (2, U32, 1)]),
        layout(MAYBE_U64, 9, 0, &[(1, BIT, 0), (2, U64, 1)]),
        layout(ROOT, 400, 0, &b.fields),
    ];
    (encode_schema(&layouts, ROOT), b.bytes)
}

fn encode_payload(compression: Compression, payload: &[u8]) -> Vec<u8> {
    match compression {
        Compression::Zstd => zstd::encode_all(payload, 3).expect("zstd"),
        Compression::Lz4 | Compression::Lz4Hc => {
            let mut out = (payload.len() as u32).to_le_bytes().to_vec();
            out.extend(lz4_flex::block::compress(payload));
            out
        }
        Compression::Lzma => liblzma::encode_all(payload, 6).expect("xz"),
        Compression::Brotli => {
            let mut out = Vec::new();
            varint(payload.len() as u64, &mut out);
            {
                let mut enc = brotli::CompressorWriter::new(&mut out, 4096, 6, 22);
                enc.write_all(payload).expect("brotli");
            }
            out
        }
        _ => payload.to_vec(),
    }
}

fn section(number: u32, kind: SectionType, compression: Compression, data: &[u8]) -> Vec<u8> {
    let payload = encode_payload(compression, data);
    let mut header = SectionHeader {
        major: 2,
        minor: 5,
        sha512_256: [0; 32],
        xxh3_64: 0,
        number,
        section_type: kind,
        compression,
        payload_len: payload.len() as u64,
    };
    let mut bytes = header.write().to_vec();
    bytes.extend_from_slice(&payload);
    header.xxh3_64 = compute_xxh3(&bytes);
    bytes[..64].copy_from_slice(&header.write());
    header.sha512_256 = compute_sha512_256(&bytes);
    bytes[..64].copy_from_slice(&header.write());
    bytes
}

fn sample_image(s: &Sample) -> Vec<u8> {
    let (schema, metadata) = sample_metadata(s);
    let mut out = section(0, SectionType::Block, s.compression, BLOCK0);
    out.extend(section(1, SectionType::Block, s.compression, BLOCK1));
    out.extend(section(2, SectionType::MetadataV2Schema, s.compression, &schema));
    out.extend(section(3, SectionType::MetadataV2, s.compression, &metadata));
    out
}

fn sample(s: &Sample) -> Filesystem {
    let image = Image::from_vec(sample_image(s)).expect("image opens");
    match Filesystem::open(image) {
        Ok(fs) => fs,
        Err(e) => panic!("filesystem opens: {}", e.to_string()),
    }
}

fn walk(fs: &Filesystem) -> Vec<WalkEntry> {
    assert!(fs.tree().has_finite_walk());
    fs.walk().expect("walk")
}

#[test]
fn globs_match_like_a_shell() {
    assert!(glob_match("*.txt", "a.txt"));
    assert!(!glob_match("*.txt", "dir/a.txt"));
    assert!(glob_match("dir/*", "dir/a.txt"));
    assert!(glob_match("?.txt", "a.txt"));
    assert!(!glob_match("?", "/"));
    assert!(glob_match("[a-c]x", "bx"));
    assert!(glob_match("[xyz-]", "-"));
    assert!(!glob_match("[a-c]x", "dx"));
    assert!(glob_match("", ""));
    assert_eq!(glob_bytes(b"[ab", b"c"), Some(false));
    assert_eq!(glob_bytes(b"[ab", b"a"), None);
    assert_eq!(glob_bytes(b"*[ab", b"xa"), None);
}

#[test]
fn patterns_keep_the_root_and_what_matches() {
    let fs = sample(&plain());
    let mut options = ExtractOptions::new();
    assert!(options.hardlink_shared && !options.continue_on_error);
    assert!(ExtractOptions::default().hardlink_shared);
    options.include_patterns = vec!["*.txt".to_string(), "dir/*".to_string()];
    let kept: Vec<Vec<u8>> = select_entries(walk(&fs), &options)
        .expect("patterns")
        .into_iter()
        .map(|e| e.path)
        .collect();
    let want: Vec<&[u8]> = vec![b"", b"/a.txt", b"/dir/file.txt", b"/dir/nested"];
    assert_eq!(kept, want);
    options.include_patterns = vec!["dir".to_string()];
    let kept = select_entries(walk(&fs), &options).expect("patterns");
    assert_eq!(kept.len(), 2, "the root and the directory that matches");
    assert_eq!(kept[1].path, b"/dir");
    options.include_patterns = vec!["[a".to_string()];
    assert!(select_entries(walk(&fs), &options).is_none());
}

#[test]
fn each_content_has_one_writer_in_block_order() {
    let fs = sample(&plain());
    let entries = walk(&fs);
    let order = plan_writers(fs.tree(), &entries).expect("plan");
    let inodes: Vec<u32> = order.iter().map(|i| entries[*i].inode).collect();
    assert_eq!(inodes, vec![4, 5, 7, 6]);
}

#[test]
fn an_extraction_counts_links_and_failures() {
    let options = ExtractOptions::new();
    let mut x = Extraction::new(&options);
    assert_eq!(x.file_step(3, false), FileStep::Write);
    x.wrote(3, 5);
    x.succeeded(Done::File);
    assert_eq!(x.writer_of(3), Some(5));
    assert_eq!(x.file_step(3, true), FileStep::Skip);
    assert_eq!(x.file_step(3, false), FileStep::Link(5));
    x.succeeded(Done::Hardlink);
    x.succeeded(Done::Directory);
    x.succeeded(Done::Symlink);
    x.succeeded(Done::Skipped);
    assert!(!x.failed(), "errors abort by default");
    let stats = x.finish().expect("stats");
    assert_eq!(
        (stats.files, stats.hardlinks, stats.directories, stats.symlinks, stats.skipped),
        (1, 1, 1, 1, 1)
    );
    assert_eq!(stats.errors, 0);

    let options = ExtractOptions {
        continue_on_error: true,
        hardlink_shared: false,
        include_patterns: Vec::new(),
    };
    let mut x = Extraction::new(&options);
    x.wrote(1, 2);
    assert_eq!(x.file_step(1, false), FileStep::Copy(2));
    assert!(x.failed());
    assert!(x.failed());
    assert_eq!(
        x.finish().unwrap_err().to_string(),
        "decode error in fs-extract: 2 entries failed during extraction"
    );
}

#[test]
fn a_whole_extraction_counts_every_entry() {
    let fs = sample(&plain());
    for hardlink_shared in [true, false] {
        let mut options = ExtractOptions::new();
        options.hardlink_shared = hardlink_shared;
        let entries = select_entries(walk(&fs), &options).expect("patterns");
        let mut x = Extraction::new(&options);
        for entry in &entries {
            if entry.kind == InodeKind::Directory {
                x.succeeded(Done::Directory);
            }
        }
        for i in plan_writers(fs.tree(), &entries).expect("plan") {
            x.succeeded(Done::File);
            x.wrote(fs.content_id(entries[i].inode).expect("id"), i);
        }
        for (i, entry) in entries.iter().enumerate() {
            match entry.kind {
                InodeKind::Directory => {}
                InodeKind::Regular => {
                    let content = fs.content_id(entry.inode).expect("id");
                    match x.file_step(content, x.writer_of(content) == Some(i)) {
                        FileStep::Skip => {}
                        FileStep::Link(_) => x.succeeded(Done::Hardlink),
                        FileStep::Copy(_) => x.succeeded(Done::File),
                        FileStep::Write => panic!("every content has a writer"),
                    }
                }
                InodeKind::Symlink => x.succeeded(Done::Symlink),
                _ => x.succeeded(Done::Skipped),
            }
        }
        let stats = x.finish().expect("nothing failed");
        assert_eq!((stats.directories, stats.symlinks, stats.skipped), (3, 1, 2));
        let files = if hardlink_shared { (4, 1) } else { (5, 0) };
        assert_eq!((stats.files, stats.hardlinks), files);
    }
}

#[test]
fn a_cursor_streams_a_file_in_order() {
    let fs = sample(&plain());
    let size = fs.file_size(5).expect("size");
    let mut cursor = FileCursor::new(5, size);
    let mut cache = BlockCache::new(1 << 10);
    let mut all = Vec::new();
    let mut buf = [0u8; 4];
    loop {
        let n = cursor.read(&fs, &mut buf, &mut cache).expect("read");
        if n == 0 {
            break;
        }
        all.extend_from_slice(&buf[..n]);
    }
    assert_eq!(all, b"contentmore");
    assert_eq!(stream_buffer_len(0), 1);
    assert_eq!(stream_buffer_len(11), 11);
    assert_eq!(stream_buffer_len(1 << 30), 1 << 20);
    assert_eq!(extract_cache_bytes(16), 512 << 20);
    assert_eq!(extract_cache_bytes(1 << 30), 1 << 30);
    assert_eq!(tar_cache_bytes(16), 128);
}

#[test]
fn tar_entries_follow_the_walk() {
    let fs = sample(&plain());
    let mut seen = Vec::new();
    for entry in walk(&fs) {
        if let Some(t) = tar_entry(fs.tree(), &entry).expect("entry") {
            let what = match &t.kind {
                TarKind::Directory => "directory".to_string(),
                TarKind::Symlink(target) => format!("-> {target}"),
                TarKind::Regular(size) => format!("{size} bytes"),
            };
            seen.push(format!("{} {:o} {} {} {} {}", t.path, t.mode, t.uid, t.gid, t.mtime, what));
        }
    }
    assert_eq!(
        seen,
        vec![
            "a.txt 644 1000 100 1008 5 bytes",
            "dir 755 0 0 1002 directory",
            "dir/file.txt 644 1000 100 1008 11 bytes",
            "dir/nested 755 1000 100 1002 directory",
            "dup1 644 1000 100 1008 3 bytes",
            "dup2 644 1000 100 1008 3 bytes",
            "link 777 1000 100 1005 -> dir/file.txt",
            "sparse.bin 644 1000 100 1008 21 bytes",
        ]
    );
    assert_eq!(tar_path(b""), ".");
    assert_eq!(tar_path(b"/a\xffb"), "a\u{fffd}b");
}

#[test]
fn a_mount_shifts_inodes_by_one() {
    assert_eq!(fuse::dwarfs_ino(0), Err(Failure::NoEntry));
    assert_eq!(fuse::dwarfs_ino(1), Ok(0));
    assert_eq!(fuse::dwarfs_ino(1 << 32), Ok(u32::MAX));
    assert_eq!(fuse::dwarfs_ino((1 << 32) + 1), Err(Failure::NoEntry));
    assert_eq!(fuse::fuse_ino(0), 1);
    assert_eq!(fuse::encode_rdev((1 << 32) | 3), 0x103);
    assert_eq!(fuse::encode_rdev((8 << 32) | 300), 0x10082c);
    assert_eq!(fuse::file_type(InodeKind::Unknown), InodeKind::Regular);
}

#[test]
fn a_mount_answers_every_request() {
    let mount = DwarfsFuse::new(sample(&plain()));
    let fs = mount.filesystem();
    let attr = fuse::lookup(fs, 1, b"dir").expect("lookup");
    assert_eq!((attr.ino, attr.kind, attr.perm), (2, InodeKind::Directory, 0o755));
    let attr = fuse::lookup(fs, 2, b"file.txt").expect("lookup");
    assert_eq!((attr.ino, attr.size, attr.blocks, attr.blksize), (6, 11, 1, 16));
    assert_eq!((attr.atime, attr.mtime, attr.ctime, attr.crtime), (1007, 1008, 1009, 1008));
    assert_eq!(fuse::lookup(fs, 1, b"absent").unwrap_err(), Failure::NoEntry);
    assert_eq!(fuse::lookup(fs, 0, b"dir").unwrap_err(), Failure::NoEntry);
    assert_eq!(fuse::getattr(fs, 10).expect("device").rdev, 0x103);
    assert_eq!(fuse::getattr(fs, 99).unwrap_err(), Failure::NoEntry);
    assert_eq!(fuse::readlink(fs, 4).expect("link"), b"dir/file.txt");
    assert_eq!(fuse::readlink(fs, 5).unwrap_err(), Failure::Invalid);
    let items = fuse::readdir(fs, 2, 0).expect("readdir");
    let shown: Vec<(u64, u64, Vec<u8>)> =
        items.into_iter().map(|i| (i.ino, i.next, i.name)).collect();
    assert_eq!(
        shown,
        vec![
            (2, 1, b".".to_vec()),
            (1, 2, b"..".to_vec()),
            (6, 3, b"file.txt".to_vec()),
            (3, 4, b"nested".to_vec()),
        ]
    );
    assert_eq!(fuse::readdir(fs, 2, 3).expect("page").len(), 1);
    assert!(fuse::readdir(fs, 2, 9).expect("page").is_empty());
    assert_eq!(fuse::readdir(fs, 5, 0).unwrap_err(), Failure::NotDirectory);
    let (fs, mut cache) = mount.into_parts();
    assert_eq!(fuse::read(&fs, 6, 5, 4, &mut cache).expect("read"), b"ntmo");
    assert_eq!(fuse::read(&fs, 6, 50, 4, &mut cache).expect("read"), b"");
    assert_eq!(fuse::read(&fs, 1, 0, 4, &mut cache).unwrap_err(), Failure::Io);
    assert_eq!(fuse::read(&fs, 0, 0, 4, &mut cache).unwrap_err(), Failure::NoEntry);
    assert_eq!(cache.resident_bytes(), BLOCK0.len() + BLOCK1.len());
    assert_eq!(DwarfsFuse::with_cache(fs, 7).into_parts().1.budget(), 7);
}

fn checksum(algorithm: Algorithm, bytes: &[u8]) -> String {
    let mut digester = Digester::new(algorithm);
    digester.update(bytes);
    digester.finish()
}

#[test]
fn the_split_of_the_input_does_not_change_a_checksum() {
    let bytes: Vec<u8> = (0..1000u32).map(|i| (i * 7) as u8).collect();
    for algorithm in [
        Algorithm::Sha256,
        Algorithm::Sha512,
        Algorithm::Xxh3With64,
        Algorithm::Xxh3With128,
    ] {
        let whole = checksum(algorithm, &bytes);
        for step in [1, 63, 64, 65, 128, 999] {
            let mut digester = Digester::new(algorithm);
            for chunk in bytes.chunks(step) {
                digester.update(chunk);
            }
            assert_eq!(digester.finish(), whole, "{algorithm:?} {step}");
        }
    }
}

#[test]
fn checksums_have_their_published_values() {
    assert_eq!(
        checksum(Algorithm::Sha256, b"hello"),
        "2cf24dba5fb0a30e26e83b2ac5b9e29e1b161e5c1fa7425e73043362938b9824"
    );
    assert_eq!(
        checksum(Algorithm::Sha512, b""),
        "cf83e1357eefb8bdf1542850d66d8007d620e4050b5715dc83f4a921d36ce9ce\
         47d0d13c5d85f2b0ff8318d2877eec2f63b931bd47417a81a538327af927da3e"
    );
    assert_eq!(checksum(Algorithm::Xxh3With64, b""), "2d06800538d394c2");
    assert_eq!(
        checksum(Algorithm::Xxh3With128, b""),
        "99aa06d3014798d86001c324468d497f"
    );
    assert_eq!(parse_algorithm("xxh3-64"), Ok(Algorithm::Xxh3With64));
    assert_eq!(parse_algorithm("sha512"), Ok(Algorithm::Sha512));
    assert_eq!(parse_algorithm("xxh3-128"), Ok(Algorithm::Xxh3With128));
    assert_eq!(
        parse_algorithm("md5"),
        Err("unknown --checksum algorithm `md5`".to_string())
    );
    assert_eq!(hex_encode(&[0, 15, 255]), "000fff");
    assert_eq!(checksum_line(b"ab", b"/x\xff"), b"ab  x\xff\n");
    assert_eq!(list_line(b"/x/y"), b"x/y\n");
}

#[test]
fn file_checksums_cover_the_contents() {
    let fs = sample(&plain());
    let mut cache = BlockCache::new(1 << 10);
    for algorithm in [
        Algorithm::Sha256,
        Algorithm::Sha512,
        Algorithm::Xxh3With64,
        Algorithm::Xxh3With128,
    ] {
        let got = file_checksum(&fs, 5, algorithm, &mut cache).expect("checksum");
        assert_eq!(got, checksum(algorithm, b"contentmore"));
    }
}

#[test]
fn a_file_too_large_for_sha256_is_refused() {
    let mut s = plain();
    s.large_hole = Some((1 << 61) - 2);
    let fs = sample(&s);
    assert_eq!(fs.file_size(6).expect("size"), 1 << 61);
    let mut cache = BlockCache::new(1 << 10);
    let err = file_checksum(&fs, 6, Algorithm::Sha256, &mut cache).unwrap_err();
    assert!(matches!(
        err,
        rdwarfs::Error::CapExceeded {
            field: "sha256 input",
            cap: 0x1FFF_FFFF_FFFF_FFFF,
            value: 0x2000_0000_0000_0000,
        }
    ));
    assert_eq!(cache.resident_bytes(), 0);

    // A hole of several steps goes through the hasher as zero bytes.
    s.large_hole = Some(200_000);
    let fs = sample(&s);
    let mut want = vec![0u8; 200_000];
    want.extend_from_slice(b"zz");
    for algorithm in [Algorithm::Sha256, Algorithm::Sha512] {
        let got = file_checksum(&fs, 6, algorithm, &mut cache).expect("checksum");
        assert_eq!(got, checksum(algorithm, &want));
    }
}

#[test]
fn json_escapes_what_it_must() {
    assert_eq!(
        json_string("a\"b\\c\n\r\t\u{1}\u{e9}"),
        "\"a\\\"b\\\\c\\n\\r\\t\\u0001\u{e9}\""
    );
}

#[test]
fn json_reports_read_back() {
    let fs = sample(&plain());
    assert_eq!(
        json_summary(&fs),
        "{\"block_size\":16,\"inode_count\":11,\"total_fs_size\":64,\
         \"total_allocated_fs_size\":45,\"time_resolution_sec\":1,\
         \"features\":[\"sparsefiles\"],\"categories\":[\"binary\",\"text\"],\
         \"preferred_path_separator\":47,\"dir_offset\":0,\"symlink_offset\":3,\
         \"file_offset\":4,\"shared_file_offset\":7,\"device_offset\":9,\
         \"special_offset\":10,\"timestamp_base\":1000,\"options\":[\"inodes_have_nlink\"]}\n"
    );
    let entries = walk(&fs);
    assert_eq!(
        export_line(fs.tree(), &entries[0]).expect("root"),
        "{\"inode\":0,\"path\":\"/\",\"kind\":\"directory\",\"mode\":16877,\"uid\":0,\
         \"gid\":0,\"mtime\":1002,\"atime\":1001,\"ctime\":1003,\"size\":0,\"nlink\":1}\n"
    );
    assert_eq!(
        export_line(fs.tree(), &entries[7]).expect("link"),
        "{\"inode\":3,\"path\":\"/link\",\"kind\":\"symlink\",\"mode\":41471,\"uid\":1000,\
         \"gid\":100,\"mtime\":1005,\"atime\":1004,\"ctime\":1006,\"size\":0,\"nlink\":1,\
         \"target\":\"dir/file.txt\"}\n"
    );
}

#[test]
fn the_summary_lists_the_sections() {
    let s = plain();
    let (schema, metadata) = sample_metadata(&s);
    let mut bytes = b"#!/bin/sh\n".to_vec();
    bytes.extend(sample_image(&s));
    bytes.extend(section(4, SectionType::Unknown(77), Compression::Stored, b"abc"));
    bytes.extend(section(5, SectionType::Unknown(77), Compression::Stored, b"de"));
    let image = Image::from_vec(bytes).expect("image");
    let text = summary(&image, 2);
    let lines: Vec<&str> = text.lines().collect();
    assert_eq!(lines[0], "DwarFS version: 2.5");
    assert_eq!(lines[1], format!("DwarFS image: {} bytes", image.len()));
    assert_eq!(lines[2], "Sections: 6");
    assert_eq!(lines[3], "Block count: 2");
    assert_eq!(lines[4], "Compressed block size: 21 bytes");
    assert_eq!(lines[5], format!("Compressed metadata size: {} bytes", metadata.len()));
    assert_eq!(lines[6], format!("Uncompressed metadata size: {} bytes", metadata.len()));
    assert_eq!(lines[7], format!("Compressed schema size: {} bytes", schema.len()));
    assert_eq!(lines[8], format!("Uncompressed schema size: {} bytes", schema.len()));
    assert_eq!(lines[9], "Unknown section type 77: 5 bytes");
    assert_eq!(lines[10], "Header prefix: 10 bytes");
    assert_eq!(
        lines[11],
        "  [0] type=Block compression=None number=0 offset=10 len=76 end=86"
    );
    assert_eq!(lines.len(), 17);
    assert_eq!(decoded_len(&image, SectionType::History), None);
    assert!(!summary(&image, 1).contains("type=Block"));
}

#[test]
fn metadata_reports_name_what_is_recorded() {
    let fs = sample(&plain());
    assert_eq!(
        metadata_report(&fs),
        "Block size: 16 bytes\nBlock categories: binary, text\nInode count: 11\n\
         Original filesystem size: 64 bytes\nOriginal allocated size: 45 bytes\n\
         Features: sparsefiles\nOptions: inodes_have_nlink\nTime resolution: 1 seconds\n\
         Preferred path separator: /\n"
    );
    assert_eq!(
        offsets_report(&fs.offsets()),
        "Inode offsets: dir=0 symlink=3 file=4 shared=7 device=9 special=10\n"
    );
    let tables = image_table_sizes(fs.image());
    let lines: Vec<&str> = tables.lines().collect();
    assert_eq!(lines[0], "Metadata tables:");
    assert_eq!(lines[1], "  chunks                        6 entries          1 bytes");
    assert!(lines.contains(&"  modes                         5 entries         20 bytes"));
}

#[test]
fn history_reports_each_entry() {
    // version { 1: major, 2: minor, 3: patch }, then host, compiler and time.
    let mut entry = Vec::new();
    let mut p = 0i16;
    field_header(&mut p, 12, 1, &mut entry);
    let mut q = 0i16;
    for (id, value) in [(1i16, 0i64), (2, 14), (3, 1)] {
        field_header(&mut q, 4, id, &mut entry);
        zigzag(value, &mut entry);
    }
    entry.push(0);
    for (id, text) in [(2i16, "linux"), (3, "clang")] {
        field_header(&mut p, 8, id, &mut entry);
        varint(text.len() as u64, &mut entry);
        entry.extend_from_slice(text.as_bytes());
    }
    field_header(&mut p, 9, 4, &mut entry);
    entry.push((2 << 4) | 8);
    for text in ["mkdwarfs", "-i"] {
        varint(text.len() as u64, &mut entry);
        entry.extend_from_slice(text.as_bytes());
    }
    field_header(&mut p, 6, 5, &mut entry);
    zigzag(1234, &mut entry);
    entry.push(0);
    let mut payload = vec![(1 << 4) | 9, (1 << 4) | 12];
    payload.extend(entry);
    payload.push(0);
    assert_eq!(
        history_report(&payload).expect("history"),
        "History: 0.14.1 on linux built with clang\n  created on: 1234\n  args: mkdwarfs -i\n"
    );
    let image = Image::from_vec(section(0, SectionType::History, Compression::Zstd, &payload))
        .expect("image");
    match section_history(&image, &image.sections()[0]) {
        HistoryOutcome::Entries(text) => assert!(text.starts_with("History: 0.14.1")),
        _ => panic!("the section holds a history"),
    }
    assert!(history_report(&[0x19]).is_none());
}
