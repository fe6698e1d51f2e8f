//! Whole images: containers, metadata and file contents together.
//!
//! The images are assembled here from a description of their tree.

#![allow(dead_code)]

use std::io::Write;

use rdwarfs::Error;
use rdwarfs::format::header::{HEADER_LEN, SUPPORTED_MINOR, SectionHeader};
use rdwarfs::format::history;
use rdwarfs::format::image::Image;
use rdwarfs::format::integrity::{compute_sha512_256, compute_xxh3};
use rdwarfs::format::source::{FileSource, ImageSource, SliceSource};
use rdwarfs::format::types::{Compression, SectionType};
use rdwarfs::fs::{BlockCache, Filesystem, InodeKind};
use rdwarfs::metadata::{
    Chunk, DirEntry, Directory, Frozen, FsOptions, InodeData, Layout, LayoutKind, Metadata, Pos,
    Schema,
};

fn varint(value: u64, out: &mut Vec<u8>) {
    let mut v = value;
    while v >= 0x80 {
        out.push((v & 0x7F) as u8 | 0x80);
        v >>= 7;
    }
    out.push(v as u8);
}

fn zigzag(value: i64, out: &mut Vec<u8>) {
    varint(((value << 1) ^ (value >> 63)) as u64, out);
}

fn field_header(prev: &mut i16, ttype: u8, id: i16, out: &mut Vec<u8>) {
    out.push((((id - *prev) as u8) << 4) | ttype);
    *prev = id;
}

/// A schema layout: size, bits, and fields as (id, layout, offset).
struct LayoutSpec {
    id: i16,
    size: i32,
    bits: i16,
    fields: Vec<(i16, i16, i16)>,
}

fn layout(id: i16, size: i32, bits: i16, fields: &[(i16, i16, i16)]) -> LayoutSpec {
    LayoutSpec {
        id,
        size,
        bits,
        fields: fields.to_vec(),
    }
}

fn encode_schema(layouts: &[LayoutSpec], root: i16) -> Vec<u8> {
    let mut out = Vec::new();
    let mut prev = 0i16;
    field_header(&mut prev, 11, 2, &mut out);
    varint(layouts.len() as u64, &mut out);
    out.push((4 << 4) | 12);
    for l in layouts {
        zigzag(l.id as i64, &mut out);
        let mut p = 0i16;
        if l.size != 0 {
            field_header(&mut p, 5, 1, &mut out);
            zigzag(l.size as i64, &mut out);
        }
        if l.bits != 0 {
            field_header(&mut p, 4, 2, &mut out);
            zigzag(l.bits as i64, &mut out);
        }
        if !l.fields.is_empty() {
            field_header(&mut p, 11, 3, &mut out);
            varint(l.fields.len() as u64, &mut out);
            out.push((4 << 4) | 12);
            for (id, target, offset) in &l.fields {
                zigzag(*id as i64, &mut out);
                let mut q = 0i16;
                field_header(&mut q, 4, 1, &mut out);
                zigzag(*target as i64, &mut out);
                field_header(&mut q, 4, 2, &mut out);
                zigzag(*offset as i64, &mut out);
                out.push(0);
            }
        }
        out.push(0);
    }
    field_header(&mut prev, 4, 3, &mut out);
    zigzag(root as i64, &mut out);
    field_header(&mut prev, 5, 4, &mut out);
    zigzag(1, &mut out);
    out.push(0);
    out
}

const U32: i16 = 1;
const U64: i16 = 2;
const BIT: i16 = 3;
const U32S: i16 = 4;
const U64S: i16 = 5;
const STRING: i16 = 6;
const STRINGS: i16 = 7;
const CHUNK: i16 = 8;
const CHUNKS: i16 = 9;
const DIRECTORY: i16 = 10;
const DIRECTORIES: i16 = 11;
const INODE: i16 = 12;
const INODES: i16 = 13;
const DIR_ENTRY: i16 = 14;
const DIR_ENTRIES: i16 = 15;
const OPTIONS: i16 = 16;
const MAYBE_OPTIONS: i16 = 17;
const MAYBE_U32: i16 = 18;
const MAYBE_U64: i16 = 19;
const TABLE: i16 = 20;
const MAYBE_TABLE: i16 = 21;
const MAYBE_STRING: i16 = 22;
const ROOT: i16 = 23;

/// A metadata blob under construction: the root struct, then the data its
/// ranges point at.
struct Blob {
    bytes: Vec<u8>,
    next: usize,
    fields: Vec<(i16, i16, i16)>,
}

impl Blob {
    fn new() -> Self {
        Blob {
            bytes: vec![0u8; 400],
            next: 0,
            fields: Vec::new(),
        }
    }

    fn place(&mut self, id: i16, layout: i16, len: usize) -> usize {
        let at = self.next;
        self.next += len;
        self.fields.push((id, layout, at as i16));
        at
    }

    fn put32(&mut self, at: usize, value: u32) {
        self.bytes[at..at + 4].copy_from_slice(&value.to_le_bytes());
    }

    fn put64(&mut self, at: usize, value: u64) {
        self.bytes[at..at + 8].copy_from_slice(&value.to_le_bytes());
    }

    fn int32(&mut self, id: i16, value: u32) {
        let at = self.place(id, U32, 4);
        self.put32(at, value);
    }

    fn int64(&mut self, id: i16, value: u64) {
        let at = self.place(id, U64, 8);
        self.put64(at, value);
    }

    fn maybe32(&mut self, id: i16, value: u32) {
        let at = self.place(id, MAYBE_U32, 5);
        self.bytes[at] = 1;
        self.put32(at + 1, value);
    }

    fn maybe64(&mut self, id: i16, value: u64) {
        let at = self.place(id, MAYBE_U64, 9);
        self.bytes[at] = 1;
        self.put64(at + 1, value);
    }

    fn range(&mut self, at: usize, count: usize) {
        let data = self.bytes.len();
        self.put32(at, (data - at) as u32);
        self.put32(at + 4, count as u32);
    }

    fn rows(&mut self, id: i16, layout: i16, rows: &[Vec<u32>]) {
        let at = self.place(id, layout, 8);
        self.range(at, rows.len());
        for row in rows {
            for value in row {
                self.bytes.extend_from_slice(&value.to_le_bytes());
            }
        }
    }

    fn list32(&mut self, id: i16, values: &[u32]) {
        let rows: Vec<Vec<u32>> = values.iter().map(|v| vec![*v]).collect();
        self.rows(id, U32S, &rows);
    }

    fn list64(&mut self, id: i16, values: &[u64]) {
        let at = self.place(id, U64S, 8);
        self.range(at, values.len());
        for value in values {
            self.bytes.extend_from_slice(&value.to_le_bytes());
        }
    }

    fn strings(&mut self, id: i16, values: &[&[u8]]) {
        let at = self.place(id, STRINGS, 8);
        self.range(at, values.len());
        let first = self.bytes.len();
        self.bytes.extend(vec![0u8; values.len() * 8]);
        for (i, value) in values.iter().enumerate() {
            self.range(first + i * 8, value.len());
            self.bytes.extend_from_slice(value);
        }
    }

    /// A string table whose buffer is compressed with one symbol.
    fn compact(&mut self, id: i16, values: &[&[u8]]) {
        let at = self.place(id, MAYBE_TABLE, 27);
        self.bytes[at] = 1;
        let table = at + 1;
        let mut buffer = Vec::new();
        let mut index = vec![0u32];
        for value in values {
            buffer.extend(squeeze(value));
            index.push(buffer.len() as u32);
        }
        self.range(table, buffer.len());
        self.bytes.extend_from_slice(&buffer);
        self.bytes[table + 8] = 1;
        let symbols = symbol_table();
        self.range(table + 9, symbols.len());
        self.bytes.extend_from_slice(&symbols);
        self.range(table + 17, index.len());
        for value in index {
            self.bytes.extend_from_slice(&value.to_le_bytes());
        }
    }
}

/// A symbol table with the one symbol `.txt`.
fn symbol_table() -> Vec<u8> {
    let mut out = (20_190_218u64 << 32).to_le_bytes().to_vec();
    out.push(0);
    out.extend([0, 0, 0, 1, 0, 0, 0, 0]);
    out.extend_from_slice(b".txt");
    out
}

/// Compress with [`symbol_table`], escaping what it has no symbol for.
fn squeeze(text: &[u8]) -> Vec<u8> {
    let mut out = Vec::new();
    let mut i = 0;
    while i < text.len() {
        if text[i..].starts_with(b".txt") {
            out.push(0);
            i += 4;
        } else {
            out.extend([0xFF, text[i]]);
            i += 1;
        }
    }
    out
}

fn encode_payload(compression: Compression, payload: &[u8]) -> Vec<u8> {
    match compression {
        Compression::Zstd => zstd::encode_all(payload, 3).expect("zstd"),
        Compression::Lz4 | Compression::Lz4Hc => {
            let mut out = (payload.len() as u32).to_le_bytes().to_vec();
            out.extend(lz4_flex::block::compress(payload));
            out
        }
        Compression::Lzma => liblzma::encode_all(payload, 6).expect("xz"),
        Compression::Brotli => {
            let mut out = Vec::new();
            varint(payload.len() as u64, &mut out);
            {
                let mut enc = brotli::CompressorWriter::new(&mut out, 4096, 6, 22);
                enc.write_all(payload).expect("brotli");
            }
            out
        }
        _ => payload.to_vec(),
    }
}

fn section(number: u32, kind: SectionType, compression: Compression, data: &[u8]) -> Vec<u8> {
    let payload = encode_payload(compression, data);
    let mut header = SectionHeader {
        major: 2,
        minor: 5,
        sha512_256: [0; 32],
        xxh3_64: 0,
        number,
        section_type: kind,
        compression,
        payload_len: payload.len() as u64,
    };
    let mut bytes = header.write().to_vec();
    bytes.extend_from_slice(&payload);
    header.xxh3_64 = compute_xxh3(&bytes);
    bytes[..64].copy_from_slice(&header.write());
    header.sha512_256 = compute_sha512_256(&bytes);
    bytes[..64].copy_from_slice(&header.write());
    bytes
}

/// A piece of a file.
#[derive(Clone, PartialEq)]
enum Part {
    Data(Vec<u8>),
    Hole(u64),
}

/// What a path of a tree is.
#[derive(Clone)]
enum Node {
    Dir,
    File(Vec<Part>),
    Link(&'static str),
    Hard(&'static str),
}

fn text(body: &str) -> Node {
    Node::File(vec![Part::Data(body.as_bytes().to_vec())])
}

/// How an image is built.
#[derive(Clone)]
struct Config {
    compression: Compression,
    block_size: u32,
    packed: bool,
    compact: bool,
    index: bool,
    history: bool,
    categories: bool,
    timestamp_base: u64,
}

fn defaults() -> Config {
    Config {
        compression: Compression::Zstd,
        block_size: 16_777_216,
        packed: true,
        compact: true,
        index: true,
        history: true,
        categories: false,
        timestamp_base: 1_779_252_843,
    }
}

fn parent_of(path: &str) -> &str {
    match path.rfind('/') {
        Some(at) => &path[..at],
        None => "",
    }
}

fn name_of(path: &str) -> &str {
    match path.rfind('/') {
        Some(at) => &path[at + 1..],
        None => path,
    }
}

/// Directories depth first from `dir`, which is not among them.
fn directories_under(tree: &[(&'static str, Node)], dir: &str, out: &mut Vec<String>) {
    for (path, node) in tree {
        if parent_of(path) == dir && matches!(node, Node::Dir) {
            out.push(path.to_string());
            directories_under(tree, path, out);
        }
    }
}

fn logical_size(parts: &[Part]) -> u64 {
    parts
        .iter()
        .map(|p| match p {
            Part::Data(d) => d.len() as u64,
            Part::Hole(n) => *n,
        })
        .sum()
}

/// Append the parts of a file to the blocks, as chunk rows.
fn place_parts(
    parts: &[Part],
    block_size: u32,
    hole_block: u32,
    data: &mut Vec<u8>,
    chunks: &mut Vec<Vec<u32>>,
) {
    let size = block_size as usize;
    for part in parts {
        match part {
            Part::Hole(n) => chunks.push(vec![
                hole_block,
                (n % u64::from(block_size)) as u32,
                (n / u64::from(block_size)) as u32,
            ]),
            Part::Data(bytes) => {
                let mut rest: &[u8] = bytes;
                while !rest.is_empty() {
                    let offset = data.len() % size;
                    let take = rest.len().min(size - offset);
                    chunks.push(vec![
                        (data.len() / size) as u32,
                        offset as u32,
                        take as u32,
                    ]);
                    data.extend_from_slice(&rest[..take]);
                    rest = &rest[take..];
                }
            }
        }
    }
}

/// Schema, metadata and blocks of a tree.
fn assemble(tree: &[(&'static str, Node)], c: &Config) -> (Vec<u8>, Vec<u8>, Vec<Vec<u8>>) {
    let mut tree = tree.to_vec();
    tree.sort_by(|a, b| a.0.cmp(b.0));
    let mut dirs = vec![String::new()];
    directories_under(&tree, "", &mut dirs);

    let links: Vec<(&str, &str)> = tree
        .iter()
        .filter_map(|(p, n)| match n {
            Node::Link(t) => Some((*p, *t)),
            _ => None,
        })
        .collect();
    let mut files: Vec<(&str, Vec<Part>)> = tree
        .iter()
        .filter_map(|(p, n)| match n {
            Node::File(parts) => Some((*p, parts.clone())),
            _ => None,
        })
        .collect();
    files.sort_by_key(|(p, _)| name_of(p).to_string());
    let is_shared = |parts: &Vec<Part>| files.iter().filter(|(_, q)| q == parts).count() > 1;
    let mut contents: Vec<Vec<Part>> = Vec::new();
    let mut order: Vec<(&str, usize)> = Vec::new();
    for (path, parts) in files.iter().filter(|(_, parts)| !is_shared(parts)) {
        order.push((*path, contents.len()));
        contents.push(parts.clone());
    }
    let unique = contents.len();
    for (_, parts) in files.iter().filter(|(_, parts)| is_shared(parts)) {
        if contents[unique..].contains(parts) {
            continue;
        }
        for (path, _) in files.iter().filter(|(_, q)| q == parts) {
            order.push((*path, contents.len()));
        }
        contents.push(parts.clone());
    }
    let shared: Vec<u32> = order[unique..]
        .iter()
        .map(|(_, content)| (content - unique) as u32)
        .collect();

    let inode_of = |path: &str| -> u32 {
        let target = match tree.iter().find(|(p, _)| *p == path) {
            Some((_, Node::Hard(target))) => target,
            _ => path,
        };
        if let Some(i) = dirs.iter().position(|d| d == target) {
            return i as u32;
        }
        if let Some(i) = links.iter().position(|(p, _)| *p == target) {
            return (dirs.len() + i) as u32;
        }
        let i = order.iter().position(|(p, _)| *p == target).expect("a path");
        (dirs.len() + links.len() + i) as u32
    };

    let mut names: Vec<&str> = tree.iter().map(|(p, _)| name_of(p)).collect();
    names.sort();
    names.dedup();
    let name_index = |path: &str| names.iter().position(|n| *n == name_of(path)).unwrap() as u32;

    let mut dir_entries = vec![vec![0u32, 0]];
    let mut first = Vec::new();
    let mut owner = vec![0u32; dirs.len()];
    let mut own_entry = vec![0u32; dirs.len()];
    for (i, dir) in dirs.iter().enumerate() {
        first.push(dir_entries.len() as u32);
        for (path, node) in tree.iter().filter(|(p, _)| parent_of(p) == dir) {
            let inode = inode_of(path);
            if matches!(node, Node::Dir) {
                owner[inode as usize] = i as u32;
                own_entry[inode as usize] = dir_entries.len() as u32;
            }
            dir_entries.push(vec![name_index(path), inode]);
        }
    }
    first.push(dir_entries.len() as u32);
    let mut directories: Vec<Vec<u32>> = Vec::new();
    for (i, at) in first.iter().enumerate() {
        if c.packed {
            let before = if i == 0 { 0 } else { first[i - 1] };
            directories.push(vec![0, at - before, 0]);
        } else if i < dirs.len() {
            directories.push(vec![own_entry[owner[i] as usize], *at, own_entry[i]]);
        } else {
            directories.push(vec![0, *at, 0]);
        }
    }

    let total_data: usize = contents
        .iter()
        .flatten()
        .map(|p| match p {
            Part::Data(d) => d.len(),
            Part::Hole(_) => 0,
        })
        .sum();
    let hole_block = (total_data / c.block_size as usize + 1) as u32;
    let has_holes = contents.iter().flatten().any(|p| matches!(p, Part::Hole(_)));
    let mut data = Vec::new();
    let mut chunks: Vec<Vec<u32>> = Vec::new();
    let mut chunk_table = vec![0u32];
    for parts in &contents {
        let before = chunks.len();
        place_parts(parts, c.block_size, hole_block, &mut data, &mut chunks);
        if c.packed {
            chunk_table.push((chunks.len() - before) as u32);
        } else {
            chunk_table.push(chunks.len() as u32);
        }
    }
    let blocks: Vec<Vec<u8>> = data
        .chunks(c.block_size as usize)
        .map(|b| b.to_vec())
        .collect();

    let mut inodes: Vec<Vec<u32>> = Vec::new();
    let inode = |mode: u32, nlink: u32| vec![mode, 0, 0, 0, 0, 0, nlink];
    inodes.extend(dirs.iter().map(|_| inode(0, 0)));
    inodes.extend(links.iter().map(|_| inode(2, 0)));
    for (path, _) in &order {
        let more = tree
            .iter()
            .filter(|(_, n)| matches!(n, Node::Hard(t) if t == path))
            .count();
        inodes.push(inode(1, more as u32));
    }

    let mut size: u64 = files.iter().map(|(_, parts)| logical_size(parts)).sum();
    size += links.iter().map(|(_, t)| t.len() as u64).sum::<u64>();

    let mut b = Blob::new();
    b.int32(15, c.block_size);
    b.int64(12, c.timestamp_base);
    b.int64(16, size);
    b.maybe64(36, size);
    b.maybe32(26, 47);
    if has_holes {
        b.maybe32(34, hole_block);
    }
    b.list32(7, &[1000]);
    b.list32(8, &[100]);
    b.list32(9, &[16877, 33188, 41471]);
    b.rows(1, CHUNKS, &chunks);
    b.rows(2, DIRECTORIES, &directories);
    b.rows(3, INODES, &inodes);
    b.list32(4, &chunk_table);
    let targets: Vec<u32> = (0..links.len() as u32).collect();
    b.list32(6, &targets);
    b.rows(19, DIR_ENTRIES, &dir_entries);
    b.list32(20, &shared);
    let name_bytes: Vec<&[u8]> = names.iter().map(|n| n.as_bytes()).collect();
    let link_bytes: Vec<&[u8]> = links.iter().map(|(_, t)| t.as_bytes()).collect();
    if c.compact {
        b.compact(24, &name_bytes);
        b.compact(25, &link_bytes);
    } else {
        b.strings(10, &name_bytes);
        b.strings(11, &link_bytes);
    }
    if has_holes {
        b.strings(27, &[b"sparsefiles"]);
    }
    if c.categories {
        b.strings(28, &[b"<default>", b"pcmaudio/waveform"]);
        let of: Vec<u32> = blocks.iter().map(|_| 0).collect();
        b.list32(29, &of);
    }
    let at = b.place(18, MAYBE_OPTIONS, 3);
    b.bytes[at] = 1;
    let mut flags = (1u16 << 1) | (1 << 8);
    if c.packed {
        flags |= (1 << 3) | (1 << 4);
    }
    b.bytes[at + 1..at + 3].copy_from_slice(&flags.to_le_bytes());
    b.fields.sort();

    let range = [(1, U32, 0), (2, U32, 4)];
    let array = |item: i16| [(1, U32, 0), (2, U32, 4), (3, item, 0)];
    let inode_fields = [
        (2, U32, 0),
        (4, U32, 4),
        (5, U32, 8),
        (6, U32, 12),
        (7, U32, 16),
        (8, U32, 20),
        (14, U32, 24),
    ];
    let option_fields = [
        (1, BIT, -1),
        (3, BIT, -3),
        (4, BIT, -4),
        (5, BIT, -5),
        (7, BIT, -7),
        (8, BIT, -8),
    ];
    let table_fields = [(1, STRING, 0), (2, MAYBE_STRING, 8), (3, U32S, 17), (4, BIT, 25)];
    let layouts = vec![
        layout(U32, 0, 32, &[]),
        layout(U64, 0, 64, &[]),
        layout(BIT, 0, 1, &[]),
        layout(U32S, 8, 0, &array(U32)),
        layout(STRING, 8, 0, &range),
        layout(STRINGS, 8, 0, &array(STRING)),
        layout(CHUNK, 12, 0, &[(1, U32, 0), (2, U32, 4), (3, U32, 8)]),
        layout(CHUNKS, 8, 0, &array(CHUNK)),
        layout(DIRECTORY, 12, 0, &[(1, U32, 0), (2, U32, 4), (3, U32, 8)]),
        layout(DIRECTORIES, 8, 0, &array(DIRECTORY)),
        layout(INODE, 28, 0, &inode_fields),
        layout(INODES, 8, 0, &array(INODE)),
        layout(DIR_ENTRY, 8, 0, &[(1, U32, 0), (2, U32, 4)]),
        layout(DIR_ENTRIES, 8, 0, &array(DIR_ENTRY)),
        layout(OPTIONS, 2, 0, &option_fields),
        layout(MAYBE_OPTIONS, 3, 0, &[(1, BIT, 0), (2, OPTIONS, 1)]),
        layout(MAYBE_U32, 5, 0, &[(1, BIT, 0), (2, U32, 1)]),
        layout(MAYBE_U64, 9, 0, &[(1, BIT, 0), (2, U64, 1)]),
        layout(MAYBE_STRING, 9, 0, &[(1, BIT, 0), (2, STRING, 1)]),
        layout(TABLE, 26, 0, &table_fields),
        layout(MAYBE_TABLE, 27, 0, &[(1, BIT, 0), (2, TABLE, 1)]),
        layout(ROOT, 400, 0, &b.fields),
    ];
    (encode_schema(&layouts, ROOT), b.bytes, blocks)
}

/// A history of one entry: version 0.14.1 on `linux`, built with `clang`.
fn history_payload() -> Vec<u8> {
    let mut out = vec![(1 << 4) | 9, (1 << 4) | 12];
    let mut p = 0i16;
    field_header(&mut p, 12, 1, &mut out);
    let mut q = 0i16;
    for (id, value) in [(1i16, 0i64), (2, 14), (3, 1)] {
        field_header(&mut q, 4, id, &mut out);
        zigzag(value, &mut out);
    }
    out.push(0);
    for (id, body) in [(2i16, "linux"), (3, "clang")] {
        field_header(&mut p, 8, id, &mut out);
        varint(body.len() as u64, &mut out);
        out.extend_from_slice(body.as_bytes());
    }
    out.push(0);
    out.push(0);
    out
}

/// The sections of a tree's image, in file order.
fn image_of(tree: &[(&'static str, Node)], c: &Config) -> Vec<u8> {
    let (schema, metadata, blocks) = assemble(tree, c);
    let mut parts: Vec<(SectionType, Compression, Vec<u8>)> = Vec::new();
    for block in blocks {
        parts.push((SectionType::Block, c.compression, block));
    }
    parts.push((SectionType::MetadataV2Schema, c.compression, schema));
    parts.push((SectionType::MetadataV2, c.compression, metadata));
    if c.history {
        parts.push((SectionType::History, c.compression, history_payload()));
    }
    let mut out = Vec::new();
    let mut index = Vec::new();
    for (number, (kind, compression, data)) in parts.iter().enumerate() {
        index.push((u64::from(kind.as_u16()) << 48) | out.len() as u64);
        out.extend(section(number as u32, *kind, *compression, data));
    }
    if c.index {
        let kind = SectionType::SectionIndex;
        index.push((u64::from(kind.as_u16()) << 48) | out.len() as u64);
        let mut payload = Vec::new();
        for entry in index {
            payload.extend_from_slice(&entry.to_le_bytes());
        }
        out.extend(section(
            parts.len() as u32,
            kind,
            Compression::Stored,
            &payload,
        ));
    }
    out
}

/// A tree with a bit of everything.
fn everything() -> Vec<(&'static str, Node)> {
    let wide: Vec<u8> = (0..4096usize * 512).map(|i| (i % 251) as u8).collect();
    vec![
        ("top.txt", text("top level\n")),
        ("hardlink.txt", Node::Hard("top.txt")),
        ("dup-a.txt", text("shared body\n")),
        ("wide.bin", Node::File(vec![Part::Data(wide)])),
        (
            "sparse.bin",
            Node::File(vec![
                Part::Hole(1 << 19),
                Part::Data(b"middle".to_vec()),
                Part::Hole((1 << 21) - (1 << 19) - 6),
            ]),
        ),
        ("dir", Node::Dir),
        ("dir/dup-b.txt", text("shared body\n")),
        ("dir/link-to-top", Node::Link("../top.txt")),
        ("dir/nested", Node::Dir),
        ("dir/nested/deep.txt", text("nested\n")),
    ]
}

const VECTORS: [&str; 11] = [
    "default",
    "uncompressed",
    "zstd",
    "lzma",
    "lz4",
    "brotli",
    "small-blocks",
    "no-index",
    "unpacked",
    "packed",
    "history",
];

fn vector_bytes(name: &str) -> Vec<u8> {
    let mut c = defaults();
    match name {
        "uncompressed" => c.compression = Compression::Stored,
        "zstd" => c.history = false,
        "lzma" => c.compression = Compression::Lzma,
        "lz4" => c.compression = Compression::Lz4,
        "brotli" => c.compression = Compression::Brotli,
        "small-blocks" => c.block_size = 1 << 16,
        "no-index" => c.index = false,
        "unpacked" => {
            c.packed = false;
            c.compact = false;
        }
        "packed" => c.compression = Compression::Lz4Hc,
        "categorized" => c.categories = true,
        _ => {}
    }
    image_of(&everything(), &c)
}

fn open_bytes(bytes: Vec<u8>) -> Filesystem {
    let image = match Image::from_vec(bytes) {
        Ok(image) => image,
        Err(e) => panic!("parse: {}", e.to_string()),
    };
    match Filesystem::open(image) {
        Ok(fs) => fs,
        Err(e) => panic!("open: {}", e.to_string()),
    }
}

fn vector_fs(name: &str) -> Filesystem {
    open_bytes(vector_bytes(name))
}

// Forward compatibility.

/// Recompute both header hashes over a section so a patched header is
/// once again internally consistent.
fn reseal(image: &mut [u8], section_start: usize, section_len: usize) {
    let end = section_start + section_len;
    let xxh = compute_xxh3(&image[section_start..end]);
    image[section_start + 0x28..section_start + 0x30].copy_from_slice(&xxh.to_le_bytes());
    let sha = compute_sha512_256(&image[section_start..end]);
    image[section_start + 0x08..section_start + 0x28].copy_from_slice(&sha);
}

/// Locate a section by type, returning its byte offset and total length.
fn find_section(image: &[u8], want: SectionType) -> Option<(usize, usize)> {
    let opened = Image::from_vec(image.to_vec()).ok()?;
    opened
        .sections()
        .iter()
        .find(|s| s.header.section_type == want)
        .map(|s| (s.file_offset as usize, s.section_len() as usize))
}

/// Byte offset and total length of every section, in file order.
fn section_extents(image: &[u8]) -> Vec<(usize, usize)> {
    let opened = Image::from_vec(image.to_vec()).expect("open image");
    opened
        .sections()
        .iter()
        .map(|s| (s.file_offset as usize, s.section_len() as usize))
        .collect()
}

fn patch_u16(image: &mut [u8], section_start: usize, field_offset: usize, value: u16) {
    let at = section_start + field_offset;
    image[at..at + 2].copy_from_slice(&value.to_le_bytes());
}

/// Rewrite the section-index entry for `from` to carry `to` instead.
///
/// Each index entry is a 64-bit little-endian value whose top 16 bits
/// are the section type and whose low 48 bits are the offset from the
/// first section.
fn retype_index_entry(image: &mut [u8], from: SectionType, to: u16) {
    let (start, len) = find_section(image, SectionType::SectionIndex).expect("section index");
    let mut at = start + HEADER_LEN;
    while at + 8 <= start + len {
        let raw = u64::from_le_bytes(image[at..at + 8].try_into().unwrap());
        if ((raw >> 48) as u16) == from.as_u16() {
            let rewritten = (u64::from(to) << 48) | (raw & ((1u64 << 48) - 1));
            image[at..at + 8].copy_from_slice(&rewritten.to_le_bytes());
            break;
        }
        at += 8;
    }
    reseal(image, start, len);
}

fn listing<S: ImageSource>(fs: &Filesystem<S>) -> Vec<String> {
    let mut paths: Vec<String> = fs
        .walk()
        .expect("walk")
        .into_iter()
        .filter(|e| !e.path.is_empty())
        .map(|e| String::from_utf8(e.path).expect("utf8 path"))
        .collect();
    paths.sort();
    paths
}

#[test]
fn unknown_section_type_is_ignored() {
    let original = vector_bytes("default");
    let (start, len) = find_section(&original, SectionType::History).expect("history section");

    let mut patched = original.clone();
    patch_u16(&mut patched, start, 0x34, 4242);
    reseal(&mut patched, start, len);
    retype_index_entry(&mut patched, SectionType::History, 4242);

    let image = Image::from_vec(patched).expect("image with an unknown section still opens");
    assert!(
        image
            .sections()
            .iter()
            .any(|s| s.header.section_type == SectionType::Unknown(4242)),
        "the unknown section is retained with its raw type"
    );
    image
        .verify_all()
        .expect("an unknown section is still hashed like any other");

    let want = listing(&open_bytes(original));
    let fs = Filesystem::open(image).expect("filesystem opens");
    assert_eq!(listing(&fs), want);
    let node = fs.lookup(b"/dir/nested/deep.txt").expect("lookup");
    assert_eq!(fs.read_file(node.inode).unwrap(), b"nested\n");
}

#[test]
fn unknown_compression_defers_its_failure_to_decode() {
    let original = vector_bytes("default");
    let (start, len) = find_section(&original, SectionType::Block).expect("a block section");

    let mut patched = original;
    patch_u16(&mut patched, start, 0x36, 99);
    reseal(&mut patched, start, len);

    let image = Image::from_vec(patched).expect("image with an unknown codec still opens");
    let record = image
        .find_section(SectionType::Block)
        .copied()
        .expect("block section");
    assert_eq!(record.header.compression, Compression::Unknown(99));

    let err = image
        .decompress_section(&record, 1 << 20)
        .expect_err("decoding an unknown codec fails");
    assert!(
        matches!(err, Error::UnknownCompression { value: 99 }),
        "error names the numeric algorithm value, got {}",
        err.to_string()
    );

    // Sections using a known codec still decode.
    let schema = image
        .find_section(SectionType::MetadataV2Schema)
        .copied()
        .expect("schema section");
    assert!(image.decompress_section(&schema, 1 << 20).is_ok());
}

#[test]
fn image_declaring_only_supported_features_opens() {
    let fs = vector_fs("default");
    assert!(fs.inode_count() > 0);
}

#[test]
fn minor_version_six_is_accepted_and_seven_is_not() {
    assert_eq!(SUPPORTED_MINOR, 6);

    let original = vector_bytes("default");
    for (minor, should_open) in [(5u8, true), (6, true), (7, false)] {
        let mut patched = original.clone();
        for (start, len) in section_extents(&original) {
            patched[start + 7] = minor;
            reseal(&mut patched, start, len);
        }
        let opened = Image::from_vec(patched);
        assert_eq!(
            opened.is_ok(),
            should_open,
            "minor {minor} should {}open",
            if should_open { "" } else { "not " }
        );
        if let Err(err) = opened {
            let text = err.to_string();
            assert!(
                text.contains("2.7"),
                "error reports both versions, got {text}"
            );
        }
    }
}

#[test]
fn a_categorised_image_reads_back_its_categories() {
    let fs = vector_fs("categorized");
    assert!(
        !listing(&fs).is_empty(),
        "categorised image still lists files"
    );
    assert_eq!(fs.category_names(), vec!["<default>"]);
}

#[test]
fn a_sparse_image_opens_and_declares_its_feature() {
    let fs = vector_fs("default");
    let node = fs.lookup(b"/sparse.bin").expect("sparse file present");
    assert_eq!(fs.file_size(node.inode).unwrap(), 1 << 21);
}

// Sources.

/// Every observable fact about a filesystem, so two readers can be
/// compared without listing assertions twice.
fn snapshot<S: ImageSource>(fs: &Filesystem<S>) -> Vec<(String, u64, Vec<u8>)> {
    let mut out = Vec::new();
    for entry in fs.walk().expect("walk") {
        let path = String::from_utf8(entry.path.clone()).expect("utf8 path");
        let stat = fs.stat(entry.inode).expect("stat");
        let body = match stat.kind {
            InodeKind::Regular => fs.read_file(entry.inode).expect("read"),
            InodeKind::Symlink => fs.read_link(entry.inode).expect("readlink").to_vec(),
            _ => Vec::new(),
        };
        out.push((path, stat.size, body));
    }
    out
}

/// A runtime stub, then the image, then a trailing footer.
fn embed(image: &[u8], prefix_len: usize, suffix: &[u8]) -> (Vec<u8>, u64, u64) {
    let mut bytes: Vec<u8> = (0..prefix_len).map(|i| (i % 256) as u8).collect();
    let offset = bytes.len() as u64;
    bytes.extend_from_slice(image);
    let len = image.len() as u64;
    bytes.extend_from_slice(suffix);
    (bytes, offset, len)
}

/// A source that reads positionally out of `bytes`.
fn positional(
    bytes: Vec<u8>,
) -> FileSource<impl Fn(u64, usize) -> Result<Vec<u8>, Error> + Send + Sync> {
    FileSource::new(bytes.len() as u64, move |offset: u64, len: usize| {
        let start = offset as usize;
        Ok(bytes[start..start + len].to_vec())
    })
}

#[test]
fn positional_source_reads_identically_to_an_in_memory_source() {
    let bytes = vector_bytes("small-blocks");
    let from_memory = open_bytes(bytes.clone());
    let source = positional(bytes);
    assert!(
        source.as_slice().is_none(),
        "a positional source exposes no contiguous slice"
    );
    let from_file =
        Filesystem::open(Image::from_source(source).expect("open file source")).expect("fs");
    assert_eq!(snapshot(&from_file), snapshot(&from_memory));
}

#[test]
fn positional_source_verifies_section_hashes() {
    let source = positional(vector_bytes("small-blocks"));
    let image = Image::from_source(source).expect("open");
    image.verify_all().expect("fast verification");
    image.verify_deep().expect("deep verification");
    assert!(
        image.section_index().is_some(),
        "the section index is found through positional reads"
    );
}

#[test]
fn positional_source_finds_a_prefixed_image() {
    let mut bytes = b"#!/bin/sh\nexec dwarfs \"$0\" \"$@\"\n".to_vec();
    let prefix_len = bytes.len() as u64;
    bytes.extend(vector_bytes("small-blocks"));

    let image = Image::from_source(positional(bytes)).expect("open");
    assert_eq!(image.base_offset(), prefix_len);

    let fs = Filesystem::open(image).expect("fs");
    let node = fs.lookup(b"/dir/nested/deep.txt").expect("lookup");
    assert_eq!(fs.read_file(node.inode).unwrap(), b"nested\n");
}

#[test]
fn positional_source_finds_an_image_behind_a_large_prefix() {
    // Larger than one scan chunk, so the magic is found by a probe
    // other than the first and the overlap between probes matters.
    let mut bytes = vec![0x41u8; 200 * 1024];
    let prefix_len = bytes.len() as u64;
    bytes.extend(vector_bytes("small-blocks"));

    let image = Image::from_source(positional(bytes)).expect("open");
    assert_eq!(image.base_offset(), prefix_len);
}

#[test]
fn windowed_open_works_over_a_positional_source() {
    let image = vector_bytes("small-blocks");
    let (embedded, offset, len) = embed(&image, 70_000, b"trailing footer bytes");

    let windowed =
        Image::from_window(positional(embedded), offset, len).expect("windowed open");
    let got = Filesystem::open(windowed).expect("fs");
    let want = open_bytes(image);
    assert_eq!(snapshot(&got), snapshot(&want));
}

#[test]
fn a_failing_read_surfaces_as_an_error() {
    let bytes = vector_bytes("uncompressed");
    let fine = bytes.len() as u64;
    let failing = FileSource::new(fine, move |offset: u64, len: usize| {
        let start = offset as usize;
        if len > 1 << 10 {
            return Err(Error::Io(std::io::Error::from(
                std::io::ErrorKind::UnexpectedEof,
            )));
        }
        Ok(bytes[start..start + len].to_vec())
    });
    assert!(matches!(failing.read_exact_at(&mut [0u8; 2000], 0), Err(Error::Io(_))));
    match Image::from_source(failing) {
        Err(Error::Io(_)) => {}
        Err(e) => panic!("expected an I/O error, got {}", e.to_string()),
        Ok(image) => assert!(matches!(image.verify_all(), Err(Error::Io(_)))),
    }
}

#[test]
fn a_borrowed_slice_is_a_source() {
    let bytes = vector_bytes("default");
    let source = SliceSource { bytes: &bytes };
    let fs = Filesystem::open(Image::from_source(source).expect("open")).expect("fs");
    assert_eq!(snapshot(&fs), snapshot(&open_bytes(bytes.clone())));
    let mut buf = [0u8; 4];
    assert!(matches!(
        SliceSource { bytes: &bytes[..3] }.read_exact_at(&mut buf, 0),
        Err(Error::SourceOutOfBounds { offset: 0, len: 4, source_len: 3 })
    ));
}

#[test]
fn image_with_trailing_bytes_opens_through_a_window() {
    let image = vector_bytes("small-blocks");
    let (embedded, offset, len) = embed(&image, 100_000, b"ONELF-FOOTER-TRAILING-DATA");

    // Without a window the trailing bytes look like a truncated section.
    assert!(
        Image::from_vec(embedded.clone()).is_err(),
        "an unwindowed open cannot know where the image ends"
    );

    let windowed = Image::from_window(embedded, offset, len).expect("windowed open");
    windowed.verify_all().expect("verification");
    assert!(windowed.section_index().is_some());

    let want = open_bytes(image);
    let got = Filesystem::open(windowed).expect("fs");
    assert_eq!(snapshot(&got), snapshot(&want));
}

#[test]
fn window_offsets_are_relative_to_the_window() {
    let image = vector_bytes("small-blocks");
    let bare = Image::from_vec(image.clone()).expect("open");
    let bare_offsets: Vec<u64> = bare.sections().iter().map(|s| s.file_offset).collect();

    let (embedded, offset, len) = embed(&image, 4096, b"tail");
    let windowed = Image::from_window(embedded, offset, len).expect("windowed open");
    let windowed_offsets: Vec<u64> = windowed.sections().iter().map(|s| s.file_offset).collect();

    assert_eq!(windowed_offsets, bare_offsets);
    assert_eq!(windowed.len(), len);
}

#[test]
fn a_window_past_the_end_of_the_source_is_refused() {
    let image = vector_bytes("small-blocks");
    let len = image.len() as u64;
    match Image::from_window(image, 16, len) {
        Err(Error::SourceOutOfBounds {
            offset,
            len: want,
            source_len,
        }) => {
            assert_eq!(offset, 16);
            assert_eq!(want, len);
            assert_eq!(source_len, len);
        }
        Err(other) => panic!("expected SourceOutOfBounds, got {}", other.to_string()),
        Ok(_) => panic!("window overruns the source"),
    }
}

// When section hashes are checked.

#[test]
fn every_fixture_verifies() {
    for name in VECTORS {
        let image = Image::from_vec(vector_bytes(name)).expect("parse");
        image
            .verify_all()
            .unwrap_or_else(|e| panic!("fixture {name} failed verification: {}", e.to_string()));
        image
            .verify_deep()
            .unwrap_or_else(|e| panic!("fixture {name} failed verification: {}", e.to_string()));
    }
}

/// Flip a byte well inside the first section's payload, past the
/// 64-byte header, so the header still parses and only the hash and
/// the payload disagree.
fn corrupt_payload(name: &str) -> Vec<u8> {
    let mut bytes = vector_bytes(name);
    let at = 64 + 8;
    bytes[at] ^= 0xFF;
    bytes
}

#[test]
fn a_corrupt_payload_is_rejected_by_verification() {
    let image = Image::from_vec(corrupt_payload("default")).expect("still parses");
    assert!(
        image.verify_all().is_err(),
        "a flipped payload byte must fail verification"
    );
}

#[test]
fn a_corrupt_payload_is_caught_when_the_section_is_decoded() {
    let bytes = corrupt_payload("default");
    let opened = Image::from_vec(bytes).expect("parse");
    let corrupt_section = *opened.sections().first().expect("at least one section");
    assert!(
        opened
            .decompress_section(&corrupt_section, 1 << 24)
            .is_err(),
        "decoding a corrupt section must fail rather than return bad bytes"
    );
}

#[test]
fn truncation_is_reported_rather_than_panicking() {
    let full = vector_bytes("default");
    for cut in [1usize, 32, 63, 64, 65, full.len() / 2, full.len() - 1] {
        let _ = Image::from_vec(full[..cut].to_vec());
    }
}

#[test]
fn a_flipped_byte_anywhere_never_panics() {
    let full = vector_bytes("default");
    let step = (full.len() / 64).max(1);
    let mut at = 0;
    while at < full.len() {
        let mut bytes = full.clone();
        bytes[at] ^= 0x01;
        if let Ok(image) = Image::from_vec(bytes) {
            let _ = image.verify_all();
        }
        at += step;
    }
}

#[test]
fn the_front_of_a_section_is_the_front_of_what_it_decodes_to() {
    for name in ["zstd", "lzma"] {
        let image = Image::from_vec(vector_bytes(name)).expect("parse");
        let record = *image.find_section(SectionType::Block).expect("block");
        let whole = image.decompress_section(&record, 1 << 24).expect("whole");
        for needed in [0usize, 1, 4096, whole.len(), whole.len() + 9] {
            let front = image
                .decompress_section_prefix(&record, needed)
                .expect("front")
                .expect("the codec stops early");
            assert_eq!(front, &whole[..needed.min(whole.len())], "{name} {needed}");
        }
    }
    let image = Image::from_vec(vector_bytes("lz4")).expect("parse");
    let record = *image.find_section(SectionType::Block).expect("block");
    assert!(image.decompress_section_prefix(&record, 16).expect("front").is_none());
}

// Reading arbitrary byte ranges.

/// Read a whole file through `read_into`, in `step`-sized reads.
fn read_all(fs: &Filesystem, inode: u32, step: usize) -> Vec<u8> {
    let mut cache = BlockCache::new(1 << 20);
    let size = fs.file_size(inode).expect("file size");
    let mut out = Vec::with_capacity(size as usize);
    let mut buf = vec![0u8; step];
    let mut offset = 0u64;
    while offset < size {
        let n = fs
            .read_into(inode, offset, &mut buf, &mut cache)
            .expect("read");
        if n == 0 {
            break;
        }
        out.extend_from_slice(&buf[..n]);
        offset += n as u64;
    }
    out
}

fn inode_of(fs: &Filesystem, path: &str) -> u32 {
    fs.lookup(path.as_bytes())
        .unwrap_or_else(|e| panic!("lookup {path}: {}", e.to_string()))
        .inode
}

#[test]
fn every_fixture_reads_its_files_whole() {
    for name in VECTORS {
        let fs = vector_fs(name);
        let inode = inode_of(&fs, "/top.txt");
        assert_eq!(read_all(&fs, inode, 4096), b"top level\n", "fixture {name}");
    }
}

#[test]
fn read_size_does_not_change_the_bytes() {
    let fs = vector_fs("small-blocks");
    let inode = inode_of(&fs, "/wide.bin");
    let reference = read_all(&fs, inode, 1 << 20);
    assert_eq!(reference.len(), 4096 * 512);
    for step in [1, 7, 512, 4096, 65536] {
        assert_eq!(read_all(&fs, inode, step), reference, "step {step}");
    }
}

#[test]
fn arbitrary_ranges_match_the_whole_file() {
    let fs = vector_fs("small-blocks");
    let inode = inode_of(&fs, "/wide.bin");
    let whole = read_all(&fs, inode, 1 << 20);
    let mut cache = BlockCache::new(1 << 20);

    for (offset, len) in [
        (0u64, 1usize),
        (1, 1),
        (511, 2),
        (4095, 4098),
        (whole.len() as u64 / 2, 12345),
        (whole.len() as u64 - 1, 1),
    ] {
        let mut buf = vec![0u8; len];
        let n = fs
            .read_into(inode, offset, &mut buf, &mut cache)
            .expect("read");
        let end = (offset as usize + len).min(whole.len());
        assert_eq!(&buf[..n], &whole[offset as usize..end], "at {offset}+{len}");
    }
}

#[test]
fn reads_past_the_end_return_nothing() {
    let fs = vector_fs("default");
    let inode = inode_of(&fs, "/top.txt");
    let size = fs.file_size(inode).unwrap();
    let mut cache = BlockCache::new(1 << 20);
    let mut buf = [0u8; 64];
    assert_eq!(fs.read_into(inode, size, &mut buf, &mut cache).unwrap(), 0);
    assert_eq!(
        fs.read_into(inode, size + 4096, &mut buf, &mut cache)
            .unwrap(),
        0
    );
}

#[test]
fn a_sparse_hole_reads_as_zeroes() {
    let fs = vector_fs("default");
    let inode = inode_of(&fs, "/sparse.bin");
    let size = fs.file_size(inode).expect("size");
    assert_eq!(size, 1 << 21, "sparse file keeps its logical size");

    let bytes = read_all(&fs, inode, 1 << 16);
    assert_eq!(bytes.len(), size as usize);
    assert!(bytes[..1 << 19].iter().all(|b| *b == 0), "leading hole");
    assert_eq!(&bytes[1 << 19..(1 << 19) + 6], b"middle");
    assert!(
        bytes[(1 << 19) + 6..].iter().all(|b| *b == 0),
        "trailing hole"
    );
}

#[test]
fn shared_content_reads_the_same_from_both_paths() {
    let fs = vector_fs("default");
    let a = read_all(&fs, inode_of(&fs, "/dup-a.txt"), 4096);
    let b = read_all(&fs, inode_of(&fs, "/dir/dup-b.txt"), 4096);
    assert_eq!(a, b"shared body\n");
    assert_eq!(a, b);
}

#[test]
fn a_hardlink_reads_the_same_bytes_as_its_target() {
    let fs = vector_fs("default");
    let target = read_all(&fs, inode_of(&fs, "/top.txt"), 4096);
    let link = read_all(&fs, inode_of(&fs, "/hardlink.txt"), 4096);
    assert_eq!(target, link);
}

#[test]
fn a_symlink_resolves_to_its_target_text() {
    let fs = vector_fs("default");
    let node = fs.lookup(b"/dir/link-to-top").expect("lookup symlink");
    assert_eq!(node.kind, InodeKind::Symlink);
    assert_eq!(fs.read_link(node.inode).unwrap(), b"../top.txt");
}

#[test]
fn borrowed_reads_agree_with_copied_reads() {
    let fs = vector_fs("small-blocks");
    let inode = inode_of(&fs, "/wide.bin");
    let whole = read_all(&fs, inode, 1 << 20);
    let mut cache = BlockCache::new(1 << 20);
    for offset in [0u64, 100, 4096, 40_000] {
        if let Some(bytes) = fs.read_borrowed(inode, offset, 64, &mut cache).unwrap() {
            assert_eq!(bytes, &whole[offset as usize..offset as usize + 64]);
        }
    }
}

#[test]
fn a_tiny_cache_still_serves_every_read() {
    let fs = vector_fs("small-blocks");
    let inode = inode_of(&fs, "/wide.bin");
    let reference = read_all(&fs, inode, 1 << 20);

    let mut cache = BlockCache::new(0);
    let size = fs.file_size(inode).unwrap();
    let mut out = Vec::new();
    let mut buf = vec![0u8; 8192];
    let mut offset = 0u64;
    while offset < size {
        let n = fs.read_into(inode, offset, &mut buf, &mut cache).unwrap();
        out.extend_from_slice(&buf[..n]);
        offset += n as u64;
    }
    assert_eq!(out, reference, "a zero budget still serves reads");
}

// Filesystem questions.

fn tiny_bytes() -> Vec<u8> {
    let mut c = defaults();
    c.packed = false;
    let tree = vec![
        ("a", Node::Dir),
        ("a/hello.txt", text("hello A\n")),
        ("a/link", Node::Link("hello.txt")),
        ("a/sub", Node::Dir),
        ("a/sub/deep.txt", text("deep file\n")),
        ("b", Node::Dir),
        ("b/sub", Node::Dir),
        ("b/world.txt", text("hello B\n")),
    ];
    image_of(&tree, &c)
}

fn open() -> Filesystem {
    open_bytes(tiny_bytes())
}

#[test]
fn block_size_and_inode_count_match() {
    let fs = open();
    assert_eq!(fs.block_size(), 16_777_216);
    assert_eq!(fs.inode_count(), 9);
}

#[test]
fn root_listing_matches_source_tree() {
    let fs = open();
    let root = fs.lookup(b"/").unwrap();
    assert_eq!(root.inode, 0);
    assert_eq!(root.kind, InodeKind::Directory);

    let mut entries: Vec<String> = fs
        .read_dir(root.inode)
        .unwrap()
        .into_iter()
        .map(|e| String::from_utf8(e.name).unwrap())
        .collect();
    entries.sort();
    assert_eq!(entries, vec!["a".to_string(), "b".to_string()]);
}

#[test]
fn lookup_finds_nested_paths() {
    let fs = open();
    let hello = fs.lookup(b"/a/hello.txt").unwrap();
    assert_eq!(hello.kind, InodeKind::Regular);

    let world = fs.lookup(b"/b/world.txt").unwrap();
    assert_eq!(world.kind, InodeKind::Regular);

    let deep = fs.lookup(b"/a/sub/deep.txt").unwrap();
    assert_eq!(deep.kind, InodeKind::Regular);

    let link = fs.lookup(b"/a/link").unwrap();
    assert_eq!(link.kind, InodeKind::Symlink);
}

#[test]
fn read_files_match_source_contents() {
    let fs = open();
    let hello = fs.lookup(b"/a/hello.txt").unwrap();
    let world = fs.lookup(b"/b/world.txt").unwrap();
    let deep = fs.lookup(b"/a/sub/deep.txt").unwrap();

    assert_eq!(fs.read_file(hello.inode).unwrap(), b"hello A\n");
    assert_eq!(fs.read_file(world.inode).unwrap(), b"hello B\n");
    assert_eq!(fs.read_file(deep.inode).unwrap(), b"deep file\n");
}

#[test]
fn symlink_target_matches() {
    let fs = open();
    let link = fs.lookup(b"/a/link").unwrap();
    let target = fs.read_link(link.inode).unwrap();
    assert_eq!(target, b"hello.txt");
}

fn open_shared() -> Filesystem {
    let mut c = defaults();
    c.packed = false;
    let tree = vec![
        ("a.txt", text("shared content")),
        ("b.txt", text("shared content")),
        ("c.txt", text("shared content")),
        ("unique.txt", text("different content here")),
    ];
    open_bytes(image_of(&tree, &c))
}

#[test]
fn shared_files_resolve_to_same_content() {
    let fs = open_shared();
    for name in ["a.txt", "b.txt", "c.txt"] {
        let path = format!("/{name}");
        let node = fs.lookup(path.as_bytes()).unwrap();
        assert_eq!(node.kind, InodeKind::Regular);
        let bytes = fs.read_file(node.inode).unwrap();
        assert_eq!(bytes, b"shared content");
    }

    let unique = fs.lookup(b"/unique.txt").unwrap();
    let bytes = fs.read_file(unique.inode).unwrap();
    assert_eq!(bytes, b"different content here");
}

#[test]
fn sparse_file_reconstructs_holes_as_zeros() {
    let mut c = defaults();
    c.block_size = 4096;
    let tree = vec![
        ("dense.txt", text("hello")),
        (
            "sparse.bin",
            Node::File(vec![
                Part::Data(b"HEAD".to_vec()),
                Part::Hole(49_992),
                Part::Data(b"TAIL".to_vec()),
            ]),
        ),
    ];
    let fs = open_bytes(image_of(&tree, &c));

    let dense = fs.lookup(b"/dense.txt").unwrap();
    assert_eq!(fs.read_file(dense.inode).unwrap(), b"hello");

    let sparse = fs.lookup(b"/sparse.bin").unwrap();
    let bytes = fs.read_file(sparse.inode).unwrap();
    assert_eq!(bytes.len(), 50_000);
    assert_eq!(&bytes[..4], b"HEAD");
    assert_eq!(&bytes[bytes.len() - 4..], b"TAIL");
    assert!(bytes[4..bytes.len() - 4].iter().all(|b| *b == 0));
}

#[test]
fn stat_reports_modes_and_sizes() {
    let fs = open();
    let hello = fs.lookup(b"/a/hello.txt").unwrap();
    let st = fs.stat(hello.inode).unwrap();
    assert_eq!(st.kind, InodeKind::Regular);
    assert_eq!(st.size, 8); // "hello A\n"
    assert_eq!(st.mode & 0o170000, 0o100000);

    let dir = fs.lookup(b"/a").unwrap();
    let st = fs.stat(dir.inode).unwrap();
    assert_eq!(st.kind, InodeKind::Directory);
    assert_eq!(st.size, 0);
    assert_eq!(st.mode & 0o170000, 0o040000);
}

/// Names and symlinks stored as plain lists rather than as compact
/// string tables, with elements of differing length.
fn open_plain() -> Filesystem {
    let mut c = defaults();
    c.packed = false;
    c.compact = false;
    let tree = vec![
        ("a-much-longer-symlink-name", Node::Link("sub/nested-name.txt")),
        ("alpha.txt", text("alpha\n")),
        ("bravo.txt", text("bravo-longer\n")),
        ("c.txt", text("c\n")),
        ("short-link", Node::Link("alpha.txt")),
        ("sub", Node::Dir),
        ("sub/nested-name.txt", text("nested\n")),
    ];
    open_bytes(image_of(&tree, &c))
}

#[test]
fn plain_string_lists_decode_names_of_differing_length() {
    let fs = open_plain();
    let mut names: Vec<String> = fs
        .walk()
        .unwrap()
        .into_iter()
        .filter(|e| !e.path.is_empty())
        .map(|e| String::from_utf8(e.path).unwrap())
        .collect();
    names.sort();
    assert_eq!(
        names,
        vec![
            "/a-much-longer-symlink-name".to_string(),
            "/alpha.txt".to_string(),
            "/bravo.txt".to_string(),
            "/c.txt".to_string(),
            "/short-link".to_string(),
            "/sub".to_string(),
            "/sub/nested-name.txt".to_string(),
        ]
    );
}

#[test]
fn plain_string_lists_decode_symlinks_of_differing_length() {
    let fs = open_plain();
    let short = fs.lookup(b"/short-link").unwrap();
    assert_eq!(fs.read_link(short.inode).unwrap(), b"alpha.txt");
    let long = fs.lookup(b"/a-much-longer-symlink-name").unwrap();
    assert_eq!(fs.read_link(long.inode).unwrap(), b"sub/nested-name.txt");
}

#[test]
fn plain_string_list_file_contents_round_trip() {
    let fs = open_plain();
    let node = fs.lookup(b"/bravo.txt").unwrap();
    assert_eq!(fs.read_file(node.inode).unwrap(), b"bravo-longer\n");
}

#[test]
fn image_without_symlinks_opens_with_an_empty_symlink_table() {
    let fs = open_shared();
    assert!(
        !(0..fs.inode_count()).any(|i| fs.kind(i).unwrap() == InodeKind::Symlink),
        "the shared image is expected to hold no symlinks"
    );
}

/// The same tree with and without packed directories. A packed table
/// omits `parent_entry` and `self_entry`, so the reader has to rebuild
/// them.
fn open_dirs(packed: bool) -> Filesystem {
    let mut c = defaults();
    c.packed = packed;
    let tree = vec![
        ("a", Node::Dir),
        ("a/b", Node::Dir),
        ("a/b/c", Node::Dir),
        ("a/b/c/deep.txt", text("deep\n")),
        ("top.txt", text("top\n")),
        ("x", Node::Dir),
        ("x/y", Node::Dir),
    ];
    open_bytes(image_of(&tree, &c))
}

#[test]
fn packed_directories_rebuild_the_same_parents_as_unpacked() {
    let packed = open_dirs(true);
    let plain = open_dirs(false);
    assert_eq!(packed.inode_count(), plain.inode_count());

    let mut checked = 0;
    for inode in 0..plain.inode_count() {
        if plain.kind(inode).unwrap() != InodeKind::Directory {
            continue;
        }
        assert_eq!(
            packed.parent(inode).unwrap(),
            plain.parent(inode).unwrap(),
            "parent of directory inode {inode} differs"
        );
        checked += 1;
    }
    assert!(checked >= 5, "expected several directories, saw {checked}");
}

#[test]
fn directory_parents_match_the_source_tree() {
    let fs = open_dirs(true);
    let root = fs.lookup(b"/").unwrap();
    assert_eq!(fs.parent(root.inode).unwrap(), root.inode);

    let a = fs.lookup(b"/a").unwrap();
    let b = fs.lookup(b"/a/b").unwrap();
    let c = fs.lookup(b"/a/b/c").unwrap();
    assert_eq!(fs.parent(a.inode).unwrap(), root.inode);
    assert_eq!(fs.parent(b.inode).unwrap(), a.inode);
    assert_eq!(fs.parent(c.inode).unwrap(), b.inode);

    let y = fs.lookup(b"/x/y").unwrap();
    let x = fs.lookup(b"/x").unwrap();
    assert_eq!(fs.parent(y.inode).unwrap(), x.inode);
}

#[test]
fn parent_of_a_non_directory_is_an_error() {
    let fs = open_dirs(false);
    let file = fs.lookup(b"/top.txt").unwrap();
    assert!(fs.parent(file.inode).is_err());
}

#[test]
fn images_without_categorisation_report_no_categories() {
    let fs = open_dirs(false);
    assert!(fs.category_names().is_empty());
    assert_eq!(fs.block_category(0), None);
}

// History.

fn history_of(name: &str) -> Option<Vec<history::HistoryEntry>> {
    let image = Image::from_vec(vector_bytes(name)).expect("parse");
    let record = image
        .sections()
        .iter()
        .find(|s| s.header.section_type == SectionType::History)
        .copied()?;
    let payload = image
        .decompress_section(&record, 1 << 24)
        .expect("decode history");
    Some(history::parse(&payload).expect("parse history"))
}

#[test]
fn the_history_section_decodes_in_every_fixture_that_has_one() {
    let mut seen = 0;
    for name in VECTORS {
        if let Some(entries) = history_of(name) {
            seen += 1;
            assert!(!entries.is_empty(), "fixture {name} has an empty history");
            for entry in entries {
                assert!(
                    !entry.system_id.is_empty(),
                    "fixture {name} recorded no system id"
                );
            }
        }
    }
    assert!(seen > 0, "no fixture carried a HISTORY section");
}

#[test]
fn a_recorded_version_is_populated() {
    let entries = history_of("default").expect("default fixture has history");
    let version = &entries[0].version;
    assert!(
        version.major > 0 || version.minor > 0 || version.patch > 0,
        "version should not be all zeroes"
    );
    assert_eq!((version.major, version.minor, version.patch), (0, 14, 1));
}

#[test]
fn an_image_without_a_history_section_still_opens() {
    assert!(history_of("zstd").is_none());
    for name in VECTORS {
        let _ = vector_fs(name);
    }
}

// Metadata.

const CAP_SCHEMA: usize = 64 * 1024;
const CAP_METADATA: usize = 64 * 1024 * 1024;

fn open_decoded() -> (Schema, Vec<u8>) {
    let image = Image::from_vec(tiny_bytes()).expect("open tiny image");
    image.verify_all().expect("xxh3 verifies");

    let schema_section = image
        .find_section(SectionType::MetadataV2Schema)
        .expect("schema section present");
    let metadata_section = image
        .find_section(SectionType::MetadataV2)
        .expect("metadata section present");

    let schema_bytes = image
        .decompress_section(schema_section, CAP_SCHEMA)
        .expect("schema decompresses");
    let metadata_bytes = image
        .decompress_section(metadata_section, CAP_METADATA)
        .expect("metadata decompresses");

    let schema = Schema::parse(&schema_bytes).expect("schema parses");
    (schema, metadata_bytes)
}

fn read_int_field(frozen: &Frozen<'_>, parent_layout: &Layout, parent_pos: Pos, id: i16) -> u64 {
    let view = frozen
        .field(parent_pos, parent_layout, id)
        .expect("field present");
    let layout = frozen.schema().layout(view.field.layout_id).unwrap();
    frozen
        .read_integral(view.pos, u32::from(layout.bits))
        .expect("integral reads")
}

#[test]
fn schema_and_root_layout_resolve() {
    let (schema, _) = open_decoded();
    assert_eq!(schema.file_version, 1);
    let root = schema.root().expect("root layout present");
    assert!(!root.fields.is_empty(), "metadata root has fields");
}

#[test]
fn root_integral_fields_match_export() {
    let (schema, metadata) = open_decoded();
    let frozen = Frozen::new(&schema, &metadata);
    let root = schema.root().unwrap();
    let root_pos = frozen.root_pos();

    assert_eq!(read_int_field(&frozen, root, root_pos, 15), 16_777_216);
    assert_eq!(read_int_field(&frozen, root, root_pos, 16), 35);
    assert_eq!(read_int_field(&frozen, root, root_pos, 12), 1_779_252_843);
}

#[test]
fn optional_integral_field_decodes() {
    // preferred_path_separator (id 26) is optional<UInt32> and must
    // be read via the Optional layout rather than directly.
    let (schema, metadata) = open_decoded();
    let frozen = Frozen::new(&schema, &metadata);
    let root = schema.root().unwrap();
    let root_pos = frozen.root_pos();

    let field_view = frozen
        .field(root_pos, root, 26)
        .expect("preferred_path_separator field present");
    let opt_layout = schema.layout(field_view.field.layout_id).unwrap();
    assert!(matches!(
        LayoutKind::of(opt_layout, &schema).unwrap(),
        LayoutKind::Optional { .. }
    ));
    let opt = frozen
        .read_optional(field_view.pos, opt_layout)
        .expect("optional read");
    assert!(opt.present, "separator is set");

    let value_layout = schema
        .layout(opt.value_layout_id.expect("value layout present"))
        .unwrap();
    let value = frozen
        .read_integral(opt.value_pos, u32::from(value_layout.bits))
        .expect("value reads");
    assert_eq!(value, 47, "separator is '/' = 47");
}

#[test]
fn names_table_decodes_with_relative_distance() {
    let (schema, metadata) = open_decoded();
    let frozen = Frozen::new(&schema, &metadata);
    let root = schema.root().unwrap();
    let root_pos = frozen.root_pos();

    let compact_names_field = root
        .field(24)
        .expect("compact_names field present in schema");
    let compact_names_layout = schema
        .layout(compact_names_field.layout_id)
        .expect("compact_names layout present");
    let compact_names_pos = root_pos.child(compact_names_field);

    // compact_names is an Optional<string_table>; resolve to the
    // value struct when set.
    let opt = frozen
        .read_optional(compact_names_pos, compact_names_layout)
        .expect("compact_names optional read");
    assert!(opt.present, "compact_names is set in tiny image");

    let st_layout = schema
        .layout(opt.value_layout_id.expect("value layout present"))
        .unwrap();
    // string_table.index is field 3 (list<UInt32>).
    let index_field = st_layout.field(3).expect("string_table.index field");
    let index_layout = schema.layout(index_field.layout_id).unwrap();
    let index_pos = opt.value_pos.child(index_field);
    let kind = LayoutKind::of(index_layout, &schema).unwrap();
    assert!(
        matches!(kind, LayoutKind::Array { .. }),
        "string_table.index is an array, got {kind:?}"
    );
    let range = frozen.read_range(index_pos, index_layout).unwrap();
    // The image has 7 names (a, b, deep.txt, hello.txt, link, sub,
    // world.txt) plus the trailing sentinel = 8 index entries.
    assert!(
        range.count == 7 || range.count == 8,
        "expected 7 or 8 compact_names index entries, got {}",
        range.count
    );
}

#[test]
fn struct_list_decoders_match_export() {
    let (schema, metadata_bytes) = open_decoded();
    let m = Metadata::parse(&schema, &metadata_bytes).unwrap();

    let chunks = m.chunks().unwrap();
    assert_eq!(
        chunks,
        vec![
            Chunk {
                block: 0,
                offset: 0,
                size: 10,
            },
            Chunk {
                block: 0,
                offset: 10,
                size: 8,
            },
            Chunk {
                block: 0,
                offset: 18,
                size: 8,
            },
        ]
    );

    let dir_entries = m.dir_entries().unwrap();
    let expected = [
        (0u32, 0u32),
        (0, 1),
        (1, 3),
        (3, 7),
        (4, 5),
        (5, 2),
        (2, 6),
        (5, 4),
        (6, 8),
    ];
    assert_eq!(dir_entries.len(), expected.len());
    for (got, want) in dir_entries.iter().zip(expected.iter()) {
        assert_eq!(
            *got,
            DirEntry {
                name_index: want.0,
                inode_num: want.1,
            }
        );
    }

    let dirs = m.directories().unwrap();
    let expected = [
        (0u32, 1u32, 0u32),
        (0, 3, 1),
        (1, 6, 5),
        (0, 7, 2),
        (2, 9, 7),
        (0, 9, 0),
    ];
    assert_eq!(dirs.len(), expected.len());
    for (got, want) in dirs.iter().zip(expected.iter()) {
        assert_eq!(
            *got,
            Directory {
                parent_entry: want.0,
                first_entry: want.1,
                self_entry: want.2,
            }
        );
    }

    assert_eq!(m.chunk_table_raw().unwrap(), vec![0u32, 1, 2, 3]);
}

#[test]
fn inode_list_decodes() {
    let (schema, metadata_bytes) = open_decoded();
    let m = Metadata::parse(&schema, &metadata_bytes).unwrap();
    let inodes = m.inodes().unwrap();
    assert_eq!(inodes.len(), 9);

    let modes_used: std::collections::BTreeSet<u32> = inodes.iter().map(|i| i.mode_index).collect();
    assert_eq!(modes_used, [0, 1, 2].iter().copied().collect());

    // Every inode has owner_index = 0, group_index = 0 because there's
    // exactly one uid (1000) and one gid (100).
    for inode in &inodes {
        assert_eq!(inode.owner_index, 0);
        assert_eq!(inode.group_index, 0);
    }

    let _: InodeData = inodes[0];
}

#[test]
fn names_and_symlinks_decode_through_fsst() {
    let (schema, metadata_bytes) = open_decoded();
    let m = Metadata::parse(&schema, &metadata_bytes).unwrap();

    let names: Vec<String> = m
        .names()
        .unwrap()
        .into_iter()
        .map(|bytes| String::from_utf8(bytes).expect("valid utf-8 name"))
        .collect();
    assert_eq!(
        names,
        vec![
            "a",
            "b",
            "deep.txt",
            "hello.txt",
            "link",
            "sub",
            "world.txt"
        ]
    );

    let symlinks: Vec<String> = m
        .symlinks()
        .unwrap()
        .into_iter()
        .map(|bytes| String::from_utf8(bytes).expect("valid utf-8 symlink"))
        .collect();
    assert_eq!(symlinks, vec!["hello.txt"]);
}

#[test]
fn fs_options_and_features_decode() {
    let (schema, metadata_bytes) = open_decoded();
    let m = Metadata::parse(&schema, &metadata_bytes).unwrap();

    let opts = m.fs_options().unwrap();
    assert_eq!(
        opts,
        FsOptions {
            mtime_only: true,
            time_resolution_sec: None,
            packed_chunk_table: false,
            packed_directories: false,
            packed_shared_files_table: false,
            subsecond_resolution_nsec_multiplier: None,
            has_btime: false,
            inodes_have_nlink: true,
        }
    );

    assert!(m.features().unwrap().is_empty());
}

#[test]
fn typed_accessors_match_export() {
    let (schema, metadata_bytes) = open_decoded();
    let m = Metadata::parse(&schema, &metadata_bytes).unwrap();

    assert_eq!(m.block_size().unwrap(), 16_777_216);
    assert_eq!(m.total_fs_size().unwrap(), 35);
    assert_eq!(m.timestamp_base().unwrap(), 1_779_252_843);
    assert_eq!(m.uids().unwrap(), vec![1000]);
    assert_eq!(m.gids().unwrap(), vec![100]);
    assert_eq!(m.modes().unwrap(), vec![16877, 33188, 41471]);
    assert_eq!(m.preferred_path_separator().unwrap(), Some(47));
    assert_eq!(m.total_allocated_fs_size().unwrap(), Some(35));
    assert_eq!(m.hole_block_index().unwrap(), None);
}
