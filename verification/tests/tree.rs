//! Trees over tables that are written out here.

use rdwarfs::fs::tables::Tables;
use rdwarfs::fs::tree::Tree;
use rdwarfs::metadata::model::{Chunk, DirEntry, Directory, FsOptions, InodeData};

fn directory(parent_entry: u32, first_entry: u32, self_entry: u32) -> Directory {
    Directory {
        parent_entry,
        first_entry,
        self_entry,
    }
}

fn file_tables(chunk_table: Vec<u32>, chunks: usize, files: usize, shared: Vec<u32>) -> Tables {
    let mut inodes = vec![InodeData::default()];
    for _ in 0..files + shared.len() {
        let mut inode = InodeData::default();
        inode.mode_index = 1;
        inodes.push(inode);
    }
    Tables {
        block_size: 64,
        options: FsOptions::default(),
        timestamp_base: 0,
        modes: vec![0o040755, 0o100644],
        uids: vec![0],
        gids: vec![0],
        inodes,
        directories: vec![directory(0, 1, 0), directory(0, 1, 0)],
        dir_entries: vec![DirEntry {
            name_index: 0,
            inode_num: 0,
        }],
        chunks: (0..chunks)
            .map(|i| Chunk {
                block: i as u32,
                offset: 0,
                size: 4,
            })
            .collect(),
        chunk_table,
        symlink_table: Vec::new(),
        shared_files: shared,
        large_hole_size: Vec::new(),
        hole_block_index: None,
        names: vec![Vec::new()],
        symlinks: Vec::new(),
        devices: Vec::new(),
        block_category_names: Vec::new(),
        features: Vec::new(),
        preferred_path_separator: None,
        total_fs_size: 0,
        total_allocated_fs_size: None,
    }
}

#[test]
fn files_with_the_same_chunks_have_the_same_content_id() {
    // Files 1, 2 and 4 have no chunks; 1 and 2 lie at the same place.
    let tables = file_tables(vec![0, 0, 0, 2, 2, 3, 3], 3, 4, vec![0, 0, 1]);
    let tree = match Tree::build(tables) {
        Ok(tree) => tree,
        Err(e) => panic!("{}", e.to_string()),
    };
    let count = tree.tables().inodes.len() as u32;
    for a in 1..count {
        for b in 1..count {
            let same = tree.chunk_range(a).expect("range") == tree.chunk_range(b).expect("range");
            let ids = tree.content_id(a).expect("id") == tree.content_id(b).expect("id");
            assert_eq!(same, ids, "files {a} and {b}");
            if ids {
                assert_eq!(tree.first_block(a), tree.first_block(b));
                assert_eq!(tree.file_size(a).expect("size"), tree.file_size(b).expect("size"));
            }
        }
    }
    let ids: Vec<u32> = (1..count).map(|i| tree.content_id(i).expect("id")).collect();
    assert_eq!(ids, vec![0, 0, 2, 3, 4, 4, 5]);
}

#[test]
fn a_slot_past_the_chunk_table_keeps_its_number() {
    let tree = Tree::build(file_tables(vec![0], 0, 2, Vec::new())).expect("tree");
    assert_eq!(tree.content_id(1).expect("id"), 0);
    assert_eq!(tree.content_id(2).expect("id"), 1);
    assert!(tree.chunk_range(1).is_err());
    assert_eq!(tree.first_block(1), None);
}

#[test]
fn unpacking_restores_the_columns_of_a_directory_table() {
    let entry = |inode_num: u32| DirEntry {
        name_index: 0,
        inode_num,
    };
    let entries = vec![entry(0), entry(1), entry(2), entry(3)];
    let whole = vec![
        directory(0, 1, 0),
        directory(0, 2, 1),
        directory(1, 3, 2),
        directory(2, 4, 3),
        directory(0, 4, 0),
    ];
    let packed = vec![
        directory(9, 1, 9),
        directory(9, 1, 9),
        directory(9, 1, 9),
        directory(9, 1, 9),
        directory(0, 0, 0),
    ];
    let mut tables = file_tables(vec![0], 0, 0, Vec::new());
    tables.dir_entries = entries;
    tables.directories = packed;
    tables.options.packed_directories = true;
    let got = tables.unpack().directories;
    assert_eq!(got.len(), whole.len());
    for (a, b) in got.iter().zip(&whole).take(4) {
        assert_eq!(
            (a.parent_entry, a.first_entry, a.self_entry),
            (b.parent_entry, b.first_entry, b.self_entry)
        );
    }
}
