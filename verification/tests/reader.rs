//! Building blocks of the filesystem reader.

use std::sync::Arc;

use rdwarfs::Error;
use rdwarfs::fs::cache::{BlockCache, Fetch, Inner};
use rdwarfs::fs::chunks::build_chunk_ends;
use rdwarfs::fs::tables::check_features;
use rdwarfs::fs::tree::split_path;
use rdwarfs::metadata::model::Chunk;

fn chunk(block: u32, offset: u32, size: u32) -> Chunk {
    Chunk {
        block,
        offset,
        size,
    }
}

#[test]
fn chunk_ends_accumulate_within_each_file() {
    // Two files: the first holds three chunks, the second one.
    let chunks = vec![
        chunk(0, 0, 10),
        chunk(0, 10, 25),
        chunk(1, 0, 5),
        chunk(1, 5, 7),
    ];
    let chunk_table = vec![0u32, 3, 4];
    let ends = build_chunk_ends(&chunks, &chunk_table, None, 1 << 16, &[]).unwrap();
    assert_eq!(ends, vec![10, 35, 40, 7]);
}

#[test]
fn chunk_ends_locate_the_chunk_holding_an_offset() {
    let chunks = vec![chunk(0, 0, 10), chunk(0, 10, 25), chunk(1, 0, 5)];
    let ends = build_chunk_ends(&chunks, &[0u32, 3], None, 1 << 16, &[]).unwrap();
    for (offset, want) in [(0u64, 0usize), (9, 0), (10, 1), (34, 1), (35, 2), (39, 2)] {
        assert_eq!(
            ends.partition_point(|end| *end <= offset),
            want,
            "offset {offset}"
        );
    }
    assert_eq!(
        ends.partition_point(|end| *end <= 40),
        3,
        "past end of file"
    );
}

#[test]
fn chunk_ends_count_holes_by_their_reconstructed_length() {
    let block_size = 1024u32;
    // A hole of 3 blocks plus 7 bytes, then 5 bytes of data.
    let chunks = vec![chunk(9, 7, 3), chunk(0, 0, 5)];
    let ends = build_chunk_ends(&chunks, &[0u32, 2], Some(9), block_size, &[]).unwrap();
    assert_eq!(ends, vec![3 * 1024 + 7, 3 * 1024 + 7 + 5]);
}

fn fill(cache: &mut BlockCache, block: u32, size: usize) -> Arc<Vec<u8>> {
    cache
        .fetch(block, || Ok(vec![block as u8; size]))
        .expect("filling a cache block cannot fail")
}

fn is_resident(cache: &mut BlockCache, block: u32) -> bool {
    cache.resident(block).is_some()
}

#[test]
fn block_cache_evicts_to_stay_within_its_budget() {
    let mut cache = BlockCache::new(100);
    fill(&mut cache, 0, 60);
    fill(&mut cache, 1, 30);
    assert_eq!(cache.resident_bytes(), 90);

    fill(&mut cache, 2, 50);
    assert!(cache.resident_bytes() <= 100, "budget respected");
    assert!(
        !is_resident(&mut cache, 0),
        "least recently used block evicted"
    );
    assert!(is_resident(&mut cache, 2));
}

#[test]
fn block_cache_keeps_a_block_larger_than_its_budget() {
    let mut cache = BlockCache::new(10);
    fill(&mut cache, 0, 4096);
    assert!(is_resident(&mut cache, 0), "an oversize block still lands");
    assert_eq!(cache.resident_bytes(), 4096);

    fill(&mut cache, 1, 4);
    assert!(
        !is_resident(&mut cache, 0),
        "and is evicted by the next insert"
    );
    assert_eq!(cache.resident_bytes(), 4);
}

#[test]
fn block_cache_entry_outlives_its_eviction() {
    let mut cache = BlockCache::new(1024);
    let held = fill(&mut cache, 0, 1024);
    fill(&mut cache, 1, 1024);
    assert_eq!(cache.resident_bytes(), 1024, "block 0 was evicted");
    assert!(
        held.iter().all(|b| *b == 0),
        "a reader holding an evicted block still sees its bytes"
    );
}

#[test]
fn block_cache_readmitting_a_block_does_not_double_count() {
    let mut inner = Inner::default();
    inner.store(7, Arc::new(vec![0u8; 100]), 1000);
    inner.store(7, Arc::new(vec![0u8; 250]), 1000);
    assert_eq!(inner.resident(), 250);
    assert_eq!(inner.len(), 1, "one queue entry per resident block");
}

#[test]
fn known_features_are_accepted() {
    assert!(check_features(&[]).is_ok());
    assert!(check_features(&["sparsefiles".to_string()]).is_ok());
}

#[test]
fn unknown_features_are_refused_by_name() {
    let err = check_features(&["sparsefiles".to_string(), "timetravel".to_string()])
        .expect_err("unknown feature is refused");
    match err {
        Error::UnsupportedFeature { name } => assert_eq!(name, "timetravel"),
        other => panic!("expected UnsupportedFeature, got {}", other.to_string()),
    }
}

#[test]
fn split_path_works() {
    let parts: Vec<&[u8]> = split_path(b"/a/b/c");
    assert_eq!(parts, vec![&b"a"[..], &b"b"[..], &b"c"[..]]);
    let parts: Vec<&[u8]> = split_path(b"");
    assert!(parts.is_empty());
}

#[test]
fn one_reader_decodes_a_block_while_others_wait() {
    let mut cache = BlockCache::new(1 << 20);
    assert!(matches!(cache.begin(0), Fetch::Load));
    assert!(matches!(cache.begin(0), Fetch::Wait), "block 0 is being decoded");
    assert!(matches!(cache.begin(1), Fetch::Load), "block 1 decodes alongside");
    assert!(matches!(cache.begin(0), Fetch::Wait));
    cache.publish(0, Arc::new(vec![7u8; 16]));
    match cache.begin(0) {
        Fetch::Hit(bytes) => assert_eq!(*bytes, vec![7u8; 16]),
        _ => panic!("a published block is served"),
    }
    assert_eq!(cache.resident_bytes(), 16);
    cache.abort(1);
    assert!(matches!(cache.begin(1), Fetch::Load), "a failed decode is not cached");
}

#[test]
fn published_blocks_stay_within_the_budget() {
    let mut cache = BlockCache::new(4096);
    for round in 0..16u32 {
        for block in 0..8u32 {
            if let Fetch::Load = cache.begin((block * 3 + round) % 8) {
                cache.publish((block * 3 + round) % 8, Arc::new(vec![1u8; 1024]));
            }
            assert!(cache.resident_bytes() <= 4096);
        }
    }
    cache.publish(9, Arc::new(vec![1u8; 5000]));
    assert_eq!(cache.resident_bytes(), 5000, "a larger block stands alone");
}

#[test]
fn a_budget_of_nothing_never_hits() {
    let mut cache = BlockCache::new(0);
    cache.insert(3, Arc::new(vec![1u8; 8]));
    assert!(cache.cached(3).is_none());
    assert!(matches!(cache.begin(3), Fetch::Load));
    assert_eq!(cache.resident(3), Some(&[1u8; 8][..]), "the last block is held");
}
