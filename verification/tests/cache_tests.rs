use std::io::Write;

use content_mapp_rs::cache::{CompressedByteCache, NSimilarCache};
use content_mapp_rs::indexer::FileSimilarities;
use content_mapp_rs::ncd::{
    get_n_most_similar_files, get_n_most_similar_files_cached, ncds, ncds_cached, FileContents,
    Ncd, NcdError, NormalizedCompressedDistance,
};

fn zlib_len(data: &[u8]) -> usize {
    let mut e = flate2::write::ZlibEncoder::new(Vec::new(), flate2::Compression::default());
    e.write_all(data).unwrap();
    e.finish().unwrap().len()
}

fn file(path: &str, bytes: &[u8]) -> FileContents {
    FileContents { path: path.to_string(), bytes: bytes.to_vec() }
}

fn sims(date: i128) -> FileSimilarities {
    FileSimilarities {
        n_most_similar: vec![NormalizedCompressedDistance {
            file_path: "other".to_string(),
            ncd_value: Ncd { numerator: 1, denominator: 2 },
        }],
        date_modified: date,
    }
}

#[test]
fn get_or_computes_once_then_reads_back() {
    let mut cache = CompressedByteCache::with_capacity(4);
    assert_eq!(cache.len(), 0);
    let p = "dir/a.txt".to_string();
    assert_eq!(cache.get_or(&p, || Ok(42)), Ok(42));
    assert_eq!(cache.get_or(&p, || Ok(7)), Ok(42));
    assert_eq!(cache.get_or(&"dir//a.txt".to_string(), || Ok(7)), Ok(42));
    assert_eq!(cache.len(), 1);
    assert_eq!(cache.get("dir/a.txt"), Some(42));
    assert_eq!(cache.get("dir/b.txt"), None);
}

#[test]
fn get_or_passes_errors_on_and_caches_nothing() {
    let mut cache = CompressedByteCache::with_capacity(0);
    let p = "a".to_string();
    assert_eq!(cache.get_or(&p, || Err(NcdError::CompressionFailed)), Err(NcdError::CompressionFailed));
    assert_eq!(cache.len(), 0);
    assert_eq!(cache.get_or(&p, || Ok(3)), Ok(3));
}

#[test]
fn clear_invalid_paths_drops_them() {
    let mut cache = CompressedByteCache::with_capacity(3);
    for (p, v) in [("a", 1usize), ("b", 2), ("c", 3)] {
        cache.get_or(&p.to_string(), || Ok(v)).unwrap();
    }
    let existing = ["a".to_string(), "b".to_string(), "c".to_string()];
    cache.clear_invalid_paths(&["b".to_string(), "c/".to_string()], &existing);
    assert_eq!(cache.get("a"), Some(1));
    assert_eq!(cache.get("b"), None);
    assert_eq!(cache.get("c"), None);
    assert_eq!(cache.len(), 1);
}

#[test]
fn clear_invalid_paths_drops_vanished_files() {
    let mut cache = CompressedByteCache::with_capacity(3);
    for (p, v) in [("a", 1usize), ("b", 2), ("c", 3)] {
        cache.get_or(&p.to_string(), || Ok(v)).unwrap();
    }
    cache.clear_invalid_paths(&[], &["./b".to_string(), "c//".to_string()]);
    assert_eq!(cache.get("a"), None);
    assert_eq!(cache.get("b"), None);
    assert_eq!(cache.get("c"), Some(3));
    assert_eq!(cache.len(), 1);
    cache.clear_invalid_paths(&[], &[]);
    assert_eq!(cache.len(), 0);
}

#[test]
fn ncds_cached_fills_the_cache_and_matches_ncds() {
    let x = b"alpha beta gamma delta alpha beta gamma".to_vec();
    let y = b"alpha beta gamma epsilon alpha beta".to_vec();
    let z = b"completely unrelated text 123456".to_vec();
    let hay = vec![file("x", &x), file("y", &y), file("z", &z)];
    let mut cache = CompressedByteCache::with_capacity(3);
    let cached = ncds_cached(&mut cache, &hay[0], &hay).unwrap();
    assert_eq!(cached, ncds(&hay[0], &hay).unwrap());
    assert_eq!(cache.get("x"), Some(zlib_len(&x)));
    assert_eq!(cache.get("y"), Some(zlib_len(&y)));
    assert_eq!(cache.get("z"), Some(zlib_len(&z)));
    let again = ncds_cached(&mut cache, &hay[1], &hay).unwrap();
    assert_eq!(again, ncds(&hay[1], &hay).unwrap());
    assert_eq!(cache.len(), 3);
}

#[test]
fn ncds_cached_uses_stale_counts() {
    let x = b"abcdefabcdefabcdef".to_vec();
    let y = b"abcdefabcdefabcdeg".to_vec();
    let hay = vec![file("x", &x), file("y", &y)];
    let mut cache = CompressedByteCache::with_capacity(2);
    cache.get_or(&"y".to_string(), || Ok(1_000_000)).unwrap();
    cache.get_or(&"x".to_string(), || Ok(1_000_000)).unwrap();
    assert_eq!(ncds_cached(&mut cache, &hay[0], &hay), Err(NcdError::PairSmallerThanPart));
}

#[test]
fn ncds_cached_error_from_cache_fill() {
    let hay = vec![file("x", b"x"), file("y", b"y")];
    let mut cache = CompressedByteCache::with_capacity(2);
    assert_eq!(cache.get_or(&"x".to_string(), || Err(NcdError::CompressionFailed)), Err(NcdError::CompressionFailed));
    let r = ncds_cached(&mut cache, &hay[0], &hay);
    assert!(r.is_ok());
}

#[test]
fn most_similar_cached_matches_uncached() {
    let hay = vec![
        file("a", b"lorem ipsum dolor sit amet lorem ipsum"),
        file("b", b"lorem ipsum dolor sit amet consectetur"),
        file("c", b"0101010101010101 zzzzzz"),
        file("d", b"lorem ipsum"),
    ];
    let mut cache = CompressedByteCache::with_capacity(4);
    for f in &hay {
        let cached = get_n_most_similar_files_cached(&mut cache, 2, f, &hay).unwrap();
        let plain = get_n_most_similar_files(2, f, &hay).unwrap();
        assert_eq!(cached, plain);
        assert_eq!(cached.len(), 2);
    }
}

#[test]
fn n_similar_cache_insert_and_lookup() {
    let mut c = NSimilarCache::default();
    c.insert("a".to_string(), sims(10));
    c.insert("b".to_string(), sims(20));
    c.insert("a/".to_string(), sims(30));
    assert_eq!(c.len(), 2);
    assert_eq!(c.path(0), "a");
    assert_eq!(c.get_path_date_modified("a"), Some(30));
    assert_eq!(c.get_path_date_modified("b"), Some(20));
    assert_eq!(c.get_path_date_modified("c"), None);
    assert_eq!(c.similarities(1).date_modified, 20);
}

#[test]
fn n_similar_cache_from_later_wins() {
    let c = NSimilarCache::from(vec![
        ("a".to_string(), sims(1)),
        ("b".to_string(), sims(2)),
        ("a".to_string(), sims(3)),
    ]);
    assert_eq!(c.len(), 2);
    assert_eq!(c.get_path_date_modified("a"), Some(3));
}

#[test]
fn n_similar_cache_merge() {
    let mut c = NSimilarCache::from(vec![("a".to_string(), sims(1)), ("b".to_string(), sims(2))]);
    let other = NSimilarCache::from(vec![("b".to_string(), sims(5)), ("c".to_string(), sims(6))]);
    c.merge(other);
    assert_eq!(c.len(), 3);
    assert_eq!(c.get_path_date_modified("a"), Some(1));
    assert_eq!(c.get_path_date_modified("b"), Some(5));
    assert_eq!(c.get_path_date_modified("c"), Some(6));
}

#[test]
fn n_similar_cache_removed_paths() {
    let c = NSimilarCache::from(vec![
        ("a".to_string(), sims(1)),
        ("b".to_string(), sims(2)),
        ("c".to_string(), sims(3)),
    ]);
    let removed = c.get_removed_paths(&["a".to_string(), "./c".to_string(), "c//".to_string()]);
    assert_eq!(removed, vec!["b".to_string()]);
}
