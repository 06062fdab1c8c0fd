use content_mapp_rs::cache::{CompressedByteCache, NSimilarCache};
use content_mapp_rs::file_walk::WalkEntry;
use content_mapp_rs::index_all_files;
use content_mapp_rs::indexer::{cache_dir_of, similar_for_all, Indexer};
use content_mapp_rs::ncd::{get_n_most_similar_files, FileContents};

fn file(path: &str, bytes: &[u8]) -> FileContents {
    FileContents { path: path.to_string(), bytes: bytes.to_vec() }
}

fn entry(path: &str, name: &str, modified: i128) -> Option<WalkEntry> {
    Some(WalkEntry {
        path: path.to_string(),
        file_name: Some(name.to_string()),
        is_dir: Some(false),
        modified: Some(modified),
    })
}

fn corpus() -> Vec<FileContents> {
    vec![
        file("root/a", b"the cat sat on the mat, the cat sat on the mat"),
        file("root/b", b"the cat sat on the hat, the cat sat on the hat"),
        file("root/c", b"0000000000111111111122222222223333333333"),
        file("root/d", b"the dog sat on the log"),
        file("root/e", b"0000000000111111111122222222224444444444"),
        file("root/f", b"random words: apple banana cherry"),
        file("root/g", b"the cat sat"),
    ]
}

#[test]
fn cache_dir_under_root() {
    assert_eq!(cache_dir_of("root"), "root/.content_mapp_rs");
    assert_eq!(cache_dir_of("root/"), "root/.content_mapp_rs");
}

#[test]
fn index_all_files_keeps_five_each() {
    let files = corpus();
    let res = index_all_files(&files).unwrap();
    assert_eq!(res.len(), files.len());
    for (i, (p, sims)) in res.iter().enumerate() {
        assert_eq!(p, &files[i].path);
        assert_eq!(sims.len(), 5);
        assert_eq!(sims, &get_n_most_similar_files(5, &files[i], &files).unwrap());
    }
}

#[test]
fn similar_for_all_with_a_shared_cache() {
    let files = corpus();
    let mut cache = CompressedByteCache::with_capacity(0);
    let res = similar_for_all(&mut cache, 2, &files).unwrap();
    assert_eq!(res.len(), files.len());
    assert_eq!(cache.len(), files.len());
    for (i, (_, sims)) in res.iter().enumerate() {
        assert_eq!(sims, &get_n_most_similar_files(2, &files[i], &files).unwrap());
    }
}

#[test]
fn indexer_indexes_and_detects_changes() {
    let files = corpus();
    let walk: Vec<Option<WalkEntry>> = files
        .iter()
        .map(|f| entry(&f.path, &f.path[5..], 10))
        .collect();
    let mut ix = Indexer::new("root".to_string(), 3, &walk, None);
    assert_eq!(ix.n(), 3);
    assert_eq!(ix.cache_dir(), "root/.content_mapp_rs");
    assert_eq!(ix.file_walker().total_file_count(), files.len());
    assert_eq!(ix.n_similar_cache().len(), 0);
    assert!(ix.needs_reindex(&walk));

    let dates = vec![10i128; files.len()];
    ix.index_all_files(&files, &dates).unwrap();
    let c = ix.n_similar_cache();
    assert_eq!(c.len(), files.len());
    for i in 0..files.len() {
        assert_eq!(c.path(i), &files[i].path);
        assert_eq!(c.similarities(i).date_modified, 10);
        assert_eq!(c.similarities(i).n_most_similar, get_n_most_similar_files(3, &files[i], &files).unwrap());
    }
    assert_eq!(ix.compressed_byte_cache().len(), files.len());
    assert!(!ix.needs_reindex(&walk));

    let mut walk2 = walk;
    walk2[2] = entry("root/c", "c", 11);
    walk2.pop();
    assert_eq!(ix.modified_files(&walk2), vec!["root/c".to_string(), "root/g".to_string()]);
    assert!(ix.needs_reindex(&walk2));

    ix.clear_stale_counts(&walk2);
    let counts = ix.compressed_byte_cache();
    assert_eq!(counts.len(), files.len() - 2);
    assert_eq!(counts.get("root/c"), None);
    assert_eq!(counts.get("root/g"), None);
    assert!(counts.get("root/a").is_some());
}

#[test]
fn clear_stale_counts_keeps_unchanged_files() {
    let files = corpus();
    let walk: Vec<Option<WalkEntry>> = files
        .iter()
        .map(|f| entry(&f.path, &f.path[5..], 10))
        .collect();
    let mut ix = Indexer::new("root".to_string(), 3, &walk, None);
    ix.index_all_files(&files, &vec![10i128; files.len()]).unwrap();
    ix.clear_stale_counts(&walk);
    assert_eq!(ix.compressed_byte_cache().len(), files.len());
}

#[test]
fn indexer_starts_from_loaded_caches() {
    let walk = vec![entry("root/a", "a", 1)];
    let mut counts = CompressedByteCache::with_capacity(1);
    counts.get_or(&"root/a".to_string(), || Ok(9)).unwrap();
    let sims = NSimilarCache::default();
    let ix = Indexer::new("root".to_string(), 5, &walk, Some((counts, sims)));
    assert_eq!(ix.compressed_byte_cache().get("root/a"), Some(9));
}

#[test]
fn index_files_leaves_the_index_alone() {
    let files = corpus();
    let mut ix = Indexer::new("root".to_string(), 2, &[], None);
    let c = ix.index_files(1, &files, &vec![0; files.len()]).unwrap();
    assert_eq!(c.len(), files.len());
    assert_eq!(c.similarities(0).n_most_similar.len(), 1);
    assert_eq!(ix.n_similar_cache().len(), 0);
}

#[test]
fn index_all_files_ranks_empty_files() {
    let files = vec![file("root/x", b""), file("root/y", b""), file("root/z", b"")];
    let res = index_all_files(&files).unwrap();
    assert_eq!(res.len(), 3);
    for (p, sims) in res.iter() {
        assert_eq!(sims.len(), 2);
        assert!(sims.iter().all(|d| &d.file_path != p));
        assert!(sims.iter().all(|d| d.ncd_value.denominator > 0));
    }
}
