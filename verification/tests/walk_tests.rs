use content_mapp_rs::cache::NSimilarCache;
use content_mapp_rs::file_walk::{
    get_all_file_data, get_file_paths, is_hidden, FileWalker, WalkEntry,
};
use content_mapp_rs::get_all_file_paths;
use content_mapp_rs::indexer::FileSimilarities;

fn entry(path: &str, name: Option<&str>, is_dir: Option<bool>, modified: Option<i128>) -> Option<WalkEntry> {
    Some(WalkEntry {
        path: path.to_string(),
        file_name: name.map(|s| s.to_string()),
        is_dir,
        modified,
    })
}

fn sample_walk() -> Vec<Option<WalkEntry>> {
    vec![
        entry("./", Some("./"), Some(true), Some(1)),
        entry("./a.txt", Some("a.txt"), Some(false), Some(100)),
        entry("./.hidden", Some(".hidden"), Some(false), Some(100)),
        None,
        entry("./sub", Some("sub"), Some(true), Some(5)),
        entry("./sub/b.txt", Some("b.txt"), Some(false), None),
        entry("./sub/c.txt", Some("c.txt"), Some(false), Some(300)),
        entry("./weird", None, Some(false), Some(7)),
        entry("./unknown", Some("unknown"), None, Some(8)),
    ]
}

fn sims(date: i128) -> FileSimilarities {
    FileSimilarities { n_most_similar: vec![], date_modified: date }
}

#[test]
fn hidden_names() {
    assert!(is_hidden(&Some(".git".to_string())));
    assert!(is_hidden(&Some(".".to_string())));
    assert!(!is_hidden(&Some("./".to_string())));
    assert!(!is_hidden(&Some("a.txt".to_string())));
    assert!(!is_hidden(&Some("".to_string())));
    assert!(!is_hidden(&None));
}

#[test]
fn file_paths_of_a_walk() {
    let walk = sample_walk();
    assert_eq!(
        get_all_file_paths(&walk),
        vec!["./a.txt".to_string(), "./sub/b.txt".to_string(), "./sub/c.txt".to_string(), "./weird".to_string()]
    );
    assert_eq!(get_file_paths(&walk[1]), Some("./a.txt".to_string()));
    assert_eq!(get_file_paths(&walk[2]), None);
    assert_eq!(get_file_paths(&walk[3]), None);
    assert_eq!(get_file_paths(&walk[8]), None);
}

#[test]
fn file_data_needs_a_modification_time() {
    let walk = sample_walk();
    let data = get_all_file_data(&walk);
    let got: Vec<(String, i128)> = data.into_iter().map(|d| (d.path, d.date_modified)).collect();
    assert_eq!(
        got,
        vec![("./a.txt".to_string(), 100), ("./sub/c.txt".to_string(), 300), ("./weird".to_string(), 7)]
    );
}

#[test]
fn walker_counts_and_lists() {
    let walk = sample_walk();
    let w = FileWalker::new("./".to_string(), &walk);
    assert_eq!(w.root_dir(), "./");
    assert_eq!(w.total_file_count(), 3);
    assert_eq!(
        w.all_paths(&walk),
        vec!["./a.txt".to_string(), "./sub/c.txt".to_string(), "./weird".to_string()]
    );
    assert_eq!(FileWalker::get_all_file_paths(&walk[..2]), vec!["./a.txt".to_string()]);
}

#[test]
fn modified_files_against_the_index() {
    let walk = sample_walk();
    let w = FileWalker::new("./".to_string(), &walk);
    let cache = NSimilarCache::from(vec![
        ("./a.txt".to_string(), sims(100)),
        ("./sub/c.txt".to_string(), sims(250)),
        ("./gone.txt".to_string(), sims(1)),
    ]);
    assert_eq!(
        w.get_all_modified_files(&walk, &cache),
        vec!["./sub/c.txt".to_string(), "./weird".to_string(), "./gone.txt".to_string()]
    );
}

#[test]
fn nothing_modified() {
    let walk = vec![entry("./a.txt", Some("a.txt"), Some(false), Some(100))];
    let w = FileWalker::new("./".to_string(), &walk);
    let cache = NSimilarCache::from(vec![("./a.txt".to_string(), sims(100))]);
    assert!(w.get_all_modified_files(&walk, &cache).is_empty());
}
