use std::io::Write;

use content_mapp_rs::ncd::{
    get_n_most_similar_files, get_n_most_similar_files_by_id, ncd_from_counts, ncd_less, ncds,
    rank, FileContents, Ncd, NcdError, NcdIdMapping,
};

fn zlib_len(data: &[u8]) -> usize {
    let mut e = flate2::write::ZlibEncoder::new(Vec::new(), flate2::Compression::default());
    e.write_all(data).unwrap();
    e.finish().unwrap().len()
}

fn file(path: &str, bytes: &[u8]) -> FileContents {
    FileContents { path: path.to_string(), bytes: bytes.to_vec() }
}

fn expected_ncd(x: &[u8], y: &[u8]) -> Ncd {
    let cx = zlib_len(x);
    let cy = zlib_len(y);
    let mut xy = x.to_vec();
    xy.extend_from_slice(y);
    let cxy = zlib_len(&xy);
    Ncd { numerator: cxy - cx.min(cy), denominator: cx.max(cy) }
}

fn mapping(idx: usize, n: usize, d: usize) -> NcdIdMapping {
    NcdIdMapping { path_idx: idx, ncd_value: Ncd { numerator: n, denominator: d } }
}

#[test]
fn ncd_from_counts_exact_fraction() {
    assert_eq!(ncd_from_counts(10, 20, 25), Ncd { numerator: 15, denominator: 20 });
    assert_eq!(ncd_from_counts(20, 10, 25), Ncd { numerator: 15, denominator: 20 });
    assert_eq!(ncd_from_counts(7, 7, 7), Ncd { numerator: 0, denominator: 7 });
}

#[test]
fn ncd_less_compares_fractions() {
    let half = Ncd { numerator: 1, denominator: 2 };
    let third = Ncd { numerator: 1, denominator: 3 };
    let two_quarters = Ncd { numerator: 2, denominator: 4 };
    let inf = Ncd { numerator: 1, denominator: 0 };
    assert!(ncd_less(&third, &half));
    assert!(!ncd_less(&half, &third));
    assert!(!ncd_less(&half, &two_quarters));
    assert!(!ncd_less(&two_quarters, &half));
    assert!(ncd_less(&half, &inf));
    assert!(!ncd_less(&inf, &half));
    let big = Ncd { numerator: usize::MAX, denominator: usize::MAX - 1 };
    let one = Ncd { numerator: usize::MAX, denominator: usize::MAX };
    assert!(ncd_less(&one, &big));
}

#[test]
fn ncds_skips_the_needle_and_matches_flate2() {
    let x = b"the quick brown fox jumps over the lazy dog".to_vec();
    let y = b"the quick brown fox jumps over the lazy cat".to_vec();
    let z = b"0123456789 completely different content here".to_vec();
    let needle = file("dir/a.txt", &x);
    let hay = vec![file("dir/b.txt", &y), file("dir/a.txt", &x), file("dir/c.txt", &z)];
    let res = ncds(&needle, &hay).unwrap();
    assert_eq!(res.len(), 2);
    assert_eq!(res[0], NcdIdMapping { path_idx: 0, ncd_value: expected_ncd(&x, &y) });
    assert_eq!(res[1], NcdIdMapping { path_idx: 2, ncd_value: expected_ncd(&x, &z) });
}

#[test]
fn ncds_skips_a_path_spelled_differently() {
    let x = b"some contents".to_vec();
    let needle = file("dir/a.txt", &x);
    let hay = vec![file("dir//a.txt", &x), file("dir/./b.txt", b"other")];
    let res = ncds(&needle, &hay).unwrap();
    assert_eq!(res.len(), 1);
    assert_eq!(res[0].path_idx, 1);
}

#[test]
fn ncds_empty_haystack() {
    let needle = file("a", b"abc");
    let res = ncds(&needle, &[]).unwrap();
    assert!(res.is_empty());
}

#[test]
fn most_similar_by_id_sorted_and_cut() {
    let x = b"abcabcabcabcabcabcabcabcabcabc hello world".to_vec();
    let near = b"abcabcabcabcabcabcabcabcabcabc hello there".to_vec();
    let far = b"zyxwvutsrqponmlkjihgfedcba 9876543210 !?".to_vec();
    let needle = file("x", &x);
    let hay = vec![file("far", &far), file("near", &near), file("x", &x)];
    let all = get_n_most_similar_files_by_id(5, &needle, &hay).unwrap();
    assert_eq!(all.len(), 2);
    assert_eq!(all[0].path_idx, 1);
    assert_eq!(all[1].path_idx, 0);
    let one = get_n_most_similar_files_by_id(1, &needle, &hay).unwrap();
    assert_eq!(one, vec![all[0]]);
    let none = get_n_most_similar_files_by_id(0, &needle, &hay).unwrap();
    assert!(none.is_empty());
}

#[test]
fn most_similar_files_carry_paths() {
    let x = b"abcabcabcabcabcabcabcabcabcabc hello world".to_vec();
    let near = b"abcabcabcabcabcabcabcabcabcabc hello there".to_vec();
    let far = b"zyxwvutsrqponmlkjihgfedcba 9876543210 !?".to_vec();
    let needle = file("x", &x);
    let hay = vec![file("far", &far), file("near", &near), file("x", &x)];
    let res = get_n_most_similar_files(5, &needle, &hay).unwrap();
    assert_eq!(res.len(), 2);
    assert_eq!(res[0].file_path, "near");
    assert_eq!(res[0].ncd_value, expected_ncd(&x, &near));
    assert_eq!(res[1].file_path, "far");
    assert_eq!(res[1].ncd_value, expected_ncd(&x, &far));
}

#[test]
fn rank_is_a_stable_sort() {
    let v = vec![mapping(0, 1, 2), mapping(1, 1, 3), mapping(2, 2, 4), mapping(3, 0, 5)];
    let r = rank(v, 10).unwrap();
    assert_eq!(r, vec![mapping(3, 0, 5), mapping(1, 1, 3), mapping(0, 1, 2), mapping(2, 2, 4)]);
}

#[test]
fn rank_cuts_to_n() {
    let v = vec![mapping(0, 3, 4), mapping(1, 1, 4), mapping(2, 2, 4)];
    let r = rank(v, 2).unwrap();
    assert_eq!(r, vec![mapping(1, 1, 4), mapping(2, 2, 4)]);
}

#[test]
fn rank_infinity_goes_last() {
    let v = vec![mapping(0, 1, 0), mapping(1, 5, 4)];
    let r = rank(v, 2).unwrap();
    assert_eq!(r, vec![mapping(1, 5, 4), mapping(0, 1, 0)]);
}

#[test]
fn rank_refuses_not_a_number() {
    let v = vec![mapping(0, 0, 0), mapping(1, 1, 2)];
    assert_eq!(rank(v, 2), Err(NcdError::Incomparable));
    let single = vec![mapping(0, 0, 0)];
    assert_eq!(rank(single, 2), Ok(vec![mapping(0, 0, 0)]));
}
