use wsearch::cache::{decode_cache, encode_cache, remove_stale, sample_step, stale_candidates, CacheError};
use wsearch::index::build_path_map;
use wsearch::types::FileInfo;

fn entry(name: &str, is_dir: bool) -> FileInfo {
    FileInfo {
        name: name.to_string(),
        name_lowercase: name.to_lowercase(),
        path: format!("C:\\{}", name),
        size: 0,
        is_dir,
        open_count: 0,
        icon_index: -1,
    }
}

#[test]
fn cache_round_trip() {
    let data: Vec<u8> = (0..2000u32).map(|i| (i % 251) as u8).collect();
    let framed = encode_cache(&data);
    assert_eq!(&framed[..2], &[0x1f, 0x8b]);
    assert_eq!(decode_cache(&framed).unwrap(), data);
}

#[test]
fn cache_round_trip_empty() {
    let framed = encode_cache(&[]);
    assert_eq!(decode_cache(&framed).unwrap(), Vec::<u8>::new());
}

#[test]
fn cache_garbage_is_refused() {
    assert_eq!(decode_cache(b"not a gzip stream"), Err(CacheError::Decompress));
}

#[test]
fn sample_step_values() {
    assert_eq!(sample_step(0), 1);
    assert_eq!(sample_step(5000), 5);
    assert_eq!(sample_step(20000), 10);
    assert_eq!(sample_step(200000), 20);
    assert_eq!(sample_step(999), 1);
}

#[test]
fn stale_candidates_skip_directories() {
    let files = vec![entry("a", false), entry("b", false), entry("c", true), entry("d", false), entry("e", false)];
    assert_eq!(stale_candidates(&files, 2), vec![0, 4]);
    assert_eq!(stale_candidates(&files, 1), vec![0, 1, 3, 4]);
    assert_eq!(stale_candidates(&files, 10), vec![0]);
}

#[test]
fn remove_stale_drops_listed_positions() {
    let mut files = vec![entry("a", false), entry("b", false), entry("c", false), entry("d", false)];
    let mut m = build_path_map(&files);
    let n = remove_stale(&mut files, &mut m, &vec![0, 2, 9]);
    assert_eq!(n, 3);
    let left: Vec<&str> = files.iter().map(|f| f.name.as_str()).collect();
    assert_eq!(left, vec!["b", "d"]);
    assert_eq!(m.get("C:\\d").copied(), Some(1));
    assert_eq!(m.get("C:\\a").copied(), None);
}

#[test]
fn remove_stale_nothing_listed() {
    let mut files = vec![entry("a", false)];
    let mut m = build_path_map(&files);
    assert_eq!(remove_stale(&mut files, &mut m, &vec![]), 0);
    assert_eq!(files.len(), 1);
}
