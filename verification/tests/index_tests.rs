use wsearch::index::{build_path_map, index_from_cache, insert_files, merge_scanned, path_set, record_open, remove_paths};
use wsearch::scan::{is_ignored_change, is_ignored_name, new_file_entry, scanned_files};
use wsearch::types::FileInfo;

fn file(name: &str, path: &str) -> FileInfo {
    FileInfo {
        name: name.to_string(),
        name_lowercase: name.to_lowercase(),
        path: path.to_string(),
        size: 1,
        is_dir: false,
        open_count: 0,
        icon_index: -1,
    }
}

fn sorted_index() -> Vec<FileInfo> {
    vec![file("a.txt", "C:\\a.txt"), file("b.txt", "C:\\b.txt"), file("c.txt", "C:\\c.txt")]
}

fn names(v: &[FileInfo]) -> Vec<&str> {
    v.iter().map(|f| f.name.as_str()).collect()
}

#[test]
fn path_map_points_at_each_file() {
    let idx = sorted_index();
    let m = build_path_map(&idx);
    assert_eq!(m.get("C:\\a.txt").copied(), Some(0));
    assert_eq!(m.get("C:\\c.txt").copied(), Some(2));
    assert_eq!(m.get("C:\\zzz").copied(), None);
}

#[test]
fn record_open_counts_once_more() {
    let mut idx = sorted_index();
    let m = build_path_map(&idx);
    assert!(record_open(&mut idx, &m, "C:\\b.txt"));
    assert!(record_open(&mut idx, &m, "C:\\b.txt"));
    assert_eq!(idx[1].open_count, 2);
    assert_eq!(idx[0].open_count, 0);
}

#[test]
fn record_open_unknown_path_changes_nothing() {
    let mut idx = sorted_index();
    let m = build_path_map(&idx);
    assert!(!record_open(&mut idx, &m, "C:\\nope"));
    assert!(idx.iter().all(|f| f.open_count == 0));
}

#[test]
fn record_open_stale_map_entry_is_ignored() {
    let mut idx = sorted_index();
    let m = build_path_map(&idx);
    idx.remove(0);
    // The map still says position 0 for a.txt, where b.txt now is.
    assert!(!record_open(&mut idx, &m, "C:\\a.txt"));
    assert_eq!(idx[0].open_count, 0);
}

#[test]
fn record_open_saturates() {
    let mut idx = sorted_index();
    idx[2].open_count = u32::MAX;
    let m = build_path_map(&idx);
    assert!(record_open(&mut idx, &m, "C:\\c.txt"));
    assert_eq!(idx[2].open_count, u32::MAX);
}

#[test]
fn merge_sorts_and_indexes_paths() {
    let mut idx = vec![file("m.txt", "C:\\m.txt")];
    let mut m = build_path_map(&idx);
    merge_scanned(&mut idx, &mut m, vec![file("Z.txt", "D:\\Z.txt"), file("b.txt", "D:\\b.txt")], true);
    assert_eq!(names(&idx), vec!["b.txt", "m.txt", "Z.txt"]);
    assert_eq!(m.get("D:\\Z.txt").copied(), Some(2));
    assert_eq!(m.get("C:\\m.txt").copied(), Some(1));
}

#[test]
fn merge_without_existing_replaces() {
    let mut idx = vec![file("m.txt", "C:\\m.txt")];
    let mut m = build_path_map(&idx);
    merge_scanned(&mut idx, &mut m, vec![file("q.txt", "D:\\q.txt")], false);
    assert_eq!(names(&idx), vec!["q.txt"]);
    assert_eq!(m.get("C:\\m.txt").copied(), None);
    assert_eq!(m.get("D:\\q.txt").copied(), Some(0));
}

#[test]
fn insert_places_new_files_in_order() {
    let mut idx = sorted_index();
    let mut m = build_path_map(&idx);
    insert_files(&mut idx, &mut m, vec![file("bb.txt", "C:\\bb.txt"), file("0.txt", "C:\\0.txt")]);
    assert_eq!(names(&idx), vec!["0.txt", "a.txt", "b.txt", "bb.txt", "c.txt"]);
    for (i, f) in idx.iter().enumerate() {
        assert_eq!(m.get(&f.path).copied(), Some(i));
    }
}

#[test]
fn insert_same_path_updates_the_entry() {
    let mut idx = sorted_index();
    let mut m = build_path_map(&idx);
    let mut newer = file("b.txt", "C:\\b.txt");
    newer.size = 99;
    insert_files(&mut idx, &mut m, vec![newer]);
    assert_eq!(idx.len(), 3);
    assert_eq!(idx[1].size, 99);
    assert_eq!(m.get("C:\\b.txt").copied(), Some(1));
}

#[test]
fn insert_same_name_at_another_path_keeps_both() {
    let mut idx = sorted_index();
    let mut m = build_path_map(&idx);
    insert_files(&mut idx, &mut m, vec![file("B.txt", "D:\\other\\B.txt")]);
    assert_eq!(idx.len(), 4);
    assert_eq!(names(&idx), vec!["a.txt", "B.txt", "b.txt", "c.txt"]);
    for (i, f) in idx.iter().enumerate() {
        assert_eq!(m.get(&f.path).copied(), Some(i));
    }
}

#[test]
fn insert_renamed_file_moves_to_its_new_place() {
    let mut idx = sorted_index();
    let mut m = build_path_map(&idx);
    let renamed = file("z.txt", "C:\\a.txt");
    insert_files(&mut idx, &mut m, vec![renamed]);
    assert_eq!(names(&idx), vec!["b.txt", "c.txt", "z.txt"]);
    for (i, f) in idx.iter().enumerate() {
        assert_eq!(m.get(&f.path).copied(), Some(i));
    }
    assert_eq!(m.len(), 3);
}

#[test]
fn remove_paths_drops_known_files() {
    let mut idx = sorted_index();
    let mut m = build_path_map(&idx);
    let n = remove_paths(&mut idx, &mut m, &vec!["C:\\a.txt".to_string(), "C:\\nope".to_string(), "C:\\c.txt".to_string()]);
    assert_eq!(n, 2);
    assert_eq!(names(&idx), vec!["b.txt"]);
    assert_eq!(m.get("C:\\b.txt").copied(), Some(0));
    assert_eq!(m.get("C:\\a.txt").copied(), None);
}

#[test]
fn remove_unknown_paths_changes_nothing() {
    let mut idx = sorted_index();
    let mut m = build_path_map(&idx);
    let n = remove_paths(&mut idx, &mut m, &vec!["C:\\nope".to_string()]);
    assert_eq!(n, 0);
    assert_eq!(idx.len(), 3);
}

#[test]
fn cache_entries_get_lowercase_names() {
    let mut cached = vec![file("ReadMe.MD", "C:\\ReadMe.MD")];
    cached[0].name_lowercase = String::new();
    cached[0].open_count = 4;
    let (files, m) = index_from_cache(cached);
    assert_eq!(files[0].name_lowercase, "readme.md");
    assert_eq!(files[0].open_count, 4);
    assert_eq!(m.get("C:\\ReadMe.MD").copied(), Some(0));
}

#[test]
fn scan_keeps_new_files_only() {
    let entries = vec![
        ("C:\\x\\A.TXT".to_string(), "A.TXT".to_string(), false, 5u64),
        ("C:\\x\\dir".to_string(), "dir".to_string(), true, 0u64),
        ("C:\\a.txt".to_string(), "a.txt".to_string(), false, 7u64),
    ];
    let known = path_set(&vec![file("a.txt", "C:\\a.txt")]);
    let out = scanned_files(entries.clone(), Some(&known));
    assert_eq!(out.len(), 1);
    assert_eq!(out[0].name_lowercase, "a.txt");
    assert_eq!(out[0].path, "C:\\x\\A.TXT");
    assert_eq!(out[0].size, 5);
    assert_eq!(out[0].icon_index, -1);
    let all = scanned_files(entries, None);
    assert_eq!(all.len(), 2);
}

#[test]
fn ignored_names_match_ascii_case_insensitively() {
    assert!(is_ignored_name("NODE_MODULES"));
    assert!(is_ignored_name(".Git"));
    assert!(is_ignored_name("system32"));
    assert!(!is_ignored_name("node"));
    assert!(!is_ignored_name("Windows.old"));
}

#[test]
fn new_entry_skips_ignored_names() {
    assert!(new_file_entry("AppData".to_string(), "C:\\u\\AppData".to_string(), 0).is_none());
    let f = new_file_entry("Notes.TXT".to_string(), "C:\\Notes.TXT".to_string(), 3).unwrap();
    assert_eq!(f.name_lowercase, "notes.txt");
    assert_eq!(f.open_count, 0);
    assert!(!f.is_dir);
}

#[test]
fn change_paths_under_ignored_dirs_are_skipped() {
    assert!(is_ignored_change("C:\\proj\\node_modules\\x.js"));
    assert!(is_ignored_change("C:\\proj\\.GIT\\HEAD"));
    assert!(is_ignored_change("C:\\Windows\\x.dll"));
    assert!(is_ignored_change("C:\\Users\\u\\AppData\\Local\\x.txt"));
    assert!(is_ignored_change("C:\\Users\\u\\AppData"));
    assert!(!is_ignored_change("C:\\proj\\src\\main.rs"));
}

#[test]
fn change_paths_match_whole_components_only() {
    assert!(!is_ignored_change("C:\\proj\\.gitignore"));
    assert!(!is_ignored_change("C:\\WindowsApps\\x.exe"));
    assert!(!is_ignored_change("C:\\proj\\my.git\\x"));
}

#[test]
fn updated_file_keeps_its_open_count() {
    let mut idx = sorted_index();
    idx[1].open_count = 7;
    let mut m = build_path_map(&idx);
    let mut newer = file("b.txt", "C:\\b.txt");
    newer.size = 42;
    insert_files(&mut idx, &mut m, vec![newer]);
    assert_eq!(idx.len(), 3);
    assert_eq!(idx[1].size, 42);
    assert_eq!(idx[1].open_count, 7);
}
