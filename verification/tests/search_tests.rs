use wsearch::fuzzy::{fuzzy_match, fuzzy_score};
use wsearch::search::{lower_bound, search_files, SEARCH_LIMIT};
use wsearch::types::FileInfo;

fn file(name: &str, dir: &str, open_count: u32) -> FileInfo {
    FileInfo {
        name: name.to_string(),
        name_lowercase: name.to_lowercase(),
        path: format!("{}\\{}", dir, name),
        size: 10,
        is_dir: false,
        open_count,
        icon_index: -1,
    }
}

fn sample_index() -> Vec<FileInfo> {
    vec![
        file("alpha.txt", "C:\\docs", 0),
        file("beta.txt", "C:\\docs", 1),
        file("Betamax.doc", "C:\\docs", 5),
        file("gamma.txt", "C:\\docs", 2),
    ]
}

fn names(r: &[FileInfo]) -> Vec<String> {
    r.iter().map(|f| f.name.clone()).collect()
}

#[test]
fn fuzzy_empty_pattern_scores_zero() {
    assert_eq!(fuzzy_match("anything", ""), Some(0));
}

#[test]
fn fuzzy_full_consecutive_match_score() {
    assert_eq!(fuzzy_match("abc", "abc"), Some(157));
}

#[test]
fn fuzzy_ignores_case() {
    assert_eq!(fuzzy_match("ABC", "abc"), Some(157));
}

#[test]
fn fuzzy_missing_character_is_no_match() {
    assert_eq!(fuzzy_match("abc", "abd"), None);
}

#[test]
fn fuzzy_separator_bonus_and_gap_penalty() {
    assert_eq!(fuzzy_match("my_file", "mf"), Some(138));
}

#[test]
fn fuzzy_first_match_after_start_counts_as_consecutive() {
    assert_eq!(fuzzy_match("xa", "a"), Some(113));
}

#[test]
fn fuzzy_matches_exactly_subsequences() {
    assert!(fuzzy_match("document_12_important.txt", "doc_imp").is_some());
    assert!(fuzzy_match("document_12_important.txt", "imp_doc").is_none());
}

#[test]
fn fuzzy_score_on_characters() {
    let t: Vec<char> = "abc".chars().collect();
    let p: Vec<char> = "ac".chars().collect();
    // a: 10 + 15 at the start; c: 10, gap of one costs 1; length bonus 97.
    assert_eq!(fuzzy_score(&t, &p), Some(10 + 15 + 10 - 1 + 97));
}

#[test]
fn fuzzy_long_pattern_with_gaps_is_scored() {
    let text = "ab".repeat(25000);
    let pattern = "a".repeat(25000);
    // First a: 10 + 15; each later a: 10 less a gap of one; no length bonus.
    assert_eq!(fuzzy_match(&text, &pattern), Some(25 + 9 * 24999));
}

#[test]
fn fuzzy_score_leaving_i32_is_no_match() {
    let run = "a".repeat(30000);
    // The run bonus grows with each consecutive match and passes i32::MAX.
    assert_eq!(fuzzy_match(&run, &run), None);
    let t: Vec<char> = run.chars().collect();
    assert_eq!(fuzzy_score(&t, &t), None);
}

#[test]
fn lower_bound_finds_first_not_smaller() {
    let idx = sample_index();
    assert_eq!(lower_bound(&idx, b"beta"), 1);
    assert_eq!(lower_bound(&idx, b"a"), 0);
    assert_eq!(lower_bound(&idx, b"zzz"), 4);
    assert_eq!(lower_bound(&idx, b"beta.txt"), 1);
}

#[test]
fn search_prefix_matches_most_opened_first() {
    let idx = sample_index();
    let r = search_files("Beta".to_string(), 7, false, &idx);
    assert_eq!(r.search_id, 7);
    assert_eq!(names(&r.results), vec!["Betamax.doc", "beta.txt"]);
}

#[test]
fn search_substring_matches_before_the_insertion_point() {
    let idx = sample_index();
    let r = search_files("ta".to_string(), 1, false, &idx);
    assert_eq!(names(&r.results), vec!["Betamax.doc", "beta.txt"]);
}

#[test]
fn search_substring_matches_after_the_prefix() {
    let idx = sample_index();
    let r = search_files("a.t".to_string(), 1, false, &idx);
    // "alpha.txt" and "gamma.txt" contain "a.t"; "beta.txt" too.
    assert_eq!(names(&r.results), vec!["gamma.txt", "beta.txt", "alpha.txt"]);
}

#[test]
fn search_empty_query_gives_nothing() {
    let idx = sample_index();
    let r = search_files(String::new(), 3, true, &idx);
    assert_eq!(r.search_id, 3);
    assert!(r.results.is_empty());
}

#[test]
fn search_empty_index_gives_nothing() {
    let idx: Vec<FileInfo> = Vec::new();
    let r = search_files("a".to_string(), 4, true, &idx);
    assert_eq!(r.search_id, 4);
    assert!(r.results.is_empty());
}

#[test]
fn search_fuzzy_fallback_when_enabled() {
    let idx = sample_index();
    let plain = search_files("bmx".to_string(), 1, false, &idx);
    assert!(plain.results.is_empty());
    let fuzzy = search_files("bmx".to_string(), 1, true, &idx);
    assert_eq!(names(&fuzzy.results), vec!["Betamax.doc"]);
}

#[test]
fn search_fuzzy_needs_two_bytes() {
    let idx = vec![file("xyz", "C:\\d", 0)];
    let r = search_files("z".to_string(), 1, true, &idx);
    assert_eq!(names(&r.results), vec!["xyz"]);
    let r = search_files("q".to_string(), 1, true, &idx);
    assert!(r.results.is_empty());
}

#[test]
fn search_fuzzy_skips_files_already_found() {
    let idx = vec![file("ab", "C:\\d", 0), file("axb", "C:\\d", 0)];
    let r = search_files("ab".to_string(), 1, true, &idx);
    let mut got = names(&r.results);
    got.sort();
    assert_eq!(got, vec!["ab", "axb"]);
}

#[test]
fn search_returns_at_most_the_limit() {
    let mut idx: Vec<FileInfo> = (0..150).map(|i| file(&format!("file{:03}.txt", i), "C:\\d", 0)).collect();
    idx.sort_by(|a, b| a.name_lowercase.cmp(&b.name_lowercase));
    let r = search_files("file".to_string(), 9, true, &idx);
    assert_eq!(r.results.len(), SEARCH_LIMIT);
}

#[test]
fn search_finds_every_prefix_match_in_sorted_index() {
    let mut idx: Vec<FileInfo> = vec![
        file("report.pdf", "C:\\a", 0),
        file("readme.md", "C:\\a", 0),
        file("Recipe.txt", "C:\\a", 0),
        file("zoo.png", "C:\\a", 0),
        file("reader.exe", "C:\\a", 0),
    ];
    idx.sort_by(|a, b| a.name_lowercase.cmp(&b.name_lowercase));
    let r = search_files("re".to_string(), 1, false, &idx);
    let mut got = names(&r.results);
    got.sort();
    assert_eq!(got, vec!["Recipe.txt", "reader.exe", "readme.md", "report.pdf"]);
}

#[test]
fn turning_fuzzy_on_only_adds_results() {
    let idx = sample_index();
    let without = search_files("ta".to_string(), 3, false, &idx);
    let with = search_files("ta".to_string(), 3, true, &idx);
    assert!(with.results.len() >= without.results.len());
    for f in &without.results {
        assert!(with.results.iter().any(|g| g.path == f.path));
    }
}

#[test]
fn appending_text_changes_the_score_only_by_the_length_bonus() {
    // "ab" in "ab": 10 + 15, then 10 + 5 for the run, plus a bonus of 98.
    assert_eq!(fuzzy_match("ab", "ab"), Some(25 + 15 + 98));
    // Three more characters: the bonus drops to 95, nothing else changes.
    assert_eq!(fuzzy_match("abxyz", "ab"), Some(25 + 15 + 95));
}
