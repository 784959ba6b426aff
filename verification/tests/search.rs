use kitt_native_engine::model::SearchOptions;
use kitt_native_engine::search::{plan_search, SearchState};

#[test]
fn search_hits_carry_line_column_and_context() {
    let options = SearchOptions { context_lines: 1, ..SearchOptions::default() };
    let plan = plan_search("needle", options).unwrap();
    let mut state = SearchState::new();
    assert!(state.search_file_checked(&plan, "a.txt", b"x\nfind the NEEDLE here\ny\nz\n"));
    assert_eq!(state.hits.len(), 1);
    let hit = &state.hits[0];
    assert_eq!(hit.path, "a.txt");
    assert_eq!(hit.line, 2);
    assert_eq!(hit.column, 10);
    assert_eq!(hit.text, "find the NEEDLE here");
    assert_eq!(hit.before, vec!["x".to_string()]);
    assert_eq!(hit.after, vec!["y".to_string()]);
    assert_eq!(state.total_seen, 1);
    assert_eq!(state.matched_files, vec!["a.txt".to_string()]);
    assert!(state.tokens > 0);
}

#[test]
fn binary_files_are_skipped_and_per_file_limits_apply() {
    let options = SearchOptions { max_per_file: 1, ..SearchOptions::default() };
    let plan = plan_search("hit", options).unwrap();
    let mut state = SearchState::new();
    state.search_file_checked(&plan, "bin", b"hit\0hit\n");
    assert!(state.hits.is_empty());
    assert_eq!(state.total_seen, 0);
    state.search_file_checked(&plan, "t.txt", b"hit 1\nhit 2\nhit 3\n");
    assert_eq!(state.hits.len(), 1);
    assert_eq!(state.total_seen, 3);
    assert_eq!(state.omitted_matches(), 2);
}

#[test]
fn result_limit_stops_the_search() {
    let options = SearchOptions { max_results: 2, ..SearchOptions::default() };
    let plan = plan_search("k", options).unwrap();
    let mut state = SearchState::new();
    state.search_file_checked(&plan, "one", b"k\nk\nk\n");
    assert_eq!(state.hits.len(), 2);
    assert!(state.stopped);
    state.search_file_checked(&plan, "two", b"k\n");
    assert_eq!(state.hits.len(), 2);
}
