use kitt_native_engine::digest::{sha256_hex, sha256_hex_str};
use kitt_native_engine::model::{lease_conflicts, LeaseMode, LeaseView, SearchOptions};
use kitt_native_engine::search::{plan_search, SearchError};
use kitt_native_engine::text::is_white_space;
use kitt_native_engine::workspace::{read_file, FileStat};

#[test]
fn white_space_matches_the_standard_library() {
    for u in 0..=0x10FFFFu32 {
        if let Some(c) = char::from_u32(u) {
            assert_eq!(is_white_space(c), c.is_whitespace(), "code point {u:#x}");
        }
    }
}

#[test]
fn sha256_of_known_inputs() {
    assert_eq!(sha256_hex(b"abc"), "ba7816bf8f01cfea414140de5dae2223b00361a396177a9cb410ff61f20015ad");
    assert_eq!(sha256_hex_str(""), "e3b0c44298fc1c149afbf4c8996fb92427ae41e4649b934ca495991b7852b855");
}

#[test]
fn invalid_utf8_is_read_with_replacement_characters() {
    let bytes = [b'a', 0xff, b'b'];
    let stat = FileStat { is_file: true, is_dir: false, size: 3, mtime_ns: 0 };
    let r = read_file("bin".into(), &bytes, &stat, 1, None, 0, 64).unwrap();
    assert_eq!(r.content, "a\u{fffd}b");
}

#[test]
fn literal_queries_are_escaped_and_bad_patterns_refused() {
    let plan = plan_search("a.b(", SearchOptions::default()).unwrap();
    assert_eq!(plan.pattern, "a\\.b\\(");
    assert!(plan.case_insensitive);
    let regex = SearchOptions { regex: true, case_sensitive: true, ..SearchOptions::default() };
    assert_eq!(plan_search("a(", regex.clone()).unwrap_err(), SearchError::InvalidPattern);
    let ok = plan_search("a+", regex).unwrap();
    assert_eq!(ok.pattern, "a+");
    assert!(!ok.case_insensitive);
}

#[test]
fn leases_conflict_only_across_owners_with_a_writer() {
    let lease = LeaseView {
        resource_id: "r".into(),
        owner_id: "alice".into(),
        mode: LeaseMode::Read,
        intent: "look".into(),
        expires_at_ms: 10,
    };
    assert!(!lease_conflicts(&lease, "alice", LeaseMode::Write));
    assert!(!lease_conflicts(&lease, "bob", LeaseMode::Read));
    assert!(lease_conflicts(&lease, "bob", LeaseMode::Write));
    let writer = LeaseView { mode: LeaseMode::Write, ..lease };
    assert!(lease_conflicts(&writer, "bob", LeaseMode::Read));
}

#[test]
fn search_options_are_normalized() {
    let o = SearchOptions { max_results: 0, max_per_file: 1000, context_lines: 40, token_budget: 0, ..SearchOptions::default() }
        .normalized();
    assert_eq!(o.max_results, 50);
    assert_eq!(o.max_per_file, 100);
    assert_eq!(o.context_lines, 12);
    assert_eq!(o.token_budget, 1200);
}
