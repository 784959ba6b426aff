use kitt_native_engine::workspace::{
    check_list_target, check_read_target, list_files, read_file, validate_relative, FileStat,
    WorkspaceError, DEFAULT_MAX_FILE_BYTES,
};

fn file_stat(size: u64) -> FileStat {
    FileStat { is_file: true, is_dir: false, size, mtime_ns: 7 }
}

fn many_lines() -> Vec<u8> {
    let mut text = String::new();
    for i in 0..500 {
        text.push_str(&format!("line-{i:04} {}\n", "x".repeat(40)));
    }
    text.into_bytes()
}

#[test]
fn read_is_token_bounded_and_contained() {
    let bytes = many_lines();
    let stat = file_stat(bytes.len() as u64);
    let response = read_file("many.txt".into(), &bytes, &stat, 1, Some(500), 4 * 1024 * 1024, 64).unwrap();
    assert!(response.estimated_tokens <= 80);
    assert!(response.next_start_line.is_some());
    assert!(validate_relative("../outside").is_err());
}

#[test]
fn list_is_sorted_and_bounded() {
    let candidates = vec!["c.py".to_string(), "a.py".to_string(), "b.py".to_string()];
    let response = list_files(candidates, 2, 64);
    assert_eq!(response.files, vec!["a.py", "b.py"]);
    assert_eq!(response.omitted, 1);
}

#[test]
fn read_window_takes_whole_lines_within_budget() {
    let bytes = many_lines();
    let stat = file_stat(bytes.len() as u64);
    // 64 tokens are 256 characters: five lines of 50 characters and their separators.
    let r = read_file("many.txt".into(), &bytes, &stat, 1, Some(500), 0, 64).unwrap();
    assert_eq!(r.start_line, 1);
    assert_eq!(r.end_line, 5);
    assert_eq!(r.total_lines, 500);
    assert_eq!(r.omitted_lines, 495);
    assert_eq!(r.next_start_line, Some(6));
    assert_eq!(r.content.lines().count(), 5);
    assert!(r.content.starts_with("line-0000 "));
    assert_eq!(r.estimated_tokens, (5 * 50 + 4 + 3) / 4);
    assert_eq!(r.file_size, bytes.len() as u64);
    assert_eq!(r.mtime_ns, 7);
    assert_eq!(r.full_file_hash.len(), 64);
}

#[test]
fn read_continues_where_the_last_read_stopped() {
    let bytes = many_lines();
    let stat = file_stat(bytes.len() as u64);
    let first = read_file("many.txt".into(), &bytes, &stat, 1, None, 0, 64).unwrap();
    let next = first.next_start_line.unwrap();
    let second = read_file("many.txt".into(), &bytes, &stat, next, None, 0, 64).unwrap();
    assert_eq!(second.start_line, first.end_line + 1);
    assert!(second.content.starts_with("line-0005 "));
}

#[test]
fn read_whole_small_file_is_not_truncated() {
    let bytes = b"alpha\r\nbeta\ngamma".to_vec();
    let stat = file_stat(bytes.len() as u64);
    let r = read_file("s.txt".into(), &bytes, &stat, 0, None, 0, 1000).unwrap();
    assert_eq!(r.content, "alpha\nbeta\ngamma");
    assert_eq!(r.start_line, 1);
    assert_eq!(r.end_line, 3);
    assert_eq!(r.next_start_line, None);
    assert_eq!(r.omitted_lines, 0);
}

#[test]
fn oversized_first_line_is_cut_to_the_budget() {
    let bytes = "y".repeat(1000).into_bytes();
    let stat = file_stat(bytes.len() as u64);
    let r = read_file("long.txt".into(), &bytes, &stat, 1, None, 0, 64).unwrap();
    assert_eq!(r.content.len(), 256);
    assert_eq!(r.end_line, 1);
    assert_eq!(r.estimated_tokens, 64);
    assert_eq!(r.next_start_line, None);
}

#[test]
fn byte_limit_cuts_on_a_character_boundary() {
    let bytes = "éééé".as_bytes().to_vec();
    let stat = file_stat(bytes.len() as u64);
    let r = read_file("u.txt".into(), &bytes, &stat, 1, None, 5, 1000).unwrap();
    assert_eq!(r.content, "éé");
    assert_eq!(r.next_start_line, Some(2));
}

#[test]
fn read_refuses_directories_and_large_files() {
    let dir = FileStat { is_file: false, is_dir: true, size: 0, mtime_ns: 0 };
    assert_eq!(check_read_target(&dir), Err(WorkspaceError::NotAFile));
    let big = file_stat(DEFAULT_MAX_FILE_BYTES + 1);
    assert_eq!(check_read_target(&big), Err(WorkspaceError::TooLarge(DEFAULT_MAX_FILE_BYTES + 1)));
    assert!(read_file("big".into(), b"", &big, 1, None, 0, 64).is_err());
    assert!(check_read_target(&file_stat(10)).is_ok());
    assert_eq!(check_list_target(&file_stat(10)), Err(WorkspaceError::NotADirectory));
    assert!(check_list_target(&dir).is_ok());
}

#[test]
fn relative_paths_are_cleaned_and_checked() {
    assert_eq!(validate_relative("./src//lib.rs").unwrap(), vec!["src", "lib.rs"]);
    assert_eq!(validate_relative(".").unwrap(), Vec::<String>::new());
    assert_eq!(validate_relative("/etc/passwd"), Err(WorkspaceError::AbsolutePath));
    assert_eq!(validate_relative("a/../../b"), Err(WorkspaceError::PathTraversal));
}

#[test]
fn listing_keeps_the_first_file_and_stops_at_the_budget() {
    let long = "z".repeat(300);
    let r = list_files(vec![long.clone(), "zz".to_string()], 10, 64);
    assert_eq!(r.files, vec!["zz".to_string()]);
    assert_eq!(r.omitted, 1);
    let r2 = list_files(vec!["b".into(), "a".into()], 0, 64);
    assert_eq!(r2.files, vec!["a".to_string()]);
    assert_eq!(r2.estimated_tokens, 1);
    let empty = list_files(Vec::new(), 5, 64);
    assert!(empty.files.is_empty());
    assert_eq!(empty.omitted, 0);
    assert_eq!(empty.estimated_tokens, 0);
}
