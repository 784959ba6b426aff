use kitt_native_engine::output::{compress, compress_with_budget};
use kitt_native_engine::{compress_process_output, compress_process_output_with_budget};

#[test]
fn hard_budget_applies_when_candidate_is_not_better() {
    let raw = "x".repeat(20_000);
    let r = compress_with_budget(&["custom".into()], &raw, "", 0, 64);
    assert!(r.changed);
    assert!(r.output.len() <= 64 * 4);
}

#[test]
fn unicode_budget_is_byte_bounded_and_valid_utf8() {
    let raw = "é".repeat(20_000);
    let r = compress_with_budget(&["custom".into()], &raw, "", 0, 64);
    assert!(r.changed);
    assert!(r.output.len() <= 64 * 4);
    assert!(std::str::from_utf8(r.output.as_bytes()).is_ok());
}

#[test]
fn successful_pytest_keeps_summary_not_pass_spam() {
    let mut rows = (0..500)
        .map(|i| format!("tests/test_{i}.py::test_case PASSED"))
        .collect::<Vec<_>>();
    rows.push("500 passed in 2.10s".into());
    let raw = rows.join("\n");
    let r = compress_with_budget(&["pytest".into(), "-v".into()], &raw, "", 0, 128);
    assert!(r.output.contains("500 passed"));
    assert!(!r.output.contains("tests/test_499.py"));
}

#[test]
fn wrapper_command_is_classified() {
    let raw = (0..300)
        .map(|i| format!("tests/test_{i}.py::test_case PASSED"))
        .chain(std::iter::once("300 passed in 1.20s".to_string()))
        .collect::<Vec<_>>()
        .join("\n");
    let r = compress_with_budget(
        &["uv".into(), "run".into(), "pytest".into(), "-v".into()],
        &raw,
        "",
        0,
        128,
    );
    assert_eq!(r.family, "build_test");
    assert!(r.output.contains("300 passed"));
}

#[test]
fn git_diff_preserves_duplicate_changed_lines() {
    let mut rows = vec![
        "diff --git a/a.py b/a.py",
        "--- a/a.py",
        "+++ b/a.py",
        "@@ -1 +1 @@",
        "-same",
        "+same",
        "diff --git a/b.py b/b.py",
        "--- a/b.py",
        "+++ b/b.py",
        "@@ -1 +1 @@",
        "-same",
        "+same",
    ]
    .into_iter()
    .map(str::to_string)
    .collect::<Vec<_>>();
    rows.extend((0..200).map(|i| format!(" context {i}")));
    let r = compress_with_budget(&["git".into(), "diff".into()], &rows.join("\n"), "", 0, 128);
    assert_eq!(r.output.matches("-same").count(), 2);
    assert_eq!(r.output.matches("+same").count(), 2);
}

#[test]
fn search_counts_matches_in_non_emitted_files() {
    let raw = (0..60)
        .map(|i| format!("file-{i}.py:1:match"))
        .collect::<Vec<_>>()
        .join("\n");
    let r = compress_with_budget(&["rg".into(), "match".into()], &raw, "", 0, 256);
    assert!(r.omitted_lines >= 20);
}

// ---------------------------------------------------------------------------

#[test]
fn small_output_is_returned_unchanged() {
    let r = compress(&["ls".into()], "a\nb\n", "", 0);
    assert_eq!(r.output, "a\nb\n");
    assert!(!r.changed);
    assert_eq!(r.family, "listing");
    assert_eq!(r.raw_bytes, 4);
    assert_eq!(r.output_bytes, 4);
    assert_eq!(r.omitted_lines, 0);
}

#[test]
fn stdout_and_stderr_are_joined_by_a_newline() {
    let r = compress(&["make".into()], "out", "err", 2);
    assert_eq!(r.output, "out\nerr");
    let only_err = compress(&["make".into()], "", "err", 2);
    assert_eq!(only_err.output, "err");
}

#[test]
fn raw_sha256_is_the_hex_digest_of_the_raw_output() {
    let r = compress(&["ls".into()], "abc", "", 0);
    assert_eq!(
        r.raw_sha256,
        "ba7816bf8f01cfea414140de5dae2223b00361a396177a9cb410ff61f20015ad"
    );
    let empty = compress(&["ls".into()], "", "", 0);
    assert_eq!(
        empty.raw_sha256,
        "e3b0c44298fc1c149afbf4c8996fb92427ae41e4649b934ca495991b7852b855"
    );
}

#[test]
fn families_follow_the_effective_command() {
    let fam = |argv: &[&str]| {
        let argv: Vec<String> = argv.iter().map(|s| s.to_string()).collect();
        compress(&argv, "x", "", 0).family
    };
    assert_eq!(fam(&["/usr/bin/RG.EXE", "x"]), "search");
    assert_eq!(fam(&["git", "log"]), "vcs");
    assert_eq!(fam(&["C:\\tools\\cargo.cmd", "test"]), "build_test");
    assert_eq!(fam(&["python3", "-m", "mypy"]), "diagnostics");
    assert_eq!(fam(&["python3", "-m"]), "generic");
    assert_eq!(fam(&["poetry", "RUN", "terraform"]), "infra");
    assert_eq!(fam(&["rye", "run"]), "generic");
    assert_eq!(fam(&["uv", "run"]), "generic");
    assert_eq!(fam(&["cat", "f"]), "listing");
    assert_eq!(fam(&[]), "generic");
}

#[test]
fn generic_output_keeps_head_and_tail() {
    let raw = (0..300).map(|i| format!("row {i}")).collect::<Vec<_>>().join("\n");
    let r = compress_with_budget(&["custom".into()], &raw, "", 0, 64);
    assert_eq!(r.omitted_lines, 236);
    assert!(r.output.starts_with("row 0\nrow 1\n"));
    assert!(r.output.len() <= 256);
    let wide = compress_with_budget(&["custom".into()], &raw, "", 0, 200);
    assert!(wide.output.contains("\n… 236 line(s) omitted …\nrow 276\n"));
    assert!(wide.output.ends_with("row 299"));
}

#[test]
fn truncation_ends_with_the_budget_note() {
    let raw = "y".repeat(5000);
    let r = compress_with_budget(&["custom".into()], &raw, "", 0, 64);
    assert!(r.output.ends_with("\n… output truncated to KITT token budget"));
    assert_eq!(r.output_bytes, r.output.len());
    assert!(r.output_bytes <= 256);
    assert_eq!(r.raw_bytes, 5000);
}

#[test]
fn git_status_counts_each_status_code() {
    let mut rows: Vec<String> = (0..20).map(|i| format!(" M src/f{i}.rs")).collect();
    rows.extend((0..10).map(|i| format!("?? new{i}.txt")));
    rows.push("".into());
    let raw = rows.join("\n");
    let r = compress_with_budget(&["git".into(), "status".into()], &raw, "", 0, 64);
    assert_eq!(r.omitted_lines, 10);
    let wide = compress_with_budget(&["git".into(), "STATUS".into()], &raw, "", 0, 80);
    assert!(wide.output.contains("[KITT status summary: ??=10 M=20; omitted=10]"));
}

#[test]
fn failing_build_keeps_errors_with_context() {
    let mut rows: Vec<String> = (0..100).map(|i| format!("compiling unit {i}")).collect();
    rows[50] = "error: mismatched types".into();
    let raw = rows.join("\n");
    let r = compress_with_budget(&["cargo".into(), "build".into()], &raw, "", 101, 64);
    assert_eq!(
        r.output,
        "compiling unit 49\nerror: mismatched types\ncompiling unit 51\ncompiling unit 52\n… 96 routine line(s) omitted"
    );
    assert_eq!(r.omitted_lines, 96);
}

#[test]
fn build_without_markers_keeps_the_last_lines() {
    let rows: Vec<String> = (0..100).map(|i| format!("step {i}")).collect();
    let raw = rows.join("\n");
    let ok = compress_with_budget(&["npm".into(), "test".into()], &raw, "", 0, 64);
    assert_eq!(ok.omitted_lines, 80);
    assert!(ok.output.starts_with("step 80\n"));
    let failed = compress_with_budget(&["npm".into(), "test".into()], &raw, "", 1, 64);
    assert_eq!(failed.omitted_lines, 52);
    assert!(failed.output.starts_with("step 52\n"));
}

#[test]
fn search_output_is_grouped_by_path_in_order() {
    let mut rows: Vec<String> = Vec::new();
    for i in 0..200 {
        rows.push(format!("b.rs:{i}:4:  hit {i}  "));
    }
    rows.push("a.rs:7:first".into());
    rows.push("not a hit".into());
    let raw = rows.join("\n");
    let r = compress_with_budget(&["grep".into()], &raw, "", 0, 1000);
    assert!(r.output.starts_with("a.rs\n  7:first\nb.rs\n  0:hit 0\n  1:hit 1\n"));
    assert_eq!(r.omitted_lines, 192);
    assert!(r.output.ends_with("… 192 additional matches omitted"));
}

#[test]
fn process_output_entry_points_agree() {
    let argv: Vec<String> = vec!["ls".into()];
    let a = compress_process_output(&argv, "x\n", "", 0);
    let b = compress(&argv, "x\n", "", 0);
    assert_eq!(a.output, b.output);
    let c = compress_process_output_with_budget(&argv, "x\n", "", 0, 64);
    assert_eq!(c.output, "x\n");
}
