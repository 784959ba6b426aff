use kitt_native_engine::digest::sha256_hex;
use kitt_native_engine::edit::{check_block_request, plan_block_replace, plan_symbol_replace, EditError};
use kitt_native_engine::model::{BlockReplaceRequest, EditRequest};
use kitt_native_engine::symbols::read_symbol;
use kitt_native_engine::workspace::validate_relative;

fn block(search: &str, replacement: &str, expected: Option<String>, validate: bool) -> BlockReplaceRequest {
    BlockReplaceRequest {
        path: "sample.py".to_string(),
        search: search.to_string(),
        replacement: replacement.to_string(),
        expected_file_hash: expected,
        validate_syntax: validate,
    }
}

#[test]
fn block_replace_requires_unique_exact_context() {
    let original = b"x = 1\ny = 2\nx = 1\n";
    let ambiguous = plan_block_replace(&block("x = 1", "x = 3", None, true), "sample.py".into(), original);
    assert_eq!(ambiguous.unwrap_err(), EditError::Ambiguous(2));

    let result = plan_block_replace(&block("x = 1\ny = 2", "x = 3\ny = 4", None, true), "sample.py".into(), original)
        .unwrap();
    assert!(result.response.changed);
    assert_eq!(result.response.replacements, 1);
    assert_eq!(result.updated.unwrap(), b"x = 3\ny = 4\nx = 1\n".to_vec());
}

#[test]
fn block_replace_rejects_stale_hash_and_path_escape() {
    let original = b"before\n";
    let mut stale_request = block("before", "after", Some("stale".to_string()), false);
    stale_request.path = "sample.txt".to_string();
    let stale = plan_block_replace(&stale_request, "sample.txt".into(), original);
    assert_eq!(stale.unwrap_err(), EditError::FileHashChanged);
    assert!(validate_relative("../outside.txt").is_err());
}

#[test]
fn rename_does_not_report_failure_after_persist() {
    let source = b"def before():\n    return 1\n";
    let current = read_symbol("sample.py::before", source).unwrap().unwrap();
    let request = EditRequest {
        symbol_id: "sample.py::before".to_string(),
        replacement: "def after():\n    return 2".to_string(),
        expected_hash: Some(current.symbol.source_hash.clone()),
        validate_syntax: true,
    };
    let edit = plan_symbol_replace(&request, Some(current), source).unwrap();
    assert!(edit.response.changed);
    let written = String::from_utf8(edit.updated.unwrap()).unwrap();
    assert!(written.contains("def after"));
    assert_eq!(written, "def after():\n    return 2\n");
}

#[test]
fn block_replace_error_cases() {
    assert_eq!(check_block_request(&block("", "x", None, false)), Err(EditError::EmptySearch));
    assert!(check_block_request(&block("a", "x", None, false)).is_ok());
    assert_eq!(
        plan_block_replace(&block("", "x", None, false), "sample.py".into(), b"abc").unwrap_err(),
        EditError::EmptySearch
    );
    assert_eq!(
        plan_block_replace(&block("zzz", "x", None, false), "sample.py".into(), b"abc").unwrap_err(),
        EditError::BlockNotFound
    );
    assert_eq!(
        plan_block_replace(&block("a", "x", None, false), "sample.py".into(), &[0xff, 0xfe, b'a']).unwrap_err(),
        EditError::NotUtf8
    );
    assert_eq!(
        plan_block_replace(&block("x = 1", "x = (", None, true), "sample.py".into(), b"x = 1\n").unwrap_err(),
        EditError::SyntaxErrors
    );
}

#[test]
fn block_replace_with_matching_hash_and_unchanged_block() {
    let original = b"alpha beta\n";
    let hash = sha256_hex(original);
    let unchanged = plan_block_replace(&block("beta", "beta", Some(hash.clone()), false), "notes.txt".into(), original)
        .unwrap();
    assert!(!unchanged.response.changed);
    assert_eq!(unchanged.response.replacements, 0);
    assert_eq!(unchanged.response.old_file_hash, hash);
    assert_eq!(unchanged.response.new_file_hash, hash);
    assert!(unchanged.updated.is_none());

    let changed = plan_block_replace(&block("beta", "gamma", Some(hash.clone()), true), "notes.txt".into(), original)
        .unwrap();
    let bytes = changed.updated.unwrap();
    assert_eq!(bytes, b"alpha gamma\n".to_vec());
    assert_eq!(changed.response.new_file_hash, sha256_hex(&bytes));
    assert_eq!(changed.response.path, "notes.txt");
}

#[test]
fn overlapping_occurrences_count_once() {
    let r = plan_block_replace(&block("aa", "b", None, false), "t.txt".into(), b"aaa").unwrap();
    assert_eq!(r.updated.unwrap(), b"ba".to_vec());
}

#[test]
fn symbol_edit_refusals() {
    let source = b"def before():\n    return 1\n";
    let request = EditRequest {
        symbol_id: "sample.py::before".to_string(),
        replacement: "def after(:\n".to_string(),
        expected_hash: None,
        validate_syntax: true,
    };
    assert_eq!(plan_symbol_replace(&request, None, source).unwrap_err(), EditError::SymbolNotFound);
    let current = read_symbol("sample.py::before", source).unwrap().unwrap();
    assert_eq!(
        plan_symbol_replace(&request, Some(current.clone()), source).unwrap_err(),
        EditError::SyntaxErrors
    );
    let stale = EditRequest { expected_hash: Some("0".repeat(64)), ..request.clone() };
    assert_eq!(
        plan_symbol_replace(&stale, Some(current.clone()), source).unwrap_err(),
        EditError::SymbolHashChanged
    );
    let same = EditRequest { replacement: current.source.clone(), ..request };
    let edit = plan_symbol_replace(&same, Some(current.clone()), source).unwrap();
    assert!(!edit.response.changed);
    assert_eq!(edit.response.old_hash, current.symbol.source_hash);
    assert_eq!(edit.response.new_hash, current.symbol.source_hash);
    assert!(edit.updated.is_none());
}

#[test]
fn reported_hash_guards_the_next_edit() {
    let original = b"a = 1\nb = 2\n";
    let first = plan_block_replace(&block("a = 1", "a = 5", Some(sha256_hex(original)), true), "sample.py".into(), original)
        .unwrap();
    let written = first.updated.clone().unwrap();
    assert_eq!(first.response.new_file_hash, sha256_hex(&written));
    assert_ne!(first.response.new_file_hash, first.response.old_file_hash);

    let next = block("b = 2", "b = 6", Some(first.response.new_file_hash.clone()), true);
    let second = plan_block_replace(&next, "sample.py".into(), &written).unwrap();
    assert_eq!(second.updated.unwrap(), b"a = 5\nb = 6\n".to_vec());

    let stale = block("b = 2", "b = 6", Some(first.response.old_file_hash.clone()), true);
    assert_eq!(plan_block_replace(&stale, "sample.py".into(), &written).unwrap_err(), EditError::FileHashChanged);
}
