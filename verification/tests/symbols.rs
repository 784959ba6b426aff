use kitt_native_engine::engine::NativeEngine;
use kitt_native_engine::language::{identify, kind_label, symbol_kinds, LanguageId};
use kitt_native_engine::symbols::{
    containing_symbol, name_part, parse_symbols, read_symbol, symbol_file_of, FileStamp, RefreshWalk,
    ReferenceScan, SymbolIndex, WalkStep,
};

fn stamp(t: u128, size: u64) -> FileStamp {
    FileStamp { mtime_ns: t, size }
}

fn store(index: &mut SymbolIndex, path: &str, t: u128, source: &[u8]) {
    let st = stamp(t, source.len() as u64);
    assert!(index.refresh_check(path, Some(st)));
    index.refresh_store(path, st, source).unwrap();
}

#[test]
fn dependency_edges_use_scanned_symbol_offsets() {
    let source = b"def helper():\n    return 1\n\ndef caller():\n    return helper()\n";
    let mut index = SymbolIndex::new();
    store(&mut index, "sample.py", 1, source);
    let plan = index.dependency_plan(100);
    assert_eq!(plan.paths, vec!["sample.py".to_string()]);
    let graph = plan.edges(&[source.to_vec()]).unwrap();
    let caller = graph.iter().find(|(id, _)| id == "sample.py::caller").map(|(_, deps)| deps.clone());
    assert_eq!(caller, Some(vec!["sample.py::helper".to_string()]));
    assert!(graph.iter().all(|(id, _)| id != "sample.py::helper"));
}

#[test]
fn symbol_index_reuses_unchanged_files() {
    let mut index = SymbolIndex::new();
    let first_src = b"def first():\n    return 1\n";
    store(&mut index, "sample.py", 1, first_src);
    let first = index.find_symbols("first", 10);
    assert_eq!(first.len(), 1);

    assert!(!index.refresh_check("sample.py", Some(stamp(1, first_src.len() as u64))));
    let second = index.find_symbols("first", 10);
    assert_eq!(second, first);

    let new_src = b"def second_name():\n    return 2\n";
    store(&mut index, "sample.py", 2, new_src);
    let updated = index.find_symbols("second_name", 10);
    assert_eq!(updated.len(), 1);
    assert!(index.find_symbols("first", 10).is_empty());
}

#[test]
fn python_symbols_are_nested_and_hashed() {
    let source = b"class Box:\n    def open(self):\n        pass\n\ndef top():\n    pass\n";
    let syms = parse_symbols("pkg\\mod.py", source).unwrap();
    let ids: Vec<&str> = syms.iter().map(|s| s.id.as_str()).collect();
    assert_eq!(ids, vec!["pkg/mod.py::Box", "pkg/mod.py::Box::open", "pkg/mod.py::top"]);
    assert_eq!(syms[0].kind, "class");
    assert_eq!(syms[1].kind, "function");
    assert_eq!(syms[0].start_line, 1);
    assert_eq!(syms[1].start_line, 2);
    assert_eq!(syms[1].end_line, 3);
    assert_eq!(syms[0].path, "pkg/mod.py");
    assert_eq!(syms[2].source_hash.len(), 64);
    assert_eq!(&source[syms[2].start_byte..syms[2].end_byte], b"def top():\n    pass");
}

#[test]
fn other_languages_find_their_declarations() {
    let rust = parse_symbols("lib.rs", b"struct Point { x: i32 }\nimpl Point {\n    fn norm(&self) -> i32 { self.x }\n}\n").unwrap();
    let names: Vec<&str> = rust.iter().map(|s| s.qualified_name.as_str()).collect();
    assert_eq!(names, vec!["Point", "Point", "Point::norm"]);
    assert_eq!(rust[1].kind, "impl");

    let go = parse_symbols("main.go", b"package main\n\nfunc Run() {}\n").unwrap();
    assert_eq!(go.len(), 1);
    assert_eq!(go[0].name, "Run");

    let js = parse_symbols("app.js", b"function go() { return 1; }\nclass A { m() {} }\n").unwrap();
    let js_names: Vec<&str> = js.iter().map(|s| s.qualified_name.as_str()).collect();
    assert_eq!(js_names, vec!["go", "A", "A::m"]);

    let none = parse_symbols("notes.txt", b"def x(): pass").unwrap();
    assert!(none.is_empty());
}

#[test]
fn languages_are_identified_by_extension() {
    assert_eq!(identify("a/b.PY"), Some(LanguageId::Python));
    assert_eq!(identify("x.tsx"), Some(LanguageId::Tsx));
    assert_eq!(identify("x.mjs"), Some(LanguageId::JavaScript));
    assert_eq!(identify("Main.java"), Some(LanguageId::Java));
    assert_eq!(identify("lib.rs"), Some(LanguageId::Rust));
    assert_eq!(identify("main.go"), Some(LanguageId::Go));
    assert_eq!(identify("types.ts"), Some(LanguageId::TypeScript));
    assert_eq!(identify(".py"), None);
    assert_eq!(identify("README"), None);
    assert_eq!(identify("dir.py/.."), None);
    assert_eq!(kind_label("function_definition"), "function");
    assert_eq!(kind_label("type_alias_declaration"), "type alias");
    assert_eq!(kind_label("impl_item"), "impl");
    assert_eq!(symbol_kinds(LanguageId::Go), &["function_declaration", "method_declaration", "type_declaration"]);
}

#[test]
fn symbols_are_read_by_id() {
    let source = b"def before():\n    return 1\n";
    let read = read_symbol("sample.py::before", source).unwrap().unwrap();
    assert_eq!(read.source, "def before():\n    return 1");
    assert_eq!(read.symbol.name, "before");
    assert!(read_symbol("sample.py::missing", source).unwrap().is_none());
    assert!(read_symbol("::before", source).unwrap().is_none());
    assert!(read_symbol("notes.txt::x", source).unwrap().is_none());
    assert_eq!(symbol_file_of("a/b.py::C::d"), "a/b.py");
    assert_eq!(symbol_file_of("plain"), "plain");
    assert_eq!(name_part("a/b.py::C::d"), "d");
    assert_eq!(name_part("plain"), "plain");
}

#[test]
fn references_skip_declarations_and_name_the_enclosing_symbol() {
    let source = b"def helper():\n    return 1\n\ndef caller():\n    return helper()\n";
    let mut index = SymbolIndex::new();
    store(&mut index, "sample.py", 1, source);
    let mut scan = ReferenceScan::new("sample.py::helper", 10).unwrap();
    for path in index.reference_paths() {
        assert!(scan.wants_more());
        scan.scan_file(&index, &path, source);
    }
    let refs = scan.into_references();
    assert_eq!(refs.len(), 1);
    assert_eq!(refs[0].line, 5);
    assert_eq!(refs[0].containing_symbol.as_deref(), Some("sample.py::caller"));
    assert_eq!(refs[0].target_name, "helper");
    assert_eq!(refs[0].kind, "lexical_ast_reference");

    let mut limited = ReferenceScan::new("helper", 0).unwrap();
    assert!(!limited.wants_more());
    limited.scan_file(&index, "sample.py", source);
    assert!(limited.into_references().is_empty());
}

#[test]
fn innermost_symbol_contains_the_line() {
    let source = b"class Box:\n    def open(self):\n        pass\n";
    let syms = parse_symbols("m.py", source).unwrap();
    assert_eq!(containing_symbol(&syms, 3), Some(1));
    assert_eq!(containing_symbol(&syms, 1), Some(0));
    assert_eq!(containing_symbol(&syms, 9), None);
}

#[test]
fn walks_refresh_known_files_and_stop_at_the_limit() {
    let mut walk = RefreshWalk::new(1);
    assert!(matches!(walk.visit("README.md", true), WalkStep::Skip));
    assert!(matches!(walk.visit("src/a.py", false), WalkStep::Skip));
    match walk.visit("src\\a.py", true) {
        WalkStep::Refresh(p) => assert_eq!(p, "src/a.py"),
        _ => panic!("expected a refresh"),
    }
    assert!(matches!(walk.visit("b.py", true), WalkStep::Stop));
    assert!(!walk.complete);

    let mut index = SymbolIndex::new();
    store(&mut index, "a.py", 1, b"def a():\n    pass\n");
    store(&mut index, "b.py", 1, b"def b():\n    pass\n");
    let mut full = RefreshWalk::new(10);
    assert!(matches!(full.visit("a.py", true), WalkStep::Refresh(_)));
    index.finish_refresh(&full);
    assert_eq!(index.reference_paths(), vec!["a.py".to_string()]);
    index.invalidate("a.py");
    assert!(index.reference_paths().is_empty());
}

#[test]
fn find_symbols_ranks_exact_matches_first() {
    let mut index = SymbolIndex::new();
    store(&mut index, "m.py", 1, b"def runner():\n    pass\n\ndef run():\n    pass\n");
    let found = index.find_symbols("RUN", 10);
    let names: Vec<&str> = found.iter().map(|s| s.name.as_str()).collect();
    assert_eq!(names, vec!["run", "runner"]);
    assert_eq!(index.find_symbols("run", 0).len(), 1);
    let all = index.all_symbols();
    assert_eq!(all.len(), 2);
    assert_eq!(all[0].name, "runner");
}

#[test]
fn engine_keeps_its_root_and_forgets_edited_files() {
    let mut engine = NativeEngine::new("/repo".to_string());
    assert_eq!(engine.root(), "/repo");
    let source = b"def f():\n    return 1\n";
    store(&mut engine.symbol_index, "f.py", 1, source);
    assert_eq!(engine.find_symbols("f", 5).len(), 1);
    let request = kitt_native_engine::model::BlockReplaceRequest {
        path: "f.py".into(),
        search: "return 1".into(),
        replacement: "return 2".into(),
        expected_file_hash: None,
        validate_syntax: true,
    };
    let edit = engine.replace_block(&request, "f.py".into(), source).unwrap();
    assert!(edit.response.changed);
    assert!(engine.find_symbols("f", 5).is_empty());
}

#[test]
fn java_and_typescript_declarations() {
    let java = parse_symbols("A.java", b"class A {\n  A() {}\n  void m() {}\n}\n").unwrap();
    let names: Vec<&str> = java.iter().map(|s| s.qualified_name.as_str()).collect();
    assert_eq!(names, vec!["A", "A::A", "A::m"]);
    assert_eq!(java[2].kind, "method");

    let ts = parse_symbols("t.ts", b"interface Shape { area(): number }\ntype Id = string;\n").unwrap();
    let ts_names: Vec<&str> = ts.iter().map(|s| s.qualified_name.as_str()).collect();
    assert_eq!(ts_names, vec!["Shape", "Id"]);
    assert_eq!(ts[1].kind, "type alias");

    let tsx = parse_symbols("c.tsx", b"function View() { return <div/>; }\n").unwrap();
    assert_eq!(tsx.len(), 1);
    assert_eq!(tsx[0].name, "View");
}

#[test]
fn ties_keep_declaration_order() {
    let mut index = SymbolIndex::new();
    store(&mut index, "b.rs", 1, b"struct Q;\n");
    store(&mut index, "a.rs", 1, b"struct P; impl P { fn make() {} }\n");
    let all = index.all_symbols();
    let seen: Vec<(&str, &str, &str)> =
        all.iter().map(|s| (s.path.as_str(), s.qualified_name.as_str(), s.kind.as_str())).collect();
    assert_eq!(
        seen,
        vec![("a.rs", "P", "struct"), ("a.rs", "P", "impl"), ("a.rs", "P::make", "function"), ("b.rs", "Q", "struct")]
    );
    let found = index.find_symbols("p", 10);
    let kinds: Vec<(&str, &str)> = found.iter().map(|s| (s.qualified_name.as_str(), s.kind.as_str())).collect();
    assert_eq!(kinds, vec![("P", "struct"), ("P", "impl"), ("P::make", "function")]);
}

#[test]
fn invalidated_file_is_parsed_again_with_same_stamp() {
    let mut index = SymbolIndex::new();
    let src = b"def keep():\n    return 1\n";
    store(&mut index, "pkg/a.py", 7, src);
    assert!(!index.refresh_check("pkg/a.py", Some(stamp(7, src.len() as u64))));
    index.invalidate("pkg\\b.py");
    assert_eq!(index.all_symbols().len(), 1);
    index.invalidate("pkg\\a.py");
    assert!(index.all_symbols().is_empty());
    assert!(index.refresh_check("pkg/a.py", Some(stamp(7, src.len() as u64))));
}

#[test]
fn indexed_symbols_are_well_formed() {
    let mut index = SymbolIndex::new();
    store(&mut index, "m.py", 1, b"class Outer:\n    def inner(self):\n        return 1\n");
    for s in index.all_symbols() {
        assert_eq!(s.id, format!("{}::{}", s.path, s.qualified_name));
        assert!(s.qualified_name == s.name || s.qualified_name.ends_with(&format!("::{}", s.name)));
        assert!(1 <= s.start_line && s.start_line <= s.end_line);
        assert!(s.start_byte <= s.end_byte);
    }
    let found = index.find_symbols("inner", 5);
    assert_eq!(found[0].qualified_name, "Outer::inner");
    assert_eq!((found[0].start_line, found[0].end_line), (2, 3));
}

#[test]
fn many_symbols_sort_by_path_then_line() {
    let mut index = SymbolIndex::new();
    let mut texts = Vec::new();
    for f in ["c.py", "a.py", "b.py"] {
        let mut src = String::new();
        for i in 0..17 {
            src.push_str(&format!("def f{}_{}():\n    pass\n", 20 - i, f.len()));
        }
        texts.push((f, src));
    }
    for (f, src) in &texts {
        store(&mut index, f, 1, src.as_bytes());
    }
    let all = index.all_symbols();
    assert_eq!(all.len(), 51);
    for w in all.windows(2) {
        assert!((w[0].path.as_str(), w[0].start_line) < (w[1].path.as_str(), w[1].start_line));
    }
    assert_eq!(all[0].path, "a.py");
    assert_eq!(all[50].path, "c.py");
}

#[test]
fn found_symbols_hash_their_bytes() {
    let mut index = SymbolIndex::new();
    let src = b"def alpha():\n    return 1\n\ndef beta():\n    return 2\n";
    store(&mut index, "h.py", 1, src);
    for s in index.find_symbols("a", 10) {
        assert_eq!(s.source_hash, kitt_native_engine::digest::sha256_hex(&src[s.start_byte..s.end_byte]));
    }
    let read = index.read_symbol("h.py::beta", src).unwrap();
    assert_eq!(read.symbol.path, symbol_file_of("h.py::beta"));
    assert_eq!(read.source, "def beta():\n    return 2");
}

#[test]
fn invalidate_then_parse_matches_a_fresh_index() {
    let old_a = b"def old():\n    return 1\n";
    let new_a = b"def new():\n    return 2\n";
    let b = b"def other():\n    return 3\n";
    let mut index = SymbolIndex::new();
    store(&mut index, "a.py", 5, old_a);
    store(&mut index, "b.py", 5, b);
    index.invalidate("a.py");
    store(&mut index, "a.py", 5, new_a);
    let mut fresh = SymbolIndex::new();
    store(&mut fresh, "b.py", 5, b);
    store(&mut fresh, "a.py", 5, new_a);
    assert_eq!(index.all_symbols(), fresh.all_symbols());
    assert_eq!(index.find_symbols("e", 10), fresh.find_symbols("e", 10));
    assert!(index.read_symbol("a.py::old", new_a).is_none());
    assert!(index.read_symbol("a.py::new", new_a).is_some());
}

#[test]
fn engine_edit_is_seen_after_refresh_with_same_stamp() {
    let mut engine = NativeEngine::new("/repo".to_string());
    let source = b"def f():\n    return 1\n";
    store(&mut engine.symbol_index, "f.py", 9, source);
    let request = kitt_native_engine::model::BlockReplaceRequest {
        path: "f.py".into(),
        search: "def f()".into(),
        replacement: "def g()".into(),
        expected_file_hash: None,
        validate_syntax: true,
    };
    let edit = engine.replace_block(&request, "f.py".into(), source).unwrap();
    let written = edit.updated.unwrap();
    assert_eq!(written.len(), source.len());
    let st = stamp(9, written.len() as u64);
    assert!(engine.symbol_index.refresh_check("f.py", Some(st)));
    engine.symbol_index.refresh_store("f.py", st, &written).unwrap();
    assert!(engine.read_symbol("f.py::f", &written).is_none());
    assert_eq!(engine.read_symbol("f.py::g", &written).unwrap().source, "def g():\n    return 1");
}
