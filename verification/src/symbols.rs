//! The symbol index of a repository: the declarations of each source file, kept per file
//! with the stamp (modification time and size) of the version that was parsed.
//!
//! The caller walks the repository and reads files; the index decides which files to
//! parse again, keeps the results, and answers queries over them.
use crate::language::{language_of, identify, str_views, symbol_kinds, symbol_kinds_of};
use crate::model::{reference_views, ReferenceView, Symbol, SymbolRead, SymbolReference, SymbolView, symbol_views};
use crate::outline::indices;
use crate::pattern::{finds_whole_words, whole_word_at, option_texts, regex_group_each, regex_group_texts, regex_compiles, regex_escape, regex_escape_of, regex_find_each, regex_find_of, regex_valid};
use crate::text::{lines, occurs_at, split_lines, utf8_lossy, views, decode_lossy};
use crate::edit::first_from;
use crate::outline::{lemma_outline_records, outline, outline_symbols, record_ok};
use crate::syntax::{node_views, syntax_nodes, syntax_tree};
use crate::ordering::{in_order, lemma_multiset_map, sort_ranked, sorted_stably, str_before, Ranked};
use crate::text::{blen, chars_of, contains, contains_chars, eq_ignore_case, eq_ignore_case_chars, lemma_seq_lt_irreflexive, lemma_seq_lt_negative_transitive, lemma_seq_lt_total, lemma_seq_lt_transitive, lower, seq_lt, string_from_chars, to_lower};
use crate::digest::sha256_hex_of;
use vstd::multiset::Multiset;
use vstd::prelude::*;

verus! {

/// Why a symbol query failed.
#[derive(Debug, Clone, Copy, PartialEq, Eq, Structural)]
pub enum SymbolError {
    /// The parser returned no tree for a source file.
    NoSyntaxTree,
    /// A search pattern did not compile.
    InvalidPattern,
}

/// The version of a file: modification time in nanoseconds and size in bytes.
#[derive(Debug, Clone, Copy, PartialEq, Eq, Structural)]
pub struct FileStamp {
    pub mtime_ns: u128,
    pub size: u64,
}

/// `p` with every backslash turned into a slash.
pub open spec fn slashes(p: Seq<char>) -> Seq<char> {
    p.map_values(|c: char| if c == '\\' { '/' } else { c })
}

/// A path with `/` separators.
pub fn normalize_slashes(p: &str) -> (r: String)
    ensures
        r@ == slashes(p@),
{
    let cs = chars_of(p);
    let mut out: Vec<char> = Vec::new();
    let mut i: usize = 0;
    while i < cs.len()
        invariant
            i <= cs@.len(),
            out@ == slashes(cs@.take(i as int)),
        decreases cs@.len() - i,
    {
        out.push(if cs[i] == '\\' { '/' } else { cs[i] });
        assert(slashes(cs@.take(i + 1)) =~= slashes(cs@.take(i as int)).push(
            if cs@[i as int] == '\\' { '/' } else { cs@[i as int] },
        ));
        i = i + 1;
    }
    assert(cs@.take(cs@.len() as int) =~= cs@);
    string_from_chars(&out)
}

/// The symbols of the file at `relative` (separators made `/`) with bytes `source`:
/// none for a file of no known language, nothing when the parser returns no tree.
pub open spec fn file_outline(relative: Seq<char>, source: Seq<u8>) -> Option<Seq<SymbolView>> {
    let rel = slashes(relative);
    match language_of(rel) {
        None => Some(Seq::empty()),
        Some(lang) => match syntax_tree(lang, source) {
            None => None,
            Some(ns) => Some(outline(rel, source, symbol_kinds_of(lang), ns)),
        },
    }
}

/// The declaring node kinds of the language of the file at `path` (none when it has no
/// known language).
pub open spec fn kinds_for(path: Seq<char>) -> Seq<Seq<char>> {
    match language_of(path) {
        Some(lang) => symbol_kinds_of(lang),
        None => Seq::empty(),
    }
}

/// A well-formed symbol of its own file (see `record_ok`).
pub open spec fn symbol_record_ok(s: SymbolView) -> bool {
    record_ok(s, s.path, kinds_for(s.path))
}

/// Parses the file at `relative` and lists its symbols: each is well formed, lies
/// within the file and carries the hash of its bytes.
pub fn parse_symbols(relative: &str, source: &[u8]) -> (r: Option<Vec<Symbol>>)
    ensures
        match r {
            Some(v) => file_outline(relative@, source@) == Some(symbol_views(v@)),
            None => file_outline(relative@, source@) is None,
        },
        r matches Some(v) ==> forall|k: int|
            0 <= k < v@.len() ==> {
                let s = #[trigger] v@[k]@;
                &&& symbol_record_ok(s)
                &&& s.path == slashes(relative@)
                &&& s.end_byte <= source@.len()
                &&& s.source_hash == sha256_hex_of(source@.subrange(s.start_byte as int, s.end_byte as int))
            },
{
    let rel = normalize_slashes(relative);
    match identify(rel.as_str()) {
        None => {
            let none: Vec<Symbol> = Vec::new();
            assert(symbol_views(none@) =~= Seq::<SymbolView>::empty());
            Some(none)
        },
        Some(lang) => {
            let nodes = syntax_nodes(lang, source)?;
            let kinds = symbol_kinds(lang);
            let out = outline_symbols(rel.as_str(), source, kinds, nodes.as_slice());
            proof {
                lemma_outline_records(rel@, source@, str_views(kinds@), node_views(nodes@));
                assert forall|k: int| 0 <= k < out@.len() implies {
                    let s = #[trigger] out@[k]@;
                    &&& symbol_record_ok(s)
                    &&& s.path == slashes(relative@)
                    &&& s.end_byte <= source@.len()
                    &&& s.source_hash == sha256_hex_of(source@.subrange(s.start_byte as int, s.end_byte as int))
                } by {
                    assert(symbol_views(out@)[k] == out@[k]@);
                }
            }
            Some(out)
        },
    }
}

/// One parsed file of the index.
#[derive(Debug, Clone)]
struct CachedFile {
    path: String,
    stamp: FileStamp,
    symbols: Vec<Symbol>,
}

/// The mathematical view of an indexed file.
pub struct EntryView {
    pub path: Seq<char>,
    pub stamp: FileStamp,
    pub symbols: Seq<Symbol>,
}

/// The parsed files of a repository, at most one entry per path.
pub struct SymbolIndex {
    files: Vec<CachedFile>,
}

/// No path occurs twice.
pub open spec fn paths_unique(v: Seq<EntryView>) -> bool {
    forall|i: int, j: int| 0 <= i < j < v.len() ==> v[i].path != v[j].path
}

spec fn entry_view(f: CachedFile) -> EntryView {
    EntryView { path: f.path@, stamp: f.stamp, symbols: f.symbols@ }
}

impl View for SymbolIndex {
    type V = Seq<EntryView>;

    closed spec fn view(&self) -> Seq<EntryView> {
        self.files@.map_values(|f: CachedFile| entry_view(f))
    }
}

/// The entries of `v` whose path is not `p`.
pub open spec fn without_path(v: Seq<EntryView>, p: Seq<char>) -> Seq<EntryView> {
    v.filter(|e: EntryView| e.path != p)
}

/// The position of the entry for `p` in `v`, or -1.
pub open spec fn position_of(v: Seq<EntryView>, p: Seq<char>) -> int
    decreases v.len(),
{
    if v.len() == 0 {
        -1
    } else if v.last().path == p {
        v.len() - 1
    } else {
        position_of(v.drop_last(), p)
    }
}

/// `v` with the entry for `e.path` replaced by `e`, or with `e` added.
pub open spec fn stored(v: Seq<EntryView>, e: EntryView) -> Seq<EntryView> {
    let k = position_of(v, e.path);
    if k >= 0 {
        v.update(k, e)
    } else {
        v.push(e)
    }
}

proof fn lemma_position_of(v: Seq<EntryView>, p: Seq<char>)
    ensures
        -1 <= position_of(v, p) < v.len(),
        position_of(v, p) >= 0 ==> v[position_of(v, p)].path == p,
        position_of(v, p) < 0 ==> forall|k: int| 0 <= k < v.len() ==> #[trigger] v[k].path != p,
    decreases v.len(),
{
    if v.len() > 0 && v.last().path != p {
        lemma_position_of(v.drop_last(), p);
        let d = v.drop_last();
        assert forall|k: int| 0 <= k < v.len() - 1 implies #[trigger] v[k] == d[k] by {}
    }
}

/// Every symbol of the entry is well formed and belongs to the entry's file.
pub open spec fn entry_ok(e: EntryView) -> bool {
    forall|j: int| 0 <= j < e.symbols.len() ==> symbol_record_ok(#[trigger] e.symbols[j]@) && e.symbols[j]@.path == e.path
}

/// Symbol `s` lies within the bytes of its file (`files` gives each path's bytes) and
/// carries the hash of its own bytes there.
pub open spec fn symbol_matches_file(s: SymbolView, files: spec_fn(Seq<char>) -> Seq<u8>) -> bool {
    &&& s.end_byte <= files(s.path).len()
    &&& s.source_hash == sha256_hex_of(files(s.path).subrange(s.start_byte as int, s.end_byte as int))
}

/// Entry `e` was parsed from `src`: its symbols belong to its file, lie within `src` and
/// carry the hashes of their bytes.
pub open spec fn entry_matches(e: EntryView, src: Seq<u8>) -> bool {
    forall|j: int|
        0 <= j < e.symbols.len() ==> {
            let s = #[trigger] e.symbols[j]@;
            &&& s.path == e.path
            &&& s.end_byte <= src.len()
            &&& s.source_hash == sha256_hex_of(src.subrange(s.start_byte as int, s.end_byte as int))
        }
}

/// Every entry holds well-formed symbols of its own file.
pub open spec fn entries_ok(v: Seq<EntryView>) -> bool {
    forall|i: int| 0 <= i < v.len() ==> entry_ok(#[trigger] v[i])
}

proof fn lemma_entries_ok_filter(v: Seq<EntryView>, f: spec_fn(EntryView) -> bool)
    requires
        entries_ok(v),
    ensures
        entries_ok(v.filter(f)),
{
    let w = v.filter(f);
    assert forall|i: int| 0 <= i < w.len() implies entry_ok(#[trigger] w[i]) by {
        assert(w.contains(w[i]));
        v.lemma_filter_contains_rev(f, w[i]);
        let j = choose|j: int| 0 <= j < v.len() && v[j] == w[i];
        assert(entry_ok(v[j]));
    }
}

/// Every symbol of well-formed entries is well formed.
proof fn lemma_flatten_ok(v: Seq<EntryView>)
    requires
        entries_ok(v),
    ensures
        forall|k: int| 0 <= k < flatten(v).len() ==> symbol_record_ok(#[trigger] flatten(v)[k]@),
    decreases v.len(),
{
    if v.len() > 0 {
        let d = v.drop_last();
        assert(entries_ok(d)) by {
            assert forall|i: int| 0 <= i < d.len() implies entry_ok(#[trigger] d[i]) by {
                assert(d[i] == v[i]);
            }
        }
        lemma_flatten_ok(d);
        let l = v.last();
        assert(entry_ok(v[v.len() - 1]));
        assert forall|k: int| 0 <= k < flatten(v).len() implies symbol_record_ok(#[trigger] flatten(v)[k]@) by {
            if k >= flatten(d).len() {
                assert(flatten(v)[k] == l.symbols[k - flatten(d).len()]);
            } else {
                assert(flatten(v)[k] == flatten(d)[k]);
            }
        }
    }
}

/// The symbols of a reordering of the index's symbols are well formed.
proof fn lemma_reordered_ok(r: Seq<Symbol>, v: Seq<EntryView>)
    requires
        entries_ok(v),
        r.to_multiset() == flatten(v).to_multiset(),
    ensures
        forall|k: int| 0 <= k < r.len() ==> symbol_record_ok(#[trigger] r[k]@),
{
    lemma_flatten_ok(v);
    assert forall|k: int| 0 <= k < r.len() implies symbol_record_ok(#[trigger] r[k]@) by {
        let x = r[k];
        assert(r.contains(x));
        vstd::seq_lib::to_multiset_contains(r, x);
        vstd::seq_lib::to_multiset_contains(flatten(v), x);
        let t = choose|t: int| 0 <= t < flatten(v).len() && flatten(v)[t] == x;
        assert(symbol_record_ok(flatten(v)[t]@));
    }
}

proof fn lemma_unique_filter(v: Seq<EntryView>, f: spec_fn(EntryView) -> bool)
    requires
        paths_unique(v),
    ensures
        paths_unique(v.filter(f)),
    decreases v.len(),
{
    reveal(Seq::filter);
    if v.len() > 0 {
        let d = v.drop_last();
        assert(paths_unique(d)) by {
            assert forall|i: int, j: int| 0 <= i < j < d.len() implies d[i].path != d[j].path by {
                assert(d[i] == v[i] && d[j] == v[j]);
            }
        }
        lemma_unique_filter(d, f);
        let r = d.filter(f);
        if f(v.last()) {
            assert forall|i: int| 0 <= i < r.len() implies #[trigger] r[i].path != v.last().path by {
                assert(r.contains(r[i]));
                d.lemma_filter_contains_rev(f, r[i]);
                let k = choose|k: int| 0 <= k < d.len() && d[k] == r[i];
                assert(v[k] == d[k]);
            }
            let w = r.push(v.last());
            assert(v.filter(f) == w);
            assert forall|i: int, j: int| 0 <= i < j < w.len() implies w[i].path != w[j].path by {
                if j == r.len() {
                    assert(w[i] == r[i]);
                } else {
                    assert(w[i] == r[i] && w[j] == r[j]);
                }
            }
        } else {
            assert(v.filter(f) == r);
        }
    }
}

impl SymbolIndex {
    #[verifier::type_invariant]
    spec fn inv(self) -> bool {
        paths_unique(self@) && entries_ok(self@)
    }

    /// An empty index.
    pub fn new() -> (r: Self)
        ensures
            r@ == Seq::<EntryView>::empty(),
    {
        let r = SymbolIndex { files: Vec::new() };
        assert(r@ =~= Seq::<EntryView>::empty());
        r
    }

    /// Forgets the file at `relative` (separators made `/`): the next refresh parses it
    /// again whatever its stamp. Forgetting a path the index does not hold changes nothing.
    pub fn invalidate(&mut self, relative: &str)
        ensures
            final(self)@ == without_path(old(self)@, slashes(relative@)),
            forall|stamp: FileStamp|
                language_of(slashes(relative@)) is Some ==> #[trigger] refresh_needed(
                    final(self)@,
                    slashes(relative@),
                    Some(stamp),
                ),
            position_of(old(self)@, slashes(relative@)) < 0 ==> final(self)@ == old(self)@,
    {
        proof {
            lemma_without_path(self@, slashes(relative@));
        }
        proof {
            use_type_invariant(&*self);
        }
        let p = normalize_slashes(relative);
        let ghost v = self@;
        let ghost f = |e: EntryView| e.path != p@;
        let mut kept: Vec<CachedFile> = Vec::new();
        let mut i: usize = 0;
        assert(v.take(0) =~= Seq::<EntryView>::empty());
        while i < self.files.len()
            invariant
                v == self@,
                f == (|e: EntryView| e.path != p@),
                i <= self.files@.len(),
                kept@.map_values(|c: CachedFile| entry_view(c)) == v.take(i as int).filter(f),
            decreases self.files@.len() - i,
        {
            proof {
                assert(v.take(i + 1) =~= v.take(i as int).push(v[i as int]));
                v.take(i as int).lemma_filter_push(v[i as int], f);
            }
            assert(v[i as int] == entry_view(self.files@[i as int]));
            if !crate::model::str_eq(self.files[i].path.as_str(), p.as_str()) {
                let ghost before = kept@;
                kept.push(
                    CachedFile {
                        path: self.files[i].path.clone(),
                        stamp: self.files[i].stamp,
                        symbols: crate::model::copy_symbols(&self.files[i].symbols),
                    },
                );
                assert(kept@.map_values(|c: CachedFile| entry_view(c)) =~= before.map_values(
                    |c: CachedFile| entry_view(c),
                ).push(v[i as int]));
                assert(f(v[i as int]));
            }
            i = i + 1;
        }
        assert(v.take(v.len() as int) =~= v);
        proof {
            lemma_unique_filter(v, f);
            lemma_entries_ok_filter(v, f);
        }
        self.files = kept;
    }
}

/// Whether the file at `rel` (separators `/`), with current stamp `stamp` (`None` when it
/// is not a regular file), must be parsed again for index `v`: it has a known language and
/// no entry of `v` holds it with that stamp.
pub open spec fn refresh_needed(v: Seq<EntryView>, rel: Seq<char>, stamp: Option<FileStamp>) -> bool {
    let k = position_of(v, rel);
    &&& language_of(rel) is Some
    &&& stamp is Some
    &&& !(k >= 0 && v[k].stamp == stamp.unwrap())
}

proof fn lemma_without_path(v: Seq<EntryView>, p: Seq<char>)
    ensures
        position_of(without_path(v, p), p) < 0,
        position_of(v, p) < 0 ==> without_path(v, p) == v,
{
    let f = |e: EntryView| e.path != p;
    let w = without_path(v, p);
    lemma_position_of(w, p);
    let k = position_of(w, p);
    if k >= 0 {
        v.lemma_filter_pred(f, k);
    }
    lemma_position_of(v, p);
    if position_of(v, p) < 0 {
        lemma_filter_all(v, f);
    }
}

proof fn lemma_filter_all(v: Seq<EntryView>, f: spec_fn(EntryView) -> bool)
    requires
        forall|i: int| 0 <= i < v.len() ==> f(#[trigger] v[i]),
    ensures
        v.filter(f) == v,
    decreases v.len(),
{
    reveal(Seq::filter);
    if v.len() > 0 {
        let d = v.drop_last();
        assert forall|i: int| 0 <= i < d.len() implies f(#[trigger] d[i]) by {
            assert(d[i] == v[i]);
        }
        lemma_filter_all(d, f);
        assert(v =~= d.push(v.last()));
    }
}

/// The entries of `v` whose path is one of `seen`.
pub open spec fn only_seen(v: Seq<EntryView>, seen: Seq<Seq<char>>) -> Seq<EntryView> {
    v.filter(|e: EntryView| seen.contains(e.path))
}

/// One step of a walk that refreshes the index: skip the entry, refresh the file at the
/// given path, or stop because the walk reached its file limit.
#[derive(Debug, Clone)]
pub enum WalkStep {
    Skip,
    Refresh(String),
    Stop,
}

/// The state of a walk over the repository that refreshes the index.
#[derive(Debug, Clone)]
pub struct RefreshWalk {
    /// At most this many source files are refreshed.
    pub max_files: usize,
    /// Source files refreshed so far.
    pub count: usize,
    /// The walk saw every file: entries for files it did not see can be dropped.
    pub complete: bool,
    /// The paths refreshed, separators made `/`.
    pub seen: Vec<String>,
}

impl RefreshWalk {
    /// A walk that refreshes at most `max_files` files (at least one).
    pub fn new(max_files: usize) -> (r: Self)
        ensures
            r.max_files == if max_files < 1 { 1 } else { max_files },
            r.count == 0,
            r.complete,
            r.seen@ == Seq::<String>::empty(),
    {
        RefreshWalk { max_files: if max_files < 1 { 1 } else { max_files }, count: 0, complete: true, seen: Vec::new() }
    }

    /// The next entry of the walk, at `relative` from the root: files of no known
    /// language are skipped; past the limit the walk stops, incomplete.
    pub fn visit(&mut self, relative: &str, is_file: bool) -> (r: WalkStep)
        ensures
            !is_file || language_of(relative@) is None ==> r is Skip && *final(self) == *old(self),
            is_file && language_of(relative@) is Some && old(self).count >= old(self).max_files ==> {
                &&& r is Stop
                &&& !final(self).complete
                &&& final(self).count == old(self).count
                &&& final(self).max_files == old(self).max_files
                &&& final(self).seen@ == old(self).seen@
            },
            is_file && language_of(relative@) is Some && old(self).count < old(self).max_files ==> {
                &&& r matches WalkStep::Refresh(p) && p@ == slashes(relative@)
                &&& final(self).complete == old(self).complete
                &&& final(self).count == old(self).count + 1
                &&& final(self).max_files == old(self).max_files
                &&& crate::search::strs(final(self).seen@) == crate::search::strs(old(self).seen@).push(
                    slashes(relative@),
                )
            },
    {
        if !is_file || identify(relative).is_none() {
            return WalkStep::Skip;
        }
        if self.count >= self.max_files {
            self.complete = false;
            return WalkStep::Stop;
        }
        let rel = normalize_slashes(relative);
        let ghost before = self.seen@;
        self.seen.push(rel.clone());
        assert(crate::search::strs(self.seen@) =~= crate::search::strs(before).push(rel@));
        self.count = self.count + 1;
        WalkStep::Refresh(rel)
    }
}

impl SymbolIndex {
    /// The position of the entry for path `p`.
    fn find_entry(&self, p: &str) -> (r: Option<usize>)
        ensures
            match r {
                Some(k) => position_of(self@, p@) == k as int && k < self@.len(),
                None => position_of(self@, p@) == -1,
            },
    {
        let ghost v = self@;
        let mut k = self.files.len();
        assert(v.take(k as int) =~= v);
        while k > 0
            invariant
                v == self@,
                k <= v.len(),
                position_of(v, p@) == position_of(v.take(k as int), p@),
            decreases k,
        {
            let ghost t = v.take(k as int);
            assert(t.last() == v[k - 1]);
            assert(t.drop_last() =~= v.take(k - 1));
            assert(v[k - 1] == entry_view(self.files@[k - 1]));
            if crate::model::str_eq(self.files[k - 1].path.as_str(), p) {
                return Some(k - 1);
            }
            k = k - 1;
        }
        None
    }

    /// Decides whether the file at `relative` must be parsed again, given its current
    /// stamp (`None` when it is not a regular file). A file of no known language, or gone,
    /// is forgotten; a file whose stamp is unchanged is kept as parsed.
    pub fn refresh_check(&mut self, relative: &str, stamp: Option<FileStamp>) -> (r: bool)
        ensures
            r == refresh_needed(old(self)@, slashes(relative@), stamp),
            ({
                let rel = slashes(relative@);
                let k = position_of(old(self)@, rel);
                if language_of(rel) is None || stamp is None {
                    final(self)@ == without_path(old(self)@, rel) && !r
                } else if k >= 0 && old(self)@[k].stamp == stamp.unwrap() {
                    final(self)@ == old(self)@ && !r
                } else {
                    final(self)@ == old(self)@ && r
                }
            }),
    {
        let rel = normalize_slashes(relative);
        if identify(rel.as_str()).is_none() || stamp.is_none() {
            self.invalidate(relative);
            return false;
        }
        match self.find_entry(rel.as_str()) {
            Some(k) => {
                assert(self@[k as int] == entry_view(self.files@[k as int]));
                !(self.files[k].stamp == stamp.unwrap())
            },
            None => true,
        }
    }

    /// Parses the file at `relative` (its bytes are `source`) and keeps its symbols with
    /// its stamp; nothing changes when the parser returns no tree.
    pub fn refresh_store(&mut self, relative: &str, stamp: FileStamp, source: &[u8]) -> (r: Result<(), SymbolError>)
        ensures
            match file_outline(relative@, source@) {
                None => r == Err::<(), SymbolError>(SymbolError::NoSyntaxTree) && final(self)@ == old(self)@,
                Some(sv) => r is Ok && exists|e: EntryView|
                    {
                        &&& e.path == slashes(relative@)
                        &&& e.stamp == stamp
                        &&& symbol_views(e.symbols) == sv
                        &&& final(self)@ == stored(old(self)@, e)
                        &&& entry_matches(e, source@)
                    } && forall|k: int| 0 <= k < sv.len() ==> (#[trigger] sv[k]).end_byte <= source@.len(),
            },
    {
        proof {
            use_type_invariant(&*self);
        }
        let symbols = match parse_symbols(relative, source) {
            Some(v) => v,
            None => {
                return Err(SymbolError::NoSyntaxTree);
            },
        };
        let rel = normalize_slashes(relative);
        let ghost v = self@;
        let entry = CachedFile { path: rel, stamp, symbols };
        let ghost e = entry_view(entry);
        proof {
            lemma_position_of(v, e.path);
        }
        match self.find_entry(entry.path.as_str()) {
            Some(k) => {
                let mut files: Vec<CachedFile> = Vec::new();
                std::mem::swap(&mut files, &mut self.files);
                files.set(k, entry);
                assert(files@.map_values(|c: CachedFile| entry_view(c)) =~= v.update(k as int, e));
                assert(paths_unique(v.update(k as int, e))) by {
                    let w = v.update(k as int, e);
                    assert forall|i: int, j: int| 0 <= i < j < w.len() implies w[i].path != w[j].path by {
                        if i != k && j != k {
                            assert(w[i] == v[i] && w[j] == v[j]);
                        } else if i == k {
                            assert(w[j] == v[j]);
                            assert(v[k as int].path == e.path);
                        } else {
                            assert(w[i] == v[i]);
                            assert(v[k as int].path == e.path);
                        }
                    }
                }
                self.files = files;
            },
            None => {
                let mut files: Vec<CachedFile> = Vec::new();
                std::mem::swap(&mut files, &mut self.files);
                files.push(entry);
                assert(files@.map_values(|c: CachedFile| entry_view(c)) =~= v.push(e));
                assert(paths_unique(v.push(e))) by {
                    let w = v.push(e);
                    assert forall|i: int, j: int| 0 <= i < j < w.len() implies w[i].path != w[j].path by {
                        if j < v.len() {
                            assert(w[i] == v[i] && w[j] == v[j]);
                        } else {
                            assert(w[i] == v[i]);
                        }
                    }
                }
                self.files = files;
            },
        }
        assert(self@ == stored(v, e));
        assert(e.path == slashes(relative@) && e.stamp == stamp);
        assert(entry_matches(e, source@)) by {
            assert forall|j: int| 0 <= j < e.symbols.len() implies {
                let s = #[trigger] e.symbols[j]@;
                &&& s.path == e.path
                &&& s.end_byte <= source@.len()
                &&& s.source_hash == sha256_hex_of(source@.subrange(s.start_byte as int, s.end_byte as int))
            } by {
                assert(e.symbols[j] == symbols@[j]);
            }
        }
        Ok(())
    }

    /// Ends a refresh walk: when it saw every file, entries for files it did not see are
    /// dropped.
    pub fn finish_refresh(&mut self, walk: &RefreshWalk)
        ensures
            final(self)@ == if walk.complete {
                only_seen(old(self)@, crate::search::strs(walk.seen@))
            } else {
                old(self)@
            },
    {
        proof {
            use_type_invariant(&*self);
        }
        if !walk.complete {
            return;
        }
        let ghost v = self@;
        let ghost seen = crate::search::strs(walk.seen@);
        let ghost f = |e: EntryView| seen.contains(e.path);
        let mut kept: Vec<CachedFile> = Vec::new();
        let mut i: usize = 0;
        assert(v.take(0) =~= Seq::<EntryView>::empty());
        while i < self.files.len()
            invariant
                v == self@,
                seen == crate::search::strs(walk.seen@),
                f == (|e: EntryView| seen.contains(e.path)),
                i <= self.files@.len(),
                kept@.map_values(|c: CachedFile| entry_view(c)) == v.take(i as int).filter(f),
            decreases self.files@.len() - i,
        {
            proof {
                assert(v.take(i + 1) =~= v.take(i as int).push(v[i as int]));
                v.take(i as int).lemma_filter_push(v[i as int], f);
            }
            assert(v[i as int] == entry_view(self.files@[i as int]));
            if contains_text(&walk.seen, self.files[i].path.as_str()) {
                let ghost before = kept@;
                kept.push(
                    CachedFile {
                        path: self.files[i].path.clone(),
                        stamp: self.files[i].stamp,
                        symbols: crate::model::copy_symbols(&self.files[i].symbols),
                    },
                );
                assert(kept@.map_values(|c: CachedFile| entry_view(c)) =~= before.map_values(
                    |c: CachedFile| entry_view(c),
                ).push(v[i as int]));
            }
            i = i + 1;
        }
        assert(v.take(v.len() as int) =~= v);
        proof {
            lemma_unique_filter(v, f);
            lemma_entries_ok_filter(v, f);
        }
        self.files = kept;
    }
}

/// Whether `t` is one of `v`.
fn contains_text(v: &Vec<String>, t: &str) -> (r: bool)
    ensures
        r == crate::search::strs(v@).contains(t@),
{
    let mut i: usize = 0;
    while i < v.len()
        invariant
            i <= v@.len(),
            forall|j: int| 0 <= j < i ==> v@[j]@ != t@,
        decreases v@.len() - i,
    {
        if crate::model::str_eq(v[i].as_str(), t) {
            assert(crate::search::strs(v@)[i as int] == t@);
            return true;
        }
        i = i + 1;
    }
    assert forall|j: int| 0 <= j < crate::search::strs(v@).len() implies crate::search::strs(v@)[j] != t@ by {
        assert(crate::search::strs(v@)[j] == v@[j]@);
    }
    false
}

/// Declaration order: by path, then first line, then qualified name.
pub open spec fn location_lt(a: Symbol, b: Symbol) -> bool {
    seq_lt(a.path@, b.path@) || (a.path@ == b.path@ && (a.start_line < b.start_line || (a.start_line
        == b.start_line && seq_lt(a.qualified_name@, b.qualified_name@))))
}

/// Whatever lies between two symbols in location order is after the first or before the
/// last.
proof fn lemma_location_negative(a: Symbol, b: Symbol, c: Symbol)
    requires
        location_lt(a, c),
    ensures
        location_lt(a, b) || location_lt(b, c),
{
    lemma_seq_lt_total(a.path@, b.path@);
    lemma_seq_lt_total(b.path@, c.path@);
    lemma_seq_lt_total(a.qualified_name@, b.qualified_name@);
    lemma_seq_lt_total(b.qualified_name@, c.qualified_name@);
    lemma_location_lt(a, b, c);
    lemma_location_lt(b, a, c);
    lemma_location_lt(a, c, b);
}

proof fn lemma_location_lt(a: Symbol, b: Symbol, c: Symbol)
    ensures
        location_lt(a, b) ==> !location_lt(b, a),
        location_lt(a, b) && location_lt(b, c) ==> location_lt(a, c),
{
    lemma_seq_lt_total(a.path@, b.path@);
    lemma_seq_lt_total(a.qualified_name@, b.qualified_name@);
    lemma_seq_lt_irreflexive(a.path@);
    lemma_seq_lt_irreflexive(a.qualified_name@);
    if seq_lt(a.path@, b.path@) && seq_lt(b.path@, c.path@) {
        lemma_seq_lt_transitive(a.path@, b.path@, c.path@);
    }
    if seq_lt(a.qualified_name@, b.qualified_name@) && seq_lt(b.qualified_name@, c.qualified_name@) {
        lemma_seq_lt_transitive(a.qualified_name@, b.qualified_name@, c.qualified_name@);
    }
}

/// `location_lt`, computed.
fn location_before(a: &Symbol, b: &Symbol) -> (r: bool)
    ensures
        r == location_lt(*a, *b),
{
    if str_before(a.path.as_str(), b.path.as_str()) {
        return true;
    }
    if !crate::model::str_eq(a.path.as_str(), b.path.as_str()) {
        return false;
    }
    a.start_line < b.start_line || (a.start_line == b.start_line && str_before(
        a.qualified_name.as_str(),
        b.qualified_name.as_str(),
    ))
}

impl Ranked for Symbol {
    open spec fn precedes(&self, other: &Self) -> bool {
        location_lt(*self, *other)
    }

    proof fn lemma_asymmetric(a: &Self, b: &Self) {
        lemma_location_lt(*a, *b, *a);
    }

    proof fn lemma_transitive(a: &Self, b: &Self, c: &Self) {
        lemma_location_lt(*a, *b, *c);
    }

    proof fn lemma_negative_transitive(a: &Self, b: &Self, c: &Self) {
        lemma_location_negative(*a, *b, *c);
    }

    fn precedes_exec(&self, other: &Self) -> (r: bool) {
        location_before(self, other)
    }
}

/// A symbol that matches a query, and whether its name or qualified name is the query.
#[derive(Debug, Clone)]
pub struct Candidate {
    pub exact: bool,
    pub symbol: Symbol,
}

/// Relevance order: exact matches first, then shorter qualified names (in UTF-8 bytes),
/// then declaration order.
pub open spec fn relevance_lt(a: Candidate, b: Candidate) -> bool {
    (a.exact && !b.exact) || (a.exact == b.exact && (blen(a.symbol.qualified_name@) < blen(
        b.symbol.qualified_name@,
    ) || (blen(a.symbol.qualified_name@) == blen(b.symbol.qualified_name@) && location_lt(
        a.symbol,
        b.symbol,
    ))))
}

impl Ranked for Candidate {
    open spec fn precedes(&self, other: &Self) -> bool {
        relevance_lt(*self, *other)
    }

    proof fn lemma_asymmetric(a: &Self, b: &Self) {
        lemma_location_lt(a.symbol, b.symbol, a.symbol);
    }

    proof fn lemma_transitive(a: &Self, b: &Self, c: &Self) {
        lemma_location_lt(a.symbol, b.symbol, c.symbol);
    }

    proof fn lemma_negative_transitive(a: &Self, b: &Self, c: &Self) {
        if location_lt(a.symbol, c.symbol) {
            lemma_location_negative(a.symbol, b.symbol, c.symbol);
        }
        lemma_seq_lt_total(a.symbol.path@, b.symbol.path@);
        lemma_seq_lt_total(b.symbol.path@, c.symbol.path@);
        lemma_seq_lt_total(a.symbol.qualified_name@, b.symbol.qualified_name@);
        lemma_seq_lt_total(b.symbol.qualified_name@, c.symbol.qualified_name@);
    }

    fn precedes_exec(&self, other: &Self) -> (r: bool) {
        if self.exact != other.exact {
            return self.exact;
        }
        let la = self.symbol.qualified_name.as_str().as_bytes().len();
        let lb = other.symbol.qualified_name.as_str().as_bytes().len();
        la < lb || (la == lb && location_before(&self.symbol, &other.symbol))
    }
}

/// The symbols of all entries, entry by entry.
pub open spec fn flatten(v: Seq<EntryView>) -> Seq<Symbol>
    decreases v.len(),
{
    if v.len() == 0 {
        Seq::empty()
    } else {
        flatten(v.drop_last()) + v.last().symbols
    }
}

/// A symbol matches a query (already in lower case) when its name, qualified name or id
/// contains it, ignoring ASCII case.
pub open spec fn symbol_matches(s: Symbol, q: Seq<char>) -> bool {
    contains(lower(s.name@), q) || contains(lower(s.qualified_name@), q) || contains(lower(s.id@), q)
}

/// The candidate a symbol makes for `query`, if it matches.
pub open spec fn candidate_of(query: Seq<char>) -> spec_fn(Symbol) -> Option<Candidate> {
    |s: Symbol|
        if symbol_matches(s, lower(query)) {
            Some(
                Candidate {
                    exact: eq_ignore_case(s.name@, query) || eq_ignore_case(s.qualified_name@, query),
                    symbol: s,
                },
            )
        } else {
            None
        }
}

/// How many results a symbol query returns: `limit` clamped to `[1, 500]`, at most the
/// number of matches.
pub open spec fn result_count(limit: int, matches: int) -> int {
    let l = if limit < 1 {
        1
    } else if limit > 500 {
        500
    } else {
        limit
    };
    if l < matches {
        l
    } else {
        matches
    }
}

impl SymbolIndex {
    /// The symbols of all entries, entry by entry.
    fn flat_symbols(&self) -> (r: Vec<Symbol>)
        ensures
            r@ == flatten(self@),
    {
        let ghost v = self@;
        let mut out: Vec<Symbol> = Vec::new();
        let mut i: usize = 0;
        assert(v.take(0) =~= Seq::<EntryView>::empty());
        while i < self.files.len()
            invariant
                v == self@,
                i <= v.len(),
                out@ == flatten(v.take(i as int)),
            decreases v.len() - i,
        {
            let syms = &self.files[i].symbols;
            assert(v[i as int].symbols == syms@);
            let ghost base = out@;
            let mut j: usize = 0;
            assert(syms@.take(0) =~= Seq::<Symbol>::empty());
            while j < syms.len()
                invariant
                    j <= syms@.len(),
                    out@ == base + syms@.take(j as int),
                decreases syms@.len() - j,
            {
                out.push(syms[j].copy());
                assert(out@ =~= base + syms@.take(j + 1));
                j = j + 1;
            }
            assert(syms@.take(syms@.len() as int) =~= syms@);
            assert(v.take(i + 1).drop_last() =~= v.take(i as int));
            assert(v.take(i + 1).last() == v[i as int]);
            i = i + 1;
        }
        assert(v.take(v.len() as int) =~= v);
        out
    }

    /// Every symbol of the index, in declaration order (path, first line, qualified name);
    /// each is well formed.
    pub fn all_symbols(&self) -> (r: Vec<Symbol>)
        ensures
            sorted_stably(r@, flatten(self@)),
            forall|k: int| 0 <= k < r@.len() ==> symbol_record_ok(#[trigger] r@[k]@),
    {
        proof {
            use_type_invariant(self);
        }
        let r = sort_ranked(self.flat_symbols());
        proof {
            lemma_reordered_ok(r@, self@);
        }
        r
    }

    /// The symbols whose name, qualified name or id contains `query` (ignoring ASCII
    /// case), most relevant first, at most `limit` (clamped to `[1, 500]`).
    pub fn find_symbols(&self, query: &str, limit: usize) -> (r: Vec<Symbol>)
        ensures
            exists|sorted: Seq<Candidate>|
                {
                    &&& sorted_stably(sorted, flatten(self@).filter_map(candidate_of(query@)))
                    &&& r@ == sorted.take(result_count(limit as int, sorted.len() as int)).map_values(
                        |c: Candidate| c.symbol,
                    )
                },
            forall|k: int| 0 <= k < r@.len() ==> symbol_record_ok(#[trigger] r@[k]@),
    {
        let flat = self.flat_symbols();
        let qv = chars_of(query);
        let q = to_lower(&qv);
        let ghost f = candidate_of(query@);
        let mut cands: Vec<Candidate> = Vec::new();
        let mut i: usize = 0;
        assert(flat@.take(0) =~= Seq::<Symbol>::empty());
        while i < flat.len()
            invariant
                f == candidate_of(query@),
                qv@ == query@,
                q@ == lower(query@),
                i <= flat@.len(),
                cands@ == flat@.take(i as int).filter_map(f),
            decreases flat@.len() - i,
        {
            proof {
                flat@.lemma_filter_map_take_succ(f, i as int);
            }
            let s = &flat[i];
            let name = chars_of(s.name.as_str());
            let qn = chars_of(s.qualified_name.as_str());
            let id = chars_of(s.id.as_str());
            if contains_chars(&to_lower(&name), &q) || contains_chars(&to_lower(&qn), &q) || contains_chars(
                &to_lower(&id),
                &q,
            ) {
                let exact = eq_ignore_case_chars(&name, &qv) || eq_ignore_case_chars(&qn, &qv);
                let c = Candidate { exact, symbol: s.copy() };
                assert(f(flat@[i as int]) == Some(c));
                cands.push(c);
            }
            i = i + 1;
        }
        assert(flat@.take(flat@.len() as int) =~= flat@);
        let sorted = sort_ranked(cands);
        proof {
            vstd::seq_lib::to_multiset_len(sorted@);
            vstd::seq_lib::to_multiset_len(flat@.filter_map(f));
        }
        let lim = if limit < 1 {
            1
        } else if limit > 500 {
            500
        } else {
            limit
        };
        let n = if lim < sorted.len() {
            lim
        } else {
            sorted.len()
        };
        let mut out: Vec<Symbol> = Vec::new();
        let mut k: usize = 0;
        while k < n
            invariant
                n <= sorted@.len(),
                k <= n,
                out@ == sorted@.take(k as int).map_values(|c: Candidate| c.symbol),
            decreases n - k,
        {
            out.push(sorted[k].symbol.copy());
            assert(out@ =~= sorted@.take(k + 1).map_values(|c: Candidate| c.symbol));
            k = k + 1;
        }
        proof {
            use_type_invariant(self);
            law_found_symbols_match(self@, query@, limit as int, sorted@, out@);
            lemma_flatten_ok(self@);
            assert forall|i: int| 0 <= i < out@.len() implies symbol_record_ok(#[trigger] out@[i]@) by {
                assert(flatten(self@).contains(out@[i]));
                let t = choose|t: int| 0 <= t < flatten(self@).len() && flatten(self@)[t] == out@[i];
                assert(symbol_record_ok(flatten(self@)[t]@));
            }
        }
        out
    }
}

/// The file part of a symbol id: the text before its first `::`.
pub open spec fn id_file(id: Seq<char>) -> Seq<char> {
    let k = first_from(id, "::"@, 0);
    if k >= 0 {
        id.take(k)
    } else {
        id
    }
}

proof fn lemma_first_from(s: Seq<char>, p: Seq<char>, from: int, i: int)
    requires
        0 <= from <= i,
        forall|j: int| from <= j < i ==> !crate::text::occurs_at(s, p, j),
    ensures
        first_from(s, p, from) == first_from(s, p, i),
    decreases i - from,
{
    if from < i {
        lemma_first_from(s, p, from + 1, i);
    }
}

proof fn lemma_first_from_none(s: Seq<char>, p: Seq<char>, from: int)
    requires
        0 <= from,
        forall|j: int| from <= j ==> !crate::text::occurs_at(s, p, j),
    ensures
        first_from(s, p, from) == -1,
    decreases s.len() + 1 - from,
{
    if from + p.len() <= s.len() {
        lemma_first_from_none(s, p, from + 1);
    }
}

/// The file part of a symbol id.
pub fn symbol_file_of(symbol_id: &str) -> (r: String)
    ensures
        r@ == id_file(symbol_id@),
{
    let id = chars_of(symbol_id);
    let sep = chars_of("::");
    match crate::text::find_from(&id, &sep, 0) {
        Some(k) => {
            proof {
                lemma_first_from(id@, sep@, 0, k as int);
            }
            let mut out: Vec<char> = Vec::new();
            let mut i: usize = 0;
            while i < k
                invariant
                    k <= id@.len(),
                    i <= k,
                    out@ == id@.take(i as int),
                decreases k - i,
            {
                out.push(id[i]);
                assert(out@ =~= id@.take(i + 1));
                i = i + 1;
            }
            string_from_chars(&out)
        },
        None => {
            proof {
                lemma_first_from_none(id@, sep@, 0);
            }
            symbol_id.to_string()
        },
    }
}

/// The symbols kept for path `p`, or none.
pub open spec fn entry_symbols(v: Seq<EntryView>, p: Seq<char>) -> Seq<Symbol> {
    let k = position_of(v, p);
    if k >= 0 {
        v[k].symbols
    } else {
        Seq::empty()
    }
}

/// The first symbol of `syms` with id `id`, or -1.
pub open spec fn index_of_id(syms: Seq<Symbol>, id: Seq<char>) -> int
    decreases syms.len(),
{
    if syms.len() == 0 {
        -1
    } else if index_of_id(syms.drop_last(), id) >= 0 {
        index_of_id(syms.drop_last(), id)
    } else if syms.last().id@ == id {
        syms.len() - 1
    } else {
        -1
    }
}

/// The first symbol of `syms` with id `id`.
fn find_id(syms: &Vec<Symbol>, id: &str) -> (r: Option<usize>)
    ensures
        match r {
            Some(k) => index_of_id(syms@, id@) == k && k < syms@.len(),
            None => index_of_id(syms@, id@) == -1,
        },
{
    let mut i: usize = 0;
    assert(syms@.take(0) =~= Seq::<Symbol>::empty());
    while i < syms.len()
        invariant
            i <= syms@.len(),
            index_of_id(syms@.take(i as int), id@) == -1,
        decreases syms@.len() - i,
    {
        assert(syms@.take(i + 1).drop_last() =~= syms@.take(i as int));
        if crate::model::str_eq(syms[i].id.as_str(), id) {
            proof {
                lemma_index_of_id_prefix(syms@, id@, i + 1);
            }
            return Some(i);
        }
        i = i + 1;
    }
    assert(syms@.take(syms@.len() as int) =~= syms@);
    None
}

/// Once found in a prefix, the first symbol with an id stays the first.
proof fn lemma_index_of_id_bound(syms: Seq<Symbol>, id: Seq<char>)
    ensures
        index_of_id(syms, id) < syms.len(),
    decreases syms.len(),
{
    if syms.len() > 0 {
        lemma_index_of_id_bound(syms.drop_last(), id);
    }
}

proof fn lemma_index_of_id_prefix(syms: Seq<Symbol>, id: Seq<char>, k: int)
    requires
        0 <= k <= syms.len(),
        index_of_id(syms.take(k), id) >= 0,
    ensures
        index_of_id(syms, id) == index_of_id(syms.take(k), id),
    decreases syms.len() - k,
{
    if k < syms.len() {
        assert(syms.take(k + 1).drop_last() =~= syms.take(k));
        lemma_index_of_id_prefix(syms, id, k + 1);
    } else {
        assert(syms.take(k) =~= syms);
    }
}

/// The text of a symbol's bytes in `source` (of nothing when they do not lie in it),
/// invalid UTF-8 replaced.
pub open spec fn symbol_text(source: Seq<u8>, s: Symbol) -> Seq<char> {
    crate::text::utf8_lossy(crate::outline::byte_slice(source, s.start_byte as nat, s.end_byte as nat))
}

/// The text of a symbol's bytes in `source`.
fn symbol_source(source: &[u8], s: &Symbol) -> (r: String)
    ensures
        r@ == symbol_text(source@, *s),
{
    if s.start_byte <= s.end_byte && s.end_byte <= source.len() {
        crate::text::decode_lossy(vstd::slice::slice_subrange(source, s.start_byte, s.end_byte))
    } else {
        let none: Vec<u8> = Vec::new();
        assert(none@ =~= Seq::<u8>::empty());
        crate::text::decode_lossy(none.as_slice())
    }
}

impl SymbolIndex {
    /// Reads the symbol with id `symbol_id`, as kept for its file, with its text in
    /// `source` (the file's bytes, read by the caller).
    pub fn read_symbol(&self, symbol_id: &str, source: &[u8]) -> (r: Option<SymbolRead>)
        ensures
            ({
                let rel = id_file(symbol_id@);
                let syms = entry_symbols(self@, rel);
                let k = index_of_id(syms, symbol_id@);
                if rel.len() == 0 || k < 0 {
                    r is None
                } else {
                    r matches Some(sr) && sr.symbol == syms[k] && sr.source@ == symbol_text(source@, syms[k])
                }
            }),
            r matches Some(sr) ==> sr.symbol.path@ == id_file(symbol_id@) && symbol_record_ok(sr.symbol@),
    {
        proof {
            use_type_invariant(self);
        }
        let rel = symbol_file_of(symbol_id);
        if rel.as_str().is_empty() {
            return None;
        }
        let e = match self.find_entry(rel.as_str()) {
            Some(e) => e,
            None => {
                return None;
            },
        };
        assert(self@[e as int] == entry_view(self.files@[e as int]));
        let syms = &self.files[e].symbols;
        match find_id(syms, symbol_id) {
            None => None,
            Some(k) => {
                proof {
                    lemma_position_of(self@, rel@);
                    assert(entry_ok(self@[e as int]));
                    assert(self@[e as int].symbols == syms@);
                    assert(symbol_record_ok(self@[e as int].symbols[k as int]@));
                    assert(syms@[k as int]@.path == self@[e as int].path);
                }
                let symbol = syms[k].copy();
                let text = symbol_source(source, &symbol);
                Some(SymbolRead { symbol, source: text })
            },
        }
    }
}

/// What a read of symbol `id` among `syms` returns.
pub open spec fn read_outcome(syms: Seq<Symbol>, id: Seq<char>, source: Seq<u8>, r: Result<Option<SymbolRead>, SymbolError>) -> bool {
    let k = index_of_id(syms, id);
    match r {
        Ok(None) => k < 0,
        Ok(Some(sr)) => k >= 0 && sr.symbol == syms[k] && sr.source@ == symbol_text(source, syms[k]),
        Err(_) => false,
    }
}

/// Reads a symbol from a fresh parse of its file: the file is the id's file part and
/// `source` its bytes (read by the caller). A file of no known language has no symbols.
pub fn read_symbol(symbol_id: &str, source: &[u8]) -> (r: Result<Option<SymbolRead>, SymbolError>)
    ensures
        ({
            let rel = id_file(symbol_id@);
            if rel.len() == 0 || (language_of(slashes(rel)) is None) {
                r == Ok::<Option<SymbolRead>, SymbolError>(None)
            } else {
                match file_outline(rel, source@) {
                    None => r == Err::<Option<SymbolRead>, SymbolError>(SymbolError::NoSyntaxTree),
                    Some(sv) => (r is Ok) && (slashes(rel) != rel ==> r == Ok::<Option<SymbolRead>, SymbolError>(None))
                        && (slashes(rel) == rel ==> exists|syms: Seq<Symbol>|
                        symbol_views(syms) == sv && read_outcome(syms, symbol_id@, source@, r)),
                }
            }
        }),
        r matches Ok(Some(sr)) ==> sr.symbol.start_byte <= sr.symbol.end_byte <= source@.len(),
{
    let rel = symbol_file_of(symbol_id);
    if rel.as_str().is_empty() {
        return Ok(None);
    }
    let mut index = SymbolIndex::new();
    let stamp = FileStamp { mtime_ns: 0, size: 0 };
    let ghost empty = index@;
    if !index.refresh_check(rel.as_str(), Some(stamp)) {
        return Ok(None);
    }
    index.refresh_store(rel.as_str(), stamp, source)?;
    let ghost e = index@[0];
    proof {
        assert(position_of(empty, slashes(rel@)) == -1);
        let e2 = choose|e2: EntryView|
            {
                &&& e2.path == slashes(rel@)
                &&& e2.stamp == stamp
                &&& symbol_views(e2.symbols) == file_outline(rel@, source@).unwrap()
                &&& index@ == stored(empty, e2)
            };
        assert(index@ == seq![e2]);
        assert(e == e2);
        assert(index@.drop_last() =~= Seq::<EntryView>::empty());
        if slashes(rel@) != rel@ {
            assert(position_of(index@.drop_last(), rel@) == -1);
            assert(position_of(index@, rel@) == -1);
            assert(entry_symbols(index@, rel@) =~= Seq::<Symbol>::empty());
        } else {
            assert(entry_symbols(index@, rel@) == e.symbols);
        }
    }
    let found = index.read_symbol(symbol_id, source);
    proof {
        use_type_invariant(&index);
        if found is Some {
            let syms = entry_symbols(index@, rel@);
            let k = index_of_id(syms, symbol_id@);
            assert(syms == e.symbols);
            lemma_index_of_id_bound(syms, symbol_id@);
            assert(symbol_views(e.symbols)[k] == e.symbols[k]@);
            assert(entry_ok(index@[0]));
            assert(symbol_record_ok(e.symbols[k]@));
        }
    }
    Ok(found)
}

/// The last position at or before `k` where `p` occurs in `s`, or -1.
pub open spec fn last_occurrence(s: Seq<char>, p: Seq<char>, k: int) -> int
    decreases k + 1,
{
    if k < 0 {
        -1
    } else if occurs_at(s, p, k) {
        k
    } else {
        last_occurrence(s, p, k - 1)
    }
}

/// The name part of a symbol id or name: the text after its last `::`.
pub open spec fn last_segment(t: Seq<char>) -> Seq<char> {
    let k = last_occurrence(t, "::"@, t.len() - 2);
    if k >= 0 {
        t.skip(k + 2)
    } else {
        t
    }
}

/// The name part of a symbol id or name.
pub fn name_part(t: &str) -> (r: String)
    ensures
        r@ == last_segment(t@),
{
    let cs = chars_of(t);
    let sep = chars_of("::");
    proof {
        reveal_strlit("::");
    }
    if cs.len() < 2 {
        assert(last_occurrence(cs@, "::"@, cs@.len() - 2) == -1);
        return t.to_string();
    }
    let total = cs.len();
    let mut k = cs.len() - 2;
    loop
        invariant
            total == cs@.len(),
            sep@ == "::"@,
            cs@ == t@,
            k + 2 <= cs@.len(),
            last_occurrence(cs@, sep@, cs@.len() - 2) == last_occurrence(cs@, sep@, k as int),
        decreases k,
    {
        if crate::text::occurs_at_chars(&cs, &sep, k) {
            let mut out: Vec<char> = Vec::new();
            let mut i = k + 2;
            while i < cs.len()
                invariant
                    k + 2 <= i <= cs@.len(),
                    out@ == cs@.subrange(k + 2, i as int),
                decreases cs@.len() - i,
            {
                out.push(cs[i]);
                assert(out@ =~= cs@.subrange(k + 2, i + 1));
                i = i + 1;
            }
            assert(out@ =~= cs@.skip(k + 2));
            return string_from_chars(&out);
        }
        if k == 0 {
            assert(last_occurrence(cs@, sep@, -1) == -1);
            return t.to_string();
        }
        k = k - 1;
    }
}

/// The number of lines a symbol spans, less one (0 when it ends before it starts).
pub open spec fn span(s: Symbol) -> int {
    if s.end_line >= s.start_line {
        s.end_line - s.start_line
    } else {
        0
    }
}

/// The innermost symbol of `syms` around `line`: the first of the shortest spans that
/// contain it, or -1.
pub open spec fn innermost(syms: Seq<Symbol>, line: int) -> int
    decreases syms.len(),
{
    if syms.len() == 0 {
        -1
    } else {
        let b = innermost(syms.drop_last(), line);
        let last = syms.last();
        if last.start_line <= line <= last.end_line && (b < 0 || span(last) < span(syms[b])) {
            syms.len() - 1
        } else {
            b
        }
    }
}

proof fn lemma_innermost_bound(syms: Seq<Symbol>, line: int)
    ensures
        -1 <= innermost(syms, line) < syms.len(),
    decreases syms.len(),
{
    if syms.len() > 0 {
        lemma_innermost_bound(syms.drop_last(), line);
    }
}

/// The innermost symbol of `syms` around `line`.
pub fn containing_symbol(syms: &Vec<Symbol>, line: usize) -> (r: Option<usize>)
    ensures
        match r {
            Some(k) => innermost(syms@, line as int) == k as int,
            None => innermost(syms@, line as int) == -1,
        },
{
    let mut best: Option<usize> = None;
    let mut i: usize = 0;
    assert(syms@.take(0) =~= Seq::<Symbol>::empty());
    while i < syms.len()
        invariant
            i <= syms@.len(),
            match best {
                Some(k) => innermost(syms@.take(i as int), line as int) == k as int && k < i,
                None => innermost(syms@.take(i as int), line as int) == -1,
            },
        decreases syms@.len() - i,
    {
        let ghost t = syms@.take(i + 1);
        assert(t.drop_last() =~= syms@.take(i as int));
        assert(t.last() == syms@[i as int]);
        let s = &syms[i];
        let sp = if s.end_line >= s.start_line {
            s.end_line - s.start_line
        } else {
            0
        };
        if s.start_line <= line && line <= s.end_line {
            match best {
                None => {
                    best = Some(i);
                },
                Some(k) => {
                    let b = &syms[k];
                    let bs = if b.end_line >= b.start_line {
                        b.end_line - b.start_line
                    } else {
                        0
                    };
                    assert(t[k as int] == syms@[k as int]);
                    if sp < bs {
                        best = Some(i);
                    }
                },
            }
        }
        i = i + 1;
    }
    assert(syms@.take(syms@.len() as int) =~= syms@);
    best
}

/// A symbol named `name` starts on `line`.
pub open spec fn declared_on(syms: Seq<Symbol>, name: Seq<char>, line: int) -> bool {
    exists|k: int| 0 <= k < syms.len() && syms[k].name@ == name && syms[k].start_line == line
}

/// The reference line `i` (0-based) of a file makes, if it matches `pattern` and no
/// symbol named `name` is declared on it.
pub open spec fn line_reference(
    path: Seq<char>,
    ls: Seq<Seq<char>>,
    syms: Seq<Symbol>,
    name: Seq<char>,
    pattern: Seq<char>,
) -> spec_fn(int) -> Option<ReferenceView> {
    |i: int|
        if regex_find_of(pattern, false, ls[i]) is Some && !declared_on(syms, name, i + 1) {
            Some(
                ReferenceView {
                    path,
                    line: (i + 1) as nat,
                    containing_symbol: if innermost(syms, i + 1) >= 0 {
                        Some(syms[innermost(syms, i + 1)].id@)
                    } else {
                        None
                    },
                    target_name: name,
                    kind: "lexical_ast_reference"@,
                },
            )
        } else {
            None
        }
}

/// The references in a file's text, line by line.
pub open spec fn file_references(
    path: Seq<char>,
    text: Seq<char>,
    syms: Seq<Symbol>,
    name: Seq<char>,
    pattern: Seq<char>,
) -> Seq<ReferenceView> {
    indices(lines(text).len()).filter_map(line_reference(path, lines(text), syms, name, pattern))
}

/// The pattern that finds `name` as a whole word.
pub open spec fn word_pattern(name: Seq<char>) -> Seq<char> {
    "\\b"@ + regex_escape_of(name) + "\\b"@
}

/// Every line a file's reference search reports mentions the name as a whole word: the
/// line exists, and the name occurs in it with no ASCII word character touching it on a
/// side where the name has one (so `run` is not reported in a line holding only
/// `runner`).
pub proof fn law_reference_lines_hold_the_word(
    path: Seq<char>,
    text: Seq<char>,
    syms: Seq<Symbol>,
    name: Seq<char>,
    pattern: Seq<char>,
)
    requires
        name.len() > 0,
        finds_whole_words(pattern, name),
    ensures
        forall|j: int|
            0 <= j < file_references(path, text, syms, name, pattern).len() ==> {
                let rf = #[trigger] file_references(path, text, syms, name, pattern)[j];
                &&& 1 <= rf.line <= lines(text).len()
                &&& rf.target_name == name
                &&& exists|k: int| #[trigger] whole_word_at(lines(text)[rf.line - 1], name, k)
            },
{
    let ls = lines(text);
    let f = line_reference(path, ls, syms, name, pattern);
    let idx = indices(ls.len());
    let fr = file_references(path, text, syms, name, pattern);
    assert forall|j: int| 0 <= j < fr.len() implies {
        let rf = #[trigger] fr[j];
        &&& 1 <= rf.line <= lines(text).len()
        &&& rf.target_name == name
        &&& exists|k: int| #[trigger] whole_word_at(lines(text)[rf.line - 1], name, k)
    } by {
        let rf = fr[j];
        assert(fr.contains(rf));
        idx.lemma_filter_map_contains(f, rf);
        let t = choose|t: int| #[trigger] idx.contains(t) && f(t) == Some(rf);
        let x = choose|x: int| 0 <= x < idx.len() && idx[x] == t;
        assert(0 <= t < ls.len());
        assert(rf.line == t + 1);
        assert(regex_find_of(pattern, false, ls[t]) is Some);
        let h = ls[t];
        assert(regex_find_of(pattern, false, h) matches Some((a, b)) ==> exists|k: int|
            crate::text::blen(h.take(k)) == a && whole_word_at(h, name, k));
        let k = choose|k: int| crate::text::blen(h.take(k)) == regex_find_of(pattern, false, h).unwrap().0
            && whole_word_at(h, name, k);
        assert(lines(text)[rf.line - 1] == h);
        assert(whole_word_at(lines(text)[rf.line - 1], name, k));
    }
}

/// `s` cut to at most `n` items.
pub open spec fn at_most<A>(s: Seq<A>, n: int) -> Seq<A> {
    if n < s.len() {
        s.take(n)
    } else {
        s
    }
}

proof fn lemma_filter_map_prefix<A, B>(s: Seq<A>, f: spec_fn(A) -> Option<B>, i: int, j: int)
    requires
        0 <= i <= j <= s.len(),
    ensures
        s.take(i).filter_map(f).len() <= s.take(j).filter_map(f).len(),
        s.take(j).filter_map(f).take(s.take(i).filter_map(f).len() as int) == s.take(i).filter_map(f),
    decreases j - i,
{
    if i < j {
        lemma_filter_map_prefix(s, f, i, j - 1);
        s.lemma_filter_map_take_succ(f, j - 1);
        let a = s.take(i).filter_map(f);
        let b = s.take(j - 1).filter_map(f);
        let c = s.take(j).filter_map(f);
        assert(c.take(a.len() as int) =~= b.take(a.len() as int));
    } else {
        assert(s.take(j).filter_map(f).take(s.take(i).filter_map(f).len() as int) =~= s.take(i).filter_map(f));
    }
}

/// A search for the lines that mention a symbol's name, file by file, up to a limit.
pub struct ReferenceScan {
    target_name: String,
    pattern: String,
    limit: usize,
    found: Vec<SymbolReference>,
}

/// The mathematical view of a reference search.
pub struct ScanView {
    pub target_name: Seq<char>,
    pub pattern: Seq<char>,
    pub limit: nat,
    pub found: Seq<ReferenceView>,
}

impl View for ReferenceScan {
    type V = ScanView;

    closed spec fn view(&self) -> ScanView {
        ScanView {
            target_name: self.target_name@,
            pattern: self.pattern@,
            limit: self.limit as nat,
            found: reference_views(self.found@),
        }
    }
}

/// How a reference search starts: refused when the word pattern of the target's name
/// does not compile, otherwise with no references found yet.
pub open spec fn scan_started(target: Seq<char>, limit: usize, r: Result<ReferenceScan, SymbolError>) -> bool {
    &&& (r is Ok <==> regex_valid(word_pattern(last_segment(target)), false))
    &&& (r matches Ok(scan) ==> scan@ == (ScanView {
        target_name: last_segment(target),
        pattern: word_pattern(last_segment(target)),
        limit: limit as nat,
        found: Seq::empty(),
    }))
    &&& (r is Err ==> r == Err::<ReferenceScan, SymbolError>(SymbolError::InvalidPattern))
}

impl ReferenceScan {
    #[verifier::type_invariant]
    spec fn inv(self) -> bool {
        &&& regex_valid(self.pattern@, false)
        &&& self.found@.len() <= self.limit
        &&& self.target_name@.len() > 0 ==> finds_whole_words(self.pattern@, self.target_name@)
    }

    /// Starts a search for `target` (a name or symbol id: its last `::` part is the name
    /// searched, as a whole word), keeping at most `limit` references. Fails when the
    /// word pattern does not compile.
    pub fn new(target: &str, limit: usize) -> (r: Result<ReferenceScan, SymbolError>)
        ensures
            scan_started(target@, limit, r),
            r matches Ok(scan) ==> (scan@.target_name.len() > 0 ==> finds_whole_words(
                scan@.pattern,
                scan@.target_name,
            )),
    {
        let name = name_part(target);
        let escaped = regex_escape(name.as_str());
        let mut p: Vec<char> = Vec::new();
        p.push('\\');
        p.push('b');
        crate::text::append_str(&mut p, escaped.as_str());
        p.push('\\');
        p.push('b');
        assert(p@ =~= word_pattern(name@)) by {
            reveal_strlit("\\b");
        }
        let pattern = string_from_chars(&p);
        if !regex_compiles(pattern.as_str(), false) {
            return Err(SymbolError::InvalidPattern);
        }
        let scan = ReferenceScan { target_name: name, pattern, limit, found: Vec::new() };
        assert(reference_views(scan.found@) =~= Seq::<ReferenceView>::empty());
        Ok(scan)
    }

    /// Whether fewer than `limit` references were found so far.
    pub fn wants_more(&self) -> (r: bool)
        ensures
            r == (self@.found.len() < self@.limit),
    {
        self.found.len() < self.limit
    }

    /// The references found so far.
    pub fn into_references(self) -> (r: Vec<SymbolReference>)
        ensures
            reference_views(r@) == self@.found,
    {
        self.found
    }

    /// Searches the file at `path` (its bytes read by the caller): its lines that mention
    /// the name, except those where a symbol of that name (as kept in `index` for the
    /// path) is declared, until the limit is reached.
    pub fn scan_file(&mut self, index: &SymbolIndex, path: &str, bytes: &[u8])
        ensures
            final(self)@.target_name == old(self)@.target_name,
            final(self)@.pattern == old(self)@.pattern,
            final(self)@.limit == old(self)@.limit,
            final(self)@.found == old(self)@.found + at_most(
                file_references(
                    path@,
                    utf8_lossy(bytes@),
                    entry_symbols(index@, path@),
                    old(self)@.target_name,
                    old(self)@.pattern,
                ),
                old(self)@.limit - old(self)@.found.len(),
            ),
            old(self)@.target_name.len() > 0 ==> forall|j: int|
                old(self)@.found.len() <= j < final(self)@.found.len() ==> {
                    let rf = #[trigger] final(self)@.found[j];
                    &&& 1 <= rf.line <= lines(utf8_lossy(bytes@)).len()
                    &&& exists|k: int| #[trigger] whole_word_at(lines(utf8_lossy(bytes@))[rf.line - 1], old(self)@.target_name, k)
                },
    {
        proof {
            use_type_invariant(&*self);
            if self@.target_name.len() > 0 {
                law_reference_lines_hold_the_word(
                    path@,
                    utf8_lossy(bytes@),
                    entry_symbols(index@, path@),
                    self@.target_name,
                    self@.pattern,
                );
            }
        }
        let text = decode_lossy(bytes);
        let chars = chars_of(text.as_str());
        let ls = split_lines(&chars);
        let ghost lv = views(ls@);
        let mut line_texts: Vec<String> = Vec::new();
        let mut j: usize = 0;
        while j < ls.len()
            invariant
                j <= ls@.len(),
                crate::search::strs(line_texts@) == lv.take(j as int),
                lv == views(ls@),
            decreases ls@.len() - j,
        {
            let lt = string_from_chars(&ls[j]);
            assert(lt@ == lv[j as int]);
            let ghost before = line_texts@;
            line_texts.push(lt);
            assert(crate::search::strs(line_texts@) =~= crate::search::strs(before).push(lt@));
            assert(lv.take(j + 1) =~= lv.take(j as int).push(lv[j as int]));
            j = j + 1;
        }
        assert(lv.take(ls@.len() as int) =~= lv);
        let hits = regex_find_each(self.pattern.as_str(), false, &line_texts);
        let none: Vec<Symbol> = Vec::new();
        let syms: &Vec<Symbol> = match index.find_entry(path) {
            Some(e) => {
                assert(index@[e as int] == entry_view(index.files@[e as int]));
                &index.files[e].symbols
            },
            None => {
                assert(none@ =~= entry_symbols(index@, path@));
                &none
            },
        };
        let ghost f = line_reference(path@, lv, syms@, self.target_name@, self.pattern@);
        let ghost idx = indices(lv.len());
        let mut found: Vec<SymbolReference> = Vec::new();
        std::mem::swap(&mut found, &mut self.found);
        let limit = self.limit;
        let ghost found0 = reference_views(found@);
        let ghost base = found@.len();
        let n = ls.len();
        let mut i: usize = 0;
        assert(idx.take(0) =~= Seq::<int>::empty());
        while i < n && found.len() < limit
            invariant
                n == lv.len(),
                lv == views(ls@),
                hits@.len() == n,
                forall|k: int|
                    0 <= k < n ==> ((#[trigger] hits@[k]) is Some <==> regex_find_of(
                        self.pattern@,
                        false,
                        crate::search::strs(line_texts@)[k],
                    ) is Some),
                crate::search::strs(line_texts@) == lv,
                f == line_reference(path@, lv, syms@, self.target_name@, self.pattern@),
                idx == indices(lv.len()),
                i <= n,
                limit == self.limit,
                found@.len() <= limit,
                base <= limit,
                regex_valid(self.pattern@, false),
                reference_views(found@) == found0 + idx.take(i as int).filter_map(f),
            decreases n - i,
        {
            proof {
                idx.lemma_filter_map_take_succ(f, i as int);
                assert(idx[i as int] == i);
                assert(crate::search::strs(line_texts@)[i as int] == lv[i as int]);
            }
            if hits[i].is_some() {
                let line = i + 1;
                let mut declared = false;
                let mut k: usize = 0;
                while k < syms.len()
                    invariant
                        k <= syms@.len(),
                        declared == exists|q: int| 0 <= q < k && syms@[q].name@ == self.target_name@ && syms@[q].start_line == line,
                    decreases syms@.len() - k,
                {
                    if syms[k].start_line == line && crate::model::str_eq(syms[k].name.as_str(), self.target_name.as_str()) {
                        declared = true;
                    }
                    k = k + 1;
                }
                if !declared {
                    proof {
                        lemma_innermost_bound(syms@, line as int);
                    }
                    let containing = match containing_symbol(syms, line) {
                        Some(c) => Some(syms[c].id.clone()),
                        None => None,
                    };
                    proof {
                        lemma_innermost_bound(syms@, line as int);
                        reveal_strlit("lexical_ast_reference");
                    }
                    let r = SymbolReference {
                        path: path.to_string(),
                        line,
                        containing_symbol: containing,
                        target_name: self.target_name.clone(),
                        kind: "lexical_ast_reference".to_string(),
                    };
                    assert(f(i as int) == Some(r@));
                    let ghost before = found@;
                    found.push(r);
                    assert(reference_views(found@) =~= reference_views(before).push(r@));
                }
            }
            i = i + 1;
        }
        proof {
            let all = idx.filter_map(f);
            let got = idx.take(i as int).filter_map(f);
            assert(idx.take(n as int) =~= idx);
            lemma_filter_map_prefix(idx, f, i as int, n as int);
            if i < n {
                assert(found@.len() == limit);
                assert(got.len() == limit - base);
            }
            assert(at_most(all, limit - base) =~= got);
        }
        self.found = found;
    }
}

/// The paths of the entries.
pub open spec fn entry_paths(v: Seq<EntryView>) -> Seq<Seq<char>> {
    v.map_values(|e: EntryView| e.path)
}

impl SymbolIndex {
    /// The paths of the indexed files, sorted.
    pub fn reference_paths(&self) -> (r: Vec<String>)
        ensures
            in_order(r@),
            exists|ps: Seq<String>| crate::search::strs(ps) == entry_paths(self@) && r@.to_multiset() == ps.to_multiset(),
    {
        let ghost v = self@;
        let mut ps: Vec<String> = Vec::new();
        let mut i: usize = 0;
        while i < self.files.len()
            invariant
                v == self@,
                i <= v.len(),
                crate::search::strs(ps@) == entry_paths(v).take(i as int),
            decreases v.len() - i,
        {
            assert(v[i as int] == entry_view(self.files@[i as int]));
            let ghost before = ps@;
            let pc = self.files[i].path.clone();
            assert(pc@ == v[i as int].path);
            ps.push(pc);
            assert(crate::search::strs(ps@) =~= crate::search::strs(before).push(v[i as int].path));
            assert(entry_paths(v).take(i + 1) =~= entry_paths(v).take(i as int).push(v[i as int].path));
            i = i + 1;
        }
        assert(entry_paths(v).take(v.len() as int) =~= entry_paths(v));
        let ghost ps0 = ps@;
        sort_ranked(ps)
    }
}

/// A symbol ordered by name alone.
pub struct ByName(pub Symbol);

impl Ranked for ByName {
    open spec fn precedes(&self, other: &Self) -> bool {
        seq_lt(self.0.name@, other.0.name@)
    }

    proof fn lemma_asymmetric(a: &Self, b: &Self) {
        lemma_seq_lt_total(a.0.name@, b.0.name@);
    }

    proof fn lemma_transitive(a: &Self, b: &Self, c: &Self) {
        lemma_seq_lt_transitive(a.0.name@, b.0.name@, c.0.name@);
    }

    proof fn lemma_negative_transitive(a: &Self, b: &Self, c: &Self) {
        lemma_seq_lt_negative_transitive(a.0.name@, b.0.name@, c.0.name@);
    }

    fn precedes_exec(&self, other: &Self) -> (r: bool) {
        str_before(self.0.name.as_str(), other.0.name.as_str())
    }
}

/// Symbols in order of name.
pub open spec fn name_sorted(l: Seq<Symbol>) -> bool {
    forall|i: int, j: int| 0 <= i < j < l.len() ==> !seq_lt(#[trigger] l[j].name@, #[trigger] l[i].name@)
}

/// The id of the only symbol of `l` named `n`, if exactly one has that name.
pub open spec fn holder(l: Seq<Symbol>, n: Seq<char>) -> Option<Seq<char>> {
    if exists|k: int|
        0 <= k < l.len() && l[k].name@ == n && forall|j: int| 0 <= j < l.len() && j != k ==> #[trigger] l[j].name@ != n {
        let k = choose|k: int|
            0 <= k < l.len() && l[k].name@ == n && forall|j: int| 0 <= j < l.len() && j != k ==> #[trigger] l[j].name@ != n;
        Some(l[k].id@)
    } else {
        None
    }
}

/// Where `x` goes in the sorted `t`: before the first larger item.
pub open spec fn insert_pos(t: Seq<Seq<char>>, x: Seq<char>) -> int
    decreases t.len(),
{
    if t.len() == 0 {
        0
    } else if insert_pos(t.drop_last(), x) < t.len() - 1 {
        insert_pos(t.drop_last(), x)
    } else if seq_lt(x, t.last()) {
        t.len() - 1
    } else {
        t.len() as int
    }
}

/// The sorted `t` with `x` added unless already there.
pub open spec fn insert_distinct(t: Seq<Seq<char>>, x: Seq<char>) -> Seq<Seq<char>> {
    if t.contains(x) {
        t
    } else {
        t.insert(insert_pos(t, x), x)
    }
}

/// The dependencies of a symbol named `own`: the ids of the symbols of `l` that the
/// captured names designate uniquely (other than `own`), sorted without repeats.
pub open spec fn dependencies(own: Seq<char>, caps: Seq<Option<Seq<char>>>, l: Seq<Symbol>) -> Seq<Seq<char>>
    decreases caps.len(),
{
    if caps.len() == 0 {
        Seq::empty()
    } else {
        let before = dependencies(own, caps.drop_last(), l);
        match caps.last() {
            Some(n) => if n != own && holder(l, n) is Some {
                insert_distinct(before, holder(l, n).unwrap())
            } else {
                before
            },
            None => before,
        }
    }
}

/// An association list with `k` bound to `val`: the binding replaced, or added at the end.
pub open spec fn assoc_put(a: Seq<(Seq<char>, Seq<Seq<char>>)>, k: Seq<char>, val: Seq<Seq<char>>) -> Seq<(Seq<char>, Seq<Seq<char>>)> {
    if exists|i: int| 0 <= i < a.len() && a[i].0 == k {
        let i = choose|i: int| 0 <= i < a.len() && a[i].0 == k;
        a.update(i, (k, val))
    } else {
        a.push((k, val))
    }
}

/// The pattern of a name followed by a call or a member access.
pub const CALL_PATTERN: &'static str = "\\b([A-Za-z_$][A-Za-z0-9_$]*)\\s*(?:\\(|\\.)";

/// The dependency graph of `syms` (each with its text `texts[k]`): each symbol with
/// dependencies is bound to them, a later symbol of the same id replacing an earlier.
pub open spec fn graph_of(syms: Seq<Symbol>, texts: Seq<Seq<char>>, l: Seq<Symbol>) -> Seq<(Seq<char>, Seq<Seq<char>>)>
    decreases syms.len(),
{
    if syms.len() == 0 || texts.len() < syms.len() {
        Seq::empty()
    } else {
        let k = syms.len() - 1;
        let before = graph_of(syms.drop_last(), texts, l);
        let deps = dependencies(syms[k].name@, regex_group_texts(CALL_PATTERN@, 1, texts[k]), l);
        if deps.len() > 0 {
            assoc_put(before, syms[k].id@, deps)
        } else {
            before
        }
    }
}

/// The paths of `syms`, each once, in order of first appearance.
pub open spec fn distinct_paths(syms: Seq<Symbol>) -> Seq<Seq<char>>
    decreases syms.len(),
{
    if syms.len() == 0 {
        Seq::empty()
    } else {
        let d = distinct_paths(syms.drop_last());
        if d.contains(syms.last().path@) {
            d
        } else {
            d.push(syms.last().path@)
        }
    }
}

/// The symbols whose dependencies are computed, all symbols by name, and the files to
/// read.
pub struct DependencyPlan {
    /// The first symbols in declaration order.
    pub symbols: Vec<Symbol>,
    /// Every symbol, in order of name.
    pub by_name: Vec<Symbol>,
    /// The paths of `symbols`, each once.
    pub paths: Vec<String>,
}

/// The first position of `p` in `ps`, or -1.
pub open spec fn first_index_of(ps: Seq<Seq<char>>, p: Seq<char>) -> int
    decreases ps.len(),
{
    if ps.len() == 0 {
        -1
    } else if first_index_of(ps.drop_last(), p) >= 0 {
        first_index_of(ps.drop_last(), p)
    } else if ps.last() == p {
        ps.len() - 1
    } else {
        -1
    }
}

/// The text of symbol `s` given the files' bytes, `sources[k]` for `paths[k]`.
pub open spec fn text_in(paths: Seq<Seq<char>>, sources: Seq<Seq<u8>>, s: Symbol) -> Seq<char> {
    let k = first_index_of(paths, s.path@);
    if 0 <= k < sources.len() {
        symbol_text(sources[k], s)
    } else {
        symbol_text(Seq::empty(), s)
    }
}

impl SymbolIndex {
    /// Plans a dependency scan of the first `max_symbols` symbols.
    pub fn dependency_plan(&self, max_symbols: usize) -> (r: DependencyPlan)
        ensures
            exists|sorted: Seq<Symbol>|
                sorted_stably(sorted, flatten(self@)) && r.symbols@ == at_most(sorted, max_symbols as int),
            name_sorted(r.by_name@),
            r.by_name@.to_multiset() == flatten(self@).to_multiset(),
            crate::search::strs(r.paths@) == distinct_paths(r.symbols@),
    {
        let all = self.all_symbols();
        let ghost sorted = all@;
        let mut wrapped: Vec<ByName> = Vec::new();
        let mut i: usize = 0;
        while i < all.len()
            invariant
                i <= all@.len(),
                wrapped@ == all@.take(i as int).map_values(|s: Symbol| ByName(s)),
            decreases all@.len() - i,
        {
            wrapped.push(ByName(all[i].copy()));
            assert(wrapped@ =~= all@.take(i + 1).map_values(|s: Symbol| ByName(s)));
            i = i + 1;
        }
        assert(all@.take(all@.len() as int) =~= all@);
        let ghost w0 = wrapped@;
        let by = sort_ranked(wrapped);
        let mut by_name: Vec<Symbol> = Vec::new();
        let mut j: usize = 0;
        while j < by.len()
            invariant
                j <= by@.len(),
                by_name@ == by@.take(j as int).map_values(|b: ByName| b.0),
            decreases by@.len() - j,
        {
            by_name.push(by[j].0.copy());
            assert(by_name@ =~= by@.take(j + 1).map_values(|b: ByName| b.0));
            j = j + 1;
        }
        assert(by@.take(by@.len() as int) =~= by@);
        proof {
            lemma_multiset_map(by@, w0, |b: ByName| b.0);
            assert(w0.map_values(|b: ByName| b.0) =~= all@);
            assert forall|a: int, b: int| 0 <= a < b < by_name@.len() implies !seq_lt(
                #[trigger] by_name@[b].name@,
                #[trigger] by_name@[a].name@,
            ) by {
                assert(!by@[b].precedes(&by@[a]));
            }
        }
        let n = if max_symbols < all.len() {
            max_symbols
        } else {
            all.len()
        };
        let mut symbols: Vec<Symbol> = Vec::new();
        let mut paths: Vec<String> = Vec::new();
        let mut k: usize = 0;
        assert(all@.take(0) =~= Seq::<Symbol>::empty());
        while k < n
            invariant
                n <= all@.len(),
                k <= n,
                symbols@ == all@.take(k as int),
                crate::search::strs(paths@) == distinct_paths(symbols@),
            decreases n - k,
        {
            let ghost before = symbols@;
            symbols.push(all[k].copy());
            assert(symbols@.drop_last() =~= before);
            if !contains_text(&paths, all[k].path.as_str()) {
                let ghost pb = paths@;
                paths.push(all[k].path.clone());
                assert(crate::search::strs(paths@) =~= crate::search::strs(pb).push(all@[k as int].path@));
            }
            assert(symbols@ =~= all@.take(k + 1));
            k = k + 1;
        }
        assert(symbols@ =~= at_most(all@, max_symbols as int));
        DependencyPlan { symbols, by_name, paths }
    }
}

proof fn lemma_first_index_prefix(ps: Seq<Seq<char>>, p: Seq<char>, k: int)
    requires
        0 <= k <= ps.len(),
        first_index_of(ps.take(k), p) >= 0,
    ensures
        first_index_of(ps, p) == first_index_of(ps.take(k), p),
    decreases ps.len() - k,
{
    if k < ps.len() {
        assert(ps.take(k + 1).drop_last() =~= ps.take(k));
        lemma_first_index_prefix(ps, p, k + 1);
    } else {
        assert(ps.take(k) =~= ps);
    }
}

/// The first position of `t` in `v`.
fn find_text(v: &Vec<String>, t: &str) -> (r: Option<usize>)
    ensures
        match r {
            Some(k) => first_index_of(crate::search::strs(v@), t@) == k && k < v@.len(),
            None => first_index_of(crate::search::strs(v@), t@) == -1,
        },
{
    let ghost sv = crate::search::strs(v@);
    let mut i: usize = 0;
    assert(sv.take(0) =~= Seq::<Seq<char>>::empty());
    while i < v.len()
        invariant
            sv == crate::search::strs(v@),
            i <= v@.len(),
            first_index_of(sv.take(i as int), t@) == -1,
        decreases v@.len() - i,
    {
        assert(sv.take(i + 1).drop_last() =~= sv.take(i as int));
        assert(sv[i as int] == v@[i as int]@);
        if crate::model::str_eq(v[i].as_str(), t) {
            proof {
                lemma_first_index_prefix(sv, t@, i + 1);
            }
            return Some(i);
        }
        i = i + 1;
    }
    assert(sv.take(v@.len() as int) =~= sv);
    None
}

proof fn lemma_lower_bound_prefix(l: Seq<Symbol>, n: Seq<char>, a: int, b: int)
    requires
        name_sorted(l),
        0 <= a < b < l.len(),
        seq_lt(l[b].name@, n),
    ensures
        seq_lt(l[a].name@, n),
{
    assert(!seq_lt(l[b].name@, l[a].name@));
    lemma_seq_lt_total(l[a].name@, l[b].name@);
    if l[a].name@ != l[b].name@ {
        lemma_seq_lt_transitive(l[a].name@, l[b].name@, n);
    }
}

/// The position of the only symbol named `n` in the name-sorted `l`, if exactly one has
/// that name.
fn unique_holder(l: &Vec<Symbol>, n: &str) -> (r: Option<usize>)
    requires
        name_sorted(l@),
    ensures
        match r {
            Some(k) => k < l@.len() && holder(l@, n@) == Some(l@[k as int].id@),
            None => holder(l@, n@) is None,
        },
{
    let len = l.len();
    let mut lo: usize = 0;
    let mut hi: usize = len;
    while lo < hi
        invariant
            len == l@.len(),
            name_sorted(l@),
            lo <= hi <= len,
            forall|k: int| 0 <= k < lo ==> seq_lt(#[trigger] l@[k].name@, n@),
            forall|k: int| hi <= k < len ==> !seq_lt(#[trigger] l@[k].name@, n@),
        decreases hi - lo,
    {
        let mid = lo + (hi - lo) / 2;
        if str_before(l[mid].name.as_str(), n) {
            proof {
                assert forall|k: int| 0 <= k < mid + 1 implies seq_lt(#[trigger] l@[k].name@, n@) by {
                    if k < mid {
                        lemma_lower_bound_prefix(l@, n@, k, mid as int);
                    }
                }
            }
            lo = mid + 1;
        } else {
            proof {
                assert forall|k: int| mid <= k < len implies !seq_lt(#[trigger] l@[k].name@, n@) by {
                    if k > mid && seq_lt(l@[k].name@, n@) {
                        lemma_lower_bound_prefix(l@, n@, mid as int, k);
                    }
                }
            }
            hi = mid;
        }
    }
    let ghost ls = l@;
    proof {
        assert forall|k: int| 0 <= k < lo implies #[trigger] ls[k].name@ != n@ by {
            lemma_seq_lt_irreflexive(n@);
        }
    }
    if lo < len && crate::model::str_eq(l[lo].name.as_str(), n) {
        if lo + 1 == len || !crate::model::str_eq(l[lo + 1].name.as_str(), n) {
            proof {
                assert forall|j: int| 0 <= j < ls.len() && j != lo implies #[trigger] ls[j].name@ != n@ by {
                    if j > lo + 1 {
                        let m = ls[lo + 1].name@;
                        assert(!seq_lt(m, n@));
                        lemma_seq_lt_total(m, n@);
                        assert(seq_lt(n@, m));
                        assert(!seq_lt(ls[j].name@, m));
                        lemma_seq_lt_total(ls[j].name@, m);
                        if ls[j].name@ != m {
                            lemma_seq_lt_transitive(n@, m, ls[j].name@);
                        }
                        lemma_seq_lt_irreflexive(n@);
                    }
                }
                let k0 = lo as int;
                assert(0 <= k0 < ls.len() && ls[k0].name@ == n@ && forall|j: int| 0 <= j < ls.len() && j != k0 ==> #[trigger] ls[j].name@ != n@);
                let k = choose|k: int|
                    0 <= k < ls.len() && ls[k].name@ == n@ && forall|j: int| 0 <= j < ls.len() && j != k ==> #[trigger] ls[j].name@ != n@;
                if k != k0 {
                    assert(ls[k0].name@ != n@);
                }
            }
            Some(lo)
        } else {
            proof {
                if exists|k: int|
                    0 <= k < ls.len() && ls[k].name@ == n@ && forall|j: int| 0 <= j < ls.len() && j != k ==> #[trigger] ls[j].name@ != n@ {
                    let k = choose|k: int|
                        0 <= k < ls.len() && ls[k].name@ == n@ && forall|j: int| 0 <= j < ls.len() && j != k ==> #[trigger] ls[j].name@ != n@;
                    if k == lo {
                        assert(ls[lo + 1].name@ == n@);
                    } else {
                        assert(ls[lo as int].name@ == n@);
                    }
                }
            }
            None
        }
    } else {
        proof {
            if exists|k: int|
                0 <= k < ls.len() && ls[k].name@ == n@ && forall|j: int| 0 <= j < ls.len() && j != k ==> #[trigger] ls[j].name@ != n@ {
                let k = choose|k: int|
                    0 <= k < ls.len() && ls[k].name@ == n@ && forall|j: int| 0 <= j < ls.len() && j != k ==> #[trigger] ls[j].name@ != n@;
                assert(k >= lo);
                let m = ls[lo as int].name@;
                assert(!seq_lt(m, n@));
                lemma_seq_lt_total(m, n@);
                if k > lo {
                    assert(!seq_lt(ls[k].name@, m));
                    lemma_seq_lt_irreflexive(n@);
                }
            }
        }
        None
    }
}

proof fn lemma_insert_pos(t: Seq<Seq<char>>, x: Seq<char>, p: int)
    requires
        0 <= p <= t.len(),
        forall|q: int| 0 <= q < p ==> !seq_lt(x, #[trigger] t[q]),
        p < t.len() ==> seq_lt(x, t[p]),
    ensures
        insert_pos(t, x) == p,
    decreases t.len(),
{
    if t.len() > 0 {
        let d = t.drop_last();
        if p < t.len() {
            if p < d.len() {
                lemma_insert_pos(d, x, p);
            } else {
                lemma_insert_pos(d, x, d.len() as int);
            }
        } else {
            lemma_insert_pos(d, x, d.len() as int);
        }
    }
}

/// Adds `x` to the sorted `t` unless it is there.
fn insert_distinct_exec(t: &mut Vec<String>, x: String)
    ensures
        crate::search::strs(final(t)@) == insert_distinct(crate::search::strs(old(t)@), x@),
{
    let ghost tv = crate::search::strs(t@);
    let mut i: usize = 0;
    while i < t.len()
        invariant
            tv == crate::search::strs(t@),
            i <= t@.len(),
            forall|q: int| 0 <= q < i ==> #[trigger] tv[q] != x@,
        decreases t@.len() - i,
    {
        assert(tv[i as int] == t@[i as int]@);
        if crate::model::str_eq(t[i].as_str(), x.as_str()) {
            assert(tv.contains(x@));
            return;
        }
        i = i + 1;
    }
    assert(!tv.contains(x@));
    let mut p: usize = 0;
    while p < t.len() && !str_before(x.as_str(), t[p].as_str())
        invariant
            tv == crate::search::strs(t@),
            p <= t@.len(),
            forall|q: int| 0 <= q < p ==> !seq_lt(x@, #[trigger] tv[q]),
        decreases t@.len() - p,
    {
        assert(tv[p as int] == t@[p as int]@);
        p = p + 1;
    }
    proof {
        if p < t@.len() {
            assert(tv[p as int] == t@[p as int]@);
        }
        lemma_insert_pos(tv, x@, p as int);
    }
    let ghost xv = x@;
    t.insert(p, x);
    assert(crate::search::strs(t@) =~= tv.insert(p as int, xv));
}

/// The view of a dependency graph.
pub open spec fn graph_view(g: Seq<(String, Vec<String>)>) -> Seq<(Seq<char>, Seq<Seq<char>>)> {
    g.map_values(|e: (String, Vec<String>)| (e.0@, crate::search::strs(e.1@)))
}

/// No key occurs twice.
pub open spec fn keys_unique(a: Seq<(Seq<char>, Seq<Seq<char>>)>) -> bool {
    forall|i: int, j: int| 0 <= i < j < a.len() ==> a[i].0 != a[j].0
}

/// Binds `k` to `val` in the graph.
fn assoc_put_exec(g: &mut Vec<(String, Vec<String>)>, k: String, val: Vec<String>)
    requires
        keys_unique(graph_view(old(g)@)),
    ensures
        graph_view(final(g)@) == assoc_put(graph_view(old(g)@), k@, crate::search::strs(val@)),
        keys_unique(graph_view(final(g)@)),
{
    let ghost gv = graph_view(g@);
    let ghost kv = k@;
    let ghost vv = crate::search::strs(val@);
    let mut i: usize = 0;
    while i < g.len()
        invariant
            gv == graph_view(g@),
            g@ == old(g)@,
            kv == k@,
            vv == crate::search::strs(val@),
            keys_unique(gv),
            i <= g@.len(),
            forall|q: int| 0 <= q < i ==> #[trigger] gv[q].0 != kv,
        decreases g@.len() - i,
    {
        assert(gv[i as int].0 == g@[i as int].0@);
        if crate::model::str_eq(g[i].0.as_str(), k.as_str()) {
            proof {
                assert(gv[i as int].0 == kv);
                assert(exists|c: int| 0 <= c < gv.len() && gv[c].0 == kv);
                let c = choose|c: int| 0 <= c < gv.len() && gv[c].0 == kv;
                if c != i {
                    assert(gv[c].0 == gv[i as int].0);
                    if c < i {
                        assert(gv[c].0 != gv[i as int].0);
                    } else {
                        assert(gv[i as int].0 != gv[c].0);
                    }
                }
                assert(c == i);
                assert(assoc_put(gv, kv, vv) == gv.update(i as int, (kv, vv)));
            }
            let ghost g0 = g@;
            let ghost pair: (String, Vec<String>) = (k, val);
            g.set(i, (k, val));
            assert(g@ == g0.update(i as int, pair));
            assert(pair.0@ == kv && crate::search::strs(pair.1@) == vv);
            assert forall|q: int| 0 <= q < g@.len() implies #[trigger] graph_view(g@)[q] == gv.update(i as int, (kv, vv))[q] by {
                if q != i {
                    assert(g@[q] == g0[q]);
                }
            }
            assert(graph_view(g@) =~= gv.update(i as int, (kv, vv)));
            assert(keys_unique(graph_view(g@))) by {
                let w = graph_view(g@);
                assert forall|a: int, b: int| 0 <= a < b < w.len() implies w[a].0 != w[b].0 by {
                    if a != i && b != i {
                        assert(w[a] == gv[a] && w[b] == gv[b]);
                    } else if a == i {
                        assert(w[b] == gv[b]);
                    } else {
                        assert(w[a] == gv[a]);
                    }
                }
            }
            return;
        }
        i = i + 1;
    }
    g.push((k, val));
    assert(graph_view(g@) =~= gv.push((kv, vv)));
    assert(keys_unique(graph_view(g@))) by {
        let w = graph_view(g@);
        assert forall|a: int, b: int| 0 <= a < b < w.len() implies w[a].0 != w[b].0 by {
            if b < gv.len() {
                assert(w[a] == gv[a] && w[b] == gv[b]);
            } else {
                assert(w[a] == gv[a]);
            }
        }
    }
}

impl DependencyPlan {
    /// The texts of the planned symbols, given the bytes of the planned files.
    pub open spec fn texts(&self, sources: Seq<Vec<u8>>) -> Seq<Seq<char>> {
        self.symbols@.map_values(
            |s: Symbol| text_in(crate::search::strs(self.paths@), sources.map_values(|b: Vec<u8>| b@), s),
        )
    }

    /// The dependency graph of the planned symbols: for each symbol, the ids of the
    /// symbols that the names it calls or dereferences designate uniquely. `sources[k]`
    /// holds the bytes of `paths[k]` (read by the caller).
    pub fn edges(&self, sources: &[Vec<u8>]) -> (r: Result<Vec<(String, Vec<String>)>, SymbolError>)
        requires
            name_sorted(self.by_name@),
        ensures
            r is Ok <==> regex_valid(CALL_PATTERN@, false),
            r matches Ok(g) ==> graph_view(g@) == graph_of(self.symbols@, self.texts(sources@), self.by_name@),
            r is Err ==> r == Err::<Vec<(String, Vec<String>)>, SymbolError>(SymbolError::InvalidPattern),
    {
        if !regex_compiles(CALL_PATTERN, false) {
            return Err(SymbolError::InvalidPattern);
        }
        let ghost srcs = sources@.map_values(|b: Vec<u8>| b@);
        let ghost tv = self.texts(sources@);
        let mut texts: Vec<String> = Vec::new();
        let mut i: usize = 0;
        while i < self.symbols.len()
            invariant
                srcs == sources@.map_values(|b: Vec<u8>| b@),
                tv == self.texts(sources@),
                i <= self.symbols@.len(),
                crate::search::strs(texts@) == tv.take(i as int),
            decreases self.symbols@.len() - i,
        {
            let sym = &self.symbols[i];
            let text = match find_text(&self.paths, sym.path.as_str()) {
                Some(k) => {
                    if k < sources.len() {
                        assert(srcs[k as int] == sources@[k as int]@);
                        symbol_source(sources[k].as_slice(), sym)
                    } else {
                        let none: Vec<u8> = Vec::new();
                        assert(none@ =~= Seq::<u8>::empty());
                        symbol_source(none.as_slice(), sym)
                    }
                },
                None => {
                    let none: Vec<u8> = Vec::new();
                    assert(none@ =~= Seq::<u8>::empty());
                    symbol_source(none.as_slice(), sym)
                },
            };
            assert(text@ == tv[i as int]);
            let ghost before = texts@;
            let ghost tx = text@;
            texts.push(text);
            assert(crate::search::strs(texts@) =~= crate::search::strs(before).push(tx));
            assert(tv.take(i + 1) =~= tv.take(i as int).push(tv[i as int]));
            i = i + 1;
        }
        assert(tv.take(tv.len() as int) =~= tv);
        let groups = regex_group_each(CALL_PATTERN, 1, texts.as_slice());
        let mut graph: Vec<(String, Vec<String>)> = Vec::new();
        let mut k: usize = 0;
        assert(self.symbols@.take(0) =~= Seq::<Symbol>::empty());
        while k < self.symbols.len()
            invariant
                tv == self.texts(sources@),
                crate::search::strs(texts@) == tv,
                groups@.len() == texts@.len(),
                texts@.len() == self.symbols@.len(),
                forall|q: int|
                    0 <= q < texts@.len() ==> option_texts((#[trigger] groups@[q])@) == regex_group_texts(
                        CALL_PATTERN@,
                        1,
                        texts@[q]@,
                    ),
                name_sorted(self.by_name@),
                k <= self.symbols@.len(),
                keys_unique(graph_view(graph@)),
                graph_view(graph@) == graph_of(self.symbols@.take(k as int), tv, self.by_name@),
            decreases self.symbols@.len() - k,
        {
            let sym = &self.symbols[k];
            let caps = &groups[k];
            let ghost cv = option_texts(caps@);
            assert(texts@[k as int]@ == tv[k as int]);
            assert(cv == regex_group_texts(CALL_PATTERN@, 1, tv[k as int]));
            let mut deps: Vec<String> = Vec::new();
            let mut j: usize = 0;
            assert(cv.take(0) =~= Seq::<Option<Seq<char>>>::empty());
            while j < caps.len()
                invariant
                    cv == option_texts(caps@),
                    name_sorted(self.by_name@),
                    j <= caps@.len(),
                    crate::search::strs(deps@) == dependencies(sym.name@, cv.take(j as int), self.by_name@),
                decreases caps@.len() - j,
            {
                assert(cv.take(j + 1).drop_last() =~= cv.take(j as int));
                assert(cv.take(j + 1).last() == cv[j as int]);
                match &caps[j] {
                    Some(name) => {
                        if !crate::model::str_eq(name.as_str(), sym.name.as_str()) {
                            match unique_holder(&self.by_name, name.as_str()) {
                                Some(h) => {
                                    insert_distinct_exec(&mut deps, self.by_name[h].id.clone());
                                },
                                None => {},
                            }
                        }
                    },
                    None => {},
                }
                j = j + 1;
            }
            assert(cv.take(cv.len() as int) =~= cv);
            proof {
                let t = self.symbols@.take(k + 1);
                assert(t.drop_last() =~= self.symbols@.take(k as int));
                assert(t[k as int] == *sym);
            }
            if deps.len() > 0 {
                assoc_put_exec(&mut graph, sym.id.clone(), deps);
            }
            k = k + 1;
        }
        assert(self.symbols@.take(self.symbols@.len() as int) =~= self.symbols@);
        Ok(graph)
    }
}

/// Storing a file's symbols, then reading the entry for its path, gives back what was
/// stored; the entries of other paths are untouched.
pub proof fn law_store_then_read(v: Seq<EntryView>, e: EntryView, other: Seq<char>)
    requires
        paths_unique(v),
    ensures
        position_of(stored(v, e), e.path) >= 0,
        stored(v, e)[position_of(stored(v, e), e.path)] == e,
        entry_symbols(stored(v, e), e.path) == e.symbols,
        other != e.path ==> entry_symbols(stored(v, e), other) == entry_symbols(v, other),
        paths_unique(stored(v, e)),
{
    lemma_position_of(v, e.path);
    let w = stored(v, e);
    let k = position_of(v, e.path);
    lemma_position_of(w, e.path);
    lemma_position_of(w, other);
    lemma_position_of(v, other);
    assert(paths_unique(w)) by {
        assert forall|i: int, j: int| 0 <= i < j < w.len() implies w[i].path != w[j].path by {
            if k >= 0 {
                if i != k && j != k {
                    assert(w[i] == v[i] && w[j] == v[j]);
                } else if i == k {
                    assert(w[j] == v[j]);
                } else {
                    assert(w[i] == v[i]);
                }
            } else if j < v.len() {
                assert(w[i] == v[i] && w[j] == v[j]);
            } else {
                assert(w[i] == v[i]);
            }
        }
    }
    let pw = position_of(w, e.path);
    if k >= 0 {
        assert(w[k] == e);
        if pw != k {
            assert(w[pw].path == w[k].path);
        }
    } else {
        assert(w[v.len() as int] == e);
        if pw != v.len() {
            assert(w[pw] == v[pw]);
        }
    }
    if other != e.path {
        let po = position_of(v, other);
        let qo = position_of(w, other);
        if po >= 0 {
            assert(w[po] == v[po]);
            if qo != po {
                if qo >= 0 {
                    assert(w[qo].path == w[po].path);
                }
            }
        } else if qo >= 0 {
            assert(w[qo].path == other);
            if qo < v.len() {
                if k >= 0 && qo == k {
                    assert(w[qo] == e);
                } else {
                    assert(w[qo] == v[qo]);
                }
            } else {
                assert(w[qo] == e);
            }
        }
    }
}

/// After a file is stored with a stamp, a check with the same stamp keeps it: an
/// unchanged file is not parsed again.
pub proof fn law_unchanged_file_kept(v: Seq<EntryView>, e: EntryView)
    requires
        paths_unique(v),
    ensures
        ({
            let w = stored(v, e);
            let k = position_of(w, e.path);
            k >= 0 && w[k].stamp == e.stamp
        }),
{
    law_store_then_read(v, e, e.path);
}

/// Once a path is forgotten (by `invalidate`, or by an engine edit that changed the file),
/// the next refresh parses the file again whatever its stamp: an edit that keeps the
/// file's size and modification time still leaves no stale symbols.
pub proof fn law_forgotten_path_is_parsed_again(v: Seq<EntryView>, p: Seq<char>, stamp: FileStamp)
    requires
        language_of(p) is Some,
    ensures
        refresh_needed(without_path(v, p), p, Some(stamp)),
        paths_unique(v) ==> paths_unique(without_path(v, p)),
{
    lemma_without_path(v, p);
    if paths_unique(v) {
        lemma_unique_filter(v, |e: EntryView| e.path != p);
    }
}

/// A forgotten path has no entry: its symbols are gone until it is stored again.
pub proof fn law_invalidate_forgets(v: Seq<EntryView>, p: Seq<char>)
    ensures
        position_of(without_path(v, p), p) == -1,
        entry_symbols(without_path(v, p), p) == Seq::<Symbol>::empty(),
{
    let w = without_path(v, p);
    let f = |e: EntryView| e.path != p;
    lemma_position_of(w, p);
    if position_of(w, p) >= 0 {
        let k = position_of(w, p);
        assert(w.contains(w[k]));
        lemma_filter_pred_holds(v, f, w[k]);
    }
}

proof fn lemma_filter_pred_holds(v: Seq<EntryView>, f: spec_fn(EntryView) -> bool, x: EntryView)
    requires
        v.filter(f).contains(x),
    ensures
        f(x),
    decreases v.len(),
{
    reveal(Seq::filter);
    if v.len() > 0 {
        let d = v.drop_last();
        if f(v.last()) {
            let r = d.filter(f);
            if x != v.last() {
                assert(r.push(v.last()).contains(x));
                let i = choose|i: int| 0 <= i < r.push(v.last()).len() && r.push(v.last())[i] == x;
                assert(i < r.len());
                assert(r[i] == x);
                lemma_filter_pred_holds(d, f, x);
            }
        } else {
            lemma_filter_pred_holds(d, f, x);
        }
    }
}

} // verus!

verus! {

proof fn lemma_flatten_matches(v: Seq<EntryView>, files: spec_fn(Seq<char>) -> Seq<u8>)
    requires
        forall|i: int| 0 <= i < v.len() ==> entry_matches(#[trigger] v[i], files(v[i].path)),
    ensures
        forall|k: int| 0 <= k < flatten(v).len() ==> symbol_matches_file(#[trigger] flatten(v)[k]@, files),
    decreases v.len(),
{
    if v.len() > 0 {
        let d = v.drop_last();
        assert forall|i: int| 0 <= i < d.len() implies entry_matches(#[trigger] d[i], files(d[i].path)) by {
            assert(d[i] == v[i]);
        }
        lemma_flatten_matches(d, files);
        let l = v.last();
        assert(entry_matches(v[v.len() - 1], files(v[v.len() - 1].path)));
        assert forall|k: int| 0 <= k < flatten(v).len() implies symbol_matches_file(#[trigger] flatten(v)[k]@, files) by {
            if k >= flatten(d).len() {
                let j = k - flatten(d).len();
                assert(flatten(v)[k] == l.symbols[j]);
                assert(l.symbols[j]@.path == l.path);
            } else {
                assert(flatten(v)[k] == flatten(d)[k]);
            }
        }
    }
}

/// When every entry of the index was parsed from its file's current bytes (`files`), every
/// symbol a query returns lies within its file and its hash is the hash of its bytes
/// there.
pub proof fn law_found_symbols_hash_their_bytes(
    v: Seq<EntryView>,
    files: spec_fn(Seq<char>) -> Seq<u8>,
    query: Seq<char>,
    limit: int,
    sorted: Seq<Candidate>,
    found: Seq<Symbol>,
)
    requires
        forall|i: int| 0 <= i < v.len() ==> entry_matches(#[trigger] v[i], files(v[i].path)),
        sorted.to_multiset() == flatten(v).filter_map(candidate_of(query)).to_multiset(),
        found == sorted.take(result_count(limit, sorted.len() as int)).map_values(|c: Candidate| c.symbol),
    ensures
        forall|k: int| 0 <= k < found.len() ==> symbol_matches_file(#[trigger] found[k]@, files),
{
    law_found_symbols_match(v, query, limit, sorted, found);
    lemma_flatten_matches(v, files);
    assert forall|k: int| 0 <= k < found.len() implies symbol_matches_file(#[trigger] found[k]@, files) by {
        assert(flatten(v).contains(found[k]));
        let t = choose|t: int| 0 <= t < flatten(v).len() && flatten(v)[t] == found[k];
        assert(symbol_matches_file(flatten(v)[t]@, files));
    }
}

proof fn lemma_no_position(v: Seq<EntryView>, p: Seq<char>)
    requires
        forall|k: int| 0 <= k < v.len() ==> #[trigger] v[k].path != p,
    ensures
        position_of(v, p) < 0,
{
    lemma_position_of(v, p);
}

/// Forgetting one path keeps the entries of the others.
proof fn lemma_entry_symbols_without(v: Seq<EntryView>, p: Seq<char>, q: Seq<char>)
    requires
        q != p,
    ensures
        entry_symbols(without_path(v, p), q) == entry_symbols(v, q),
    decreases v.len(),
{
    reveal(Seq::filter);
    let f = |e: EntryView| e.path != p;
    if v.len() > 0 {
        let d = v.drop_last();
        let x = v.last();
        lemma_entry_symbols_without(d, p, q);
        lemma_position_of(d, q);
        let fd = d.filter(f);
        lemma_position_of(fd, q);
        assert(v.filter(f) == if f(x) { fd.push(x) } else { fd });
        if x.path != q {
            let k = position_of(d, q);
            if k >= 0 {
                assert(v[k] == d[k]);
            }
        }
        if f(x) {
            let w = fd.push(x);
            assert(w.drop_last() =~= fd);
            assert(w.last() == x);
            if x.path != q {
                let j = position_of(fd, q);
                if j >= 0 {
                    assert(w[j] == fd[j]);
                }
            }
        }
    }
}

/// The symbols of an index are those of all entries but one path's, and that path's.
proof fn lemma_flatten_without(b: Seq<EntryView>, p: Seq<char>)
    requires
        paths_unique(b),
    ensures
        flatten(b).to_multiset() == flatten(without_path(b, p)).to_multiset().add(
            entry_symbols(b, p).to_multiset(),
        ),
    decreases b.len(),
{
    broadcast use vstd::seq_lib::lemma_multiset_commutative, vstd::seq_lib::group_to_multiset_ensures;
    reveal(Seq::filter);
    let f = |e: EntryView| e.path != p;
    if b.len() == 0 {
        assert(b.filter(f) =~= b);
        assert(flatten(b) =~= Seq::<Symbol>::empty());
    } else {
        let d = b.drop_last();
        let x = b.last();
        assert(paths_unique(d)) by {
            assert forall|i: int, j: int| 0 <= i < j < d.len() implies d[i].path != d[j].path by {
                assert(d[i] == b[i] && d[j] == b[j]);
            }
        }
        assert(b.filter(f) == if f(x) { d.filter(f).push(x) } else { d.filter(f) });
        assert(flatten(b) == flatten(d) + x.symbols);
        if x.path == p {
            assert forall|k: int| 0 <= k < d.len() implies #[trigger] d[k].path != p by {
                assert(d[k] == b[k]);
            }
            lemma_no_position(d, p);
            lemma_without_path(d, p);
            assert(entry_symbols(b, p) == x.symbols);
        } else {
            lemma_flatten_without(d, p);
            let w = d.filter(f).push(x);
            assert(w.drop_last() =~= d.filter(f));
            assert(flatten(w) == flatten(d.filter(f)) + x.symbols);
            lemma_position_of(d, p);
            let k = position_of(d, p);
            if k >= 0 {
                assert(b[k] == d[k]);
            }
            assert(entry_symbols(b, p) == entry_symbols(d, p));
            assert(flatten(b).to_multiset() =~= flatten(w).to_multiset().add(entry_symbols(b, p).to_multiset()));
        }
    }
}

/// An index whose every path holds no symbols holds no symbols.
proof fn lemma_flatten_none(b: Seq<EntryView>)
    requires
        paths_unique(b),
        forall|q: Seq<char>| #[trigger] entry_symbols(b, q) == Seq::<Symbol>::empty(),
    ensures
        flatten(b).to_multiset() == Multiset::<Symbol>::empty(),
    decreases b.len(),
{
    broadcast use vstd::seq_lib::lemma_multiset_commutative, vstd::seq_lib::group_to_multiset_ensures;
    if b.len() == 0 {
        assert(flatten(b) =~= Seq::<Symbol>::empty());
    } else {
        let x = b.last();
        let p = x.path;
        lemma_flatten_without(b, p);
        let w = without_path(b, p);
        lemma_unique_filter(b, |e: EntryView| e.path != p);
        lemma_without_path(b, p);
        assert(entry_symbols(b, p) == Seq::<Symbol>::empty());
        assert forall|q: Seq<char>| #[trigger] entry_symbols(w, q) == Seq::<Symbol>::empty() by {
            if q != p {
                lemma_entry_symbols_without(b, p, q);
                assert(entry_symbols(b, q) == Seq::<Symbol>::empty());
            }
        }
        assert(w.len() < b.len()) by {
            b.lemma_filter_len(|e: EntryView| e.path != p);
            reveal(Seq::filter);
            assert(b.filter(|e: EntryView| e.path != p) == b.drop_last().filter(|e: EntryView| e.path != p));
            b.drop_last().lemma_filter_len(|e: EntryView| e.path != p);
        }
        lemma_flatten_none(w);
        assert(Seq::<Symbol>::empty().to_multiset() =~= Multiset::<Symbol>::empty());
    }
}

/// Two indexes that hold the same symbols for every path hold the same symbols.
proof fn lemma_flatten_same(a: Seq<EntryView>, b: Seq<EntryView>)
    requires
        paths_unique(a),
        paths_unique(b),
        forall|q: Seq<char>| #[trigger] entry_symbols(a, q) == entry_symbols(b, q),
    ensures
        flatten(a).to_multiset() == flatten(b).to_multiset(),
    decreases a.len(),
{
    broadcast use vstd::seq_lib::lemma_multiset_commutative, vstd::seq_lib::group_to_multiset_ensures;
    if a.len() == 0 {
        assert forall|q: Seq<char>| #[trigger] entry_symbols(b, q) == Seq::<Symbol>::empty() by {
            assert(entry_symbols(a, q) == Seq::<Symbol>::empty());
        }
        lemma_flatten_none(b);
        assert(flatten(a) =~= Seq::<Symbol>::empty());
        assert(Seq::<Symbol>::empty().to_multiset() =~= Multiset::<Symbol>::empty());
    } else {
        let x = a.last();
        let p = x.path;
        let d = a.drop_last();
        assert(paths_unique(d)) by {
            assert forall|i: int, j: int| 0 <= i < j < d.len() implies d[i].path != d[j].path by {
                assert(d[i] == a[i] && d[j] == a[j]);
            }
        }
        assert forall|k: int| 0 <= k < d.len() implies #[trigger] d[k].path != p by {
            assert(d[k] == a[k]);
        }
        lemma_no_position(d, p);
        let w = without_path(b, p);
        lemma_unique_filter(b, |e: EntryView| e.path != p);
        lemma_without_path(b, p);
        lemma_flatten_without(b, p);
        assert(entry_symbols(a, p) == x.symbols);
        assert forall|q: Seq<char>| #[trigger] entry_symbols(d, q) == entry_symbols(w, q) by {
            if q != p {
                lemma_entry_symbols_without(b, p, q);
                lemma_position_of(d, q);
                let k = position_of(d, q);
                if k >= 0 {
                    assert(a[k] == d[k]);
                }
                assert(entry_symbols(a, q) == entry_symbols(d, q));
                assert(entry_symbols(a, q) == entry_symbols(b, q));
            }
        }
        lemma_flatten_same(d, w);
        assert(flatten(a) == flatten(d) + x.symbols);
    }
}

/// Forgetting a file and storing its fresh parse gives what a fresh index gives: when
/// every other path holds what a fresh parse of the current files holds (`fresh`), every
/// path then holds the same symbols, so reads by id agree, and the index holds the same
/// symbols, so queries range over the same candidates.
pub proof fn law_invalidate_then_parse_is_fresh(v: Seq<EntryView>, p: Seq<char>, e: EntryView, fresh: Seq<EntryView>)
    requires
        paths_unique(v),
        paths_unique(fresh),
        e.path == p,
        entry_symbols(fresh, p) == e.symbols,
        forall|q: Seq<char>| q != p ==> #[trigger] entry_symbols(v, q) == entry_symbols(fresh, q),
    ensures
        forall|q: Seq<char>|
            #[trigger] entry_symbols(stored(without_path(v, p), e), q) == entry_symbols(fresh, q),
        flatten(stored(without_path(v, p), e)).to_multiset() == flatten(fresh).to_multiset(),
{
    let w = without_path(v, p);
    lemma_without_path(v, p);
    lemma_unique_filter(v, |x: EntryView| x.path != p);
    let n = stored(w, e);
    assert(n == w.push(e));
    assert(n.drop_last() =~= w);
    assert forall|q: Seq<char>| #[trigger] entry_symbols(n, q) == entry_symbols(fresh, q) by {
        assert(n.last() == e);
        if q != p {
            lemma_entry_symbols_without(v, p, q);
            lemma_position_of(w, q);
            let k = position_of(w, q);
            if k >= 0 {
                assert(n[k] == w[k]);
            }
            assert(entry_symbols(n, q) == entry_symbols(w, q));
        }
    }
    assert(paths_unique(n)) by {
        lemma_position_of(w, p);
        assert forall|i: int, j: int| 0 <= i < j < n.len() implies n[i].path != n[j].path by {
            if j < w.len() {
                assert(n[i] == w[i] && n[j] == w[j]);
            } else {
                assert(n[i] == w[i]);
            }
        }
    }
    lemma_flatten_same(n, fresh);
}

proof fn lemma_filter_map_keeps<A, B>(a: Seq<A>, f: spec_fn(A) -> Option<B>, t: int, c: B)
    requires
        0 <= t < a.len(),
        f(a[t]) == Some(c),
    ensures
        a.filter_map(f).contains(c),
    decreases a.len(),
{
    let rest = a.drop_last();
    if t == a.len() - 1 {
        assert(a.filter_map(f) == rest.filter_map(f) + seq![c]);
        assert((rest.filter_map(f) + seq![c])[rest.filter_map(f).len() as int] == c);
    } else {
        assert(rest[t] == a[t]);
        lemma_filter_map_keeps(rest, f, t, c);
        let k = choose|k: int| 0 <= k < rest.filter_map(f).len() && rest.filter_map(f)[k] == c;
        match f(a.last()) {
            Some(x) => {
                assert(a.filter_map(f) == rest.filter_map(f) + seq![x]);
                assert((rest.filter_map(f) + seq![x])[k] == c);
            },
            None => {},
        }
    }
}

/// A query misses no symbol: every symbol of the index whose name, qualified name or id
/// contains the query (ignoring ASCII case) is among the ranked candidates, and is
/// returned when the candidates fit in the limit.
pub proof fn law_matching_symbols_are_found(
    v: Seq<EntryView>,
    query: Seq<char>,
    limit: int,
    sorted: Seq<Candidate>,
    found: Seq<Symbol>,
    s: Symbol,
)
    requires
        sorted.to_multiset() == flatten(v).filter_map(candidate_of(query)).to_multiset(),
        found == sorted.take(result_count(limit, sorted.len() as int)).map_values(|c: Candidate| c.symbol),
        flatten(v).contains(s),
        contains(lower(s.name@), lower(query)) || contains(lower(s.qualified_name@), lower(query)) || contains(
            lower(s.id@),
            lower(query),
        ),
    ensures
        exists|k: int| 0 <= k < sorted.len() && (#[trigger] sorted[k]).symbol == s,
        sorted.len() <= limit <= 500 ==> found.contains(s),
{
    let f = candidate_of(query);
    let t = choose|t: int| 0 <= t < flatten(v).len() && flatten(v)[t] == s;
    let c = f(s).unwrap();
    assert(c.symbol == s);
    lemma_filter_map_keeps(flatten(v), f, t, c);
    vstd::seq_lib::to_multiset_contains(flatten(v).filter_map(f), c);
    vstd::seq_lib::to_multiset_contains(sorted, c);
    let k = choose|k: int| 0 <= k < sorted.len() && sorted[k] == c;
    assert(sorted[k].symbol == s);
    if sorted.len() <= limit <= 500 {
        assert(result_count(limit, sorted.len() as int) == sorted.len());
        assert(sorted.take(sorted.len() as int) =~= sorted);
        assert(found[k] == s);
    }
}

/// Every symbol a query returns matches it (its name, qualified name or id contains the
/// query, ignoring ASCII case) and is a symbol of the index, and at most 500 are returned.
pub proof fn law_found_symbols_match(v: Seq<EntryView>, query: Seq<char>, limit: int, sorted: Seq<Candidate>, found: Seq<Symbol>)
    requires
        sorted.to_multiset() == flatten(v).filter_map(candidate_of(query)).to_multiset(),
        found == sorted.take(result_count(limit, sorted.len() as int)).map_values(|c: Candidate| c.symbol),
    ensures
        found.len() <= 500,
        forall|i: int| 0 <= i < found.len() ==> symbol_matches(#[trigger] found[i], lower(query)) && flatten(v).contains(found[i]),
{
    let f = candidate_of(query);
    let src = flatten(v).filter_map(f);
    assert forall|i: int| 0 <= i < found.len() implies symbol_matches(#[trigger] found[i], lower(query)) && flatten(v).contains(found[i]) by {
        let c = sorted[i];
        assert(found[i] == c.symbol);
        assert(sorted.contains(c));
        vstd::seq_lib::to_multiset_contains(sorted, c);
        vstd::seq_lib::to_multiset_contains(src, c);
        assert(src.contains(c));
        flatten(v).lemma_filter_map_contains(f, c);
        let t = choose|t: Symbol| #[trigger] flatten(v).contains(t) && f(t) == Some(c);
        assert(t == c.symbol);
    }
}

} // verus!
