use vstd::prelude::*;

verus! {

/// Options of a repository text search.
#[derive(Debug, Clone, Default)]
pub struct SearchOptions {
    /// The query is a regular expression rather than literal text.
    pub regex: bool,
    pub case_sensitive: bool,
    /// At most this many hits (0: 50; at most 500).
    pub max_results: usize,
    /// At most this many hits per file (0: 8; at most 100).
    pub max_per_file: usize,
    /// Lines of context before and after each hit (at most 12).
    pub context_lines: usize,
    /// Estimated-token budget of all hits (0: 1200; at most 32000).
    pub token_budget: usize,
    /// Search hidden files too.
    pub include_hidden: bool,
}

/// `v` with 0 read as `default` and capped at `max`.
pub open spec fn defaulted(v: usize, default: usize, max: usize) -> usize {
    let w = if v == 0 {
        default
    } else {
        v
    };
    if w < max {
        w
    } else {
        max
    }
}

impl SearchOptions {
    /// The options with defaults for zero limits, and every limit capped.
    pub fn normalized(self) -> (r: Self)
        ensures
            r.regex == self.regex,
            r.case_sensitive == self.case_sensitive,
            r.include_hidden == self.include_hidden,
            r.max_results == defaulted(self.max_results, 50, 500),
            r.max_per_file == defaulted(self.max_per_file, 8, 100),
            r.context_lines == if self.context_lines < 12 {
                self.context_lines
            } else {
                12
            },
            r.token_budget == defaulted(self.token_budget, 1200, 32000),
    {
        let mut o = self;
        if o.max_results == 0 {
            o.max_results = 50;
        }
        if o.max_per_file == 0 {
            o.max_per_file = 8;
        }
        if o.token_budget == 0 {
            o.token_budget = 1200;
        }
        if o.max_results > 500 {
            o.max_results = 500;
        }
        if o.max_per_file > 100 {
            o.max_per_file = 100;
        }
        if o.context_lines > 12 {
            o.context_lines = 12;
        }
        if o.token_budget > 32000 {
            o.token_budget = 32000;
        }
        o
    }
}

/// The compressed form of a process's output.
#[derive(Debug, Clone)]
pub struct CompressionResponse {
    /// The text returned in place of the raw output.
    pub output: String,
    /// The command family that chose the summary.
    pub family: String,
    /// Whether `output` differs from the raw output.
    pub changed: bool,
    /// UTF-8 length of the raw output.
    pub raw_bytes: usize,
    /// UTF-8 length of `output`.
    pub output_bytes: usize,
    /// How many lines the summary left out.
    pub omitted_lines: usize,
    /// Hexadecimal SHA-256 of the raw output.
    pub raw_sha256: String,
}

/// A declaration found in a source file.
#[derive(Debug, Clone, PartialEq, Eq)]
pub struct Symbol {
    /// `path::qualified_name`.
    pub id: String,
    /// The file, relative to the repository root, with `/` separators.
    pub path: String,
    pub name: String,
    /// The names of the enclosing declarations and this one, joined by `::`.
    pub qualified_name: String,
    /// The declaration's node kind without its `_declaration`, `_definition` or `_item`
    /// ending, underscores read as spaces.
    pub kind: String,
    /// 1-based first and last lines.
    pub start_line: usize,
    pub end_line: usize,
    /// Byte range of the declaration in its file.
    pub start_byte: usize,
    pub end_byte: usize,
    /// Hexadecimal SHA-256 of the declaration's bytes.
    pub source_hash: String,
}

/// The mathematical view of a symbol.
pub struct SymbolView {
    pub id: Seq<char>,
    pub path: Seq<char>,
    pub name: Seq<char>,
    pub qualified_name: Seq<char>,
    pub kind: Seq<char>,
    pub start_line: nat,
    pub end_line: nat,
    pub start_byte: nat,
    pub end_byte: nat,
    pub source_hash: Seq<char>,
}

impl View for Symbol {
    type V = SymbolView;

    open spec fn view(&self) -> SymbolView {
        SymbolView {
            id: self.id@,
            path: self.path@,
            name: self.name@,
            qualified_name: self.qualified_name@,
            kind: self.kind@,
            start_line: self.start_line as nat,
            end_line: self.end_line as nat,
            start_byte: self.start_byte as nat,
            end_byte: self.end_byte as nat,
            source_hash: self.source_hash@,
        }
    }
}

impl Symbol {
    /// A copy of this symbol, equal to it.
    pub fn copy(&self) -> (r: Symbol)
        ensures
            r == *self,
    {
        Symbol {
            id: self.id.clone(),
            path: self.path.clone(),
            name: self.name.clone(),
            qualified_name: self.qualified_name.clone(),
            kind: self.kind.clone(),
            start_line: self.start_line,
            end_line: self.end_line,
            start_byte: self.start_byte,
            end_byte: self.end_byte,
            source_hash: self.source_hash.clone(),
        }
    }
}

/// A copy of a list of symbols, equal to it.
pub fn copy_symbols(v: &Vec<Symbol>) -> (r: Vec<Symbol>)
    ensures
        r@ == v@,
{
    let mut out: Vec<Symbol> = Vec::new();
    let mut i: usize = 0;
    while i < v.len()
        invariant
            i <= v@.len(),
            out@ == v@.take(i as int),
        decreases v@.len() - i,
    {
        out.push(v[i].copy());
        assert(out@ =~= v@.take(i + 1));
        i = i + 1;
    }
    assert(v@.take(v@.len() as int) =~= v@);
    out
}

/// The views of a list of symbols.
pub open spec fn symbol_views(v: Seq<Symbol>) -> Seq<SymbolView> {
    v.map_values(|s: Symbol| s@)
}

/// A line that mentions a symbol's name.
#[derive(Debug, Clone)]
pub struct SymbolReference {
    pub path: String,
    /// 1-based line number.
    pub line: usize,
    /// The id of the innermost declaration around the line.
    pub containing_symbol: Option<String>,
    pub target_name: String,
    pub kind: String,
}

/// The mathematical view of a reference.
pub struct ReferenceView {
    pub path: Seq<char>,
    pub line: nat,
    pub containing_symbol: Option<Seq<char>>,
    pub target_name: Seq<char>,
    pub kind: Seq<char>,
}

impl View for SymbolReference {
    type V = ReferenceView;

    open spec fn view(&self) -> ReferenceView {
        ReferenceView {
            path: self.path@,
            line: self.line as nat,
            containing_symbol: match self.containing_symbol {
                Some(c) => Some(c@),
                None => None,
            },
            target_name: self.target_name@,
            kind: self.kind@,
        }
    }
}

/// The views of a list of references.
pub open spec fn reference_views(v: Seq<SymbolReference>) -> Seq<ReferenceView> {
    v.map_values(|r: SymbolReference| r@)
}

/// A symbol with its source text.
#[derive(Debug, Clone)]
pub struct SymbolRead {
    pub symbol: Symbol,
    pub source: String,
}

/// A request to replace a declaration's source.
#[derive(Debug, Clone)]
pub struct EditRequest {
    pub symbol_id: String,
    pub replacement: String,
    /// The declaration's hash the caller last saw; the edit is refused if it changed.
    pub expected_hash: Option<String>,
    /// Refuse a result that does not parse cleanly.
    pub validate_syntax: bool,
}

/// The outcome of a declaration edit.
#[derive(Debug, Clone)]
pub struct EditResponse {
    pub path: String,
    pub old_hash: String,
    pub new_hash: String,
    pub changed: bool,
}

/// A request to replace one exact block of a file's text.
#[derive(Debug, Clone)]
pub struct BlockReplaceRequest {
    pub path: String,
    /// The text to find; it must occur exactly once.
    pub search: String,
    pub replacement: String,
    /// The file's hash the caller last saw; the edit is refused if it changed.
    pub expected_file_hash: Option<String>,
    /// Refuse a result that does not parse cleanly.
    pub validate_syntax: bool,
}

/// The outcome of a block replacement.
#[derive(Debug, Clone)]
pub struct BlockReplaceResponse {
    pub path: String,
    pub old_file_hash: String,
    pub new_file_hash: String,
    /// Blocks replaced: 1, or 0 when the replacement equals the block.
    pub replacements: usize,
    pub changed: bool,
}

/// A window of a text file, with the hashes that guard later edits.
#[derive(Debug, Clone)]
pub struct FileReadResponse {
    /// The path relative to the repository root.
    pub path: String,
    /// The selected lines, joined by line feeds.
    pub content: String,
    /// Hexadecimal SHA-256 of `content`.
    pub content_hash: String,
    /// Hexadecimal SHA-256 of the whole file.
    pub full_file_hash: String,
    /// 1-based number of the first line of the window.
    pub start_line: usize,
    /// 1-based number of the last line of the window (or one before the first when empty).
    pub end_line: usize,
    pub total_lines: usize,
    /// Lines after the window.
    pub omitted_lines: usize,
    /// Where a further read would start, when the window was cut short.
    pub next_start_line: Option<usize>,
    pub estimated_tokens: usize,
    pub file_size: u64,
    pub mtime_ns: u64,
}

/// The files of one directory, in order, cut to a budget.
#[derive(Debug, Clone)]
pub struct FileListResponse {
    pub files: Vec<String>,
    /// Files of the directory that were left out.
    pub omitted: usize,
    pub estimated_tokens: usize,
}

/// The space of one mounted disk.
#[derive(Debug, Clone)]
pub struct DiskSnapshot {
    pub mount: String,
    pub total_bytes: u64,
    pub available_bytes: u64,
}

/// Whether a lease is held for reading or for writing.
#[derive(Debug, Clone, Copy, PartialEq, Eq, Structural)]
pub enum LeaseMode {
    Read,
    Write,
}

/// A held lease on a shared resource.
#[derive(Debug, Clone)]
pub struct LeaseView {
    pub resource_id: String,
    pub owner_id: String,
    pub mode: LeaseMode,
    pub intent: String,
    pub expires_at_ms: u64,
}

/// Two leases conflict unless they share an owner or both only read.
pub open spec fn spec_lease_conflicts(existing_owner: Seq<char>, existing_mode: LeaseMode, requested_owner: Seq<char>, requested_mode: LeaseMode) -> bool {
    existing_owner != requested_owner && (existing_mode == LeaseMode::Write || requested_mode == LeaseMode::Write)
}

/// Conflict does not depend on which lease came first.
pub proof fn law_lease_conflict_symmetric(a_owner: Seq<char>, a_mode: LeaseMode, b_owner: Seq<char>, b_mode: LeaseMode)
    ensures
        spec_lease_conflicts(a_owner, a_mode, b_owner, b_mode) == spec_lease_conflicts(b_owner, b_mode, a_owner, a_mode),
        !spec_lease_conflicts(a_owner, a_mode, a_owner, b_mode),
        a_mode == LeaseMode::Read && b_mode == LeaseMode::Read ==> !spec_lease_conflicts(a_owner, a_mode, b_owner, b_mode),
{
}

/// Whether a lease requested by `requested_owner` in `requested_mode` conflicts with `existing`.
pub fn lease_conflicts(existing: &LeaseView, requested_owner: &str, requested_mode: LeaseMode) -> (r: bool)
    ensures
        r == spec_lease_conflicts(existing.owner_id@, existing.mode, requested_owner@, requested_mode),
{
    if str_eq(existing.owner_id.as_str(), requested_owner) {
        return false;
    }
    matches!(existing.mode, LeaseMode::Write) || matches!(requested_mode, LeaseMode::Write)
}

/// `str` equality (`PartialEq::eq`), which compares the characters of both strings.
#[verifier::external_body]
pub(crate) fn str_eq(a: &str, b: &str) -> (r: bool)
    ensures
        r == (a@ == b@),
{
    a == b
}

} // verus!
