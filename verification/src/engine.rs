//! The engine over one repository: its root, and the symbol index kept between queries.
//!
//! The file system is the caller's: it resolves paths under the root, walks the
//! repository, reads files and writes the bytes an edit returns. The engine decides.
use crate::edit::{block_edit_holds, bytes_after, plan_block_replace, plan_symbol_replace, symbol_edit_holds, BlockEdit, EditError, SymbolEdit};
use crate::model::{symbol_views, BlockReplaceRequest, EditRequest, FileListResponse, FileReadResponse, Symbol, SymbolRead};
use crate::symbols::{entry_symbols, file_outline, law_forgotten_path_is_parsed_again, law_store_then_read, paths_unique, stored, refresh_needed, slashes, symbol_record_ok, without_path, Candidate, DependencyPlan, EntryView, FileStamp, ReferenceScan, SymbolError, SymbolIndex};
use crate::language::language_of;
use crate::workspace::{FileStat, WorkspaceError};
use vstd::prelude::*;

verus! {

/// A repository engine: the repository's root and its symbol index.
pub struct NativeEngine {
    /// The repository's root (a canonical path).
    pub root: String,
    /// The symbols of the repository's source files, kept between queries.
    pub symbol_index: SymbolIndex,
}

impl NativeEngine {
    /// An engine for the repository at `root` (a canonical path, resolved by the caller),
    /// with an empty symbol index.
    pub fn new(root: String) -> (r: Self)
        ensures
            r.root_path() == root@,
            r.symbol_index@ == Seq::<EntryView>::empty(),
    {
        NativeEngine { root, symbol_index: SymbolIndex::new() }
    }

    /// The repository's root.
    pub open spec fn root_path(&self) -> Seq<char> {
        self.root@
    }

    /// The repository's root.
    pub fn root(&self) -> (r: &str)
        ensures
            r@ == self.root_path(),
    {
        self.root.as_str()
    }

    /// The symbols matching `query`, most relevant first (see `SymbolIndex::find_symbols`);
    /// the caller refreshes the index first.
    pub fn find_symbols(&self, query: &str, limit: usize) -> (r: Vec<Symbol>)
        ensures
            exists|sorted: Seq<Candidate>|
                {
                    &&& crate::ordering::sorted_stably(
                        sorted,
                        crate::symbols::flatten(self.symbol_index@).filter_map(crate::symbols::candidate_of(query@)),
                    )
                    &&& r@ == sorted.take(crate::symbols::result_count(limit as int, sorted.len() as int)).map_values(
                        |c: Candidate| c.symbol,
                    )
                },
            forall|k: int| 0 <= k < r@.len() ==> symbol_record_ok(#[trigger] r@[k]@),
    {
        self.symbol_index.find_symbols(query, limit)
    }

    /// Reads a symbol as kept in the index, with its text in `source`, the bytes of its
    /// file (see `SymbolIndex::read_symbol`); the caller refreshes the file first.
    pub fn read_symbol(&self, id: &str, source: &[u8]) -> (r: Option<SymbolRead>)
        ensures
            ({
                let rel = crate::symbols::id_file(id@);
                let syms = crate::symbols::entry_symbols(self.symbol_index@, rel);
                let k = crate::symbols::index_of_id(syms, id@);
                if rel.len() == 0 || k < 0 {
                    r is None
                } else {
                    r matches Some(sr) && sr.symbol == syms[k] && sr.source@
                        == crate::symbols::symbol_text(source@, syms[k])
                }
            }),
    {
        self.symbol_index.read_symbol(id, source)
    }

    /// Starts a search for the lines that mention `id_or_name` (see `ReferenceScan`); the
    /// caller refreshes the index, then hands it the indexed files in path order.
    pub fn references(&self, id_or_name: &str, limit: usize) -> (r: Result<ReferenceScan, SymbolError>)
        ensures
            crate::symbols::scan_started(id_or_name@, limit, r),
    {
        ReferenceScan::new(id_or_name, limit)
    }

    /// Plans the dependency graph of the first `max_symbols` symbols (see
    /// `DependencyPlan`); the caller reads the planned files and asks the plan for edges.
    pub fn dependency_edges(&self, max_symbols: usize) -> (r: DependencyPlan)
        ensures
            exists|sorted: Seq<Symbol>|
                crate::ordering::sorted_stably(sorted, crate::symbols::flatten(self.symbol_index@))
                    && r.symbols@ == crate::symbols::at_most(sorted, max_symbols as int),
            crate::symbols::name_sorted(r.by_name@),
            r.by_name@.to_multiset() == crate::symbols::flatten(self.symbol_index@).to_multiset(),
    {
        self.symbol_index.dependency_plan(max_symbols)
    }

    /// Replaces a declaration (see `plan_symbol_replace`); when the file changes, its
    /// symbols are forgotten, so that the next refresh parses it again whatever its stamp.
    pub fn replace_symbol(&mut self, request: &EditRequest, current: Option<SymbolRead>, bytes: &[u8]) -> (r:
        Result<SymbolEdit, EditError>)
        requires
            current matches Some(c) ==> c.symbol.start_byte <= c.symbol.end_byte <= bytes@.len(),
        ensures
            crate::edit::symbol_edit_holds(*request, current, bytes@, r),
            r matches Ok(edit) ==> final(self).symbol_index@ == if edit.response.changed {
                without_path(old(self).symbol_index@, slashes(edit.response.path@))
            } else {
                old(self).symbol_index@
            },
            r is Err ==> final(self).symbol_index@ == old(self).symbol_index@,
            r matches Ok(edit) ==> (edit.response.changed && language_of(slashes(edit.response.path@)) is Some
                ==> forall|stamp: FileStamp|
                #[trigger] refresh_needed(final(self).symbol_index@, slashes(edit.response.path@), Some(stamp))),
            final(self).root_path() == old(self).root_path(),
    {
        let r = plan_symbol_replace(request, current, bytes);
        if let Ok(edit) = &r {
            if edit.response.changed {
                self.symbol_index.invalidate(edit.response.path.as_str());
            }
        }
        r
    }

    /// Replaces a block of a file (see `plan_block_replace`); when the file changes, its
    /// symbols are forgotten, so that the next refresh parses it again whatever its stamp.
    pub fn replace_block(&mut self, request: &BlockReplaceRequest, display: String, original: &[u8]) -> (r:
        Result<BlockEdit, EditError>)
        ensures
            crate::edit::block_edit_holds(*request, display@, original@, r),
            r matches Ok(edit) ==> final(self).symbol_index@ == if edit.response.changed {
                without_path(old(self).symbol_index@, slashes(edit.response.path@))
            } else {
                old(self).symbol_index@
            },
            r is Err ==> final(self).symbol_index@ == old(self).symbol_index@,
            r matches Ok(edit) ==> (edit.response.changed && language_of(slashes(edit.response.path@)) is Some
                ==> forall|stamp: FileStamp|
                #[trigger] refresh_needed(final(self).symbol_index@, slashes(edit.response.path@), Some(stamp))),
            final(self).root_path() == old(self).root_path(),
    {
        let r = plan_block_replace(request, display, original);
        if let Ok(edit) = &r {
            if edit.response.changed {
                self.symbol_index.invalidate(edit.response.path.as_str());
            }
        }
        r
    }

    /// Reads a window of a file (see `workspace::read_file`).
    pub fn read_file(
        &self,
        display: String,
        bytes: &[u8],
        stat: &FileStat,
        start_line: usize,
        end_line: Option<usize>,
        max_bytes: usize,
        token_budget: usize,
    ) -> (r: Result<FileReadResponse, WorkspaceError>)
        ensures
            crate::workspace::read_file_holds(display@, bytes@, *stat, start_line, end_line, max_bytes, token_budget, r),
            r is Ok ==> (vstd::utf8::valid_utf8(bytes@) ==> crate::text::utf8_lossy(bytes@) == vstd::utf8::decode_utf8(
                bytes@,
            )) && crate::text::utf8_lossy(bytes@).len() <= bytes@.len(),
    {
        crate::workspace::read_file(display, bytes, stat, start_line, end_line, max_bytes, token_budget)
    }

    /// Lists a directory whose file paths the caller gathered (see
    /// `workspace::list_files`).
    pub fn list_files(&self, candidates: Vec<String>, limit: usize, token_budget: usize) -> (r: FileListResponse)
        ensures
            exists|sorted: Seq<String>|
                {
                    &&& crate::ordering::in_order(sorted)
                    &&& sorted.to_multiset() == candidates@.to_multiset()
                    &&& r.files@ == sorted.take(
                        crate::workspace::listed_count(
                            crate::search::strs(sorted),
                            limit as int,
                            crate::workspace::list_char_budget(token_budget as int),
                        ),
                    )
                },
            r.omitted == candidates@.len() - r.files@.len(),
            r.estimated_tokens == crate::workspace::token_estimate(
                crate::text::join(crate::search::strs(r.files@), "\n"@).len(),
            ),
    {
        crate::workspace::list_files(candidates, limit, token_budget)
    }
}

/// After the engine's block edit changes a file, the next refresh parses the file again
/// whatever its stamp, and once the parse of the written bytes is stored, reads of the
/// file see the new content.
pub proof fn law_block_edit_then_refresh(
    request: BlockReplaceRequest,
    display: Seq<char>,
    original: Seq<u8>,
    r: Result<BlockEdit, EditError>,
    before: Seq<EntryView>,
    e: EntryView,
    stamp: FileStamp,
)
    requires
        paths_unique(before),
        block_edit_holds(request, display, original, r),
        r is Ok && r.unwrap().response.changed,
        language_of(slashes(display)) is Some,
        e.path == slashes(display),
        file_outline(display, bytes_after(original, r.unwrap())) == Some(symbol_views(e.symbols)),
    ensures
        r.unwrap().response.path@ == display,
        refresh_needed(without_path(before, slashes(r.unwrap().response.path@)), e.path, Some(stamp)),
        symbol_views(entry_symbols(stored(without_path(before, slashes(r.unwrap().response.path@)), e), e.path))
            == file_outline(display, bytes_after(original, r.unwrap())).unwrap(),
{
    law_forgotten_path_is_parsed_again(before, e.path, stamp);
    law_store_then_read(without_path(before, e.path), e, e.path);
}

/// After the engine's declaration edit changes a file, the next refresh parses the file
/// again whatever its stamp, and once the parse of the written bytes is stored, reads of
/// the file see the new content.
pub proof fn law_symbol_edit_then_refresh(
    request: EditRequest,
    current: Option<SymbolRead>,
    bytes: Seq<u8>,
    r: Result<SymbolEdit, EditError>,
    before: Seq<EntryView>,
    e: EntryView,
    stamp: FileStamp,
)
    requires
        paths_unique(before),
        symbol_edit_holds(request, current, bytes, r),
        r is Ok && r.unwrap().response.changed,
        language_of(slashes(r.unwrap().response.path@)) is Some,
        e.path == slashes(r.unwrap().response.path@),
        file_outline(r.unwrap().response.path@, r.unwrap().updated.unwrap()@) == Some(symbol_views(e.symbols)),
    ensures
        r.unwrap().updated is Some,
        refresh_needed(without_path(before, e.path), e.path, Some(stamp)),
        symbol_views(entry_symbols(stored(without_path(before, e.path), e), e.path))
            == file_outline(r.unwrap().response.path@, r.unwrap().updated.unwrap()@).unwrap(),
{
    law_forgotten_path_is_parsed_again(before, e.path, stamp);
    law_store_then_read(without_path(before, e.path), e, e.path);
}

} // verus!
