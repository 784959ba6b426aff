//! Source edits guarded by content hashes: replacing one exact block of text, or one
//! declaration's bytes.
//!
//! The edit is computed here; the caller writes the new bytes when there are any.
use crate::digest::{sha256_hex, sha256_hex_of};
use crate::language::{identify, language_of};
use crate::model::{BlockReplaceRequest, BlockReplaceResponse, EditRequest, EditResponse, SymbolRead};
use crate::syntax::{check_syntax, syntax_tree, verdict_of, SyntaxVerdict};
use crate::text::{chars_of, find_from, occurs_at, string_from_chars, utf8_text};
use crate::model::str_eq;
use vstd::prelude::*;
use vstd::utf8::{decode_utf8, encode_utf8, valid_utf8};

verus! {

/// Why an edit was refused.
#[derive(Debug, Clone, Copy, PartialEq, Eq, Structural)]
pub enum EditError {
    /// The block to search for is empty.
    EmptySearch,
    /// The file's hash is not the one the caller expected.
    FileHashChanged,
    /// The declaration's hash is not the one the caller expected.
    SymbolHashChanged,
    /// The file is not UTF-8 text.
    NotUtf8,
    /// The block does not occur in the file.
    BlockNotFound,
    /// The block occurs this many times.
    Ambiguous(usize),
    /// No declaration has the id.
    SymbolNotFound,
    /// The parser returned no tree for the edited file.
    NoSyntaxTree,
    /// The edited file has syntax errors.
    SyntaxErrors,
}

/// An edit ready to be written: the response, and the file's new bytes when it changes.
#[derive(Debug, Clone)]
pub struct BlockEdit {
    pub response: BlockReplaceResponse,
    pub updated: Option<Vec<u8>>,
}

/// A declaration edit ready to be written: the response, and the file's new bytes when it
/// changes.
#[derive(Debug, Clone)]
pub struct SymbolEdit {
    pub response: EditResponse,
    pub updated: Option<Vec<u8>>,
}

/// The number of non-overlapping occurrences of `p` in `s` found scanning from `from`
/// (`str::match_indices`).
pub open spec fn match_count(s: Seq<char>, p: Seq<char>, from: int) -> nat
    decreases s.len() - from,
{
    if p.len() == 0 || from < 0 || from + p.len() > s.len() {
        0
    } else if occurs_at(s, p, from) {
        1 + match_count(s, p, from + p.len())
    } else {
        match_count(s, p, from + 1)
    }
}

/// The first position at or after `from` where `p` occurs in `s`, or -1.
pub open spec fn first_from(s: Seq<char>, p: Seq<char>, from: int) -> int
    decreases s.len() + 1 - from,
{
    if from < 0 || from + p.len() > s.len() {
        -1
    } else if occurs_at(s, p, from) {
        from
    } else {
        first_from(s, p, from + 1)
    }
}

/// `s` with the first occurrence of `p` replaced by `r` (`str::replacen` once).
pub open spec fn replace_first(s: Seq<char>, p: Seq<char>, r: Seq<char>) -> Seq<char> {
    let i = first_from(s, p, 0);
    s.take(i) + r + s.skip(i + p.len())
}

/// The check an edited file must pass: none unless asked, or unless its path has no
/// known language; otherwise it must parse without errors.
pub open spec fn syntax_gate(validate: bool, path: Seq<char>, bytes: Seq<u8>) -> Result<(), EditError> {
    if !validate {
        Ok(())
    } else {
        match language_of(path) {
            None => Ok(()),
            Some(lang) => match verdict_of(syntax_tree(lang, bytes)) {
                SyntaxVerdict::Clean => Ok(()),
                SyntaxVerdict::Errors => Err(EditError::SyntaxErrors),
                SyntaxVerdict::NoTree => Err(EditError::NoSyntaxTree),
            },
        }
    }
}

/// What replacing a block does to a file: the refusal, or the new text (`None` when the
/// replacement equals the block).
pub open spec fn block_outcome(
    original: Seq<u8>,
    search: Seq<char>,
    replacement: Seq<char>,
    expected: Option<Seq<char>>,
) -> Result<Option<Seq<char>>, EditError> {
    if search.len() == 0 {
        Err(EditError::EmptySearch)
    } else if expected is Some && expected.unwrap() != sha256_hex_of(original) {
        Err(EditError::FileHashChanged)
    } else if !valid_utf8(original) {
        Err(EditError::NotUtf8)
    } else if match_count(decode_utf8(original), search, 0) == 0 {
        Err(EditError::BlockNotFound)
    } else if match_count(decode_utf8(original), search, 0) > 1 {
        Err(EditError::Ambiguous(match_count(decode_utf8(original), search, 0) as usize))
    } else if search == replacement {
        Ok(None)
    } else {
        Ok(Some(replace_first(decode_utf8(original), search, replacement)))
    }
}

proof fn lemma_count_skip(s: Seq<char>, p: Seq<char>, from: int, i: int)
    requires
        p.len() > 0,
        0 <= from <= i,
        forall|j: int| from <= j < i ==> !occurs_at(s, p, j),
    ensures
        match_count(s, p, from) == match_count(s, p, i),
        first_from(s, p, from) == first_from(s, p, i),
    decreases i - from,
{
    if from < i {
        lemma_count_skip(s, p, from + 1, i);
    }
}

proof fn lemma_count_none(s: Seq<char>, p: Seq<char>, from: int)
    requires
        p.len() > 0,
        0 <= from,
        forall|j: int| from <= j ==> !occurs_at(s, p, j),
    ensures
        match_count(s, p, from) == 0,
        first_from(s, p, from) == -1,
    decreases s.len() - from,
{
    if from + p.len() <= s.len() {
        lemma_count_none(s, p, from + 1);
    }
}

/// The number of non-overlapping occurrences of `p` in `s`, and where the first is.
fn count_matches(s: &[char], p: &[char]) -> (r: (usize, usize))
    requires
        p@.len() > 0,
    ensures
        r.0 == match_count(s@, p@, 0),
        r.0 > 0 ==> r.1 == first_from(s@, p@, 0) && occurs_at(s@, p@, r.1 as int),
{
    let mut count: usize = 0;
    let mut from: usize = 0;
    let mut first: usize = 0;
    let n = s.len();
    let mut next = find_from(s, p, 0);
    while next.is_some()
        invariant
            n == s@.len(),
            p@.len() > 0,
            from <= s@.len(),
            count <= from,
            count + match_count(s@, p@, from as int) == match_count(s@, p@, 0),
            count > 0 ==> first == first_from(s@, p@, 0) && occurs_at(s@, p@, first as int),
            count == 0 ==> first_from(s@, p@, 0) == first_from(s@, p@, from as int),
            match next {
                Some(i) => from <= i && occurs_at(s@, p@, i as int) && forall|j: int|
                    from <= j < i ==> !occurs_at(s@, p@, j),
                None => forall|j: int| from <= j ==> !occurs_at(s@, p@, j),
            },
        decreases s@.len() - from + if next is Some {
            1int
        } else {
            0int
        },
    {
        let i = next.unwrap();
        assert(occurs_at(s@, p@, i as int));
        proof {
            lemma_count_skip(s@, p@, from as int, i as int);
        }
        if count == 0 {
            first = i;
        }
        count = count + 1;
        from = i + p.len();
        next = find_from(s, p, from);
    }
    proof {
        lemma_count_none(s@, p@, from as int);
    }
    (count, first)
}

/// Refuses a block replacement whose search block is empty; this is decided before the
/// file is looked at.
pub fn check_block_request(request: &BlockReplaceRequest) -> (r: Result<(), EditError>)
    ensures
        r is Err <==> request.search@.len() == 0,
        r is Err ==> r == Err::<(), EditError>(EditError::EmptySearch),
{
    if request.search.as_str().is_empty() {
        Err(EditError::EmptySearch)
    } else {
        Ok(())
    }
}

/// The syntax check of an edited file.
fn gate_syntax(validate: bool, path: &str, bytes: &[u8]) -> (r: Result<(), EditError>)
    ensures
        r == syntax_gate(validate, path@, bytes@),
{
    if !validate {
        return Ok(());
    }
    match identify(path) {
        None => Ok(()),
        Some(lang) => match check_syntax(lang, bytes) {
            SyntaxVerdict::Clean => Ok(()),
            SyntaxVerdict::Errors => Err(EditError::SyntaxErrors),
            SyntaxVerdict::NoTree => Err(EditError::NoSyntaxTree),
        },
    }
}

/// What a block replacement returns: the refusal, or the edit with the hashes of the
/// file before and after and, when the file changes, its new bytes.
pub open spec fn block_edit_holds(
    request: BlockReplaceRequest,
    display: Seq<char>,
    original: Seq<u8>,
    r: Result<BlockEdit, EditError>,
) -> bool {
    let outcome = block_outcome(
        original,
        request.search@,
        request.replacement@,
        match request.expected_file_hash {
            Some(e) => Some(e@),
            None => None,
        },
    );
    match outcome {
        Err(e) => r == Err::<BlockEdit, EditError>(e),
        Ok(None) => r matches Ok(edit) && edit.updated is None && edit.response.path@
            == display && edit.response.old_file_hash@ == sha256_hex_of(original)
            && edit.response.new_file_hash@ == sha256_hex_of(original)
            && edit.response.replacements == 0 && !edit.response.changed,
        Ok(Some(text)) => match syntax_gate(
            request.validate_syntax,
            display,
            encode_utf8(text),
        ) {
            Err(e) => r == Err::<BlockEdit, EditError>(e),
            Ok(_) => r matches Ok(edit) && edit.updated matches Some(u) && u@ == encode_utf8(text)
                && edit.response.path@ == display && edit.response.old_file_hash@
                == sha256_hex_of(original) && edit.response.new_file_hash@
                == sha256_hex_of(encode_utf8(text)) && edit.response.replacements == 1
                && edit.response.changed,
        },
    }
}

/// Replaces the one occurrence of `request.search` in a file's bytes (`original`, read
/// by the caller from the file shown as `display`).
pub fn plan_block_replace(request: &BlockReplaceRequest, display: String, original: &[u8]) -> (r:
    Result<BlockEdit, EditError>)
    ensures
        block_edit_holds(*request, display@, original@, r),

{
    check_block_request(request)?;
    let old_file_hash = sha256_hex(original);
    match &request.expected_file_hash {
        Some(e) => {
            if !str_eq(e.as_str(), old_file_hash.as_str()) {
                return Err(EditError::FileHashChanged);
            }
        },
        None => {},
    }
    let text = match utf8_text(original) {
        Some(t) => t,
        None => {
            return Err(EditError::NotUtf8);
        },
    };
    let chars = chars_of(text.as_str());
    let search = chars_of(request.search.as_str());
    let (count, at) = count_matches(&chars, &search);
    if count == 0 {
        return Err(EditError::BlockNotFound);
    }
    if count > 1 {
        return Err(EditError::Ambiguous(count));
    }
    if str_eq(request.search.as_str(), request.replacement.as_str()) {
        return Ok(
            BlockEdit {
                response: BlockReplaceResponse {
                    path: display,
                    old_file_hash: old_file_hash.clone(),
                    new_file_hash: old_file_hash,
                    replacements: 0,
                    changed: false,
                },
                updated: None,
            },
        );
    }
    let replacement = chars_of(request.replacement.as_str());
    let mut out: Vec<char> = Vec::new();
    let mut i: usize = 0;
    while i < at
        invariant
            at + search@.len() <= chars@.len(),
            i <= at,
            out@ == chars@.take(i as int),
        decreases at - i,
    {
        out.push(chars[i]);
        assert(chars@.take(i + 1) =~= chars@.take(i as int).push(chars@[i as int]));
        i = i + 1;
    }
    let mut j: usize = 0;
    while j < replacement.len()
        invariant
            j <= replacement@.len(),
            out@ == chars@.take(at as int) + replacement@.take(j as int),
        decreases replacement@.len() - j,
    {
        out.push(replacement[j]);
        assert(replacement@.take(j + 1) =~= replacement@.take(j as int).push(replacement@[j as int]));
        j = j + 1;
    }
    let chars_len = chars.len();
    let mut k: usize = at + search.len();
    assert(replacement@.take(replacement@.len() as int) =~= replacement@);
    assert(chars@.skip((at + search@.len()) as int).take(0) =~= Seq::<char>::empty());
    while k < chars.len()
        invariant
            at + search@.len() <= k <= chars@.len(),
            out@ == chars@.take(at as int) + replacement@ + chars@.subrange(
                (at + search@.len()) as int,
                k as int,
            ),
        decreases chars@.len() - k,
    {
        out.push(chars[k]);
        assert(chars@.subrange((at + search@.len()) as int, k + 1) =~= chars@.subrange(
            (at + search@.len()) as int,
            k as int,
        ).push(chars@[k as int]));
        k = k + 1;
    }
    assert(out@ =~= replace_first(chars@, search@, replacement@));
    let updated_text = string_from_chars(&out);
    let updated = vstd::slice::slice_to_vec(updated_text.as_str().as_bytes());
    gate_syntax(request.validate_syntax, display.as_str(), updated.as_slice())?;
    let new_file_hash = sha256_hex(updated.as_slice());
    Ok(
        BlockEdit {
            response: BlockReplaceResponse {
                path: display,
                old_file_hash,
                new_file_hash,
                replacements: 1,
                changed: true,
            },
            updated: Some(updated),
        },
    )
}

/// `bytes` with `bytes[start..end]` replaced by `insert` (`Vec::splice`).
pub open spec fn spliced(bytes: Seq<u8>, start: int, end: int, insert: Seq<u8>) -> Seq<u8> {
    bytes.take(start) + insert + bytes.skip(end)
}

/// `bytes` with `bytes[start..end]` replaced by `insert`.
fn splice_bytes(bytes: &[u8], start: usize, end: usize, insert: &[u8]) -> (r: Vec<u8>)
    requires
        start <= end <= bytes@.len(),
    ensures
        r@ == spliced(bytes@, start as int, end as int, insert@),
{
    let n = bytes.len();
    let mut out: Vec<u8> = Vec::new();
    let mut i: usize = 0;
    while i < start
        invariant
            start <= end <= n,
            n == bytes@.len(),
            i <= start,
            out@ == bytes@.take(i as int),
        decreases start - i,
    {
        out.push(bytes[i]);
        assert(bytes@.take(i + 1) =~= bytes@.take(i as int).push(bytes@[i as int]));
        i = i + 1;
    }
    let mut j: usize = 0;
    while j < insert.len()
        invariant
            j <= insert@.len(),
            out@ == bytes@.take(start as int) + insert@.take(j as int),
        decreases insert@.len() - j,
    {
        out.push(insert[j]);
        assert(insert@.take(j + 1) =~= insert@.take(j as int).push(insert@[j as int]));
        j = j + 1;
    }
    assert(insert@.take(insert@.len() as int) =~= insert@);
    let mut k: usize = end;
    while k < n
        invariant
            end <= k <= n,
            n == bytes@.len(),
            out@ == bytes@.take(start as int) + insert@ + bytes@.subrange(end as int, k as int),
        decreases n - k,
    {
        out.push(bytes[k]);
        assert(bytes@.subrange(end as int, k + 1) =~= bytes@.subrange(end as int, k as int).push(
            bytes@[k as int],
        ));
        k = k + 1;
    }
    assert(out@ =~= spliced(bytes@, start as int, end as int, insert@));
    out
}

/// What a declaration edit returns: the refusal, or the edit with the declaration's hash
/// before and the replacement's after and, when the file changes, its new bytes.
pub open spec fn symbol_edit_holds(
    request: EditRequest,
    current: Option<SymbolRead>,
    bytes: Seq<u8>,
    r: Result<SymbolEdit, EditError>,
) -> bool {
    &&& (current is None ==> r == Err::<SymbolEdit, EditError>(EditError::SymbolNotFound))
    &&& (current matches Some(c) ==> {
            let sym = c.symbol;
            if request.expected_hash matches Some(e) && e@ != sym.source_hash@ {
                r == Err::<SymbolEdit, EditError>(EditError::SymbolHashChanged)
            } else if c.source@ == request.replacement@ {
                r matches Ok(edit) && edit.updated is None && edit.response.path@ == sym.path@
                    && edit.response.old_hash@ == sym.source_hash@ && edit.response.new_hash@
                    == sym.source_hash@ && !edit.response.changed
            } else {
                let nb = spliced(
                    bytes,
                    sym.start_byte as int,
                    sym.end_byte as int,
                    encode_utf8(request.replacement@),
                );
                match syntax_gate(request.validate_syntax, sym.path@, nb) {
                    Err(e) => r == Err::<SymbolEdit, EditError>(e),
                    Ok(_) => r matches Ok(edit) && edit.updated matches Some(u) && u@ == nb
                        && edit.response.path@ == sym.path@ && edit.response.old_hash@
                        == sym.source_hash@ && edit.response.new_hash@ == sha256_hex_of(
                        encode_utf8(request.replacement@),
                    ) && edit.response.changed,
                }
            }
        })
}

/// Replaces a declaration's bytes in its file. `current` is the declaration as read from
/// `bytes`, the file's bytes (read by the caller); `None` when no declaration has the id.
pub fn plan_symbol_replace(request: &EditRequest, current: Option<SymbolRead>, bytes: &[u8]) -> (r:
    Result<SymbolEdit, EditError>)
    requires
        current matches Some(c) ==> c.symbol.start_byte <= c.symbol.end_byte <= bytes@.len(),
    ensures
        symbol_edit_holds(*request, current, bytes@, r),

{
    let current = match current {
        None => {
            return Err(EditError::SymbolNotFound);
        },
        Some(c) => c,
    };
    match &request.expected_hash {
        Some(e) => {
            if !str_eq(e.as_str(), current.symbol.source_hash.as_str()) {
                return Err(EditError::SymbolHashChanged);
            }
        },
        None => {},
    }
    let old_hash = current.symbol.source_hash.clone();
    if str_eq(current.source.as_str(), request.replacement.as_str()) {
        return Ok(
            SymbolEdit {
                response: EditResponse {
                    path: current.symbol.path,
                    old_hash: old_hash.clone(),
                    new_hash: old_hash,
                    changed: false,
                },
                updated: None,
            },
        );
    }
    let insert = request.replacement.as_str().as_bytes();
    let updated = splice_bytes(bytes, current.symbol.start_byte, current.symbol.end_byte, insert);
    gate_syntax(request.validate_syntax, current.symbol.path.as_str(), updated.as_slice())?;
    let new_hash = sha256_hex(insert);
    Ok(
        SymbolEdit {
            response: EditResponse { path: current.symbol.path, old_hash, new_hash, changed: true },
            updated: Some(updated),
        },
    )
}

proof fn lemma_count_finds(s: Seq<char>, p: Seq<char>, from: int)
    requires
        p.len() > 0,
        from >= 0,
        match_count(s, p, from) > 0,
    ensures
        first_from(s, p, from) >= from,
        occurs_at(s, p, first_from(s, p, from)),
        match_count(s, p, from) == 1 + match_count(s, p, first_from(s, p, from) + p.len()),
    decreases s.len() - from,
{
    if !occurs_at(s, p, from) {
        lemma_count_finds(s, p, from + 1);
    }
}

/// A block replacement changes exactly the one occurrence of the block: the file's text
/// is the text before it, the block and the text after it, and the result puts the
/// replacement between the same two pieces.
pub proof fn law_block_replace_splices(
    original: Seq<u8>,
    search: Seq<char>,
    replacement: Seq<char>,
    expected: Option<Seq<char>>,
)
    ensures
        block_outcome(original, search, replacement, expected) matches Ok(Some(t)) ==> {
            let text = decode_utf8(original);
            let i = first_from(text, search, 0);
            &&& 0 <= i && i + search.len() <= text.len()
            &&& match_count(text, search, 0) == 1
            &&& text == text.take(i) + search + text.skip(i + search.len())
            &&& t == text.take(i) + replacement + text.skip(i + search.len())
        },
{
    if let Ok(Some(t)) = block_outcome(original, search, replacement, expected) {
        let text = decode_utf8(original);
        lemma_count_finds(text, search, 0);
        let i = first_from(text, search, 0);
        assert(text =~= text.take(i) + search + text.skip(i + search.len()));
    }
}

/// A replacement equal to its block never writes: the file is either refused or left
/// as it is.
pub proof fn law_same_block_writes_nothing(original: Seq<u8>, search: Seq<char>, expected: Option<Seq<char>>)
    ensures
        !(block_outcome(original, search, search, expected) matches Ok(Some(_))),
{
}

/// An edit of a non-empty block that expects a hash other than the file's is refused as
/// a conflict, whatever the file holds.
pub proof fn law_stale_file_hash_refused(
    original: Seq<u8>,
    search: Seq<char>,
    replacement: Seq<char>,
    expected: Seq<char>,
)
    requires
        search.len() > 0,
        expected != sha256_hex_of(original),
    ensures
        block_outcome(original, search, replacement, Some(expected)) == Err::<Option<Seq<char>>, EditError>(
            EditError::FileHashChanged,
        ),
{
}

/// The file's bytes once an accepted block edit is written (unchanged when it writes
/// nothing).
pub open spec fn bytes_after(original: Seq<u8>, edit: BlockEdit) -> Seq<u8> {
    match edit.updated {
        Some(u) => u@,
        None => original,
    }
}

/// The new hash an accepted block edit reports is the hash of the file as it stands
/// afterwards, so a next edit that expects it passes the conflict check.
pub proof fn law_new_hash_names_the_file(
    request: BlockReplaceRequest,
    display: Seq<char>,
    original: Seq<u8>,
    r: Result<BlockEdit, EditError>,
    search: Seq<char>,
    replacement: Seq<char>,
)
    requires
        block_edit_holds(request, display, original, r),
        r is Ok,
    ensures
        r.unwrap().response.new_file_hash@ == sha256_hex_of(bytes_after(original, r.unwrap())),
        block_outcome(bytes_after(original, r.unwrap()), search, replacement, Some(r.unwrap().response.new_file_hash@))
            != Err::<Option<Seq<char>>, EditError>(EditError::FileHashChanged),
{
}

/// A declaration edit keeps every byte outside the declaration.
pub proof fn law_splice_keeps_the_rest(bytes: Seq<u8>, start: int, end: int, insert: Seq<u8>)
    requires
        0 <= start <= end <= bytes.len(),
    ensures
        spliced(bytes, start, end, insert).take(start) == bytes.take(start),
        spliced(bytes, start, end, insert).subrange(start, start + insert.len()) == insert,
        spliced(bytes, start, end, insert).skip(start + insert.len()) == bytes.skip(end),
        spliced(bytes, start, end, insert).len() == bytes.len() - (end - start) + insert.len(),
{
    let r = spliced(bytes, start, end, insert);
    assert(r.take(start) =~= bytes.take(start));
    assert(r.subrange(start, start + insert.len()) =~= insert);
    assert(r.skip(start + insert.len()) =~= bytes.skip(end));
}

} // verus!
