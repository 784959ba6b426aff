//! Reading and listing the files of a repository within token budgets.
//!
//! Paths are checked here before anything touches the disk; the caller then
//! resolves them, reads what was asked for and hands the bytes back.
use crate::digest::{sha256_hex, sha256_hex_of, sha256_hex_str};
use crate::language::{named_component, path_components, split_on_char};
use crate::model::{FileListResponse, FileReadResponse};
use crate::ordering::{in_order, sort_ranked};
use crate::output::{fit_prefix, fits_bytes};
use crate::search::strs;
use crate::text::{
    blen, chars_eq_str, chars_of, decode_lossy, fit_len, join, join_chars, lemma_join_push, lines,
    split_lines, string_from_chars, utf8_lossy, views,
};
use vstd::prelude::*;

verus! {

broadcast use vstd::seq_lib::group_seq_properties;

/// Files larger than this are not read.
pub const DEFAULT_MAX_FILE_BYTES: u64 = 4194304;

/// Why a path or a file cannot be served.
#[derive(Debug, Clone, Copy, PartialEq, Eq, Structural)]
pub enum WorkspaceError {
    /// The path starts at the file-system root.
    AbsolutePath,
    /// The path has a `..` component.
    PathTraversal,
    /// The path names something other than a regular file.
    NotAFile,
    /// The path names something other than a directory.
    NotADirectory,
    /// The file has more bytes than a read may return; the size is given.
    TooLarge(u64),
}

/// What the file system reports of a path.
#[derive(Debug, Clone, Copy)]
pub struct FileStat {
    pub is_file: bool,
    pub is_dir: bool,
    pub size: u64,
    /// Modification time in nanoseconds since the Unix epoch (0 when unknown).
    pub mtime_ns: u64,
}

/// The components of a relative `/`-separated path, or why it is refused: it may not be
/// absolute and may not climb out through `..`. Empty and `.` components are dropped.
pub open spec fn relative_components(p: Seq<char>) -> Result<Seq<Seq<char>>, WorkspaceError> {
    if p.len() > 0 && p[0] == '/' {
        Err(WorkspaceError::AbsolutePath)
    } else if path_components(p).contains(".."@) {
        Err(WorkspaceError::PathTraversal)
    } else {
        Ok(path_components(p))
    }
}

/// Checks a path relative to the repository root and returns its components.
pub fn validate_relative(relative: &str) -> (r: Result<Vec<String>, WorkspaceError>)
    ensures
        match r {
            Ok(v) => relative_components(relative@) == Ok::<Seq<Seq<char>>, WorkspaceError>(strs(v@)),
            Err(e) => relative_components(relative@) == Err::<Seq<Seq<char>>, WorkspaceError>(e),
        },
{
    let chars = chars_of(relative);
    if chars.len() > 0 && chars[0] == '/' {
        return Err(WorkspaceError::AbsolutePath);
    }
    let pieces = split_on_char(&chars, '/');
    let ghost pv = pieces@.map_values(|l: Vec<char>| l@);
    let ghost f = named_component();
    let mut out: Vec<String> = Vec::new();
    let mut climbs = false;
    let mut i: usize = 0;
    assert(pv.take(0) =~= Seq::<Seq<char>>::empty());
    while i < pieces.len()
        invariant
            pv == pieces@.map_values(|l: Vec<char>| l@),
            f == named_component(),
            i <= pieces@.len(),
            strs(out@) == pv.take(i as int).filter_map(f),
            climbs == pv.take(i as int).filter_map(f).contains(".."@),
        decreases pieces@.len() - i,
    {
        proof {
            pv.lemma_filter_map_take_succ(f, i as int);
            assert(pv[i as int] == pieces@[i as int]@);
        }
        let piece = &pieces[i];
        if !(piece.len() == 0 || chars_eq_str(piece, ".")) {
            if chars_eq_str(piece, "..") {
                climbs = true;
            }
            let ghost before = out@;
            out.push(string_from_chars(piece));
            assert(strs(out@) =~= strs(before).push(pv[i as int]));
        }
        i = i + 1;
    }
    assert(pv.take(pieces@.len() as int) =~= pv);
    if climbs {
        Err(WorkspaceError::PathTraversal)
    } else {
        Ok(out)
    }
}

/// Whether a path may be read: it must be a regular file of at most
/// `DEFAULT_MAX_FILE_BYTES` bytes.
pub open spec fn read_target_check(stat: FileStat) -> Result<(), WorkspaceError> {
    if !stat.is_file {
        Err(WorkspaceError::NotAFile)
    } else if stat.size > DEFAULT_MAX_FILE_BYTES {
        Err(WorkspaceError::TooLarge(stat.size))
    } else {
        Ok(())
    }
}

/// Decides whether a file may be read, before its bytes are fetched.
pub fn check_read_target(stat: &FileStat) -> (r: Result<(), WorkspaceError>)
    ensures
        r == read_target_check(*stat),
{
    if !stat.is_file {
        Err(WorkspaceError::NotAFile)
    } else if stat.size > DEFAULT_MAX_FILE_BYTES {
        Err(WorkspaceError::TooLarge(stat.size))
    } else {
        Ok(())
    }
}

/// Whether a path may be listed: it must be a directory.
pub fn check_list_target(stat: &FileStat) -> (r: Result<(), WorkspaceError>)
    ensures
        r is Ok <==> stat.is_dir,
        r is Err ==> r == Err::<(), WorkspaceError>(WorkspaceError::NotADirectory),
{
    if stat.is_dir {
        Ok(())
    } else {
        Err(WorkspaceError::NotADirectory)
    }
}

/// `v` kept within `[lo, hi]`.
pub open spec fn clamp(v: int, lo: int, hi: int) -> int {
    if v < lo {
        lo
    } else if v > hi {
        hi
    } else {
        v
    }
}

/// The smaller of two integers.
pub open spec fn min(a: int, b: int) -> int {
    if a < b {
        a
    } else {
        b
    }
}

/// `a + b` saturated at `usize::MAX`.
pub open spec fn sat_add(a: int, b: int) -> int {
    min(a + b, usize::MAX as int)
}

/// The estimate of tokens in a text of `chars` characters: a quarter, rounded up.
pub open spec fn token_estimate(chars: nat) -> nat {
    ((chars + 3) / 4) as nat
}

/// The length of `lines[a..b]` joined by line feeds.
pub open spec fn joined_len(lines: Seq<Seq<char>>, a: int, b: int) -> nat {
    join(lines.subrange(a, b), "\n"@).len()
}

/// The largest `k'` in `[start, k]` such that `lines[start..k']` joined fits in `budget`
/// characters (`start` when none does).
pub open spec fn lines_fitting(lines: Seq<Seq<char>>, start: int, k: int, budget: int) -> int
    decreases k - start,
{
    if k <= start {
        start
    } else if joined_len(lines, start, k) <= budget {
        k
    } else {
        lines_fitting(lines, start, k - 1, budget)
    }
}

/// The lines a read selects from `lines[start..end]`, and where it stops: as many whole
/// lines as fit in `budget` characters together; a first line that alone is too long is
/// cut to `budget` characters.
pub open spec fn read_selection(lines: Seq<Seq<char>>, start: int, end: int, budget: int) -> (
    Seq<Seq<char>>,
    int,
) {
    let k = lines_fitting(lines, start, end, budget);
    if start < end && k == start {
        (seq![lines[start].take(budget)], start + 1)
    } else {
        (lines.subrange(start, k), k)
    }
}

/// The 0-based first line of a read: `start_line` counted from 1 (0 read as 1), at most
/// the line count.
pub open spec fn first_index(start_line: int, total: int) -> int {
    min(if start_line < 1 { 0 } else { start_line - 1 }, total)
}

/// The end of the requested range: `end_line` (or 200 lines on), never before the start,
/// at most 5000 lines on, at most the line count.
pub open spec fn window_end(start: int, end_line: Option<usize>, total: int) -> int {
    let e = match end_line {
        Some(e) => e as int,
        None => sat_add(start, 200),
    };
    min(min(if e < start { start } else { e }, sat_add(start, 5000)), total)
}

/// The characters of a read's token budget: clamped to `[64, 32000]` tokens, four
/// characters each.
pub open spec fn read_char_budget(token_budget: int) -> int {
    clamp(token_budget, 64, 32000) * 4
}

/// A window of a text, as a read returns it.
pub struct ReadWindow {
    pub content: Seq<char>,
    /// 0-based index of the first line.
    pub start: int,
    /// 0-based index one past the last line returned.
    pub end: int,
    pub total: int,
    /// The window stops before the end of the file or was cut to the byte limit.
    pub truncated: bool,
    pub tokens: nat,
}

/// The window a read returns of `text`.
pub open spec fn read_window(
    text: Seq<char>,
    start_line: int,
    end_line: Option<usize>,
    max_bytes: int,
    token_budget: int,
) -> ReadWindow {
    let ls = lines(text);
    let total = ls.len() as int;
    let start = first_index(start_line, total);
    let end = window_end(start, end_line, total);
    let sel = read_selection(ls, start, end, read_char_budget(token_budget));
    let joined = join(sel.0, "\n"@);
    let cut = max_bytes > 0 && blen(joined) > max_bytes;
    ReadWindow {
        content: if cut {
            joined.take(fit_len(joined, max_bytes) as int)
        } else {
            joined
        },
        start,
        end: sel.1,
        total,
        truncated: sel.1 < end || end < total || cut,
        tokens: token_estimate(joined.len()),
    }
}

/// Joining one more line adds its length and, after the first, one separator.
proof fn lemma_joined_len_step(lines: Seq<Seq<char>>, start: int, k: int)
    requires
        0 <= start <= k < lines.len(),
    ensures
        joined_len(lines, start, k + 1) == joined_len(lines, start, k) + lines[k].len() + if k
            == start {
            0int
        } else {
            1int
        },
{
    reveal_strlit("\n");
    assert(lines.subrange(start, k + 1) =~= lines.subrange(start, k).push(lines[k]));
    lemma_join_push(lines.subrange(start, k), "\n"@, lines[k]);
}

/// Joined lengths grow with the range.
proof fn lemma_joined_len_mono(lines: Seq<Seq<char>>, start: int, j: int, k: int)
    requires
        0 <= start <= j <= k <= lines.len(),
    ensures
        joined_len(lines, start, j) <= joined_len(lines, start, k),
    decreases k - j,
{
    if j < k {
        lemma_joined_len_step(lines, start, k - 1);
        lemma_joined_len_mono(lines, start, j, k - 1);
    }
}

/// When `lines[start..c]` fits and `lines[start..c+1]` does not (or `c` is the end), `c`
/// is the fitting count.
proof fn lemma_lines_fitting(lines: Seq<Seq<char>>, start: int, c: int, k: int, budget: int)
    requires
        0 <= start <= c <= k <= lines.len(),
        joined_len(lines, start, c) <= budget,
        c < k ==> joined_len(lines, start, c + 1) > budget,
    ensures
        lines_fitting(lines, start, k, budget) == c,
    decreases k - c,
{
    if c < k {
        lemma_joined_len_mono(lines, start, c + 1, k);
        lemma_lines_fitting(lines, start, c, k - 1, budget);
    }
}

/// `n` divided by four, rounded up.
fn quarter_up(n: usize) -> (r: usize)
    ensures
        r == token_estimate(n as nat),
{
    n / 4 + if n % 4 == 0 {
        0
    } else {
        1
    }
}

/// The lines a read selects from `ls[start..end]` within `budget` characters, and the
/// index one past the last line taken.
fn select_lines(ls: &Vec<Vec<char>>, start: usize, end: usize, budget: usize) -> (r: (
    Vec<Vec<char>>,
    usize,
))
    requires
        start <= end <= ls@.len(),
        64 * 4 <= budget <= 32000 * 4,
    ensures
        (views(r.0@), r.1 as int) == read_selection(views(ls@), start as int, end as int, budget as int),
        start <= r.1 <= end,
{
    let ghost lv = views(ls@);
    let mut selected: Vec<Vec<char>> = Vec::new();
    let mut used: usize = 0;
    let mut cursor = start;
    let mut stop = false;
    let ghost mut first_cut = false;
    assert(lv.subrange(start as int, start as int) =~= Seq::<Seq<char>>::empty());
    while cursor < end && !stop
        invariant
            lv == views(ls@),
            start <= cursor <= end <= lv.len(),
            64 * 4 <= budget <= 32000 * 4,
            first_cut ==> stop && cursor == start + 1 && views(selected@) == seq![
                lv[start as int].take(budget as int),
            ] && lv[start as int].len() > budget,
            !first_cut ==> views(selected@) == lv.subrange(start as int, cursor as int) && used
                == joined_len(lv, start as int, cursor as int) && used <= budget,
            stop && !first_cut ==> start < cursor < end && joined_len(lv, start as int, cursor + 1)
                > budget,
        decreases end - cursor + if stop {
            0int
        } else {
            1int
        },
    {
        let line = &ls[cursor];
        let n = line.len();
        assert(line@ == lv[cursor as int]);
        proof {
            lemma_joined_len_step(lv, start as int, cursor as int);
        }
        if selected.len() > 0 {
            if n >= budget || used + 1 + n > budget {
                stop = true;
            } else {
                let ghost before = selected@;
                selected.push(line.clone());
                assert(views(selected@) =~= views(before).push(lv[cursor as int]));
                assert(lv.subrange(start as int, cursor + 1) =~= lv.subrange(start as int, cursor as int).push(
                    lv[cursor as int],
                ));
                used = used + 1 + n;
                cursor = cursor + 1;
            }
        } else {
            assert(cursor == start) by {
                if cursor > start {
                    assert(lv.subrange(start as int, cursor as int).len() > 0);
                }
            }
            if n > budget {
                let mut cut: Vec<char> = Vec::new();
                let mut j: usize = 0;
                while j < budget
                    invariant
                        j <= budget < n,
                        n == line@.len(),
                        cut@ == line@.take(j as int),
                    decreases budget - j,
                {
                    cut.push(line[j]);
                    assert(line@.take(j + 1) =~= line@.take(j as int).push(line@[j as int]));
                    j = j + 1;
                }
                selected.push(cut);
                assert(views(selected@) =~= seq![lv[start as int].take(budget as int)]);
                proof {
                    first_cut = true;
                }
                cursor = cursor + 1;
                stop = true;
            } else {
                let ghost before = selected@;
                selected.push(line.clone());
                assert(views(selected@) =~= views(before).push(lv[cursor as int]));
                assert(lv.subrange(start as int, cursor + 1) =~= lv.subrange(start as int, cursor as int).push(
                    lv[cursor as int],
                ));
                used = n;
                cursor = cursor + 1;
            }
        }
    }
    proof {
        let k = lines_fitting(lv, start as int, end as int, budget as int);
        if first_cut {
            assert(lv.subrange(start as int, start as int) =~= Seq::<Seq<char>>::empty());
            lemma_joined_len_step(lv, start as int, start as int);
            lemma_lines_fitting(lv, start as int, start as int, end as int, budget as int);
        } else {
            lemma_lines_fitting(lv, start as int, cursor as int, end as int, budget as int);
            if start < end && k == start {
                lemma_joined_len_step(lv, start as int, start as int);
                assert(cursor == start);
                assert(false);
            }
        }
        assert(read_selection(lv, start as int, end as int, budget as int) == (
            views(selected@),
            cursor as int,
        ));
    }
    (selected, cursor)
}

/// The first line and the end of the requested range of a read.
fn read_bounds(start_line: usize, end_line: Option<usize>, total: usize) -> (r: (usize, usize))
    ensures
        r.0 == first_index(start_line as int, total as int),
        r.1 == window_end(r.0 as int, end_line, total as int),
        r.0 <= r.1 <= total,
{
    let first = if start_line < 1 {
        0
    } else {
        start_line - 1
    };
    let start = if first < total {
        first
    } else {
        total
    };
    let e = match end_line {
        Some(e) => e,
        None => start.saturating_add(200),
    };
    let e1 = if e < start {
        start
    } else {
        e
    };
    let cap = start.saturating_add(5000);
    let e2 = if e1 < cap {
        e1
    } else {
        cap
    };
    let end = if e2 < total {
        e2
    } else {
        total
    };
    (start, end)
}

/// The characters of a read's token budget.
fn read_budget(token_budget: usize) -> (r: usize)
    ensures
        r == read_char_budget(token_budget as int),
        64 * 4 <= r <= 32000 * 4,
{
    let tb = if token_budget < 64 {
        64
    } else if token_budget > 32000 {
        32000
    } else {
        token_budget
    };
    tb * 4
}

/// The selected lines joined by line feeds, cut to `max_bytes` bytes when that is not 0;
/// the token estimate of the uncut text; whether it was cut.
fn render_window(selected: &Vec<Vec<char>>, max_bytes: usize) -> (r: (Vec<char>, usize, bool))
    ensures
        ({
            let joined = join(views(selected@), "\n"@);
            let cut = max_bytes > 0 && blen(joined) > max_bytes;
            &&& r.0@ == if cut {
                joined.take(fit_len(joined, max_bytes as int) as int)
            } else {
                joined
            }
            &&& r.1 == token_estimate(joined.len())
            &&& r.2 == cut
        }),
{
    let sep: Vec<char> = vec!['\n'];
    assert(sep@ =~= "\n"@) by {
        reveal_strlit("\n");
    }
    let joined = join_chars(selected, &sep);
    let estimated_tokens = quarter_up(joined.len());
    if max_bytes > 0 && !fits_bytes(&joined, max_bytes) {
        (fit_prefix(&joined, max_bytes), estimated_tokens, true)
    } else {
        (joined, estimated_tokens, false)
    }
}

/// What a read returns: the refusal, or the window of the file's text with its hashes
/// and counts.
pub open spec fn read_file_holds(
    display: Seq<char>,
    bytes: Seq<u8>,
    stat: FileStat,
    start_line: usize,
    end_line: Option<usize>,
    max_bytes: usize,
    token_budget: usize,
    r: Result<FileReadResponse, WorkspaceError>,
) -> bool {
    &&& (r is Ok <==> read_target_check(stat) is Ok)
    &&& match r {
        Err(e) => read_target_check(stat) == Err::<(), WorkspaceError>(e),
        Ok(resp) => {
            let w = read_window(
                utf8_lossy(bytes),
                start_line as int,
                end_line,
                max_bytes as int,
                token_budget as int,
            );
            &&& resp.path@ == display
            &&& resp.content@ == w.content
            &&& resp.content_hash@ == sha256_hex_of(vstd::utf8::encode_utf8(w.content))
            &&& resp.full_file_hash@ == sha256_hex_of(bytes)
            &&& resp.start_line == sat_add(w.start, 1)
            &&& resp.end_line == w.end
            &&& resp.total_lines == w.total
            &&& resp.omitted_lines == w.total - w.end
            &&& resp.next_start_line == if w.truncated {
                Some(sat_add(w.end, 1) as usize)
            } else {
                None
            }
            &&& resp.estimated_tokens == w.tokens
            &&& resp.file_size == stat.size
            &&& resp.mtime_ns == stat.mtime_ns
        },
    }
}

/// Reads a window of a file whose bytes the caller fetched: the lines from `start_line`
/// (1-based) to `end_line`, as many as fit in the token budget, cut to `max_bytes`
/// bytes when that is not 0. The text is the bytes decoded with invalid sequences
/// replaced (exactly their decoding when they are UTF-8), no more characters than bytes.
pub fn read_file(
    display: String,
    bytes: &[u8],
    stat: &FileStat,
    start_line: usize,
    end_line: Option<usize>,
    max_bytes: usize,
    token_budget: usize,
) -> (r: Result<FileReadResponse, WorkspaceError>)
    ensures
        read_file_holds(display@, bytes@, *stat, start_line, end_line, max_bytes, token_budget, r),
        r matches Ok(resp) ==> resp.end_line <= resp.total_lines && (resp.end_line < resp.total_lines
            ==> resp.next_start_line == Some((resp.end_line + 1) as usize)),
        r is Ok ==> (vstd::utf8::valid_utf8(bytes@) ==> utf8_lossy(bytes@) == vstd::utf8::decode_utf8(bytes@))
            && utf8_lossy(bytes@).len() <= bytes@.len(),
{
    check_read_target(stat)?;
    let full_file_hash = sha256_hex(bytes);
    let text = decode_lossy(bytes);
    let chars = chars_of(text.as_str());
    let ls = split_lines(&chars);
    let ghost lv = views(ls@);
    assert(lv == lines(utf8_lossy(bytes@)));
    let total = ls.len();
    let (start, end) = read_bounds(start_line, end_line, total);
    let budget = read_budget(token_budget);
    let (selected, cursor) = select_lines(&ls, start, end, budget);
    let (content_chars, estimated_tokens, cut) = render_window(&selected, max_bytes);
    let truncated = cursor < end || end < total || cut;
    let content = string_from_chars(&content_chars);
    let content_hash = sha256_hex_str(content.as_str());
    proof {
        lemma_lines_fitting_bounds(lv, start as int, end as int, budget as int);
    }
    let next_start_line = if truncated {
        Some(cursor.saturating_add(1))
    } else {
        None
    };
    Ok(
        FileReadResponse {
            path: display,
            content,
            content_hash,
            full_file_hash,
            start_line: start.saturating_add(1),
            end_line: cursor,
            total_lines: total,
            omitted_lines: total - cursor,
            next_start_line,
            estimated_tokens,
            file_size: stat.size,
            mtime_ns: stat.mtime_ns,
        },
    )
}

/// The characters of a listing's token budget: clamped to `[64, 8000]` tokens, four
/// characters each.
pub open spec fn list_char_budget(token_budget: int) -> int {
    clamp(token_budget, 64, 8000) * 4
}

/// How many of the sorted names a listing returns: of the first `limit` (clamped to
/// `[1, 500]`), as many as fit in `budget` characters joined by line feeds, and always the
/// first.
pub open spec fn listed_count(sorted: Seq<Seq<char>>, limit: int, budget: int) -> int {
    let n = min(clamp(limit, 1, 500), sorted.len() as int);
    let k = lines_fitting(sorted, 0, n, budget);
    if n > 0 && k == 0 {
        1
    } else {
        k
    }
}

/// Lists a directory whose entries the caller gathered: `candidates` are the paths of its
/// regular files relative to the root. They are sorted, and the first few that fit the
/// limit and the token budget are returned.
pub fn list_files(candidates: Vec<String>, limit: usize, token_budget: usize) -> (r: FileListResponse)
    ensures
        exists|sorted: Seq<String>|
            {
                &&& in_order(sorted)
                &&& sorted.to_multiset() == candidates@.to_multiset()
                &&& r.files@ == sorted.take(
                    listed_count(strs(sorted), limit as int, list_char_budget(token_budget as int)),
                )
            },
        r.omitted == candidates@.len() - r.files@.len(),
        r.estimated_tokens == token_estimate(join(strs(r.files@), "\n"@).len()),
{
    let total = candidates.len();
    let sorted = sort_ranked(candidates);
    proof {
        vstd::seq_lib::to_multiset_len(sorted@);
        vstd::seq_lib::to_multiset_len(candidates@);
    }
    let ghost sv = strs(sorted@);
    let lim = if limit < 1 {
        1
    } else if limit > 500 {
        500
    } else {
        limit
    };
    let n = if lim < sorted.len() {
        lim
    } else {
        sorted.len()
    };
    let tb = if token_budget < 64 {
        64
    } else if token_budget > 8000 {
        8000
    } else {
        token_budget
    };
    let budget: usize = tb * 4;
    let mut files: Vec<String> = Vec::new();
    let mut parts: Vec<Vec<char>> = Vec::new();
    let mut used: usize = 0;
    let mut i: usize = 0;
    let mut stop = false;
    assert(sv.subrange(0, 0) =~= Seq::<Seq<char>>::empty());
    while i < n && !stop
        invariant
            sv == strs(sorted@),
            n <= sorted@.len(),
            n == min(clamp(limit as int, 1, 500), sorted@.len() as int),
            budget == list_char_budget(token_budget as int),
            0 <= i <= n,
            files@ == sorted@.take(i as int),
            views(parts@) == sv.take(i as int),
            used == joined_len(sv, 0, i as int),
            i > 0 && joined_len(sv, 0, 1) > budget ==> i == 1 && (stop || i == n),
            i > 0 && joined_len(sv, 0, 1) <= budget ==> used <= budget,
            stop ==> i > 0 && i < n && joined_len(sv, 0, i + 1) > budget,
        decreases n - i + if stop {
            0int
        } else {
            1int
        },
    {
        let cs = chars_of(sorted[i].as_str());
        let name_len = cs.len();
        proof {
            lemma_joined_len_step(sv, 0, i as int);
            assert(sv[i as int] == sorted@[i as int]@);
        }
        if i > 0 && (name_len >= budget || used + 1 + name_len > budget) {
            stop = true;
        } else {
            files.push(sorted[i].clone());
            parts.push(cs);
            assert(files@ =~= sorted@.take(i + 1));
            assert(views(parts@) =~= sv.take(i + 1));
            used = if i == 0 {
                name_len
            } else {
                used + 1 + name_len
            };
            i = i + 1;
            if i == 1 && used > budget && i < n {
                proof {
                    lemma_joined_len_mono(sv, 0, 1, 2);
                }
                stop = true;
            }
        }
    }
    proof {
        assert(sv.subrange(0, 0) =~= Seq::<Seq<char>>::empty());
        if n > 0 && joined_len(sv, 0, 1) > budget {
            lemma_lines_fitting(sv, 0, 0, n as int, budget as int);
        } else {
            lemma_lines_fitting(sv, 0, i as int, n as int, budget as int);
        }
        assert(sv.take(i as int) =~= strs(files@));
    }
    let sep: Vec<char> = vec!['\n'];
    assert(sep@ =~= "\n"@) by {
        reveal_strlit("\n");
    }
    let joined = join_chars(&parts, &sep);
    let count = files.len();
    FileListResponse { files, omitted: total - count, estimated_tokens: quarter_up(joined.len()) }
}

/// The fitting count lies between the start and `k`, and the lines up to it fit.
proof fn lemma_lines_fitting_bounds(lines: Seq<Seq<char>>, start: int, k: int, budget: int)
    requires
        0 <= start,
        budget >= 0,
    ensures
        start <= k ==> start <= lines_fitting(lines, start, k, budget) <= k,
        start <= k && k <= lines.len() ==> joined_len(lines, start, lines_fitting(lines, start, k, budget))
            <= budget,
    decreases k - start,
{
    if k > start && joined_len(lines, start, k) > budget {
        lemma_lines_fitting_bounds(lines, start, k - 1, budget);
    }
    if k <= start && start <= lines.len() {
        assert(lines.subrange(start, start) =~= Seq::<Seq<char>>::empty());
    }
}

/// Every fitting count up to `k` is at most the largest one.
proof fn lemma_lines_fitting_max(lines: Seq<Seq<char>>, start: int, j: int, k: int, budget: int)
    requires
        0 <= start <= j <= k,
        joined_len(lines, start, j) <= budget,
    ensures
        lines_fitting(lines, start, k, budget) >= j,
    decreases k - start,
{
    if k > start && joined_len(lines, start, k) > budget {
        if j < k {
            lemma_lines_fitting_max(lines, start, j, k - 1, budget);
        }
    }
}

/// A read stays within its budget: its token estimate is at most the clamped token
/// budget, and its content at most `max_bytes` bytes when that is not 0.
pub proof fn law_read_within_budget(
    text: Seq<char>,
    start_line: int,
    end_line: Option<usize>,
    max_bytes: int,
    token_budget: int,
)
    ensures
        read_window(text, start_line, end_line, max_bytes, token_budget).tokens <= clamp(
            token_budget,
            64,
            32000,
        ),
        max_bytes > 0 ==> blen(read_window(text, start_line, end_line, max_bytes, token_budget).content)
            <= max_bytes,
{
    let ls = lines(text);
    let total = ls.len() as int;
    let start = first_index(start_line, total);
    let end = window_end(start, end_line, total);
    let budget = read_char_budget(token_budget);
    lemma_lines_fitting_bounds(ls, start, end, budget);
    let k = lines_fitting(ls, start, end, budget);
    let sel = read_selection(ls, start, end, budget);
    let joined = join(sel.0, "\n"@);
    if start < end && k == start {
        if joined_len(ls, start, start + 1) <= budget {
            lemma_lines_fitting_max(ls, start, start + 1, end, budget);
        }
        lemma_joined_len_step(ls, start, start);
        assert(ls.subrange(start, start) =~= Seq::<Seq<char>>::empty());
        assert(sel.0 =~= seq![ls[start].take(budget)]);
        assert(joined == ls[start].take(budget));
    } else {
        assert(joined.len() == joined_len(ls, start, k));
    }
    assert(joined.len() <= budget);
    if max_bytes > 0 && blen(joined) > max_bytes {
        crate::text::lemma_fit_len(joined, max_bytes);
    }
}

/// Reading on from where a cut-short read says to continue starts right after the lines
/// it returned.
pub proof fn law_read_pages_continue(
    text: Seq<char>,
    start_line: int,
    end_line: Option<usize>,
    max_bytes: int,
    token_budget: int,
    next_end: Option<usize>,
)
    requires
        read_window(text, start_line, end_line, max_bytes, token_budget).end < usize::MAX,
    ensures
        ({
            let w = read_window(text, start_line, end_line, max_bytes, token_budget);
            read_window(text, sat_add(w.end, 1), next_end, max_bytes, token_budget).start == w.end
        }),
{
    let ls = lines(text);
    let total = ls.len() as int;
    let start = first_index(start_line, total);
    let end = window_end(start, end_line, total);
    let budget = read_char_budget(token_budget);
    lemma_lines_fitting_bounds(ls, start, end, budget);
}

/// A read never claims the file is done while lines remain: its window ends at or
/// before the last line, and when it ends before it, the read says to continue at the
/// next line; it says nothing more is left only when it reached the last line.
pub proof fn law_read_reports_what_is_left(
    display: Seq<char>,
    bytes: Seq<u8>,
    stat: FileStat,
    start_line: usize,
    end_line: Option<usize>,
    max_bytes: usize,
    token_budget: usize,
    r: Result<FileReadResponse, WorkspaceError>,
)
    requires
        read_file_holds(display, bytes, stat, start_line, end_line, max_bytes, token_budget, r),
        r is Ok,
    ensures
        r.unwrap().end_line <= r.unwrap().total_lines,
        r.unwrap().end_line < r.unwrap().total_lines ==> r.unwrap().next_start_line == Some(
            (r.unwrap().end_line + 1) as usize,
        ),
        r.unwrap().next_start_line is None ==> r.unwrap().end_line == r.unwrap().total_lines,
{
    let ls = lines(utf8_lossy(bytes));
    let total = ls.len() as int;
    let start = first_index(start_line as int, total);
    let end = window_end(start, end_line, total);
    let budget = read_char_budget(token_budget as int);
    lemma_lines_fitting_bounds(ls, start, end, budget);
}

/// A listing returns at most as many files as the clamped limit, and at least one when
/// there are any.
pub proof fn law_listing_bounded(sorted: Seq<Seq<char>>, limit: int, budget: int)
    requires
        budget >= 0,
    ensures
        listed_count(sorted, limit, budget) <= min(clamp(limit, 1, 500), sorted.len() as int),
        sorted.len() > 0 ==> listed_count(sorted, limit, budget) >= 1,
{
    let n = min(clamp(limit, 1, 500), sorted.len() as int);
    lemma_lines_fitting_bounds(sorted, 0, n, budget);
}

/// An accepted path names only proper components: none empty, `.` or `..`, so it stays
/// below the root.
pub proof fn law_accepted_paths_stay_below_root(p: Seq<char>)
    ensures
        relative_components(p) matches Ok(cs) ==> forall|i: int|
            0 <= i < cs.len() ==> (#[trigger] cs[i]).len() > 0 && cs[i] != "."@ && cs[i] != ".."@,
{
    if let Ok(cs) = relative_components(p) {
        let parts = crate::language::split_char(p, '/');
        let f = named_component();
        assert forall|i: int| 0 <= i < cs.len() implies (#[trigger] cs[i]).len() > 0 && cs[i] != "."@ && cs[i] != ".."@ by {
            assert(cs.contains(cs[i]));
            parts.lemma_filter_map_contains(f, cs[i]);
            let j = choose|j: int| 0 <= j < parts.len() && f(parts[j]) == Some(cs[i]);
        }
    }
}

} // verus!
