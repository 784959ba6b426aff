//! Bounded compression of process output.
//!
//! The raw output of a command (stdout, then stderr) is returned unchanged
//! when it fits the token budget. Otherwise a family-specific summary of it
//! is made (search hits grouped by file, git status and diff summaries, build
//! and test failures or summaries, head and tail of the rest) and cut to the
//! byte budget.
use crate::digest::{sha256_hex_of, sha256_hex_str};
use crate::model::CompressionResponse;
use crate::pattern::{captures_view, regex_captures_each, regex_captures_of, regex_compiles, regex_valid};
use crate::tally::{first_n, is_tally, key_items, lemma_tally_empty, lemma_tally_empty_iff, lemma_tally_of, tallies_view, tally_add, tally_of, tally_view, Entry, Tally};
use crate::text::{all_white, append, append_str, blen, char_blen, char_len_utf8, chars_eq, chars_eq_str, chars_of, concat, contains, contains_str, decimal, decimal_chars, ends_with, eq_ignore_case, eq_ignore_case_str, fit_len, is_blank, join, join_chars, lemma_blen_take_step, lemma_concat_push, lemma_fit_len, lines, lower, split_lines, starts_with, starts_with_str, string_from_chars, to_lower, trim, trim_chars, trim_start, views, white_space, is_white_space};
use vstd::prelude::*;

verus! {

broadcast use vstd::string::group_string_axioms;

/// The token budget used by [`compress`].
pub const DEFAULT_TOKEN_BUDGET: usize = 1200;

/// The smallest token budget honoured.
pub const MIN_TOKEN_BUDGET: usize = 64;

/// The largest token budget honoured.
pub const MAX_TOKEN_BUDGET: usize = 32000;

// ---------------------------------------------------------------------------
// Budgets
// ---------------------------------------------------------------------------

/// A token budget clamped to `[MIN_TOKEN_BUDGET, MAX_TOKEN_BUDGET]`.
pub open spec fn clamp_tokens(t: nat) -> nat {
    if t < MIN_TOKEN_BUDGET {
        MIN_TOKEN_BUDGET as nat
    } else if t > MAX_TOKEN_BUDGET {
        MAX_TOKEN_BUDGET as nat
    } else {
        t
    }
}

/// The byte budget of a token budget: four bytes per clamped token.
pub open spec fn byte_budget(t: nat) -> nat {
    clamp_tokens(t) * 4
}

/// Estimated tokens of a text: its UTF-8 bytes divided by four, rounded up.
pub open spec fn estimate_tokens(s: Seq<char>) -> nat {
    (blen(s) + 3) / 4
}

fn clamp_token_budget(t: usize) -> (r: usize)
    ensures
        r == clamp_tokens(t as nat),
{
    if t < MIN_TOKEN_BUDGET {
        MIN_TOKEN_BUDGET
    } else if t > MAX_TOKEN_BUDGET {
        MAX_TOKEN_BUDGET
    } else {
        t
    }
}

fn byte_budget_of(t: usize) -> (r: usize)
    ensures
        r == byte_budget(t as nat),
{
    clamp_token_budget(t) * 4
}

/// `(bytes + 3) / 4` for a byte count.
fn tokens_of_bytes(n: usize) -> (r: usize)
    ensures
        r == (n + 3) / 4,
{
    n / 4 + if n % 4 != 0 {
        1
    } else {
        0
    }
}

// ---------------------------------------------------------------------------
// Command classification
// ---------------------------------------------------------------------------

/// A path separator, on either platform.
pub open spec fn is_sep(c: char) -> bool {
    c == '/' || c == '\\'
}

/// The text after the last path separator.
pub open spec fn after_last_sep(v: Seq<char>) -> Seq<char>
    decreases v.len(),
{
    if v.len() == 0 {
        v
    } else if is_sep(v.last()) {
        Seq::empty()
    } else {
        after_last_sep(v.drop_last()).push(v.last())
    }
}

/// `s` without `suffix` at its end, when it ends with it.
pub open spec fn strip_suffix(s: Seq<char>, suffix: Seq<char>) -> Seq<char> {
    if ends_with(s, suffix) {
        s.take(s.len() - suffix.len())
    } else {
        s
    }
}

/// The program name of a command word: its last path component, in ASCII lower
/// case, without a `.exe`, `.cmd` or `.bat` suffix.
pub open spec fn normalized_program(v: Seq<char>) -> Seq<char> {
    let raw = lower(after_last_sep(v));
    if ends_with(raw, ".exe"@) {
        strip_suffix(raw, ".exe"@)
    } else if ends_with(raw, ".cmd"@) {
        strip_suffix(raw, ".cmd"@)
    } else if ends_with(raw, ".bat"@) {
        strip_suffix(raw, ".bat"@)
    } else {
        raw
    }
}

/// An interpreter that runs a module with `-m`.
pub open spec fn is_python(p: Seq<char>) -> bool {
    p == "python"@ || p == "python3"@ || p == "py"@
}

/// A tool that runs a command with `run`.
pub open spec fn is_runner(p: Seq<char>) -> bool {
    p == "uv"@ || p == "poetry"@ || p == "pipenv"@ || p == "rye"@
}

/// The command that actually runs: the program, or the module or command
/// behind `python -m` and `uv|poetry|pipenv|rye run`.
pub open spec fn effective_command(argv: Seq<Seq<char>>) -> Seq<char> {
    if argv.len() == 0 {
        Seq::empty()
    } else {
        let first = normalized_program(argv[0]);
        if is_python(first) && argv.len() > 1 && argv[1] == "-m"@ {
            if argv.len() > 2 {
                normalized_program(argv[2])
            } else {
                Seq::empty()
            }
        } else if is_runner(first) && argv.len() > 1 && eq_ignore_case(argv[1], "run"@) {
            if argv.len() > 2 {
                normalized_program(argv[2])
            } else {
                first
            }
        } else {
            first
        }
    }
}

/// The kind of command whose output is compressed.
#[derive(Debug, Clone, Copy, PartialEq, Eq, Structural)]
pub enum Family {
    Search,
    Vcs,
    BuildTest,
    Diagnostics,
    Infra,
    Listing,
    Generic,
}

/// The name reported for a family.
pub open spec fn family_name(f: Family) -> Seq<char> {
    match f {
        Family::Search => "search"@,
        Family::Vcs => "vcs"@,
        Family::BuildTest => "build_test"@,
        Family::Diagnostics => "diagnostics"@,
        Family::Infra => "infra"@,
        Family::Listing => "listing"@,
        Family::Generic => "generic"@,
    }
}

pub open spec fn is_search_cmd(c: Seq<char>) -> bool {
    c == "grep"@ || c == "rg"@ || c == "ripgrep"@
}

pub open spec fn is_vcs_cmd(c: Seq<char>) -> bool {
    c == "git"@ || c == "gh"@ || c == "glab"@
}

pub open spec fn is_build_cmd(c: Seq<char>) -> bool {
    ||| c == "mvn"@
    ||| c == "mvnw"@
    ||| c == "gradle"@
    ||| c == "gradlew"@
    ||| c == "cargo"@
    ||| c == "go"@
    ||| c == "pytest"@
    ||| c == "npm"@
    ||| c == "pnpm"@
    ||| c == "yarn"@
    ||| c == "bun"@
    ||| c == "npx"@
    ||| c == "jest"@
    ||| c == "vitest"@
    ||| c == "playwright"@
    ||| c == "rspec"@
    ||| c == "phpunit"@
    ||| c == "composer"@
    ||| c == "dotnet"@
    ||| c == "make"@
    ||| c == "cmake"@
    ||| c == "ninja"@
    ||| c == "sbt"@
}

pub open spec fn is_diagnostics_cmd(c: Seq<char>) -> bool {
    ||| c == "ruff"@
    ||| c == "mypy"@
    ||| c == "eslint"@
    ||| c == "biome"@
    ||| c == "prettier"@
    ||| c == "tsc"@
    ||| c == "shellcheck"@
    ||| c == "hadolint"@
    ||| c == "golangci-lint"@
    ||| c == "checkstyle"@
    ||| c == "spotbugs"@
    ||| c == "pmd"@
}

pub open spec fn is_infra_cmd(c: Seq<char>) -> bool {
    ||| c == "docker"@
    ||| c == "podman"@
    ||| c == "kubectl"@
    ||| c == "oc"@
    ||| c == "terraform"@
    ||| c == "terragrunt"@
    ||| c == "pulumi"@
    ||| c == "helm"@
    ||| c == "aws"@
    ||| c == "gcloud"@
    ||| c == "az"@
}

pub open spec fn is_listing_cmd(c: Seq<char>) -> bool {
    ||| c == "ls"@
    ||| c == "find"@
    ||| c == "tree"@
    ||| c == "wc"@
    ||| c == "cat"@
    ||| c == "head"@
    ||| c == "tail"@
}

/// The family of a command, by its effective command.
pub open spec fn family_of_command(c: Seq<char>) -> Family {
    if is_search_cmd(c) {
        Family::Search
    } else if is_vcs_cmd(c) {
        Family::Vcs
    } else if is_build_cmd(c) {
        Family::BuildTest
    } else if is_diagnostics_cmd(c) {
        Family::Diagnostics
    } else if is_infra_cmd(c) {
        Family::Infra
    } else if is_listing_cmd(c) {
        Family::Listing
    } else {
        Family::Generic
    }
}

/// The family of a command line.
pub open spec fn family_of(argv: Seq<Seq<char>>) -> Family {
    family_of_command(effective_command(argv))
}

/// The views of a list of strings.
pub open spec fn strings_view(v: Seq<String>) -> Seq<Seq<char>> {
    v.map_values(|s: String| s@)
}

impl Family {
    /// The name reported for this family.
    pub fn name(&self) -> (r: &'static str)
        ensures
            r@ == family_name(*self),
    {
        match self {
            Family::Search => "search",
            Family::Vcs => "vcs",
            Family::BuildTest => "build_test",
            Family::Diagnostics => "diagnostics",
            Family::Infra => "infra",
            Family::Listing => "listing",
            Family::Generic => "generic",
        }
    }
}

fn after_last_sep_exec(v: &[char]) -> (r: Vec<char>)
    ensures
        r@ == after_last_sep(v@),
{
    let mut start = v.len();
    assert(v@.take(v@.len() as int) =~= v@);
    assert(v@.subrange(v@.len() as int, v@.len() as int) =~= Seq::<char>::empty());
    while start > 0 && !(v[start - 1] == '/' || v[start - 1] == '\\')
        invariant
            start <= v@.len(),
            after_last_sep(v@) == after_last_sep(v@.take(start as int)) + v@.subrange(
                start as int,
                v@.len() as int,
            ),
        decreases start,
    {
        let ghost t = v@.take(start as int);
        assert(t.drop_last() =~= v@.take(start - 1));
        assert(v@.subrange(start - 1, v@.len() as int) =~= seq![t.last()] + v@.subrange(
            start as int,
            v@.len() as int,
        ));
        assert(after_last_sep(t) =~= after_last_sep(t.drop_last()) + seq![t.last()]);
        start = start - 1;
    }
    proof {
        let t = v@.take(start as int);
        if start == 0 {
            assert(t =~= Seq::<char>::empty());
        }
        assert(after_last_sep(t) =~= Seq::<char>::empty());
    }
    let mut r: Vec<char> = Vec::new();
    let mut k = start;
    while k < v.len()
        invariant
            start <= k <= v@.len(),
            r@ == v@.subrange(start as int, k as int),
        decreases v@.len() - k,
    {
        r.push(v[k]);
        assert(v@.subrange(start as int, k + 1) =~= v@.subrange(start as int, k as int).push(
            v@[k as int],
        ));
        k = k + 1;
    }
    assert(after_last_sep(v@) =~= r@);
    r
}

fn ends_with_str(s: &[char], p: &str) -> (r: bool)
    ensures
        r == ends_with(s@, p@),
{
    let pv = chars_of(p);
    let n = s.len();
    if pv.len() > n {
        return false;
    }
    let off = n - pv.len();
    let mut i: usize = 0;
    while i < pv.len()
        invariant
            n == s@.len(),
            pv@ == p@,
            off + pv@.len() == n,
            i <= pv@.len(),
            forall|j: int| 0 <= j < i ==> s@[off + j] == pv@[j],
        decreases pv@.len() - i,
    {
        if s[off + i] != pv[i] {
            assert(s@.skip(off as int)[i as int] != pv@[i as int]);
            return false;
        }
        i = i + 1;
    }
    assert(s@.skip(off as int) =~= pv@);
    true
}

fn take_prefix(s: &[char], n: usize) -> (r: Vec<char>)
    requires
        n <= s@.len(),
    ensures
        r@ == s@.take(n as int),
{
    let mut r: Vec<char> = Vec::new();
    let mut i: usize = 0;
    while i < n
        invariant
            n <= s@.len(),
            i <= n,
            r@ == s@.take(i as int),
        decreases n - i,
    {
        r.push(s[i]);
        assert(s@.take(i + 1) =~= s@.take(i as int).push(s@[i as int]));
        i = i + 1;
    }
    r
}

/// The program name of a command word.
fn normalized_program_exec(v: &[char]) -> (r: Vec<char>)
    ensures
        r@ == normalized_program(v@),
{
    let last = after_last_sep_exec(v);
    let raw = to_lower(&last);
    proof {
        reveal_strlit(".exe");
        reveal_strlit(".cmd");
        reveal_strlit(".bat");
    }
    if ends_with_str(&raw, ".exe") {
        take_prefix(&raw, raw.len() - 4)
    } else if ends_with_str(&raw, ".cmd") {
        take_prefix(&raw, raw.len() - 4)
    } else if ends_with_str(&raw, ".bat") {
        take_prefix(&raw, raw.len() - 4)
    } else {
        raw
    }
}

/// The command that actually runs.
fn effective_command_exec(argv: &[Vec<char>]) -> (r: Vec<char>)
    ensures
        r@ == effective_command(argv@.map_values(|a: Vec<char>| a@)),
{
    let ghost av = argv@.map_values(|a: Vec<char>| a@);
    if argv.len() == 0 {
        return Vec::new();
    }
    let first = normalized_program_exec(&argv[0]);
    let python = chars_eq_str(&first, "python") || chars_eq_str(&first, "python3") || chars_eq_str(
        &first,
        "py",
    );
    if python && argv.len() > 1 && chars_eq_str(&argv[1], "-m") {
        if argv.len() > 2 {
            return normalized_program_exec(&argv[2]);
        }
        return Vec::new();
    }
    let runner = chars_eq_str(&first, "uv") || chars_eq_str(&first, "poetry") || chars_eq_str(
        &first,
        "pipenv",
    ) || chars_eq_str(&first, "rye");
    if runner && argv.len() > 1 && eq_ignore_case_str(&argv[1], "run") {
        if argv.len() > 2 {
            return normalized_program_exec(&argv[2]);
        }
        return first;
    }
    first
}

/// The family of a command, by its effective command.
fn family_of_command_exec(c: &[char]) -> (r: Family)
    ensures
        r == family_of_command(c@),
{
    if chars_eq_str(c, "grep") || chars_eq_str(c, "rg") || chars_eq_str(c, "ripgrep") {
        return Family::Search;
    }
    if chars_eq_str(c, "git") || chars_eq_str(c, "gh") || chars_eq_str(c, "glab") {
        return Family::Vcs;
    }
    if chars_eq_str(c, "mvn") || chars_eq_str(c, "mvnw") || chars_eq_str(c, "gradle")
        || chars_eq_str(c, "gradlew") || chars_eq_str(c, "cargo") || chars_eq_str(c, "go")
        || chars_eq_str(c, "pytest") || chars_eq_str(c, "npm") || chars_eq_str(c, "pnpm")
        || chars_eq_str(c, "yarn") || chars_eq_str(c, "bun") || chars_eq_str(c, "npx")
        || chars_eq_str(c, "jest") || chars_eq_str(c, "vitest") || chars_eq_str(c, "playwright")
        || chars_eq_str(c, "rspec") || chars_eq_str(c, "phpunit") || chars_eq_str(c, "composer")
        || chars_eq_str(c, "dotnet") || chars_eq_str(c, "make") || chars_eq_str(c, "cmake")
        || chars_eq_str(c, "ninja") || chars_eq_str(c, "sbt") {
        return Family::BuildTest;
    }
    if chars_eq_str(c, "ruff") || chars_eq_str(c, "mypy") || chars_eq_str(c, "eslint")
        || chars_eq_str(c, "biome") || chars_eq_str(c, "prettier") || chars_eq_str(c, "tsc")
        || chars_eq_str(c, "shellcheck") || chars_eq_str(c, "hadolint") || chars_eq_str(
        c,
        "golangci-lint",
    ) || chars_eq_str(c, "checkstyle") || chars_eq_str(c, "spotbugs") || chars_eq_str(c, "pmd") {
        return Family::Diagnostics;
    }
    if chars_eq_str(c, "docker") || chars_eq_str(c, "podman") || chars_eq_str(c, "kubectl")
        || chars_eq_str(c, "oc") || chars_eq_str(c, "terraform") || chars_eq_str(c, "terragrunt")
        || chars_eq_str(c, "pulumi") || chars_eq_str(c, "helm") || chars_eq_str(c, "aws")
        || chars_eq_str(c, "gcloud") || chars_eq_str(c, "az") {
        return Family::Infra;
    }
    if chars_eq_str(c, "ls") || chars_eq_str(c, "find") || chars_eq_str(c, "tree") || chars_eq_str(
        c,
        "wc",
    ) || chars_eq_str(c, "cat") || chars_eq_str(c, "head") || chars_eq_str(c, "tail") {
        return Family::Listing;
    }
    Family::Generic
}


// ---------------------------------------------------------------------------
// Head and tail
// ---------------------------------------------------------------------------

/// Long output keeps its first 40 and last 24 lines, with a note of how many were left out.
pub open spec fn generic_summary(raw: Seq<char>) -> (Seq<char>, nat) {
    let ls = lines(raw);
    if ls.len() <= 80 {
        (raw, 0)
    } else {
        let omitted = (ls.len() - 64) as nat;
        (
            join(ls.take(40), "\n"@) + "\n… "@ + decimal(omitted) + " line(s) omitted …\n"@ + join(
                ls.skip(ls.len() - 24),
                "\n"@,
            ),
            omitted,
        )
    }
}

/// The lines `a..b` of `ls`, joined by newlines.
fn join_lines_range(ls: &Vec<Vec<char>>, a: usize, b: usize) -> (r: Vec<char>)
    requires
        a <= b <= ls@.len(),
    ensures
        r@ == join(views(ls@).subrange(a as int, b as int), "\n"@),
{
    let nl = chars_of("\n");
    let part = &ls.as_slice()[a..b];
    let r = join_chars(part, &nl);
    assert(views(part@) =~= views(ls@).subrange(a as int, b as int));
    r
}

/// Head and tail of long output.
fn generic_summary_exec(raw: &[char]) -> (r: (Vec<char>, usize))
    ensures
        (r.0@, r.1 as nat) == generic_summary(raw@),
{
    let ls = split_lines(raw);
    let n = ls.len();
    if n <= 80 {
        return (vstd::slice::slice_to_vec(raw), 0);
    }
    let head: usize = 40;
    let tail: usize = if n - head < 24 {
        n - head
    } else {
        24
    };
    let omitted = n - (head + tail);
    let mut out = join_lines_range(&ls, 0, head);
    if omitted > 0 {
        append_str(&mut out, "\n… ");
        let d = decimal_chars(omitted);
        append(&mut out, &d);
        append_str(&mut out, " line(s) omitted …\n");
    }
    if tail > 0 {
        let t = join_lines_range(&ls, n - tail, n);
        append(&mut out, &t);
    }
    assert(views(ls@).subrange(0, 40) =~= lines(raw@).take(40));
    assert(views(ls@).subrange(n - 24, n as int) =~= lines(raw@).skip(n - 24));
    (out, omitted)
}

// ---------------------------------------------------------------------------
// git diff
// ---------------------------------------------------------------------------

/// A diff header, hunk header or file-mode line.
pub open spec fn is_diff_metadata(l: Seq<char>) -> bool {
    ||| starts_with(l, "diff --git "@)
    ||| starts_with(l, "index "@)
    ||| starts_with(l, "--- "@)
    ||| starts_with(l, "+++ "@)
    ||| starts_with(l, "@@"@)
    ||| starts_with(l, "new file mode "@)
    ||| starts_with(l, "deleted file mode "@)
    ||| starts_with(l, "old mode "@)
    ||| starts_with(l, "new mode "@)
    ||| starts_with(l, "similarity index "@)
    ||| starts_with(l, "dissimilarity index "@)
    ||| starts_with(l, "rename from "@)
    ||| starts_with(l, "rename to "@)
    ||| starts_with(l, "copy from "@)
    ||| starts_with(l, "copy to "@)
    ||| starts_with(l, "Binary files "@)
}

/// An added or removed line of a diff.
pub open spec fn is_changed_line(l: Seq<char>) -> bool {
    (starts_with(l, "+"@) && !starts_with(l, "+++"@)) || (starts_with(l, "-"@) && !starts_with(
        l,
        "---"@,
    ))
}

/// The diff lines kept: metadata and changed lines, in order.
pub open spec fn diff_kept(ls: Seq<Seq<char>>) -> Seq<Seq<char>> {
    ls.filter_map(
        |l: Seq<char>|
            if is_diff_metadata(l) || is_changed_line(l) {
                Some(l)
            } else {
                None
            },
    )
}

/// A diff keeps its metadata and changed lines and drops unchanged context.
pub open spec fn git_diff_summary(raw: Seq<char>) -> (Seq<char>, nat) {
    let ls = lines(raw);
    let sel = diff_kept(ls);
    if sel.len() == 0 {
        (raw, 0)
    } else {
        let omitted = (ls.len() - sel.len()) as nat;
        (
            join(sel, "\n"@) + if omitted > 0 {
                "\n… "@ + decimal(omitted) + " unchanged diff context line(s) omitted"@
            } else {
                Seq::empty()
            },
            omitted,
        )
    }
}

fn is_diff_metadata_exec(l: &[char]) -> (r: bool)
    ensures
        r == is_diff_metadata(l@),
{
    starts_with_str(l, "diff --git ") || starts_with_str(l, "index ") || starts_with_str(l, "--- ")
        || starts_with_str(l, "+++ ") || starts_with_str(l, "@@") || starts_with_str(
        l,
        "new file mode ",
    ) || starts_with_str(l, "deleted file mode ") || starts_with_str(l, "old mode ")
        || starts_with_str(l, "new mode ") || starts_with_str(l, "similarity index ")
        || starts_with_str(l, "dissimilarity index ") || starts_with_str(l, "rename from ")
        || starts_with_str(l, "rename to ") || starts_with_str(l, "copy from ") || starts_with_str(
        l,
        "copy to ",
    ) || starts_with_str(l, "Binary files ")
}

fn is_changed_line_exec(l: &[char]) -> (r: bool)
    ensures
        r == is_changed_line(l@),
{
    (starts_with_str(l, "+") && !starts_with_str(l, "+++")) || (starts_with_str(l, "-")
        && !starts_with_str(l, "---"))
}

/// Diff summary.
fn git_diff_summary_exec(raw: &[char]) -> (r: (Vec<char>, usize))
    ensures
        (r.0@, r.1 as nat) == git_diff_summary(raw@),
{
    let ls = split_lines(raw);
    let ghost lv = views(ls@);
    let mut sel: Vec<Vec<char>> = Vec::new();
    let mut i: usize = 0;
    while i < ls.len()
        invariant
            lv == views(ls@),
            i <= ls@.len(),
            views(sel@) == diff_kept(lv.take(i as int)),
            sel@.len() <= i,
        decreases ls@.len() - i,
    {
        let keep = is_diff_metadata_exec(&ls[i]) || is_changed_line_exec(&ls[i]);
        proof {
            assert(lv.take(i + 1).drop_last() =~= lv.take(i as int));
            assert(lv.take(i + 1).last() == ls@[i as int]@);
        }
        if keep {
            let l = ls[i].clone();
            assert(l@ =~= ls@[i as int]@);
            sel.push(l);
            assert(views(sel@) =~= diff_kept(lv.take(i as int)) + seq![ls@[i as int]@]);
        }
        i = i + 1;
    }
    assert(lv.take(ls@.len() as int) =~= lv);
    if sel.len() == 0 {
        return (vstd::slice::slice_to_vec(raw), 0);
    }
    let omitted = ls.len() - sel.len();
    let nl = chars_of("\n");
    let mut out = join_chars(&sel, &nl);
    if omitted > 0 {
        append_str(&mut out, "\n… ");
        let d = decimal_chars(omitted);
        append(&mut out, &d);
        append_str(&mut out, " unchanged diff context line(s) omitted");
    }
    (out, omitted)
}


// ---------------------------------------------------------------------------
// git status
// ---------------------------------------------------------------------------

/// The first two bytes of a line, when they end on a character boundary (`str::get(..2)`).
pub open spec fn first_two_bytes(l: Seq<char>) -> Option<Seq<char>> {
    if l.len() == 0 {
        None
    } else if char_blen(l[0]) == 2 {
        Some(l.take(1))
    } else if char_blen(l[0]) == 1 && l.len() >= 2 && char_blen(l[1]) == 1 {
        Some(l.take(2))
    } else {
        None
    }
}

/// The status code of a `git status` line: its first two bytes trimmed, `??` when
/// they do not form text, `changed` when blank.
pub open spec fn status_key(l: Seq<char>) -> Seq<char> {
    let st = trim(
        match first_two_bytes(l) {
            Some(t) => t,
            None => "??"@,
        },
    );
    if st.len() == 0 {
        "changed"@
    } else {
        st
    }
}

/// The non-blank lines of `raw`.
pub open spec fn status_lines(raw: Seq<char>) -> Seq<Seq<char>> {
    lines(raw).filter_map(
        |l: Seq<char>|
            if all_white(l) {
                None
            } else {
                Some(l)
            },
    )
}

/// One keyed entry per status line, keyed by its status code.
pub open spec fn status_entries(ls: Seq<Seq<char>>) -> Seq<Entry> {
    ls.map_values(|l: Seq<char>| (status_key(l), Seq::<char>::empty()))
}

/// ` code=count` for each status code, in code order.
pub open spec fn render_counts(g: Seq<(Seq<char>, nat, Seq<Seq<char>>)>) -> Seq<char>
    decreases g.len(),
{
    if g.len() == 0 {
        Seq::empty()
    } else {
        render_counts(g.drop_last()) + " "@ + g.last().0 + "="@ + decimal(g.last().1)
    }
}

/// A long status keeps its first 20 non-blank lines and counts every line by status code.
pub open spec fn git_status_summary(raw: Seq<char>) -> (Seq<char>, nat) {
    let ls = status_lines(raw);
    if ls.len() <= 24 {
        (raw, 0)
    } else {
        let omitted = (ls.len() - 20) as nat;
        (
            join(ls.take(20), "\n"@) + "\n[KITT status summary:"@ + render_counts(
                tally_of(status_entries(ls), 0),
            ) + "; omitted="@ + decimal(omitted) + "]"@,
            omitted,
        )
    }
}

fn status_key_exec(l: &[char]) -> (r: Vec<char>)
    ensures
        r@ == status_key(l@),
{
    let mut two: Vec<char> = Vec::new();
    let mut ok = false;
    if l.len() > 0 {
        let b0 = char_len_utf8(l[0]);
        if b0 == 2 {
            two.push(l[0]);
            ok = true;
            assert(two@ =~= l@.take(1));
        } else if b0 == 1 && l.len() >= 2 && char_len_utf8(l[1]) == 1 {
            two.push(l[0]);
            two.push(l[1]);
            ok = true;
            assert(two@ =~= l@.take(2));
        }
    }
    if !ok {
        two = chars_of("??");
    }
    let st = trim_chars(&two);
    if st.len() == 0 {
        chars_of("changed")
    } else {
        st
    }
}

/// Status summary.
fn git_status_summary_exec(raw: &[char]) -> (r: (Vec<char>, usize))
    ensures
        (r.0@, r.1 as nat) == git_status_summary(raw@),
{
    let all = split_lines(raw);
    let ghost av = views(all@);
    let mut ls: Vec<Vec<char>> = Vec::new();
    let mut i: usize = 0;
    while i < all.len()
        invariant
            av == views(all@),
            i <= all@.len(),
            views(ls@) == av.take(i as int).filter_map(
                |l: Seq<char>|
                    if all_white(l) {
                        None
                    } else {
                        Some(l)
                    },
            ),
            ls@.len() <= i,
        decreases all@.len() - i,
    {
        let blank = is_blank(&all[i]);
        proof {
            assert(av.take(i + 1).drop_last() =~= av.take(i as int));
            assert(av.take(i + 1).last() == all@[i as int]@);
        }
        if !blank {
            let l = all[i].clone();
            assert(l@ =~= all@[i as int]@);
            let ghost before = views(ls@);
            ls.push(l);
            assert(views(ls@) =~= before + seq![all@[i as int]@]);
        }
        i = i + 1;
    }
    assert(av.take(all@.len() as int) =~= av);
    let ghost lv = views(ls@);
    assert(lv == status_lines(raw@));
    let n = ls.len();
    if n <= 24 {
        return (vstd::slice::slice_to_vec(raw), 0);
    }
    let ghost es_all = status_entries(lv);
    let mut g: Vec<Tally> = Vec::new();
    let mut k: usize = 0;
    proof {
        lemma_tally_empty(0);
        assert(es_all.take(0) =~= Seq::<Entry>::empty());
    }
    while k < n
        invariant
            n == ls@.len(),
            lv == views(ls@),
            es_all == status_entries(lv),
            k <= n,
            is_tally(tallies_view(g@), es_all.take(k as int), 0),
        decreases n - k,
    {
        let key = status_key_exec(&ls[k]);
        proof {
            assert(es_all.take(k + 1) =~= es_all.take(k as int).push((key@, Seq::<char>::empty())));
        }
        tally_add(&mut g, key, Vec::new(), 0, Ghost(es_all.take(k as int)));
        k = k + 1;
    }
    proof {
        assert(es_all.take(n as int) =~= es_all);
        crate::tally::lemma_tally_of(tallies_view(g@), es_all, 0);
    }
    let keep: usize = if n < 20 {
        n
    } else {
        20
    };
    let mut out = join_lines_range(&ls, 0, keep);
    append_str(&mut out, "\n[KITT status summary:");
    let ghost tv = tallies_view(g@);
    let ghost base = out@;
    let mut j: usize = 0;
    assert(tv.take(0) =~= Seq::<(Seq<char>, nat, Seq<Seq<char>>)>::empty());
    while j < g.len()
        invariant
            tv == tallies_view(g@),
            j <= g@.len(),
            out@ == base + render_counts(tv.take(j as int)),
        decreases g@.len() - j,
    {
        append_str(&mut out, " ");
        append(&mut out, &g[j].key);
        append_str(&mut out, "=");
        let d = decimal_chars(g[j].count);
        append(&mut out, &d);
        proof {
            assert(tv.take(j + 1).drop_last() =~= tv.take(j as int));
            assert(tv.take(j + 1).last() == tv[j as int]);
        }
        j = j + 1;
    }
    assert(tv.take(g@.len() as int) =~= tv);
    let omitted = n - keep;
    if omitted > 0 {
        append_str(&mut out, "; omitted=");
        let d = decimal_chars(omitted);
        append(&mut out, &d);
    }
    append_str(&mut out, "]");
    assert(views(ls@).subrange(0, 20) =~= lv.take(20));
    (out, omitted)
}

// ---------------------------------------------------------------------------
// Search hits
// ---------------------------------------------------------------------------

/// `path:line[:column]:text`, as grep and ripgrep print hits.
pub const GREP_LINE_PATTERN: &'static str = "^(.*?):(\\d+)(?::\\d+)?:?(.*)$";

/// The text of capture group `i`, empty when the group did not take part.
pub open spec fn group_text(g: Seq<Option<Seq<char>>>, i: int) -> Seq<char> {
    if 0 <= i < g.len() && g[i] is Some {
        g[i]->0
    } else {
        Seq::empty()
    }
}

/// The hit of a search output line: its path, and `line:text` with the text trimmed.
pub open spec fn search_entry(l: Seq<char>) -> Option<Entry> {
    match regex_captures_of(GREP_LINE_PATTERN@, l) {
        None => None,
        Some(g) => Some((group_text(g, 1), group_text(g, 2) + ":"@ + trim(group_text(g, 3)))),
    }
}

/// The hits of search output lines, in order.
pub open spec fn search_entries(ls: Seq<Seq<char>>) -> Seq<Entry> {
    ls.filter_map(|l: Seq<char>| search_entry(l))
}

/// A path followed by its kept hits, one per indented line.
pub open spec fn render_group(t: (Seq<char>, nat, Seq<Seq<char>>)) -> Seq<char> {
    t.0 + "\n"@ + concat(t.2.map_values(|it: Seq<char>| "  "@ + it + "\n"@))
}

/// The rendering of the groups, in order.
pub open spec fn render_search(g: Seq<(Seq<char>, nat, Seq<Seq<char>>)>) -> Seq<char> {
    concat(g.map_values(|t: (Seq<char>, nat, Seq<Seq<char>>)| render_group(t)))
}

/// How many hits the groups show.
pub open spec fn emitted(g: Seq<(Seq<char>, nat, Seq<Seq<char>>)>) -> nat
    decreases g.len(),
{
    if g.len() == 0 {
        0
    } else {
        emitted(g.drop_last()) + g.last().2.len()
    }
}

/// Search hits grouped by path, in path order: the first 40 paths with up to 8 hits each,
/// and a count of the hits not shown.
pub open spec fn search_summary(raw: Seq<char>) -> (Seq<char>, nat) {
    let es = if regex_valid(GREP_LINE_PATTERN@, false) {
        search_entries(lines(raw))
    } else {
        Seq::empty()
    };
    if es.len() == 0 {
        (raw, 0)
    } else {
        let shown = first_n(tally_of(es, 8), 40);
        let e = emitted(shown);
        let omitted: nat = if e <= es.len() {
            (es.len() - e) as nat
        } else {
            0
        };
        (
            render_search(shown) + if omitted > 0 {
                "… "@ + decimal(omitted) + " additional matches omitted"@
            } else {
                Seq::empty()
            },
            omitted,
        )
    }
}

fn group_text_exec(g: &Vec<Option<String>>, i: usize) -> (r: Vec<char>)
    ensures
        r@ == group_text(
            g@.map_values(
                |o: Option<String>|
                    match o {
                        Some(s) => Some(s@),
                        None => None,
                    },
            ),
            i as int,
        ),
{
    if i < g.len() {
        match &g[i] {
            Some(s) => chars_of(s.as_str()),
            None => Vec::new(),
        }
    } else {
        Vec::new()
    }
}

/// Search-hit summary.
fn search_summary_exec(raw: &[char]) -> (r: (Vec<char>, usize))
    ensures
        (r.0@, r.1 as nat) == search_summary(raw@),
{
    if !regex_compiles(GREP_LINE_PATTERN, false) {
        return (vstd::slice::slice_to_vec(raw), 0);
    }
    let ls = split_lines(raw);
    let ghost lv = views(ls@);
    let n = ls.len();
    let mut strs: Vec<String> = Vec::new();
    let mut i: usize = 0;
    while i < n
        invariant
            n == ls@.len(),
            i <= n,
            strs@.len() == i,
            forall|j: int| 0 <= j < i ==> (#[trigger] strs@[j])@ == ls@[j]@,
        decreases n - i,
    {
        strs.push(string_from_chars(&ls[i]));
        i = i + 1;
    }
    let caps = regex_captures_each(GREP_LINE_PATTERN, &strs);
    let ghost es_all = search_entries(lv);
    let mut g: Vec<Tally> = Vec::new();
    let mut total: usize = 0;
    let mut k: usize = 0;
    proof {
        lemma_tally_empty(8);
        assert(lv.take(0) =~= Seq::<Seq<char>>::empty());
    }
    while k < n
        invariant
            n == ls@.len(),
            lv == views(ls@),
            caps@.len() == n,
            strs@.len() == n,
            forall|j: int| 0 <= j < n ==> (#[trigger] strs@[j])@ == ls@[j]@,
            forall|j: int|
                0 <= j < n ==> captures_view(#[trigger] caps@[j]) == regex_captures_of(
                    GREP_LINE_PATTERN@,
                    strs@[j]@,
                ),
            k <= n,
            is_tally(tallies_view(g@), search_entries(lv.take(k as int)), 8),
            total == search_entries(lv.take(k as int)).len(),
            total <= k,
        decreases n - k,
    {
        let ghost before = search_entries(lv.take(k as int));
        proof {
            assert(lv.take(k + 1).drop_last() =~= lv.take(k as int));
            assert(lv.take(k + 1).last() == ls@[k as int]@);
            assert(captures_view(caps@[k as int]) == regex_captures_of(GREP_LINE_PATTERN@, ls@[k as int]@));
        }
        match &caps[k] {
            Some(groups) => {
                let file = group_text_exec(groups, 1);
                let mut item = group_text_exec(groups, 2);
                append_str(&mut item, ":");
                let text = group_text_exec(groups, 3);
                let t = trim_chars(&text);
                append(&mut item, &t);
                proof {
                    assert(search_entries(lv.take(k + 1)) =~= before + seq![(file@, item@)]);
                    assert(before.push((file@, item@)) =~= before + seq![(file@, item@)]);
                }
                tally_add(&mut g, file, item, 8, Ghost(before));
                total = total + 1;
            },
            None => {
                assert(search_entries(lv.take(k + 1)) =~= before);
            },
        }
        k = k + 1;
    }
    proof {
        assert(lv.take(n as int) =~= lv);
        lemma_tally_empty_iff(tallies_view(g@), es_all, 8);
        lemma_tally_of(tallies_view(g@), es_all, 8);
    }
    if g.len() == 0 {
        return (vstd::slice::slice_to_vec(raw), 0);
    }
    let ghost tv = tallies_view(g@);
    let shown: usize = if g.len() < 40 {
        g.len()
    } else {
        40
    };
    let ghost sv = first_n(tv, 40);
    assert(sv =~= tv.take(shown as int));
    let mut out: Vec<char> = Vec::new();
    let mut emitted_count: usize = 0;
    let mut j: usize = 0;
    assert(sv.take(0) =~= Seq::<(Seq<char>, nat, Seq<Seq<char>>)>::empty());
    while j < shown
        invariant
            tv == tallies_view(g@),
            is_tally(tv, es_all, 8),
            shown <= g@.len(),
            shown <= 40,
            sv == tv.take(shown as int),
            j <= shown,
            out@ == render_search(sv.take(j as int)),
            emitted_count == emitted(sv.take(j as int)),
            emitted_count <= 8 * j,
        decreases shown - j,
    {
        let ghost t = tv[j as int];
        let ghost base = out@;
        assert(t.2 == first_n(key_items(es_all, t.0), 8));
        append(&mut out, &g[j].key);
        append_str(&mut out, "\n");
        let items = &g[j].items;
        let mut m: usize = 0;
        assert(t.2.take(0).map_values(|it: Seq<char>| "  "@ + it + "\n"@) =~= Seq::<Seq<char>>::empty());
        while m < items.len()
            invariant
                t == tally_view(g@[j as int]),
                items@ == g@[j as int].items@,
                m <= items@.len(),
                out@ == base + t.0 + "\n"@ + concat(
                    t.2.take(m as int).map_values(|it: Seq<char>| "  "@ + it + "\n"@),
                ),
            decreases items@.len() - m,
        {
            append_str(&mut out, "  ");
            append(&mut out, &items[m]);
            append_str(&mut out, "\n");
            proof {
                let f = |it: Seq<char>| "  "@ + it + "\n"@;
                assert(t.2[m as int] == items@[m as int]@);
                assert(t.2.take(m + 1).map_values(f) =~= t.2.take(m as int).map_values(f).push(
                    f(t.2[m as int]),
                ));
                lemma_concat_push(t.2.take(m as int).map_values(f), f(t.2[m as int]));
            }
            m = m + 1;
        }
        proof {
            assert(t.2.take(items@.len() as int) =~= t.2);
            assert(t.2.len() == items@.len());
            let rg = |u: (Seq<char>, nat, Seq<Seq<char>>)| render_group(u);
            assert(sv.take(j + 1).map_values(rg) =~= sv.take(j as int).map_values(rg).push(rg(t)));
            lemma_concat_push(sv.take(j as int).map_values(rg), rg(t));
            assert(sv.take(j + 1).drop_last() =~= sv.take(j as int));
        }
        emitted_count = emitted_count + items.len();
        j = j + 1;
    }
    assert(sv.take(shown as int) =~= sv);
    let omitted = if total >= emitted_count {
        total - emitted_count
    } else {
        0
    };
    if omitted > 0 {
        append_str(&mut out, "… ");
        let d = decimal_chars(omitted);
        append(&mut out, &d);
        append_str(&mut out, " additional matches omitted");
    }
    (out, omitted)
}


// ---------------------------------------------------------------------------
// Build, test, diagnostics and infrastructure output
// ---------------------------------------------------------------------------

/// Every character is an ASCII digit.
pub open spec fn all_ascii_digits(t: Seq<char>) -> bool {
    forall|i: int| 0 <= i < t.len() ==> '0' <= #[trigger] t[i] && t[i] <= '9'
}

/// Length of the leading run of non-white-space characters.
pub open spec fn token_len(t: Seq<char>) -> nat
    decreases t.len(),
{
    if t.len() == 0 || white_space(t[0]) {
        0
    } else {
        1 + token_len(t.drop_first())
    }
}

/// The first white-space-separated word (empty when there is none).
pub open spec fn first_token(s: Seq<char>) -> Seq<char> {
    trim_start(s).take(token_len(trim_start(s)) as int)
}

/// What follows the first word.
pub open spec fn after_first_token(s: Seq<char>) -> Seq<char> {
    trim_start(s).skip(token_len(trim_start(s)) as int)
}

/// A lower-cased line that reports a passing run: `<count> passed ...`, or a
/// test, build or run summary.
pub open spec fn success_summary(lw: Seq<char>) -> bool {
    let t1 = first_token(lw);
    let t2 = first_token(after_first_token(lw));
    ||| (t1.len() > 0 && all_ascii_digits(t1) && t2 == "passed"@)
    ||| contains(lw, "test result:"@)
    ||| contains(lw, "tests run:"@)
    ||| contains(lw, "build success"@)
    ||| contains(lw, "build successful"@)
    ||| starts_with(lw, "tests:"@)
    ||| contains(lw, "finished in "@)
}

/// A lower-cased line that names a failure.
pub open spec fn failure_marker(lw: Seq<char>) -> bool {
    ||| contains(lw, "error"@)
    ||| contains(lw, "failed"@)
    ||| contains(lw, "failure"@)
    ||| contains(lw, "exception"@)
    ||| contains(lw, "assert"@)
    ||| contains(lw, "traceback"@)
    ||| contains(lw, "caused by"@)
    ||| contains(lw, "build failure"@)
    ||| contains(lw, "compilation failure"@)
    ||| contains(lw, "compilation error"@)
    ||| contains(lw, "failures:"@)
    ||| contains(lw, "errors:"@)
    ||| contains(lw, "panic:"@)
}

/// A lower-cased line kept with its neighbours in failing output.
pub open spec fn is_failure_line(lw: Seq<char>) -> bool {
    failure_marker(lw) || contains(lw, " at "@) || starts_with(lw, "  file "@)
}

/// How many entries are set.
pub open spec fn count_true(m: Seq<bool>) -> nat
    decreases m.len(),
{
    if m.len() == 0 {
        0
    } else {
        count_true(m.drop_last()) + if m.last() {
            1nat
        } else {
            0nat
        }
    }
}

/// `m` with every position in `a..b` set.
pub open spec fn mark_range(m: Seq<bool>, a: int, b: int) -> Seq<bool> {
    Seq::new(m.len(), |k: int| (a <= k < b) || m[k])
}

/// Scan of the last 80 lines, from the end, marking success summaries until 16 are marked.
pub open spec fn success_scan(ls: Seq<Seq<char>>, t: nat, m: Seq<bool>) -> Seq<bool>
    decreases ls.len() - t,
{
    if t >= 80 || t >= ls.len() {
        m
    } else {
        let idx = ls.len() - 1 - t;
        let m2 = if success_summary(lower(ls[idx])) {
            m.update(idx, true)
        } else {
            m
        };
        if count_true(m2) >= 16 {
            m2
        } else {
            success_scan(ls, t + 1, m2)
        }
    }
}

/// Scan from the start, marking each failure line with the line before it and the two
/// after it, until 140 lines are marked.
pub open spec fn failure_scan(ls: Seq<Seq<char>>, i: nat, m: Seq<bool>) -> Seq<bool>
    decreases ls.len() - i,
{
    if i >= ls.len() {
        m
    } else {
        let a: int = if i > 0 {
            i - 1int
        } else {
            0
        };
        let b: int = if i + 3 < ls.len() {
            i + 3int
        } else {
            ls.len() as int
        };
        let m2 = if is_failure_line(lower(ls[i as int])) {
            mark_range(m, a, b)
        } else {
            m
        };
        if count_true(m2) >= 140 {
            m2
        } else {
            failure_scan(ls, i + 1, m2)
        }
    }
}

/// The lines kept of build output: for success, the summaries among the last 80 lines
/// (else the last 20); for failure, the failure lines with their neighbours (else the last 48).
pub open spec fn build_mask(ls: Seq<Seq<char>>, success: bool) -> Seq<bool> {
    let none = Seq::new(ls.len(), |k: int| false);
    if success {
        let m = success_scan(ls, 0, none);
        if count_true(m) == 0 {
            mark_range(m, ls.len() - 20, ls.len() as int)
        } else {
            m
        }
    } else {
        let m = failure_scan(ls, 0, none);
        if count_true(m) == 0 {
            mark_range(m, ls.len() - 48, ls.len() as int)
        } else {
            m
        }
    }
}

/// The lines whose positions are marked, in order.
pub open spec fn select(ls: Seq<Seq<char>>, m: Seq<bool>) -> Seq<Seq<char>>
    decreases ls.len(),
{
    if ls.len() == 0 {
        Seq::empty()
    } else if m[ls.len() - 1] {
        select(ls.drop_last(), m).push(ls.last())
    } else {
        select(ls.drop_last(), m)
    }
}

/// Output of more than 32 lines keeps the marked lines and notes how many were left out.
pub open spec fn build_summary(raw: Seq<char>, success: bool) -> (Seq<char>, nat) {
    let ls = lines(raw);
    if ls.len() <= 32 {
        (raw, 0)
    } else {
        let sel = select(ls, build_mask(ls, success));
        let omitted = (ls.len() - sel.len()) as nat;
        (
            join(sel, "\n"@) + if omitted > 0 {
                "\n… "@ + decimal(omitted) + " routine line(s) omitted"@
            } else {
                Seq::empty()
            },
            omitted,
        )
    }
}

proof fn lemma_count_true_update(m: Seq<bool>, i: int)
    requires
        0 <= i < m.len(),
    ensures
        count_true(m.update(i, true)) == count_true(m) + if m[i] {
            0nat
        } else {
            1nat
        },
    decreases m.len(),
{
    if i == m.len() - 1 {
        assert(m.update(i, true).drop_last() =~= m.drop_last());
    } else {
        lemma_count_true_update(m.drop_last(), i);
        assert(m.update(i, true).drop_last() =~= m.drop_last().update(i, true));
    }
}

proof fn lemma_count_true_bound(m: Seq<bool>)
    ensures
        count_true(m) <= m.len(),
    decreases m.len(),
{
    if m.len() > 0 {
        lemma_count_true_bound(m.drop_last());
    }
}

proof fn lemma_count_true_none(n: nat)
    ensures
        count_true(Seq::new(n, |k: int| false)) == 0,
    decreases n,
{
    if n > 0 {
        assert(Seq::new(n, |k: int| false).drop_last() =~= Seq::new((n - 1) as nat, |k: int| false));
        lemma_count_true_none((n - 1) as nat);
    }
}

/// The leading white space and first word of `s` from position `from`.
fn next_token(s: &[char], from: usize) -> (r: (usize, usize))
    requires
        from <= s@.len(),
    ensures
        from <= r.0 <= r.1 <= s@.len(),
        first_token(s@.skip(from as int)) == s@.subrange(r.0 as int, r.1 as int),
        after_first_token(s@.skip(from as int)) == s@.skip(r.1 as int),
{
    let ghost t = s@.skip(from as int);
    let mut a = from;
    assert(t.skip(0) =~= t);
    while a < s.len() && is_white_space(s[a])
        invariant
            from <= a <= s@.len(),
            t == s@.skip(from as int),
            trim_start(t) == trim_start(s@.skip(a as int)),
        decreases s@.len() - a,
    {
        assert(s@.skip(a as int).drop_first() =~= s@.skip(a + 1));
        a = a + 1;
    }
    assert(trim_start(t) == s@.skip(a as int));
    let mut b = a;
    while b < s.len() && !is_white_space(s[b])
        invariant
            a <= b <= s@.len(),
            token_len(s@.skip(a as int)) == (b - a) + token_len(s@.skip(b as int)),
        decreases s@.len() - b,
    {
        assert(s@.skip(b as int).drop_first() =~= s@.skip(b + 1));
        b = b + 1;
    }
    assert(token_len(s@.skip(b as int)) == 0);
    assert(s@.skip(a as int).take(b - a) =~= s@.subrange(a as int, b as int));
    assert(s@.skip(a as int).skip(b - a) =~= s@.skip(b as int));
    (a, b)
}

fn success_summary_exec(lw: &[char]) -> (r: bool)
    ensures
        r == success_summary(lw@),
{
    let (a, b) = next_token(lw, 0);
    assert(lw@.skip(0) =~= lw@);
    let (c, d) = next_token(lw, b);
    let mut digits = b > a;
    let mut k = a;
    while k < b
        invariant
            a <= k <= b <= lw@.len(),
            digits == (b > a && forall|j: int| a <= j < k ==> '0' <= #[trigger] lw@[j] && lw@[j] <= '9'),
        decreases b - k,
    {
        if !('0' <= lw[k] && lw[k] <= '9') {
            digits = false;
        }
        k = k + 1;
    }
    let ghost t1 = lw@.subrange(a as int, b as int);
    assert(digits == (t1.len() > 0 && all_ascii_digits(t1))) by {
        if t1.len() > 0 && all_ascii_digits(t1) {
            assert forall|j: int| a <= j < b implies '0' <= #[trigger] lw@[j] && lw@[j] <= '9' by {
                assert(lw@[j] == t1[j - a]);
            }
        }
    }
    let mut pytest = false;
    if digits {
        let second = &lw[c..d];
        pytest = chars_eq_str(second, "passed");
    }
    pytest || contains_str(lw, "test result:") || contains_str(lw, "tests run:") || contains_str(
        lw,
        "build success",
    ) || contains_str(lw, "build successful") || starts_with_str(lw, "tests:") || contains_str(
        lw,
        "finished in ",
    )
}

fn failure_marker_exec(lw: &[char]) -> (r: bool)
    ensures
        r == failure_marker(lw@),
{
    contains_str(lw, "error") || contains_str(lw, "failed") || contains_str(lw, "failure")
        || contains_str(lw, "exception") || contains_str(lw, "assert") || contains_str(
        lw,
        "traceback",
    ) || contains_str(lw, "caused by") || contains_str(lw, "build failure") || contains_str(
        lw,
        "compilation failure",
    ) || contains_str(lw, "compilation error") || contains_str(lw, "failures:") || contains_str(
        lw,
        "errors:",
    ) || contains_str(lw, "panic:")
}

/// Sets every position in `a..b`, keeping the count of set positions.
fn mark_range_exec(mask: &mut Vec<bool>, count: &mut usize, a: usize, b: usize)
    requires
        a <= b <= old(mask)@.len(),
        *old(count) == count_true(old(mask)@),
    ensures
        final(mask)@ == mark_range(old(mask)@, a as int, b as int),
        *final(count) == count_true(final(mask)@),
{
    let ghost m0 = mask@;
    let len = mask.len();
    let mut k = a;
    assert(mark_range(m0, a as int, a as int) =~= m0);
    while k < b
        invariant
            len == m0.len(),
            a <= k <= b <= m0.len(),
            mask@.len() == m0.len(),
            mask@ == mark_range(m0, a as int, k as int),
            *count == count_true(mask@),
        decreases b - k,
    {
        proof {
            lemma_count_true_update(mask@, k as int);
            lemma_count_true_bound(mask@.update(k as int, true));
        }
        if !mask[k] {
            *count = *count + 1;
        }
        mask.set(k, true);
        assert(mask@ =~= mark_range(m0, a as int, k + 1));
        k = k + 1;
    }
}

/// The marked lines of long build output.
fn build_summary_exec(raw: &[char], success: bool) -> (r: (Vec<char>, usize))
    ensures
        (r.0@, r.1 as nat) == build_summary(raw@, success),
{
    let ls = split_lines(raw);
    let ghost lv = views(ls@);
    let n = ls.len();
    if n <= 32 {
        return (vstd::slice::slice_to_vec(raw), 0);
    }
    let mut mask: Vec<bool> = Vec::new();
    let mut z: usize = 0;
    while z < n
        invariant
            z <= n,
            mask@ == Seq::new(z as nat, |k: int| false),
        decreases n - z,
    {
        mask.push(false);
        assert(mask@ =~= Seq::new((z + 1) as nat, |k: int| false));
        z = z + 1;
    }
    let ghost none = mask@;
    let mut count: usize = 0;
    proof {
        lemma_count_true_none(n as nat);
    }
    if success {
        let mut t: usize = 0;
        let mut done = false;
        while t < 80 && t < n && !done
            invariant
                n == ls@.len(),
                lv == views(ls@),
                mask@.len() == n,
                count == count_true(mask@),
                !done ==> count < 16 && success_scan(lv, 0, none) == success_scan(lv, t as nat, mask@),
                done ==> success_scan(lv, 0, none) == mask@,
            decreases n - t,
        {
            let idx = n - 1 - t;
            let lw = to_lower(&ls[idx]);
            proof {
                assert(lv[idx as int] == ls@[idx as int]@);
                lemma_count_true_update(mask@, idx as int);
                lemma_count_true_bound(mask@.update(idx as int, true));
            }
            if success_summary_exec(&lw) {
                if !mask[idx] {
                    count = count + 1;
                }
                mask.set(idx, true);
            }
            if count >= 16 {
                done = true;
            }
            t = t + 1;
        }
        if count == 0 {
            let a: usize = if n > 20 {
                n - 20
            } else {
                0
            };
            mark_range_exec(&mut mask, &mut count, a, n);
        }
    } else {
        let mut i: usize = 0;
        let mut done = false;
        while i < n && !done
            invariant
                n == ls@.len(),
                lv == views(ls@),
                mask@.len() == n,
                count == count_true(mask@),
                i <= n,
                !done ==> count < 140 && failure_scan(lv, 0, none) == failure_scan(lv, i as nat, mask@),
                done ==> failure_scan(lv, 0, none) == mask@,
            decreases n - i,
        {
            let lw = to_lower(&ls[i]);
            proof {
                assert(lv[i as int] == ls@[i as int]@);
            }
            let hit = failure_marker_exec(&lw) || contains_str(&lw, " at ") || starts_with_str(
                &lw,
                "  file ",
            );
            if hit {
                let a: usize = if i > 0 {
                    i - 1
                } else {
                    0
                };
                let b: usize = if n - i > 3 {
                    i + 3
                } else {
                    n
                };
                mark_range_exec(&mut mask, &mut count, a, b);
            }
            if count >= 140 {
                done = true;
            }
            i = i + 1;
        }
        if count == 0 {
            let a: usize = if n > 48 {
                n - 48
            } else {
                0
            };
            mark_range_exec(&mut mask, &mut count, a, n);
        }
    }
    assert(mask@ == build_mask(lv, success));
    let mut sel: Vec<Vec<char>> = Vec::new();
    let mut i: usize = 0;
    assert(lv.take(0) =~= Seq::<Seq<char>>::empty());
    while i < n
        invariant
            n == ls@.len(),
            lv == views(ls@),
            mask@.len() == n,
            i <= n,
            views(sel@) == select(lv.take(i as int), mask@),
            sel@.len() <= i,
        decreases n - i,
    {
        proof {
            assert(lv.take(i + 1).drop_last() =~= lv.take(i as int));
        }
        if mask[i] {
            let l = ls[i].clone();
            assert(l@ =~= ls@[i as int]@);
            let ghost before = views(sel@);
            sel.push(l);
            assert(views(sel@) =~= before.push(lv[i as int]));
        }
        i = i + 1;
    }
    assert(lv.take(n as int) =~= lv);
    let omitted = n - sel.len();
    let nl = chars_of("\n");
    let mut out = join_chars(&sel, &nl);
    if omitted > 0 {
        append_str(&mut out, "\n… ");
        let d = decimal_chars(omitted);
        append(&mut out, &d);
        append_str(&mut out, " routine line(s) omitted");
    }
    (out, omitted)
}


// ---------------------------------------------------------------------------
// Version control
// ---------------------------------------------------------------------------

/// Some argument equals `needle` up to ASCII case.
pub open spec fn command_has(argv: Seq<Seq<char>>, needle: Seq<char>) -> bool {
    exists|i: int| 0 <= i < argv.len() && eq_ignore_case(#[trigger] argv[i], needle)
}

/// `git status` and `git diff` get their own summaries; other version-control output
/// keeps its head and tail.
pub open spec fn vcs_summary(argv: Seq<Seq<char>>, raw: Seq<char>) -> (Seq<char>, nat) {
    if effective_command(argv) == "git"@ {
        if command_has(argv, "status"@) {
            git_status_summary(raw)
        } else if command_has(argv, "diff"@) {
            git_diff_summary(raw)
        } else {
            generic_summary(raw)
        }
    } else {
        generic_summary(raw)
    }
}

fn command_has_exec(argv: &[Vec<char>], needle: &str) -> (r: bool)
    ensures
        r == command_has(argv@.map_values(|a: Vec<char>| a@), needle@),
{
    let ghost av = argv@.map_values(|a: Vec<char>| a@);
    let mut i: usize = 0;
    while i < argv.len()
        invariant
            av == argv@.map_values(|a: Vec<char>| a@),
            i <= argv@.len(),
            forall|j: int| 0 <= j < i ==> !eq_ignore_case(#[trigger] av[j], needle@),
        decreases argv@.len() - i,
    {
        if eq_ignore_case_str(&argv[i], needle) {
            assert(eq_ignore_case(av[i as int], needle@));
            return true;
        }
        i = i + 1;
    }
    false
}

fn vcs_summary_exec(argv: &[Vec<char>], raw: &[char]) -> (r: (Vec<char>, usize))
    ensures
        (r.0@, r.1 as nat) == vcs_summary(argv@.map_values(|a: Vec<char>| a@), raw@),
{
    let cmd = effective_command_exec(argv);
    if chars_eq_str(&cmd, "git") {
        if command_has_exec(argv, "status") {
            return git_status_summary_exec(raw);
        }
        if command_has_exec(argv, "diff") {
            return git_diff_summary_exec(raw);
        }
    }
    generic_summary_exec(raw)
}

// ---------------------------------------------------------------------------
// Budget enforcement and the whole compression
// ---------------------------------------------------------------------------

/// The note appended where output is cut to the byte budget.
pub const TRUNCATION_NOTE: &'static str = "\n… output truncated to KITT token budget";

/// `value` cut to at most `max` UTF-8 bytes on a character boundary, ending with
/// `suffix` when the suffix alone is shorter than `max`.
pub open spec fn truncate_to(value: Seq<char>, max: nat, suffix: Seq<char>) -> Seq<char> {
    if blen(value) <= max {
        value
    } else if max == 0 {
        Seq::empty()
    } else {
        let suf = if blen(suffix) < max {
            suffix
        } else {
            Seq::empty()
        };
        value.take(fit_len(value, max - blen(suf)) as int) + suf
    }
}

/// The text returned for `raw`: `raw` itself when it fits the byte budget, else the
/// summary (or `raw`, when the summary is blank) cut to the budget.
pub open spec fn final_output(raw: Seq<char>, candidate: Seq<char>, token_budget: nat) -> Seq<char> {
    let budget = byte_budget(token_budget);
    if blen(raw) <= budget {
        raw
    } else {
        let source = if all_white(candidate) {
            raw
        } else {
            candidate
        };
        truncate_to(source, budget, TRUNCATION_NOTE@)
    }
}

/// The raw output of a process: stdout and stderr, joined by a newline when both are present.
pub open spec fn raw_output(stdout: Seq<char>, stderr: Seq<char>) -> Seq<char> {
    if stderr.len() == 0 {
        stdout
    } else if stdout.len() == 0 {
        stderr
    } else {
        stdout + "\n"@ + stderr
    }
}

/// The summary of a command's output chosen by its family, with the lines it left out.
pub open spec fn family_summary(argv: Seq<Seq<char>>, raw: Seq<char>, returncode: i32) -> (Seq<char>, nat) {
    match family_of(argv) {
        Family::Search => search_summary(raw),
        Family::BuildTest | Family::Diagnostics | Family::Infra => build_summary(raw, returncode == 0),
        Family::Vcs => vcs_summary(argv, raw),
        _ => generic_summary(raw),
    }
}

/// Output within the token budget is not summarised.
pub open spec fn summary(argv: Seq<Seq<char>>, raw: Seq<char>, returncode: i32, token_budget: nat) -> (Seq<char>, nat) {
    if raw.len() == 0 || estimate_tokens(raw) <= clamp_tokens(token_budget) {
        (raw, 0)
    } else {
        family_summary(argv, raw, returncode)
    }
}

/// The compressed output of a process.
pub open spec fn compressed_output(
    argv: Seq<Seq<char>>,
    stdout: Seq<char>,
    stderr: Seq<char>,
    returncode: i32,
    token_budget: nat,
) -> Seq<char> {
    let raw = raw_output(stdout, stderr);
    final_output(raw, summary(argv, raw, returncode, token_budget).0, token_budget)
}

/// Whether `v` encodes in at most `max` bytes.
pub(crate) fn fits_bytes(v: &[char], max: usize) -> (r: bool)
    ensures
        r == (blen(v@) <= max),
{
    let mut used: usize = 0;
    let mut i: usize = 0;
    assert(v@.take(0) =~= Seq::<char>::empty());
    while i < v.len()
        invariant
            i <= v@.len(),
            used == blen(v@.take(i as int)),
            used <= max,
        decreases v@.len() - i,
    {
        let c = char_len_utf8(v[i]);
        proof {
            lemma_blen_take_step(v@, i as int);
        }
        if c > max - used {
            proof {
                lemma_blen_prefix_le(v@, i + 1);
            }
            return false;
        }
        used = used + c;
        i = i + 1;
    }
    assert(v@.take(v@.len() as int) =~= v@);
    true
}

/// A prefix encodes in no more bytes than the whole.
proof fn lemma_blen_prefix_le(v: Seq<char>, k: int)
    requires
        0 <= k <= v.len(),
    ensures
        blen(v.take(k)) <= blen(v),
{
    assert(v =~= v.take(k) + v.skip(k));
    crate::text::lemma_encode_concat(v.take(k), v.skip(k));
}

/// The UTF-8 length of `v`, known to be at most `bound`.
fn blen_exact(v: &[char], bound: usize) -> (r: usize)
    requires
        blen(v@) <= bound,
    ensures
        r == blen(v@),
{
    let mut used: usize = 0;
    let mut i: usize = 0;
    assert(v@.take(0) =~= Seq::<char>::empty());
    while i < v.len()
        invariant
            i <= v@.len(),
            used == blen(v@.take(i as int)),
            blen(v@) <= bound,
        decreases v@.len() - i,
    {
        proof {
            lemma_blen_take_step(v@, i as int);
            lemma_blen_prefix_le(v@, i + 1);
        }
        used = used + char_len_utf8(v[i]);
        i = i + 1;
    }
    assert(v@.take(v@.len() as int) =~= v@);
    used
}

/// The longest prefix of `v` that encodes in at most `keep` bytes.
pub(crate) fn fit_prefix(v: &[char], keep: usize) -> (r: Vec<char>)
    ensures
        r@ == v@.take(fit_len(v@, keep as int) as int),
{
    let mut used: usize = 0;
    let mut i: usize = 0;
    assert(v@.skip(0) =~= v@);
    while i < v.len() && char_len_utf8(v[i]) <= keep - used
        invariant
            i <= v@.len(),
            used <= keep,
            fit_len(v@, keep as int) == i + fit_len(v@.skip(i as int), keep - used),
        decreases v@.len() - i,
    {
        assert(v@.skip(i as int).drop_first() =~= v@.skip(i + 1));
        assert(v@.skip(i as int)[0] == v@[i as int]);
        used = used + char_len_utf8(v[i]);
        i = i + 1;
    }
    if i < v.len() {
        assert(v@.skip(i as int)[0] == v@[i as int]);
    }
    assert(fit_len(v@.skip(i as int), keep - used) == 0);
    take_prefix(v, i)
}

/// `value` cut on a character boundary to at most `max_bytes` UTF-8 bytes, ending with
/// `suffix` when the suffix alone is shorter than `max_bytes`.
fn truncate_with_suffix(value: &[char], max_bytes: usize, suffix: &[char]) -> (r: Vec<char>)
    ensures
        r@ == truncate_to(value@, max_bytes as nat, suffix@),
{
    if fits_bytes(value, max_bytes) {
        return vstd::slice::slice_to_vec(value);
    }
    if max_bytes == 0 {
        return Vec::new();
    }
    let suf: Vec<char> = if fits_bytes(suffix, max_bytes - 1) {
        vstd::slice::slice_to_vec(suffix)
    } else {
        Vec::new()
    };
    proof {
        lemma_blen_empty_seq();
    }
    let suf_len = blen_exact(&suf, max_bytes - 1);
    let keep = max_bytes - suf_len;
    let mut out = fit_prefix(value, keep);
    append(&mut out, &suf);
    out
}

proof fn lemma_blen_empty_seq()
    ensures
        blen(Seq::<char>::empty()) == 0,
{
}

/// Assembles the response for `raw` and its summary.
fn finalize(
    raw: &[char],
    candidate: &[char],
    family: Family,
    omitted: usize,
    token_budget: usize,
) -> (r: CompressionResponse)
    ensures
        r.output@ == final_output(raw@, candidate@, token_budget as nat),
        r.family@ == family_name(family),
        r.changed == (r.output@ != raw@),
        r.raw_bytes == blen(raw@),
        r.output_bytes == blen(r.output@),
        r.omitted_lines == omitted,
        r.raw_sha256@ == sha256_hex_of(vstd::utf8::encode_utf8(raw@)),
{
    let budget = byte_budget_of(token_budget);
    let raw_s = string_from_chars(raw);
    let raw_bytes = raw_s.as_str().as_bytes().len();
    let output: Vec<char> = if raw_bytes <= budget {
        vstd::slice::slice_to_vec(raw)
    } else {
        let note = chars_of(TRUNCATION_NOTE);
        if is_blank(candidate) {
            truncate_with_suffix(raw, budget, &note)
        } else {
            truncate_with_suffix(candidate, budget, &note)
        }
    };
    let changed = !chars_eq(&output, raw);
    let out_s = string_from_chars(&output);
    let output_bytes = out_s.as_str().as_bytes().len();
    let raw_sha256 = sha256_hex_str(raw_s.as_str());
    CompressionResponse {
        output: out_s,
        family: family.name().to_owned(),
        changed,
        raw_bytes,
        output_bytes,
        omitted_lines: omitted,
        raw_sha256,
    }
}

/// Compresses the output of a process (`argv`, `stdout`, `stderr`, `returncode`) to
/// `token_budget` estimated tokens (clamped to 64..32000; four bytes per token).
pub fn compress_with_budget(
    argv: &[String],
    stdout: &str,
    stderr: &str,
    returncode: i32,
    token_budget: usize,
) -> (r: CompressionResponse)
    ensures
        r.output@ == compressed_output(strings_view(argv@), stdout@, stderr@, returncode, token_budget as nat),
        r.family@ == family_name(family_of(strings_view(argv@))),
        r.changed == (r.output@ != raw_output(stdout@, stderr@)),
        r.raw_bytes == blen(raw_output(stdout@, stderr@)),
        r.output_bytes == blen(r.output@),
        r.omitted_lines == summary(
            strings_view(argv@),
            raw_output(stdout@, stderr@),
            returncode,
            token_budget as nat,
        ).1,
        r.raw_sha256@ == sha256_hex_of(vstd::utf8::encode_utf8(raw_output(stdout@, stderr@))),
{
    let out_c = chars_of(stdout);
    let err_c = chars_of(stderr);
    let raw: Vec<char> = if err_c.len() == 0 {
        out_c
    } else if out_c.len() == 0 {
        err_c
    } else {
        let mut v = out_c;
        append_str(&mut v, "\n");
        append(&mut v, &err_c);
        v
    };
    let mut argv_c: Vec<Vec<char>> = Vec::new();
    let mut i: usize = 0;
    while i < argv.len()
        invariant
            i <= argv@.len(),
            argv_c@.map_values(|a: Vec<char>| a@) == strings_view(argv@).take(i as int),
        decreases argv@.len() - i,
    {
        let a = chars_of(argv[i].as_str());
        let ghost before = argv_c@.map_values(|a: Vec<char>| a@);
        argv_c.push(a);
        assert(argv_c@.map_values(|a: Vec<char>| a@) =~= before.push(argv@[i as int]@));
        assert(strings_view(argv@).take(i + 1) =~= strings_view(argv@).take(i as int).push(
            argv@[i as int]@,
        ));
        i = i + 1;
    }
    assert(strings_view(argv@).take(argv@.len() as int) =~= strings_view(argv@));
    let cmd = effective_command_exec(&argv_c);
    let family = family_of_command_exec(&cmd);
    let raw_s = string_from_chars(&raw);
    if raw.len() == 0 || tokens_of_bytes(raw_s.as_str().as_bytes().len()) <= clamp_token_budget(token_budget) {
        return finalize(&raw, &raw, family, 0, token_budget);
    }
    let (candidate, omitted) = match family {
        Family::Search => search_summary_exec(&raw),
        Family::BuildTest | Family::Diagnostics | Family::Infra => build_summary_exec(
            &raw,
            returncode == 0,
        ),
        Family::Vcs => vcs_summary_exec(&argv_c, &raw),
        _ => generic_summary_exec(&raw),
    };
    finalize(&raw, &candidate, family, omitted, token_budget)
}

/// Compresses the output of a process to the default budget of 1200 tokens.
pub fn compress(argv: &[String], stdout: &str, stderr: &str, returncode: i32) -> (r: CompressionResponse)
    ensures
        r.output@ == compressed_output(
            strings_view(argv@),
            stdout@,
            stderr@,
            returncode,
            DEFAULT_TOKEN_BUDGET as nat,
        ),
        r.family@ == family_name(family_of(strings_view(argv@))),
        r.changed == (r.output@ != raw_output(stdout@, stderr@)),
        r.raw_bytes == blen(raw_output(stdout@, stderr@)),
        r.output_bytes == blen(r.output@),
        r.omitted_lines == summary(
            strings_view(argv@),
            raw_output(stdout@, stderr@),
            returncode,
            DEFAULT_TOKEN_BUDGET as nat,
        ).1,
        r.raw_sha256@ == sha256_hex_of(vstd::utf8::encode_utf8(raw_output(stdout@, stderr@))),
{
    compress_with_budget(argv, stdout, stderr, returncode, DEFAULT_TOKEN_BUDGET)
}

// ---------------------------------------------------------------------------
// Laws
// ---------------------------------------------------------------------------

/// The compressed output never exceeds the byte budget of the token budget.
pub proof fn law_output_within_budget(raw: Seq<char>, candidate: Seq<char>, token_budget: nat)
    ensures
        blen(final_output(raw, candidate, token_budget)) <= byte_budget(token_budget),
{
    let budget = byte_budget(token_budget);
    if blen(raw) > budget {
        let source = if all_white(candidate) {
            raw
        } else {
            candidate
        };
        let note = TRUNCATION_NOTE@;
        if blen(source) > budget && budget > 0 {
            let suf = if blen(note) < budget {
                note
            } else {
                Seq::<char>::empty()
            };
            let keep = budget - blen(suf);
            lemma_fit_len(source, keep);
            let kept = source.take(fit_len(source, keep) as int);
            crate::text::lemma_encode_concat(kept, suf);
        }
    }
}

/// Output whose estimated tokens fit the (clamped) budget is returned unchanged.
pub proof fn law_output_within_tokens_unchanged(
    argv: Seq<Seq<char>>,
    stdout: Seq<char>,
    stderr: Seq<char>,
    returncode: i32,
    token_budget: nat,
)
    requires
        estimate_tokens(raw_output(stdout, stderr)) <= clamp_tokens(token_budget),
    ensures
        compressed_output(argv, stdout, stderr, returncode, token_budget) == raw_output(stdout, stderr),
{
}

/// The family of a command run through `python -m` or `uv|poetry|pipenv|rye run` is the
/// family of the command run.
pub proof fn law_wrapped_command_family(argv: Seq<Seq<char>>)
    requires
        argv.len() > 2,
        ({
            let p = normalized_program(argv[0]);
            ||| (p == "python"@ || p == "python3"@ || p == "py"@) && argv[1] == "-m"@
            ||| (p == "uv"@ || p == "poetry"@ || p == "pipenv"@ || p == "rye"@) && eq_ignore_case(argv[1], "run"@)
        }),
    ensures
        family_of(argv) == family_of_command(normalized_program(argv[2])),
{
}

/// A module run with `python -m` (or `python3 -m`, `py -m`) is compressed as the module's
/// own command would be: whatever follows the module, the family is the module's.
pub proof fn law_python_module_family(argv: Seq<Seq<char>>, rest: Seq<Seq<char>>)
    requires
        argv.len() > 2,
        normalized_program(argv[0]) == "python"@ || normalized_program(argv[0]) == "python3"@
            || normalized_program(argv[0]) == "py"@,
        argv[1] == "-m"@,
    ensures
        family_of(argv) == family_of_command(normalized_program(argv[2])),
        family_of(argv) == family_of(argv.take(3) + rest),
{
    let b = argv.take(3) + rest;
    assert(b[0] == argv[0] && b[1] == argv[1] && b[2] == argv[2]);
}

} // verus!
