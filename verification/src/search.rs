//! Repository text search: the matching, context and budgeting of hits.
//!
//! Files are handed in one at a time, in walk order; the state keeps the hits
//! found so far and stops taking hits once the result or token limit is hit.
use crate::model::SearchOptions;
use crate::pattern::{regex_compiles, regex_escape, regex_escape_of, regex_find_each, regex_find_of, regex_valid};
use crate::text::{chars_of, decode_lossy, fit_len, lemma_fit_len, lines, split_lines, string_from_chars, utf8_lossy, views, char_len_utf8};
use vstd::prelude::*;

verus! {

broadcast use vstd::string::group_string_axioms;

/// Files larger than this are not searched.
pub const MAX_SEARCH_FILE_BYTES: u64 = 4194304;

/// Bound on the token count kept by a search.
pub const SEARCH_TOKEN_CAP: usize = 67108864;

/// Lines longer than this many characters are shown around the match only.
pub const MAX_LINE_CHARS: usize = 360;

/// One hit of a search: where it is, the line (shortened around the match when long) and
/// its context lines.
#[derive(Debug, Clone)]
pub struct SearchMatch {
    pub path: String,
    /// 1-based line number.
    pub line: usize,
    /// 1-based character column of the match.
    pub column: usize,
    pub text: String,
    pub before: Vec<String>,
    pub after: Vec<String>,
}

/// The hits of a search so far.
#[derive(Debug, Clone)]
pub struct SearchState {
    pub hits: Vec<SearchMatch>,
    /// Matching lines seen, kept or not (saturating).
    pub total_seen: usize,
    /// Paths with at least one hit, in the order first hit.
    pub matched_files: Vec<String>,
    /// Estimated tokens of the hits.
    pub tokens: usize,
    /// A limit was reached: no further hits are taken.
    pub stopped: bool,
}

/// A compiled search: normalized options and the pattern to match.
#[derive(Debug, Clone)]
pub struct SearchPlan {
    pub options: SearchOptions,
    pub pattern: String,
    pub case_insensitive: bool,
}

/// Why a search could not start.
#[derive(Debug, Clone, PartialEq, Eq, Structural)]
pub enum SearchError {
    InvalidPattern,
}

/// The mathematical view of a hit: path, line, column, text, before, after.
pub type HitView = (Seq<char>, nat, nat, Seq<char>, Seq<Seq<char>>, Seq<Seq<char>>);

/// The mathematical view of a search state.
pub struct SearchModel {
    pub hits: Seq<HitView>,
    pub total_seen: nat,
    pub matched: Seq<Seq<char>>,
    pub tokens: nat,
    pub stopped: bool,
}

pub open spec fn strs(v: Seq<String>) -> Seq<Seq<char>> {
    v.map_values(|s: String| s@)
}

pub open spec fn hit_view(h: SearchMatch) -> HitView {
    (h.path@, h.line as nat, h.column as nat, h.text@, strs(h.before@), strs(h.after@))
}

pub open spec fn model(s: SearchState) -> SearchModel {
    SearchModel {
        hits: s.hits@.map_values(|h: SearchMatch| hit_view(h)),
        total_seen: s.total_seen as nat,
        matched: strs(s.matched_files@),
        tokens: s.tokens as nat,
        stopped: s.stopped,
    }
}

/// Estimated tokens of a text: its characters divided by four, rounded up.
pub open spec fn est_chars(s: Seq<char>) -> nat {
    (s.len() + 3) / 4
}

/// Estimated tokens of several lines.
pub open spec fn sum_est(ls: Seq<Seq<char>>) -> nat
    decreases ls.len(),
{
    if ls.len() == 0 {
        0
    } else {
        sum_est(ls.drop_last()) + est_chars(ls.last())
    }
}

/// A long line (over 360 characters) is cut to 140 characters either side of the match
/// (whose width counts as 1 to 80), with `…` where text was cut.
pub open spec fn compact_line(line: Seq<char>, byte_col: nat, needle_len: nat) -> Seq<char> {
    if line.len() <= MAX_LINE_CHARS {
        line
    } else {
        let col = fit_len(line, byte_col as int);
        let width: nat = if needle_len < 1 {
            1
        } else if needle_len > 80 {
            80
        } else {
            needle_len
        };
        let left: nat = if col >= 140 {
            (col - 140) as nat
        } else {
            0
        };
        let right: nat = if col + width + 140 < line.len() {
            col + width + 140
        } else {
            line.len()
        };
        (if left > 0 {
            "…"@
        } else {
            Seq::empty()
        }) + line.subrange(left as int, right as int) + (if right < line.len() {
            "…"@
        } else {
            Seq::empty()
        })
    }
}

/// `x` added to a list of distinct paths.
pub open spec fn insert_unique(s: Seq<Seq<char>>, x: Seq<char>) -> Seq<Seq<char>> {
    if s.contains(x) {
        s
    } else {
        s.push(x)
    }
}

/// The search limits: results, hits per file, context lines, token budget.
pub type Limits = (nat, nat, nat, nat);

/// The hit for line `i` of `ls` matched at bytes `a..b`.
pub open spec fn make_hit(lim: Limits, rel: Seq<char>, ls: Seq<Seq<char>>, i: int, a: nat, b: nat) -> HitView {
    let start: int = if i >= lim.2 {
        i - lim.2
    } else {
        0
    };
    let end: int = if i + lim.2 + 1 < ls.len() {
        i + lim.2 + 1
    } else {
        ls.len() as int
    };
    (
        rel,
        (i + 1) as nat,
        fit_len(ls[i], a as int) + 1,
        compact_line(ls[i], a, (b - a) as nat),
        ls.subrange(start, i),
        ls.subrange(i + 1, end),
    )
}

/// Estimated tokens of a hit: its text and context, plus 12.
pub open spec fn hit_tokens(h: HitView) -> nat {
    est_chars(h.3) + sum_est(h.4) + sum_est(h.5) + 12
}

/// `n + 1`, saturating at `usize::MAX`.
pub open spec fn inc_sat(n: nat) -> nat {
    if n < usize::MAX {
        n + 1
    } else {
        n
    }
}

/// The scan of the lines of one file from line `i`, with `used` hits taken from it.
pub open spec fn scan_file(
    lim: Limits,
    pat: Seq<char>,
    ci: bool,
    rel: Seq<char>,
    ls: Seq<Seq<char>>,
    i: nat,
    used: nat,
    m: SearchModel,
) -> SearchModel
    decreases ls.len() - i,
{
    if i >= ls.len() || m.stopped {
        m
    } else {
        match regex_find_of(pat, ci, ls[i as int]) {
            None => scan_file(lim, pat, ci, rel, ls, i + 1, used, m),
            Some((a, b)) => {
                let m1 = SearchModel { total_seen: inc_sat(m.total_seen), ..m };
                if used >= lim.1 {
                    scan_file(lim, pat, ci, rel, ls, i + 1, used, m1)
                } else if m1.hits.len() >= lim.0 {
                    SearchModel { stopped: true, ..m1 }
                } else {
                    let h = make_hit(lim, rel, ls, i as int, a, b);
                    if m1.hits.len() > 0 && m1.tokens + hit_tokens(h) > lim.3 {
                        SearchModel { stopped: true, ..m1 }
                    } else {
                        scan_file(
                            lim,
                            pat,
                            ci,
                            rel,
                            ls,
                            i + 1,
                            used + 1,
                            SearchModel {
                                hits: m1.hits.push(h),
                                tokens: m1.tokens + hit_tokens(h),
                                matched: insert_unique(m1.matched, rel),
                                ..m1
                            },
                        )
                    }
                }
            },
        }
    }
}

/// A NUL byte in the first 8192 bytes marks a binary file.
pub open spec fn looks_binary(bytes: Seq<u8>) -> bool {
    exists|i: int| 0 <= i < bytes.len() && i < 8192 && bytes[i] == 0
}

/// The limits of normalized options.
pub open spec fn limits_of(o: SearchOptions) -> Limits {
    (o.max_results as nat, o.max_per_file as nat, o.context_lines as nat, o.token_budget as nat)
}

/// The search of one more file: binary files are skipped, others are scanned line by line.
pub open spec fn search_file_step(
    m: SearchModel,
    lim: Limits,
    pat: Seq<char>,
    ci: bool,
    rel: Seq<char>,
    bytes: Seq<u8>,
) -> SearchModel {
    if m.stopped || looks_binary(bytes) {
        m
    } else {
        scan_file(lim, pat, ci, rel, lines(utf8_lossy(bytes)), 0, 0, m)
    }
}

/// The pattern searched for: the query itself, or the query escaped to match literally.
pub open spec fn search_pattern(query: Seq<char>, regex: bool) -> Seq<char> {
    if regex {
        query
    } else {
        regex_escape_of(query)
    }
}

/// The plan of a search: normalized options and its pattern; an error when the pattern
/// does not compile.
pub fn plan_search(query: &str, options: SearchOptions) -> (r: Result<SearchPlan, SearchError>)
    ensures
        ({
            let o = options;
            let pat = search_pattern(query@, o.regex);
            match r {
                Ok(p) => regex_valid(pat, !o.case_sensitive) && p.pattern@ == pat && p.case_insensitive
                    == !o.case_sensitive && p.options.regex == o.regex && p.options.case_sensitive
                    == o.case_sensitive && p.options.include_hidden == o.include_hidden
                    && p.options.max_results == crate::model::defaulted(o.max_results, 50, 500)
                    && p.options.max_per_file == crate::model::defaulted(o.max_per_file, 8, 100)
                    && p.options.context_lines == (if o.context_lines < 12 {
                    o.context_lines
                } else {
                    12
                }) && p.options.token_budget == crate::model::defaulted(o.token_budget, 1200, 32000),
                Err(e) => e == SearchError::InvalidPattern && !regex_valid(pat, !o.case_sensitive),
            }
        }),
{
    let regex = options.regex;
    let ci = !options.case_sensitive;
    let opts = options.normalized();
    let pattern = if regex {
        query.to_owned()
    } else {
        regex_escape(query)
    };
    if !regex_compiles(pattern.as_str(), ci) {
        return Err(SearchError::InvalidPattern);
    }
    Ok(SearchPlan { options: opts, pattern, case_insensitive: ci })
}

/// Whether a file of `len` bytes is searched.
pub fn search_accepts_size(len: u64) -> (r: bool)
    ensures
        r == (len <= MAX_SEARCH_FILE_BYTES),
{
    len <= MAX_SEARCH_FILE_BYTES
}

fn est_chars_exec(n: usize) -> (r: usize)
    ensures
        r == (n + 3) / 4,
{
    n / 4 + if n % 4 != 0 {
        1
    } else {
        0
    }
}

/// The number of characters of `line` whose encoding fits in `b` bytes.
fn fit_count(line: &[char], b: usize) -> (r: usize)
    ensures
        r == fit_len(line@, b as int),
{
    let mut used: usize = 0;
    let mut i: usize = 0;
    assert(line@.skip(0) =~= line@);
    while i < line.len() && char_len_utf8(line[i]) <= b - used
        invariant
            i <= line@.len(),
            used <= b,
            fit_len(line@, b as int) == i + fit_len(line@.skip(i as int), b - used),
        decreases line@.len() - i,
    {
        assert(line@.skip(i as int).drop_first() =~= line@.skip(i + 1));
        assert(line@.skip(i as int)[0] == line@[i as int]);
        used = used + char_len_utf8(line[i]);
        i = i + 1;
    }
    if i < line.len() {
        assert(line@.skip(i as int)[0] == line@[i as int]);
    }
    assert(fit_len(line@.skip(i as int), b - used) == 0);
    i
}

fn compact_line_exec(line: &[char], byte_col: usize, needle_len: usize) -> (r: Vec<char>)
    ensures
        r@ == compact_line(line@, byte_col as nat, needle_len as nat),
{
    let n = line.len();
    if n <= MAX_LINE_CHARS {
        return vstd::slice::slice_to_vec(line);
    }
    let col = fit_count(line, byte_col);
    proof {
        lemma_fit_len(line@, byte_col as int);
    }
    let width: usize = if needle_len < 1 {
        1
    } else if needle_len > 80 {
        80
    } else {
        needle_len
    };
    let left: usize = if col >= 140 {
        col - 140
    } else {
        0
    };
    let right: usize = if n - col > width + 140 {
        col + width + 140
    } else {
        n
    };
    let mut out: Vec<char> = Vec::new();
    if left > 0 {
        out.push('…');
        assert(out@ =~= "…"@) by {
            reveal_strlit("…");
        }
    }
    let ghost pre = out@;
    let mut k = left;
    while k < right
        invariant
            left <= k <= right <= n,
            n == line@.len(),
            out@ == pre + line@.subrange(left as int, k as int),
        decreases right - k,
    {
        out.push(line[k]);
        assert(line@.subrange(left as int, k + 1) =~= line@.subrange(left as int, k as int).push(
            line@[k as int],
        ));
        k = k + 1;
    }
    if right < n {
        let ghost mid = out@;
        out.push('…');
        assert(out@ =~= mid + "…"@) by {
            reveal_strlit("…");
        }
    }
    assert(left > 0 ==> pre =~= "…"@);
    assert(left == 0 ==> pre =~= Seq::<char>::empty());
    out
}

fn strings_of(ls: &Vec<Vec<char>>, a: usize, b: usize) -> (r: Vec<String>)
    requires
        a <= b <= ls@.len(),
    ensures
        strs(r@) == views(ls@).subrange(a as int, b as int),
{
    let mut r: Vec<String> = Vec::new();
    let mut k = a;
    while k < b
        invariant
            a <= k <= b <= ls@.len(),
            strs(r@) == views(ls@).subrange(a as int, k as int),
        decreases b - k,
    {
        let ghost before = strs(r@);
        r.push(string_from_chars(&ls[k]));
        assert(strs(r@) =~= before.push(ls@[k as int]@));
        assert(views(ls@).subrange(a as int, k + 1) =~= views(ls@).subrange(a as int, k as int).push(
            ls@[k as int]@,
        ));
        k = k + 1;
    }
    r
}

fn sum_est_exec(ls: &Vec<Vec<char>>, a: usize, b: usize) -> (r: u128)
    requires
        a <= b <= ls@.len(),
        b - a <= 13,
        forall|j: int| 0 <= j < ls@.len() ==> (#[trigger] ls@[j]).len() <= MAX_SEARCH_FILE_BYTES,
    ensures
        r == sum_est(views(ls@).subrange(a as int, b as int)),
        r <= (b - a) * 1048576,
{
    let mut s: u128 = 0;
    let mut k = a;
    assert(views(ls@).subrange(a as int, a as int) =~= Seq::<Seq<char>>::empty());
    while k < b
        invariant
            a <= k <= b <= ls@.len(),
            b - a <= 13,
            forall|j: int| 0 <= j < ls@.len() ==> (#[trigger] ls@[j]).len() <= MAX_SEARCH_FILE_BYTES,
            s == sum_est(views(ls@).subrange(a as int, k as int)),
            s <= (k - a) * 1048576,
        decreases b - k,
    {
        assert(views(ls@).subrange(a as int, k + 1).drop_last() =~= views(ls@).subrange(a as int, k as int));
        assert(ls@[k as int].len() <= MAX_SEARCH_FILE_BYTES);
        s = s + est_chars_exec(ls[k].len()) as u128;
        k = k + 1;
    }
    s
}

impl SearchState {
    /// A search with no hits yet.
    pub fn new() -> (r: Self)
        ensures
            model(r) == (SearchModel {
                hits: Seq::empty(),
                total_seen: 0,
                matched: Seq::empty(),
                tokens: 0,
                stopped: false,
            }),
            matched_are_hit_paths(model(r).hits, model(r).matched),
    {
        let r = SearchState {
            hits: Vec::new(),
            total_seen: 0,
            matched_files: Vec::new(),
            tokens: 0,
            stopped: false,
        };
        assert(model(r).hits =~= Seq::<HitView>::empty());
        assert(model(r).matched =~= Seq::<Seq<char>>::empty());
        r
    }

    /// Matching lines seen but not returned.
    pub fn omitted_matches(&self) -> (r: usize)
        ensures
            r == if self.total_seen >= self.hits@.len() {
                self.total_seen - self.hits@.len()
            } else {
                0
            },
    {
        if self.total_seen >= self.hits.len() {
            self.total_seen - self.hits.len()
        } else {
            0
        }
    }

    /// Searches one more file when the plan's pattern compiles (a plan made by
    /// `plan_search` always does); returns whether it searched.
    pub fn search_file_checked(&mut self, plan: &SearchPlan, rel: &str, bytes: &[u8]) -> (r: bool)
        requires
            bytes@.len() <= MAX_SEARCH_FILE_BYTES,
            old(self).tokens <= SEARCH_TOKEN_CAP,
            old(self).hits@.len() == 0 ==> old(self).tokens == 0,
            plan.options.context_lines <= 12,
            plan.options.token_budget <= 32000,
        ensures
            r == regex_valid(plan.pattern@, plan.case_insensitive),
            r ==> model(*final(self)) == search_file_step(
                model(*old(self)),
                limits_of(plan.options),
                plan.pattern@,
                plan.case_insensitive,
                rel@,
                bytes@,
            ),
            !r ==> model(*final(self)) == model(*old(self)),
            final(self).tokens <= SEARCH_TOKEN_CAP,
            final(self).hits@.len() == 0 ==> final(self).tokens == 0,
            matched_are_hit_paths(model(*old(self)).hits, model(*old(self)).matched) ==> matched_are_hit_paths(
                model(*final(self)).hits,
                model(*final(self)).matched,
            ),
    {
        if !regex_compiles(plan.pattern.as_str(), plan.case_insensitive) {
            return false;
        }
        self.search_file(plan, rel, bytes);
        proof {
            if matched_are_hit_paths(model(*old(self)).hits, model(*old(self)).matched) {
                law_matched_files_are_hit_paths(
                    model(*old(self)),
                    limits_of(plan.options),
                    plan.pattern@,
                    plan.case_insensitive,
                    rel@,
                    bytes@,
                );
            }
        }
        true
    }

    /// Searches one more file, `rel` being its path relative to the root and `bytes` its
    /// contents (of at most `MAX_SEARCH_FILE_BYTES` bytes).
    #[verifier::rlimit(50)]
    pub fn search_file(&mut self, plan: &SearchPlan, rel: &str, bytes: &[u8])
        requires
            regex_valid(plan.pattern@, plan.case_insensitive),
            bytes@.len() <= MAX_SEARCH_FILE_BYTES,
            old(self).tokens <= SEARCH_TOKEN_CAP,
            old(self).hits@.len() == 0 ==> old(self).tokens == 0,
            plan.options.context_lines <= 12,
            plan.options.token_budget <= 32000,
        ensures
            model(*final(self)) == search_file_step(
                model(*old(self)),
                limits_of(plan.options),
                plan.pattern@,
                plan.case_insensitive,
                rel@,
                bytes@,
            ),
            final(self).tokens <= SEARCH_TOKEN_CAP,
            final(self).hits@.len() == 0 ==> final(self).tokens == 0,
    {
        if self.stopped {
            return;
        }
        let mut z: usize = 0;
        while z < bytes.len() && z < 8192
            invariant
                z <= bytes@.len(),
                forall|j: int| 0 <= j < z ==> bytes@[j] != 0,
                self.tokens <= SEARCH_TOKEN_CAP,
                self.hits@.len() == 0 ==> self.tokens == 0,
            decreases bytes@.len() - z,
        {
            if bytes[z] == 0 {
                return;
            }
            z = z + 1;
        }
        assert(!looks_binary(bytes@));
        let text = decode_lossy(bytes);
        let tc = chars_of(text.as_str());
        let ls = split_lines(&tc);
        proof {
            crate::text::lemma_lines_bound(tc@);
            assert forall|j: int| 0 <= j < ls@.len() implies (#[trigger] ls@[j]).len() <= MAX_SEARCH_FILE_BYTES by {
                assert(ls@[j]@ == lines(tc@)[j]);
            }
        }
        let n = ls.len();
        let mut hay: Vec<String> = Vec::new();
        let mut i: usize = 0;
        while i < n
            invariant
                n == ls@.len(),
                i <= n,
                hay@.len() == i,
                forall|j: int| 0 <= j < i ==> (#[trigger] hay@[j])@ == ls@[j]@,
            decreases n - i,
        {
            hay.push(string_from_chars(&ls[i]));
            i = i + 1;
        }
        let finds = regex_find_each(plan.pattern.as_str(), plan.case_insensitive, &hay);
        let ghost lim = limits_of(plan.options);
        let ghost lv = views(ls@);
        let ghost m0 = model(*self);
        let ctx = plan.options.context_lines;
        let mut used: usize = 0;
        let mut i: usize = 0;
        while i < n && !self.stopped
            invariant
                n == ls@.len(),
                lv == views(ls@),
                lv == lines(utf8_lossy(bytes@)),
                forall|j: int| 0 <= j < n ==> (#[trigger] ls@[j]).len() <= MAX_SEARCH_FILE_BYTES,
                finds@.len() == n,
                forall|j: int|
                    0 <= j < n ==> {
                        &&& (#[trigger] finds@[j]) matches Some((a, b)) ==> regex_find_of(
                            plan.pattern@,
                            plan.case_insensitive,
                            ls@[j]@,
                        ) == Some((a as nat, b as nat)) && a <= b
                        &&& finds@[j] is None ==> regex_find_of(
                            plan.pattern@,
                            plan.case_insensitive,
                            ls@[j]@,
                        ) is None
                    },
                lim == limits_of(plan.options),
                ctx == plan.options.context_lines,
                ctx <= 12,
                plan.options.token_budget <= 32000,
                i <= n,
                used <= i,
                self.tokens <= SEARCH_TOKEN_CAP,
                self.hits@.len() == 0 ==> self.tokens == 0,
                scan_file(lim, plan.pattern@, plan.case_insensitive, rel@, lv, 0, 0, m0) == scan_file(
                    lim,
                    plan.pattern@,
                    plan.case_insensitive,
                    rel@,
                    lv,
                    i as nat,
                    used as nat,
                    model(*self),
                ),
            decreases n - i,
        {
            match finds[i] {
                None => {
                },
                Some((a, b)) => {
                    let ghost m = model(*self);
                    if self.total_seen < usize::MAX {
                        self.total_seen = self.total_seen + 1;
                    }
                    if used >= plan.options.max_per_file {
                    } else if self.hits.len() >= plan.options.max_results {
                        self.stopped = true;
                    } else {
                        let start: usize = if i >= ctx {
                            i - ctx
                        } else {
                            0
                        };
                        let end: usize = if n - i > ctx + 1 {
                            i + ctx + 1
                        } else {
                            n
                        };
                        proof {
                            lemma_fit_len(ls@[i as int]@, a as int);
                        }
                        let rendered = compact_line_exec(&ls[i], a, b - a);
                        let column = fit_count(&ls[i], a) + 1;
                        let before = strings_of(&ls, start, i);
                        let after = strings_of(&ls, i + 1, end);
                        proof {
                            lemma_fit_len(ls@[i as int]@, a as int);
                            lemma_compact_len(ls@[i as int]@, a as nat, (b - a) as nat);
                        }
                        let ht: u128 = est_chars_exec(rendered.len()) as u128 + sum_est_exec(&ls, start, i)
                            + sum_est_exec(&ls, i + 1, end) + 12;
                        let h = SearchMatch {
                            path: rel.to_owned(),
                            line: i + 1,
                            column,
                            text: string_from_chars(&rendered),
                            before,
                            after,
                        };
                        let ghost hv = make_hit(lim, rel@, lv, i as int, a as nat, b as nat);
                        assert(hit_view(h) == hv) by {
                            assert(strs(before@) =~= lv.subrange(start as int, i as int));
                            assert(strs(after@) =~= lv.subrange(i + 1, end as int));
                        }
                        assert(ht == hit_tokens(hv));
                        if self.hits.len() > 0 && self.tokens as u128 + ht > plan.options.token_budget as u128 {
                            self.stopped = true;
                        } else {
                            self.tokens = (self.tokens as u128 + ht) as usize;
                            used = used + 1;
                            let ghost old_hits = self.hits@;
                            self.hits.push(h);
                            let ghost old_matched = strs(self.matched_files@);
                            if !contains_string(&self.matched_files, rel) {
                                self.matched_files.push(rel.to_owned());
                                assert(strs(self.matched_files@) =~= old_matched.push(rel@));
                            }
                            assert(model(*self).hits =~= m.hits.push(hv));
                        }
                    }
                },
            }
            i = i + 1;
        }
    }
}

/// Whether `v` holds a string equal to `x`.
fn contains_string(v: &Vec<String>, x: &str) -> (r: bool)
    ensures
        r == strs(v@).contains(x@),
{
    let mut i: usize = 0;
    while i < v.len()
        invariant
            i <= v@.len(),
            forall|j: int| 0 <= j < i ==> (#[trigger] v@[j])@ != x@,
        decreases v@.len() - i,
    {
        if crate::model::str_eq(v[i].as_str(), x) {
            assert(strs(v@)[i as int] == x@);
            return true;
        }
        i = i + 1;
    }
    false
}

/// The compacted line has at most 362 characters, or is the line itself.
proof fn lemma_compact_len(line: Seq<char>, byte_col: nat, needle_len: nat)
    ensures
        compact_line(line, byte_col, needle_len).len() <= line.len(),
{
    reveal_strlit("…");
    if line.len() > MAX_LINE_CHARS {
        lemma_fit_len(line, byte_col as int);
    }
}

} // verus!

verus! {

/// A search within its limits: no more hits than the result limit, and, once it holds
/// more than one hit, no more estimated tokens than the budget.
pub open spec fn within_limits(m: SearchModel, lim: Limits) -> bool {
    m.hits.len() <= lim.0 && (m.hits.len() >= 2 ==> m.tokens <= lim.3)
}

proof fn lemma_scan_within_limits(
    lim: Limits,
    pat: Seq<char>,
    ci: bool,
    rel: Seq<char>,
    ls: Seq<Seq<char>>,
    i: nat,
    used: nat,
    m: SearchModel,
)
    requires
        within_limits(m, lim),
    ensures
        within_limits(scan_file(lim, pat, ci, rel, ls, i, used, m), lim),
    decreases ls.len() - i,
{
    if i < ls.len() && !m.stopped {
        match regex_find_of(pat, ci, ls[i as int]) {
            None => lemma_scan_within_limits(lim, pat, ci, rel, ls, i + 1, used, m),
            Some((a, b)) => {
                let m1 = SearchModel { total_seen: inc_sat(m.total_seen), ..m };
                if used >= lim.1 {
                    lemma_scan_within_limits(lim, pat, ci, rel, ls, i + 1, used, m1);
                } else if m1.hits.len() < lim.0 {
                    let h = make_hit(lim, rel, ls, i as int, a, b);
                    if !(m1.hits.len() > 0 && m1.tokens + hit_tokens(h) > lim.3) {
                        let m2 = SearchModel {
                            hits: m1.hits.push(h),
                            tokens: m1.tokens + hit_tokens(h),
                            matched: insert_unique(m1.matched, rel),
                            ..m1
                        };
                        lemma_scan_within_limits(lim, pat, ci, rel, ls, i + 1, used + 1, m2);
                    }
                }
            },
        }
    }
}

/// The matched files of a search are the paths of its hits, each once.
pub open spec fn matched_are_hit_paths(hits: Seq<HitView>, matched: Seq<Seq<char>>) -> bool {
    &&& forall|i: int, j: int| 0 <= i < j < matched.len() ==> #[trigger] matched[i] != #[trigger] matched[j]
    &&& forall|i: int| 0 <= i < matched.len() ==> exists|k: int| 0 <= k < hits.len() && (#[trigger] hits[k]).0 == #[trigger] matched[i]
    &&& forall|k: int| 0 <= k < hits.len() ==> matched.contains((#[trigger] hits[k]).0)
}

proof fn lemma_scan_matched(
    lim: Limits,
    pat: Seq<char>,
    ci: bool,
    rel: Seq<char>,
    ls: Seq<Seq<char>>,
    i: nat,
    used: nat,
    m: SearchModel,
)
    requires
        matched_are_hit_paths(m.hits, m.matched),
    ensures
        ({
            let r = scan_file(lim, pat, ci, rel, ls, i, used, m);
            matched_are_hit_paths(r.hits, r.matched)
        }),
    decreases ls.len() - i,
{
    if i < ls.len() && !m.stopped {
        match regex_find_of(pat, ci, ls[i as int]) {
            None => lemma_scan_matched(lim, pat, ci, rel, ls, i + 1, used, m),
            Some((a, b)) => {
                let m1 = SearchModel { total_seen: inc_sat(m.total_seen), ..m };
                if used >= lim.1 {
                    lemma_scan_matched(lim, pat, ci, rel, ls, i + 1, used, m1);
                } else if m1.hits.len() < lim.0 {
                    let h = make_hit(lim, rel, ls, i as int, a, b);
                    if !(m1.hits.len() > 0 && m1.tokens + hit_tokens(h) > lim.3) {
                        let m2 = SearchModel {
                            hits: m1.hits.push(h),
                            tokens: m1.tokens + hit_tokens(h),
                            matched: insert_unique(m1.matched, rel),
                            ..m1
                        };
                        assert(h.0 == rel);
                        assert(m2.hits[m1.hits.len() as int] == h);
                        assert forall|x: int| 0 <= x < m2.matched.len() implies exists|k: int|
                            0 <= k < m2.hits.len() && (#[trigger] m2.hits[k]).0 == #[trigger] m2.matched[x] by {
                            if x < m1.matched.len() {
                                assert(m2.matched[x] == m1.matched[x]);
                                let k = choose|k: int| 0 <= k < m1.hits.len() && (#[trigger] m1.hits[k]).0 == m1.matched[x];
                                assert(m2.hits[k] == m1.hits[k]);
                            } else {
                                assert(m2.hits[m1.hits.len() as int].0 == m2.matched[x]);
                            }
                        }
                        assert forall|k: int| 0 <= k < m2.hits.len() implies m2.matched.contains((#[trigger] m2.hits[k]).0) by {
                            if k < m1.hits.len() {
                                assert(m2.hits[k] == m1.hits[k]);
                                assert(m1.matched.contains(m1.hits[k].0));
                                let x = choose|x: int| 0 <= x < m1.matched.len() && m1.matched[x] == m1.hits[k].0;
                                if !m1.matched.contains(rel) {
                                    assert(m2.matched[x] == m1.matched[x]);
                                }
                            } else {
                                if !m1.matched.contains(rel) {
                                    assert(m2.matched[m1.matched.len() as int] == rel);
                                }
                            }
                        }
                        lemma_scan_matched(lim, pat, ci, rel, ls, i + 1, used + 1, m2);
                    }
                }
            },
        }
    }
}

/// Searching one more file keeps the matched files exactly the distinct paths of the
/// hits: no path is listed twice, and the count of matched files is the count of
/// distinct paths with hits.
pub proof fn law_matched_files_are_hit_paths(
    m: SearchModel,
    lim: Limits,
    pat: Seq<char>,
    ci: bool,
    rel: Seq<char>,
    bytes: Seq<u8>,
)
    requires
        matched_are_hit_paths(m.hits, m.matched),
    ensures
        ({
            let r = search_file_step(m, lim, pat, ci, rel, bytes);
            matched_are_hit_paths(r.hits, r.matched)
        }),
{
    if !m.stopped && !looks_binary(bytes) {
        lemma_scan_matched(lim, pat, ci, rel, lines(utf8_lossy(bytes)), 0, 0, m);
    }
}

/// Every file searched keeps the search within its limits: at most `max_results` hits,
/// and, beyond a single hit, at most `token_budget` estimated tokens.
pub proof fn law_search_within_limits(
    m: SearchModel,
    lim: Limits,
    pat: Seq<char>,
    ci: bool,
    rel: Seq<char>,
    bytes: Seq<u8>,
)
    requires
        within_limits(m, lim),
    ensures
        within_limits(search_file_step(m, lim, pat, ci, rel, bytes), lim),
{
    if !m.stopped && !looks_binary(bytes) {
        lemma_scan_within_limits(lim, pat, ci, rel, lines(utf8_lossy(bytes)), 0, 0, m);
    }
}

} // verus!
