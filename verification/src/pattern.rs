//! Regular-expression matching, through the `regex` crate.
use vstd::prelude::*;

verus! {

/// Whether `pattern` compiles as a regular expression, with or without case folding.
pub uninterp spec fn regex_valid(pattern: Seq<char>, case_insensitive: bool) -> bool;

/// The capture groups of the leftmost-first match of `pattern` in `haystack`:
/// `None` when there is no match, otherwise one entry per group, group 0 first.
pub uninterp spec fn regex_captures_of(pattern: Seq<char>, haystack: Seq<char>) -> Option<
    Seq<Option<Seq<char>>>,
>;

/// The view of an optional list of optional capture texts.
pub open spec fn captures_view(c: Option<Vec<Option<String>>>) -> Option<Seq<Option<Seq<char>>>> {
    match c {
        None => None,
        Some(v) => Some(
            v@.map_values(
                |o: Option<String>|
                    match o {
                        Some(s) => Some(s@),
                        None => None,
                    },
            ),
        ),
    }
}

/// An ASCII word character: a letter, a digit or `_` (each is a word character `\w` of
/// the regex syntax).
pub open spec fn ascii_word(c: char) -> bool {
    ('a' <= c && c <= 'z') || ('A' <= c && c <= 'Z') || ('0' <= c && c <= '9') || c == '_'
}

/// `t` occurs in `h` at character `k` as a whole word: no ASCII word character touches it
/// on a side where `t` itself has a word character.
pub open spec fn whole_word_at(h: Seq<char>, t: Seq<char>, k: int) -> bool {
    &&& 0 <= k
    &&& k + t.len() <= h.len()
    &&& h.subrange(k, k + t.len()) == t
    &&& (t.len() > 0 && k > 0 && ascii_word(t[0]) ==> !ascii_word(h[k - 1]))
    &&& (t.len() > 0 && k + t.len() < h.len() && ascii_word(t[t.len() - 1]) ==> !ascii_word(h[k + t.len()]))
}

/// Every match of `pattern` (without case folding) in any text starts at an occurrence
/// of `t` as a whole word.
pub open spec fn finds_whole_words(pattern: Seq<char>, t: Seq<char>) -> bool {
    forall|h: Seq<char>|
        #[trigger] regex_find_of(pattern, false, h) matches Some((a, b)) ==> exists|k: int|
            crate::text::blen(h.take(k)) == a && whole_word_at(h, t, k)
}

/// `regex::RegexBuilder::build`: whether `pattern` compiles with the given case folding.
/// A compiled `\b` + `regex::escape(t)` + `\b` without case folding matches `t` itself
/// between two word boundaries (`\b`: a word character `\w` on one side and not on the
/// other, or the text's edge).
#[verifier::external_body]
pub(crate) fn regex_compiles(pattern: &str, case_insensitive: bool) -> (r: bool)
    ensures
        r == regex_valid(pattern@, case_insensitive),
        r && !case_insensitive ==> forall|t: Seq<char>|
            t.len() > 0 && pattern@ == "\\b"@ + #[trigger] regex_escape_of(t) + "\\b"@ ==> finds_whole_words(
                pattern@,
                t,
            ),
{
    regex::RegexBuilder::new(pattern).case_insensitive(case_insensitive).build().is_ok()
}

/// `regex::Regex::captures`, applied to each haystack with one compiled `pattern`.
#[verifier::external_body]
pub(crate) fn regex_captures_each(pattern: &str, haystacks: &[String]) -> (r: Vec<Option<Vec<Option<String>>>>)
    requires
        regex_valid(pattern@, false),
    ensures
        r@.len() == haystacks@.len(),
        forall|i: int|
            0 <= i < haystacks@.len() ==> captures_view(#[trigger] r@[i]) == regex_captures_of(
                pattern@,
                haystacks@[i]@,
            ),
{
    let re = regex::Regex::new(pattern).unwrap();
    haystacks.iter().map(|h| re.captures(h).map(|c| c.iter().map(|m| m.map(|m| m.as_str().to_string())).collect())).collect()
}


/// The byte offsets of the leftmost-first match of `pattern` (with or without case folding)
/// in `haystack`, if there is one.
pub uninterp spec fn regex_find_of(pattern: Seq<char>, case_insensitive: bool, haystack: Seq<char>) -> Option<(nat, nat)>;

/// `b` is the byte length of a prefix of `s`: it falls on a character boundary of the encoding.
pub open spec fn on_boundary(s: Seq<char>, b: nat) -> bool {
    exists|k: int| 0 <= k <= s.len() && crate::text::blen(#[trigger] s.take(k)) == b
}

/// `regex::Regex::find`, applied to each haystack with one compiled `pattern`: the byte
/// range of the first match, if any. The ends of a match lie on character boundaries,
/// start before end.
#[verifier::external_body]
pub(crate) fn regex_find_each(pattern: &str, case_insensitive: bool, haystacks: &[String]) -> (r: Vec<Option<(usize, usize)>>)
    requires
        regex_valid(pattern@, case_insensitive),
    ensures
        r@.len() == haystacks@.len(),
        forall|i: int|
            0 <= i < haystacks@.len() ==> {
                &&& (#[trigger] r@[i]) matches Some((a, b)) ==> regex_find_of(pattern@, case_insensitive, haystacks@[i]@) == Some((a as nat, b as nat))
                &&& r@[i] is None ==> regex_find_of(pattern@, case_insensitive, haystacks@[i]@) is None
            },
        forall|i: int|
            0 <= i < haystacks@.len() ==> ((#[trigger] r@[i]) matches Some((a, b)) ==> a <= b
                && on_boundary(haystacks@[i]@, a as nat) && on_boundary(haystacks@[i]@, b as nat)),
{
    let re = regex::RegexBuilder::new(pattern).case_insensitive(case_insensitive).build().unwrap();
    haystacks.iter().map(|h| re.find(h).map(|m| (m.start(), m.end()))).collect()
}

/// The text of capture group `group` in each successive non-overlapping match of
/// `pattern` in `haystack` (`None` where the group took no part in a match).
pub uninterp spec fn regex_group_texts(pattern: Seq<char>, group: nat, haystack: Seq<char>) -> Seq<Option<Seq<char>>>;

/// The views of a list of optional texts.
pub open spec fn option_texts(v: Seq<Option<String>>) -> Seq<Option<Seq<char>>> {
    v.map_values(|o: Option<String>| match o {
        Some(s) => Some(s@),
        None => None,
    })
}

/// `regex::Regex::captures_iter`, applied to each haystack with one compiled `pattern`:
/// group `group` of every match, in order.
#[verifier::external_body]
pub(crate) fn regex_group_each(pattern: &str, group: usize, haystacks: &[String]) -> (r: Vec<Vec<Option<String>>>)
    requires
        regex_valid(pattern@, false),
    ensures
        r@.len() == haystacks@.len(),
        forall|i: int|
            0 <= i < haystacks@.len() ==> option_texts((#[trigger] r@[i])@) == regex_group_texts(
                pattern@,
                group as nat,
                haystacks@[i]@,
            ),
{
    let re = regex::Regex::new(pattern).unwrap();
    haystacks.iter().map(|h| re.captures_iter(h).map(|c| c.get(group).map(|m| m.as_str().to_string())).collect()).collect()
}

/// A character with special meaning in a regular expression.
pub open spec fn is_meta_char(c: char) -> bool {
    c == '\\' || c == '.' || c == '+' || c == '*' || c == '?' || c == '(' || c == ')' || c == '|'
        || c == '[' || c == ']' || c == '{' || c == '}' || c == '^' || c == '$' || c == '#'
        || c == '&' || c == '-' || c == '~'
}

/// `text` with a backslash before every meta character: a pattern matching `text` literally.
pub open spec fn regex_escape_of(text: Seq<char>) -> Seq<char>
    decreases text.len(),
{
    if text.len() == 0 {
        Seq::empty()
    } else {
        regex_escape_of(text.drop_last()) + if is_meta_char(text.last()) {
            seq!['\\', text.last()]
        } else {
            seq![text.last()]
        }
    }
}

/// `regex::escape`: puts a backslash before every meta character.
#[verifier::external_body]
pub(crate) fn regex_escape(text: &str) -> (r: String)
    ensures
        r@ == regex_escape_of(text@),
{
    regex::escape(text)
}

} // verus!
