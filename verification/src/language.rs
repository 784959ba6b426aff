//! The languages whose symbols are understood, recognised by file extension.
use crate::text::{chars_eq_str, lower, to_lower};
use vstd::prelude::*;

verus! {

/// A language with a syntax grammar.
#[derive(Debug, Clone, Copy, PartialEq, Eq, Structural)]
pub enum LanguageId {
    Python,
    Java,
    JavaScript,
    TypeScript,
    Tsx,
    Rust,
    Go,
}

/// The pieces of `s` between occurrences of `sep` (`str::split`).
pub open spec fn split_char(s: Seq<char>, sep: char) -> Seq<Seq<char>>
    decreases s.len(),
{
    if s.len() == 0 {
        seq![Seq::<char>::empty()]
    } else {
        let parts = split_char(s.drop_last(), sep);
        if s.last() == sep {
            parts.push(Seq::<char>::empty())
        } else {
            parts.update(parts.len() - 1, parts.last().push(s.last()))
        }
    }
}

/// Keeps a path component that names something: not empty and not `.`.
pub open spec fn named_component() -> spec_fn(Seq<char>) -> Option<Seq<char>> {
    |c: Seq<char>|
        if c.len() == 0 || c == "."@ {
            None
        } else {
            Some(c)
        }
}

/// The named components of a `/`-separated path: empty and `.` components dropped.
pub open spec fn path_components(p: Seq<char>) -> Seq<Seq<char>> {
    split_char(p, '/').filter_map(named_component())
}

/// The final component of a path, unless there is none or it is `..` (`Path::file_name`).
pub open spec fn file_name(p: Seq<char>) -> Option<Seq<char>> {
    let cs = path_components(p);
    if cs.len() == 0 || cs.last() == ".."@ {
        None
    } else {
        Some(cs.last())
    }
}

/// The position of the last `.` in `s`, or -1.
pub open spec fn last_dot(s: Seq<char>) -> int
    decreases s.len(),
{
    if s.len() == 0 {
        -1
    } else if s.last() == '.' {
        s.len() - 1
    } else {
        last_dot(s.drop_last())
    }
}

/// The extension of a path: what follows the last `.` of its file name, when that dot is
/// not the name's first character (`Path::extension`).
pub open spec fn extension(p: Seq<char>) -> Option<Seq<char>> {
    match file_name(p) {
        None => None,
        Some(name) => if last_dot(name) <= 0 {
            None
        } else {
            Some(name.skip(last_dot(name) + 1))
        },
    }
}

/// The language of an extension, in ASCII lower case.
pub open spec fn language_of_extension(e: Seq<char>) -> Option<LanguageId> {
    if e == "py"@ {
        Some(LanguageId::Python)
    } else if e == "java"@ {
        Some(LanguageId::Java)
    } else if e == "js"@ || e == "jsx"@ || e == "mjs"@ || e == "cjs"@ {
        Some(LanguageId::JavaScript)
    } else if e == "ts"@ {
        Some(LanguageId::TypeScript)
    } else if e == "tsx"@ {
        Some(LanguageId::Tsx)
    } else if e == "rs"@ {
        Some(LanguageId::Rust)
    } else if e == "go"@ {
        Some(LanguageId::Go)
    } else {
        None
    }
}

/// The language of a path, by its extension in any case.
pub open spec fn language_of(p: Seq<char>) -> Option<LanguageId> {
    language_of_extension(
        lower(
            match extension(p) {
                Some(e) => e,
                None => Seq::empty(),
            },
        ),
    )
}

/// The syntax node kinds that declare a symbol in each language.
pub open spec fn symbol_kinds_of(id: LanguageId) -> Seq<Seq<char>> {
    match id {
        LanguageId::Python => seq!["class_definition"@, "function_definition"@],
        LanguageId::Java => seq![
            "class_declaration"@,
            "interface_declaration"@,
            "enum_declaration"@,
            "record_declaration"@,
            "method_declaration"@,
            "constructor_declaration"@,
        ],
        LanguageId::JavaScript | LanguageId::TypeScript | LanguageId::Tsx => seq![
            "class_declaration"@,
            "function_declaration"@,
            "method_definition"@,
            "interface_declaration"@,
            "type_alias_declaration"@,
            "lexical_declaration"@,
        ],
        LanguageId::Rust => seq![
            "function_item"@,
            "struct_item"@,
            "enum_item"@,
            "trait_item"@,
            "impl_item"@,
            "type_item"@,
        ],
        LanguageId::Go => seq!["function_declaration"@, "method_declaration"@, "type_declaration"@],
    }
}

/// The texts of a list of string slices.
pub open spec fn str_views(v: Seq<&str>) -> Seq<Seq<char>> {
    v.map_values(|s: &str| s@)
}

/// `s` with every trailing repetition of `p` removed (`str::trim_end_matches`).
pub open spec fn trim_end_all(s: Seq<char>, p: Seq<char>) -> Seq<char>
    decreases s.len(),
{
    if p.len() > 0 && p.len() <= s.len() && s.skip(s.len() - p.len()) == p {
        trim_end_all(s.take(s.len() - p.len()), p)
    } else {
        s
    }
}

/// The label of a node kind: `_declaration`, `_definition` and `_item` endings removed,
/// underscores turned into spaces.
pub open spec fn kind_label_of(kind: Seq<char>) -> Seq<char> {
    trim_end_all(trim_end_all(trim_end_all(kind, "_declaration"@), "_definition"@), "_item"@).map_values(
        |c: char|
            if c == '_' {
                ' '
            } else {
                c
            },
    )
}

/// The pieces of `s` between occurrences of `sep`.
pub(crate) fn split_on_char(s: &[char], sep: char) -> (r: Vec<Vec<char>>)
    ensures
        r@.map_values(|l: Vec<char>| l@) == split_char(s@, sep),
{
    let mut done: Vec<Vec<char>> = Vec::new();
    let mut cur: Vec<char> = Vec::new();
    let mut i: usize = 0;
    assert(s@.take(0) =~= Seq::<char>::empty());
    while i < s.len()
        invariant
            i <= s@.len(),
            done@.map_values(|l: Vec<char>| l@) + seq![cur@] == split_char(s@.take(i as int), sep),
        decreases s@.len() - i,
    {
        let ghost prev = s@.take(i as int);
        let ghost old_done = done@.map_values(|l: Vec<char>| l@);
        assert(s@.take(i + 1).drop_last() =~= prev);
        assert(s@.take(i + 1).last() == s@[i as int]);
        if s[i] == sep {
            let c = cur;
            done.push(c);
            cur = Vec::new();
            assert(done@.map_values(|l: Vec<char>| l@) + seq![cur@] =~= (old_done + seq![c@]).push(
                Seq::<char>::empty(),
            ));
        } else {
            let ghost oc = cur@;
            cur.push(s[i]);
            assert(done@.map_values(|l: Vec<char>| l@) + seq![cur@] =~= (old_done + seq![oc]).update(
                old_done.len() as int,
                oc.push(s@[i as int]),
            ));
        }
        i = i + 1;
    }
    assert(s@.take(s@.len() as int) =~= s@);
    done.push(cur);
    assert(done@.map_values(|l: Vec<char>| l@) =~= split_char(s@, sep));
    done
}

/// The final named component of a `/`-separated path.
fn file_name_exec(p: &[char]) -> (r: Option<Vec<char>>)
    ensures
        match r {
            Some(v) => file_name(p@) == Some(v@),
            None => file_name(p@) is None,
        },
{
    let pieces = split_on_char(p, '/');
    let ghost pv = pieces@.map_values(|l: Vec<char>| l@);
    let ghost f = named_component();
    let mut last: Option<usize> = None;
    let mut i: usize = 0;
    assert(pv.take(0) =~= Seq::<Seq<char>>::empty());
    while i < pieces.len()
        invariant
            pv == pieces@.map_values(|l: Vec<char>| l@),
            f == named_component(),
            i <= pieces@.len(),
            match last {
                Some(j) => j < i && pv.take(i as int).filter_map(f).len() > 0 && pv.take(
                    i as int,
                ).filter_map(f).last() == pv[j as int],
                None => pv.take(i as int).filter_map(f).len() == 0,
            },
        decreases pieces@.len() - i,
    {
        proof {
            pv.lemma_filter_map_take_succ(f, i as int);
            assert(pv[i as int] == pieces@[i as int]@);
        }
        let named = !(pieces[i].len() == 0 || chars_eq_str(&pieces[i], "."));
        if named {
            last = Some(i);
        }
        i = i + 1;
    }
    assert(pv.take(pieces@.len() as int) =~= pv);
    match last {
        None => None,
        Some(j) => {
            if chars_eq_str(&pieces[j], "..") {
                None
            } else {
                Some(pieces[j].clone())
            }
        },
    }
}

/// The language of a path, by its extension (`identify`).
pub fn identify(path: &str) -> (r: Option<LanguageId>)
    ensures
        r == language_of(path@),
{
    let p = crate::text::chars_of(path);
    let ext: Vec<char> = match file_name_exec(&p) {
        None => Vec::new(),
        Some(name) => {
            let mut k = name.len();
            assert(name@.take(k as int) =~= name@);
            while k > 0 && name[k - 1] != '.'
                invariant
                    k <= name@.len(),
                    last_dot(name@) == last_dot(name@.take(k as int)),
                decreases k,
            {
                assert(name@.take(k as int).drop_last() =~= name@.take(k - 1));
                k = k - 1;
            }
            proof {
                if k == 0 {
                    assert(name@.take(0) =~= Seq::<char>::empty());
                } else {
                    assert(name@.take(k as int).last() == '.');
                }
                assert(name@.take(name@.len() as int) =~= name@);
            }
            if k <= 1 {
                Vec::new()
            } else {
                let mut e: Vec<char> = Vec::new();
                let mut j = k;
                while j < name.len()
                    invariant
                        k <= j <= name@.len(),
                        e@ == name@.subrange(k as int, j as int),
                    decreases name@.len() - j,
                {
                    e.push(name[j]);
                    assert(name@.subrange(k as int, j + 1) =~= name@.subrange(k as int, j as int).push(
                        name@[j as int],
                    ));
                    j = j + 1;
                }
                assert(e@ =~= name@.skip(k as int));
                e
            }
        },
    };
    let e = to_lower(&ext);
    if chars_eq_str(&e, "py") {
        Some(LanguageId::Python)
    } else if chars_eq_str(&e, "java") {
        Some(LanguageId::Java)
    } else if chars_eq_str(&e, "js") || chars_eq_str(&e, "jsx") || chars_eq_str(&e, "mjs")
        || chars_eq_str(&e, "cjs") {
        Some(LanguageId::JavaScript)
    } else if chars_eq_str(&e, "ts") {
        Some(LanguageId::TypeScript)
    } else if chars_eq_str(&e, "tsx") {
        Some(LanguageId::Tsx)
    } else if chars_eq_str(&e, "rs") {
        Some(LanguageId::Rust)
    } else if chars_eq_str(&e, "go") {
        Some(LanguageId::Go)
    } else {
        None
    }
}

/// The syntax node kinds that declare a symbol in a language.
pub fn symbol_kinds(id: LanguageId) -> (r: &'static [&'static str])
    ensures
        str_views(r@) == symbol_kinds_of(id),
{
    let r: &'static [&'static str] = match id {
        LanguageId::Python => &["class_definition", "function_definition"],
        LanguageId::Java => &[
            "class_declaration",
            "interface_declaration",
            "enum_declaration",
            "record_declaration",
            "method_declaration",
            "constructor_declaration",
        ],
        LanguageId::JavaScript | LanguageId::TypeScript | LanguageId::Tsx => &[
            "class_declaration",
            "function_declaration",
            "method_definition",
            "interface_declaration",
            "type_alias_declaration",
            "lexical_declaration",
        ],
        LanguageId::Rust => &[
            "function_item",
            "struct_item",
            "enum_item",
            "trait_item",
            "impl_item",
            "type_item",
        ],
        LanguageId::Go => &["function_declaration", "method_declaration", "type_declaration"],
    };
    assert(str_views(r@) =~= symbol_kinds_of(id));
    r
}

/// `s` with every trailing repetition of `p` removed.
fn trim_end_all_exec(s: Vec<char>, p: &str) -> (r: Vec<char>)
    ensures
        r@ == trim_end_all(s@, p@),
{
    let pv = crate::text::chars_of(p);
    let mut cur = s;
    loop
        invariant
            pv@ == p@,
            trim_end_all(s@, p@) == trim_end_all(cur@, p@),
        decreases cur@.len(),
    {
        let n = cur.len();
        if pv.len() > 0 && pv.len() <= n {
            let off = n - pv.len();
            let mut j: usize = 0;
            let mut same = true;
            while j < pv.len()
                invariant
                    off + pv@.len() == n,
                    n == cur@.len(),
                    j <= pv@.len(),
                    same == forall|q: int| 0 <= q < j ==> cur@[off + q] == pv@[q],
                decreases pv@.len() - j,
            {
                if cur[off + j] != pv[j] {
                    same = false;
                }
                j = j + 1;
            }
            if same {
                let ghost before = cur@;
                assert(before.skip(off as int) =~= pv@);
                cur.truncate(off);
                assert(cur@ =~= before.take(off as int));
                continue;
            } else {
                assert(cur@.skip(off as int) != pv@) by {
                    let q = choose|q: int| 0 <= q < pv@.len() && cur@[off + q] != pv@[q];
                    assert(cur@.skip(off as int)[q] == cur@[off + q]);
                }
                return cur;
            }
        }
        return cur;
    }
}

/// The label of a node kind.
pub fn kind_label(node_kind: &str) -> (r: String)
    ensures
        r@ == kind_label_of(node_kind@),
{
    let v = crate::text::chars_of(node_kind);
    let a = trim_end_all_exec(v, "_declaration");
    let b = trim_end_all_exec(a, "_definition");
    let c = trim_end_all_exec(b, "_item");
    let mut out: Vec<char> = Vec::new();
    let mut i: usize = 0;
    while i < c.len()
        invariant
            i <= c@.len(),
            out@ == c@.take(i as int).map_values(
                |ch: char|
                    if ch == '_' {
                        ' '
                    } else {
                        ch
                    },
            ),
        decreases c@.len() - i,
    {
        out.push(if c[i] == '_' {
            ' '
        } else {
            c[i]
        });
        assert(c@.take(i + 1).map_values(
            |ch: char|
                if ch == '_' {
                    ' '
                } else {
                    ch
                },
        ) =~= out@);
        i = i + 1;
    }
    assert(c@.take(c@.len() as int) =~= c@);
    crate::text::string_from_chars(&out)
}

} // verus!
