//! The declarations of a source file, found in its syntax tree.
//!
//! The tree is read as its list of nodes in descendant order with their depths: the
//! parent of a node is the nearest node before it that is less deep.
use crate::digest::{sha256_hex, sha256_hex_of};
use crate::language::{kind_label, kind_label_of, str_views};
use crate::model::{Symbol, SymbolView, symbol_views};
use crate::syntax::{node_views, nodes_in_range, NodeView, SyntaxNode};
use crate::text::{chars_of, ends_with, is_white_space, join, lemma_join_push, string_from_chars, trim, trim_chars, utf8_text, white_space};
use vstd::prelude::*;
use vstd::utf8::{decode_utf8, valid_utf8};

verus! {

/// The last index `k <= j` whose node is less deep than node `i`, or -1.
pub open spec fn shallower_before(ns: Seq<NodeView>, i: int, j: int) -> int
    decreases j + 1,
{
    if j < 0 {
        -1
    } else if ns[j].depth < ns[i].depth {
        j
    } else {
        shallower_before(ns, i, j - 1)
    }
}

/// The parent of node `i`: the nearest node before it that is less deep, or -1.
pub open spec fn parent_of(ns: Seq<NodeView>, i: int) -> int {
    shallower_before(ns, i, i - 1)
}

/// What `shallower_before` returns: an index at most `j`, less deep than `i`, with every
/// node after it up to `j` at least as deep as `i`.
pub proof fn lemma_shallower(ns: Seq<NodeView>, i: int, j: int)
    requires
        -1 <= j < ns.len(),
        0 <= i < ns.len(),
    ensures
        -1 <= shallower_before(ns, i, j) <= j,
        shallower_before(ns, i, j) >= 0 ==> ns[shallower_before(ns, i, j)].depth < ns[i].depth,
        forall|k: int|
            shallower_before(ns, i, j) < k <= j && k >= 0 ==> #[trigger] ns[k].depth >= ns[i].depth,
    decreases j + 1,
{
    if j >= 0 && ns[j].depth >= ns[i].depth {
        lemma_shallower(ns, i, j - 1);
    }
}

/// Skipping nodes at least as deep as node `i` does not change the search.
proof fn lemma_shallower_skip(ns: Seq<NodeView>, i: int, a: int, b: int)
    requires
        -1 <= a <= b < ns.len(),
        0 <= i < ns.len(),
        forall|k: int| a < k <= b ==> #[trigger] ns[k].depth >= ns[i].depth,
    ensures
        shallower_before(ns, i, b) == shallower_before(ns, i, a),
    decreases b - a,
{
    if a < b {
        lemma_shallower_skip(ns, i, a, b - 1);
    }
}

/// A node after the end of `i`'s subtree (a node `e` no deeper than `i`) is not a child
/// of `i`.
pub proof fn lemma_not_child_after(ns: Seq<NodeView>, i: int, e: int, j: int)
    requires
        0 <= i < e < j < ns.len(),
        ns[e].depth <= ns[i].depth,
    ensures
        parent_of(ns, j) != i,
{
    lemma_shallower(ns, j, j - 1);
    let p = parent_of(ns, j);
    if p == i {
        assert(ns[e].depth >= ns[j].depth);
    }
}

/// The parent of every node, found by jumping from the previous node up its ancestors.
fn parents(nodes: &[SyntaxNode]) -> (r: Vec<Option<usize>>)
    ensures
        r@.len() == nodes@.len(),
        forall|i: int|
            0 <= i < nodes@.len() ==> match #[trigger] r@[i] {
                Some(p) => parent_of(node_views(nodes@), i) == p as int,
                None => parent_of(node_views(nodes@), i) == -1,
            },
{
    let ghost ns = node_views(nodes@);
    let n = nodes.len();
    let mut par: Vec<Option<usize>> = Vec::new();
    let mut i: usize = 0;
    while i < n
        invariant
            n == nodes@.len(),
            ns == node_views(nodes@),
            i <= n,
            par@.len() == i,
            forall|k: int|
                0 <= k < i ==> match #[trigger] par@[k] {
                    Some(p) => parent_of(ns, k) == p as int,
                    None => parent_of(ns, k) == -1,
                },
        decreases n - i,
    {
        let d = nodes[i].depth;
        assert(ns[i as int].depth == d);
        let mut cand: Option<usize> = if i == 0 {
            None
        } else {
            Some(i - 1)
        };
        loop
            invariant
                n == nodes@.len(),
                ns == node_views(nodes@),
                i < n,
                par@.len() == i,
                d == ns[i as int].depth,
                forall|k: int|
                    0 <= k < i ==> match #[trigger] par@[k] {
                        Some(p) => parent_of(ns, k) == p as int,
                        None => parent_of(ns, k) == -1,
                    },
                match cand {
                    Some(c) => c < i && parent_of(ns, i as int) == shallower_before(
                        ns,
                        i as int,
                        c as int,
                    ),
                    None => parent_of(ns, i as int) == -1,
                },
            ensures
                cand matches Some(c) ==> ns[c as int].depth < d,
            decreases match cand {
                Some(c) => c + 1,
                None => 0,
            },
        {
            match cand {
                None => {
                    break;
                },
                Some(c) => {
                    assert(ns[c as int].depth == nodes@[c as int].depth);
                    if nodes[c].depth < d {
                        break;
                    }
                    proof {
                        lemma_shallower(ns, c as int, c - 1);
                        let pc = shallower_before(ns, c as int, c - 1);
                        assert forall|k: int| pc < k <= c implies #[trigger] ns[k].depth
                            >= ns[i as int].depth by {
                            if k < c {
                                assert(ns[k].depth >= ns[c as int].depth);
                            }
                        }
                        lemma_shallower_skip(ns, i as int, pc, c as int);
                    }
                    cand = par[c];
                },
            }
        }
        proof {
            if let Some(c) = cand {
                assert(shallower_before(ns, i as int, c as int) == c);
            }
        }
        par.push(cand);
        i = i + 1;
    }
    par
}

/// Node `i` is reached from the root through named children only.
pub open spec fn visited(ns: Seq<NodeView>, i: int) -> bool
    decreases i,
{
    if i < 0 || i >= ns.len() {
        false
    } else if i == 0 {
        true
    } else {
        let p = parent_of(ns, i);
        if ns[i].named && p >= 0 {
            proof {
                lemma_shallower(ns, i, i - 1);
            }
            visited(ns, p)
        } else {
            false
        }
    }
}

/// The text of a node's bytes, when they lie in `src` and are UTF-8.
pub open spec fn node_text(src: Seq<u8>, n: NodeView) -> Option<Seq<char>> {
    if n.start_byte <= n.end_byte <= src.len() && valid_utf8(src.subrange(n.start_byte as int, n.end_byte as int)) {
        Some(decode_utf8(src.subrange(n.start_byte as int, n.end_byte as int)))
    } else {
        None
    }
}

/// A character that ends the name at the start of a declarator.
pub open spec fn name_separator(c: char) -> bool {
    white_space(c) || c == '(' || c == '<' || c == '='
}

/// The position of the first name separator in `t` at or after `k`, or the length.
pub open spec fn token_end(t: Seq<char>, k: int) -> int
    decreases t.len() - k,
{
    if k < 0 || k >= t.len() {
        t.len() as int
    } else if name_separator(t[k]) {
        k
    } else {
        token_end(t, k + 1)
    }
}

/// The first child, at index `j` or later, of node `i` that fills field `f`, or -1.
pub open spec fn field_child(ns: Seq<NodeView>, i: int, f: Seq<char>, j: int) -> int
    decreases ns.len() - j,
{
    if j < 0 || j >= ns.len() {
        -1
    } else if parent_of(ns, j) == i && ns[j].field == Some(f) {
        j
    } else {
        field_child(ns, i, f, j + 1)
    }
}

/// An identifier's node kind.
pub open spec fn identifier_kind(k: Seq<char>) -> bool {
    k == "identifier"@ || k == "type_identifier"@ || k == "property_identifier"@
}

/// One step of the search for a declaration's name.
pub enum NameStep {
    Found(Seq<char>),
    /// A candidate's text is not UTF-8: the declaration has no name.
    Abort,
    /// Nothing here: look further.
    Next,
}

/// The name in field `f` of node `i`: the field's text, trimmed, up to the first white
/// space, `(`, `<` or `=`.
pub open spec fn field_step(ns: Seq<NodeView>, src: Seq<u8>, i: int, f: Seq<char>) -> NameStep {
    let c = field_child(ns, i, f, i + 1);
    if c < 0 {
        NameStep::Next
    } else {
        match node_text(src, ns[c]) {
            None => NameStep::Abort,
            Some(t) => {
                let tt = trim(t);
                let token = tt.take(token_end(tt, 0));
                if tt.len() == 0 || token.len() == 0 {
                    NameStep::Next
                } else {
                    NameStep::Found(token)
                }
            },
        }
    }
}

/// The text of the first named identifier child of node `i` at index `j` or later that
/// is not empty.
pub open spec fn fallback_step(ns: Seq<NodeView>, src: Seq<u8>, i: int, j: int) -> NameStep
    decreases ns.len() - j,
{
    if j < 0 || j >= ns.len() {
        NameStep::Next
    } else if parent_of(ns, j) == i && ns[j].named && identifier_kind(ns[j].kind) {
        match node_text(src, ns[j]) {
            None => NameStep::Abort,
            Some(t) => if t.len() > 0 {
                NameStep::Found(t)
            } else {
                fallback_step(ns, src, i, j + 1)
            },
        }
    } else {
        fallback_step(ns, src, i, j + 1)
    }
}

/// The name of declaration node `i`: from its `name`, `declarator` or `type` field, in
/// that order, else from an identifier child.
pub open spec fn name_of(ns: Seq<NodeView>, src: Seq<u8>, i: int) -> Option<Seq<char>> {
    match field_step(ns, src, i, "name"@) {
        NameStep::Found(t) => Some(t),
        NameStep::Abort => None,
        NameStep::Next => match field_step(ns, src, i, "declarator"@) {
            NameStep::Found(t) => Some(t),
            NameStep::Abort => None,
            NameStep::Next => match field_step(ns, src, i, "type"@) {
                NameStep::Found(t) => Some(t),
                NameStep::Abort => None,
                NameStep::Next => match fallback_step(ns, src, i, i + 1) {
                    NameStep::Found(t) => Some(t),
                    _ => None,
                },
            },
        },
    }
}

/// Node `i` declares a symbol: it is reached, of a declaring kind, and has a name.
pub open spec fn declares(ns: Seq<NodeView>, src: Seq<u8>, kinds: Seq<Seq<char>>, i: int) -> bool {
    visited(ns, i) && kinds.contains(ns[i].kind) && name_of(ns, src, i) is Some
}

/// The names of the declarations that enclose node `i`, outermost first, with its own
/// name last when it declares one.
pub open spec fn name_chain(ns: Seq<NodeView>, src: Seq<u8>, kinds: Seq<Seq<char>>, i: int) -> Seq<
    Seq<char>,
>
    decreases i,
{
    if i < 0 || i >= ns.len() {
        Seq::empty()
    } else {
        let p = parent_of(ns, i);
        let up = if p >= 0 {
            proof {
                lemma_shallower(ns, i, i - 1);
            }
            name_chain(ns, src, kinds, p)
        } else {
            Seq::empty()
        };
        if declares(ns, src, kinds, i) {
            up.push(name_of(ns, src, i).unwrap())
        } else {
            up
        }
    }
}

/// A row as a 1-based line number (saturating).
pub open spec fn line_number(row: nat) -> nat {
    if row < usize::MAX {
        row + 1
    } else {
        row
    }
}

/// `src[a..b]`, or nothing when the range does not lie in `src`.
pub open spec fn byte_slice(src: Seq<u8>, a: nat, b: nat) -> Seq<u8> {
    if a <= b <= src.len() {
        src.subrange(a as int, b as int)
    } else {
        Seq::empty()
    }
}

/// The symbol declared by node `i` of a file at `path`.
pub open spec fn symbol_at(path: Seq<char>, ns: Seq<NodeView>, src: Seq<u8>, kinds: Seq<Seq<char>>, i: int) -> SymbolView {
    let q = join(name_chain(ns, src, kinds, i), "::"@);
    let n = ns[i];
    SymbolView {
        id: path + "::"@ + q,
        path,
        name: name_of(ns, src, i).unwrap(),
        qualified_name: q,
        kind: kind_label_of(n.kind),
        start_line: line_number(n.start_row),
        end_line: line_number(n.end_row),
        start_byte: n.start_byte,
        end_byte: n.end_byte,
        source_hash: sha256_hex_of(byte_slice(src, n.start_byte, n.end_byte)),
    }
}

/// The symbol node `i` declares, if any.
pub open spec fn symbol_step(path: Seq<char>, src: Seq<u8>, kinds: Seq<Seq<char>>, ns: Seq<NodeView>) -> spec_fn(int) -> Option<SymbolView> {
    |i: int|
        if declares(ns, src, kinds, i) {
            Some(symbol_at(path, ns, src, kinds, i))
        } else {
            None
        }
}

/// The node indices `0..n`.
pub open spec fn indices(n: nat) -> Seq<int> {
    Seq::new(n, |i: int| i)
}

/// The symbols of a file, in the order of their nodes.
pub open spec fn outline(path: Seq<char>, src: Seq<u8>, kinds: Seq<Seq<char>>, ns: Seq<NodeView>) -> Seq<SymbolView> {
    indices(ns.len()).filter_map(symbol_step(path, src, kinds, ns))
}

/// A well-formed symbol of the file at `path`: its id is the path and its qualified
/// name, its qualified name is its name or ends with `::` and its name, its lines
/// (1-based) and bytes run forward, and its kind is the label of a declaring kind.
pub open spec fn record_ok(s: SymbolView, path: Seq<char>, kinds: Seq<Seq<char>>) -> bool {
    &&& s.path == path
    &&& s.id == path + "::"@ + s.qualified_name
    &&& (s.qualified_name == s.name || ends_with(s.qualified_name, "::"@ + s.name))
    &&& 1 <= s.start_line <= s.end_line
    &&& s.start_byte <= s.end_byte
    &&& exists|k: Seq<char>| kinds.contains(k) && s.kind == kind_label_of(k)
}

/// Every symbol of a file's outline is well formed, lies within the file, and carries
/// the hash of its bytes.
pub proof fn lemma_outline_records(path: Seq<char>, src: Seq<u8>, kinds: Seq<Seq<char>>, ns: Seq<NodeView>)
    requires
        nodes_in_range(ns, src.len()),
    ensures
        forall|k: int|
            0 <= k < outline(path, src, kinds, ns).len() ==> {
                let s = #[trigger] outline(path, src, kinds, ns)[k];
                &&& record_ok(s, path, kinds)
                &&& s.end_byte <= src.len()
                &&& s.source_hash == sha256_hex_of(src.subrange(s.start_byte as int, s.end_byte as int))
            },
{
    let f = symbol_step(path, src, kinds, ns);
    let idx = indices(ns.len());
    let o = outline(path, src, kinds, ns);
    assert forall|k: int| 0 <= k < o.len() implies {
        let s = #[trigger] o[k];
        &&& record_ok(s, path, kinds)
        &&& s.end_byte <= src.len()
        &&& s.source_hash == sha256_hex_of(src.subrange(s.start_byte as int, s.end_byte as int))
    } by {
        let x = o[k];
        assert(o.contains(x));
        idx.lemma_filter_map_contains(f, x);
        let t = choose|t: int| #[trigger] idx.contains(t) && f(t) == Some(x);
        let j = choose|j: int| 0 <= j < idx.len() && idx[j] == t;
        assert(0 <= t < ns.len());
        assert(declares(ns, src, kinds, t));
        assert(x == symbol_at(path, ns, src, kinds, t));
        let n = ns[t];
        assert(n.start_byte <= n.end_byte && n.end_byte <= src.len() && n.start_row <= n.end_row);
        let name = name_of(ns, src, t).unwrap();
        let chain = name_chain(ns, src, kinds, t);
        let p = parent_of(ns, t);
        let up = if p >= 0 {
            name_chain(ns, src, kinds, p)
        } else {
            Seq::empty()
        };
        assert(chain == up.push(name));
        lemma_join_push(up, "::"@, name);
        if up.len() > 0 {
            let q = join(up, "::"@) + "::"@ + name;
            assert(q.skip(q.len() - ("::"@ + name).len()) =~= "::"@ + name);
        }
        assert(kinds.contains(n.kind));
    }
}

proof fn lemma_field_child_none(ns: Seq<NodeView>, i: int, f: Seq<char>, e: int, j: int)
    requires
        0 <= i < e <= j,
        e < ns.len(),
        ns[e].depth <= ns[i].depth,
    ensures
        field_child(ns, i, f, j) == -1,
    decreases ns.len() - j,
{
    if j < ns.len() {
        if j == e {
            lemma_shallower(ns, e, e - 1);
        } else {
            lemma_not_child_after(ns, i, e, j);
        }
        lemma_field_child_none(ns, i, f, e, j + 1);
    }
}

proof fn lemma_fallback_none(ns: Seq<NodeView>, src: Seq<u8>, i: int, e: int, j: int)
    requires
        0 <= i < e <= j,
        e < ns.len(),
        ns[e].depth <= ns[i].depth,
    ensures
        fallback_step(ns, src, i, j) == NameStep::Next,
    decreases ns.len() - j,
{
    if j < ns.len() {
        if j == e {
            lemma_shallower(ns, e, e - 1);
        } else {
            lemma_not_child_after(ns, i, e, j);
        }
        lemma_fallback_none(ns, src, i, e, j + 1);
    }
}

/// The outcome of one step of the name search.
enum Lookup {
    Found(Vec<char>),
    Abort,
    Next,
}

/// The mathematical view of a step's outcome.
spec fn lookup_view(l: Lookup) -> NameStep {
    match l {
        Lookup::Found(v) => NameStep::Found(v@),
        Lookup::Abort => NameStep::Abort,
        Lookup::Next => NameStep::Next,
    }
}

/// The text of a node's bytes.
fn text_of(source: &[u8], node: &SyntaxNode) -> (r: Option<Vec<char>>)
    ensures
        match r {
            Some(v) => node_text(source@, node@) == Some(v@),
            None => node_text(source@, node@) is None,
        },
{
    if node.start_byte <= node.end_byte && node.end_byte <= source.len() {
        let part = vstd::slice::slice_subrange(source, node.start_byte, node.end_byte);
        match utf8_text(part) {
            Some(t) => Some(chars_of(t.as_str())),
            None => None,
        }
    } else {
        None
    }
}

/// Whether a node fills the field named `f`.
fn in_field(node: &SyntaxNode, f: &str) -> (r: bool)
    ensures
        r == (node@.field == Some(f@)),
{
    match &node.field {
        Some(name) => crate::model::str_eq(name.as_str(), f),
        None => false,
    }
}

/// The first child of node `i` that fills field `f`.
fn find_field_child(nodes: &[SyntaxNode], par: &Vec<Option<usize>>, i: usize, f: &str) -> (r: Option<
    usize,
>)
    requires
        i < nodes@.len(),
        par@.len() == nodes@.len(),
        forall|k: int|
            0 <= k < nodes@.len() ==> match #[trigger] par@[k] {
                Some(p) => parent_of(node_views(nodes@), k) == p as int,
                None => parent_of(node_views(nodes@), k) == -1,
            },
    ensures
        match r {
            Some(c) => field_child(node_views(nodes@), i as int, f@, i + 1) == c as int && i < c
                < nodes@.len(),
            None => field_child(node_views(nodes@), i as int, f@, i + 1) == -1,
        },
{
    let ghost ns = node_views(nodes@);
    let n = nodes.len();
    let mut j = i + 1;
    while j < n && nodes[j].depth > nodes[i].depth
        invariant
            ns == node_views(nodes@),
            n == nodes@.len(),
            i < j <= n,
            par@.len() == nodes@.len(),
            forall|k: int|
                0 <= k < nodes@.len() ==> match #[trigger] par@[k] {
                    Some(p) => parent_of(ns, k) == p as int,
                    None => parent_of(ns, k) == -1,
                },
            field_child(ns, i as int, f@, i + 1) == field_child(ns, i as int, f@, j as int),
        decreases n - j,
    {
        let is_child = match par[j] {
            Some(p) => p == i,
            None => false,
        };
        assert(is_child == (parent_of(ns, j as int) == i)) by {
            assert(match par@[j as int] {
                Some(p) => parent_of(ns, j as int) == p as int,
                None => parent_of(ns, j as int) == -1,
            });
        }
        if is_child && in_field(&nodes[j], f) {
            return Some(j);
        }
        j = j + 1;
    }
    proof {
        if j < n {
            assert(ns[j as int].depth <= ns[i as int].depth);
            lemma_field_child_none(ns, i as int, f@, j as int, j as int);
        }
    }
    None
}

/// The position of the first name separator in `t`, or its length.
fn token_end_exec(t: &Vec<char>) -> (r: usize)
    ensures
        r == token_end(t@, 0),
{
    let mut k: usize = 0;
    while k < t.len() && !(is_white_space(t[k]) || t[k] == '(' || t[k] == '<' || t[k] == '=')
        invariant
            k <= t@.len(),
            token_end(t@, 0) == token_end(t@, k as int),
        decreases t@.len() - k,
    {
        k = k + 1;
    }
    k
}

/// The name held in field `f` of node `i`.
fn field_lookup(nodes: &[SyntaxNode], par: &Vec<Option<usize>>, source: &[u8], i: usize, f: &str) -> (r:
    Lookup)
    requires
        i < nodes@.len(),
        par@.len() == nodes@.len(),
        forall|k: int|
            0 <= k < nodes@.len() ==> match #[trigger] par@[k] {
                Some(p) => parent_of(node_views(nodes@), k) == p as int,
                None => parent_of(node_views(nodes@), k) == -1,
            },
    ensures
        lookup_view(r) == field_step(node_views(nodes@), source@, i as int, f@),
{
    let ghost ns = node_views(nodes@);
    match find_field_child(nodes, par, i, f) {
        None => Lookup::Next,
        Some(c) => {
            assert(nodes@[c as int]@ == ns[c as int]);
            match text_of(source, &nodes[c]) {
                None => Lookup::Abort,
                Some(t) => {
                    let tt = trim_chars(&t);
                    let e = token_end_exec(&tt);
                    if tt.len() == 0 || e == 0 {
                        proof {
                            if tt@.len() > 0 {
                                assert(tt@.take(0) =~= Seq::<char>::empty());
                            }
                        }
                        Lookup::Next
                    } else {
                        let mut token: Vec<char> = Vec::new();
                        let mut k: usize = 0;
                        proof {
                            lemma_token_end_bound(tt@, 0);
                        }
                        while k < e
                            invariant
                                e <= tt@.len(),
                                k <= e,
                                token@ == tt@.take(k as int),
                            decreases e - k,
                        {
                            token.push(tt[k]);
                            assert(tt@.take(k + 1) =~= tt@.take(k as int).push(tt@[k as int]));
                            k = k + 1;
                        }
                        Lookup::Found(token)
                    }
                },
            }
        },
    }
}

proof fn lemma_token_end_bound(t: Seq<char>, k: int)
    requires
        0 <= k <= t.len(),
    ensures
        k <= token_end(t, k) <= t.len(),
    decreases t.len() - k,
{
    if k < t.len() && !name_separator(t[k]) {
        lemma_token_end_bound(t, k + 1);
    }
}

/// Whether a node kind is an identifier's.
fn is_identifier_kind(k: &str) -> (r: bool)
    ensures
        r == identifier_kind(k@),
{
    crate::model::str_eq(k, "identifier") || crate::model::str_eq(k, "type_identifier")
        || crate::model::str_eq(k, "property_identifier")
}

/// The text of the first named identifier child of node `i` that is not empty.
fn fallback_lookup(nodes: &[SyntaxNode], par: &Vec<Option<usize>>, source: &[u8], i: usize) -> (r:
    Lookup)
    requires
        i < nodes@.len(),
        par@.len() == nodes@.len(),
        forall|k: int|
            0 <= k < nodes@.len() ==> match #[trigger] par@[k] {
                Some(p) => parent_of(node_views(nodes@), k) == p as int,
                None => parent_of(node_views(nodes@), k) == -1,
            },
    ensures
        lookup_view(r) == fallback_step(node_views(nodes@), source@, i as int, i + 1),
{
    let ghost ns = node_views(nodes@);
    let n = nodes.len();
    let mut j = i + 1;
    while j < n && nodes[j].depth > nodes[i].depth
        invariant
            ns == node_views(nodes@),
            n == nodes@.len(),
            i < j <= n,
            par@.len() == nodes@.len(),
            forall|k: int|
                0 <= k < nodes@.len() ==> match #[trigger] par@[k] {
                    Some(p) => parent_of(ns, k) == p as int,
                    None => parent_of(ns, k) == -1,
                },
            fallback_step(ns, source@, i as int, i + 1) == fallback_step(ns, source@, i as int, j as int),
        decreases n - j,
    {
        let is_child = match par[j] {
            Some(p) => p == i,
            None => false,
        };
        assert(is_child == (parent_of(ns, j as int) == i)) by {
            assert(match par@[j as int] {
                Some(p) => parent_of(ns, j as int) == p as int,
                None => parent_of(ns, j as int) == -1,
            });
        }
        assert(nodes@[j as int]@ == ns[j as int]);
        if is_child && nodes[j].named && is_identifier_kind(nodes[j].kind.as_str()) {
            match text_of(source, &nodes[j]) {
                None => {
                    return Lookup::Abort;
                },
                Some(t) => {
                    if t.len() > 0 {
                        return Lookup::Found(t);
                    }
                },
            }
        }
        j = j + 1;
    }
    proof {
        if j < n {
            assert(ns[j as int].depth <= ns[i as int].depth);
            lemma_fallback_none(ns, source@, i as int, j as int, j as int);
        }
    }
    Lookup::Next
}

/// The name of declaration node `i`.
fn declaration_name(nodes: &[SyntaxNode], par: &Vec<Option<usize>>, source: &[u8], i: usize) -> (r:
    Option<Vec<char>>)
    requires
        i < nodes@.len(),
        par@.len() == nodes@.len(),
        forall|k: int|
            0 <= k < nodes@.len() ==> match #[trigger] par@[k] {
                Some(p) => parent_of(node_views(nodes@), k) == p as int,
                None => parent_of(node_views(nodes@), k) == -1,
            },
    ensures
        match r {
            Some(v) => name_of(node_views(nodes@), source@, i as int) == Some(v@),
            None => name_of(node_views(nodes@), source@, i as int) is None,
        },
{
    match field_lookup(nodes, par, source, i, "name") {
        Lookup::Found(t) => {
            return Some(t);
        },
        Lookup::Abort => {
            return None;
        },
        Lookup::Next => {},
    }
    match field_lookup(nodes, par, source, i, "declarator") {
        Lookup::Found(t) => {
            return Some(t);
        },
        Lookup::Abort => {
            return None;
        },
        Lookup::Next => {},
    }
    match field_lookup(nodes, par, source, i, "type") {
        Lookup::Found(t) => {
            return Some(t);
        },
        Lookup::Abort => {
            return None;
        },
        Lookup::Next => {},
    }
    match fallback_lookup(nodes, par, source, i) {
        Lookup::Found(t) => Some(t),
        _ => None,
    }
}

/// Whether `k` is one of `kinds`.
fn kind_in(kinds: &[&str], k: &str) -> (r: bool)
    ensures
        r == str_views(kinds@).contains(k@),
{
    let mut i: usize = 0;
    while i < kinds.len()
        invariant
            i <= kinds@.len(),
            forall|j: int| 0 <= j < i ==> kinds@[j]@ != k@,
        decreases kinds@.len() - i,
    {
        if crate::model::str_eq(kinds[i], k) {
            assert(str_views(kinds@)[i as int] == k@);
            return true;
        }
        i = i + 1;
    }
    assert forall|j: int| 0 <= j < str_views(kinds@).len() implies str_views(kinds@)[j] != k@ by {
        assert(str_views(kinds@)[j] == kinds@[j]@);
    }
    false
}

/// A row as a 1-based line number.
fn line_of(row: usize) -> (r: usize)
    ensures
        r == line_number(row as nat),
{
    if row < usize::MAX {
        row + 1
    } else {
        row
    }
}

/// The hash of a node's bytes (of nothing when they do not lie in `source`).
fn node_hash(source: &[u8], node: &SyntaxNode) -> (r: String)
    ensures
        r@ == sha256_hex_of(byte_slice(source@, node.start_byte as nat, node.end_byte as nat)),
{
    if node.start_byte <= node.end_byte && node.end_byte <= source.len() {
        sha256_hex(vstd::slice::slice_subrange(source, node.start_byte, node.end_byte))
    } else {
        let none: Vec<u8> = Vec::new();
        assert(none@ =~= Seq::<u8>::empty());
        sha256_hex(none.as_slice())
    }
}

/// `a`, then `::`, then `b`.
fn scoped(a: &[char], b: &[char]) -> (r: Vec<char>)
    ensures
        r@ == a@ + "::"@ + b@,
{
    let mut v: Vec<char> = Vec::new();
    crate::text::append(&mut v, a);
    v.push(':');
    v.push(':');
    crate::text::append(&mut v, b);
    assert(v@ =~= a@ + "::"@ + b@) by {
        reveal_strlit("::");
    }
    v
}

/// The symbols declared in a file's syntax tree (`nodes`, in descendant order), for a
/// file at `path` with bytes `source` and declaring node kinds `kinds`.
pub fn outline_symbols(path: &str, source: &[u8], kinds: &[&str], nodes: &[SyntaxNode]) -> (r: Vec<
    Symbol,
>)
    ensures
        symbol_views(r@) == outline(path@, source@, str_views(kinds@), node_views(nodes@)),
{
    let ghost ns = node_views(nodes@);
    let ghost ks = str_views(kinds@);
    let ghost f = symbol_step(path@, source@, ks, ns);
    let ghost idx = indices(ns.len());
    let n = nodes.len();
    let par = parents(nodes);
    let path_chars = chars_of(path);
    let mut vis: Vec<bool> = Vec::new();
    let mut owner: Vec<Option<usize>> = Vec::new();
    let mut out: Vec<Symbol> = Vec::new();
    let mut i: usize = 0;
    assert(idx.take(0) =~= Seq::<int>::empty());
    while i < n
        invariant
            n == nodes@.len(),
            ns == node_views(nodes@),
            ks == str_views(kinds@),
            f == symbol_step(path@, source@, ks, ns),
            idx == indices(ns.len()),
            path_chars@ == path@,
            i <= n,
            par@.len() == n,
            forall|k: int|
                0 <= k < nodes@.len() ==> match #[trigger] par@[k] {
                    Some(p) => parent_of(ns, k) == p as int,
                    None => parent_of(ns, k) == -1,
                },
            vis@.len() == i,
            owner@.len() == i,
            forall|k: int| 0 <= k < i ==> #[trigger] vis@[k] == visited(ns, k),
            forall|k: int|
                0 <= k < i ==> match #[trigger] owner@[k] {
                    Some(o) => o < out@.len() && out@[o as int].qualified_name@ == join(
                        name_chain(ns, source@, ks, k),
                        "::"@,
                    ) && name_chain(ns, source@, ks, k).len() > 0,
                    None => name_chain(ns, source@, ks, k).len() == 0,
                },
            symbol_views(out@) == idx.take(i as int).filter_map(f),
        decreases n - i,
    {
        let p = par[i];
        proof {
            lemma_shallower(ns, i as int, i - 1);
            assert(match par@[i as int] {
                Some(q) => parent_of(ns, i as int) == q as int,
                None => parent_of(ns, i as int) == -1,
            });
            idx.lemma_filter_map_take_succ(f, i as int);
            assert(idx[i as int] == i);
            assert(nodes@[i as int]@ == ns[i as int]);
        }
        let v = if i == 0 {
            true
        } else {
            match p {
                Some(q) => nodes[i].named && vis[q],
                None => false,
            }
        };
        assert(v == visited(ns, i as int));
        let name = if v && kind_in(kinds, nodes[i].kind.as_str()) {
            declaration_name(nodes, &par, source, i)
        } else {
            None
        };
        assert(name is Some <==> declares(ns, source@, ks, i as int));
        let up: Option<usize> = match p {
            Some(q) => owner[q],
            None => None,
        };
        proof {
            let pp = parent_of(ns, i as int);
            if pp >= 0 {
                assert(up == owner@[pp]);
            }
        }
        match name {
            Some(nm) => {
                let qualified: Vec<char> = match up {
                    None => nm.clone(),
                    Some(o) => scoped(chars_of(out[o].qualified_name.as_str()).as_slice(), nm.as_slice()),
                };
                proof {
                    let pp = parent_of(ns, i as int);
                    let chain_p = if pp >= 0 {
                        name_chain(ns, source@, ks, pp)
                    } else {
                        Seq::empty()
                    };
                    assert(name_chain(ns, source@, ks, i as int) == chain_p.push(nm@));
                    lemma_join_push(chain_p, "::"@, nm@);
                    if up is None {
                        assert(chain_p =~= Seq::<Seq<char>>::empty());
                    }
                }
                let node = &nodes[i];
                let sym = Symbol {
                    id: string_from_chars(scoped(path_chars.as_slice(), qualified.as_slice()).as_slice()),
                    path: path.to_string(),
                    name: string_from_chars(nm.as_slice()),
                    qualified_name: string_from_chars(qualified.as_slice()),
                    kind: kind_label(node.kind.as_str()),
                    start_line: line_of(node.start_row),
                    end_line: line_of(node.end_row),
                    start_byte: node.start_byte,
                    end_byte: node.end_byte,
                    source_hash: node_hash(source, node),
                };
                assert(sym@ == symbol_at(path@, ns, source@, ks, i as int));
                let ghost before = out@;
                out.push(sym);
                assert(symbol_views(out@) =~= symbol_views(before).push(sym@));
                owner.push(Some(out.len() - 1));
            },
            None => {
                proof {
                    let pp = parent_of(ns, i as int);
                    if pp >= 0 {
                        assert(name_chain(ns, source@, ks, i as int) == name_chain(ns, source@, ks, pp));
                    } else {
                        assert(name_chain(ns, source@, ks, i as int) =~= Seq::<Seq<char>>::empty());
                    }
                }
                owner.push(up);
            },
        }
        vis.push(v);
        i = i + 1;
    }
    assert(idx.take(n as int) =~= idx);
    out
}

} // verus!
