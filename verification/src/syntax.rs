//! Syntax trees from tree-sitter, read as a flat list of nodes.
//!
//! A parsed tree is held opaque; its nodes are fetched one by one, in the order of
//! tree-sitter's descendant indices (the root first), as plain values.
use crate::language::LanguageId;
use vstd::prelude::*;

verus! {

#[verifier::external_type_specification]
#[verifier::external_body]
pub struct ExTree(tree_sitter::Tree);

/// One node of a syntax tree, as plain values.
#[derive(Debug, Clone)]
pub struct SyntaxNode {
    /// The grammar's name for the node.
    pub kind: String,
    /// Named nodes stand for grammar rules; the others for literal tokens.
    pub named: bool,
    /// The field of the parent that holds this node, if any.
    pub field: Option<String>,
    pub start_byte: usize,
    pub end_byte: usize,
    /// 0-based rows of the first and last byte.
    pub start_row: usize,
    pub end_row: usize,
    /// Distance from the root (0 for the root).
    pub depth: usize,
    /// The node is, or contains, a syntax error.
    pub has_error: bool,
}

/// The mathematical view of a node.
pub struct NodeView {
    pub kind: Seq<char>,
    pub named: bool,
    pub field: Option<Seq<char>>,
    pub start_byte: nat,
    pub end_byte: nat,
    pub start_row: nat,
    pub end_row: nat,
    pub depth: nat,
    pub has_error: bool,
}

impl View for SyntaxNode {
    type V = NodeView;

    open spec fn view(&self) -> NodeView {
        NodeView {
            kind: self.kind@,
            named: self.named,
            field: match self.field {
                Some(f) => Some(f@),
                None => None,
            },
            start_byte: self.start_byte as nat,
            end_byte: self.end_byte as nat,
            start_row: self.start_row as nat,
            end_row: self.end_row as nat,
            depth: self.depth as nat,
            has_error: self.has_error,
        }
    }
}

/// The views of a list of nodes.
pub open spec fn node_views(v: Seq<SyntaxNode>) -> Seq<NodeView> {
    v.map_values(|n: SyntaxNode| n@)
}

/// Every node's bytes lie in order within a source of `len` bytes, and its first row is
/// not after its last.
pub open spec fn nodes_in_range(ns: Seq<NodeView>, len: nat) -> bool {
    forall|i: int|
        0 <= i < ns.len() ==> #[trigger] ns[i].start_byte <= ns[i].end_byte && ns[i].end_byte <= len
            && ns[i].start_row <= ns[i].end_row
}

/// The nodes of a parsed tree, by descendant index: index 0 is the root.
pub uninterp spec fn tree_nodes(t: tree_sitter::Tree) -> Seq<NodeView>;

/// What tree-sitter's parser makes of `source` in a language: the nodes of the tree, or
/// nothing when it returns no tree.
pub uninterp spec fn syntax_tree(lang: LanguageId, source: Seq<u8>) -> Option<Seq<NodeView>>;

/// `Parser::new`, `Parser::set_language` with the language's grammar (the `LANGUAGE`
/// of its `tree-sitter-*` crate; TypeScript and TSX both from `tree-sitter-typescript`)
/// and `Parser::parse` (no previous tree): the tree of `source`, or `None` when the
/// grammar is refused or no tree is returned. The tree's nodes are what `syntax_tree`
/// names; each covers a range of the parsed bytes, from its start to its end.
#[verifier::external_body]
fn parse_tree(lang: LanguageId, source: &[u8]) -> (r: Option<tree_sitter::Tree>)
    ensures
        match r {
            Some(t) => syntax_tree(lang, source@) == Some(tree_nodes(t)),
            None => syntax_tree(lang, source@) is None,
        },
        r matches Some(t) ==> nodes_in_range(tree_nodes(t), source@.len()),
{
    let grammar: tree_sitter::Language = match lang {
        LanguageId::Python => tree_sitter_python::LANGUAGE.into(),
        LanguageId::Java => tree_sitter_java::LANGUAGE.into(),
        LanguageId::JavaScript => tree_sitter_javascript::LANGUAGE.into(),
        LanguageId::TypeScript => tree_sitter_typescript::LANGUAGE_TYPESCRIPT.into(),
        LanguageId::Tsx => tree_sitter_typescript::LANGUAGE_TSX.into(),
        LanguageId::Rust => tree_sitter_rust::LANGUAGE.into(),
        LanguageId::Go => tree_sitter_go::LANGUAGE.into(),
    };
    let mut parser = tree_sitter::Parser::new();
    parser.set_language(&grammar).ok()?;
    parser.parse(source, None)
}

/// `Node::descendant_count` of the root: the number of nodes of the tree.
#[verifier::external_body]
fn node_count(t: &tree_sitter::Tree) -> (r: usize)
    ensures
        r == tree_nodes(*t).len(),
{
    t.root_node().descendant_count()
}

/// The node with descendant index `i` (`TreeCursor::goto_descendant` from the root), with
/// its kind, field name, byte range, rows, depth (`TreeCursor::depth`) and error flag
/// (`Node::has_error`). A node starts no later than it ends, in bytes and in rows.
#[verifier::external_body]
fn node_at(t: &tree_sitter::Tree, i: usize) -> (r: SyntaxNode)
    requires
        i < tree_nodes(*t).len(),
    ensures
        r@ == tree_nodes(*t)[i as int],
        r.start_byte <= r.end_byte,
        r.start_row <= r.end_row,
{
    let mut c = t.walk();
    c.goto_descendant(i);
    let n = c.node();
    SyntaxNode {
        kind: n.kind().to_string(),
        named: n.is_named(),
        field: c.field_name().map(|f| f.to_string()),
        start_byte: n.start_byte(),
        end_byte: n.end_byte(),
        start_row: n.start_position().row,
        end_row: n.end_position().row,
        depth: c.depth() as usize,
        has_error: n.has_error(),
    }
}

/// The nodes of `source` parsed in a language, or `None` when the parser returns no tree.
pub fn syntax_nodes(lang: LanguageId, source: &[u8]) -> (r: Option<Vec<SyntaxNode>>)
    ensures
        match r {
            Some(v) => syntax_tree(lang, source@) == Some(node_views(v@)),
            None => syntax_tree(lang, source@) is None,
        },
        r matches Some(v) ==> nodes_in_range(node_views(v@), source@.len()),
{
    let t = parse_tree(lang, source)?;
    let n = node_count(&t);
    let mut out: Vec<SyntaxNode> = Vec::new();
    let mut i: usize = 0;
    while i < n
        invariant
            n == tree_nodes(t).len(),
            i <= n,
            node_views(out@) == tree_nodes(t).take(i as int),
        decreases n - i,
    {
        let node = node_at(&t, i);
        let ghost before = out@;
        out.push(node);
        assert(out@ == before.push(node));
        assert(node_views(out@) =~= node_views(before).push(node@));
        assert(tree_nodes(t).take(i + 1) =~= tree_nodes(t).take(i as int).push(tree_nodes(t)[i as int]));
        i = i + 1;
    }
    assert(tree_nodes(t).take(n as int) =~= tree_nodes(t));
    Some(out)
}

/// The verdict of a syntax check: the parser returned a tree, and its root holds no error.
pub enum SyntaxVerdict {
    Clean,
    /// The tree contains a syntax error.
    Errors,
    /// The parser returned no tree.
    NoTree,
}

/// The verdict on a tree's nodes, by the root's error flag.
pub open spec fn verdict_of(tree: Option<Seq<NodeView>>) -> SyntaxVerdict {
    match tree {
        None => SyntaxVerdict::NoTree,
        Some(ns) => if ns.len() > 0 && ns[0].has_error {
            SyntaxVerdict::Errors
        } else {
            SyntaxVerdict::Clean
        },
    }
}

/// Parses `source` and reports whether it is free of syntax errors.
pub fn check_syntax(lang: LanguageId, source: &[u8]) -> (r: SyntaxVerdict)
    ensures
        r == verdict_of(syntax_tree(lang, source@)),
{
    match parse_tree(lang, source) {
        None => SyntaxVerdict::NoTree,
        Some(t) => {
            if node_count(&t) > 0 && node_at(&t, 0).has_error {
                SyntaxVerdict::Errors
            } else {
                SyntaxVerdict::Clean
            }
        },
    }
}

} // verus!
