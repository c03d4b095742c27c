//! The tree-sitter side of parsing: a parser, the tree it builds and its nodes,
//! each value carrying the grammar, the text and (for a node) its path from the
//! root; only the wrappers below make or change one.
use crate::syntax::Grammar;
use vstd::prelude::*;

verus! {

#[verifier::external_type_specification]
#[verifier::external_body]
pub struct ExParser(tree_sitter::Parser);

#[verifier::external_type_specification]
#[verifier::external_body]
pub struct ExTree(tree_sitter::Tree);

#[verifier::external_type_specification]
#[verifier::external_body]
pub struct ExNode<'a>(tree_sitter::Node<'a>);


// ---------------------------------------------------------------- names
//
// A node of the tree that tree-sitter builds for a grammar and a source text is
// identified by its path: the child indices that lead to it from the root.

/// Whether `Parser::set_language` accepts the grammar's language (its ABI version
/// is one the tree-sitter crate supports).
pub uninterp spec fn grammar_accepted(grammar: Grammar) -> bool;

/// `Node::kind` of the node at `path`.
pub uninterp spec fn node_kind_at(grammar: Grammar, src: Seq<char>, path: Seq<int>) -> Seq<char>;

/// `Node::is_named` of the node at `path`.
pub uninterp spec fn node_named_at(grammar: Grammar, src: Seq<char>, path: Seq<int>) -> bool;

/// `Node::has_error` of the node at `path`.
pub uninterp spec fn node_error_at(grammar: Grammar, src: Seq<char>, path: Seq<int>) -> bool;

/// `Node::start_byte` of the node at `path`.
pub uninterp spec fn node_start_at(grammar: Grammar, src: Seq<char>, path: Seq<int>) -> int;

/// `Node::end_byte` of the node at `path`.
pub uninterp spec fn node_end_at(grammar: Grammar, src: Seq<char>, path: Seq<int>) -> int;

/// The row of `Node::start_position` of the node at `path`.
pub uninterp spec fn node_start_row_at(grammar: Grammar, src: Seq<char>, path: Seq<int>) -> int;

/// The row of `Node::end_position` of the node at `path`.
pub uninterp spec fn node_end_row_at(grammar: Grammar, src: Seq<char>, path: Seq<int>) -> int;

/// `Node::child_count` of the node at `path`.
pub uninterp spec fn node_child_count_at(grammar: Grammar, src: Seq<char>, path: Seq<int>) -> int;

/// Whether `Node::child` gives a node for the last index of `path` (from the node
/// at the rest of the path).
pub uninterp spec fn node_child_present_at(grammar: Grammar, src: Seq<char>, path: Seq<int>) -> bool;

/// `Node::field_name_for_child` for the last index of `path` (from the node at the
/// rest of the path).
pub uninterp spec fn node_field_at(grammar: Grammar, src: Seq<char>, path: Seq<int>) -> Option<Seq<char>>;

/// `str::get` of the byte range `start..end` of `src`.
pub uninterp spec fn text_range(src: Seq<char>, start: int, end: int) -> Option<Seq<char>>;

pub open spec fn string_opt_view(o: Option<String>) -> Option<Seq<char>> {
    match o {
        Some(s) => Some(s@),
        None => None,
    }
}

/// `Node::descendant_count` of the node at `path`: the node and all below it.
pub uninterp spec fn node_descendants_at(grammar: Grammar, src: Seq<char>, path: Seq<int>) -> nat;

// ---------------------------------------------------------------- handles

/// A parser and the grammar it has been given, if any.
pub struct GrammarParser {
    parser: tree_sitter::Parser,
    grammar: Ghost<Option<Grammar>>,
}

impl View for GrammarParser {
    type V = Option<Grammar>;

    closed spec fn view(&self) -> Option<Grammar> {
        self.grammar@
    }
}

/// The tree tree-sitter built for a grammar and a source text.
pub struct SourceTree {
    tree: tree_sitter::Tree,
    grammar: Ghost<Grammar>,
    src: Ghost<Seq<char>>,
}

impl View for SourceTree {
    type V = (Grammar, Seq<char>);

    closed spec fn view(&self) -> (Grammar, Seq<char>) {
        (self.grammar@, self.src@)
    }
}

/// A node of a `SourceTree`, with the tree's grammar and text and the node's path.
pub struct NodeAt<'t> {
    node: tree_sitter::Node<'t>,
    grammar: Ghost<Grammar>,
    src: Ghost<Seq<char>>,
    path: Ghost<Seq<int>>,
}

impl<'t> View for NodeAt<'t> {
    type V = (Grammar, Seq<char>, Seq<int>);

    closed spec fn view(&self) -> (Grammar, Seq<char>, Seq<int>) {
        (self.grammar@, self.src@, self.path@)
    }
}

// ---------------------------------------------------------------- wrappers

/// `tree_sitter::Parser::new`: a parser with no language.
#[verifier::external_body]
pub(crate) fn new_parser() -> (r: GrammarParser)
    ensures
        r@ is None,
{
    GrammarParser { parser: tree_sitter::Parser::new(), grammar: Ghost(None) }
}

/// `tree_sitter::Parser::set_language` with the grammar's language
/// (`Language::new` on the grammar crate's `LANGUAGE` constant); whether it was
/// accepted, as `grammar_accepted` names it. A refused language leaves the parser
/// as it was.
#[verifier::external_body]
pub(crate) fn set_language(p: &mut GrammarParser, grammar: Grammar) -> (r: bool)
    ensures
        r == grammar_accepted(grammar),
        final(p)@ == (if r { Some(grammar) } else { old(p)@ }),
{
    let language = match grammar {
        Grammar::Rust => tree_sitter::Language::new(tree_sitter_rust::LANGUAGE),
        Grammar::TypeScript => tree_sitter::Language::new(tree_sitter_typescript::LANGUAGE_TYPESCRIPT),
        Grammar::Tsx => tree_sitter::Language::new(tree_sitter_typescript::LANGUAGE_TSX),
    };
    let ok = p.parser.set_language(&language).is_ok();
    if ok {
        p.grammar = Ghost(Some(grammar));
    }
    ok
}

/// `tree_sitter::Parser::parse` of `src` with no earlier tree. It declines exactly
/// when the parser has no language; the tree is the one for the parser's grammar
/// and `src`.
#[verifier::external_body]
pub(crate) fn parse_text(p: &mut GrammarParser, src: &str) -> (r: Option<SourceTree>)
    ensures
        final(p)@ == old(p)@,
        r is Some == old(p)@ is Some,
        r matches Some(t) ==> t@ == (old(p)@->0, src@),
{
    match p.parser.parse(src, None) {
        Some(tree) => Some(SourceTree { tree, grammar: Ghost(p.grammar@->0), src: Ghost(src@) }),
        None => None,
    }
}

/// `tree_sitter::Tree::root_node`: the node at the empty path.
#[verifier::external_body]
pub(crate) fn root_node<'t>(t: &'t SourceTree) -> (r: NodeAt<'t>)
    ensures
        r@ == (t@.0, t@.1, Seq::<int>::empty()),
{
    NodeAt { node: t.tree.root_node(), grammar: t.grammar, src: t.src, path: Ghost(Seq::empty()) }
}

/// `tree_sitter::Node::kind`.
#[verifier::external_body]
pub(crate) fn node_kind(n: &NodeAt) -> (r: String)
    ensures
        r@ == node_kind_at(n@.0, n@.1, n@.2),
{
    n.node.kind().to_string()
}

/// `tree_sitter::Node::is_named`.
#[verifier::external_body]
pub(crate) fn node_is_named(n: &NodeAt) -> (r: bool)
    ensures
        r == node_named_at(n@.0, n@.1, n@.2),
{
    n.node.is_named()
}

/// `tree_sitter::Node::has_error`.
#[verifier::external_body]
pub(crate) fn node_has_error(n: &NodeAt) -> (r: bool)
    ensures
        r == node_error_at(n@.0, n@.1, n@.2),
{
    n.node.has_error()
}

/// `tree_sitter::Node::start_byte`.
#[verifier::external_body]
pub(crate) fn node_start_byte(n: &NodeAt) -> (r: usize)
    ensures
        r == node_start_at(n@.0, n@.1, n@.2),
{
    n.node.start_byte()
}

/// `tree_sitter::Node::end_byte`.
#[verifier::external_body]
pub(crate) fn node_end_byte(n: &NodeAt) -> (r: usize)
    ensures
        r == node_end_at(n@.0, n@.1, n@.2),
{
    n.node.end_byte()
}

/// The row of `tree_sitter::Node::start_position`.
#[verifier::external_body]
pub(crate) fn node_start_row(n: &NodeAt) -> (r: usize)
    ensures
        r == node_start_row_at(n@.0, n@.1, n@.2),
{
    n.node.start_position().row
}

/// The row of `tree_sitter::Node::end_position`.
#[verifier::external_body]
pub(crate) fn node_end_row(n: &NodeAt) -> (r: usize)
    ensures
        r == node_end_row_at(n@.0, n@.1, n@.2),
{
    n.node.end_position().row
}

/// `tree_sitter::Node::child_count`.
#[verifier::external_body]
pub(crate) fn node_child_count(n: &NodeAt) -> (r: u32)
    ensures
        r == node_child_count_at(n@.0, n@.1, n@.2),
{
    n.node.child_count()
}

/// `tree_sitter::Node::child`: the node at the path one step further, which has
/// fewer descendants than its parent.
#[verifier::external_body]
pub(crate) fn node_child<'t>(n: &NodeAt<'t>, i: u32) -> (r: Option<NodeAt<'t>>)
    ensures
        r is Some == node_child_present_at(n@.0, n@.1, n@.2.push(i as int)),
        r matches Some(c) ==> c@ == (n@.0, n@.1, n@.2.push(i as int)),
        r matches Some(c) ==> node_descendants_at(c@.0, c@.1, c@.2) < node_descendants_at(n@.0, n@.1, n@.2),
{
    match n.node.child(i) {
        Some(node) => Some(NodeAt { node, grammar: n.grammar, src: n.src, path: Ghost(n.path@.push(i as int)) }),
        None => None,
    }
}

/// `tree_sitter::Node::field_name_for_child`.
#[verifier::external_body]
pub(crate) fn node_field_name(n: &NodeAt, i: u32) -> (r: Option<String>)
    ensures
        string_opt_view(r) == node_field_at(n@.0, n@.1, n@.2.push(i as int)),
{
    match n.node.field_name_for_child(i) {
        Some(s) => Some(s.to_string()),
        None => None,
    }
}

/// `str::get` of the byte range `start..end`: `None` where the range runs past
/// `src` or does not fall on character boundaries.
#[verifier::external_body]
pub(crate) fn str_range(src: &str, start: usize, end: usize) -> (r: Option<String>)
    ensures
        string_opt_view(r) == text_range(src@, start as int, end as int),
{
    match src.get(start..end) {
        Some(t) => Some(t.to_string()),
        None => None,
    }
}

} // verus!
