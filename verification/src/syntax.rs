//! Syntax trees: source text parsed by tree-sitter, held as plain values.
use crate::sitter::{
    grammar_accepted, new_parser, node_child, node_child_count, node_child_count_at, node_child_present_at,
    node_descendants_at, node_end_at, node_end_byte, node_end_row, node_end_row_at, node_error_at,
    node_field_at, node_field_name, node_has_error, node_is_named, node_kind, node_kind_at,
    node_named_at, node_start_at, node_start_byte, node_start_row, node_start_row_at, parse_text,
    root_node, set_language, str_range, string_opt_view, text_range, NodeAt,
};
use vstd::prelude::*;

verus! {

/// The grammars the extractor reads.
#[derive(Clone, Copy, PartialEq, Eq, Structural)]
pub enum Grammar {
    Rust,
    TypeScript,
    Tsx,
}

/// One node of a syntax tree: its kind, where it lies and what it spans, the field
/// it fills in its parent, and its children in order.
pub struct SyntaxNode {
    pub kind: String,
    pub named: bool,
    /// The node is or contains a syntax error.
    pub error: bool,
    pub start_byte: usize,
    pub end_byte: usize,
    /// 0-based rows of the first and last character.
    pub start_row: usize,
    pub end_row: usize,
    pub field: Option<String>,
    pub text: String,
    pub children: Vec<SyntaxNode>,
}

// ---------------------------------------------------------------- the tree

/// Indices below `count` at which the node at `path` has a child.
pub open spec fn present_children(grammar: Grammar, src: Seq<char>, path: Seq<int>, count: int) -> Seq<int>
    decreases count,
{
    if count <= 0 {
        seq![]
    } else {
        present_children(grammar, src, path, count - 1) + if node_child_present_at(
            grammar,
            src,
            path.push(count - 1),
        ) {
            seq![count - 1]
        } else {
            seq![]
        }
    }
}

/// `n` is the node at `path` of the tree for `grammar` and `src`, filling `field`,
/// with its whole subtree.
pub open spec fn is_tree_at(
    n: SyntaxNode,
    grammar: Grammar,
    src: Seq<char>,
    path: Seq<int>,
    field: Option<Seq<char>>,
) -> bool
    decreases n,
{
    let idx = present_children(grammar, src, path, node_child_count_at(grammar, src, path));
    &&& n.kind@ == node_kind_at(grammar, src, path)
    &&& n.named == node_named_at(grammar, src, path)
    &&& n.error == node_error_at(grammar, src, path)
    &&& n.start_byte == node_start_at(grammar, src, path)
    &&& n.end_byte == node_end_at(grammar, src, path)
    &&& n.start_row == node_start_row_at(grammar, src, path)
    &&& n.end_row == node_end_row_at(grammar, src, path)
    &&& string_opt_view(n.field) == field
    &&& n.text@ == match text_range(src, n.start_byte as int, n.end_byte as int) {
        Some(t) => t,
        None => seq![],
    }
    &&& n.children@.len() == idx.len()
    &&& forall|k: int|
        0 <= k < idx.len() ==> is_tree_at(
            #[trigger] n.children@[k],
            grammar,
            src,
            path.push(idx[k]),
            node_field_at(grammar, src, path.push(idx[k])),
        )
}

/// `root` is the syntax tree tree-sitter builds for `src` in `grammar`.
pub open spec fn syntax_tree(root: SyntaxNode, grammar: Grammar, src: Seq<char>) -> bool {
    is_tree_at(root, grammar, src, seq![], None)
}

/// The node as plain values, with its whole subtree.
fn convert(node: &NodeAt, src: &str, field: Option<String>) -> (r: SyntaxNode)
    requires
        node@.1 == src@,
    ensures
        is_tree_at(r, node@.0, node@.1, node@.2, string_opt_view(field)),
    decreases node_descendants_at(node@.0, node@.1, node@.2),
{
    let ghost g = node@.0;
    let ghost path = node@.2;
    let mut children: Vec<SyntaxNode> = Vec::new();
    let count = node_child_count(node);
    let mut i: u32 = 0;
    while i < count
        invariant
            i <= count,
            node@.1 == src@,
            g == node@.0,
            path == node@.2,
            count == node_child_count_at(g, src@, path),
            children@.len() == present_children(g, src@, path, i as int).len(),
            forall|k: int|
                0 <= k < children@.len() ==> is_tree_at(
                    #[trigger] children@[k],
                    g,
                    src@,
                    path.push(present_children(g, src@, path, i as int)[k]),
                    node_field_at(g, src@, path.push(present_children(g, src@, path, i as int)[k])),
                ),
        decreases count - i,
    {
        let ghost before = present_children(g, src@, path, i as int);
        if let Some(child) = node_child(node, i) {
            let name = node_field_name(node, i);
            let c = convert(&child, src, name);
            children.push(c);
            assert(present_children(g, src@, path, i + 1) =~= before.push(i as int));
        } else {
            assert(present_children(g, src@, path, i + 1) =~= before);
        }
        i += 1;
    }
    let start_byte = node_start_byte(node);
    let end_byte = node_end_byte(node);
    let text = match str_range(src, start_byte, end_byte) {
        Some(t) => t,
        None => String::new(),
    };
    SyntaxNode {
        kind: node_kind(node),
        named: node_is_named(node),
        error: node_has_error(node),
        start_byte,
        end_byte,
        start_row: node_start_row(node),
        end_row: node_end_row(node),
        field,
        text,
        children,
    }
}

/// Whether tree-sitter accepts the grammar's language.
pub fn grammar_loads(grammar: Grammar) -> (r: bool)
    ensures
        r == grammar_accepted(grammar),
{
    let mut parser = new_parser();
    set_language(&mut parser, grammar)
}

/// The syntax tree of `src` in `grammar`; `None` exactly when tree-sitter does
/// not accept the grammar's language.
pub fn parse(grammar: Grammar, src: &str) -> (r: Option<SyntaxNode>)
    ensures
        r is Some == grammar_accepted(grammar),
        r matches Some(root) ==> syntax_tree(root, grammar, src@) && root.field is None,
{
    let mut parser = new_parser();
    if !set_language(&mut parser, grammar) {
        return None;
    }
    match parse_text(&mut parser, src) {
        Some(tree) => {
            let root = root_node(&tree);
            Some(convert(&root, src, None))
        },
        None => None,
    }
}

/// The first child filling `field`.
pub open spec fn field_child(n: SyntaxNode, field: Seq<char>) -> Option<SyntaxNode> {
    field_from(n, field, 0)
}

/// The first child at or after index `i` filling `field`.
pub open spec fn field_from(n: SyntaxNode, field: Seq<char>, i: int) -> Option<SyntaxNode>
    decreases n.children@.len() - i,
{
    if i < 0 || i >= n.children@.len() {
        None
    } else if has_field(n.children@[i], field) {
        Some(n.children@[i])
    } else {
        field_from(n, field, i + 1)
    }
}

pub open spec fn has_field(n: SyntaxNode, field: Seq<char>) -> bool {
    n.field matches Some(f) && f@ == field
}

/// A field child is one of the children.
pub proof fn lemma_field_from_child(n: SyntaxNode, field: Seq<char>, i: int)
    ensures
        field_from(n, field, i) matches Some(c) ==> exists|j: int| 0 <= j < n.children@.len() && c == n.children@[j],
    decreases n.children@.len() - i,
{
    if 0 <= i < n.children@.len() && !has_field(n.children@[i], field) {
        lemma_field_from_child(n, field, i + 1);
    }
}

/// `n.field_child(field)`: the first child filling `field`.
pub fn child_by_field<'a>(n: &'a SyntaxNode, field: &str) -> (r: Option<&'a SyntaxNode>)
    ensures
        r matches Some(c) ==> field_child(*n, field@) == Some(*c),
        r is None ==> field_child(*n, field@) is None,
{
    let mut i: usize = 0;
    while i < n.children.len()
        invariant
            i <= n.children@.len(),
            field_child(*n, field@) == field_from(*n, field@, i as int),
        decreases n.children@.len() - i,
    {
        let c = &n.children[i];
        let hit = match &c.field {
            Some(f) => crate::text::str_eq(f.as_str(), field),
            None => false,
        };
        if hit {
            return Some(c);
        }
        i += 1;
    }
    None
}

} // verus!
