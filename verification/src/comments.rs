//! Comments leave a callable's shape unchanged.
use crate::normalized::{
    BindingView, bind_spec, binding_from, bound, callable_bindings, child_scope, decl_here,
    decl_list, decl_node, emit_list, emit_node, emit_opt, function_spec, has_async, increasing,
    is_eval_call, leaf_token, opaque_scope, params_list, params_of, pattern_of, shift_bs,
    shift_opt, shift_scope, visible,
};
use crate::renaming::{field_view, fresh, law_renaming_keeps_shape, leaves_bound, renamed};
use crate::syntax::{SyntaxNode, field_child, field_from, has_field};
use vstd::prelude::*;

verus! {

/// A comment as the parser places it: a leaf that fills no field.
pub open spec fn comment_leaf(n: SyntaxNode) -> bool {
    n.kind@ == "comment"@ && n.children@.len() == 0 && n.field is None
}

/// Tree `b` is tree `a` with comment leaves added among the children of nodes
/// that have children, and with every byte offset `p` moved to `m(p)`.
pub open spec fn commented(a: SyntaxNode, b: SyntaxNode, m: spec_fn(int) -> int) -> bool
    decreases a, b.children@.len() + 1,
{
    &&& b.kind@ == a.kind@
    &&& b.named == a.named
    &&& b.error == a.error
    &&& b.start_byte as int == m(a.start_byte as int)
    &&& b.end_byte as int == m(a.end_byte as int)
    &&& field_view(b.field) == field_view(a.field)
    &&& b.text@ == a.text@
    &&& (a.children@.len() == 0 ==> b.children@.len() == 0)
    &&& commented_list(a, b, a.children@.len() as int, b.children@.len() as int, m)
}

/// The first `j` children of `b` are the first `i` children of `a`, each commented,
/// with comment leaves between them.
pub open spec fn commented_list(a: SyntaxNode, b: SyntaxNode, i: int, j: int, m: spec_fn(int) -> int) -> bool
    decreases a, j,
{
    if j <= 0 {
        i == 0
    } else if j > b.children@.len() {
        false
    } else if 0 < i <= a.children@.len() && commented(a.children@[i - 1], b.children@[j - 1], m)
        && commented_list(a, b, i - 1, j - 1, m) {
        true
    } else {
        comment_leaf(b.children@[j - 1]) && commented_list(a, b, i, j - 1, m)
    }
}

/// Index of the first of the first `k` children of `n` that fills `field`.
pub open spec fn first_field(n: SyntaxNode, field: Seq<char>, k: int) -> Option<int>
    decreases k,
{
    if k <= 0 || k > n.children@.len() {
        None
    } else {
        match first_field(n, field, k - 1) {
            Some(x) => Some(x),
            None => if has_field(n.children@[k - 1], field) {
                Some(k - 1)
            } else {
                None
            },
        }
    }
}

// ---------------------------------------------------------------- fields

proof fn lemma_first_field(n: SyntaxNode, field: Seq<char>, k: int)
    requires
        0 <= k <= n.children@.len(),
    ensures
        first_field(n, field, k) is None ==> field_from(n, field, 0) == field_from(n, field, k),
        first_field(n, field, k) matches Some(x) ==> 0 <= x < k && field_from(n, field, 0) == Some(
            n.children@[x],
        ),
    decreases k,
{
    if k > 0 {
        lemma_first_field(n, field, k - 1);
    }
}

/// Whether the last pair of a child list is a child of `a` and its counterpart,
/// rather than an added comment.
pub open spec fn paired_last(a: SyntaxNode, b: SyntaxNode, i: int, j: int, m: spec_fn(int) -> int) -> bool {
    &&& 0 < i
    &&& commented(a.children@[i - 1], b.children@[j - 1], m)
    &&& commented_list(a, b, i - 1, j - 1, m)
}

proof fn lemma_first_field_commented(
    a: SyntaxNode,
    b: SyntaxNode,
    field: Seq<char>,
    i: int,
    j: int,
    m: spec_fn(int) -> int,
)
    requires
        commented_list(a, b, i, j, m),
        0 <= i <= a.children@.len(),
        0 <= j <= b.children@.len(),
    ensures
        match first_field(a, field, i) {
            None => first_field(b, field, j) is None,
            Some(x) => first_field(b, field, j) matches Some(y) && commented(
                a.children@[x],
                b.children@[y],
                m,
            ),
        },
    decreases j,
{
    if j > 0 {
        if paired_last(a, b, i, j, m) {
            lemma_first_field_commented(a, b, field, i - 1, j - 1, m);
            assert(has_field(a.children@[i - 1], field) == has_field(b.children@[j - 1], field));
        } else {
            lemma_first_field_commented(a, b, field, i, j - 1, m);
            assert(!has_field(b.children@[j - 1], field));
        }
    }
}

/// The field children of a tree and of the tree with comments correspond.
proof fn lemma_field_commented(a: SyntaxNode, b: SyntaxNode, field: Seq<char>, m: spec_fn(int) -> int)
    requires
        commented(a, b, m),
    ensures
        match field_child(a, field) {
            None => field_child(b, field) is None,
            Some(c) => field_child(b, field) matches Some(d) && commented(c, d, m),
        },
{
    lemma_first_field(a, field, a.children@.len() as int);
    lemma_first_field(b, field, b.children@.len() as int);
    lemma_first_field_commented(a, b, field, a.children@.len() as int, b.children@.len() as int, m);
}

proof fn lemma_async_commented(a: SyntaxNode, b: SyntaxNode, i: int, j: int, m: spec_fn(int) -> int)
    requires
        commented_list(a, b, i, j, m),
        0 <= i <= a.children@.len(),
        0 <= j <= b.children@.len(),
    ensures
        (exists|x: int| 0 <= x < i && #[trigger] a.children@[x].kind@ == "async"@) <==> (exists|y: int|
            0 <= y < j && #[trigger] b.children@[y].kind@ == "async"@),
    decreases j,
{
    if j > 0 {
        if paired_last(a, b, i, j, m) {
            lemma_async_commented(a, b, i - 1, j - 1, m);
            if exists|x: int| 0 <= x < i && #[trigger] a.children@[x].kind@ == "async"@ {
                let x = choose|x: int| 0 <= x < i && #[trigger] a.children@[x].kind@ == "async"@;
                if x == i - 1 {
                    assert(b.children@[j - 1].kind@ == "async"@);
                } else {
                    assert(exists|x: int| 0 <= x < i - 1 && #[trigger] a.children@[x].kind@ == "async"@);
                    let y = choose|y: int| 0 <= y < j - 1 && #[trigger] b.children@[y].kind@ == "async"@;
                    assert(b.children@[y].kind@ == "async"@);
                }
            }
            if exists|y: int| 0 <= y < j && #[trigger] b.children@[y].kind@ == "async"@ {
                let y = choose|y: int| 0 <= y < j && #[trigger] b.children@[y].kind@ == "async"@;
                if y == j - 1 {
                    assert(a.children@[i - 1].kind@ == "async"@);
                } else {
                    assert(exists|y: int| 0 <= y < j - 1 && #[trigger] b.children@[y].kind@ == "async"@);
                    let x = choose|x: int| 0 <= x < i - 1 && #[trigger] a.children@[x].kind@ == "async"@;
                    assert(a.children@[x].kind@ == "async"@);
                }
            }
        } else {
            assert(comment_leaf(b.children@[j - 1]));
            lemma_async_commented(a, b, i, j - 1, m);
            assert(b.children@[j - 1].kind@ != "async"@) by {
                reveal_strlit("comment");
                assert("comment"@.len() == 7);
                reveal_strlit("async");
                assert("async"@.len() == 5);
            }
            if exists|y: int| 0 <= y < j && #[trigger] b.children@[y].kind@ == "async"@ {
                let y = choose|y: int| 0 <= y < j && #[trigger] b.children@[y].kind@ == "async"@;
                assert(exists|y: int| 0 <= y < j - 1 && #[trigger] b.children@[y].kind@ == "async"@);
            }
            if exists|x: int| 0 <= x < i && #[trigger] a.children@[x].kind@ == "async"@ {
                let y = choose|y: int| 0 <= y < j - 1 && #[trigger] b.children@[y].kind@ == "async"@;
                assert(b.children@[y].kind@ == "async"@);
            }
        }
    }
}

// ---------------------------------------------------------------- positions

proof fn lemma_binding_from_shifted(bs: Seq<BindingView>, t: Seq<char>, pos: int, i: int, m: spec_fn(int) -> int)
    requires
        increasing(m),
    ensures
        binding_from(shift_bs(bs, m), t, m(pos), i) == binding_from(bs, t, pos, i),
    decreases bs.len() - i,
{
    if 0 <= i < bs.len() {
        let b = bs[i];
        assert(shift_bs(bs, m)[i] == (b.0, m(b.1), m(b.2)));
        assert((b.1 <= pos) == (m(b.1) <= m(pos))) by {
            if b.1 < pos {
                assert(m(b.1) < m(pos));
            } else if pos < b.1 {
                assert(m(pos) < m(b.1));
            }
        }
        assert((pos < b.2) == (m(pos) < m(b.2))) by {
            if pos < b.2 {
                assert(m(pos) < m(b.2));
            } else if b.2 < pos {
                assert(m(b.2) < m(pos));
            }
        }
        assert(visible(shift_bs(bs, m)[i], t, m(pos)) == visible(b, t, pos));
        lemma_binding_from_shifted(bs, t, pos, i + 1, m);
    }
}

proof fn lemma_bind_shifted(a: SyntaxNode, b: SyntaxNode, s: int, e: int, bs: Seq<BindingView>, m: spec_fn(int) -> int)
    requires
        b.kind@ == a.kind@,
        b.text@ == a.text@,
    ensures
        bind_spec(b, m(s), m(e), shift_bs(bs, m)) == shift_opt(bind_spec(a, s, e, bs), m),
{
    let sb = shift_bs(bs, m);
    if bound(bs, a.text@) {
        let i = choose|i: int| 0 <= i < bs.len() && #[trigger] bs[i].0 == a.text@;
        assert(sb[i].0 == a.text@);
    }
    if bound(sb, a.text@) {
        let i = choose|i: int| 0 <= i < sb.len() && #[trigger] sb[i].0 == a.text@;
        assert(bs[i].0 == a.text@);
    }
    assert(shift_bs(bs.push((a.text@, s, e)), m) =~= sb.push((a.text@, m(s), m(e))));
}

// ---------------------------------------------------------------- tokens

proof fn lemma_emit_commented(a: SyntaxNode, b: SyntaxNode, bs: Seq<BindingView>, m: spec_fn(int) -> int)
    requires
        commented(a, b, m),
        increasing(m),
    ensures
        emit_node(b, shift_bs(bs, m)) == emit_node(a, bs),
    decreases a, b.children@.len() + 1,
{
    if a.kind@ != "comment"@ && a.kind@ != ";"@ {
        if a.children@.len() > 0 {
            lemma_emit_list_commented(a, b, a.children@.len() as int, b.children@.len() as int, bs, m);
        } else {
            lemma_binding_from_shifted(bs, a.text@, a.start_byte as int, 0, m);
            assert(leaf_token(b, shift_bs(bs, m)) == leaf_token(a, bs));
        }
    }
}

proof fn lemma_emit_list_commented(
    a: SyntaxNode,
    b: SyntaxNode,
    i: int,
    j: int,
    bs: Seq<BindingView>,
    m: spec_fn(int) -> int,
)
    requires
        commented_list(a, b, i, j, m),
        increasing(m),
        0 <= i <= a.children@.len(),
        0 <= j <= b.children@.len(),
    ensures
        emit_list(b, j, shift_bs(bs, m)) == emit_list(a, i, bs),
    decreases a, j,
{
    if j > 0 {
        if paired_last(a, b, i, j, m) {
            lemma_emit_list_commented(a, b, i - 1, j - 1, bs, m);
            lemma_emit_commented(a.children@[i - 1], b.children@[j - 1], bs, m);
        } else {
            assert(comment_leaf(b.children@[j - 1]));
            lemma_emit_list_commented(a, b, i, j - 1, bs, m);
            let sb = shift_bs(bs, m);
            let c = b.children@[j - 1];
            assert(emit_node(c, sb) == (Seq::<Seq<char>>::empty(), 0int));
            let (t, l) = emit_list(b, j - 1, sb);
            assert(t + Seq::<Seq<char>>::empty() =~= t);
            assert(emit_list(b, j, sb) == (t + Seq::<Seq<char>>::empty(), l + 0));
        }
    }
}

// ---------------------------------------------------------------- declarations

proof fn lemma_here_commented(
    a: SyntaxNode,
    b: SyntaxNode,
    anc: Option<(int, int)>,
    bs: Seq<BindingView>,
    m: spec_fn(int) -> int,
)
    requires
        commented(a, b, m),
    ensures
        decl_here(b, shift_scope(anc, m), shift_bs(bs, m)) == shift_opt(decl_here(a, anc, bs), m),
{
    lemma_field_commented(a, b, "name"@, m);
    lemma_field_commented(a, b, "kind"@, m);
    lemma_field_commented(a, b, "left"@, m);
    lemma_field_commented(a, b, "parameter"@, m);
    lemma_field_commented(a, b, "function"@, m);
    assert(is_eval_call(b) == is_eval_call(a));
    let k = a.kind@;
    if k == "variable_declarator"@ {
        if let (Some(n1), Some(sc)) = (field_child(a, "name"@), anc) {
            lemma_bind_shifted(n1, field_child(b, "name"@)->0, sc.0, sc.1, bs, m);
        }
    } else if k == "for_in_statement"@ {
        if let Some(l1) = field_child(a, "left"@) {
            lemma_bind_shifted(l1, field_child(b, "left"@)->0, a.start_byte as int, a.end_byte as int, bs, m);
        }
    } else if k == "catch_clause"@ {
        if let Some(p1) = field_child(a, "parameter"@) {
            lemma_bind_shifted(p1, field_child(b, "parameter"@)->0, a.start_byte as int, a.end_byte as int, bs, m);
        }
    }
}

proof fn lemma_decl_commented(
    a: SyntaxNode,
    b: SyntaxNode,
    anc: Option<(int, int)>,
    bs: Seq<BindingView>,
    m: spec_fn(int) -> int,
)
    requires
        commented(a, b, m),
    ensures
        decl_node(b, shift_scope(anc, m), shift_bs(bs, m)) == shift_opt(decl_node(a, anc, bs), m),
    decreases a, b.children@.len() + 1,
{
    lemma_here_commented(a, b, anc, bs, m);
    assert(child_scope(b, shift_scope(anc, m)) == shift_scope(child_scope(a, anc), m));
    if let Some(b0) = decl_here(a, anc, bs) {
        lemma_decl_list_commented(
            a,
            b,
            a.children@.len() as int,
            b.children@.len() as int,
            child_scope(a, anc),
            b0,
            m,
        );
    }
}

proof fn lemma_comment_declares_nothing(c: SyntaxNode, anc: Option<(int, int)>, bs: Seq<BindingView>)
    requires
        comment_leaf(c),
    ensures
        decl_node(c, anc, bs) == Some(bs),
{
    assert(decl_here(c, anc, bs) == Some(bs)) by {
        assert(!opaque_scope(c.kind@)) by {
            reveal_strlit("comment");
            assert("comment"@.len() == 7);
            reveal_strlit("arrow_function");
            assert("arrow_function"@.len() == 14);
            reveal_strlit("function_expression");
            assert("function_expression"@.len() == 19);
            reveal_strlit("function_declaration");
            assert("function_declaration"@.len() == 20);
            reveal_strlit("generator_function");
            assert("generator_function"@.len() == 18);
            reveal_strlit("generator_function_declaration");
            assert("generator_function_declaration"@.len() == 30);
            reveal_strlit("class");
            assert("class"@.len() == 5);
            reveal_strlit("class_declaration");
            assert("class_declaration"@.len() == 17);
            reveal_strlit("method_definition");
            assert("method_definition"@.len() == 17);
            reveal_strlit("variable_declaration");
            assert("variable_declaration"@.len() == 20);
            reveal_strlit("with_statement");
            assert("with_statement"@.len() == 14);
        }
        reveal_strlit("comment");
        assert("comment"@.len() == 7);
        reveal_strlit("variable_declarator");
        assert("variable_declarator"@.len() == 19);
        reveal_strlit("for_in_statement");
        assert("for_in_statement"@.len() == 16);
        reveal_strlit("catch_clause");
        assert("catch_clause"@.len() == 12);
        reveal_strlit("call_expression");
        assert("call_expression"@.len() == 15);
    }
}

proof fn lemma_decl_list_commented(
    a: SyntaxNode,
    b: SyntaxNode,
    i: int,
    j: int,
    anc: Option<(int, int)>,
    bs: Seq<BindingView>,
    m: spec_fn(int) -> int,
)
    requires
        commented_list(a, b, i, j, m),
        0 <= i <= a.children@.len(),
        0 <= j <= b.children@.len(),
    ensures
        decl_list(b, j, shift_scope(anc, m), shift_bs(bs, m)) == shift_opt(decl_list(a, i, anc, bs), m),
    decreases a, j,
{
    if j > 0 {
        if paired_last(a, b, i, j, m) {
            lemma_decl_list_commented(a, b, i - 1, j - 1, anc, bs, m);
            if let Some(r) = decl_list(a, i - 1, anc, bs) {
                lemma_decl_commented(a.children@[i - 1], b.children@[j - 1], anc, r, m);
            }
        } else {
            assert(comment_leaf(b.children@[j - 1]));
            lemma_decl_list_commented(a, b, i, j - 1, anc, bs, m);
            if let Some(r) = decl_list(b, j - 1, shift_scope(anc, m), shift_bs(bs, m)) {
                lemma_comment_declares_nothing(b.children@[j - 1], shift_scope(anc, m), r);
            }
        }
    }
}

proof fn lemma_params_commented(
    a: SyntaxNode,
    b: SyntaxNode,
    i: int,
    j: int,
    s: int,
    e: int,
    bs: Seq<BindingView>,
    m: spec_fn(int) -> int,
)
    requires
        commented_list(a, b, i, j, m),
        0 <= i <= a.children@.len(),
        0 <= j <= b.children@.len(),
    ensures
        params_list(b, j, m(s), m(e), shift_bs(bs, m)) == shift_opt(params_list(a, i, s, e, bs), m),
    decreases j,
{
    if j > 0 {
        if paired_last(a, b, i, j, m) {
            lemma_params_commented(a, b, i - 1, j - 1, s, e, bs, m);
            let qa = a.children@[i - 1];
            let qb = b.children@[j - 1];
            lemma_field_commented(qa, qb, "pattern"@, m);
            lemma_field_commented(qa, qb, "name"@, m);
            assert(pattern_of(qa) is None == pattern_of(qb) is None);
            if let Some(r) = params_list(a, i - 1, s, e, bs) {
                if let Some(pa) = pattern_of(qa) {
                    lemma_bind_shifted(pa, pattern_of(qb)->0, s, e, r, m);
                }
            }
        } else {
            assert(comment_leaf(b.children@[j - 1]));
            lemma_params_commented(a, b, i, j - 1, s, e, bs, m);
        }
    }
}

// ---------------------------------------------------------------- the law

/// Comments change no shape: a callable with comments added anywhere (as the
/// parser places them, leaves among the children of a node that has children,
/// filling no field), and its text moved by the edit (every byte offset mapped by
/// one order-keeping map), has the shape it had before, the same tokens and leaf
/// count, or none either way.
pub proof fn law_comments_keep_shape(c1: SyntaxNode, c2: SyntaxNode, m: spec_fn(int) -> int)
    requires
        commented(c1, c2, m),
        increasing(m),
    ensures
        function_spec(c2) == function_spec(c1),
{
    lemma_field_commented(c1, c2, "body"@, m);
    lemma_field_commented(c1, c2, "name"@, m);
    lemma_field_commented(c1, c2, "parameters"@, m);
    lemma_field_commented(c1, c2, "parameter"@, m);
    lemma_field_commented(c1, c2, "return_type"@, m);
    lemma_async_commented(c1, c2, c1.children@.len() as int, c2.children@.len() as int, m);
    assert(has_async(c2) == has_async(c1));
    if let Some(body1) = field_child(c1, "body"@) {
        let body2 = field_child(c2, "body"@)->0;
        let s = c1.start_byte as int;
        let e = c1.end_byte as int;
        let empty = Seq::<BindingView>::empty();
        assert(shift_bs(empty, m) =~= empty);
        let b0 = match field_child(c1, "name"@) {
            Some(nm) => if nm.kind@ == "identifier"@ {
                bind_spec(nm, s, e, empty)
            } else {
                Some(empty)
            },
            None => Some(empty),
        };
        if let Some(nm) = field_child(c1, "name"@) {
            lemma_bind_shifted(nm, field_child(c2, "name"@)->0, s, e, empty, m);
        }
        if let Some(b0v) = b0 {
            if let Some(p) = params_of(c1) {
                let q = params_of(c2)->0;
                assert(commented(p, q, m));
                lemma_bind_shifted(p, q, s, e, b0v, m);
                lemma_params_commented(p, q, p.children@.len() as int, q.children@.len() as int, s, e, b0v, m);
            }
            let b1 = match params_of(c1) {
                None => Some(b0v),
                Some(p) => if p.kind@ == "identifier"@ {
                    bind_spec(p, s, e, b0v)
                } else {
                    params_list(p, p.children@.len() as int, s, e, b0v)
                },
            };
            if let Some(b1v) = b1 {
                lemma_decl_commented(body1, body2, None, b1v, m);
            }
        }
        assert(callable_bindings(c2, body2) == shift_opt(callable_bindings(c1, body1), m));
        if let Some(bs) = callable_bindings(c1, body1) {
            lemma_emit_commented(body1, body2, bs, m);
            if let Some(p) = params_of(c1) {
                lemma_emit_commented(p, params_of(c2)->0, bs, m);
            }
            if let Some(r) = field_child(c1, "return_type"@) {
                lemma_emit_commented(r, field_child(c2, "return_type"@)->0, bs, m);
            }
            assert(emit_opt(params_of(c2), shift_bs(bs, m)) == emit_opt(params_of(c1), bs));
            assert(emit_opt(field_child(c2, "return_type"@), shift_bs(bs, m)) == emit_opt(
                field_child(c1, "return_type"@),
                bs,
            ));
        }
    }
}

/// Renamed bindings and comments together: a callable whose declared name `x` is
/// renamed to an unused `y` (as `law_renaming_keeps_shape` asks) and which then
/// gains comments keeps the shape it had.
pub proof fn law_renamed_and_commented_keep_shape(
    c1: SyntaxNode,
    c2: SyntaxNode,
    c3: SyntaxNode,
    x: Seq<char>,
    y: Seq<char>,
    m1: spec_fn(int) -> int,
    m2: spec_fn(int) -> int,
)
    requires
        renamed(c1, c2, x, y, m1),
        fresh(c1, y),
        x != "eval"@,
        y != "eval"@,
        function_spec(c1) is Some,
        leaves_bound(c1, x, callable_bindings(c1, field_child(c1, "body"@)->0)->0),
        increasing(m1),
        commented(c2, c3, m2),
        increasing(m2),
    ensures
        function_spec(c3) == function_spec(c1),
{
    law_renaming_keeps_shape(c1, c2, x, y, m1);
    law_comments_keep_shape(c2, c3, m2);
}

} // verus!
