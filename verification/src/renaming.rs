//! Renaming a name that a callable declares leaves the callable's shape unchanged.
use crate::normalized::{
    BindingView, increasing, shift_scope, bind_spec, binding_at, binding_from, bound, callable_bindings, child_scope,
    decl_here, decl_list, decl_node, emit_list, emit_node, emit_opt, function_spec, has_async,
    is_eval_call, leaf_token, params_list, params_of, pattern_of, visible,
};
use crate::syntax::{SyntaxNode, field_child, field_from, has_field, lemma_field_from_child};
use vstd::prelude::*;

verus! {

/// `s`, with `x` spelled `y`.
pub open spec fn rename(s: Seq<char>, x: Seq<char>, y: Seq<char>) -> Seq<char> {
    if s == x {
        y
    } else {
        s
    }
}

pub open spec fn field_view(f: Option<String>) -> Option<Seq<char>> {
    match f {
        Some(s) => Some(s@),
        None => None,
    }
}

/// Tree `b` is tree `a` with every node whose text is exactly `x` spelled `y`.
pub open spec fn renamed(a: SyntaxNode, b: SyntaxNode, x: Seq<char>, y: Seq<char>, m: spec_fn(int) -> int) -> bool
    decreases a, a.children@.len() + 1,
{
    &&& b.kind@ == a.kind@
    &&& b.named == a.named
    &&& b.error == a.error
    &&& b.start_byte as int == m(a.start_byte as int)
    &&& b.end_byte as int == m(a.end_byte as int)
    &&& field_view(b.field) == field_view(a.field)
    &&& b.text@ == rename(a.text@, x, y)
    &&& b.children@.len() == a.children@.len()
    &&& renamed_list(a, b, a.children@.len() as int, x, y, m)
}

pub open spec fn renamed_list(a: SyntaxNode, b: SyntaxNode, k: int, x: Seq<char>, y: Seq<char>, m: spec_fn(int) -> int) -> bool
    decreases a, k,
{
    if k <= 0 || k > a.children@.len() || k > b.children@.len() {
        true
    } else {
        renamed_list(a, b, k - 1, x, y, m) && renamed(a.children@[k - 1], b.children@[k - 1], x, y, m)
    }
}

/// No node of `a` has text `y`.
pub open spec fn fresh(a: SyntaxNode, y: Seq<char>) -> bool
    decreases a, a.children@.len() + 1,
{
    a.text@ != y && fresh_list(a, a.children@.len() as int, y)
}

pub open spec fn fresh_list(a: SyntaxNode, k: int, y: Seq<char>) -> bool
    decreases a, k,
{
    if k <= 0 || k > a.children@.len() {
        true
    } else {
        fresh_list(a, k - 1, y) && fresh(a.children@[k - 1], y)
    }
}

/// Every leaf of `a` spelled `x` is an identifier that one of `bs` covers.
pub open spec fn leaves_bound(a: SyntaxNode, x: Seq<char>, bs: Seq<BindingView>) -> bool
    decreases a, a.children@.len() + 1,
{
    &&& (a.children@.len() == 0 && a.text@ == x ==> a.kind@ == "identifier"@ && binding_at(
        bs,
        x,
        a.start_byte as int,
    ) is Some)
    &&& leaves_bound_list(a, a.children@.len() as int, x, bs)
}

pub open spec fn leaves_bound_list(a: SyntaxNode, k: int, x: Seq<char>, bs: Seq<BindingView>) -> bool
    decreases a, k,
{
    if k <= 0 || k > a.children@.len() {
        true
    } else {
        leaves_bound_list(a, k - 1, x, bs) && leaves_bound(a.children@[k - 1], x, bs)
    }
}

pub open spec fn rename_bs(bs: Seq<BindingView>, x: Seq<char>, y: Seq<char>, m: spec_fn(int) -> int) -> Seq<BindingView> {
    bs.map_values(|b: BindingView| (rename(b.0, x, y), m(b.1), m(b.2)))
}

pub open spec fn no_name(bs: Seq<BindingView>, y: Seq<char>) -> bool {
    forall|i: int| 0 <= i < bs.len() ==> #[trigger] bs[i].0 != y
}

pub open spec fn opt_rename(o: Option<Seq<BindingView>>, x: Seq<char>, y: Seq<char>, m: spec_fn(int) -> int) -> Option<Seq<BindingView>> {
    match o {
        Some(r) => Some(rename_bs(r, x, y, m)),
        None => None,
    }
}

// ---------------------------------------------------------------- children

proof fn lemma_renamed_child(a: SyntaxNode, b: SyntaxNode, x: Seq<char>, y: Seq<char>, k: int, i: int, m: spec_fn(int) -> int)
    requires
        renamed_list(a, b, k, x, y, m),
        0 <= i < k <= a.children@.len(),
        k <= b.children@.len(),
    ensures
        renamed(a.children@[i], b.children@[i], x, y, m),
    decreases k,
{
    if i < k - 1 {
        lemma_renamed_child(a, b, x, y, k - 1, i, m);
    }
}

proof fn lemma_fresh_child(a: SyntaxNode, y: Seq<char>, k: int, i: int)
    requires
        fresh_list(a, k, y),
        0 <= i < k <= a.children@.len(),
    ensures
        fresh(a.children@[i], y),
    decreases k,
{
    if i < k - 1 {
        lemma_fresh_child(a, y, k - 1, i);
    }
}

proof fn lemma_bound_child(a: SyntaxNode, x: Seq<char>, bs: Seq<BindingView>, k: int, i: int)
    requires
        leaves_bound_list(a, k, x, bs),
        0 <= i < k <= a.children@.len(),
    ensures
        leaves_bound(a.children@[i], x, bs),
    decreases k,
{
    if i < k - 1 {
        lemma_bound_child(a, x, bs, k - 1, i);
    }
}

/// The field children of renamed trees correspond.
proof fn lemma_field_renamed(a: SyntaxNode, b: SyntaxNode, x: Seq<char>, y: Seq<char>, f: Seq<char>, i: int, m: spec_fn(int) -> int)
    requires
        renamed(a, b, x, y, m),
    ensures
        match field_from(a, f, i) {
            None => field_from(b, f, i) is None,
            Some(c) => field_from(b, f, i) matches Some(d) && renamed(c, d, x, y, m),
        },
    decreases a.children@.len() - i,
{
    if 0 <= i < a.children@.len() {
        lemma_renamed_child(a, b, x, y, a.children@.len() as int, i, m);
        let ca = a.children@[i];
        let cb = b.children@[i];
        assert(has_field(ca, f) == has_field(cb, f));
        if !has_field(ca, f) {
            lemma_field_renamed(a, b, x, y, f, i + 1, m);
        }
    }
}

/// A field child of a tree is fresh and has its leaves bound when the tree does.
proof fn lemma_field_inherits(a: SyntaxNode, y: Seq<char>, x: Seq<char>, bs: Seq<BindingView>, f: Seq<char>)
    ensures
        field_child(a, f) matches Some(c) ==> (fresh(a, y) ==> fresh(c, y)) && (leaves_bound(a, x, bs)
            ==> leaves_bound(c, x, bs)),
{
    lemma_field_from_child(a, f, 0);
    if let Some(c) = field_child(a, f) {
        let j = choose|j: int| 0 <= j < a.children@.len() && c == a.children@[j];
        if fresh(a, y) {
            lemma_fresh_child(a, y, a.children@.len() as int, j);
        }
        if leaves_bound(a, x, bs) {
            lemma_bound_child(a, x, bs, a.children@.len() as int, j);
        }
    }
}

// ---------------------------------------------------------------- bindings

proof fn lemma_rename_injective(s: Seq<char>, t: Seq<char>, x: Seq<char>, y: Seq<char>)
    requires
        s != y,
        t != y,
    ensures
        (rename(s, x, y) == rename(t, x, y)) == (s == t),
{
}

proof fn lemma_bound_renamed(bs: Seq<BindingView>, t: Seq<char>, x: Seq<char>, y: Seq<char>, m: spec_fn(int) -> int)
    requires
        no_name(bs, y),
        t != y,
    ensures
        bound(rename_bs(bs, x, y, m), rename(t, x, y)) == bound(bs, t),
{
    let rb = rename_bs(bs, x, y, m);
    if bound(bs, t) {
        let i = choose|i: int| 0 <= i < bs.len() && #[trigger] bs[i].0 == t;
        assert(rb[i].0 == rename(t, x, y));
    }
    if bound(rb, rename(t, x, y)) {
        let i = choose|i: int| 0 <= i < rb.len() && #[trigger] rb[i].0 == rename(t, x, y);
        assert(rb[i].0 == rename(bs[i].0, x, y));
        lemma_rename_injective(bs[i].0, t, x, y);
        assert(bs[i].0 == t);
    }
}

proof fn lemma_bind_renamed(a: SyntaxNode, b: SyntaxNode, x: Seq<char>, y: Seq<char>, s: int, e: int, bs: Seq<BindingView>, m: spec_fn(int) -> int)
    requires
        renamed(a, b, x, y, m),
        a.text@ != y,
        no_name(bs, y),
    ensures
        bind_spec(b, m(s), m(e), rename_bs(bs, x, y, m)) == opt_rename(bind_spec(a, s, e, bs), x, y, m),
        bind_spec(a, s, e, bs) matches Some(r) ==> no_name(r, y),
{
    lemma_bound_renamed(bs, a.text@, x, y, m);
    if let Some(r) = bind_spec(a, s, e, bs) {
        assert(rename_bs(r, x, y, m) =~= rename_bs(bs, x, y, m).push((rename(a.text@, x, y), m(s), m(e))));
    }
}

proof fn lemma_binding_from_renamed(bs: Seq<BindingView>, t: Seq<char>, x: Seq<char>, y: Seq<char>, pos: int, i: int, m: spec_fn(int) -> int)
    requires
        no_name(bs, y),
        t != y,
        increasing(m),
    ensures
        binding_from(rename_bs(bs, x, y, m), rename(t, x, y), m(pos), i) == binding_from(bs, t, pos, i),
    decreases bs.len() - i,
{
    if 0 <= i < bs.len() {
        let rb = rename_bs(bs, x, y, m);
        let b = bs[i];
        lemma_rename_injective(b.0, t, x, y);
        assert(rb[i] == (rename(b.0, x, y), m(b.1), m(b.2)));
        assert((b.1 <= pos) == (m(b.1) <= m(pos))) by {
            if b.1 < pos {
                assert(m(b.1) < m(pos));
            } else if pos < b.1 {
                assert(m(pos) < m(b.1));
            }
        }
        assert((pos < b.2) == (m(pos) < m(b.2))) by {
            if pos < b.2 {
                assert(m(pos) < m(b.2));
            } else if b.2 < pos {
                assert(m(b.2) < m(pos));
            }
        }
        assert(visible(rb[i], rename(t, x, y), m(pos)) == visible(b, t, pos));
        lemma_binding_from_renamed(bs, t, x, y, pos, i + 1, m);
    }
}

// ---------------------------------------------------------------- declarations

proof fn lemma_eval_renamed(a: SyntaxNode, b: SyntaxNode, x: Seq<char>, y: Seq<char>, m: spec_fn(int) -> int)
    requires
        renamed(a, b, x, y, m),
        x != "eval"@,
        y != "eval"@,
    ensures
        is_eval_call(b) == is_eval_call(a),
{
    lemma_field_renamed(a, b, x, y, "function"@, 0, m);
}

proof fn lemma_here_renamed(a: SyntaxNode, b: SyntaxNode, x: Seq<char>, y: Seq<char>, anc: Option<(int, int)>, bs: Seq<BindingView>, m: spec_fn(int) -> int)
    requires
        renamed(a, b, x, y, m),
        fresh(a, y),
        no_name(bs, y),
        x != "eval"@,
        y != "eval"@,
    ensures
        decl_here(b, shift_scope(anc, m), rename_bs(bs, x, y, m)) == opt_rename(decl_here(a, anc, bs), x, y, m),
        decl_here(a, anc, bs) matches Some(r) ==> no_name(r, y),
{
    lemma_eval_renamed(a, b, x, y, m);
    lemma_field_renamed(a, b, x, y, "name"@, 0, m);
    lemma_field_renamed(a, b, x, y, "kind"@, 0, m);
    lemma_field_renamed(a, b, x, y, "left"@, 0, m);
    lemma_field_renamed(a, b, x, y, "parameter"@, 0, m);
    lemma_field_inherits(a, y, x, seq![], "name"@);
    lemma_field_inherits(a, y, x, seq![], "left"@);
    lemma_field_inherits(a, y, x, seq![], "parameter"@);
    let k = a.kind@;
    if k == "variable_declarator"@ {
        if let (Some(n1), Some(sc)) = (field_child(a, "name"@), anc) {
            let n2 = field_child(b, "name"@)->0;
            lemma_bind_renamed(n1, n2, x, y, sc.0, sc.1, bs, m);
        }
    } else if k == "for_in_statement"@ {
        if let Some(l1) = field_child(a, "left"@) {
            let l2 = field_child(b, "left"@)->0;
            lemma_bind_renamed(l1, l2, x, y, a.start_byte as int, a.end_byte as int, bs, m);
        }
    } else if k == "catch_clause"@ {
        if let Some(p1) = field_child(a, "parameter"@) {
            let p2 = field_child(b, "parameter"@)->0;
            lemma_bind_renamed(p1, p2, x, y, a.start_byte as int, a.end_byte as int, bs, m);
        }
    }
}

proof fn lemma_decl_renamed(a: SyntaxNode, b: SyntaxNode, x: Seq<char>, y: Seq<char>, anc: Option<(int, int)>, bs: Seq<BindingView>, m: spec_fn(int) -> int)
    requires
        renamed(a, b, x, y, m),
        fresh(a, y),
        no_name(bs, y),
        x != "eval"@,
        y != "eval"@,
    ensures
        decl_node(b, shift_scope(anc, m), rename_bs(bs, x, y, m)) == opt_rename(decl_node(a, anc, bs), x, y, m),
        decl_node(a, anc, bs) matches Some(r) ==> no_name(r, y),
    decreases a, a.children@.len() + 1,
{
    lemma_here_renamed(a, b, x, y, anc, bs, m);
    assert(child_scope(b, shift_scope(anc, m)) == shift_scope(child_scope(a, anc), m));
    if let Some(r) = decl_here(a, anc, bs) {
        lemma_decl_list_renamed(a, b, a.children@.len() as int, x, y, child_scope(a, anc), r, m);
    }
}

proof fn lemma_decl_list_renamed(
    a: SyntaxNode,
    b: SyntaxNode,
    k: int,
    x: Seq<char>,
    y: Seq<char>,
    anc: Option<(int, int)>,
    bs: Seq<BindingView>, m: spec_fn(int) -> int,
)
    requires
        renamed(a, b, x, y, m),
        fresh(a, y),
        no_name(bs, y),
        x != "eval"@,
        y != "eval"@,
        k <= a.children@.len(),
    ensures
        decl_list(b, k, shift_scope(anc, m), rename_bs(bs, x, y, m)) == opt_rename(decl_list(a, k, anc, bs), x, y, m),
        decl_list(a, k, anc, bs) matches Some(r) ==> no_name(r, y),
    decreases a, k,
{
    if k > 0 {
        lemma_decl_list_renamed(a, b, k - 1, x, y, anc, bs, m);
        if let Some(r) = decl_list(a, k - 1, anc, bs) {
            lemma_renamed_child(a, b, x, y, a.children@.len() as int, k - 1, m);
            lemma_fresh_child(a, y, a.children@.len() as int, k - 1);
            let c = a.children@[k - 1];
            if c.named {
                lemma_decl_renamed(c, b.children@[k - 1], x, y, anc, r, m);
            }
        }
    }
}

proof fn lemma_params_renamed(
    a: SyntaxNode,
    b: SyntaxNode,
    k: int,
    x: Seq<char>,
    y: Seq<char>,
    s: int,
    e: int,
    bs: Seq<BindingView>, m: spec_fn(int) -> int,
)
    requires
        renamed(a, b, x, y, m),
        fresh(a, y),
        no_name(bs, y),
        k <= a.children@.len(),
    ensures
        params_list(b, k, m(s), m(e), rename_bs(bs, x, y, m)) == opt_rename(params_list(a, k, s, e, bs), x, y, m),
        params_list(a, k, s, e, bs) matches Some(r) ==> no_name(r, y),
    decreases k,
{
    if k > 0 {
        lemma_params_renamed(a, b, k - 1, x, y, s, e, bs, m);
        if let Some(r) = params_list(a, k - 1, s, e, bs) {
            lemma_renamed_child(a, b, x, y, a.children@.len() as int, k - 1, m);
            lemma_fresh_child(a, y, a.children@.len() as int, k - 1);
            let q1 = a.children@[k - 1];
            let q2 = b.children@[k - 1];
            lemma_field_renamed(q1, q2, x, y, "pattern"@, 0, m);
            lemma_field_renamed(q1, q2, x, y, "name"@, 0, m);
            lemma_field_inherits(q1, y, x, seq![], "pattern"@);
            lemma_field_inherits(q1, y, x, seq![], "name"@);
            if let Some(p1) = pattern_of(q1) {
                let p2 = pattern_of(q2)->0;
                lemma_bind_renamed(p1, p2, x, y, s, e, r, m);
            }
        }
    }
}

// ---------------------------------------------------------------- tokens

proof fn lemma_leaf_renamed(a: SyntaxNode, b: SyntaxNode, x: Seq<char>, y: Seq<char>, bs: Seq<BindingView>, m: spec_fn(int) -> int)
    requires
        renamed(a, b, x, y, m),
        a.text@ != y,
        no_name(bs, y),
        a.text@ == x ==> a.kind@ == "identifier"@ && binding_at(bs, x, a.start_byte as int) is Some,
        increasing(m),
    ensures
        leaf_token(b, rename_bs(bs, x, y, m)) == leaf_token(a, bs),
{
    lemma_binding_from_renamed(bs, a.text@, x, y, a.start_byte as int, 0, m);
}

proof fn lemma_emit_renamed(a: SyntaxNode, b: SyntaxNode, x: Seq<char>, y: Seq<char>, bs: Seq<BindingView>, m: spec_fn(int) -> int)
    requires
        renamed(a, b, x, y, m),
        fresh(a, y),
        no_name(bs, y),
        leaves_bound(a, x, bs),
        increasing(m),
    ensures
        emit_node(b, rename_bs(bs, x, y, m)) == emit_node(a, bs),
    decreases a, a.children@.len() + 1,
{
    if a.children@.len() == 0 {
        lemma_leaf_renamed(a, b, x, y, bs, m);
    } else {
        lemma_emit_list_renamed(a, b, a.children@.len() as int, x, y, bs, m);
    }
}

proof fn lemma_emit_list_renamed(a: SyntaxNode, b: SyntaxNode, k: int, x: Seq<char>, y: Seq<char>, bs: Seq<BindingView>, m: spec_fn(int) -> int)
    requires
        renamed(a, b, x, y, m),
        fresh(a, y),
        no_name(bs, y),
        leaves_bound(a, x, bs),
        increasing(m),
        k <= a.children@.len(),
    ensures
        emit_list(b, k, rename_bs(bs, x, y, m)) == emit_list(a, k, bs),
    decreases a, k,
{
    if k > 0 {
        lemma_emit_list_renamed(a, b, k - 1, x, y, bs, m);
        lemma_renamed_child(a, b, x, y, a.children@.len() as int, k - 1, m);
        lemma_fresh_child(a, y, a.children@.len() as int, k - 1);
        lemma_bound_child(a, x, bs, a.children@.len() as int, k - 1);
        lemma_emit_renamed(a.children@[k - 1], b.children@[k - 1], x, y, bs, m);
    }
}

// ---------------------------------------------------------------- the law

/// Renaming a name the callable declares, everywhere it is spelled, to a name the
/// callable does not use, with the text moved by the edit (every byte offset mapped
/// by one order-keeping map), leaves the callable's shape as it was: its tokens and
/// leaf count. Every leaf spelled with the old name must be an identifier in the
/// scope of one of the callable's bindings (a name also used outside its scope, or
/// as an object shorthand, is part of the shape), and neither name may be `eval`.
pub proof fn law_renaming_keeps_shape(c1: SyntaxNode, c2: SyntaxNode, x: Seq<char>, y: Seq<char>, m: spec_fn(int) -> int)
    requires
        renamed(c1, c2, x, y, m),
        fresh(c1, y),
        x != "eval"@,
        y != "eval"@,
        function_spec(c1) is Some,
        leaves_bound(c1, x, callable_bindings(c1, field_child(c1, "body"@)->0)->0),
        increasing(m),
    ensures
        function_spec(c2) == function_spec(c1),
{
    let body1 = field_child(c1, "body"@)->0;
    lemma_field_renamed(c1, c2, x, y, "body"@, 0, m);
    let body2 = field_child(c2, "body"@)->0;
    let bs = callable_bindings(c1, body1)->0;
    lemma_field_inherits(c1, y, x, bs, "body"@);
    lemma_field_inherits(c1, y, x, bs, "name"@);
    lemma_field_inherits(c1, y, x, bs, "parameters"@);
    lemma_field_inherits(c1, y, x, bs, "parameter"@);
    lemma_field_inherits(c1, y, x, bs, "return_type"@);
    lemma_field_renamed(c1, c2, x, y, "name"@, 0, m);
    lemma_field_renamed(c1, c2, x, y, "parameters"@, 0, m);
    lemma_field_renamed(c1, c2, x, y, "parameter"@, 0, m);
    lemma_field_renamed(c1, c2, x, y, "return_type"@, 0, m);
    let s = c1.start_byte as int;
    let e = c1.end_byte as int;
    let empty = Seq::<BindingView>::empty();
    assert(rename_bs(empty, x, y, m) =~= empty);
    // the callable's own name
    let b0 = match field_child(c1, "name"@) {
        Some(nm) => if nm.kind@ == "identifier"@ {
            bind_spec(nm, s, e, empty)
        } else {
            Some(empty)
        },
        None => Some(empty),
    };
    if let Some(nm) = field_child(c1, "name"@) {
        lemma_bind_renamed(nm, field_child(c2, "name"@)->0, x, y, s, e, empty, m);
    }
    let b0v = b0->0;
    // its parameters
    let p1 = params_of(c1);
    let p2 = params_of(c2);
    if let Some(p) = p1 {
        assert(p2 is Some);
        let q = p2->0;
        assert(renamed(p, q, x, y, m));
        lemma_bind_renamed(p, q, x, y, s, e, b0v, m);
        lemma_params_renamed(p, q, p.children@.len() as int, x, y, s, e, b0v, m);
    }
    let b1 = match p1 {
        None => Some(b0v),
        Some(p) => if p.kind@ == "identifier"@ {
            bind_spec(p, s, e, b0v)
        } else {
            params_list(p, p.children@.len() as int, s, e, b0v)
        },
    };
    let b1v = b1->0;
    lemma_decl_renamed(body1, body2, x, y, None, b1v, m);
    assert(callable_bindings(c2, body2) == Some(rename_bs(bs, x, y, m)));
    // the tokens
    lemma_emit_renamed(body1, body2, x, y, bs, m);
    if let Some(p) = p1 {
        lemma_emit_renamed(p, p2->0, x, y, bs, m);
    }
    if let Some(r) = field_child(c1, "return_type"@) {
        lemma_emit_renamed(r, field_child(c2, "return_type"@)->0, x, y, bs, m);
    }
    assert(has_async(c2) == has_async(c1)) by {
        if has_async(c1) {
            let i = choose|i: int| 0 <= i < c1.children@.len() && #[trigger] c1.children@[i].kind@ == "async"@;
            lemma_renamed_child(c1, c2, x, y, c1.children@.len() as int, i, m);
            assert(c2.children@[i].kind@ == "async"@);
        }
        if has_async(c2) {
            let i = choose|i: int| 0 <= i < c2.children@.len() && #[trigger] c2.children@[i].kind@ == "async"@;
            lemma_renamed_child(c1, c2, x, y, c1.children@.len() as int, i, m);
        }
    }
    assert(emit_opt(params_of(c2), rename_bs(bs, x, y, m)) == emit_opt(params_of(c1), bs));
    assert(emit_opt(field_child(c2, "return_type"@), rename_bs(bs, x, y, m)) == emit_opt(field_child(c1, "return_type"@), bs));
}

} // verus!
