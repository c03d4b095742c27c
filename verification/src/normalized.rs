//! Conservative TypeScript/JavaScript body matching with lexical binding identities.
use crate::syntax::{SyntaxNode, child_by_field, field_child};
use crate::text::{decimal, decimal_chars, extend_chars, from_chars, str_eq, to_chars};
use vstd::prelude::*;

verus! {

/// A normalized token stream; equal streams mean equal structure up to
/// renaming of the bindings the function itself declares.
#[derive(Clone)]
pub struct Shape {
    pub tokens: Vec<String>,
    /// Number of syntax-tree leaves the stream was built from.
    pub leaves: usize,
}

pub struct ShapeView {
    pub tokens: Seq<Seq<char>>,
    pub leaves: usize,
}

impl View for Shape {
    type V = ShapeView;

    open spec fn view(&self) -> ShapeView {
        ShapeView { tokens: tokens_of(self.tokens@), leaves: self.leaves }
    }
}

impl Shape {
    /// An equal shape.
    pub fn copy(&self) -> (r: Shape)
        ensures
            r@ == self@,
    {
        let mut tokens: Vec<String> = Vec::new();
        let mut i: usize = 0;
        while i < self.tokens.len()
            invariant
                i <= self.tokens@.len(),
                tokens@.len() == i,
                forall|j: int| 0 <= j < i ==> #[trigger] tokens@[j]@ == self.tokens@[j]@,
            decreases self.tokens@.len() - i,
        {
            let t = self.tokens[i].clone();
            tokens.push(t);
            i += 1;
        }
        assert(tokens_of(tokens@) =~= tokens_of(self.tokens@));
        Shape { tokens, leaves: self.leaves }
    }
}

/// A name the function declares and the byte range it is visible in.
pub struct Binding {
    pub name: String,
    pub start: usize,
    pub end: usize,
}

pub type BindingView = (Seq<char>, int, int);

/// A map of byte offsets that keeps their order, as editing text around the
/// nodes does.
pub open spec fn increasing(m: spec_fn(int) -> int) -> bool {
    forall|p: int, q: int| p < q ==> #[trigger] m(p) < #[trigger] m(q)
}

/// Bindings with their ranges moved by `m`.
pub open spec fn shift_bs(bs: Seq<BindingView>, m: spec_fn(int) -> int) -> Seq<BindingView> {
    bs.map_values(|b: BindingView| (b.0, m(b.1), m(b.2)))
}

pub open spec fn shift_opt(o: Option<Seq<BindingView>>, m: spec_fn(int) -> int) -> Option<Seq<BindingView>> {
    match o {
        Some(bs) => Some(shift_bs(bs, m)),
        None => None,
    }
}

pub open spec fn shift_scope(anc: Option<(int, int)>, m: spec_fn(int) -> int) -> Option<(int, int)> {
    match anc {
        Some(sc) => Some((m(sc.0), m(sc.1))),
        None => None,
    }
}

pub open spec fn bindings_view(bs: Seq<Binding>) -> Seq<BindingView> {
    bs.map_values(|b: Binding| (b.name@, b.start as int, b.end as int))
}

pub open spec fn bound(bs: Seq<BindingView>, name: Seq<char>) -> bool {
    exists|i: int| 0 <= i < bs.len() && #[trigger] bs[i].0 == name
}

/// Binds identifier `n` over `start..end`; abstains (`None`) on anything but a plain
/// identifier, and on a name already bound.
pub open spec fn bind_spec(n: SyntaxNode, start: int, end: int, bs: Seq<BindingView>) -> Option<
    Seq<BindingView>,
> {
    if n.kind@ != "identifier"@ || bound(bs, n.text@) {
        None
    } else {
        Some(bs.push((n.text@, start, end)))
    }
}

/// Constructs whose scoping needs fuller analysis: a body holding one abstains.
pub open spec fn opaque_scope(kind: Seq<char>) -> bool {
    ||| kind == "arrow_function"@
    ||| kind == "function_expression"@
    ||| kind == "function_declaration"@
    ||| kind == "generator_function"@
    ||| kind == "generator_function_declaration"@
    ||| kind == "class"@
    ||| kind == "class_declaration"@
    ||| kind == "method_definition"@
    ||| kind == "variable_declaration"@
    ||| kind == "with_statement"@
}

/// Nodes that bound the scope of the declarations inside them.
pub open spec fn scope_kind(kind: Seq<char>) -> bool {
    kind == "statement_block"@ || kind == "for_statement"@ || kind == "for_in_statement"@
}

pub open spec fn child_scope(n: SyntaxNode, anc: Option<(int, int)>) -> Option<(int, int)> {
    if scope_kind(n.kind@) {
        Some((n.start_byte as int, n.end_byte as int))
    } else {
        anc
    }
}

/// A direct `eval` call, which can reach bindings through strings.
pub open spec fn is_eval_call(n: SyntaxNode) -> bool {
    n.kind@ == "call_expression"@ && (field_child(n, "function"@) matches Some(f) && f.text@
        == "eval"@)
}

/// What node `n` itself binds, before its children, with `anc` the nearest
/// enclosing scope node's range.
pub open spec fn decl_here(n: SyntaxNode, anc: Option<(int, int)>, bs: Seq<BindingView>) -> Option<
    Seq<BindingView>,
> {
    let k = n.kind@;
    if opaque_scope(k) {
        None
    } else if k == "variable_declarator"@ {
        match (field_child(n, "name"@), anc) {
            (Some(name), Some(sc)) => bind_spec(name, sc.0, sc.1, bs),
            _ => None,
        }
    } else if k == "for_in_statement"@ {
        match field_child(n, "kind"@) {
            None => Some(bs),
            Some(kn) => if kn.kind@ == "var"@ {
                None
            } else {
                match field_child(n, "left"@) {
                    None => None,
                    Some(left) => bind_spec(left, n.start_byte as int, n.end_byte as int, bs),
                }
            },
        }
    } else if k == "catch_clause"@ {
        match field_child(n, "parameter"@) {
            None => Some(bs),
            Some(p) => bind_spec(p, n.start_byte as int, n.end_byte as int, bs),
        }
    } else if is_eval_call(n) {
        None
    } else {
        Some(bs)
    }
}

/// The bindings declared in `n` and below, in tree order, added to `bs`; `None`
/// where the function abstains.
pub open spec fn decl_node(n: SyntaxNode, anc: Option<(int, int)>, bs: Seq<BindingView>) -> Option<
    Seq<BindingView>,
>
    decreases n, n.children@.len() + 1,
{
    match decl_here(n, anc, bs) {
        None => None,
        Some(b) => decl_list(n, n.children@.len() as int, child_scope(n, anc), b),
    }
}

/// `decl_node` over the first `k` named children of `n`, in order.
pub open spec fn decl_list(n: SyntaxNode, k: int, anc: Option<(int, int)>, bs: Seq<BindingView>) -> Option<
    Seq<BindingView>,
>
    decreases n, k,
{
    if k <= 0 || k > n.children@.len() {
        Some(bs)
    } else {
        match decl_list(n, k - 1, anc, bs) {
            None => None,
            Some(b) => {
                let c = n.children@[k - 1];
                if c.named {
                    decl_node(c, anc, b)
                } else {
                    Some(b)
                }
            },
        }
    }
}

/// The first binding named `name` whose range holds byte `pos`.
pub open spec fn binding_at(bs: Seq<BindingView>, name: Seq<char>, pos: int) -> Option<int> {
    binding_from(bs, name, pos, 0)
}

/// The first binding at or after index `i` named `name` whose range holds `pos`.
pub open spec fn binding_from(bs: Seq<BindingView>, name: Seq<char>, pos: int, i: int) -> Option<int>
    decreases bs.len() - i,
{
    if i < 0 || i >= bs.len() {
        None
    } else if visible(bs[i], name, pos) {
        Some(i)
    } else {
        binding_from(bs, name, pos, i + 1)
    }
}

pub open spec fn visible(b: BindingView, name: Seq<char>, pos: int) -> bool {
    b.0 == name && b.1 <= pos < b.2
}

/// A leaf's token: bound identifiers by binding number, everything else as written.
pub open spec fn leaf_token(n: SyntaxNode, bs: Seq<BindingView>) -> Seq<char> {
    match binding_at(bs, n.text@, n.start_byte as int) {
        Some(i) => if n.kind@ == "identifier"@ {
            "binding:"@ + decimal(i as nat)
        } else if n.kind@ == "shorthand_property_identifier"@ {
            "property:"@ + n.text@ + ":binding:"@ + decimal(i as nat)
        } else {
            n.text@
        },
        None => n.text@,
    }
}

pub open spec fn open_token(n: SyntaxNode) -> Seq<char> {
    seq!['('] + n.kind@
}

/// Tokens and leaf count of `n`: `(kind`, then the leaf token or the children's
/// tokens, then `)`; comments and `;` give nothing.
pub open spec fn emit_node(n: SyntaxNode, bs: Seq<BindingView>) -> (Seq<Seq<char>>, int)
    decreases n, n.children@.len() + 1,
{
    if n.kind@ == "comment"@ || n.kind@ == ";"@ {
        (seq![], 0)
    } else if n.children@.len() == 0 {
        (seq![open_token(n), leaf_token(n, bs), seq![')']], 1)
    } else {
        let (t, l) = emit_list(n, n.children@.len() as int, bs);
        (seq![open_token(n)] + t + seq![seq![')']], l)
    }
}

/// `emit_node` over the first `k` children of `n`, concatenated.
pub open spec fn emit_list(n: SyntaxNode, k: int, bs: Seq<BindingView>) -> (Seq<Seq<char>>, int)
    decreases n, k,
{
    if k <= 0 || k > n.children@.len() {
        (seq![], 0)
    } else {
        let (t, l) = emit_list(n, k - 1, bs);
        let (t2, l2) = emit_node(n.children@[k - 1], bs);
        (t + t2, l + l2)
    }
}

pub open spec fn emit_opt(n: Option<SyntaxNode>, bs: Seq<BindingView>) -> (Seq<Seq<char>>, int) {
    match n {
        Some(m) => emit_node(m, bs),
        None => (seq![], 0),
    }
}

/// The node holding a callable's parameters.
pub open spec fn params_of(c: SyntaxNode) -> Option<SyntaxNode> {
    match field_child(c, "parameters"@) {
        Some(p) => Some(p),
        None => field_child(c, "parameter"@),
    }
}

pub open spec fn pattern_of(q: SyntaxNode) -> Option<SyntaxNode> {
    match field_child(q, "pattern"@) {
        Some(x) => Some(x),
        None => field_child(q, "name"@),
    }
}

/// Binds the first `k` parameters of `p` (named, not comments) over `s..e`.
pub open spec fn params_list(p: SyntaxNode, k: int, s: int, e: int, bs: Seq<BindingView>) -> Option<
    Seq<BindingView>,
>
    decreases k,
{
    if k <= 0 || k > p.children@.len() {
        Some(bs)
    } else {
        match params_list(p, k - 1, s, e, bs) {
            None => None,
            Some(b) => {
                let q = p.children@[k - 1];
                if !q.named || q.kind@ == "comment"@ {
                    Some(b)
                } else {
                    match pattern_of(q) {
                        None => None,
                        Some(pat) => bind_spec(pat, s, e, b),
                    }
                }
            },
        }
    }
}

/// The bindings of callable `c`: its own name, its parameters, then the declarations
/// in its body.
pub open spec fn callable_bindings(c: SyntaxNode, body: SyntaxNode) -> Option<Seq<BindingView>> {
    let s = c.start_byte as int;
    let e = c.end_byte as int;
    let b0 = match field_child(c, "name"@) {
        Some(nm) => if nm.kind@ == "identifier"@ {
            bind_spec(nm, s, e, seq![])
        } else {
            Some(seq![])
        },
        None => Some(seq![]),
    };
    let b1 = match b0 {
        None => None,
        Some(b) => match params_of(c) {
            None => Some(b),
            Some(p) => if p.kind@ == "identifier"@ {
                bind_spec(p, s, e, b)
            } else {
                params_list(p, p.children@.len() as int, s, e, b)
            },
        },
    };
    match b1 {
        None => None,
        Some(b) => decl_node(body, None, b),
    }
}

pub open spec fn has_async(c: SyntaxNode) -> bool {
    exists|i: int| 0 <= i < c.children@.len() && #[trigger] c.children@[i].kind@ == "async"@
}

/// The shape of a callable: its kind, `async` if marked so, then the tokens of its
/// parameters, return type and body; `None` on syntax errors, a missing body, or
/// bindings the analysis does not follow.
pub open spec fn function_spec(c: SyntaxNode) -> Option<(Seq<Seq<char>>, int)> {
    if c.error {
        None
    } else {
        match field_child(c, "body"@) {
            None => None,
            Some(body) => match callable_bindings(c, body) {
                None => None,
                Some(bs) => {
                    let head = seq![c.kind@] + if has_async(c) {
                        seq!["async"@]
                    } else {
                        seq![]
                    };
                    let (t1, l1) = emit_opt(params_of(c), bs);
                    let (t2, l2) = emit_opt(field_child(c, "return_type"@), bs);
                    let (t3, l3) = emit_node(body, bs);
                    Some((head + t1 + t2 + t3, l1 + l2 + l3))
                },
            },
        }
    }
}


proof fn lemma_emit_opens(n: Option<SyntaxNode>, bs: Seq<BindingView>)
    ensures
        emit_opt(n, bs).0.len() == 0 || (emit_opt(n, bs).0[0].len() > 0 && emit_opt(n, bs).0[0][0] == '('),
{
    if let Some(m) = n {
        if !(m.kind@ == "comment"@ || m.kind@ == ";"@) {
            assert(emit_node(m, bs).0[0] == open_token(m));
        }
    }
}

/// The tokens of a callable's shape start with its kind, followed by `async`
/// exactly when the callable is marked `async`: an `async` function and the same
/// function without it never share a shape.
pub proof fn law_async_marked(c: SyntaxNode)
    requires
        function_spec(c) is Some,
    ensures
        function_spec(c).unwrap().0[0] == c.kind@,
        has_async(c) <==> (function_spec(c).unwrap().0.len() > 1 && function_spec(c).unwrap().0[1] == "async"@),
{
    let body = field_child(c, "body"@)->0;
    let bs = callable_bindings(c, body)->0;
    let t1 = emit_opt(params_of(c), bs).0;
    let t2 = emit_opt(field_child(c, "return_type"@), bs).0;
    let t3 = emit_opt(Some(body), bs).0;
    assert(emit_opt(Some(body), bs) == emit_node(body, bs));
    lemma_emit_opens(params_of(c), bs);
    lemma_emit_opens(field_child(c, "return_type"@), bs);
    lemma_emit_opens(Some(body), bs);
    let t = function_spec(c).unwrap().0;
    reveal_strlit("async");
    assert("async"@[0] == 'a');
    if has_async(c) {
        assert(t == seq![c.kind@, "async"@] + t1 + t2 + t3);
        assert(t[1] == "async"@);
    } else {
        let rest = t1 + t2 + t3;
        assert(t =~= seq![c.kind@] + rest);
        if t.len() > 1 {
            assert(t[1] == rest[0]);
            if t1.len() > 0 {
                assert(rest[0] == t1[0]);
            } else if t2.len() > 0 {
                assert(rest[0] == t2[0]);
            } else {
                assert(rest[0] == t3[0]);
            }
            assert(rest[0][0] == '(');
        }
    }
}

fn bind(node: &SyntaxNode, start: usize, end: usize, bindings: &mut Vec<Binding>) -> (ok: bool)
    ensures
        ok == bind_spec(*node, start as int, end as int, bindings_view(old(bindings)@)) is Some,
        ok ==> bindings_view(final(bindings)@) == bind_spec(
            *node,
            start as int,
            end as int,
            bindings_view(old(bindings)@),
        )->0,
        !ok ==> final(bindings)@ == old(bindings)@,
{
    if !str_eq(node.kind.as_str(), "identifier") {
        return false;
    }
    let ghost bv = bindings_view(bindings@);
    let mut i: usize = 0;
    while i < bindings.len()
        invariant
            bv == bindings_view(bindings@),
            i <= bindings@.len(),
            forall|j: int| 0 <= j < i ==> #[trigger] bv[j].0 != node.text@,
        decreases bindings@.len() - i,
    {
        if str_eq(bindings[i].name.as_str(), node.text.as_str()) {
            assert(bv[i as int].0 == node.text@);
            return false;
        }
        i += 1;
    }
    bindings.push(Binding { name: node.text.clone(), start, end });
    assert(bindings_view(bindings@) =~= bv.push((node.text@, start as int, end as int)));
    true
}

fn opaque_scope_exec(kind: &str) -> (r: bool)
    ensures
        r == opaque_scope(kind@),
{
    str_eq(kind, "arrow_function") || str_eq(kind, "function_expression") || str_eq(kind, "function_declaration")
        || str_eq(kind, "generator_function") || str_eq(kind, "generator_function_declaration") || str_eq(
        kind,
        "class",
    ) || str_eq(kind, "class_declaration") || str_eq(kind, "method_definition") || str_eq(
        kind,
        "variable_declaration",
    ) || str_eq(kind, "with_statement")
}

fn is_eval_call_exec(n: &SyntaxNode) -> (r: bool)
    ensures
        r == is_eval_call(*n),
{
    if !str_eq(n.kind.as_str(), "call_expression") {
        return false;
    }
    match child_by_field(n, "function") {
        Some(f) => str_eq(f.text.as_str(), "eval"),
        None => false,
    }
}

/// What `n` itself binds (see `decl_here`).
fn declare_here(n: &SyntaxNode, anc: Option<(usize, usize)>, bindings: &mut Vec<Binding>) -> (ok: bool)
    ensures
        ({
            let a = match anc {
                Some(p) => Some((p.0 as int, p.1 as int)),
                None => None,
            };
            let spec_r = decl_here(*n, a, bindings_view(old(bindings)@));
            &&& ok == spec_r is Some
            &&& ok ==> bindings_view(final(bindings)@) == spec_r->0
        }),
{
    let k = n.kind.as_str();
    if opaque_scope_exec(k) {
        return false;
    }
    if str_eq(k, "variable_declarator") {
        match (child_by_field(n, "name"), anc) {
            (Some(name), Some(sc)) => bind(name, sc.0, sc.1, bindings),
            _ => false,
        }
    } else if str_eq(k, "for_in_statement") {
        match child_by_field(n, "kind") {
            None => true,
            Some(kn) => {
                if str_eq(kn.kind.as_str(), "var") {
                    false
                } else {
                    match child_by_field(n, "left") {
                        None => false,
                        Some(left) => bind(left, n.start_byte, n.end_byte, bindings),
                    }
                }
            },
        }
    } else if str_eq(k, "catch_clause") {
        match child_by_field(n, "parameter") {
            None => true,
            Some(p) => bind(p, n.start_byte, n.end_byte, bindings),
        }
    } else if is_eval_call_exec(n) {
        false
    } else {
        true
    }
}

pub open spec fn scope_view(anc: Option<(usize, usize)>) -> Option<(int, int)> {
    match anc {
        Some(p) => Some((p.0 as int, p.1 as int)),
        None => None,
    }
}

/// Adds the bindings declared in `n` and below; `false` where the analysis abstains.
fn declarations(n: &SyntaxNode, anc: Option<(usize, usize)>, bindings: &mut Vec<Binding>) -> (ok: bool)
    ensures
        ok == decl_node(*n, scope_view(anc), bindings_view(old(bindings)@)) is Some,
        ok ==> bindings_view(final(bindings)@) == decl_node(*n, scope_view(anc), bindings_view(old(bindings)@))->0,
    decreases n, n.children@.len() + 1,
{
    if !declare_here(n, anc, bindings) {
        return false;
    }
    let inner = if scope_kind_exec(n.kind.as_str()) {
        Some((n.start_byte, n.end_byte))
    } else {
        anc
    };
    assert(scope_view(inner) == child_scope(*n, scope_view(anc)));
    declare_children(n, n.children.len(), inner, bindings)
}

/// `declarations` over the first `k` named children of `n`.
fn declare_children(n: &SyntaxNode, k: usize, anc: Option<(usize, usize)>, bindings: &mut Vec<Binding>) -> (ok: bool)
    requires
        k <= n.children@.len(),
    ensures
        ok == decl_list(*n, k as int, scope_view(anc), bindings_view(old(bindings)@)) is Some,
        ok ==> bindings_view(final(bindings)@) == decl_list(*n, k as int, scope_view(anc), bindings_view(old(bindings)@))->0,
    decreases n, k,
{
    let mut i: usize = 0;
    let ghost b0 = bindings_view(bindings@);
    assert(b0 == bindings_view(old(bindings)@));
    while i < k
        invariant
            k <= n.children@.len(),
            i <= k,
            b0 == bindings_view(old(bindings)@),
            decl_list(*n, i as int, scope_view(anc), b0) is Some,
            bindings_view(bindings@) == decl_list(*n, i as int, scope_view(anc), b0)->0,
        decreases k - i,
    {
        let c = &n.children[i];
        if c.named {
            if !declarations(c, anc, bindings) {
                proof {
                    assert(decl_list(*n, i as int + 1, scope_view(anc), b0) is None);
                    lemma_decl_list_stays_none(*n, i as int + 1, k as int, scope_view(anc), b0);
                    assert(decl_list(*n, k as int, scope_view(anc), b0) is None);
                }
                return false;
            }
        }
        i += 1;
    }
    true
}

proof fn lemma_decl_list_stays_none(n: SyntaxNode, i: int, k: int, anc: Option<(int, int)>, b0: Seq<BindingView>)
    requires
        0 < i <= k <= n.children@.len(),
        decl_list(n, i, anc, b0) is None,
    ensures
        decl_list(n, k, anc, b0) is None,
    decreases k - i,
{
    if i < k {
        lemma_decl_list_stays_none(n, i + 1, k, anc, b0);
    }
}

fn scope_kind_exec(kind: &str) -> (r: bool)
    ensures
        r == scope_kind(kind@),
{
    str_eq(kind, "statement_block") || str_eq(kind, "for_statement") || str_eq(kind, "for_in_statement")
}


fn binding_index(bindings: &Vec<Binding>, text: &str, pos: usize) -> (r: Option<usize>)
    ensures
        r matches Some(i) ==> binding_at(bindings_view(bindings@), text@, pos as int) == Some(i as int),
        r is None ==> binding_at(bindings_view(bindings@), text@, pos as int) is None,
{
    let ghost bv = bindings_view(bindings@);
    let mut i: usize = 0;
    while i < bindings.len()
        invariant
            bv == bindings_view(bindings@),
            i <= bindings@.len(),
            binding_at(bv, text@, pos as int) == binding_from(bv, text@, pos as int, i as int),
        decreases bindings@.len() - i,
    {
        let b = &bindings[i];
        if str_eq(b.name.as_str(), text) && b.start <= pos && pos < b.end {
            return Some(i);
        }
        i += 1;
    }
    None
}

/// `a` followed by `b`.
fn concat(a: &str, b: &[char]) -> (r: Vec<char>)
    ensures
        r@ == a@ + b@,
{
    let mut v = to_chars(a);
    extend_chars(&mut v, b);
    v
}

fn leaf_text(n: &SyntaxNode, bindings: &Vec<Binding>) -> (r: String)
    ensures
        r@ == leaf_token(*n, bindings_view(bindings@)),
{
    match binding_index(bindings, n.text.as_str(), n.start_byte) {
        Some(i) => {
            if str_eq(n.kind.as_str(), "identifier") {
                let d = decimal_chars(i);
                let v = concat("binding:", d.as_slice());
                from_chars(v.as_slice())
            } else if str_eq(n.kind.as_str(), "shorthand_property_identifier") {
                let d = decimal_chars(i);
                let t = to_chars(n.text.as_str());
                let mut v = concat("property:", t.as_slice());
                let tail = concat(":binding:", d.as_slice());
                extend_chars(&mut v, tail.as_slice());
                assert(v@ =~= "property:"@ + n.text@ + ":binding:"@ + decimal(i as nat));
                from_chars(v.as_slice())
            } else {
                n.text.clone()
            }
        },
        None => n.text.clone(),
    }
}

pub open spec fn tokens_of(v: Seq<String>) -> Seq<Seq<char>> {
    v.map_values(|t: String| t@)
}

fn push_token(shape: &mut Shape, t: String)
    ensures
        tokens_of(final(shape).tokens@) == tokens_of(old(shape).tokens@).push(t@),
        final(shape).leaves == old(shape).leaves,
        final(shape).tokens@.len() == old(shape).tokens@.len() + 1,
{
    shape.tokens.push(t);
    assert(tokens_of(shape.tokens@) =~= tokens_of(old(shape).tokens@).push(t@));
}

/// Appends the tokens of `n` (see `emit_node`).
fn emit(n: &SyntaxNode, bindings: &Vec<Binding>, shape: &mut Shape)
    requires
        old(shape).leaves <= old(shape).tokens@.len(),
    ensures
        tokens_of(final(shape).tokens@) == tokens_of(old(shape).tokens@) + emit_node(*n, bindings_view(bindings@)).0,
        final(shape).leaves == old(shape).leaves + emit_node(*n, bindings_view(bindings@)).1,
        final(shape).leaves <= final(shape).tokens@.len(),
    decreases n, n.children@.len() + 1,
{
    let ghost bv = bindings_view(bindings@);
    if str_eq(n.kind.as_str(), "comment") || str_eq(n.kind.as_str(), ";") {
        assert(tokens_of(shape.tokens@) =~= tokens_of(old(shape).tokens@) + Seq::<Seq<char>>::empty());
        return ;
    }
    let k = to_chars(n.kind.as_str());
    let open = concat("(", k.as_slice());
    proof {
        reveal_strlit("(");
        assert(open@ =~= open_token(*n));
    }
    push_token(shape, from_chars(open.as_slice()));
    if n.children.len() == 0 {
        push_token(shape, leaf_text(n, bindings));
        let _count = shape.tokens.len();
        shape.leaves = shape.leaves + 1;
    } else {
        emit_children(n, n.children.len(), bindings, shape);
    }
    let close = to_chars(")");
    proof {
        reveal_strlit(")");
        assert(close@ =~= seq![')']);
    }
    push_token(shape, from_chars(close.as_slice()));
    proof {
        if n.children@.len() == 0 {
            assert(tokens_of(shape.tokens@) =~= tokens_of(old(shape).tokens@) + emit_node(*n, bv).0);
        } else {
            assert(tokens_of(shape.tokens@) =~= tokens_of(old(shape).tokens@) + emit_node(*n, bv).0);
        }
    }
}

/// Appends the tokens of the first `k` children of `n`.
fn emit_children(n: &SyntaxNode, k: usize, bindings: &Vec<Binding>, shape: &mut Shape)
    requires
        k <= n.children@.len(),
        old(shape).leaves <= old(shape).tokens@.len(),
    ensures
        tokens_of(final(shape).tokens@) == tokens_of(old(shape).tokens@) + emit_list(*n, k as int, bindings_view(bindings@)).0,
        final(shape).leaves == old(shape).leaves + emit_list(*n, k as int, bindings_view(bindings@)).1,
        final(shape).leaves <= final(shape).tokens@.len(),
    decreases n, k,
{
    let ghost bv = bindings_view(bindings@);
    let ghost t0 = tokens_of(shape.tokens@);
    let ghost l0 = shape.leaves as int;
    let mut i: usize = 0;
    while i < k
        invariant
            bv == bindings_view(bindings@),
            k <= n.children@.len(),
            i <= k,
            t0 == tokens_of(old(shape).tokens@),
            l0 == old(shape).leaves,
            tokens_of(shape.tokens@) == t0 + emit_list(*n, i as int, bv).0,
            shape.leaves == l0 + emit_list(*n, i as int, bv).1,
            shape.leaves <= shape.tokens@.len(),
        decreases k - i,
    {
        emit(&n.children[i], bindings, shape);
        proof {
            assert(t0 + emit_list(*n, i as int + 1, bv).0 =~= t0 + emit_list(*n, i as int, bv).0 + emit_node(
                n.children@[i as int],
                bv,
            ).0);
        }
        i += 1;
    }
}

/// Binds the parameters in `p` over `s..e` (see `params_list`).
fn bind_params(p: &SyntaxNode, s: usize, e: usize, bindings: &mut Vec<Binding>) -> (ok: bool)
    ensures
        ok == params_list(*p, p.children@.len() as int, s as int, e as int, bindings_view(old(bindings)@)) is Some,
        ok ==> bindings_view(final(bindings)@) == params_list(
            *p,
            p.children@.len() as int,
            s as int,
            e as int,
            bindings_view(old(bindings)@),
        )->0,
{
    let ghost b0 = bindings_view(bindings@);
    let ghost len = p.children@.len() as int;
    let mut i: usize = 0;
    while i < p.children.len()
        invariant
            b0 == bindings_view(old(bindings)@),
            len == p.children@.len(),
            i <= len,
            params_list(*p, i as int, s as int, e as int, b0) is Some,
            bindings_view(bindings@) == params_list(*p, i as int, s as int, e as int, b0)->0,
        decreases len - i,
    {
        let q = &p.children[i];
        if q.named && !str_eq(q.kind.as_str(), "comment") {
            let pat = match child_by_field(q, "pattern") {
                Some(x) => Some(x),
                None => child_by_field(q, "name"),
            };
            let ok = match pat {
                None => false,
                Some(x) => bind(x, s, e, bindings),
            };
            if !ok {
                proof {
                    assert(params_list(*p, i as int + 1, s as int, e as int, b0) is None);
                    lemma_params_stay_none(*p, i as int + 1, len, s as int, e as int, b0);
                }
                return false;
            }
        }
        i += 1;
    }
    true
}

proof fn lemma_params_stay_none(p: SyntaxNode, i: int, k: int, s: int, e: int, b0: Seq<BindingView>)
    requires
        0 < i <= k <= p.children@.len(),
        params_list(p, i, s, e, b0) is None,
    ensures
        params_list(p, k, s, e, b0) is None,
    decreases k - i,
{
    if i < k {
        lemma_params_stay_none(p, i + 1, k, s, e, b0);
    }
}

fn has_async_exec(c: &SyntaxNode) -> (r: bool)
    ensures
        r == has_async(*c),
{
    let mut i: usize = 0;
    while i < c.children.len()
        invariant
            i <= c.children@.len(),
            forall|j: int| 0 <= j < i ==> #[trigger] c.children@[j].kind@ != "async"@,
        decreases c.children@.len() - i,
    {
        if str_eq(c.children[i].kind.as_str(), "async") {
            return true;
        }
        i += 1;
    }
    false
}

/// The node holding the parameters of `callable`.
fn params_node(callable: &SyntaxNode) -> (r: Option<&SyntaxNode>)
    ensures
        r matches Some(p) ==> params_of(*callable) == Some(*p),
        r is None ==> params_of(*callable) is None,
{
    match child_by_field(callable, "parameters") {
        Some(p) => Some(p),
        None => child_by_field(callable, "parameter"),
    }
}

/// The bindings of `callable` (see `callable_bindings`).
fn bindings_of(callable: &SyntaxNode, body: &SyntaxNode) -> (r: Option<Vec<Binding>>)
    ensures
        match callable_bindings(*callable, *body) {
            None => r is None,
            Some(bs) => r matches Some(v) && bindings_view(v@) == bs,
        },
{
    let s = callable.start_byte;
    let e = callable.end_byte;
    let mut bindings: Vec<Binding> = Vec::new();
    assert(bindings_view(bindings@) =~= Seq::<BindingView>::empty());
    match child_by_field(callable, "name") {
        Some(nm) => {
            if str_eq(nm.kind.as_str(), "identifier") {
                if !bind(nm, s, e, &mut bindings) {
                    return None;
                }
            }
        },
        None => {},
    }
    match params_node(callable) {
        Some(p) => {
            if str_eq(p.kind.as_str(), "identifier") {
                if !bind(p, s, e, &mut bindings) {
                    return None;
                }
            } else {
                if !bind_params(p, s, e, &mut bindings) {
                    return None;
                }
            }
        },
        None => {},
    }
    if !declarations(body, None, &mut bindings) {
        return None;
    }
    Some(bindings)
}

/// The shape of a TypeScript/JavaScript callable (see `function_spec`): bindings the
/// callable declares are numbered in declaration order, so renaming them keeps the
/// shape; `None` where the analysis abstains.
pub fn function(callable: &SyntaxNode) -> (r: Option<Shape>)
    ensures
        match function_spec(*callable) {
            None => r is None,
            Some(spec_r) => r matches Some(s) && s@.tokens == spec_r.0 && s.leaves == spec_r.1,
        },
{
    if callable.error {
        return None;
    }
    let body = match child_by_field(callable, "body") {
        Some(b) => b,
        None => {
            return None;
        },
    };
    let ghost c = *callable;
    let bindings = match bindings_of(callable, body) {
        Some(b) => b,
        None => {
            return None;
        },
    };
    let ghost bv = bindings_view(bindings@);
    let params = params_node(callable);
    let mut shape = Shape { tokens: Vec::new(), leaves: 0 };
    push_token(&mut shape, callable.kind.clone());
    if has_async_exec(callable) {
        let a = to_chars("async");
        push_token(&mut shape, from_chars(a.as_slice()));
    }
    let ghost head = tokens_of(shape.tokens@);
    assert(head =~= seq![c.kind@] + if has_async(c) {
        seq!["async"@]
    } else {
        Seq::<Seq<char>>::empty()
    });
    match params {
        Some(p) => emit(p, &bindings, &mut shape),
        None => {},
    }
    let ghost after_params = tokens_of(shape.tokens@);
    match child_by_field(callable, "return_type") {
        Some(rt) => emit(rt, &bindings, &mut shape),
        None => {},
    }
    let ghost after_rt = tokens_of(shape.tokens@);
    emit(body, &bindings, &mut shape);
    proof {
        let (t1, l1) = emit_opt(params_of(c), bv);
        let (t2, l2) = emit_opt(field_child(c, "return_type"@), bv);
        let (t3, l3) = emit_node(*body, bv);
        assert(after_params =~= head + t1);
        assert(after_rt =~= head + t1 + t2);
        assert(tokens_of(shape.tokens@) =~= head + t1 + t2 + t3);
    }
    Some(shape)
}


// ---------------------------------------------------------------- statement windows

/// Bindings declared by the first `k` statements of a window, in order; `anc` is
/// the scope the statements sit in.
pub open spec fn window_bindings(w: Seq<SyntaxNode>, anc: Option<(int, int)>, k: int) -> Option<Seq<BindingView>>
    decreases k,
{
    if k <= 0 || k > w.len() {
        Some(seq![])
    } else {
        match window_bindings(w, anc, k - 1) {
            None => None,
            Some(b) => decl_node(w[k - 1], anc, b),
        }
    }
}

/// Tokens and leaf count of the first `k` statements of a window.
pub open spec fn window_tokens(w: Seq<SyntaxNode>, bs: Seq<BindingView>, k: int) -> (Seq<Seq<char>>, int)
    decreases k,
{
    if k <= 0 || k > w.len() {
        (seq![], 0)
    } else {
        let (t, l) = window_tokens(w, bs, k - 1);
        let (t2, l2) = emit_node(w[k - 1], bs);
        (t + t2, l + l2)
    }
}

/// The shape of a window of statements of `parent`: the tokens of each statement,
/// names declared inside the window numbered as in `function_spec`; `None` on syntax
/// errors or bindings the analysis does not follow.
pub open spec fn statements_spec(parent: SyntaxNode, w: Seq<SyntaxNode>) -> Option<(Seq<Seq<char>>, int)> {
    if exists|i: int| 0 <= i < w.len() && #[trigger] w[i].error {
        None
    } else {
        match window_bindings(w, child_scope(parent, None), w.len() as int) {
            None => None,
            Some(bs) => Some(window_tokens(w, bs, w.len() as int)),
        }
    }
}

proof fn lemma_window_stays_none(w: Seq<SyntaxNode>, anc: Option<(int, int)>, i: int, k: int)
    requires
        0 < i <= k <= w.len(),
        window_bindings(w, anc, i) is None,
    ensures
        window_bindings(w, anc, k) is None,
    decreases k - i,
{
    if i < k {
        lemma_window_stays_none(w, anc, i + 1, k);
    }
}

pub open spec fn deref_nodes(w: Seq<&SyntaxNode>) -> Seq<SyntaxNode> {
    w.map_values(|n: &SyntaxNode| *n)
}

/// The shape of a window of statements of `parent` (see `statements_spec`).
pub fn statements(parent: &SyntaxNode, window: &Vec<&SyntaxNode>) -> (r: Option<Shape>)
    ensures
        match statements_spec(*parent, deref_nodes(window@)) {
            None => r is None,
            Some(spec_r) => r matches Some(s) && s@.tokens == spec_r.0 && s.leaves == spec_r.1,
        },
{
    let ghost w = deref_nodes(window@);
    let mut i: usize = 0;
    while i < window.len()
        invariant
            w == deref_nodes(window@),
            i <= window@.len(),
            forall|j: int| 0 <= j < i ==> !(#[trigger] w[j]).error,
        decreases window@.len() - i,
    {
        if window[i].error {
            assert(w[i as int].error);
            return None;
        }
        i += 1;
    }
    let anc = if scope_kind_exec(parent.kind.as_str()) {
        Some((parent.start_byte, parent.end_byte))
    } else {
        None
    };
    assert(scope_view(anc) == child_scope(*parent, None));
    let mut bindings: Vec<Binding> = Vec::new();
    assert(bindings_view(bindings@) =~= Seq::<BindingView>::empty());
    let mut k: usize = 0;
    while k < window.len()
        invariant
            w == deref_nodes(window@),
            k <= window@.len(),
            forall|j: int| 0 <= j < w.len() ==> !(#[trigger] w[j]).error,
            scope_view(anc) == child_scope(*parent, None),
            window_bindings(w, scope_view(anc), k as int) is Some,
            bindings_view(bindings@) == window_bindings(w, scope_view(anc), k as int)->0,
        decreases window@.len() - k,
    {
        if !declarations(window[k], anc, &mut bindings) {
            proof {
                assert(window_bindings(w, scope_view(anc), k + 1) is None);
                lemma_window_stays_none(w, scope_view(anc), k + 1, w.len() as int);
            }
            return None;
        }
        k += 1;
    }
    let ghost bv = bindings_view(bindings@);
    let mut shape = Shape { tokens: Vec::new(), leaves: 0 };
    assert(tokens_of(shape.tokens@) =~= Seq::<Seq<char>>::empty());
    let mut k: usize = 0;
    while k < window.len()
        invariant
            w == deref_nodes(window@),
            bv == bindings_view(bindings@),
            k <= window@.len(),
            forall|j: int| 0 <= j < w.len() ==> !(#[trigger] w[j]).error,
            bv == window_bindings(w, child_scope(*parent, None), w.len() as int)->0,
            window_bindings(w, child_scope(*parent, None), w.len() as int) is Some,
            tokens_of(shape.tokens@) == window_tokens(w, bv, k as int).0,
            shape.leaves == window_tokens(w, bv, k as int).1,
            shape.leaves <= shape.tokens@.len(),
        decreases window@.len() - k,
    {
        emit(window[k], &bindings, &mut shape);
        proof {
            assert(window_tokens(w, bv, k + 1).0 =~= window_tokens(w, bv, k as int).0 + emit_node(w[k as int], bv).0);
        }
        k += 1;
    }
    Some(shape)
}

} // verus!
