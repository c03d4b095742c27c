use dupfinder::normalized::{function, Shape};
use dupfinder::syntax::{parse, Grammar};

fn shape(src: &str) -> Option<Shape> {
    let root = parse(Grammar::TypeScript, src).unwrap();
    let first = root.children.iter().find(|c| c.named).unwrap();
    function(first)
}

#[test]
fn matches_renamed_bindings_and_comments() {
    let a = shape("function sum(items: number[]) { let total = 0; for (const item of items) { total += item; } return total; }").unwrap();
    let b = shape("function count(values: number[]) { /* comment */ let result = 0; for (const value of values) { result += value; } return result; }").unwrap();
    assert_eq!(a.tokens, b.tokens);
}

#[test]
fn preserves_semantic_tokens() {
    let original = "function f(x: number) { const y = encrypt(x + 1); return store.active + y; }";
    let a = shape(original).unwrap();
    for changed in [
        original.replace("+ 1", "- 1"),
        original.replace("+ 1", "+ 2"),
        original.replace("active", "archived"),
        original.replace("encrypt", "decrypt"),
    ] {
        assert_ne!(a.tokens, shape(&changed).unwrap().tokens);
    }
    assert_ne!(
        shape("function a(x) { return {x}; }").unwrap().tokens,
        shape("function b(y) { return {y}; }").unwrap().tokens
    );
}

#[test]
fn does_not_leak_block_bindings_or_guess_unsupported_scopes() {
    assert_ne!(
        shape("function a() { { const x = 1; } return x; }").unwrap().tokens,
        shape("function b() { { const y = 1; } return y; }").unwrap().tokens
    );
    for src in [
        "function f(x) { { let x = 2; } return x; }",
        "function f({x}) { return x; }",
        "function f(x) { return () => x; }",
        "function f(x) { var y = x; return y; }",
        "function f(x) { return eval('x'); }",
    ] {
        assert!(shape(src).is_none(), "{src}");
    }
}

#[test]
fn bound_names_become_binding_numbers() {
    let s = shape("function f(a) { return f(a); }").unwrap();
    assert_eq!(s.tokens[0], "function_declaration");
    assert!(s.tokens.iter().any(|t| t == "binding:0"));
    assert!(s.tokens.iter().any(|t| t == "binding:1"));
    assert!(!s.tokens.iter().any(|t| t == "a" || t == "f"));
    assert!(s.leaves > 0);
}

#[test]
fn syntax_errors_give_no_shape() {
    assert!(shape("function f(a) { return a +; }").is_none());
}

#[test]
fn comments_anywhere_leave_the_shape() {
    let a = shape("function f(a, b) { const c = a + b; return c; }").unwrap();
    let b = shape("function f(/* x */ a, b) { // lead\n const c = a /* mid */ + b; /* tail */ return c; }").unwrap();
    assert_eq!(a.tokens, b.tokens);
    assert_eq!(a.leaves, b.leaves);
}

#[test]
fn longer_renamed_bindings_keep_the_shape() {
    let a = shape("function f(a) { const b = a * 2; return b; }").unwrap();
    let b = shape("function f(amount) { const doubled = amount * 2; return doubled; }").unwrap();
    assert_eq!(a.tokens, b.tokens);
    assert_eq!(a.leaves, b.leaves);
}
