use dupfinder::extract::Extraction;
use dupfinder::syntax::{parse, Grammar};
use dupfinder::walk::{in_skipped_dir, source_kind, walk_rust, walk_ts, SourceKind};

#[test]
fn extracts_wrappers_properties_and_fields_once_with_ranges() {
    let src = "export const save = React.useCallback((value: string) => {\n  return value.trim();\n}, []);\nexport const api = { clean: (x: string) => x.trim() };\nexport class Store {\n  encode = (x: string) => x.toLowerCase();\n  private hide = () => 1;\n  #secret = () => 2;\n}\nexport const View = memo(forwardRef((props, ref) => props.title));\nconst result = useMemo(() => 42, []);\nconst mapped = items.map(x => x.id);\n";
    let root = parse(Grammar::Tsx, src).unwrap();
    assert!(!root.error);
    let mut ex = Extraction { fns: vec![], types: vec![] };
    walk_ts(&root, "src/example.tsx", &mut ex);
    assert_eq!(
        ex.fns.iter().map(|f| f.name.as_str()).collect::<Vec<_>>(),
        vec!["save", "clean", "encode", "hide", "#secret", "View"]
    );
    assert_eq!((ex.fns[0].start, ex.fns[0].end), (1, 3));
    assert!(ex.fns[0].sig.contains("value: string"));
    assert!(!ex.fns[3].public);
    assert!(!ex.fns[4].public);
}

#[test]
fn ignores_computed_names_and_non_callable_initializers() {
    let src = "const api = { [key]: () => 1, value: makeThing(() => 2) }; class A { data = 1; }";
    let root = parse(Grammar::TypeScript, src).unwrap();
    let mut ex = Extraction { fns: vec![], types: vec![] };
    walk_ts(&root, "src/example.ts", &mut ex);
    assert!(ex.fns.is_empty());
}

#[test]
fn typescript_declarations_carry_docs_context_and_export() {
    let src = "/**\n * Adds one. Then more.\n */\nexport function inc(x: number): number { return x + 1; }\nnamespace N {\n  class Box {\n    open() { return 1; }\n  }\n}\n// Shapes.\nexport interface Shape_Like { x: number }\n";
    let root = parse(Grammar::TypeScript, src).unwrap();
    let mut ex = Extraction { fns: vec![], types: vec![] };
    walk_ts(&root, "a.ts", &mut ex);
    assert_eq!(ex.fns.len(), 2);
    assert_eq!(ex.fns[0].name, "inc");
    assert_eq!(ex.fns[0].doc, "Adds one. Then more.");
    assert!(ex.fns[0].public);
    assert_eq!(ex.fns[0].sig, "function inc(x: number): number");
    assert!(ex.fns[0].shape.is_some());
    assert_eq!(ex.fns[1].name, "open");
    assert_eq!(ex.fns[1].context, "namespace N / class Box");
    let kinds: Vec<(&str, &str, bool)> =
        ex.types.iter().map(|t| (t.name.as_str(), t.kind.as_str(), t.public)).collect();
    assert_eq!(kinds, vec![("Box", "class", false), ("Shape_Like", "interface", true)]);
    assert_eq!(ex.types[1].doc, "Shapes.");
}

#[test]
fn rust_items_carry_docs_context_and_visibility() {
    let src = "/// Parses input.\n#[inline]\npub fn parse(s: &str) -> u32 { 0 }\nmod inner {\n    impl Thing for Other {\n        fn go(&self) {}\n    }\n}\n/// A point.\npub struct Point { x: i32 }\nenum Hidden { A }\n";
    let root = parse(Grammar::Rust, src).unwrap();
    let mut ex = Extraction { fns: vec![], types: vec![] };
    walk_rust(&root, "src/lib.rs", &mut ex);
    assert_eq!(ex.fns.len(), 2);
    assert_eq!(ex.fns[0].name, "parse");
    assert_eq!(ex.fns[0].doc, "Parses input.");
    assert_eq!(ex.fns[0].sig, "pub fn parse(s: &str) -> u32");
    assert!(ex.fns[0].public);
    assert_eq!((ex.fns[0].start, ex.fns[0].end), (3, 3));
    assert_eq!(ex.fns[1].name, "go");
    assert_eq!(ex.fns[1].context, "mod inner / impl Thing for Other");
    assert!(!ex.fns[1].public);
    let kinds: Vec<(&str, &str, bool)> =
        ex.types.iter().map(|t| (t.name.as_str(), t.kind.as_str(), t.public)).collect();
    assert_eq!(kinds, vec![("Point", "struct", true), ("Hidden", "enum", false)]);
    assert_eq!(ex.types[0].doc, "A point.");
}

#[test]
fn source_kinds_follow_the_extension() {
    assert!(source_kind("main.rs") == Some(SourceKind::Rust));
    assert!(source_kind("a.mts") == Some(SourceKind::TypeScript));
    assert!(source_kind("a.jsx") == Some(SourceKind::Tsx));
    assert!(source_kind("game.fun") == Some(SourceKind::Functor));
    assert!(source_kind("types.d.ts").is_none());
    assert!(source_kind("README.md").is_none());
    assert!(source_kind(".rs").is_none());
}

#[test]
fn only_directories_of_the_relative_path_are_skipped() {
    assert!(in_skipped_dir("node_modules/x/a.ts"));
    assert!(in_skipped_dir("src/target/a.rs"));
    assert!(!in_skipped_dir("src/a.rs"));
    assert!(!in_skipped_dir("dist"));
    assert!(!in_skipped_dir("src/distant/a.ts"));
}
