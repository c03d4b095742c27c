use dupfinder::extract::{Extraction, FnRecord, TypeRecord};
use dupfinder::index::{clip, first_sentence, index_markdown};

fn function(name: &str, sig: &str, file: &str, start: u32, public: bool, doc: &str) -> FnRecord {
    FnRecord {
        name: name.into(),
        context: String::new(),
        sig: sig.into(),
        doc: doc.into(),
        body: String::new(),
        file: file.into(),
        start,
        end: start + 2,
        public,
        shape: None,
    }
}

#[test]
fn clip_keeps_short_text_and_marks_cuts() {
    assert_eq!(clip("abc", 3), "abc");
    assert_eq!(clip("abcdef", 3), "abc…");
    assert_eq!(clip("", 0), "");
}

#[test]
fn first_sentence_stops_at_the_first_period_space() {
    assert_eq!(first_sentence("Adds one. Then more."), "Adds one");
    assert_eq!(first_sentence("No stop here"), "No stop here");
    assert_eq!(first_sentence(&"x".repeat(200)).chars().count(), 111);
}

#[test]
fn index_lists_files_in_order_with_types_before_functions() {
    let ex = Extraction {
        fns: vec![
            function("b", "pub fn b(x: u32) -> u32", "src/z.rs", 7, true, "Doubles. More."),
            function("hidden", "fn hidden()", "src/a.rs", 3, false, ""),
            function("t", "pub fn t()", "tests/t.rs", 1, true, ""),
        ],
        types: vec![TypeRecord {
            name: "Point".into(),
            kind: "struct".into(),
            doc: String::new(),
            file: "src/z.rs".into(),
            start: 2,
            end: 4,
            public: true,
        }],
    };
    let (md, n) = index_markdown(&ex, false);
    assert_eq!(n, 2);
    assert_eq!(
        md,
        "# API index\n\nGenerated by dupfinder. Grep here for an existing helper before writing a new one.\n\n## src/z.rs\n- struct `Point`  (src/z.rs:2)\n- `fn b(x: u32) -> u32` — Doubles  (src/z.rs:7)\n"
    );
    let (all, m) = index_markdown(&ex, true);
    assert_eq!(m, 3);
    assert!(all.contains("\n## src/a.rs\n- `fn hidden()`  (src/a.rs:3)\n"));
    assert!(!all.contains("tests/t.rs:1)"));
}
