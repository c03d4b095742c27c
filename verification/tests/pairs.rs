use dupfinder::blocks::{families, pairs as block_pairs, Block};
use dupfinder::bodies::pairs as body_pairs;
use dupfinder::extract::{Extraction, FnRecord};
use dupfinder::normalized::Shape;

fn shape(tokens: &[&str], leaves: usize) -> Shape {
    Shape { tokens: tokens.iter().map(|t| t.to_string()).collect(), leaves }
}

fn block(file: &str, start: u32, bytes: std::ops::Range<usize>, tokens: &[&str], leaves: usize) -> Block {
    Block { file: file.into(), start, bytes, end: start + 2, shape: shape(tokens, leaves) }
}

fn function(file: &str, start: u32, end: u32, s: Option<Shape>) -> FnRecord {
    FnRecord {
        name: "f".into(),
        context: String::new(),
        sig: String::new(),
        doc: String::new(),
        body: String::new(),
        file: file.into(),
        start,
        end,
        public: true,
        shape: s,
    }
}

#[test]
fn equal_windows_in_different_files_pair_up() {
    let blocks = vec![
        block("a.ts", 1, 0..30, &["x", "y"], 25),
        block("b.ts", 4, 10..40, &["x", "y"], 25),
        block("c.ts", 1, 0..30, &["z"], 25),
    ];
    let (total, found) = block_pairs(&blocks, 20, false, usize::MAX);
    assert_eq!(total, 1);
    assert_eq!(found.len(), 1);
    assert_eq!((found[0].a.file.as_str(), found[0].b.file.as_str()), ("a.ts", "b.ts"));
    assert_eq!(block_pairs(&blocks, 20, false, 0).0, 1);
    assert!(block_pairs(&blocks, 20, false, 0).1.is_empty());
    assert!(block_pairs(&blocks, 30, false, usize::MAX).1.is_empty());
}

#[test]
fn overlapping_windows_in_one_file_do_not_pair_and_tests_need_opting_in() {
    let blocks = vec![
        block("a.ts", 1, 0..30, &["x"], 25),
        block("a.ts", 1, 20..50, &["x"], 25),
        block("a.test.ts", 1, 0..30, &["x"], 25),
    ];
    assert_eq!(block_pairs(&blocks, 20, false, usize::MAX).0, 0);
    assert_eq!(block_pairs(&blocks, 20, true, usize::MAX).0, 2);
    assert_eq!(families(&blocks, 20, true).len(), 1);
}

#[test]
fn equal_bodies_pair_and_larger_bodies_come_first() {
    let ex = Extraction {
        fns: vec![
            function("a.ts", 1, 5, Some(shape(&["s"], 40))),
            function("b.ts", 1, 5, Some(shape(&["s"], 40))),
            function("c.ts", 1, 5, Some(shape(&["t"], 60))),
            function("d.ts", 9, 12, Some(shape(&["t"], 60))),
            function("e.ts", 1, 5, None),
        ],
        types: vec![],
    };
    let found = body_pairs(&ex, 30, false);
    assert_eq!(found.len(), 2);
    assert_eq!((found[0].a.file.as_str(), found[0].b.file.as_str(), found[0].tokens), ("c.ts", "d.ts", 60));
    assert_eq!((found[1].a.file.as_str(), found[1].b.file.as_str(), found[1].tokens), ("a.ts", "b.ts", 40));
    assert!(body_pairs(&ex, 50, false).len() == 1);
}
