use dupfinder::blocks::{extract, extract_tree, pairs, Block};
use dupfinder::syntax::{child_by_field, parse, Grammar};

fn location(block: &Block) -> (String, u32, u32, usize, usize) {
    (block.file.clone(), block.start, block.end, block.bytes.start, block.bytes.end)
}

fn scan(src: &str, file: &str) -> Vec<Block> {
    let root = parse(Grammar::TypeScript, src).unwrap();
    let function = root.children.iter().find(|c| c.named).unwrap();
    let body = child_by_field(function, "body").unwrap();
    let mut blocks = Vec::new();
    extract(body, file, &mut blocks);
    blocks
}

#[test]
fn detects_byte_disjoint_windows_on_one_line() {
    let src = "function a(){alpha(one,two,three);beta(four,five,six);gamma(seven,eight,nine);} function b(){alpha(one,two,three);beta(four,five,six);gamma(seven,eight,nine);}";
    let root = parse(Grammar::TypeScript, src).unwrap();
    let mut blocks = Vec::new();
    for function in root.children.iter().filter(|c| c.named) {
        extract(child_by_field(function, "body").unwrap(), "a.ts", &mut blocks);
    }
    assert_eq!(pairs(&blocks, 20, false, usize::MAX).1.len(), 1);
    let (_, found) = pairs(&blocks, 20, false, 1);
    assert_ne!(location(found[0].a), location(found[0].b));
    assert_eq!(pairs(&blocks, 20, false, 0).0, 1);
    assert!(pairs(&blocks, 20, false, 0).1.is_empty());
}

#[test]
fn finds_internal_windows_despite_different_surrounding_statements() {
    let mut blocks = scan("function a() { before(); const x = input.trim(); const y = codec.encode(x); save(y); after(); }", "a.ts");
    blocks.extend(scan("function b() { other(); const clean = input.trim(); const result = codec.encode(clean); save(result); finish(); }", "b.ts"));
    let found = pairs(&blocks, 20, false, usize::MAX).1;
    assert_eq!(found.len(), 1);
    assert!(pairs(&blocks, 100, false, usize::MAX).1.is_empty());
}

#[test]
fn preserves_external_names_and_excludes_test_files() {
    let mut blocks = scan(
        "function a() { const x = input.trim(); const y = codec.encode(x); save(y); }",
        "a.ts",
    );
    blocks.extend(scan(
        "function b() { const x = other.trim(); const y = codec.encode(x); save(y); }",
        "b.ts",
    ));
    blocks.extend(scan(
        "function c() { const x = input.trim(); const y = codec.encode(x); save(y); }",
        "a.test.ts",
    ));
    assert!(pairs(&blocks, 20, false, usize::MAX).1.is_empty());
    assert_eq!(pairs(&blocks, 20, true, usize::MAX).1.len(), 1);
}

#[test]
fn windows_need_three_statements_and_skip_comments() {
    assert!(scan("function a() { one(); /* note */ two(); }", "a.ts").is_empty());
    let blocks = scan("function a() { one(); /* note */ two(); three(); four(); }", "a.ts");
    assert_eq!(blocks.len(), 2);
    assert_eq!((blocks[0].start, blocks[0].end), (1, 1));
}

#[test]
fn tree_walk_collects_windows_of_every_block_outer_first() {
    let src = "function a() { one(); two(); three(); if (x) { four(); five(); six(); seven(); } }\nfunction b() { one(); two(); }";
    let root = parse(Grammar::TypeScript, src).unwrap();
    let mut blocks = Vec::new();
    extract_tree(&root, "a.ts", &mut blocks);
    assert_eq!(blocks.len(), 4);
    assert!(blocks[0].bytes.start < blocks[2].bytes.start);
    assert_eq!(blocks[2].bytes.start, src.find("four").unwrap());
    assert_eq!(blocks[3].bytes.start, src.find("five").unwrap());
    assert!(blocks.iter().all(|b| b.file == "a.ts" && b.start == 1 && b.end == 1));
}

#[test]
fn a_smaller_limit_lists_a_prefix() {
    let body = "alpha(one,two,three);beta(four,five,six);gamma(seven,eight,nine);delta(ten,eleven,twelve);";
    let src = format!("function a(){{{body}}} function b(){{{body}}} function c(){{{body}}}");
    let root = parse(Grammar::TypeScript, &src).unwrap();
    let mut blocks = Vec::new();
    extract_tree(&root, "a.ts", &mut blocks);
    let (total, all) = pairs(&blocks, 20, false, usize::MAX);
    assert!(all.len() >= 3);
    for k in 0..all.len() + 2 {
        let (t, some) = pairs(&blocks, 20, false, k);
        assert_eq!(t, total);
        let expected: Vec<_> = all.iter().take(k).map(|p| (location(p.a), location(p.b))).collect();
        let got: Vec<_> = some.iter().map(|p| (location(p.a), location(p.b))).collect();
        assert_eq!(got, expected);
    }
}

#[test]
fn nested_blocks_carry_the_file_and_their_own_windows() {
    let src = "function a() { if (x) { one(); two(); three(); } }";
    let root = parse(Grammar::TypeScript, src).unwrap();
    let mut blocks = Vec::new();
    extract_tree(&root, "src/n.ts", &mut blocks);
    assert_eq!(blocks.len(), 1);
    assert_eq!(blocks[0].file, "src/n.ts");
    assert_eq!(blocks[0].bytes.start, src.find("one").unwrap());
}
