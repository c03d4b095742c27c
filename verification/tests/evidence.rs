use dupfinder::audit::{EvidenceKind, Site};
use dupfinder::clones::TokenClone;
use dupfinder::evidence::{assemble_findings, collect, Finding};
use dupfinder::exclude::build_globs;
use dupfinder::walk::{extract_source, SourceKind};
use dupfinder::extract::{Extraction, FnRecord};

fn site(file: &str, start: u32, end: u32) -> Site {
    Site { file: file.into(), start, end }
}

fn function(file: &str, start: u32, end: u32) -> FnRecord {
    FnRecord {
        name: "f".into(),
        context: String::new(),
        sig: String::new(),
        doc: String::new(),
        body: String::new(),
        file: file.into(),
        start,
        end,
        public: true,
        shape: None,
    }
}

#[test]
fn findings_inside_functions_widen_to_the_enclosing_function() {
    let ex = Extraction {
        fns: vec![function("b.ts", 1, 50), function("b.ts", 10, 20), function("a.ts", 1, 30)],
        types: vec![],
    };
    let findings = vec![
        Finding { a: site("b.ts", 12, 14), b: site("a.ts", 5, 9), kind: EvidenceKind::Block, name_score: 0 },
        Finding { a: site("a.ts", 2, 3), b: site("b.ts", 11, 19), kind: EvidenceKind::Name, name_score: 700 },
    ];
    let pairs = collect(&findings, &ex);
    assert_eq!(pairs.len(), 1);
    let p = &pairs[0];
    assert_eq!((p.a.file.as_str(), p.a.start, p.a.end), ("a.ts", 1, 30));
    assert_eq!((p.b.file.as_str(), p.b.start, p.b.end), ("b.ts", 10, 20));
    assert!(p.evidence.block && p.evidence.name && !p.evidence.body && !p.evidence.clone);
    assert_eq!(p.lines, 3);
    assert_eq!(p.name_score, 700);
    assert_eq!(p.fragments.len(), 2);
    assert_eq!(p.fragments[0].a.start, 12);
}

#[test]
fn pairs_come_in_site_order_and_name_lines_do_not_count() {
    let ex = Extraction { fns: vec![], types: vec![] };
    let findings = vec![
        Finding { a: site("z.ts", 1, 40), b: site("y.ts", 1, 40), kind: EvidenceKind::Name, name_score: 300 },
        Finding { a: site("b.ts", 5, 9), b: site("a.ts", 1, 2), kind: EvidenceKind::Clone, name_score: 0 },
    ];
    let pairs = collect(&findings, &ex);
    assert_eq!(pairs.len(), 2);
    assert_eq!(pairs[0].a.file, "a.ts");
    assert_eq!(pairs[0].b.file, "b.ts");
    assert_eq!(pairs[0].lines, 2);
    assert_eq!(pairs[1].a.file, "y.ts");
    assert_eq!(pairs[1].lines, 0);
    assert_eq!(pairs[1].name_score, 300);
}

#[test]
fn findings_come_as_bodies_then_blocks_then_allowed_clones() {
    let body = "{ const total = sum(items, 0); const mean = total / items.length; const scaled = Math.round(mean * 100) / 100; return scaled + offset * factor(items, total); }";
    let src = format!("function first(items: number[], offset: number) {body}\nfunction second(items: number[], offset: number) {body}\n");
    let mut ex = Extraction { fns: vec![], types: vec![] };
    extract_source(SourceKind::TypeScript, &src, "src/m.ts", &mut ex);
    let clone = |file_b: &str| TokenClone { file_a: "src/x.ts".into(), a: (1, 9), file_b: file_b.into(), b: (3, 11), lines: 9 };
    let clones = vec![clone("gen/y.ts"), clone("src/y.ts"), clone("src/y.test.ts")];
    let globs = build_globs(&vec!["gen/**".to_string()]).ok().unwrap();
    let findings = assemble_findings(&ex, &[], &clones, &globs, false);
    assert_eq!(findings.len(), 2);
    assert!(matches!(findings[0].kind, EvidenceKind::Body));
    assert_eq!((findings[0].a.file.as_str(), findings[0].a.start), ("src/m.ts", 1));
    assert_eq!((findings[0].b.file.as_str(), findings[0].b.start), ("src/m.ts", 2));
    assert!(matches!(findings[1].kind, EvidenceKind::Clone));
    assert_eq!((findings[1].b.file.as_str(), findings[1].b.start, findings[1].b.end), ("src/y.ts", 3, 11));
}
