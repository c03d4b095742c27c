use dupfinder::clones::{clones_from_report, clones_from_report_text, scan_plan, ReportDuplicate, ReportSide, TokenClone};
use dupfinder::gitdiff::ChangedRanges;

#[test]
fn clones_must_overlap_changed_lines_in_the_same_file() {
    let clone = TokenClone {
        file_a: "src/a.ts".into(),
        a: (10, 20),
        file_b: "src/b.ts".into(),
        b: (30, 40),
        lines: 10,
    };
    for (file, range, expected) in [
        ("src/a.ts", (1, 9), false),
        ("src/a.ts", (20, 20), true),
        ("src/b.ts", (35, 36), true),
        ("other/src/a.ts", (10, 20), false),
    ] {
        let mut changed = ChangedRanges::new();
        changed.insert(file.to_string(), vec![range]);
        assert_eq!(clone.touches_change(&changed), expected);
    }
}

#[test]
fn a_clone_touches_nothing_when_nothing_changed() {
    let clone = TokenClone {
        file_a: "src/a.ts".into(),
        a: (1, 5),
        file_b: "src/a.ts".into(),
        b: (7, 9),
        lines: 5,
    };
    assert!(!clone.touches_change(&ChangedRanges::new()));
}

#[test]
fn only_clones_touching_the_change_are_kept_in_order() {
    let make = |file_a: &str, a: (u32, u32), file_b: &str, b: (u32, u32)| TokenClone {
        file_a: file_a.into(),
        a,
        file_b: file_b.into(),
        b,
        lines: 3,
    };
    let list = vec![
        make("x.ts", (1, 3), "y.ts", (1, 3)),
        make("a.ts", (5, 8), "z.ts", (1, 3)),
        make("q.ts", (1, 3), "a.ts", (9, 9)),
    ];
    let mut changed = ChangedRanges::new();
    changed.insert("a.ts".to_string(), vec![(8, 9)]);
    let hits = dupfinder::clones::clones_touching(&list, &changed);
    assert_eq!(hits.len(), 2);
    assert_eq!(hits[0].file_a, "a.ts");
    assert_eq!(hits[1].file_a, "q.ts");
}

#[test]
fn report_entries_become_relative_clones_and_incomplete_ones_are_dropped() {
    let side = |name: Option<&str>, start: Option<u64>, end: Option<u64>| ReportSide {
        name: name.map(|n| n.to_string()),
        start,
        end,
    };
    let report = vec![
        ReportDuplicate {
            first: side(Some("/repo/src/a.ts"), Some(3), Some(9)),
            second: side(Some("./src/b.ts"), Some(20), Some(26)),
            lines: Some(7),
        },
        ReportDuplicate {
            first: side(Some("/repo/src/c.ts"), None, Some(9)),
            second: side(Some("/repo/src/d.ts"), Some(1), Some(2)),
            lines: Some(2),
        },
        ReportDuplicate {
            first: side(Some("/repo/x.ts"), Some(1), Some(4)),
            second: side(Some("/repo/y.ts"), Some(5), Some(8)),
            lines: None,
        },
    ];
    let clones = clones_from_report("/repo", &report);
    assert_eq!(clones.len(), 2);
    assert_eq!(clones[0].file_a, "src/a.ts");
    assert_eq!(clones[0].file_b, "src/b.ts");
    assert_eq!((clones[0].a, clones[0].b, clones[0].lines), ((3, 9), (20, 26), 7));
    assert_eq!((clones[1].file_a.as_str(), clones[1].lines), ("x.ts", 0));
}

#[test]
fn the_scan_prefers_jscpd_then_npx_and_defaults_without_a_config() {
    assert!(scan_plan(false, false, false).is_none());
    let plan = scan_plan(true, true, true).unwrap();
    assert_eq!(plan.program, "jscpd");
    assert_eq!(plan.before_output, vec!["--reporters", "json", "--silent", "--output"]);
    assert!(plan.after_output.is_empty());
    let plan = scan_plan(false, true, false).unwrap();
    assert_eq!(plan.program, "npx");
    assert_eq!(plan.before_output[..2], ["--yes", "jscpd"]);
    assert_eq!(plan.after_output[..2], ["--min-tokens", "70"]);
    assert_eq!(plan.after_output.last().unwrap(), ".");
}

#[test]
fn report_text_is_read_entry_by_entry() {
    let text = r#"{"duplicates": [
        {"firstFile": {"name": "/repo/src/a.ts", "start": 3, "end": 9},
         "secondFile": {"name": "./src/b.ts", "start": 20, "end": 26}, "lines": 7},
        {"firstFile": {"name": "/repo/src/c.ts"}, "secondFile": {"name": "/repo/d.ts", "start": 1, "end": 2}}
    ]}"#;
    let clones = clones_from_report_text("/repo", text).unwrap();
    assert_eq!(clones.len(), 1);
    assert_eq!((clones[0].file_a.as_str(), clones[0].file_b.as_str()), ("src/a.ts", "src/b.ts"));
    assert_eq!((clones[0].a, clones[0].b, clones[0].lines), ((3, 9), (20, 26), 7));
    assert!(clones_from_report_text("/repo", "{\"duplicates\": []}").unwrap().is_empty());
    assert!(clones_from_report_text("/repo", "{}").unwrap().is_empty());
    assert!(clones_from_report_text("/repo", "not json").is_none());
}
