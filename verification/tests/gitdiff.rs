use dupfinder::gitdiff::{changed_ranges, diff_ranges_fit, overlaps, resolve_base, BaseStep};

#[test]
fn hunks_give_new_side_ranges_and_untracked_files_whole_ranges() {
    let diff = "diff --git a/src/a.ts b/src/a.ts\n--- a/src/a.ts\n+++ b/src/a.ts\n@@ -1 +1 @@\n-const value = 1;\n+const value = 2;\n@@ -10,0 +11,3 @@\n+x\n+y\n+z\ndiff --git a/gone.ts b/gone.ts\n--- a/gone.ts\n+++ /dev/null\n@@ -1,2 +0,0 @@\n-a\n-b\n";
    assert!(diff_ranges_fit(diff));
    let changed = changed_ranges(diff, "new.ts\n\n");
    assert_eq!(changed.len(), 2);
    assert_eq!(changed.get("src/a.ts").unwrap().clone(), vec![(1, 1), (11, 13)]);
    assert_eq!(changed.get("new.ts").unwrap().clone(), vec![(1, u32::MAX)]);
    assert!(changed.get("gone.ts").is_none());
}

#[test]
fn pure_deletions_leave_no_range() {
    let diff = "+++ b/src/a.ts\n@@ -5,2 +4,0 @@\n";
    let changed = changed_ranges(diff, "");
    assert!(changed.is_empty());
}

#[test]
fn ranges_overlap_inclusively() {
    let ranges = [(10, 20), (30, 40)];
    assert!(overlaps(&ranges, 20, 25));
    assert!(overlaps(&ranges, 1, 10));
    assert!(!overlaps(&ranges, 21, 29));
    assert!(!overlaps(&[], 1, 100));
}

#[test]
fn an_explicit_base_wins_and_candidates_are_tried_in_order() {
    match resolve_base(Some("dev".to_string()), &[]) {
        BaseStep::Found(b) => assert_eq!(b, "dev"),
        _ => panic!("expected the explicit base"),
    }
    match resolve_base(None, &[]) {
        BaseStep::Probe(c) => assert_eq!(c, "origin/main"),
        _ => panic!("expected a probe"),
    }
    match resolve_base(None, &[false, true]) {
        BaseStep::Found(b) => assert_eq!(b, "origin/master"),
        _ => panic!("expected origin/master"),
    }
    assert!(matches!(resolve_base(None, &[false, false, false, false]), BaseStep::NotFound));
}

#[test]
fn added_lines_that_look_like_headers_stay_in_their_file() {
    let diff = "diff --git a/a.ts b/a.ts\n--- a/a.ts\n+++ b/a.ts\n@@ -1,0 +1,2 @@\n+++ x\n+y\n@@ -5 +6 @@\n--- q\n+r\n";
    assert!(diff_ranges_fit(diff));
    let changed = changed_ranges(diff, "");
    assert_eq!(changed.len(), 1);
    assert_eq!(changed.get("a.ts").unwrap().clone(), vec![(1, 2), (6, 6)]);
}

#[test]
fn quoted_paths_are_unquoted() {
    let diff = "diff --git \"a/sp\\303\\251 \\\"q\\\".ts\" \"b/sp\\303\\251 \\\"q\\\".ts\"\n--- \"a/sp\\303\\251 \\\"q\\\".ts\"\n+++ \"b/sp\\303\\251 \\\"q\\\".ts\"\n@@ -1 +1 @@\n-a\n+b\n";
    let changed = changed_ranges(diff, "");
    assert_eq!(changed.len(), 1);
    assert_eq!(changed.get("sp\u{e9} \"q\".ts").unwrap().clone(), vec![(1, 1)]);
}
