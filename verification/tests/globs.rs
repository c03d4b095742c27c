use dupfinder::exclude::{build_globs, GlobError};

#[test]
fn dir_glob_also_matches_the_dir_itself() {
    let set = build_globs(&vec!["examples/**".to_string()]).ok().unwrap();
    assert!(set.is_match("examples/breakout/game.fun"));
    assert!(set.is_match("examples"));
    assert!(!set.is_match("functor-lang/src/parser.rs"));
}

#[test]
fn multiple_patterns_union() {
    let set = build_globs(&vec!["site/demos/**".to_string(), "**/*.test.ts".to_string()]).ok().unwrap();
    assert!(set.is_match("site/demos/mcp-drive.mjs"));
    assert!(set.is_match("tools/sdk/test/world-aim.test.ts"));
    assert!(!set.is_match("src/main.rs"));
}

#[test]
fn bad_glob_is_an_error_not_a_panic() {
    assert!(build_globs(&vec!["[unclosed".to_string()]).is_err());
}

#[test]
fn the_first_bad_pattern_is_named() {
    match build_globs(&vec!["ok/**".to_string(), "[bad".to_string(), "[worse".to_string()]) {
        Err(GlobError::Pattern { pattern, .. }) => assert_eq!(pattern, "[bad"),
        _ => panic!("expected a pattern error"),
    }
}

#[test]
fn test_files_and_excluded_files_are_not_allowed() {
    let set = build_globs(&vec!["gen/**".to_string()]).ok().unwrap();
    assert!(dupfinder::exclude::allowed_file(&set, false, "src/a.ts"));
    assert!(!dupfinder::exclude::allowed_file(&set, false, "gen/a.ts"));
    assert!(!dupfinder::exclude::allowed_file(&set, false, "src/a.test.ts"));
    assert!(dupfinder::exclude::allowed_file(&set, true, "src/a.test.ts"));
}
