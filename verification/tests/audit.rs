use dupfinder::audit::{group, Evidence, Pair, Site};

fn evidence(kind: &str) -> Evidence {
    Evidence {
        name: kind == "name",
        body: kind == "body",
        block: kind == "block",
        clone: kind == "clone",
    }
}

fn pair(a: &str, b: &str, kind: &str) -> Pair {
    Pair {
        a: Site { file: a.into(), start: 1, end: 10 },
        b: Site { file: b.into(), start: 1, end: 10 },
        evidence: evidence(kind),
        lines: 10,
        name_score: 500,
        fragments: vec![],
    }
}

#[test]
fn names_cannot_bridge_distinct_structural_groups() {
    let pairs = vec![pair("a", "b", "body"), pair("c", "d", "block"), pair("b", "c", "name")];
    let groups = group(&pairs);
    assert_eq!(groups, vec![vec![0], vec![1], vec![2]]);
}

#[test]
fn related_structural_edges_group_once_and_rank_first() {
    let pairs = vec![
        pair("x", "y", "name"),
        pair("a", "b", "body"),
        pair("b", "c", "block"),
        pair("a", "c", "name"),
    ];
    assert_eq!(group(&pairs), vec![vec![1, 2, 3], vec![0]]);
    assert!(group(&[]).is_empty());
}

#[test]
fn longer_matches_rank_before_shorter_ones() {
    let mut short = pair("a", "b", "body");
    short.lines = 5;
    let long = pair("c", "d", "body");
    assert_eq!(group(&[short, long]), vec![vec![1], vec![0]]);
}

#[test]
fn more_evidence_kinds_rank_first() {
    let mut both = pair("c", "d", "body");
    both.evidence.clone = true;
    assert_eq!(group(&[pair("a", "b", "body"), both]), vec![vec![1], vec![0]]);
}

#[test]
fn a_chain_of_shared_sites_forms_one_group() {
    let pairs = vec![
        pair("a", "b", "clone"),
        pair("p", "q", "name"),
        pair("c", "d", "body"),
        pair("b", "c", "block"),
    ];
    assert_eq!(group(&pairs), vec![vec![0, 2, 3], vec![1]]);
}

#[test]
fn group_summaries_list_sites_once_in_order_and_all_evidence() {
    let pairs = vec![pair("b", "a", "body"), pair("a", "c", "name")];
    let sites = dupfinder::audit::group_sites(&pairs, &vec![0, 1]);
    let names: Vec<&str> = sites.iter().map(|s| s.file.as_str()).collect();
    assert_eq!(names, vec!["a", "b", "c"]);
    let e = dupfinder::audit::group_evidence(&pairs, &vec![0, 1]);
    assert!(e.body && e.name && !e.block && !e.clone);
}
