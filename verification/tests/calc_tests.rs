use palpath::calc::{dot_source, search_paths, PalNode, PathSearch, SearchError, MAX_ROUNDS};
use palpath::data::{Data, Record, TieBreakOrder};

fn db(rows: &[(&str, i32, i32)]) -> Data {
    let records: Vec<Record> = rows
        .iter()
        .enumerate()
        .map(|(i, (n, v, _))| Record { id: i as i32, name: n.to_string(), value: *v })
        .collect();
    let ties: Vec<TieBreakOrder> =
        rows.iter().map(|(n, _, r)| TieBreakOrder { order: *r, name: n.to_string() }).collect();
    Data::from_records(&records, &vec![], &ties)
}

fn search(d: &Data, males: Vec<&str>, females: Vec<&str>, target: &str) -> PathSearch {
    match search_paths(d, males, females, target) {
        Ok(r) => r,
        Err((_, SearchError::PalNotFound(n))) => panic!("not found: {}", n),
        Err((_, SearchError::MissingEntry(a, b))) => panic!("missing entry: {} {}", a, b),
    }
}

fn parent_names(n: &PalNode) -> Option<(String, String)> {
    n.parents.as_ref().map(|(l, r)| (l.name.clone(), r.name.clone()))
}

/// Checks that every breeding step of `n` gives what `combine` gives and that the
/// leaves are among `base`.
fn follows(d: &Data, n: &PalNode, base: &[&str]) -> bool {
    match &n.parents {
        None => base.contains(&n.name.as_str()),
        Some((l, r)) => match d.combine(&l.name, &r.name) {
            Ok((c, _)) => c == n.name && follows(d, l, base) && follows(d, r, base),
            Err(_) => false,
        },
    }
}

#[test]
fn path00() {
    let d = db(&[("ヘルガルダ", 100, 2), ("タマコッコ", 10, 3), ("ミルカルビ", 20, 4), ("フェスキー", 55, 1)]);
    let males = vec!["ヘルガルダ"];
    let females = vec!["タマコッコ", "ミルカルビ"];
    let r = search(&d, males, females, "フェスキー");
    assert_eq!(r.first_generation.len(), 2);
    assert!(!r.targets.is_empty());
    for t in &r.targets {
        assert_eq!(t.name, "フェスキー");
        assert!(follows(&d, t, &["ヘルガルダ", "タマコッコ", "ミルカルビ"]));
    }
}

#[test]
fn path01() {
    let d = db(&[("エレパンダ", 10, 2), ("ペコドン", 30, 3), ("ボルゼクス", 20, 1)]);
    let r = search(&d, vec!["エレパンダ"], vec!["ペコドン"], "ボルゼクス");
    assert_eq!(r.first_generation.len(), 1);
    assert_eq!(r.first_generation[0].name, "ボルゼクス");
    assert_eq!(
        parent_names(&r.first_generation[0]),
        Some(("エレパンダ".to_string(), "ペコドン".to_string()))
    );
    // round one: each parent bred with the first generation; round two once more,
    // the first generation staying pending after round one, plus the child with itself
    assert_eq!(r.targets.len(), 5);
    let expected_parents = [
        ("エレパンダ", "ボルゼクス"),
        ("ペコドン", "ボルゼクス"),
        ("エレパンダ", "ボルゼクス"),
        ("ペコドン", "ボルゼクス"),
        ("ボルゼクス", "ボルゼクス"),
    ];
    for (t, (a, b)) in r.targets.iter().zip(expected_parents.iter()) {
        assert_eq!(t.name, "ボルゼクス");
        assert_eq!(parent_names(t), Some((a.to_string(), b.to_string())));
        assert!(follows(&d, t, &["エレパンダ", "ペコドン"]));
    }
}

#[test]
fn unreachable_target_gives_no_tree() {
    let d = db(&[("A", 10, 1), ("B", 30, 2), ("C", 20, 3), ("Z", 1000, 4)]);
    let r = search(&d, vec!["A"], vec!["B"], "Z");
    assert!(r.targets.is_empty());
    assert_eq!(r.first_generation.len(), 1);
    assert_eq!(r.first_generation[0].name, "C");
}

#[test]
fn empty_side_breeds_nothing() {
    let d = db(&[("A", 10, 1), ("B", 30, 2)]);
    let r = search(&d, vec!["A", "unknown"], vec![], "A");
    assert!(r.first_generation.is_empty());
    assert!(r.targets.is_empty());
}

#[test]
fn unknown_parent_is_reported() {
    let d = db(&[("A", 10, 1), ("B", 30, 2)]);
    match search_paths(&d, vec!["A"], vec!["X", "B"], "B") {
        Err((partial, SearchError::PalNotFound(n))) => {
            assert_eq!(n, "X");
            assert!(partial.first_generation.is_empty());
            assert!(partial.targets.is_empty());
        }
        _ => panic!("expected PalNotFound"),
    }
    match search_paths(&d, vec!["Y"], vec!["X"], "B") {
        Err((_, SearchError::PalNotFound(n))) => assert_eq!(n, "Y"),
        _ => panic!("expected PalNotFound"),
    }
}

#[test]
fn failed_search_keeps_the_first_generation_made_so_far() {
    let d = db(&[("A", 10, 1), ("B", 30, 2), ("C", 20, 3)]);
    match search_paths(&d, vec!["A"], vec!["B", "X"], "C") {
        Err((partial, SearchError::PalNotFound(n))) => {
            assert_eq!(n, "X");
            assert_eq!(partial.first_generation.len(), 1);
            assert_eq!(partial.first_generation[0].name, "C");
            assert_eq!(
                parent_names(&partial.first_generation[0]),
                Some(("A".to_string(), "B".to_string()))
            );
            assert!(partial.targets.is_empty());
        }
        _ => panic!("expected PalNotFound"),
    }
}

#[test]
fn missing_entry_is_reported() {
    let records = vec![
        Record { id: 1, name: "A".to_string(), value: 10 },
        Record { id: 2, name: "B".to_string(), value: 30 },
    ];
    let d = Data::from_records(&records, &vec![], &vec![TieBreakOrder { order: 1, name: "A".to_string() }]);
    match search_paths(&d, vec!["A"], vec!["B"], "B") {
        Err((_, SearchError::MissingEntry(a, b))) => assert_eq!((a.as_str(), b.as_str()), ("A", "B")),
        _ => panic!("expected MissingEntry"),
    }
}

#[test]
fn search_rounds_are_bounded() {
    assert_eq!(MAX_ROUNDS, 100);
}

#[test]
fn nodes_copy_their_parents() {
    let a = PalNode::terminal("A");
    let b = PalNode::terminal("B");
    assert_eq!(a.name, "A");
    assert!(a.parents.is_none());
    let c = PalNode::new("C", (&a, &b));
    assert_eq!(c.name, "C");
    assert_eq!(parent_names(&c), Some(("A".to_string(), "B".to_string())));
    let c2 = c.clone();
    assert_eq!(c2.name, "C");
    assert_eq!(parent_names(&c2), Some(("A".to_string(), "B".to_string())));
}

#[test]
fn dot_source_draws_the_tree() {
    let e = PalNode::terminal("E");
    let p = PalNode::terminal("P");
    let b = PalNode::new("B", (&e, &p));
    assert_eq!(
        dot_source(&b),
        "digraph PalNode {\n  node [shape=box];\n  B [label=\"B\"];\n  E [label=\"E\"];\n  P [label=\"P\"];\n  E -> B;\n  P -> B;\n}\n"
    );
    assert_eq!(dot_source(&e), "digraph PalNode {\n  node [shape=box];\n  E [label=\"E\"];\n}\n");
    let top = PalNode::new("T", (&b, &e));
    assert_eq!(
        dot_source(&top),
        "digraph PalNode {\n  node [shape=box];\n  T [label=\"T\"];\n  B [label=\"B\"];\n  E [label=\"E\"];\n  P [label=\"P\"];\n  E -> B;\n  P -> B;\n  E [label=\"E\"];\n  B -> T;\n  E -> T;\n}\n"
    );
}

#[test]
fn dig_breeds_until_the_child_repeats() {
    // fixed parent A (10); B (30) -> C (20) -> mean 15 -> A or C, A ranks first -> A;
    // then A x A = A repeats.
    let d = db(&[("A", 10, 1), ("B", 30, 2), ("C", 20, 3)]);
    let (steps, end) = d.dig("A", "B", 10);
    assert_eq!(
        steps,
        vec![("B".to_string(), "C".to_string()), ("C".to_string(), "A".to_string())]
    );
    assert!(matches!(end, Ok(true)));
    let (steps, end) = d.dig("A", "B", 1);
    assert_eq!(steps, vec![("B".to_string(), "C".to_string())]);
    assert!(matches!(end, Ok(false)));
    let (steps, end) = d.dig("A", "B", 0);
    assert!(steps.is_empty());
    assert!(matches!(end, Ok(false)));
}

#[test]
fn dig_reports_failures() {
    let d = db(&[("A", 10, 1), ("B", 30, 2)]);
    let (steps, end) = d.dig("A", "Z", 5);
    assert!(steps.is_empty());
    match end {
        Err(SearchError::PalNotFound(n)) => assert_eq!(n, "Z"),
        _ => panic!("expected PalNotFound"),
    }
    let records = vec![
        Record { id: 1, name: "A".to_string(), value: 10 },
        Record { id: 2, name: "B".to_string(), value: 30 },
    ];
    let d = Data::from_records(&records, &vec![], &vec![TieBreakOrder { order: 1, name: "A".to_string() }]);
    let (_, end) = d.dig("A", "B", 5);
    match end {
        Err(SearchError::MissingEntry(a, b)) => assert_eq!((a.as_str(), b.as_str()), ("A", "B")),
        _ => panic!("expected MissingEntry"),
    }
}
