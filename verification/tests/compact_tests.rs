use palpath::data::{Data, Record, TieBreakOrder};

fn db(rows: &[(&str, i32, i32)]) -> Data {
    let records: Vec<Record> = rows
        .iter()
        .enumerate()
        .map(|(i, (n, v, _))| Record { id: i as i32, name: n.to_string(), value: *v })
        .collect();
    let ties: Vec<TieBreakOrder> =
        rows.iter().map(|(n, _, r)| TieBreakOrder { order: *r, name: n.to_string() }).collect();
    Data::from_records(&records, &vec![], &ties)
}

#[test]
fn compact_takes_the_pair_that_generates_most() {
    // A x B -> A, A x C -> B, B x C -> B. The pair (A, C) generates {A, B};
    // (A, B) generates {A}; (B, C) generates {B}. After (A, C) is taken nothing is left.
    let d = db(&[("A", 10, 1), ("B", 20, 2), ("C", 30, 3)]);
    assert!(d.is_breedable());
    let r = d.find_compact();
    assert_eq!(r.steps, vec![(("A".to_string(), "C".to_string()), 2)]);
    let mut compact = r.compact.clone();
    compact.sort();
    assert_eq!(compact, vec!["A".to_string(), "C".to_string()]);
}

#[test]
fn compact_of_a_single_pal_is_empty() {
    let d = db(&[("A", 10, 1)]);
    let r = d.find_compact();
    assert!(r.steps.is_empty());
    assert!(r.compact.is_empty());
}

#[test]
fn compact_takes_several_pairs() {
    // Far apart values: A x B -> A or B by rank, C x D likewise; pairs across the
    // two groups give the pal nearest the mean.
    let d = db(&[("A", 0, 1), ("B", 2, 2), ("C", 100, 3), ("D", 102, 4)]);
    let r = d.find_compact();
    assert!(!r.steps.is_empty());
    // the counts never grow from one step to the next
    for w in r.steps.windows(2) {
        assert!(w[0].1 >= w[1].1);
    }
    for ((a, b), n) in &r.steps {
        assert!(*n > 0);
        assert!(r.compact.contains(a));
        assert!(r.compact.contains(b));
    }
}

fn db_with_specials(rows: &[(&str, i32, i32)], specials: &[(&str, &str, &str)]) -> Data {
    let records: Vec<Record> = rows
        .iter()
        .enumerate()
        .map(|(i, (n, v, _))| Record { id: i as i32, name: n.to_string(), value: *v })
        .collect();
    let ties: Vec<TieBreakOrder> =
        rows.iter().map(|(n, _, r)| TieBreakOrder { order: *r, name: n.to_string() }).collect();
    let sp: Vec<palpath::data::Special> = specials
        .iter()
        .map(|(a, b, c)| palpath::data::Special {
            parent1: a.to_string(),
            parent2: b.to_string(),
            child: c.to_string(),
        })
        .collect();
    Data::from_records(&records, &sp, &ties)
}

#[test]
fn compact_counts_cover_every_generated_kind() {
    // A x C -> B, (A, B) -> A, (B, C) -> B: every kind generated at all is A or B,
    // and the single step counts both.
    let d = db(&[("A", 10, 1), ("B", 20, 2), ("C", 30, 3)]);
    assert_eq!(d.closures_end(1000), Some(true));
    let r = d.find_compact();
    let total: usize = r.steps.iter().map(|s| s.1).sum();
    assert_eq!(total, 2);
}

#[test]
fn compact_of_an_empty_database_is_empty() {
    let d = db(&[]);
    assert!(d.is_breedable());
    assert_eq!(d.closures_end(10), Some(true));
    let r = d.find_compact();
    assert!(r.steps.is_empty());
    assert!(r.compact.is_empty());
}

#[test]
fn special_only_pal_needs_no_rank() {
    // S is only ever a special child: it needs neither id nor rank.
    let records = vec![
        Record { id: 1, name: "A".to_string(), value: 10 },
        Record { id: 2, name: "B".to_string(), value: 20 },
        Record { id: 3, name: "S".to_string(), value: 15 },
    ];
    let sp = vec![palpath::data::Special {
        parent1: "A".to_string(),
        parent2: "B".to_string(),
        child: "S".to_string(),
    }];
    let ties = vec![
        TieBreakOrder { order: 1, name: "A".to_string() },
        TieBreakOrder { order: 2, name: "B".to_string() },
    ];
    let d = Data::from_records(&records, &sp, &ties);
    assert!(d.is_breedable());
    assert_eq!(d.closures_end(1000), Some(true));
    let r = d.find_compact();
    assert!(!r.steps.is_empty());
    assert!(r.steps[0].1 > 0);
}

#[test]
fn never_ending_breeding_is_detected() {
    // A and C are special children, B the only ordinary one; the breeding from
    // (A, C) comes back to an earlier state before it settles.
    let d = db_with_specials(&[("A", 9, 1), ("B", 12, 2), ("C", 10, 3)], &[("A", "B", "A"), ("B", "A", "C")]);
    assert!(d.is_breedable());
    assert_eq!(d.closures_end(1000), Some(false));
    // with no steps allowed nothing can be told
    assert_eq!(d.closures_end(0), None);
}
