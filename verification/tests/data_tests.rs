use palpath::data::{CombineError, Data, Record, Special, TieBreakOrder};
use palpath::table::{NameTable, PairTable};

fn rec(id: i32, name: &str, value: i32) -> Record {
    Record { id, name: name.to_string(), value }
}

fn sp(a: &str, b: &str, c: &str) -> Special {
    Special { parent1: a.to_string(), parent2: b.to_string(), child: c.to_string() }
}

fn tb(order: i32, name: &str) -> TieBreakOrder {
    TieBreakOrder { order, name: name.to_string() }
}

/// A small database: four ordinary pals, one special child.
fn sample() -> Data {
    let records = vec![
        rec(1, "A", 10),
        rec(2, "B", 20),
        rec(3, "C", 30),
        rec(4, "D", 40),
        rec(5, "S", 25),
    ];
    let specials = vec![sp("A", "D", "S")];
    let tiebreaks = vec![tb(5, "A"), tb(4, "B"), tb(3, "C"), tb(2, "D"), tb(1, "S")];
    Data::from_records(&records, &specials, &tiebreaks)
}

fn child(d: &Data, a: &str, b: &str) -> (String, i32) {
    match d.combine(a, b) {
        Ok(r) => r,
        Err(CombineError::PalNotFound(n)) => panic!("not found: {}", n),
    }
}

#[test]
fn same_parents_give_the_same_kind() {
    let d = sample();
    assert_eq!(child(&d, "C", "C"), ("C".to_string(), 30));
    // even a special child bred with itself
    assert_eq!(child(&d, "S", "S"), ("S".to_string(), 25));
}

#[test]
fn special_pair_in_either_order() {
    let d = sample();
    assert_eq!(child(&d, "A", "D"), ("S".to_string(), 25));
    assert_eq!(child(&d, "D", "A"), ("S".to_string(), 25));
}

#[test]
fn ordinary_child_is_nearest_to_the_mean() {
    let d = sample();
    // mean 15: B (20) and A (10) are 5 away; B has the smaller tie-break rank
    assert_eq!(child(&d, "A", "B"), ("B".to_string(), 20));
    // mean 35: C (30) and D (40) are 5 away; D has the smaller rank
    assert_eq!(child(&d, "C", "D"), ("D".to_string(), 40));
    // mean 20: B exactly
    assert_eq!(child(&d, "A", "C"), ("B".to_string(), 20));
    // mean 25 is S's value, but S is a special child and never an ordinary one
    let c = child(&d, "B", "C");
    assert_ne!(c.0, "S");
    assert_eq!(c, ("C".to_string(), 30));
}

#[test]
fn half_way_ties_go_by_rank() {
    let records = vec![rec(1, "X", 8), rec(2, "Y", 12), rec(3, "W", 9), rec(4, "V", 11)];
    // mean 10: W and V are both one point away; the smaller rank wins
    let d = Data::from_records(&records, &vec![], &vec![tb(3, "X"), tb(4, "Y"), tb(2, "W"), tb(1, "V")]);
    assert_eq!(child(&d, "X", "Y"), ("V".to_string(), 11));
    let d = Data::from_records(&records, &vec![], &vec![tb(3, "X"), tb(4, "Y"), tb(1, "W"), tb(2, "V")]);
    assert_eq!(child(&d, "X", "Y"), ("W".to_string(), 9));
    // equal distance and equal rank: the earlier pal in the table
    let d = Data::from_records(&records, &vec![], &vec![tb(3, "X"), tb(4, "Y"), tb(1, "W"), tb(1, "V")]);
    assert_eq!(child(&d, "Y", "X"), ("W".to_string(), 9));
}

#[test]
fn fraction_of_the_mean_is_dropped() {
    let records = vec![rec(1, "X", 10), rec(2, "Y", 11)];
    // mean 10.5 becomes 10: X is nearer, whatever the ranks
    let d = Data::from_records(&records, &vec![], &vec![tb(2, "X"), tb(1, "Y")]);
    assert_eq!(child(&d, "X", "Y"), ("X".to_string(), 10));
    let records = vec![rec(1, "A", 10), rec(2, "B", 21), rec(3, "C", 15), rec(4, "D", 16)];
    let d = Data::from_records(&records, &vec![], &vec![tb(3, "A"), tb(4, "B"), tb(2, "C"), tb(1, "D")]);
    // mean 15.5 becomes 15: C, not D
    assert_eq!(child(&d, "A", "B"), ("C".to_string(), 15));
    assert_eq!(child(&d, "B", "A"), ("C".to_string(), 15));
    // negative sums are rounded toward zero: mean -10.5 becomes -10
    let records = vec![rec(1, "N", -10), rec(2, "M", -11)];
    let d = Data::from_records(&records, &vec![], &vec![tb(2, "N"), tb(1, "M")]);
    assert_eq!(child(&d, "N", "M"), ("N".to_string(), -10));
}

#[test]
fn missing_parents_are_reported_first_one_first() {
    let d = sample();
    match d.combine("Z", "W") {
        Err(CombineError::PalNotFound(n)) => assert_eq!(n, "Z"),
        Ok(_) => panic!("expected an error"),
    }
    match d.combine("A", "W") {
        Err(CombineError::PalNotFound(n)) => assert_eq!(n, "W"),
        Ok(_) => panic!("expected an error"),
    }
    match d.combine("Q", "Q") {
        Err(e) => assert_eq!(e.message(), "パルが見つからない!: Q"),
        Ok(_) => panic!("expected an error"),
    }
}

#[test]
fn combine_is_symmetric_without_conflicting_specials() {
    let d = sample();
    for a in ["A", "B", "C", "D", "S"] {
        for b in ["A", "B", "C", "D", "S"] {
            assert_eq!(child(&d, a, b), child(&d, b, a));
        }
    }
}

#[test]
fn conflicting_specials_follow_the_given_order() {
    let records = vec![rec(1, "A", 10), rec(2, "B", 20), rec(3, "P", 1), rec(4, "Q", 2), rec(5, "M", 15)];
    let d = Data::from_records(
        &records,
        &vec![sp("A", "B", "P"), sp("B", "A", "Q")],
        &vec![tb(1, "A"), tb(2, "B"), tb(3, "P"), tb(4, "Q"), tb(5, "M")],
    );
    assert_eq!(child(&d, "A", "B").0, "P");
    assert_eq!(child(&d, "B", "A").0, "Q");
}

#[test]
fn children_of_pals_are_pals() {
    let d = sample();
    assert!(d.is_breedable());
    let names = ["A", "B", "C", "D", "S"];
    for a in names {
        for b in names {
            let (c, v) = child(&d, a, b);
            assert!(names.contains(&c.as_str()));
            assert_eq!(d.kv(&c), (c.clone(), v));
        }
    }
}

#[test]
fn kv_gives_the_value() {
    let d = sample();
    assert_eq!(d.kv("D"), ("D".to_string(), 40));
}

#[test]
fn later_rows_replace_earlier_ones() {
    let records = vec![rec(1, "A", 10), rec(2, "B", 20), rec(3, "A", 99)];
    let d = Data::from_records(&records, &vec![], &vec![tb(1, "A"), tb(2, "B")]);
    assert_eq!(d.kv("A"), ("A".to_string(), 99));
    assert_eq!(d.pal_count(), 2);
    assert_eq!(d.pal_name(0), "A");
    assert_eq!(d.pal_name(1), "B");
}

#[test]
fn tables_keep_insertion_order() {
    let mut t = NameTable::new();
    t.insert("x".to_string(), 1);
    t.insert("y".to_string(), 2);
    t.insert("x".to_string(), 3);
    assert_eq!(t.len(), 2);
    assert_eq!(t.get("x"), Some(3));
    assert_eq!(t.get("y"), Some(2));
    assert_eq!(t.get("z"), None);
    assert_eq!(t.position("y"), Some(1));
    assert_eq!(t.name_at(0), "x");
    assert_eq!(t.value_at(0), 3);
    assert!(t.contains("x"));

    let mut p = PairTable::new();
    p.insert("a".to_string(), "b".to_string(), "c".to_string());
    p.insert("a".to_string(), "b".to_string(), "d".to_string());
    assert_eq!(p.len(), 1);
    assert_eq!(p.get("a", "b"), Some(&"d".to_string()));
    assert_eq!(p.get("b", "a"), None);
    assert!(p.lists_child("d"));
    assert!(!p.lists_child("c"));
}

#[test]
fn new_uses_the_given_tables() {
    let mut values = NameTable::new();
    values.insert("A".to_string(), 1);
    values.insert("B".to_string(), 3);
    values.insert("C".to_string(), 2);
    let mut ids = NameTable::new();
    let mut tie = NameTable::new();
    for (i, n) in ["A", "B", "C"].iter().enumerate() {
        ids.insert(n.to_string(), i as i32);
        tie.insert(n.to_string(), i as i32);
    }
    let d = Data::new(values, ids, PairTable::new(), tie);
    assert_eq!(child(&d, "A", "B"), ("C".to_string(), 2));
}

#[test]
fn combinable_and_consistency_checks() {
    let records = vec![rec(1, "A", 10), rec(2, "B", 20)];
    // B has no tie-break rank: the ordinary rule cannot be applied
    let d = Data::from_records(&records, &vec![], &vec![tb(1, "A")]);
    assert!(!d.combinable("A", "B"));
    assert!(d.combinable("A", "A"));
    assert!(d.combinable("A", "Z"));
    assert!(!d.is_breedable());
    // a special child that is not a pal
    let d = Data::from_records(&records, &vec![sp("A", "B", "N")], &vec![tb(1, "A"), tb(2, "B")]);
    assert!(!d.combinable("A", "B"));
    assert!(!d.combinable("B", "A"));
    assert!(!d.is_breedable());
    // sums that leave 32 bits
    let big = vec![rec(1, "A", i32::MAX), rec(2, "B", 1)];
    let d = Data::from_records(&big, &vec![], &vec![tb(1, "A"), tb(2, "B")]);
    assert!(!d.combinable("A", "B"));
    assert!(!d.is_breedable());
    assert!(sample().is_breedable());
}

#[test]
fn pattern_lists_the_pairs_that_give_a_kind() {
    let d = sample();
    let found = d.pattern("B").unwrap_or_else(|_| panic!("unexpected missing entry"));
    let expected: Vec<(String, String)> = [("A", "B"), ("A", "C"), ("A", "S"), ("B", "S")]
        .iter()
        .map(|(a, b)| (a.to_string(), b.to_string()))
        .collect();
    assert_eq!(found, expected);
    let found = d.pattern("S").unwrap_or_else(|_| panic!("unexpected missing entry"));
    assert_eq!(found, vec![("A".to_string(), "D".to_string())]);
    let found = d.pattern("nobody").unwrap_or_else(|_| panic!("unexpected missing entry"));
    assert!(found.is_empty());
}

#[test]
fn pattern_stops_at_a_missing_entry() {
    let records = vec![rec(1, "A", 10), rec(2, "B", 20), rec(3, "C", 30)];
    let d = Data::from_records(&records, &vec![], &vec![tb(1, "A"), tb(2, "B")]);
    match d.pattern("A") {
        Err((found, (a, b))) => {
            assert!(found.is_empty());
            assert_eq!((a.as_str(), b.as_str()), ("A", "B"));
        }
        Ok(_) => panic!("expected a missing entry"),
    }
}

#[test]
fn pattern_keeps_the_pairs_found_before_a_missing_entry() {
    let records = vec![rec(1, "A", 10), rec(2, "B", 20), rec(3, "C", 30)];
    let d = Data::from_records(&records, &vec![sp("A", "B", "A")], &vec![tb(1, "A"), tb(2, "B")]);
    match d.pattern("A") {
        Err((found, (a, b))) => {
            assert_eq!(found, vec![("A".to_string(), "B".to_string())]);
            assert_eq!((a.as_str(), b.as_str()), ("A", "C"));
        }
        Ok(_) => panic!("expected a missing entry"),
    }
}

#[test]
fn table_order_does_not_matter_with_distinct_ranks() {
    let rows = [(1, "A", 10), (2, "B", 20), (3, "C", 30), (4, "D", 40), (5, "S", 25)];
    let forward: Vec<Record> = rows.iter().map(|(i, n, v)| rec(*i, n, *v)).collect();
    let backward: Vec<Record> = rows.iter().rev().map(|(i, n, v)| rec(*i, n, *v)).collect();
    let ties = vec![tb(5, "A"), tb(4, "B"), tb(3, "C"), tb(2, "D"), tb(1, "S")];
    let mut ties_rev = ties.iter().map(|t| tb(t.order, &t.name)).collect::<Vec<_>>();
    ties_rev.reverse();
    let d1 = Data::from_records(&forward, &vec![sp("A", "D", "S")], &ties);
    let d2 = Data::from_records(&backward, &vec![sp("A", "D", "S")], &ties_rev);
    for a in ["A", "B", "C", "D", "S"] {
        for b in ["A", "B", "C", "D", "S"] {
            assert_eq!(child(&d1, a, b), child(&d2, a, b));
        }
    }
}

#[test]
fn a_cloned_database_breeds_the_same() {
    let d = sample();
    let c = d.clone();
    assert_eq!(c.pal_count(), d.pal_count());
    for (a, b) in [("A", "B"), ("A", "D"), ("B", "C"), ("C", "C")] {
        assert_eq!(child(&c, a, b), child(&d, a, b));
    }
    assert_eq!(format!("{:?}", c), format!("{:?}", d));
}
