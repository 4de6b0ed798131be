use std::collections::HashSet;

use seat_allocator::{allocate, allocate_shuffled, assign_students_to_tags, SeatError, SEAT_PREFIX};

fn strings(v: &[&str]) -> Vec<String> {
    v.iter().map(|s| s.to_string()).collect()
}

fn labels(r: &[(String, String)]) -> Vec<String> {
    r.iter().map(|(l, _)| l.clone()).collect()
}

fn sorted_names(r: &[(String, String)]) -> Vec<String> {
    let mut v: Vec<String> = r.iter().filter(|(_, n)| !n.is_empty()).map(|(_, n)| n.clone()).collect();
    v.sort();
    v
}

#[test]
fn every_seat_listed_once() {
    let roster = strings(&["Ann", "Ben", "Cid", "Dot"]);
    let excluded = strings(&["A002", "A005"]);
    let r = assign_students_to_tags(&roster, 7, &excluded).unwrap();
    assert_eq!(r.len(), 7);
    let set: HashSet<String> = labels(&r).into_iter().collect();
    assert_eq!(set.len(), 7);
    let expected: HashSet<String> =
        strings(&["A001", "A002", "A003", "A004", "A005", "A006", "A007"]).into_iter().collect();
    assert_eq!(set, expected);
}

#[test]
fn occupants_are_the_roster() {
    let roster = strings(&["Ann", "Ben", "Cid", "Ben"]);
    let r = assign_students_to_tags(&roster, 6, &strings(&["A001"])).unwrap();
    let mut expected = roster.clone();
    expected.sort();
    assert_eq!(sorted_names(&r), expected);
    assert_eq!(r.iter().filter(|(_, n)| n.is_empty()).count(), 2);
}

#[test]
fn excluded_seats_get_no_name() {
    let roster = strings(&["Ann", "Ben", "Cid"]);
    let excluded = strings(&["A001", "A003", "A009"]);
    for _ in 0..20 {
        let r = assign_students_to_tags(&roster, 6, &excluded).unwrap();
        for (label, name) in &r {
            if label == "A001" || label == "A003" {
                assert_eq!(name, "");
            }
        }
    }
}

#[test]
fn too_many_students_is_capacity_failure() {
    let roster = strings(&["a", "b", "c"]);
    let r = assign_students_to_tags(&roster, 4, &strings(&["A001", "A002"]));
    match r {
        Err(SeatError::CapacityFailure { students, seats, excluded }) => {
            assert_eq!((students, seats, excluded), (3, 4, 2));
        }
        other => panic!("unexpected {:?}", other),
    }
}

#[test]
fn more_exclusions_than_seats_fails() {
    let r = assign_students_to_tags(&[], 2, &strings(&["A001", "A002", "A003"]));
    assert!(matches!(r, Err(SeatError::CapacityFailure { students: 0, seats: 2, excluded: 3 })));
}

#[test]
fn duplicate_exclusions_count_once() {
    let roster = strings(&["a"]);
    let r = assign_students_to_tags(&roster, 2, &strings(&["A002", "A002"])).unwrap();
    assert_eq!(r, vec![("A001".to_string(), "a".to_string()), ("A002".to_string(), String::new())]);
}

#[test]
fn zero_seats_empty_roster() {
    let r = assign_students_to_tags(&[], 0, &[]).unwrap();
    assert!(r.is_empty());
}

#[test]
fn empty_roster_gives_empty_seats() {
    let r = assign_students_to_tags(&[], 3, &[]).unwrap();
    assert_eq!(
        r,
        vec![
            ("A001".to_string(), String::new()),
            ("A002".to_string(), String::new()),
            ("A003".to_string(), String::new()),
        ]
    );
}

#[test]
fn two_students_three_seats() {
    let roster = strings(&["Alice", "Bob"]);
    let r = allocate(&roster, 3, &[], 'P').unwrap();
    assert_eq!(r.len(), 3);
    let set: HashSet<String> = labels(&r).into_iter().collect();
    let expected: HashSet<String> = strings(&["P001", "P002", "P003"]).into_iter().collect();
    assert_eq!(set, expected);
    assert_eq!(sorted_names(&r), strings(&["Alice", "Bob"]));
    assert_eq!(r.iter().filter(|(_, n)| n.is_empty()).count(), 1);
}

#[test]
fn one_student_one_free_seat() {
    let r = allocate(&strings(&["Alice"]), 2, &strings(&["P002"]), 'P').unwrap();
    assert_eq!(r, vec![("P001".to_string(), "Alice".to_string()), ("P002".to_string(), String::new())]);
}

#[test]
fn three_students_two_seats() {
    let r = allocate(&strings(&["A", "B", "C"]), 2, &[], 'P');
    assert!(matches!(r, Err(SeatError::CapacityFailure { students: 3, seats: 2, excluded: 0 })));
}

#[test]
fn seating_order_of_a_fixed_arrangement() {
    let r = allocate_shuffled(&strings(&["x", "y"]), 4, &strings(&["A002"]), SEAT_PREFIX).unwrap();
    assert_eq!(
        r,
        vec![
            ("A001".to_string(), "x".to_string()),
            ("A003".to_string(), "y".to_string()),
            ("A002".to_string(), String::new()),
            ("A004".to_string(), String::new()),
        ]
    );
}

#[test]
fn labels_outside_the_seats_are_ignored() {
    let r = allocate_shuffled(&strings(&["x"]), 2, &strings(&["B001"]), 'A').unwrap();
    assert_eq!(r, vec![("A001".to_string(), "x".to_string()), ("A002".to_string(), String::new())]);
}

#[test]
fn shuffling_varies_the_order() {
    let roster = strings(&["a", "b", "c", "d", "e", "f"]);
    let mut seen: HashSet<Vec<String>> = HashSet::new();
    for _ in 0..50 {
        let r = assign_students_to_tags(&roster, 6, &[]).unwrap();
        seen.insert(r.iter().map(|(_, n)| n.clone()).collect());
    }
    assert!(seen.len() > 1);
}
