use lending_library::LendingLibrary;

#[test]
fn absent_keys_do_nothing() {
    let mut s: LendingLibrary<i64> = LendingLibrary::new();
    assert!(s.lend(42).is_none());
    assert!(!s.remove(42));
    assert!(!s.contains_key(42));
    assert_eq!(s.len(), 0);
    assert_eq!(s.outstanding(), 0);
}

#[test]
fn default_is_empty() {
    let s: LendingLibrary<i64> = Default::default();
    assert!(s.is_empty());
    assert_eq!(s.len(), 0);
    assert_eq!(s.outstanding(), 0);
}

#[test]
fn loan_round_trip_persists_mutation() {
    let mut s: LendingLibrary<String> = LendingLibrary::new();
    s.insert(3, String::from("abc"));
    let mut l = s.lend(3).unwrap();
    l.value_mut().push_str("def");
    s.checkin(l);
    assert!(s.contains_key(3));
    let l = s.lend(3).unwrap();
    assert_eq!(*l.value(), "abcdef");
    s.checkin(l);
}

#[test]
fn insert_returns_previous_value() {
    let mut s: LendingLibrary<String> = LendingLibrary::new();
    assert_eq!(s.insert(5, String::from("one")), None);
    assert_eq!(s.insert(5, String::from("two")), Some(String::from("one")));
    let l = s.lend(5).unwrap();
    assert_eq!(*l.value(), "two");
    s.checkin(l);
}

#[test]
fn scenario_lend_and_remove() {
    let mut s: LendingLibrary<String> = LendingLibrary::new();
    s.insert(1, String::from("x"));
    s.insert(2, String::from("y"));
    assert_eq!(s.len(), 2);
    let loan = s.lend(1).unwrap();
    assert_eq!(s.len(), 2);
    assert!(s.contains_key(1));
    assert_eq!(s.outstanding(), 1);
    s.checkin(loan);
    assert_eq!(s.outstanding(), 0);
    let loan = s.lend(1).unwrap();
    assert_eq!(*loan.value(), "x");
    assert!(s.remove(2));
    assert_eq!(s.len(), 1);
    assert!(!s.contains_key(2));
    s.checkin(loan);
}

#[test]
fn scenario_remove_while_loaned() {
    let mut s: LendingLibrary<String> = LendingLibrary::new();
    s.insert(7, String::from("v"));
    let l1 = s.lend(7).unwrap();
    assert!(s.remove(7));
    assert!(!s.contains_key(7));
    for _ in 0..3 {
        assert!(!s.remove(7));
    }
    s.checkin(l1);
    assert!(!s.contains_key(7));
    assert!(s.lend(7).is_none());
}

#[test]
fn length_excludes_awaiting_drop() {
    let mut s: LendingLibrary<i64> = LendingLibrary::new();
    s.insert(1, 10);
    s.insert(2, 20);
    let l = s.lend(1).unwrap();
    assert!(s.remove(1));
    assert_eq!(s.len(), 1);
    assert!(!s.is_empty());
    assert_eq!(s.outstanding(), 1);
    s.checkin(l);
    assert_eq!(s.len(), 1);
    assert_eq!(s.outstanding(), 0);
    assert!(s.remove(2));
    assert!(s.is_empty());
}

#[test]
fn iteration_visits_present_exactly_once() {
    let mut s: LendingLibrary<i64> = LendingLibrary::new();
    s.insert(1, 10);
    s.insert(2, 20);
    s.insert(3, 30);
    let l = s.lend(2).unwrap();
    assert!(s.remove(2));

    let mut pairs = s.iter();
    let mut got: Vec<(i64, i64)> = Vec::new();
    while let Some((k, v)) = pairs.next() {
        got.push((k, *v));
    }
    got.sort();
    assert_eq!(got, vec![(1, 10), (3, 30)]);

    let mut keys = s.iter_mut();
    let mut seen: Vec<i64> = Vec::new();
    while let Some(k) = keys.next() {
        seen.push(k);
    }
    seen.sort();
    assert_eq!(seen, vec![1, 3]);

    s.checkin(l);
}

#[test]
fn clear_spares_slots_awaiting_drop() {
    let mut s: LendingLibrary<i64> = LendingLibrary::new();
    s.insert(1, 10);
    s.insert(2, 20);
    let l = s.lend(1).unwrap();
    assert!(s.remove(1));
    s.clear();
    assert_eq!(s.len(), 0);
    assert!(s.is_empty());
    assert_eq!(s.outstanding(), 1);
    s.checkin(l);
    assert_eq!(s.outstanding(), 0);
    assert!(s.lend(1).is_none());
    s.close();
}

#[test]
fn loan_exposes_key_and_value() {
    let mut s: LendingLibrary<String> = LendingLibrary::new();
    s.insert(9, String::from("val"));
    let mut l = s.lend(9).unwrap();
    assert_eq!(l.key(), 9);
    assert_eq!(*l.value(), "val");
    *l.value_mut() = String::from("new");
    assert_eq!(*l.value(), "new");
    s.checkin(l);
    s.close();
}
