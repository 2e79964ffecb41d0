use lending_library::LendingLibrary;

#[test]
fn lib_basic_use() {
    let mut s: LendingLibrary<String> = LendingLibrary::new();
    assert_eq!(s.outstanding(), 0);

    assert!(s.lend(25).is_none());
    assert!(!s.remove(25));

    {
        s.insert(1, String::from("test"));
        assert!(s.contains_key(1));
        s.insert(2, String::from("double test"));
        assert_eq!(s.outstanding(), 0);
        {
            let mut first = s.lend(1).unwrap();
            assert_eq!(s.outstanding(), 1);
            s.insert(3, String::from("even more test"));
            assert_eq!(*first.value(), "test");
            first.value_mut().push_str("-even more");
            assert_eq!(*first.value(), "test-even more");
            s.checkin(first);
        }
        assert_eq!(s.outstanding(), 0);

        let first = s.lend(1).unwrap();
        assert_eq!(s.outstanding(), 1);
        assert_eq!(*first.value(), "test-even more");

        assert_eq!(format!("{:?}", first.value()), format!("{:?}", "test-even more"));

        s.insert(2, String::from("insert test"));
        assert!(s.remove(2));
        assert!(!s.contains_key(2));
        s.checkin(first);
    }
    assert_eq!(s.outstanding(), 0);
}

#[test]
fn lib_iters() {
    let mut s: LendingLibrary<i64> = LendingLibrary::new();
    s.insert(1, 1);
    s.insert(2, 1);
    s.insert(3, 1);

    let mut keys = s.iter_mut();
    while let Some(k) = keys.next() {
        let mut v = s.lend(k).unwrap();
        assert_eq!(*v.value(), 1);
        *v.value_mut() = 2;
        s.checkin(v);
    }

    let mut pairs = s.iter();
    while let Some((_k, v)) = pairs.next() {
        assert_eq!(*v, 2);
    }
}

#[test]
fn lib_capacity() {
    let mut s: LendingLibrary<i64> = LendingLibrary::new();
    assert_eq!(s.capacity(), 0);
    s.reserve(10);
    assert!(s.capacity() >= 10);
    s = LendingLibrary::with_capacity(10);
    assert!(s.capacity() >= 10);
    s.shrink_to_fit();
    assert_eq!(s.capacity(), 0);
}

#[test]
fn lib_lengths() {
    let mut s: LendingLibrary<i64> = LendingLibrary::new();
    assert_eq!(s.len(), 0);
    assert!(s.is_empty());
    s.insert(1, 1);
    s.insert(2, 1);
    assert_eq!(s.len(), 2);
    assert!(!s.is_empty());
    {
        let v = s.lend(1);
        assert_eq!(s.len(), 2);
        assert!(!s.is_empty());
        s.remove(1);
        assert_eq!(s.len(), 1);
        assert!(!s.is_empty());
        s.clear();
        if let Some(loan) = v {
            s.checkin(loan);
        }
    }
    assert_eq!(s.len(), 0);
    assert!(s.is_empty());
}

#[test]
fn lib_remove_indempotent() {
    let mut s: LendingLibrary<String> = LendingLibrary::new();
    s.insert(1, String::from("test"));
    assert!(s.contains_key(1));
    let a = s.lend(1).unwrap();
    assert!(s.contains_key(1));
    assert!(s.remove(1));
    assert!(!s.contains_key(1));
    for _ in 0..100 {
        assert!(!s.remove(1));
    }
    s.checkin(a);
}

#[test]
fn lib_double_insert() {
    let mut s: LendingLibrary<String> = LendingLibrary::new();
    s.insert(1, String::from("test"));
    s.insert(1, String::from("test"));
}
