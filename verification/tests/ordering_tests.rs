use trace_gen::StringWrapper;

#[test]
fn test_comparing() {
    let s1 = StringWrapper::new("*#6*544#".to_string());
    let s2 = StringWrapper::new("*344#".to_string());

    assert_eq!(s1.partial_cmp(&s2).unwrap(), std::cmp::Ordering::Greater);
}

#[test]
fn rank_order_beats_character_order() {
    // '*' has rank 10, '3' has rank 3: rank order answers Greater even
    // though the character codes would answer Less.
    let star = StringWrapper::new("*0".to_string());
    let three = StringWrapper::new("30".to_string());
    assert!('*' < '3');
    assert_eq!(star.partial_cmp(&three).unwrap(), std::cmp::Ordering::Greater);
}

#[test]
fn shorter_orders_before_longer() {
    let short = StringWrapper::new("12".to_string());
    let long = StringWrapper::new("123".to_string());
    assert_eq!(short.partial_cmp(&long).unwrap(), std::cmp::Ordering::Less);
    assert_eq!(long.partial_cmp(&short).unwrap(), std::cmp::Ordering::Greater);
}

#[test]
fn equal_strings_compare_equal() {
    let a = StringWrapper::new("#7#".to_string());
    let b = StringWrapper::new("#7#".to_string());
    assert_eq!(a.partial_cmp(&b).unwrap(), std::cmp::Ordering::Equal);
    assert!(a == b);
}
