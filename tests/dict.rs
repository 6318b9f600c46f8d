use scrabbler::dict::Dict;

#[test]
fn contain_finds_contained() {
    let dict = Dict::from_iter(vec!["contained", "contained_also"]).unwrap();

    assert!(dict.contains("contained"));
    assert!(dict.contains("contained_also"));
}

#[test]
fn contain_doesnt_find_not_contained() {
    let mut dict = Dict::new();

    dict.insert(0, "contained");
    assert!(!dict.contains("not_contained"));
}

#[test]
fn cuts_off_matching_prefix_correctly() {
    assert_eq!(
        Dict::cut_off_matching_prefix("test_accepted", "test"),
        "_accepted".to_string()
    );

    assert_eq!(
        Dict::cut_off_matching_prefix("test_accepted", "test_also_accepted"),
        "ccepted".to_string()
    );
    assert_eq!(
        Dict::cut_off_matching_prefix("test_a", "test_b"),
        "a".to_string()
    );
    assert_eq!(
        Dict::cut_off_matching_prefix("Aword", "B"),
        "Aword".to_string()
    );
}

#[test]
fn prefixes_and_case() {
    let dict = Dict::from_iter(vec!["car", "cares", "cat"]).unwrap();
    assert!(dict.contains("CAR"));
    assert!(dict.contains("Cares"));
    assert!(dict.contains("cat"));
    assert!(!dict.contains("ca"));
    assert!(!dict.contains("care"));
    assert!(!dict.contains("cats"));
    assert!(!dict.contains(""));
    assert!(!dict.contains("dog"));
}

#[test]
fn words_out_of_order_are_refused() {
    assert!(Dict::from_iter(vec!["b", "a"]).is_err());
    assert!(Dict::from_iter(vec!["a", "a", "b"]).is_ok());
    assert!(Dict::from_iter(Vec::new()).is_ok());
}

#[test]
fn insert_below_a_node_extends_its_path() {
    let mut dict = Dict::new();
    let n = dict.insert(0, "ab");
    dict.insert(n, "cd");
    assert!(dict.contains("ab"));
    assert!(dict.contains("abcd"));
    assert!(!dict.contains("cd"));
    assert_eq!(Dict::cut_off_matching_prefix("ab??x", "ab"), "x".to_string());
}
