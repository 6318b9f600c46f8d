use scrabbler::gaddag::Gaddag;

fn words(list: &[&str]) -> Vec<String> {
    list.iter().map(|w| w.to_string()).collect()
}

#[test]
fn every_listed_word_is_contained() {
    let list = ["cares", "CAT", "cats", "Zebra", "a", "quiz"];
    let g = Gaddag::from_words(words(&list));
    for w in list {
        assert!(g.contains(w), "{}", w);
    }
}

#[test]
fn words_outside_the_list_are_not_contained() {
    let g = Gaddag::from_words(words(&["cares", "cat", "cats", "zebra"]));
    for w in ["car", "care", "ares", "scare", "ca", "dog", "catss", "", "c+at", "tac"] {
        assert!(!g.contains(w), "{}", w);
    }
}

#[test]
fn contains_ignores_case() {
    let g = Gaddag::from_words(words(&["Cares"]));
    assert!(g.contains("cares"));
    assert!(g.contains("CARES"));
    assert!(g.contains("CaReS"));
}

#[test]
fn malformed_words_are_skipped() {
    let g = Gaddag::from_words(words(&["", "do g", "caf\u{e9}", "ok"]));
    assert!(g.contains("ok"));
    assert!(!g.contains("do g"));
    assert!(!g.contains("caf\u{e9}"));
    assert!(!g.contains("dog"));
}

#[test]
fn unsorted_input_with_duplicates_builds() {
    let g = Gaddag::from_words(words(&["zoo", "apple", "zoo", "mango", "APPLE"]));
    assert!(g.contains("zoo"));
    assert!(g.contains("apple"));
    assert!(g.contains("mango"));
    assert!(!g.contains("appl"));
}

#[test]
fn cares_has_all_five_generalized_forms() {
    let g = Gaddag::from_words(words(&["CARES"]));
    assert!(g.contains("CARES"));
    for form in ["SERAC", "C+ARES", "AC+RES", "RAC+ES", "ERAC+S"] {
        let node = g.node_for_prefix(form).expect(form);
        assert!(g.is_final(&node), "{}", form);
    }
    // The splits are reachable only by walking the separator; as words they are unknown.
    assert!(!g.contains("C+ARES"));
    assert!(!g.contains("SERAC"));
}

#[test]
fn prefix_walks_stop_at_missing_edges() {
    let g = Gaddag::from_words(words(&["CARES"]));
    let node = g.node_for_prefix("ERA").unwrap();
    assert!(!g.is_final(&node));
    assert!(g.node_for_prefix("ERX").is_none());
    assert!(g.node_for_prefix("E-").is_none());
    let root = g.root();
    assert!(!g.is_final(&root));
    let e = g.next_node(&root, 'E').unwrap();
    assert!(g.next_node(&e, 'Q').is_none());
    // Walks read characters as given: the entries hold upper-case letters.
    assert!(g.next_node(&e, 'r').is_none());
    assert!(g.node_for_prefix("serac").is_none());
    let r = g.next_node(&e, 'R').unwrap();
    assert!(!g.is_final(&r));
    let s = g.next_node(&g.node_for_prefix("ERAC+").unwrap(), 'S').unwrap();
    assert!(g.is_final(&s));
}

#[test]
fn serialized_index_round_trips() {
    let list = ["cares", "cat", "cats", "zebra", "quiz"];
    let g = Gaddag::from_words(words(&list));
    let bytes = g.as_bytes().to_vec();
    assert!(!bytes.is_empty());
    let restored = Gaddag::from_bytes(bytes).unwrap();
    for w in ["cares", "cat", "cats", "zebra", "quiz", "car", "dog", "ca", "zebras"] {
        assert_eq!(restored.contains(w), g.contains(w), "{}", w);
    }
    assert!(restored.contains("zebra"));
    assert!(!restored.contains("dog"));
}

#[test]
fn garbage_bytes_are_refused() {
    assert!(Gaddag::from_bytes(vec![1, 2, 3]).is_err());
}

#[test]
fn an_index_from_an_fst_set_holds_its_keys() {
    let set = fst::Set::from_iter(vec!["A+B", "BA"]).unwrap();
    let g = Gaddag::from_fst(set);
    assert!(g.contains("ab"));
    assert!(!g.contains("ba"));
}
