use latency_hooks::sorted::{contains_text, insert_sorted, place_of, Place};

#[test]
fn place_of_follows_the_order_of_bytes() {
    assert_eq!(place_of("a", "b"), Place::Before);
    assert_eq!(place_of("b", "a"), Place::After);
    assert_eq!(place_of("a", "a"), Place::Same);
    assert_eq!(place_of("", ""), Place::Same);
    assert_eq!(place_of("", "a"), Place::Before);
    assert_eq!(place_of("a", ""), Place::After);
    assert_eq!(place_of("ab", "abc"), Place::Before);
    assert_eq!(place_of("abc", "ab"), Place::After);
    assert_eq!(place_of("abd", "abc"), Place::After);
    assert_eq!(place_of("B", "a"), Place::Before);
    assert_eq!(place_of("10", "2"), Place::Before);
    assert_eq!(place_of("z", "é"), Place::Before);
    assert_eq!(place_of("é", "例"), Place::Before);
}

#[test]
fn place_of_agrees_with_the_order_of_strings() {
    let texts = ["", "a", "A", "ab", "abc", "b", "a.example", "é", "e", "例え", "zz", "10", "2"];
    for a in texts {
        for b in texts {
            let expected = if a < b {
                Place::Before
            } else if a == b {
                Place::Same
            } else {
                Place::After
            };
            assert_eq!(place_of(a, b), expected, "for {:?} and {:?}", a, b);
        }
    }
}

#[test]
fn insert_sorted_keeps_the_list_in_order() {
    let mut list: Vec<String> = Vec::new();
    for name in ["m", "a", "z", "m", "b", "", "a", "zz", "y"] {
        insert_sorted(&mut list, name);
    }
    let expected: Vec<String> =
        ["", "a", "b", "m", "y", "z", "zz"].iter().map(|s| s.to_string()).collect();
    assert_eq!(list, expected);
}

#[test]
fn insert_sorted_adds_at_either_end() {
    let mut list = vec!["b".to_string()];
    insert_sorted(&mut list, "a");
    insert_sorted(&mut list, "c");
    assert_eq!(list, vec!["a".to_string(), "b".to_string(), "c".to_string()]);
}

#[test]
fn contains_text_looks_for_the_whole_text() {
    let list = vec!["a.example".to_string(), "".to_string(), "b.example".to_string()];
    assert!(contains_text(&list, "a.example"));
    assert!(contains_text(&list, "b.example"));
    assert!(contains_text(&list, ""));
    assert!(!contains_text(&list, "a.exampl"));
    assert!(!contains_text(&list, "c.example"));
    assert!(!contains_text(&Vec::new(), ""));
}
