use kulim::{is_valid_transition, RustTrie};

fn s(x: &str) -> String {
    x.to_string()
}

fn pair(a: &str, b: &str) -> (String, String) {
    (s(a), s(b))
}

#[test]
fn patterns_ordered_by_start_then_length() {
    let mut t = RustTrie::new();
    t.insert(s("a"), s("NP"), s("A"));
    t.insert(s("ab"), s("NNG"), s("AB"));
    t.insert(s("b"), s("JKS"), s("B"));
    t.insert(s("b"), s("NNG"), s("B2"));
    let r = t.search_all_patterns(s("abx"));
    assert_eq!(
        r,
        vec![
            (0, 1, vec![pair("NP", "A")]),
            (0, 2, vec![pair("NNG", "AB")]),
            (1, 1, vec![pair("JKS", "B"), pair("NNG", "B2")]),
        ]
    );
}

#[test]
fn patterns_count_characters_not_bytes() {
    let mut t = RustTrie::new();
    t.insert(s("교"), s("NNG"), s("교"));
    let r = t.search_all_patterns(s("학교"));
    assert_eq!(r, vec![(1, 1, vec![pair("NNG", "교")])]);
}

#[test]
fn patterns_stay_within_sixteen_and_the_text() {
    let mut t = RustTrie::new();
    t.insert(s("abcdefghijklmnop"), s("NNG"), s("P16"));
    t.insert(s("abcdefghijklmnopq"), s("NNG"), s("P17"));
    t.insert(s("qz"), s("NNG"), s("QZ"));
    let text = s("abcdefghijklmnopq");
    let r = t.search_all_patterns(text.clone());
    assert_eq!(r, vec![(0, 16, vec![pair("NNG", "P16")])]);
    for x in r.iter() {
        assert!(x.1 >= 1 && x.1 <= 16);
        assert!(x.0 + x.1 <= 17);
    }
    assert_eq!(t.search_all_patterns(s("")), vec![]);
}

#[test]
fn forbidden_transitions() {
    assert!(!is_valid_transition("JKS", "JKS"));
    assert!(!is_valid_transition("JKO", "JKO"));
    assert!(!is_valid_transition("EF", "JKS"));
    assert!(!is_valid_transition("EF", "JKO"));
    assert!(!is_valid_transition("EF", "EF"));
    assert!(!is_valid_transition("SF", "JKS"));
}

#[test]
fn other_transitions_are_allowed() {
    assert!(is_valid_transition("JKS", "EF"));
    assert!(is_valid_transition("JKO", "JKS"));
    assert!(is_valid_transition("SF", "JKO"));
    assert!(is_valid_transition("NNG", "JKS"));
    assert!(is_valid_transition("", ""));
    assert!(is_valid_transition("JKSX", "JKS"));
    assert!(is_valid_transition("XYZ", "QQ"));
}
