use kulim::RustTrie;

fn s(x: &str) -> String {
    x.to_string()
}

fn pair(a: &str, b: &str) -> (String, String) {
    (s(a), s(b))
}

#[test]
fn search_keeps_first_insertion_order_without_repeats() {
    let mut t = RustTrie::new();
    t.insert(s("감"), s("NNG"), s("감"));
    t.insert(s("감"), s("VV"), s("감다"));
    t.insert(s("감"), s("NNG"), s("감"));
    t.insert(s("감"), s("MAG"), s("감"));
    t.insert(s("감"), s("VV"), s("감다"));
    assert_eq!(
        t.search(s("감")),
        vec![pair("NNG", "감"), pair("VV", "감다"), pair("MAG", "감")]
    );
}

#[test]
fn search_of_unknown_word_is_empty() {
    let mut t = RustTrie::new();
    t.insert(s("ab"), s("NNG"), s("AB"));
    assert_eq!(t.search(s("a")), Vec::<(String, String)>::new());
    assert_eq!(t.search(s("abc")), Vec::<(String, String)>::new());
    assert_eq!(t.search(s("")), Vec::<(String, String)>::new());
}

#[test]
fn words_are_case_and_form_sensitive() {
    let mut t = RustTrie::new();
    t.insert(s("Ab"), s("NNP"), s("Ab"));
    assert!(t.contains_word(s("Ab")));
    assert!(!t.contains_word(s("ab")));
    assert!(!t.contains_word(s("Ab ")));
}

#[test]
fn contains_word_after_insert() {
    let mut t = RustTrie::new();
    assert!(!t.contains_word(s("x")));
    t.insert(s("x"), s("SL"), s("x"));
    assert!(t.contains_word(s("x")));
}

#[test]
fn empty_word_is_an_ordinary_key() {
    let mut t = RustTrie::new();
    t.insert(s(""), s("SF"), s(""));
    assert!(t.contains_word(s("")));
    assert_eq!(t.search(s("")), vec![pair("SF", "")]);
}

#[test]
fn search_batch_follows_input_order() {
    let mut t = RustTrie::new();
    t.insert(s("a"), s("NP"), s("A"));
    t.insert(s("b"), s("JKS"), s("B"));
    let r = t.search_batch(vec![s("b"), s("z"), s("a"), s("b")]);
    assert_eq!(
        r,
        vec![
            vec![pair("JKS", "B")],
            vec![],
            vec![pair("NP", "A")],
            vec![pair("JKS", "B")]
        ]
    );
    assert_eq!(t.search_batch(vec![]), Vec::<Vec<(String, String)>>::new());
}

#[test]
fn stats_count_distinct_words_and_triples() {
    let mut t = RustTrie::new();
    assert_eq!(t.get_stats(), (0, 0));
    t.insert(s("a"), s("NP"), s("A"));
    t.insert(s("a"), s("NP"), s("A"));
    t.insert(s("a"), s("NNG"), s("A"));
    t.insert(s("b"), s("NP"), s("A"));
    t.insert(s("b"), s("NP"), s("A"));
    t.insert(s("c"), s("EF"), s("C"));
    assert_eq!(t.get_stats(), (3, 4));
}

#[test]
fn many_words_stay_findable() {
    let mut t = RustTrie::new();
    let mut i: u32 = 0;
    while i < 2000 {
        t.insert(format!("w{}", i), s("NNG"), format!("{}", i));
        i += 1;
    }
    assert_eq!(t.get_stats(), (2000, 2000));
    assert_eq!(t.search(s("w1234")), vec![pair("NNG", "1234")]);
    assert!(!t.contains_word(s("w2000")));
}
