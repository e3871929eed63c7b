use kulim::analyzer::edge_cost_of;
use kulim::RustTrie;

fn s(x: &str) -> String {
    x.to_string()
}

fn m(a: &str, b: &str, c: &str) -> (String, String, String) {
    (s(a), s(b), s(c))
}

#[test]
fn empty_text_gives_empty_analysis() {
    let mut t = RustTrie::new();
    assert_eq!(t.analyze(s("")), vec![]);
    t.insert(s("a"), s("NNG"), s("A"));
    assert_eq!(t.analyze(s("")), vec![]);
}

#[test]
fn unknown_single_character() {
    let t = RustTrie::new();
    assert_eq!(t.analyze(s("a")), vec![m("a", "NNG", "UNKNOWN")]);
}

#[test]
fn two_character_noun_beats_two_unknowns() {
    let mut t = RustTrie::new();
    t.insert(s("ab"), s("NNG"), s("AB"));
    assert_eq!(t.analyze(s("ab")), vec![m("ab", "NNG", "AB")]);
}

#[test]
fn noun_then_particle_gets_context_bonus() {
    let mut t = RustTrie::new();
    t.insert(s("a"), s("NP"), s("A"));
    t.insert(s("b"), s("JKS"), s("B"));
    assert_eq!(t.analyze(s("ab")), vec![m("a", "NP", "A"), m("b", "JKS", "B")]);
}

#[test]
fn forbidden_transition_falls_back_to_unknown() {
    let mut t = RustTrie::new();
    t.insert(s("x"), s("JKS"), s("X"));
    t.insert(s("y"), s("JKS"), s("Y"));
    assert_eq!(t.analyze(s("xy")), vec![m("x", "JKS", "X"), m("y", "NNG", "UNKNOWN")]);
}

#[test]
fn non_empty_text_is_fully_covered() {
    let mut t = RustTrie::new();
    t.insert(s("학교"), s("NNG"), s("학교"));
    t.insert(s("에"), s("JKB"), s("에"));
    let text = s("나는학교에갔다");
    let r = t.analyze(text.clone());
    assert!(!r.is_empty());
    let joined: String = r.iter().map(|x| x.0.clone()).collect();
    assert_eq!(joined, text);
    assert_eq!(
        r,
        vec![
            m("나", "NNG", "UNKNOWN"),
            m("는", "NNG", "UNKNOWN"),
            m("학교", "NNG", "학교"),
            m("에", "JKB", "에"),
            m("갔", "NNG", "UNKNOWN"),
            m("다", "NNG", "UNKNOWN"),
        ]
    );
}

#[test]
fn equal_cost_keeps_the_earlier_entry() {
    let mut t = RustTrie::new();
    t.insert(s("a"), s("NNG"), s("A1"));
    t.insert(s("a"), s("NNP"), s("A2"));
    assert_eq!(t.analyze(s("a")), vec![m("a", "NNG", "A1")]);
}

#[test]
fn adverb_then_noun() {
    let mut t = RustTrie::new();
    t.insert(s("ab"), s("MAG"), s("AB"));
    t.insert(s("cd"), s("NNG"), s("CD"));
    t.insert(s("abcd"), s("NNG"), s("ABCD"));
    // -40 + -50 = -90 against -45 for the whole word
    assert_eq!(t.analyze(s("abcd")), vec![m("ab", "MAG", "AB"), m("cd", "NNG", "CD")]);
}

#[test]
fn matches_longer_than_sixteen_are_not_used() {
    let mut t = RustTrie::new();
    let long = "abcdefghijklmnopq";
    t.insert(s(long), s("NNG"), s("LONG"));
    let r = t.analyze(s(long));
    assert_eq!(r.len(), 17);
    assert_eq!(r[0], m("a", "NNG", "UNKNOWN"));
}

#[test]
fn edge_cost_values() {
    let vv = s("VV");
    let ic = s("IC");
    let nng = s("NNG");
    let mag = s("MAG");
    let jks = s("JKS");
    let ef = s("EF");
    let ep = s("EP");
    let mm = s("MM");
    assert_eq!(edge_cost_of(1, &vv, None), 15);
    assert_eq!(edge_cost_of(1, &ic, None), 15);
    assert_eq!(edge_cost_of(1, &nng, None), -5);
    assert_eq!(edge_cost_of(2, &nng, None), -35);
    assert_eq!(edge_cost_of(3, &nng, None), -45);
    assert_eq!(edge_cost_of(2, &mag, None), -40);
    assert_eq!(edge_cost_of(1, &jks, Some(&nng)), -25);
    assert_eq!(edge_cost_of(1, &ef, Some(&vv)), -20);
    assert_eq!(edge_cost_of(1, &ef, Some(&ep)), -15);
    assert_eq!(edge_cost_of(2, &nng, Some(&mag)), -50);
    assert_eq!(edge_cost_of(1, &vv, Some(&mag)), 5);
    assert_eq!(edge_cost_of(2, &nng, Some(&mm)), -45);
    assert_eq!(edge_cost_of(1, &jks, Some(&ef)), -5);
}
