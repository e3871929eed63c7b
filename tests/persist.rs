use kulim::{from_stored, RustTrie, StoreError};

fn s(x: &str) -> String {
    x.to_string()
}

fn pair(a: &str, b: &str) -> (String, String) {
    (s(a), s(b))
}

#[test]
fn encode_then_decode_gives_the_same_dictionary() {
    let mut t = RustTrie::new();
    t.insert(s("감"), s("NNG"), s("감"));
    t.insert(s("감"), s("VV"), s("감다"));
    t.insert(s("a"), s("NP"), s("A"));
    t.insert(s("b"), s("JKS"), s("B"));
    let bytes = t.encode();
    let u = RustTrie::decode(&bytes).unwrap();
    assert_eq!(u.get_stats(), t.get_stats());
    for w in ["감", "a", "b", "c"] {
        assert_eq!(u.search(s(w)), t.search(s(w)));
    }
    assert_eq!(u.search(s("감")), vec![pair("NNG", "감"), pair("VV", "감다")]);
    assert_eq!(u.to_stored(), t.to_stored());
}

#[test]
fn empty_dictionary_round_trip() {
    let t = RustTrie::new();
    let bytes = t.encode();
    assert_eq!(bytes, vec![0u8, 0, 0, 0, 0, 0, 0, 0]);
    let u = RustTrie::decode(&bytes).unwrap();
    assert_eq!(u.get_stats(), (0, 0));
}

#[test]
fn encoding_is_length_prefixed() {
    let mut t = RustTrie::new();
    t.insert(s("ab"), s("NNG"), s("AB"));
    let bytes = t.encode();
    let mut expected: Vec<u8> = vec![1, 0, 0, 0, 0, 0, 0, 0];
    expected.extend_from_slice(&[2, 0, 0, 0, 0, 0, 0, 0, b'a', b'b']);
    expected.extend_from_slice(&[1, 0, 0, 0, 0, 0, 0, 0]);
    expected.extend_from_slice(&[3, 0, 0, 0, 0, 0, 0, 0, b'N', b'N', b'G']);
    expected.extend_from_slice(&[2, 0, 0, 0, 0, 0, 0, 0, b'A', b'B']);
    assert_eq!(bytes, expected);
}

#[test]
fn truncated_bytes_fail_to_decode() {
    let mut t = RustTrie::new();
    t.insert(s("ab"), s("NNG"), s("AB"));
    let bytes = t.encode();
    let cut = bytes[..bytes.len() - 1].to_vec();
    let r = RustTrie::decode(&cut);
    assert!(matches!(r, Err(StoreError::Decode(_))));
    let r2 = RustTrie::decode(&vec![1, 2, 3]);
    assert!(matches!(r2, Err(StoreError::Decode(_))));
}

#[test]
fn invalid_utf8_fails_to_decode() {
    let mut bytes: Vec<u8> = vec![1, 0, 0, 0, 0, 0, 0, 0];
    bytes.extend_from_slice(&[1, 0, 0, 0, 0, 0, 0, 0, 0xff]);
    bytes.extend_from_slice(&[0, 0, 0, 0, 0, 0, 0, 0]);
    let r = RustTrie::decode(&bytes);
    match r {
        Err(e) => {
            assert!(matches!(e, StoreError::Decode(_)));
            assert!(!e.message().is_empty());
        }
        Ok(_) => panic!("decoded invalid text"),
    }
}

#[test]
fn stored_form_with_repeated_word_is_refused() {
    let v = vec![
        (s("a"), vec![pair("NP", "A")]),
        (s("a"), vec![pair("NNG", "A")]),
    ];
    assert!(matches!(from_stored(v), Err(StoreError::Decode(_))));
}

#[test]
fn stored_form_with_repeated_entry_is_refused() {
    let v = vec![(s("a"), vec![pair("NP", "A"), pair("NP", "A")])];
    assert!(matches!(from_stored(v), Err(StoreError::Decode(_))));
}

#[test]
fn stored_form_with_empty_list_is_refused() {
    let v = vec![(s("a"), vec![])];
    assert!(matches!(from_stored(v), Err(StoreError::Decode(_))));
}

#[test]
fn stored_form_builds_dictionary() {
    let v = vec![
        (s("b"), vec![pair("JKS", "B")]),
        (s("a"), vec![pair("NP", "A"), pair("NNG", "A")]),
    ];
    let t = from_stored(v.clone()).unwrap();
    assert_eq!(t.get_stats(), (2, 3));
    assert_eq!(t.search(s("a")), vec![pair("NP", "A"), pair("NNG", "A")]);
    assert_eq!(t.to_stored(), v);
}

#[test]
fn store_error_message() {
    let e = StoreError::Io(s("disk full"));
    assert_eq!(e.message(), "disk full");
}

#[test]
fn empty_bytes_fail_to_decode() {
    let r = RustTrie::decode(&Vec::new());
    assert!(matches!(r, Err(StoreError::Decode(_))));
}
