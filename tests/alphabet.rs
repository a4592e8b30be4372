use akshara_mantapa::{GraphemeAlphabet, KannadaScript};

#[test]
fn script_tables_have_their_sizes() {
    assert_eq!(KannadaScript::consonants().len(), 36);
    assert_eq!(KannadaScript::vowels().len(), 14);
    assert_eq!(KannadaScript::matras().len(), 13);
    assert_eq!(KannadaScript::modifiers().len(), 2);
    assert_eq!(KannadaScript::punctuation().len(), 6);
    assert_eq!(KannadaScript::punctuation()[0], ' ');
    assert_eq!(KannadaScript::halant(), '್');
}

#[test]
fn alphabet_has_expected_size_and_order() {
    let a = GraphemeAlphabet::new();
    // 1 + 5 + 14*3 + 36 + 36*41 + 36 + 36*36*42 + 36*36
    assert_eq!(a.size(), 57324);
    assert_eq!(a.get(0), Some(" "));
    assert_eq!(a.get(1), Some("."));
    assert_eq!(a.get(5), Some("।"));
    assert_eq!(a.get(6), Some("ಅ"));
    assert_eq!(a.get(7), Some("ಅಂ"));
    assert_eq!(a.get(8), Some("ಅಃ"));
    assert_eq!(a.get(48), Some("ಕ"));
    assert_eq!(a.get(84), Some("ಕಾ"));
    assert_eq!(a.get(85), Some("ಕಾಂ"));
    assert_eq!(a.get(123), Some("ಕಂ"));
    assert_eq!(a.get(1560), Some("ಕ್"));
    assert_eq!(a.get(1596), Some("ಕ್ಕ"));
    assert_eq!(a.get(56028), Some("ಕ್ಕ್"));
    assert_eq!(a.get(57323), Some("ಹ್ಹ್"));
    assert_eq!(a.get(57324), None);
}

#[test]
fn alphabet_entries_are_unique() {
    let a = GraphemeAlphabet::new();
    for i in 0..a.size() {
        let c = a.get(i).unwrap();
        assert_eq!(a.index_of(c), Some(i));
    }
}

#[test]
fn default_alphabet_is_the_full_one() {
    assert_eq!(GraphemeAlphabet::default().size(), 57324);
}

#[test]
fn index_of_unknown_cluster_is_none() {
    let a = GraphemeAlphabet::new();
    assert_eq!(a.index_of("a"), None);
    assert_eq!(a.index_of(""), None);
    assert_eq!(a.index_of("ಕಕಕಕಕಕ"), None);
    assert_eq!(a.index_of("😀"), None);
}

#[test]
fn segment_single_consonant() {
    let a = GraphemeAlphabet::new();
    let r = a.segment("ಕ").unwrap();
    assert_eq!(r, vec![a.index_of("ಕ").unwrap()]);
    assert_eq!(r.len(), 1);
}

#[test]
fn segment_conjunct_is_one_cluster() {
    let a = GraphemeAlphabet::new();
    let r = a.segment("ಕ್ಷ").unwrap();
    assert_eq!(r, vec![a.index_of("ಕ್ಷ").unwrap()]);
}

#[test]
fn segment_takes_longest_match() {
    let a = GraphemeAlphabet::new();
    let r = a.segment("ಕಾಂಗ").unwrap();
    assert_eq!(r, vec![a.index_of("ಕಾಂ").unwrap(), a.index_of("ಗ").unwrap()]);
}

#[test]
fn segment_fails_on_unknown_character() {
    let a = GraphemeAlphabet::new();
    assert_eq!(a.segment("a"), None);
    assert_eq!(a.segment("ಕa"), None);
    assert_eq!(a.segment("😀"), None);
}

#[test]
fn segment_of_empty_text_is_empty() {
    let a = GraphemeAlphabet::new();
    assert_eq!(a.segment(""), Some(vec![]));
}

#[test]
fn segment_then_concatenate_gives_text_back() {
    let a = GraphemeAlphabet::new();
    for text in ["ನಮಸ್ಕಾರ", "ಕನ್ನಡ ಭಾಷೆ.", "ಅಂ ಕ್ಷ್ ಸ್ತ್ರೀ!", "ರ್ನ್"] {
        let idx = a.segment(text).unwrap();
        assert_eq!(a.indices_to_string(&idx), text);
    }
}

#[test]
fn indices_to_string_skips_unknown_indices() {
    let a = GraphemeAlphabet::new();
    assert_eq!(a.indices_to_string(&[48, 1_000_000, 0, 1]), "ಕ .");
    assert_eq!(a.indices_to_string(&[]), "");
}
