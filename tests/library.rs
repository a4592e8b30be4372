use akshara_mantapa::{
    BigNum, BijectionEngine, HierarchicalAddress, LibraryOfBabel, Location, CLUSTERS_PER_PAGE,
};

fn hex_of(n: &BigNum) -> String {
    Location::from_raw_address(n).raw_hex
}

fn spaces(n: usize) -> String {
    " ".repeat(n)
}

#[test]
fn library_dimensions() {
    let lib = LibraryOfBabel::new();
    assert_eq!(lib.alphabet_size(), 57324);
    assert_eq!(lib.page_length(), 400);
    assert_eq!(LibraryOfBabel::default().alphabet_size(), 57324);
}

#[test]
fn zero_address_page_is_all_spaces() {
    let lib = LibraryOfBabel::new();
    let loc = Location::from_hex("0").unwrap();
    let page = lib.generate_page(&loc);
    assert_eq!(page.content, spaces(400));
    assert_eq!(page.cluster_indices, vec![0usize; 400]);
    assert_eq!(page.location.raw_hex, "0");
    let h = &page.location.hierarchical;
    assert_eq!((h.mandira.to_u64(), h.gode, h.patti, h.pustaka, h.puta), (Some(0), 1, 1, 1, 1));
}

#[test]
fn formatted_content_breaks_every_line() {
    let lib = LibraryOfBabel::new();
    let page = lib.generate_page_from_hex("abc").unwrap();
    let lines: Vec<&str> = page.formatted_content.split('\n').collect();
    assert_eq!(lines.len(), 16);
    assert_eq!(page.formatted_content.replace('\n', ""), page.content);
    assert_eq!(page.cluster_indices.len(), 400);
}

#[test]
fn search_single_cluster_page_starts_with_it() {
    let lib = LibraryOfBabel::new();
    let res = lib.search("ಕ").unwrap();
    assert_eq!(res.query, "ಕ");
    assert_eq!(res.cluster_count, 1);
    let page = lib.generate_page(&res.location);
    assert_eq!(page.content, format!("ಕ{}", spaces(399)));
    assert!(lib.verify(&res.location, "ಕ"));
    assert!(lib.verify(&res.location, "ಕ "));
    assert!(!lib.verify(&res.location, "ಖ"));
}

#[test]
fn search_then_verify_holds() {
    let lib = LibraryOfBabel::new();
    for text in ["ನಮಸ್ಕಾರ", "ಕನ್ನಡ ಭಾಷೆ.", "ಹ್ಹ್ಹ್", "।"] {
        let res = lib.search(text).unwrap();
        assert!(lib.verify(&res.location, text));
        let page = lib.generate_page(&res.location);
        assert!(page.content.starts_with(text));
    }
}

#[test]
fn search_rejects_empty_and_unsegmentable() {
    let lib = LibraryOfBabel::new();
    assert!(lib.search("").is_none());
    assert!(lib.search("hello").is_none());
    assert!(lib.search("ಕx").is_none());
}

#[test]
fn search_of_full_page_text() {
    let lib = LibraryOfBabel::new();
    let text = "ಕ".repeat(400);
    let res = lib.search(&text).unwrap();
    assert_eq!(res.cluster_count, 400);
    assert_eq!(lib.generate_page(&res.location).content, text);
}

#[test]
fn hierarchical_to_raw_formula() {
    let h = HierarchicalAddress { mandira: BigNum::from_u64(0xabc), gode: 2, patti: 3, pustaka: 10, puta: 77 };
    let expected: u64 = ((((0xabc * 4 + 1) * 5 + 2) * 32 + 9) * 410) + 76;
    assert_eq!(h.to_raw().to_u64(), Some(expected));
    assert_eq!(expected, 721170806);
    let back = HierarchicalAddress::from_raw(&BigNum::from_u64(expected));
    assert_eq!((back.mandira.to_u64(), back.gode, back.patti, back.pustaka, back.puta), (Some(0xabc), 2, 3, 10, 77));
}

#[test]
fn from_raw_of_large_number() {
    let raw = BigNum::from_u128(u128::MAX);
    let h = HierarchicalAddress::from_raw(&raw);
    assert_eq!(hex_of(&h.to_raw()), "ffffffffffffffffffffffffffffffff");
    assert!(h.gode >= 1 && h.gode <= 4 && h.puta >= 1 && h.puta <= 410);
}

#[test]
fn next_page_of_zero() {
    let lib = LibraryOfBabel::new();
    let page = lib.next_page(&Location::from_hex("0").unwrap());
    let h = &page.location.hierarchical;
    assert_eq!((h.mandira.to_u64(), h.gode, h.patti, h.pustaka, h.puta), (Some(0), 1, 1, 1, 2));
    assert_eq!(page.location.raw_hex, "1");
}

#[test]
fn next_carries_into_mandira() {
    let h = HierarchicalAddress { mandira: BigNum::from_u64(7), gode: 4, patti: 5, pustaka: 32, puta: 410 };
    let n = h.next();
    assert_eq!((n.mandira.to_u64(), n.gode, n.patti, n.pustaka, n.puta), (Some(8), 1, 1, 1, 1));
    let lib = LibraryOfBabel::new();
    let page = lib.next_page(&Location::from_hierarchical(h));
    let p = &page.location.hierarchical;
    assert_eq!((p.mandira.to_u64(), p.gode, p.patti, p.pustaka, p.puta), (Some(8), 1, 1, 1, 1));
}

#[test]
fn previous_borrows_from_mandira() {
    let h = HierarchicalAddress { mandira: BigNum::from_u64(8), gode: 1, patti: 1, pustaka: 1, puta: 1 };
    let p = h.previous().unwrap();
    assert_eq!((p.mandira.to_u64(), p.gode, p.patti, p.pustaka, p.puta), (Some(7), 4, 5, 32, 410));
}

#[test]
fn previous_of_zero_is_none() {
    let lib = LibraryOfBabel::new();
    let zero = Location::from_hex("0").unwrap();
    assert!(lib.previous_page(&zero).is_none());
    assert!(zero.previous().is_none());
}

#[test]
fn next_then_previous_is_the_same_page() {
    let lib = LibraryOfBabel::new();
    for hex in ["0", "199", "1a0", "abcdef0123456789"] {
        let loc = Location::from_hex(hex).unwrap();
        let next = lib.next_page(&loc);
        let back = lib.previous_page(&next.location).unwrap();
        let here = lib.generate_page(&loc);
        assert_eq!(back.location.raw_hex, here.location.raw_hex);
        assert_eq!(back.content, here.content);
        assert_eq!(back.cluster_indices, here.cluster_indices);
    }
}

#[test]
fn next_raw_differs_by_one() {
    let loc = Location::from_hex("ff").unwrap();
    let next = loc.next();
    assert_eq!(next.raw_hex, "100");
    assert_eq!(next.to_raw().to_u64(), Some(256));
}

#[test]
fn hex_rendering_is_canonical() {
    let loc = Location::from_hex("00AbC").unwrap();
    assert_eq!(loc.raw_hex, "abc");
    let again = Location::from_hex(&loc.raw_hex).unwrap();
    assert_eq!(again.raw_hex, loc.raw_hex);
    assert_eq!(again.to_raw().to_u64(), Some(0xabc));
    assert_eq!(Location::from_hex("0").unwrap().raw_hex, "0");
    assert_eq!(Location::from_hex("000").unwrap().raw_hex, "0");
}

#[test]
fn from_hex_rejects_non_hex() {
    assert!(Location::from_hex("").is_none());
    assert!(Location::from_hex("xyz").is_none());
    assert!(Location::from_hex("+ff").is_none());
    assert!(Location::from_hex("f_f").is_none());
    assert!(Location::from_hex("0x10").is_none());
}

#[test]
fn display_string_round_trip() {
    let h = HierarchicalAddress { mandira: BigNum::from_u64(0xabc), gode: 2, patti: 3, pustaka: 10, puta: 77 };
    let s = h.to_display_string();
    assert_eq!(s, "abc.2.3.10.77");
    assert_eq!(h.mandira_hex(), "abc");
    let back = HierarchicalAddress::from_display_string(&s).unwrap();
    assert_eq!((back.mandira.to_u64(), back.gode, back.patti, back.pustaka, back.puta), (Some(0xabc), 2, 3, 10, 77));
}

#[test]
fn display_string_of_zero_mandira() {
    let h = HierarchicalAddress { mandira: BigNum::zero(), gode: 1, patti: 1, pustaka: 1, puta: 1 };
    assert_eq!(h.to_display_string(), "0.1.1.1.1");
}

#[test]
fn from_display_string_rejects_bad_fields() {
    assert!(HierarchicalAddress::from_display_string("abc.0.1.1.1").is_none());
    assert!(HierarchicalAddress::from_display_string("abc.5.1.1.1").is_none());
    assert!(HierarchicalAddress::from_display_string("abc.1.6.1.1").is_none());
    assert!(HierarchicalAddress::from_display_string("abc.1.1.33.1").is_none());
    assert!(HierarchicalAddress::from_display_string("abc.1.1.1.411").is_none());
    assert!(HierarchicalAddress::from_display_string("abc.1.1.1").is_none());
    assert!(HierarchicalAddress::from_display_string("xyz.1.1.1.1").is_none());
    assert!(HierarchicalAddress::from_display_string("abc.1.1.1.").is_none());
    assert!(HierarchicalAddress::from_display_string("abc.1.1.1.99999999999999999999").is_none());
}

#[test]
fn from_display_string_accepts_plus_and_leading_zeros() {
    let h = HierarchicalAddress::from_display_string("F.+4.05.032.410").unwrap();
    assert_eq!((h.mandira.to_u64(), h.gode, h.patti, h.pustaka, h.puta), (Some(15), 4, 5, 32, 410));
}

#[test]
fn generate_page_from_hierarchical_matches_hex() {
    let lib = LibraryOfBabel::new();
    let a = lib.generate_page_from_hierarchical("0.1.1.1.2").unwrap();
    let b = lib.generate_page_from_hex("1").unwrap();
    assert_eq!(a.content, b.content);
    assert!(lib.generate_page_from_hierarchical("0.9.1.1.1").is_none());
    assert!(lib.generate_page_from_hex("g").is_none());
}

#[test]
fn engine_round_trips() {
    let e = BijectionEngine::new(57324);
    for v in [0u128, 1, 2, 12345, u128::MAX] {
        let c = BigNum::from_u128(v);
        let a = e.content_to_address(&c);
        assert_eq!(hex_of(&e.address_to_content(&a)), hex_of(&c));
        let back = e.content_to_address(&e.address_to_content(&c));
        assert_eq!(hex_of(&back), hex_of(&c));
    }
    assert_ne!(hex_of(&e.content_to_address(&BigNum::from_u64(1))), "1");
}

#[test]
fn engine_digits_round_trip() {
    let e = BijectionEngine::new(57324);
    let digits: Vec<usize> = (0..400).map(|i| (i * 7919) % 57324).collect();
    let n = e.indices_to_biguint(&digits);
    assert_eq!(e.biguint_to_indices(n, 400), digits);
    let small = e.indices_to_biguint(&[1, 2]);
    assert_eq!(small.to_u64(), Some(57324 + 2));
    assert_eq!(e.biguint_to_indices(BigNum::from_u64(57324 * 3 + 5), 3), vec![0, 3, 5]);
    assert_eq!(e.alphabet_size().to_u64(), Some(57324));
}

#[test]
fn engine_small_alphabet() {
    let e = BijectionEngine::new(2);
    assert_eq!(hex_of(e.modulus()), format!("1{}", "0".repeat(100)));
    let c = BigNum::from_u64(5);
    let a = e.content_to_address(&c);
    assert_eq!(e.address_to_content(&a).to_u64(), Some(5));
}

#[test]
fn contains_kannada_detects_block() {
    assert!(LibraryOfBabel::contains_kannada("abcಕ"));
    assert!(!LibraryOfBabel::contains_kannada("abc.1.2"));
    assert!(!LibraryOfBabel::contains_kannada(""));
}

#[test]
fn kannada_to_hex_values() {
    let lib = LibraryOfBabel::new();
    assert_eq!(lib.kannada_to_hex("ಕ"), Some("30".to_string()));
    assert_eq!(lib.kannada_to_hex(". "), Some("dfec".to_string()));
    assert_eq!(lib.kannada_to_hex(""), None);
    assert_eq!(lib.kannada_to_hex("q"), None);
}

#[test]
fn mandira_as_kannada_trims_leading_spaces() {
    let lib = LibraryOfBabel::new();
    assert_eq!(lib.mandira_as_kannada(&BigNum::from_u64(48)), "ಕ");
    assert_eq!(lib.mandira_as_kannada(&BigNum::from_u64(57324 + 48)), ".ಕ");
    assert_eq!(lib.mandira_as_kannada(&BigNum::from_u64(57324)), ". ");
    assert_eq!(lib.mandira_as_kannada(&BigNum::zero()), "");
    assert_eq!(lib.mandira_kannada(&BigNum::from_u64(48)), Some("ಕ".to_string()));
}

#[test]
fn mandira_kannada_is_omitted_for_huge_rooms() {
    let lib = LibraryOfBabel::new();
    let page = lib.generate_page_from_hex(&"f".repeat(2600)).unwrap();
    let huge = &page.location.hierarchical.mandira;
    assert!(lib.mandira_kannada(huge).is_none());
}

#[test]
fn parse_address_forms() {
    let lib = LibraryOfBabel::new();
    assert_eq!(lib.parse_address("1a").unwrap().raw_hex, "1a");
    assert_eq!(lib.parse_address("abc.2.3.10.77").unwrap().to_raw().to_u64(), Some(721170806));
    let k = lib.parse_address("ಕ.1.1.1.2").unwrap();
    assert_eq!(k.hierarchical.mandira.to_u64(), Some(48));
    assert_eq!(k.hierarchical.puta, 2);
    let only = lib.parse_address("ಕ").unwrap();
    let h = &only.hierarchical;
    assert_eq!((h.mandira.to_u64(), h.gode, h.patti, h.pustaka, h.puta), (Some(48), 1, 1, 1, 1));
    assert!(lib.parse_address("zz").is_none());
    assert!(lib.parse_address("1.2.3").is_none());
    assert!(lib.parse_address("ಕq.1.1.1.1").is_none());
    assert!(lib.parse_address("").is_none());
}

#[test]
fn random_pages_differ() {
    let lib = LibraryOfBabel::new();
    let a = lib.random_page();
    let b = lib.random_page();
    assert_ne!(a.location.raw_hex, b.location.raw_hex);
    assert_eq!(a.cluster_indices.len(), 400);
}

#[test]
fn page_from_seed_reduces_modulo() {
    let lib = LibraryOfBabel::new();
    let p = lib.page_from_seed(&BigNum::from_u64(5));
    assert_eq!(p.location.raw_hex, "5");
}

#[test]
fn search_at_position_places_query() {
    let lib = LibraryOfBabel::new();
    let fill = vec![0u64; CLUSTERS_PER_PAGE];
    let res = lib.search_at_position("ಕಖ", 10, &fill).unwrap();
    assert_eq!(res.cluster_count, 2);
    let page = lib.generate_page(&res.location);
    assert_eq!(page.content, format!("{}ಕಖ{}", spaces(10), spaces(388)));
    let fill2 = vec![48u64 + 57324; CLUSTERS_PER_PAGE];
    let res2 = lib.search_at_position("ಖ", 1000, &fill2).unwrap();
    let page2 = lib.generate_page(&res2.location);
    let pos = 1000 % 400;
    assert_eq!(page2.content, format!("{}ಖ{}", "ಕ".repeat(pos), "ಕ".repeat(399 - pos)));
}

#[test]
fn search_at_random_position_contains_query() {
    let lib = LibraryOfBabel::new();
    let res = lib.search_at_random_position("ನಮಸ್ಕಾರ").unwrap();
    assert_eq!(res.cluster_count, 4);
    let page = lib.generate_page(&res.location);
    assert!(page.content.contains("ನಮಸ್ಕಾರ"));
}

#[test]
fn search_at_random_position_rejects_bad_queries() {
    let lib = LibraryOfBabel::new();
    assert!(lib.search_at_random_position("").is_none());
    assert!(lib.search_at_random_position("abc").is_none());
    assert!(lib.search_at_random_position(&"ಕ".repeat(400)).is_none());
    assert!(lib.search_at_random_position(&"ಕ".repeat(399)).is_some());
}
