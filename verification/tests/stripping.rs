use std::collections::HashMap;

use diacritics::decompose::compute_fully_decomposed;
use diacritics::mapping::{add_mapping, mapping_pairs};
use diacritics::phf::CharMap;
use diacritics::{CharDiacriticExt, StrDiacriticExt};

fn sample_table() -> CharMap<String> {
    let mut canon: HashMap<u32, Vec<u32>> = HashMap::new();
    let mut compat: HashMap<u32, Vec<u32>> = HashMap::new();
    let mut classes: HashMap<u32, u8> = HashMap::new();
    for cp in 0x300u32..=0x314 {
        classes.insert(cp, 230);
    }
    classes.insert(0x323, 220);
    canon.insert(0xC5, vec![0x41, 0x30A]);
    canon.insert(0xD6, vec![0x4F, 0x308]);
    canon.insert(0xC4, vec![0x41, 0x308]);
    canon.insert(0xE0, vec![0x61, 0x300]);
    canon.insert(0xE8, vec![0x65, 0x300]);
    canon.insert(0xE9, vec![0x65, 0x301]);
    canon.insert(0xEC, vec![0x69, 0x300]);
    canon.insert(0xF2, vec![0x6F, 0x300]);
    canon.insert(0xF9, vec![0x75, 0x300]);
    // U+1EAD: a with circumflex and dot below, through U+1EA1
    canon.insert(0x1EA1, vec![0x61, 0x323]);
    canon.insert(0x1EAD, vec![0x1EA1, 0x302]);
    // U+00B4 ACUTE ACCENT and U+00A8 DIAERESIS have compatibility rules only
    compat.insert(0xB4, vec![0x20, 0x301]);
    compat.insert(0xA8, vec![0x20, 0x308]);
    // U+01C4 is made of D and Z WITH CARON, itself canonical
    canon.insert(0x17D, vec![0x5A, 0x30C]);
    compat.insert(0x1C4, vec![0x44, 0x17D]);
    // no mark anywhere: never a key
    compat.insert(0xB2, vec![0x32]);
    let (c, k) = compute_fully_decomposed(&canon, &compat, 0x1EFF).unwrap();
    let mut mapping: HashMap<u32, String> = HashMap::new();
    add_mapping(&c, &classes, &mut mapping).unwrap();
    add_mapping(&k, &classes, &mut mapping).unwrap();
    let pairs = mapping_pairs(&mapping, 0x1EFF);
    CharMap::build(&pairs).unwrap()
}

#[test]
fn cow_borrowed() {
    let table = sample_table();
    let input = "aeiouy";
    let out = input.strip_diacritics(&table);
    assert!(out.is_borrowed());
    assert_eq!(out.as_str(), "aeiouy");
    assert_eq!(out.as_str().as_ptr(), input.as_ptr());
}

#[test]
fn eu_diacritics() {
    let table = sample_table();
    assert_eq!("TÅRÖÄàèéìòù".strip_diacritics(&table).as_str(), "TAROAaeeiou");
    assert!(!"TÅRÖÄàèéìòù".strip_diacritics(&table).is_borrowed());
}

#[test]
fn combining_acute_alone_is_removed() {
    let table = sample_table();
    let out = "\u{301}".strip_diacritics(&table);
    assert_eq!(out.as_str(), "");
    assert!(!out.is_borrowed());
    assert_eq!('\u{301}'.strip_diacritics(&table), Some(""));
    assert!('\u{301}'.is_diacritic());
    assert!('\u{300}'.is_diacritic());
    assert!('\u{36f}'.is_diacritic());
    assert!(!'\u{2ff}'.is_diacritic());
    assert!(!'\u{370}'.is_diacritic());
    assert!(diacritics::is_diacritic::is_diacritic('\u{340}'));
    assert!(!diacritics::is_diacritic::is_diacritic('a'));
}

#[test]
fn compatibility_only_rule_is_followed() {
    let table = sample_table();
    assert_eq!('\u{b4}'.strip_diacritics(&table), Some(" "));
    assert_eq!("a\u{a8}b".strip_diacritics(&table).as_str(), "a b");
    assert_eq!('\u{1c4}'.strip_diacritics(&table), Some("DZ"));
    assert_eq!('\u{b2}'.strip_diacritics(&table), None);
}

#[test]
fn hangul_is_left_alone() {
    let table = sample_table();
    let out = "한글".strip_diacritics(&table);
    assert!(out.is_borrowed());
    assert_eq!(out.as_str(), "한글");
    assert_eq!('한'.strip_diacritics(&table), None);
}

#[test]
fn nested_rules_are_followed_to_the_end() {
    let table = sample_table();
    assert_eq!('\u{1ead}'.strip_diacritics(&table), Some("a"));
    assert_eq!("x\u{1ead}y\u{1ea1}".strip_diacritics(&table).into_owned(), "xaya");
}

#[test]
fn single_character_agrees_with_lookup() {
    let table = sample_table();
    for c in ['a', 'é', 'Å', '\u{301}', '한', '\u{b4}', 'ÿ', '\u{10ffff}'] {
        let text = c.to_string();
        let whole = text.as_str().strip_diacritics(&table).into_owned();
        match c.strip_diacritics(&table) {
            Some(t) => assert_eq!(whole, t),
            None => assert_eq!(whole, text),
        }
    }
}

#[test]
fn stripping_twice_changes_nothing() {
    let table = sample_table();
    for s in ["", "aeiouy", "TÅRÖÄàèéìòù", "e\u{301}\u{300}", "\u{1c4}\u{1ead}한", "é"] {
        let once = s.strip_diacritics(&table).into_owned();
        let twice = once.as_str().strip_diacritics(&table).into_owned();
        assert_eq!(once, twice);
    }
}

#[test]
fn text_after_the_last_replacement_is_kept() {
    let table = sample_table();
    assert_eq!("éabc".strip_diacritics(&table).as_str(), "eabc");
    assert_eq!("abcé".strip_diacritics(&table).as_str(), "abce");
    assert_eq!("".strip_diacritics(&table).as_str(), "");
    assert!("".strip_diacritics(&table).is_borrowed());
}

#[test]
fn every_key_is_found_and_no_other() {
    let table = sample_table();
    let expect: Vec<(char, &str)> = vec![
        ('\u{a8}', " "),
        ('\u{b4}', " "),
        ('Ä', "A"),
        ('Å', "A"),
        ('Ö', "O"),
        ('à', "a"),
        ('è', "e"),
        ('é', "e"),
        ('ì', "i"),
        ('ò', "o"),
        ('ù', "u"),
        ('\u{17d}', "Z"),
        ('\u{1c4}', "DZ"),
        ('\u{1ea1}', "a"),
        ('\u{1ead}', "a"),
    ];
    assert_eq!(table.len(), expect.len());
    assert!(!table.is_empty());
    for (k, v) in &expect {
        assert_eq!(table.get(*k).map(|s| s.as_str()), Some(*v));
        assert_eq!(table.get_entry(*k).map(|e| (e.0, e.1.as_str())), Some((*k, *v)));
        assert!(table.contains_key(*k));
    }
    let mut n = 0;
    for cp in 0u32..0x3000 {
        if let Some(c) = char::from_u32(cp) {
            if table.contains_key(c) {
                n += 1;
                assert!(expect.iter().any(|(k, _)| *k == c));
            }
        }
    }
    assert_eq!(n, expect.len());
    assert_eq!(table.range, ('\u{a8}', '\u{1ead}'));
    assert!(!table.contains_key('\u{10ffff}'));
    assert!(!table.contains_key('a'));
}

#[test]
fn every_entry_sits_at_its_slot() {
    let table = sample_table();
    assert_eq!(table.disps.len(), (table.entries.len() + 4) / 5);
    for (k, v) in table.entries.iter() {
        assert_eq!(table.get(*k), Some(v));
    }
}

#[test]
fn no_table_of_nothing_or_of_pairs_out_of_order() {
    assert!(CharMap::build(&Vec::new()).is_none());
    let unsorted = vec![('b', "x".to_string()), ('a', "y".to_string())];
    assert!(CharMap::build(&unsorted).is_none());
    let twice = vec![('a', "x".to_string()), ('a', "y".to_string())];
    assert!(CharMap::build(&twice).is_none());
    let one = vec![('q', "Q".to_string())];
    let t = CharMap::build(&one).unwrap();
    assert_eq!(t.get('q').map(|s| s.as_str()), Some("Q"));
    assert_eq!(t.get('r'), None);
    assert_eq!("quiq".strip_diacritics(&t).as_str(), "QuiQ");
}

#[test]
fn lookup_in_a_table_without_entries_finds_nothing() {
    let t: CharMap<String> =
        CharMap { range: ('a', 'z'), key: 7, disps: Vec::new(), entries: Vec::new() };
    assert_eq!(t.get('b'), None);
    assert!(t.is_empty());
    assert_eq!(t.len(), 0);
    assert_eq!("abc".strip_diacritics(&t).as_str(), "abc");
}

#[test]
fn a_table_whose_texts_can_be_replaced_is_not_stable() {
    let pairs = vec![('a', "b".to_string()), ('b', "c".to_string())];
    let t = CharMap::build(&pairs).unwrap();
    let once = "a".strip_diacritics(&t).into_owned();
    assert_eq!(once, "b");
    assert_eq!(once.as_str().strip_diacritics(&t).as_str(), "c");
}
