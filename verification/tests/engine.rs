use std::collections::HashMap;

use diacritics::category::{Category, InvalidCategory};
use diacritics::StrDiacriticExt;
use diacritics::decompose::{
    compute_fully_decomposed, decompose, decompose_into, same_codepoints, DecompError, MAX_DEPTH,
};
use diacritics::mapping::{
    add_mapping, codepoints_to_utf8, filter_diacritics, mapping_pairs, sort_codepoints,
    MappingError,
};
use diacritics::phf::{is_ascending, slot_index, CharMap};
use diacritics::unicode_data::{
    load_unicode_data, parse_decomposition, parse_hex_list, parse_number, parse_record,
    split_fields, split_words, ParseError,
};

fn classes(list: &[(u32, u8)]) -> HashMap<u32, u8> {
    list.iter().copied().collect()
}

#[test]
fn ascii_never_decomposes() {
    let mut canon = HashMap::new();
    canon.insert(0x41u32, vec![0x42u32, 0x301]);
    let compat = HashMap::new();
    assert_eq!(decompose(0x41, &canon, &compat, false), Ok(None));
    assert_eq!(decompose(0x7f, &canon, &compat, true), Ok(None));
}

#[test]
fn canonical_rules_are_followed_in_both_modes() {
    let mut canon = HashMap::new();
    let mut compat = HashMap::new();
    canon.insert(0x1EA1u32, vec![0x61u32, 0x323]);
    canon.insert(0x1EAD, vec![0x1EA1, 0x302]);
    compat.insert(0x1C4u32, vec![0x44u32, 0x17D]);
    canon.insert(0x17D, vec![0x5A, 0x30C]);
    assert_eq!(decompose(0x1EAD, &canon, &compat, false), Ok(Some(vec![0x61, 0x323, 0x302])));
    assert_eq!(decompose(0x1EAD, &canon, &compat, true), Ok(Some(vec![0x61, 0x323, 0x302])));
    assert_eq!(decompose(0x1C4, &canon, &compat, false), Ok(None));
    assert_eq!(decompose(0x1C4, &canon, &compat, true), Ok(Some(vec![0x44, 0x5A, 0x30C])));
    assert_eq!(decompose(0x300, &canon, &compat, true), Ok(None));
}

#[test]
fn a_rule_that_gives_the_code_point_itself_is_not_recorded() {
    let mut canon = HashMap::new();
    canon.insert(0x100u32, vec![0x101u32]);
    let compat = HashMap::new();
    assert_eq!(decompose(0x100, &canon, &compat, false), Ok(Some(vec![0x101])));
    let mut res = vec![9u32];
    assert!(decompose_into(0x100, &canon, &compat, false, 1, &mut res));
    assert_eq!(res, vec![9, 0x101]);
    let mut res = vec![9u32];
    assert!(!decompose_into(0x100, &canon, &compat, false, 0, &mut res));
}

#[test]
fn cyclic_rules_are_an_error() {
    let mut canon = HashMap::new();
    canon.insert(0x100u32, vec![0x101u32]);
    canon.insert(0x101u32, vec![0x100u32]);
    let compat = HashMap::new();
    assert_eq!(decompose(0x100, &canon, &compat, false), Err(DecompError::TooDeep));
    assert_eq!(compute_fully_decomposed(&canon, &compat, 0x200), Err(DecompError::TooDeep));
    assert!(compute_fully_decomposed(&canon, &compat, 0xFF).is_ok());
    assert_eq!(MAX_DEPTH, 64);
}

#[test]
fn lists_are_ascending_and_the_compatibility_list_is_pruned() {
    let mut canon = HashMap::new();
    let mut compat = HashMap::new();
    canon.insert(0xE9u32, vec![0x65u32, 0x301]);
    canon.insert(0xC5, vec![0x41, 0x30A]);
    compat.insert(0xB4u32, vec![0x20u32, 0x301]);
    canon.insert(0x212B, vec![0xC5]);
    canon.insert(0x17D, vec![0x5A, 0x30C]);
    compat.insert(0x1C4, vec![0x44, 0x17D]);
    canon.insert(0x1E9B, vec![0x17F, 0x307]);
    compat.insert(0x17F, vec![0x73]);
    let (c, k) = compute_fully_decomposed(&canon, &compat, 0x3000).unwrap();
    assert_eq!(
        c,
        vec![
            (0xC5, vec![0x41, 0x30A]),
            (0xE9, vec![0x65, 0x301]),
            (0x17D, vec![0x5A, 0x30C]),
            (0x1E9B, vec![0x17F, 0x307]),
            (0x212B, vec![0x41, 0x30A]),
        ]
    );
    assert_eq!(
        k,
        vec![
            (0xB4, vec![0x20, 0x301]),
            (0x17F, vec![0x73]),
            (0x1C4, vec![0x44, 0x5A, 0x30C]),
            (0x1E9B, vec![0x73, 0x307]),
        ]
    );
    let (c, k) = compute_fully_decomposed(&canon, &compat, 0xE8).unwrap();
    assert_eq!(c, vec![(0xC5, vec![0x41, 0x30A])]);
    assert_eq!(k, vec![(0xB4, vec![0x20, 0x301])]);
}

#[test]
fn hangul_syllables_are_skipped() {
    let mut canon = HashMap::new();
    canon.insert(0xAC00u32, vec![0x1100u32, 0x1161]);
    canon.insert(0xD7A3u32, vec![0x1112u32, 0x1175, 0x11C2]);
    canon.insert(0xABFFu32, vec![0x41u32, 0x301]);
    canon.insert(0xD7A4u32, vec![0x42u32, 0x301]);
    let compat = HashMap::new();
    let (c, k) = compute_fully_decomposed(&canon, &compat, 0xE000).unwrap();
    assert_eq!(c, vec![(0xABFF, vec![0x41, 0x301]), (0xD7A4, vec![0x42, 0x301])]);
    assert!(k.is_empty());
}

#[test]
fn nothing_to_decompose_gives_empty_lists() {
    let canon = HashMap::new();
    let compat = HashMap::new();
    let (c, k) = compute_fully_decomposed(&canon, &compat, 0).unwrap();
    assert!(c.is_empty() && k.is_empty());
    let (c, k) = compute_fully_decomposed(&canon, &compat, u32::MAX >> 12).unwrap();
    assert!(c.is_empty() && k.is_empty());
    assert!(same_codepoints(&vec![1, 2], &vec![1, 2]));
    assert!(!same_codepoints(&vec![1, 2], &vec![1, 3]));
    assert!(!same_codepoints(&vec![1, 2], &vec![1]));
}

#[test]
fn reordering_sorts_each_run_within_its_bounds() {
    let cc = classes(&[(0x301, 230), (0x323, 220), (0x327, 202), (0x308, 230), (0x31B, 216)]);
    // run 1: a 301 323 327 | run 2: b 308 31B 301 | run 3: c (open, left as it came)
    let input = vec![0x61, 0x301, 0x323, 0x327, 0x62, 0x308, 0x31B, 0x301, 0x63, 0x301, 0x323];
    let out = sort_codepoints(&input, &cc).unwrap();
    let expect: Vec<char> = vec![
        'a', '\u{327}', '\u{323}', '\u{301}', 'b', '\u{31b}', '\u{308}', '\u{301}', 'c',
        '\u{301}', '\u{323}',
    ];
    assert_eq!(out, expect);
}

#[test]
fn reordering_is_stable_and_keeps_starters() {
    let cc = classes(&[(0x301, 230), (0x308, 230), (0x300, 230), (0x323, 220)]);
    let out = sort_codepoints(&vec![0x308, 0x301, 0x323, 0x300, 0x41, 0x42, 0x43], &cc).unwrap();
    assert_eq!(out, vec!['\u{323}', '\u{308}', '\u{301}', '\u{300}', 'A', 'B', 'C']);
    assert_eq!(sort_codepoints(&vec![], &cc), Some(vec![]));
    assert_eq!(sort_codepoints(&vec![0x41], &cc), Some(vec!['A']));
}

#[test]
fn code_points_that_are_no_scalar_values_are_refused() {
    let cc = HashMap::new();
    assert_eq!(sort_codepoints(&vec![0x41, 0xD800], &cc), None);
    assert_eq!(sort_codepoints(&vec![0x110000], &cc), None);
    assert_eq!(sort_codepoints(&vec![0xD7FF, 0xE000, 0x10FFFF], &cc).map(|v| v.len()), Some(3));
    let mut dst = HashMap::new();
    let src = vec![(0xE9u32, vec![0x65u32, 0x301]), (0xEA, vec![0xDFFF, 0x302]), (0xEB, vec![0x65, 0x308])];
    assert_eq!(add_mapping(&src, &cc, &mut dst), Err(MappingError::InvalidCodepoint));
    assert_eq!(dst.len(), 1);
    assert_eq!(dst.get(&0xE9).map(|s| s.as_str()), Some("e"));
    let mut dst = HashMap::new();
    assert_eq!(
        add_mapping(&vec![(0xD800u32, vec![0x65u32])], &cc, &mut dst),
        Err(MappingError::InvalidCodepoint)
    );
    // a mark as key is passed over before its decomposition is looked at
    assert_eq!(add_mapping(&vec![(0x344u32, vec![0xD800u32])], &cc, &mut dst), Ok(()));
    assert!(dst.is_empty());
}

#[test]
fn filtering_removes_the_marks_and_tells_whether_there_were_any() {
    assert_eq!(filter_diacritics(&vec!['e', '\u{301}']), Some(vec!['e']));
    assert_eq!(filter_diacritics(&vec!['\u{300}', 'a', '\u{36f}', 'b']), Some(vec!['a', 'b']));
    assert_eq!(filter_diacritics(&vec!['\u{301}']), Some(vec![]));
    assert_eq!(filter_diacritics(&vec!['e', '\u{2ff}', '\u{370}']), None);
    assert_eq!(filter_diacritics(&vec![]), None);
}

#[test]
fn characters_are_joined_as_utf8() {
    assert_eq!(codepoints_to_utf8(&vec!['a', 'é', '한', '\u{10ffff}']), "aé한\u{10ffff}");
    assert_eq!(codepoints_to_utf8(&vec!['a', 'é', '한', '\u{10ffff}']).len(), 10);
    assert_eq!(codepoints_to_utf8(&vec![]), "");
}

#[test]
fn later_entries_overwrite_earlier_ones() {
    let cc = classes(&[(0x301, 230), (0x307, 230)]);
    let canon = vec![(0x1E9Bu32, vec![0x17Fu32, 0x307]), (0x301, vec![0x41, 0x300]), (0x100, vec![0x41])];
    let compat = vec![(0x1E9Bu32, vec![0x73u32, 0x307])];
    let mut dst = HashMap::new();
    assert_eq!(add_mapping(&canon, &cc, &mut dst), Ok(()));
    assert_eq!(dst.get(&0x1E9B).map(|s| s.as_str()), Some("\u{17f}"));
    assert_eq!(dst.len(), 1);
    assert_eq!(add_mapping(&compat, &cc, &mut dst), Ok(()));
    assert_eq!(dst.get(&0x1E9B).map(|s| s.as_str()), Some("s"));
    assert_eq!(dst.len(), 1);
    dst.insert(0x41, "x".to_string());
    dst.insert(0x5000, "y".to_string());
    dst.insert(0xD800, "z".to_string());
    let pairs = mapping_pairs(&dst, 0x4FFF);
    assert_eq!(pairs, vec![('A', "x".to_string()), ('\u{1e9b}', "s".to_string())]);
    assert!(is_ascending(&pairs));
    let pairs = mapping_pairs(&dst, 0xFFFF);
    assert_eq!(pairs.len(), 3);
    assert_eq!(pairs[2], ('\u{5000}', "y".to_string()));
}

#[test]
fn slots_follow_the_displacement_formula() {
    let disps = vec![(0u32, 0u32), (1, 2), (3, 4)];
    // bucket 7 % 3 = 1; 2 + 10 * 1 + 5 = 17; 17 % 5 = 2
    assert_eq!(slot_index((7, 10, 5), &disps, 5), 2);
    // bucket 2; 4 + 0xffffffff * 3 + 1 wraps to 2; 2 % 7 = 2
    assert_eq!(slot_index((2, 0xffff_ffff, 1), &disps, 7), 2);
    assert_eq!(slot_index((0, 9, 9), &disps, 4), 1);
    assert!(is_ascending(&vec![]));
    assert!(!is_ascending(&vec![('a', String::new()), ('a', String::new())]));
}

#[test]
fn a_layout_is_put_together_slot_by_slot() {
    let pairs = vec![('a', "1".to_string()), ('b', "2".to_string()), ('c', "3".to_string())];
    let built = CharMap::build(&pairs).unwrap();
    let order: Vec<usize> = built
        .entries
        .iter()
        .map(|(k, _)| pairs.iter().position(|(p, _)| p == k).unwrap())
        .collect();
    let again = CharMap::assemble(&pairs, built.key, built.disps.clone(), &order);
    assert_eq!(again.entries, built.entries);
    assert_eq!(again.range, ('a', 'c'));
    assert_eq!(again.get('b').map(|s| s.as_str()), Some("2"));
    let mut sorted = order.clone();
    sorted.sort();
    assert_eq!(sorted, vec![0, 1, 2]);
}

#[test]
fn walks_go_over_the_entries_from_both_ends() {
    let pairs = vec![('a', "1".to_string()), ('b', "2".to_string()), ('c', "3".to_string())];
    let t = CharMap::build(&pairs).unwrap();
    let mut e = t.entries();
    assert_eq!(e.len(), 3);
    let first = e.next().unwrap();
    assert_eq!((first.0, first.1), (t.entries[0].0, &t.entries[0].1));
    let last = e.next_back().unwrap();
    assert_eq!((last.0, last.1), (t.entries[2].0, &t.entries[2].1));
    let mut copy = e.clone();
    assert_eq!(e.next().map(|x| x.0), Some(t.entries[1].0));
    assert!(e.next().is_none() && e.next_back().is_none());
    assert_eq!(copy.len(), 1);
    assert_eq!(copy.next_back().map(|x| x.0), Some(t.entries[1].0));
    let mut k = t.keys();
    let mut seen = Vec::new();
    while let Some(c) = k.next() {
        seen.push(c);
    }
    seen.sort();
    assert_eq!(seen, vec!['a', 'b', 'c']);
    assert_eq!(t.keys().next_back(), Some(t.entries[2].0));
    let mut v = t.values();
    assert_eq!(v.len(), 3);
    assert_eq!(v.next(), Some(&t.entries[0].1));
    assert_eq!(v.next_back(), Some(&t.entries[2].1));
    assert_eq!(v.clone().len(), 1);
    assert_eq!(t.keys().clone().len(), 3);
}

#[test]
fn categories_are_read_from_their_tags() {
    let tags: [(&str, Category); 30] = [
        ("Lu", Category::UpperCaseLetter),
        ("Ll", Category::LowerCaseLetter),
        ("Lt", Category::TitleCaseLetter),
        ("Lm", Category::ModifierLetter),
        ("Lo", Category::OtherLetter),
        ("Mn", Category::NonspacingMark),
        ("Mc", Category::SpacingMark),
        ("Me", Category::EnclosingMark),
        ("Nd", Category::DecimalNumber),
        ("Nl", Category::LetterNumber),
        ("No", Category::OtherNumber),
        ("Pc", Category::ConnectorPunctuation),
        ("Pd", Category::DashPunctuation),
        ("Ps", Category::OpenPunctuation),
        ("Pe", Category::ClosePunctuation),
        ("Pi", Category::InitialPunctuation),
        ("Pf", Category::FinalPunctuation),
        ("Po", Category::OtherPunctuation),
        ("Sm", Category::MathSymbol),
        ("Sc", Category::CurrencySymbol),
        ("Sk", Category::ModifierSymbol),
        ("So", Category::OtherSymbol),
        ("Zs", Category::SpaceSeparator),
        ("Zl", Category::LineSeparator),
        ("Zp", Category::ParagraphSeparator),
        ("Cc", Category::Control),
        ("Cf", Category::Format),
        ("Cs", Category::Surrogate),
        ("Co", Category::PrivateUse),
        ("Cn", Category::Unassigned),
    ];
    for (tag, cat) in tags {
        assert_eq!(Category::from_str(tag.as_bytes()), Ok(cat));
        let first = tag.as_bytes()[0];
        assert_eq!(cat.is_letter(), first == b'L');
        assert_eq!(cat.is_mark(), first == b'M');
        assert_eq!(cat.is_number(), first == b'N');
        assert_eq!(cat.is_punctuation(), first == b'P');
        assert_eq!(cat.is_symbol(), first == b'S');
        assert_eq!(cat.is_separator(), first == b'Z');
        assert_eq!(cat.is_other(), first == b'C');
        assert_eq!(cat.is_cased_letter(), tag == "Lu" || tag == "Ll" || tag == "Lt");
    }
    for bad in ["", "L", "LC", "lu", "Lu ", "Xx", "M", "Luu"] {
        assert_eq!(Category::from_str(bad.as_bytes()), Err(InvalidCategory));
    }
}

#[test]
fn numbers_are_read_as_the_standard_library_reads_them() {
    for s in ["0", "00E9", "e9", "+1F", "10FFFF", "FFFFFFFF", "100000000", "", "+", "-1", "0x10", "1 ", "g", "++1"] {
        assert_eq!(parse_number(s.as_bytes(), 16, u32::MAX), u32::from_str_radix(s, 16).ok(), "{s}");
    }
    for s in ["0", "230", "255", "256", "+7", "007", "0000000000000000000255", "2a", "", "+", "99999999999"] {
        assert_eq!(
            parse_number(s.as_bytes(), 10, 255),
            s.parse::<u8>().ok().map(|x| x as u32),
            "{s}"
        );
    }
    assert_eq!(parse_number(b"00E9", 16, u32::MAX), Some(0xE9));
    assert_eq!(parse_number(b"230", 10, 255), Some(230));
}

#[test]
fn fields_and_words_are_cut_apart() {
    let f = split_fields(b"a;;bc;", Some(b';'));
    assert_eq!(f, vec![b"a".to_vec(), b"".to_vec(), b"bc".to_vec(), b"".to_vec()]);
    assert_eq!(split_fields(b"", Some(b';')), vec![Vec::<u8>::new()]);
    assert_eq!(split_fields(b"a b", Some(b';')), vec![b"a b".to_vec()]);
    assert_eq!(split_words(b"  0041  0301\t0302 "), vec![b"0041".to_vec(), b"0301".to_vec(), b"0302".to_vec()]);
    assert!(split_words(b" \t ").is_empty());
    assert_eq!(parse_hex_list(&vec![b"0041".to_vec(), b"0301".to_vec()]), Some(vec![0x41, 0x301]));
    assert_eq!(parse_hex_list(&vec![b"0041".to_vec(), b"03x1".to_vec()]), None);
    assert_eq!(parse_hex_list(&vec![]), Some(vec![]));
}

#[test]
fn decomposition_fields_are_read_in_their_three_forms() {
    assert_eq!(parse_decomposition(b""), Some((false, None)));
    assert_eq!(parse_decomposition(b"0065 0301"), Some((false, Some(vec![0x65, 0x301]))));
    assert_eq!(parse_decomposition(b"<compat> 0020 0301"), Some((true, Some(vec![0x20, 0x301]))));
    assert_eq!(parse_decomposition(b"<noBreak> 0020"), Some((true, Some(vec![0x20]))));
    assert_eq!(parse_decomposition(b"<"), Some((true, Some(vec![]))));
    assert_eq!(parse_decomposition(b"<super>"), Some((true, Some(vec![]))));
    assert_eq!(parse_decomposition(b" "), Some((false, Some(vec![]))));
    assert_eq!(parse_decomposition(b"0065 030G"), None);
    assert_eq!(parse_decomposition(b"<compat> 0020 zz"), None);
}

#[test]
fn records_are_read_and_refused() {
    let r = parse_record(b"00E9;LATIN SMALL LETTER E WITH ACUTE;Ll;0;L;0065 0301;;;;N;LATIN SMALL LETTER E ACUTE;;00C9;;00C9").unwrap();
    assert_eq!(r.codepoint, 0xE9);
    assert_eq!(r.category, Category::LowerCaseLetter);
    assert_eq!(r.combining_class, 0);
    assert!(!r.compatibility);
    assert_eq!(r.decomposition, Some(vec![0x65, 0x301]));
    let r = parse_record(b"00B4;ACUTE ACCENT;Sk;0;ON;<compat> 0020 0301;;;;N;SPACING ACUTE;;;;").unwrap();
    assert!(r.compatibility);
    assert_eq!(r.decomposition, Some(vec![0x20, 0x301]));
    let r = parse_record(b"0301;COMBINING ACUTE ACCENT;Mn;230;NSM;;;;;N;NON-SPACING ACUTE;;;;").unwrap();
    assert_eq!(r.combining_class, 230);
    assert_eq!(r.decomposition, None);
    assert!(r.category.is_mark());
    let err = |line: &[u8]| parse_record(line).err();
    assert_eq!(err(b"0301;X;Mn;230;NSM;;;;;N;;;;"), Some(ParseError::InvalidLine));
    assert_eq!(err(b"0301;X;Mn;230;NSM;;;;;N;;;;;;"), Some(ParseError::InvalidLine));
    assert_eq!(err(b""), Some(ParseError::InvalidLine));
    assert_eq!(err(b"03G1;X;Mn;230;NSM;;;;;N;;;;;"), Some(ParseError::InvalidCodepoint));
    assert_eq!(err(b"0301;X;Mn;256;NSM;;;;;N;;;;;"), Some(ParseError::InvalidCombiningClass));
    assert_eq!(err(b"0301;X;Mn;;NSM;;;;;N;;;;;"), Some(ParseError::InvalidCombiningClass));
    assert_eq!(err(b"0301;X;Mn;230;NSM;00ZZ;;;;N;;;;;"), Some(ParseError::InvalidDecomposition));
    assert_eq!(err(b"0301;X;Mx;230;NSM;;;;;N;;;;;"), Some(ParseError::InvalidCategory));
    assert_eq!(err(b"0301;X;Cn;0;NSM;;;;;N;;;;;"), Some(ParseError::Unassigned));
    // the first fault in the order of reading is reported
    assert_eq!(err(b"03G1;X;Mx;999;NSM;zz;;;;N;;;;;"), Some(ParseError::InvalidCodepoint));
    assert_eq!(err(b"0301;X;Mx;999;NSM;zz;;;;N;;;;;"), Some(ParseError::InvalidCombiningClass));
    assert_eq!(err(b"0301;X;Mx;9;NSM;zz;;;;N;;;;;"), Some(ParseError::InvalidDecomposition));
}

#[test]
fn the_database_is_loaded_line_by_line() {
    let text = b"00B4;ACUTE ACCENT;Sk;0;ON;<compat> 0020 0301;;;;N;SPACING ACUTE;;;;\r\n\
00E9;LATIN SMALL LETTER E WITH ACUTE;Ll;0;L;0065 0301;;;;N;;;00C9;;00C9\n\
0301;COMBINING ACUTE ACCENT;Mn;230;NSM;;;;;N;NON-SPACING ACUTE;;;;\n";
    let d = load_unicode_data(text).unwrap();
    assert_eq!(d.last, 0x301);
    assert_eq!(d.combining_classes.len(), 1);
    assert_eq!(d.combining_classes.get(&0x301), Some(&230));
    assert_eq!(d.canon_decomp.len(), 1);
    assert_eq!(d.canon_decomp.get(&0xE9), Some(&vec![0x65, 0x301]));
    assert_eq!(d.compat_decomp.len(), 1);
    assert_eq!(d.compat_decomp.get(&0xB4), Some(&vec![0x20, 0x301]));
    let empty = load_unicode_data(b"").unwrap();
    assert!(empty.canon_decomp.is_empty() && empty.compat_decomp.is_empty());
    assert_eq!(empty.last, 0);
    assert_eq!(load_unicode_data(b"\n").err(), Some(ParseError::InvalidLine));
    assert_eq!(
        load_unicode_data(b"0301;X;Mn;230;NSM;;;;;N;;;;;\n0302;X;Mq;230;NSM;;;;;N;;;;;\nbad").err(),
        Some(ParseError::InvalidCategory)
    );
}

#[test]
fn from_the_database_text_to_stripped_text() {
    let text = "00A8;DIAERESIS;Sk;0;ON;<compat> 0020 0308;;;;N;SPACING DIAERESIS;;;;\n\
00C5;LATIN CAPITAL LETTER A WITH RING ABOVE;Lu;0;L;0041 030A;;;;N;;;;00E5;\n\
00E9;LATIN SMALL LETTER E WITH ACUTE;Ll;0;L;0065 0301;;;;N;;;00C9;;00C9\n\
0301;COMBINING ACUTE ACCENT;Mn;230;NSM;;;;;N;NON-SPACING ACUTE;;;;\n\
0308;COMBINING DIAERESIS;Mn;230;NSM;;;;;N;NON-SPACING DIAERESIS;;;;\n\
030A;COMBINING RING ABOVE;Mn;230;NSM;;;;;N;NON-SPACING RING ABOVE;;;;\n\
0344;COMBINING GREEK DIALYTIKA TONOS;Mn;230;NSM;0308 0301;;;;N;GREEK NON-SPACING DIAERESIS TONOS;;;;\n\
212B;ANGSTROM SIGN;Lu;0;L;00C5;;;;N;ANGSTROM UNIT;;;00E5;\n";
    let d = load_unicode_data(text.as_bytes()).unwrap();
    let (c, k) = compute_fully_decomposed(&d.canon_decomp, &d.compat_decomp, d.last).unwrap();
    let mut m = HashMap::new();
    add_mapping(&c, &d.combining_classes, &mut m).unwrap();
    add_mapping(&k, &d.combining_classes, &mut m).unwrap();
    let pairs = mapping_pairs(&m, d.last);
    let strs: Vec<(char, &str)> = pairs.iter().map(|(k, v)| (*k, v.as_str())).collect();
    assert_eq!(strs, vec![('\u{a8}', " "), ('Å', "A"), ('é', "e"), ('\u{212b}', "A")]);
    let t = CharMap::build(&pairs).unwrap();
    assert_eq!("\u{212b}ngstr\u{f6}m caf\u{e9}\u{344}".strip_diacritics(&t).as_str(), "Angstr\u{f6}m cafe");
}

#[test]
fn line_endings_are_read_as_the_standard_library_reads_them() {
    let rec = "0301;X;Mn;230;NSM;;;;;N;;;;;";
    for text in [
        format!("{rec}\r\n{rec}\n"),
        format!("{rec}\n{rec}"),
        format!("{rec}\r\n{rec}\r"),
        format!("{rec}\r\r\n"),
        format!("{rec}\n\n"),
        format!("\r\n{rec}"),
        format!("{rec}"),
        String::new(),
    ] {
        let all_lines_read = text.lines().all(|l| parse_record(l.as_bytes()).is_ok());
        assert_eq!(load_unicode_data(text.as_bytes()).is_ok(), all_lines_read, "{text:?}");
    }
    let d = load_unicode_data(format!("{rec}\r\n{rec}\r").as_bytes()).unwrap();
    assert_eq!(d.combining_classes.len(), 1);
}
