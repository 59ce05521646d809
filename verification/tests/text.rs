use sensor_pipeline::id_map::IdMap;
use sensor_pipeline::lex::{compare_bytes, compare_ids, Comparison};
use sensor_pipeline::text::{chars_of, decimal_text, parse_number, tokens_of, NumberError};

fn words(s: &str) -> Vec<String> {
    tokens_of(&chars_of(s)).iter().map(|t| t.iter().collect()).collect()
}

#[test]
fn tokens_are_split_at_white_space() {
    for s in ["", "  ", "a", " a  bc\t\n", "\u{2003}x\u{85}y\u{200b}z\r"] {
        let expected: Vec<String> = s.split_whitespace().map(|t| t.to_string()).collect();
        assert_eq!(words(s), expected);
    }
}

#[test]
fn numbers_are_read_like_the_standard_library_reads_them() {
    for s in [
        "", "+", "-", "0", "007", "+5", "-5", "++5", "5 ", "12a", "18446744073709551615",
        "18446744073709551616", "99999999999999999999a", "1_000", "\u{663}",
    ] {
        let expected = s.parse::<u64>().map_err(|e| e.to_string());
        let got = parse_number(&chars_of(s), u64::MAX).map_err(|e| e.message());
        assert_eq!(got, expected);
    }
    assert_eq!(parse_number(&chars_of("256"), 255), Err(NumberError::TooLarge));
}

#[test]
fn decimal_texts_read_back() {
    for n in [0, 7, 10, 99, 100, 1_700_000_000_000, u64::MAX] {
        assert_eq!(decimal_text(n), n.to_string());
        assert_eq!(parse_number(&chars_of(&decimal_text(n)), u64::MAX), Ok(n));
    }
}

#[test]
fn identifiers_compare_like_strings() {
    let ids = ["", "a", "ab", "b", "accel-1", "accel-10", "accel-2", "\u{e9}", "\u{1f600}", "\u{ffff}"];
    for a in ids {
        for b in ids {
            let expected = if a < b {
                Comparison::Before
            } else if a == b {
                Comparison::Same
            } else {
                Comparison::After
            };
            assert_eq!(compare_ids(a, b), expected);
            assert_eq!(compare_bytes(&a.as_bytes().to_vec(), &b.as_bytes().to_vec()), expected);
        }
    }
}

#[test]
fn id_map_keeps_identifiers_in_order() {
    let mut m = IdMap::new();
    for (k, v) in [("c", 1), ("a", 2), ("b", 3), ("a", 4)] {
        m.insert(k.to_string(), v);
    }
    let entries: Vec<(String, i32)> =
        (0..m.len()).map(|i| (m.id_at(i).clone(), *m.value_at(i))).collect();
    assert_eq!(
        entries,
        vec![("a".to_string(), 4), ("b".to_string(), 3), ("c".to_string(), 1)]
    );
    assert!(m.contains_key("b"));
    assert_eq!(m.get("d"), None);
    assert_eq!(m.clone().get("c"), Some(&1));
}

#[test]
fn id_map_lists_grow_at_the_end() {
    let mut m: IdMap<Vec<u8>> = IdMap::new();
    m.push_item("x".to_string(), 1);
    m.push_item("w".to_string(), 2);
    m.push_item("x".to_string(), 3);
    assert_eq!(m.get("x"), Some(&vec![1, 3]));
    assert_eq!(m.get("w"), Some(&vec![2]));
    assert_eq!(m.len(), 2);
}
