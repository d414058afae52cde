use wlight::keyed::KeyedMap;
use wlight::order::sort;
use wlight::text::{
    decimal_text, front_bytes, hex_word_text, join, parse_decimal, same_text, strip_prefix, trim,
};

fn owned(texts: &[&str]) -> Vec<String> {
    texts.iter().map(|text| (*text).to_owned()).collect()
}

#[test]
fn trimming_follows_the_unicode_property() {
    for text in ["  a b\n", "\u{a0}x\u{2003}", "\u{85}\u{3000}", "", "a", "\u{200b}a"] {
        assert_eq!(trim(text), text.trim());
    }
}

#[test]
fn decimal_numbers_are_written_and_read() {
    for n in [0_u64, 7, 10, 99, 100, 12_345, u64::MAX] {
        assert_eq!(decimal_text(n), n.to_string());
        assert_eq!(parse_decimal(&n.to_string(), u64::MAX), Some(n));
    }
    for text in ["", "+", "-1", "+7", "007", "1 ", "\u{661}", "18446744073709551616"] {
        assert_eq!(parse_decimal(text, u64::MAX), text.parse::<u64>().ok());
    }
    assert_eq!(parse_decimal("256", 255), None);
}

#[test]
fn hexadecimal_words_have_four_digits() {
    for n in [0_u16, 9, 0xab, 0x0f0f, 0xffff] {
        assert_eq!(hex_word_text(n), format!("{n:04x}"));
    }
}

#[test]
fn fronts_end_between_characters() {
    for text in ["edid-0123456789abcdef", "short", "exactly13byte", "aaaaaaaaaaaa\u{e9}b"] {
        assert_eq!(front_bytes(text, 13).as_deref(), text.get(..13));
    }
}

#[test]
fn texts_are_joined_and_compared() {
    assert_eq!(join(&owned(&["a", "b", "c"]), "; "), "a; b; c");
    assert_eq!(join(&owned(&["a"]), "; "), "a");
    assert_eq!(join(&Vec::new(), "; "), "");
    assert!(same_text("DP-1", "DP-1"));
    assert!(!same_text("DP-1", "DP-11"));
    assert_eq!(strip_prefix("card0", "card").as_deref(), Some("0"));
    assert_eq!(strip_prefix("car", "card"), None);
}

#[test]
fn sorting_orders_texts_as_the_standard_library_does() {
    let texts = owned(&["b", "a", "", "ab", "B", "\u{e9}", "\u{10000}", "\u{ffff}", "a"]);
    let mut expected = texts.clone();
    expected.sort();
    assert_eq!(sort(texts), expected);
}

#[test]
fn a_keyed_map_is_walked_in_the_order_of_its_keys() {
    let mut map: KeyedMap<String, u16> = KeyedMap::new();
    map.insert("b".to_owned(), 1);
    map.insert("a".to_owned(), 2);
    map.insert("c".to_owned(), 3);
    map.insert("b".to_owned(), 4);
    assert_eq!(map.len(), 3);
    assert_eq!(map.key_at(0), "a");
    assert_eq!(map.key_at(1), "b");
    assert_eq!(*map.value_at(1), 4);
    assert_eq!(map.get(&"c".to_owned()), Some(&3));
    assert_eq!(map.remove(&"a".to_owned()), Some(2));
    assert_eq!(map.remove(&"a".to_owned()), None);
    assert!(!map.contains(&"a".to_owned()));
    assert_eq!(map.len(), 2);
}
