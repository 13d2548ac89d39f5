use pijul_core::base32::{char_digit, parse_digits32, push_digits32};
use pijul_core::text::{
    char_is_space, join2, join3, parse_u64, push_decimal, same_text, split_whitespace,
};
use pijul_core::textmap::{text_rank, Rank, TextMap};

#[test]
fn white_space_is_what_std_calls_white_space() {
    for code in 0..=0x10ffffu32 {
        if let Some(c) = char::from_u32(code) {
            assert_eq!(char_is_space(c), c.is_whitespace(), "U+{:04X}", code);
        }
    }
}

#[test]
fn words_are_split_as_std_splits_them() {
    for text in [
        "",
        " ",
        "a",
        " a ",
        "pijul clone myrepo",
        "\tpijul \n clone\r\nmyrepo\u{a0}x\u{3000}",
        "été  ünï\u{2003}codé",
        "a\u{200b}b",
    ] {
        let expected: Vec<String> = text.split_whitespace().map(|s| s.to_string()).collect();
        assert_eq!(split_whitespace(text), expected, "{:?}", text);
    }
}

#[test]
fn numbers_are_read_as_std_reads_them() {
    for text in [
        "0", "7", "42", "007", "+5", "+", "", "-3", "1e3", "12a", " 1", "1 ",
        "18446744073709551615", "18446744073709551616", "99999999999999999999", "++1", "٣",
    ] {
        let expected: Option<u64> = text.parse().ok();
        assert_eq!(parse_u64(text), expected, "{:?}", text);
    }
}

#[test]
fn numbers_are_written_in_decimal() {
    for n in [0u64, 1, 9, 10, 11, 99, 100, 12345, u64::MAX] {
        let mut s = String::from("n=");
        push_decimal(&mut s, n);
        assert_eq!(s, format!("n={}", n));
    }
}

#[test]
fn texts_are_compared_and_joined() {
    assert!(same_text("abc", "abc"));
    assert!(!same_text("abc", "abd"));
    assert!(!same_text("abc", "ab"));
    assert_eq!(join2("ab", "cd"), "abcd");
    assert_eq!(join3("a", "", "c"), "ac");
}

#[test]
fn text_order_is_the_order_of_str() {
    let samples = ["", "a", "ab", "abc", "b", "B", "é", "e", "zz", "a/b", "a b", "\u{10000}", "\u{ffff}"];
    for a in samples {
        for b in samples {
            let expected = match a.cmp(b) {
                std::cmp::Ordering::Less => Rank::Before,
                std::cmp::Ordering::Equal => Rank::Same,
                std::cmp::Ordering::Greater => Rank::After,
            };
            assert_eq!(text_rank(a, b), expected, "{:?} {:?}", a, b);
        }
    }
}

#[test]
fn text_map_keeps_keys_in_order() {
    let mut m: TextMap<u32> = TextMap::new();
    assert!(m.is_empty());
    m.insert("pear".to_string(), 1);
    m.insert("apple".to_string(), 2);
    m.insert("quince".to_string(), 3);
    m.insert("apple".to_string(), 4);
    assert_eq!(m.len(), 3);
    let keys: Vec<&str> = m.entries.iter().map(|e| e.0.as_str()).collect();
    assert_eq!(keys, vec!["apple", "pear", "quince"]);
    assert_eq!(m.get("apple"), Some(&4));
    assert_eq!(m.get("pear"), Some(&1));
    assert_eq!(m.get("plum"), None);
    assert!(m.contains_key("quince"));
    assert!(!m.contains_key(""));
    assert_eq!(m.position("pear"), Ok(1));
    assert_eq!(m.position("banana"), Err(1));
    assert_eq!(m.position("zebra"), Err(3));
}

#[test]
fn base32_digits() {
    let alphabet: Vec<char> = "ABCDEFGHIJKLMNOPQRSTUVWXYZ234567".chars().collect();
    for (d, c) in alphabet.iter().enumerate() {
        assert_eq!(char_digit(*c), Some(d as u8));
    }
    for c in ['a', '0', '1', '8', '9', '=', ' ', 'é', '@', '['] {
        assert_eq!(char_digit(c), None);
    }
    let mut s = String::new();
    push_digits32(&mut s, 0, 3);
    assert_eq!(s, "AAA");
    let mut s = String::new();
    push_digits32(&mut s, 31 + 32 * 26 + 32 * 32, 4);
    assert_eq!(s, "AB27");
    // more digits than asked for are cut off at the front
    let mut s = String::new();
    push_digits32(&mut s, 32 * 32 + 5, 2);
    assert_eq!(s, "AF");
    assert_eq!(parse_digits32("AB27"), Some(31 + 32 * 26 + 32 * 32));
    assert_eq!(parse_digits32(""), Some(0));
    assert_eq!(parse_digits32("AB1"), None);
    assert_eq!(parse_digits32("7777777777777777777777777"), Some((1u128 << 125) - 1));
}
