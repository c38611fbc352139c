//! Text: white space, numbers and hexadecimal notation.

use commandshelf::text::{characters, decimal_text, is_blank, joined, lower_hex_text};

#[test]
fn blank_text_is_all_white_space() {
    let spaces = "\t\n\u{b}\u{c}\r \u{85}\u{a0}\u{1680}\u{2000}\u{200a}\u{2028}\u{2029}\u{202f}\u{205f}\u{3000}";
    assert!(is_blank(spaces));
    assert!(is_blank(""));
    assert!(!is_blank(" x "));
    assert!(!is_blank("\u{200b}"));
    assert!(!is_blank("\u{feff}"));
    assert!(!is_blank("\u{180e}"));
    assert!(!is_blank("\u{1c}"));
}

#[test]
fn white_space_is_the_documented_set() {
    let listed = |u: u32| {
        matches!(
            u,
            0x09..=0x0d | 0x20 | 0x85 | 0xa0 | 0x1680 | 0x2000..=0x200a | 0x2028 | 0x2029
                | 0x202f | 0x205f | 0x3000
        )
    };
    for u in 0..=0x10ffff {
        if let Some(c) = char::from_u32(u) {
            let mut text = String::new();
            text.push(c);
            assert_eq!(is_blank(&text), listed(u));
        }
    }
}

#[test]
fn writes_numbers() {
    assert_eq!(decimal_text(0), "0");
    assert_eq!(decimal_text(9), "9");
    assert_eq!(decimal_text(10), "10");
    assert_eq!(decimal_text(1203), "1203");
    assert_eq!(
        decimal_text(u128::MAX),
        "340282366920938463463374607431768211455"
    );
}

#[test]
fn writes_hexadecimal() {
    assert_eq!(lower_hex_text(&[0x00, 0x9f, 0xa0, 0xff]), "009fa0ff");
    assert_eq!(lower_hex_text(&[]), "");
}

#[test]
fn takes_text_apart_and_joins_it() {
    assert_eq!(characters("a中\u{10348}"), vec!['a', '中', '\u{10348}']);
    assert_eq!(joined("无", "b"), "无b");
}
