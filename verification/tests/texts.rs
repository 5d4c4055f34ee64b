//! Text, rounding, tags and registries.
use syspulse::ranking::order_descending;
use syspulse::registry::Registry;
use syspulse::rounding::{divide_rounded, to_double};
use syspulse::tags::Tags;
use syspulse::text::{
    chars_of, parse_u64, push_left, push_right, space, split_text_lines, split_words, string_of,
    text_precedes, trim, utf8_or,
};

#[test]
fn white_space_agrees_with_the_standard_library() {
    for code in 0..0x11_0000u32 {
        if let Some(c) = char::from_u32(code) {
            assert_eq!(space(c), c.is_whitespace(), "{:x}", code);
        }
    }
}

#[test]
fn numbers_agree_with_the_standard_library() {
    for s in [
        "", "+", "-", "0", "+7", "-7", "007", " 7", "7 ", "18446744073709551615",
        "18446744073709551616", "99999999999999999999999", "+18446744073709551615", "1_0", "٣",
        "++1", "12a",
    ] {
        assert_eq!(parse_u64(&chars_of(s)), s.parse::<u64>().ok(), "{:?}", s);
    }
}

#[test]
fn trimming_agrees_with_the_standard_library() {
    for s in ["", "  ", "\t a b \n", "x", "\u{3000}wide\u{a0}", " \r\n"] {
        assert_eq!(trim(s), s.trim());
    }
}

#[test]
fn splitting_agrees_with_the_standard_library() {
    for s in ["", "\n", "a\nb", "a\nb\n", "\n\n x  y\t z\n", "last", "a\n\nb"] {
        let chars = chars_of(s);
        let lines: Vec<String> = split_text_lines(&chars).iter().map(|l| string_of(l)).collect();
        let expected: Vec<&str> = s.lines().collect();
        assert_eq!(lines, expected, "{:?}", s);
    }
    for s in ["", "a\r\nb\r\n", "\r\n\n x  y\t z\n", "last\r", "\u{2003}a\u{85}b"] {
        let chars = chars_of(s);
        let words: Vec<String> = split_words(&chars).iter().map(|w| string_of(w)).collect();
        let expected: Vec<&str> = s.split_whitespace().collect();
        assert_eq!(words, expected, "{:?}", s);
    }
}

#[test]
fn ordering_agrees_with_the_standard_library() {
    let list = ["", "a", "aa", "ab", "b", "z", "é", "ß", "日本", "\u{10000}", "\u{ffff}"];
    for a in list {
        for b in list {
            assert_eq!(text_precedes(a, b), a < b, "{:?} {:?}", a, b);
        }
    }
}

#[test]
fn invalid_bytes_have_a_fallback() {
    assert_eq!(utf8_or("grün".as_bytes(), "?"), "grün");
    assert_eq!(utf8_or(&[0xff], "?"), "?");
}

#[test]
fn padding_agrees_with_the_standard_library() {
    for s in ["", "abc", "äöü", "a long text indeed"] {
        for width in [0usize, 3, 8] {
            let mut left = String::new();
            push_left(&mut left, s, width);
            assert_eq!(left, format!("{:<width$}", s));
            let mut right = String::new();
            push_right(&mut right, s, width);
            assert_eq!(right, format!("{:>width$}", s));
        }
    }
}

#[test]
fn rounding_agrees_with_floating_point() {
    let mut n = 1u64;
    for i in 0..20_000u64 {
        n = n.wrapping_mul(6364136223846793005).wrapping_add(1442695040888963407);
        let m = n >> (i % 64);
        assert_eq!(to_double(m as u128), m as f64 as u128);
    }
    assert_eq!(to_double(u64::MAX as u128), 1 << 64);
    assert_eq!(divide_rounded(5, 2), 2);
    assert_eq!(divide_rounded(7, 2), 4);
    assert_eq!(divide_rounded(8, 3), 3);
    assert_eq!(divide_rounded(7, 3), 2);
}

#[test]
fn tags_are_listed_by_name() {
    let mut a = Tags::new();
    for (k, v) in [("pid", "1"), ("host", "h"), ("name", "x"), ("host", "g")] {
        a.insert(k.to_string(), v.to_string());
    }
    let mut b = Tags::new();
    for (k, v) in [("name", "x"), ("host", "g"), ("pid", "1")] {
        b.insert(k.to_string(), v.to_string());
    }
    assert_eq!(a.len(), 3);
    for i in 0..3 {
        assert_eq!((a.name(i), a.value(i)), (b.name(i), b.value(i)));
    }
    assert_eq!((a.name(0), a.value(0)), ("host", "g"));
    assert_eq!((a.name(2), a.clone().value(2)), ("pid", "1"));
}

#[test]
fn registries_keep_the_first_place_and_the_last_value() {
    let mut r = Registry::new();
    r.insert("b".to_string(), 1);
    r.insert("a".to_string(), 2);
    r.insert("b".to_string(), 3);
    assert_eq!(r.len(), 2);
    assert_eq!((r.name(0), *r.value(0)), ("b", 3));
    assert_eq!(r.get("a"), Some(&2));
    assert_eq!(r.get("c"), None);
}

#[test]
fn ranking_is_stable() {
    assert_eq!(order_descending(&vec![1, 3, 2, 3, 1]), [1, 3, 2, 0, 4]);
    assert_eq!(order_descending(&vec![]), Vec::<usize>::new());
}
