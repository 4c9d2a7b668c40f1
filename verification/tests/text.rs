//! Text handling against what std does.
use secure_p2p_chat::text::{
    at_most, chars_of, find_last, is_white_space, push_decimal, push_new, read_text, same_bytes,
    same_text, starts_with, trim, trim_end_of, trim_start_of,
};

const SAMPLES: [&str; 9] = [
    "",
    " ",
    "a",
    "\u{85}\u{3000}a b\u{a0}\n",
    "http://https://x//",
    "http://http:/",
    "//",
    "äöü:1",
    "::\u{1d11e}",
];

#[test]
fn white_space_is_unicodes() {
    for u in 0..=0x10ffffu32 {
        if let Some(c) = char::from_u32(u) {
            assert_eq!(is_white_space(c), c.is_whitespace(), "{u:x}");
        }
    }
}

#[test]
fn trimming_is_stds() {
    for s in SAMPLES {
        assert_eq!(trim(s), s.trim());
        assert_eq!(trim_end_of(s, '/'), s.trim_end_matches('/'));
        assert_eq!(trim_start_of(s, "http://"), s.trim_start_matches("http://"));
        assert_eq!(starts_with(s, "http://"), s.starts_with("http://"));
        assert_eq!(chars_of(s), s.chars().collect::<Vec<char>>());
        let place = find_last(s, ':').map(|i| s.chars().take(i).map(char::len_utf8).sum());
        assert_eq!(place, s.rfind(':'));
    }
}

#[test]
fn order_is_that_of_bytes() {
    for a in SAMPLES {
        for b in SAMPLES {
            assert_eq!(at_most(a.as_bytes(), b.as_bytes()), a <= b);
            assert_eq!(same_text(a, b), a == b);
            assert_eq!(same_bytes(a.as_bytes(), b.as_bytes()), a == b);
        }
    }
}

#[test]
fn decimals() {
    for n in [0, 7, 10, 99, 100, 65_535, u32::MAX] {
        let mut s = String::from("n=");
        push_decimal(&mut s, n);
        assert_eq!(s, format!("n={n}"));
    }
}

#[test]
fn bytes_are_read_as_utf8() {
    assert_eq!(read_text("é\u{1d11e}".as_bytes().to_vec()), Some("é\u{1d11e}".to_string()));
    assert_eq!(read_text(Vec::new()), Some(String::new()));
    assert_eq!(read_text(vec![0xff]), None);
    assert_eq!(read_text(vec![0xed, 0xa0, 0x80]), None);
}

#[test]
fn lists_hold_a_text_once() {
    let mut list = vec!["a".to_string()];
    push_new(&mut list, "b".to_string());
    push_new(&mut list, "a".to_string());
    assert_eq!(list, ["a", "b"]);
}
