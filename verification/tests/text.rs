use ai_gateway::bytes::{append_all, copy_range, find_bytes, lowered};
use ai_gateway::encoding::lower_ascii;
use ai_gateway::number::{parse_size, push_decimal};
use ai_gateway::text::{
    char_is_space, chars_of, find_chars, has_text, lines_of, remove_char, same_text, split_chars,
    string_of, text_begins, text_ends, trim_chars, words_of,
};

fn joined(parts: Vec<Vec<char>>) -> Vec<String> {
    parts.iter().map(|p| string_of(p)).collect()
}

#[test]
fn lines_match_the_standard_library() {
    for s in ["", "a", "a\n", "a\r\nb", "a\rb\n", "a\r", "\n\n", "\r\n\r\nx", "é\r\nü\n"] {
        let expected: Vec<String> = s.lines().map(|l| l.to_string()).collect();
        assert_eq!(joined(lines_of(&chars_of(s))), expected, "{:?}", s);
    }
}

#[test]
fn words_match_the_standard_library() {
    for s in ["", " ", "a", " a  b\tc ", "GET /x HTTP/1.1", "a\u{3000}b\u{a0}c", "\u{85}x"] {
        let expected: Vec<String> = s.split_whitespace().map(|l| l.to_string()).collect();
        assert_eq!(joined(words_of(&chars_of(s))), expected, "{:?}", s);
    }
}

#[test]
fn trim_matches_the_standard_library() {
    for s in ["", " ", "a", "  a b  ", "\u{2003}x\u{2029}", "\r\nx\t"] {
        assert_eq!(string_of(&trim_chars(&chars_of(s))), s.trim().to_string());
    }
}

#[test]
fn split_matches_the_standard_library() {
    for s in ["", "a", "a=b", "=", "a=b=c", "==x"] {
        let expected: Vec<String> = s.split('=').map(|l| l.to_string()).collect();
        assert_eq!(joined(split_chars(&chars_of(s), '=')), expected);
    }
}

#[test]
fn white_space_matches_the_standard_library() {
    for n in 0..0x3100u32 {
        if let Some(c) = char::from_u32(n) {
            assert_eq!(char_is_space(c), c.is_whitespace(), "{:x}", n);
        }
    }
}

#[test]
fn white_space_has_no_lower_case() {
    for n in 0..0x3100u32 {
        if let Some(c) = char::from_u32(n) {
            if c.is_ascii() || char_is_space(c) {
                let lower = lower_ascii(&[c, 'A', c]);
                assert_eq!(string_of(&lower), format!("{}A{}", c, c).to_lowercase());
            }
        }
    }
}

#[test]
fn searching_text() {
    assert_eq!(find_chars(&chars_of("abcabc"), &chars_of("ca")), Some(2));
    assert_eq!(find_chars(&chars_of("abc"), &chars_of("abcd")), None);
    assert_eq!(find_chars(&chars_of("abc"), &chars_of("")), Some(0));
    assert!(has_text("/v1/chat/completions", "/chat/completions"));
    assert!(!has_text("/v1/chat", "/chat/completions"));
    assert!(text_begins("/stats-db?x", "/stats-db"));
    assert!(!text_begins("/stat", "/stats-db"));
    assert!(text_ends("api.openai.com:443", ":443"));
    assert!(!text_ends("443", ":443"));
    assert!(same_text("ä", "ä"));
    assert!(!same_text("a", "ab"));
    assert_eq!(string_of(&remove_char(&chars_of("a.b..c"), '.')), "abc");
}

#[test]
fn searching_bytes() {
    assert_eq!(find_bytes(b"ab\r\n\r\ncd", b"\r\n\r\n"), Some(2));
    assert_eq!(find_bytes(b"ab\r\n\r", b"\r\n\r\n"), None);
    assert_eq!(lowered(b"HoSt: Z9[@"), b"host: z9[@".to_vec());
    assert_eq!(copy_range(b"hello", 1, 3), b"el".to_vec());
    let mut v = b"ab".to_vec();
    append_all(&mut v, b"cd");
    assert_eq!(v, b"abcd".to_vec());
}

fn decimal_of(n: u128) -> String {
    let mut out = String::new();
    push_decimal(&mut out, n);
    out
}

#[test]
fn decimal_numbers() {
    assert_eq!(decimal_of(0), "0");
    assert_eq!(decimal_of(9), "9");
    assert_eq!(decimal_of(10), "10");
    assert_eq!(decimal_of(u128::MAX), u128::MAX.to_string());
}

#[test]
fn sizes_are_read_like_the_standard_library() {
    let cases = [
        "", "+", "-1", "0", "+7", "007", "12a", "1 2", "18446744073709551615",
        "18446744073709551616", "99999999999999999999999", "++1", "٣",
    ];
    for s in cases {
        assert_eq!(parse_size(s), s.parse::<usize>().ok(), "{:?}", s);
    }
}

#[test]
fn decimal_reads_back() {
    for n in [0usize, 1, 10, 4096, usize::MAX] {
        assert_eq!(parse_size(decimal_of(n as u128).as_str()), Some(n));
    }
}
