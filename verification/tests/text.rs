use kagari::text::{
    begins, chars_of, ends, equals, joined, push_decimal, read_number, space, split_at_char,
    split_lines, split_words, text_of, trimmed,
};

fn strings(v: Vec<Vec<char>>) -> Vec<String> {
    v.iter().map(|w| w.iter().collect()).collect()
}

fn lines(s: &str) -> Vec<String> {
    strings(split_lines(&chars_of(s)))
}

#[test]
fn lines_are_those_of_the_standard_library() {
    for s in [
        "", "\n", "a", "a\n", "a\nb", "a\r\nb\r\n", "a\r", "a\r\r\nb", "\r\n", "\n\n", "é\n\u{1F525}",
    ] {
        let expected: Vec<String> = s.lines().map(|l| l.to_string()).collect();
        assert_eq!(lines(s), expected);
    }
    assert_eq!(lines("one\r\ntwo\nthree"), vec!["one", "two", "three"]);
}

#[test]
fn words_are_those_of_the_standard_library() {
    for s in ["", "  ", "a", " a  b\tc\n", "\u{2003}x\u{a0}y\u{3000}", "cpu0 1 2"] {
        let expected: Vec<String> = s.split_whitespace().map(|w| w.to_string()).collect();
        assert_eq!(strings(split_words(&chars_of(s))), expected);
    }
}

#[test]
fn white_space_is_that_of_the_standard_library() {
    for n in 0..0x11_0000u32 {
        if let Some(c) = char::from_u32(n) {
            assert_eq!(space(c), c.is_whitespace());
        }
    }
}

#[test]
fn pieces_stand_between_separators() {
    for s in ["", ",", "a", "a,b", "a,,b,", ",,"] {
        let expected: Vec<String> = s.split(',').map(|p| p.to_string()).collect();
        assert_eq!(strings(split_at_char(&chars_of(s), ',')), expected);
    }
}

#[test]
fn trimming_takes_white_space_from_both_ends() {
    for s in ["", " ", " a b ", "\t45\u{a0}", "x"] {
        assert_eq!(trimmed(&chars_of(s)), s.trim());
    }
}

#[test]
fn a_number_is_an_optional_plus_sign_and_digits() {
    for s in [
        "0", "+0", "007", "+5", "18446744073709551615", "18446744073709551616", "+", "", "-1",
        "-0", "++1", "1_0", "1 ", "99999999999999999999999", "\u{0663}",
    ] {
        assert_eq!(read_number(&chars_of(s)), s.parse::<u64>().ok());
    }
    assert_eq!(read_number(&chars_of("18446744073709551615")), Some(u64::MAX));
    assert_eq!(read_number(&chars_of("18446744073709551616")), None);
}

#[test]
fn decimals_have_no_leading_zeros() {
    for n in [0u64, 7, 10, 100, 600, 1234567890, u64::MAX] {
        let mut s = String::from("n=");
        push_decimal(&mut s, n);
        assert_eq!(s, format!("n={}", n));
    }
}

#[test]
fn prefixes_suffixes_and_equality() {
    let key = chars_of("temp1_input");
    assert!(begins(&key, "temp") && begins(&key, "") && begins(&key, "temp1_input"));
    assert!(!begins(&key, "fan") && !begins(&key, "temp1_input2"));
    assert!(ends(&key, "_input") && ends(&key, "") && !ends(&key, "_max"));
    assert!(!ends(&chars_of("put"), "_input"));
    assert!(equals(&key, "temp1_input") && !equals(&key, "temp1") && !equals(&key, "temp1_inpux"));
}

#[test]
fn text_and_characters() {
    let chars = chars_of("篝火");
    assert_eq!(chars, vec!['篝', '火']);
    assert_eq!(text_of(&chars, 1, 2), "火");
    assert_eq!(joined("CPU core ", "3"), "CPU core 3");
}
