use backend_supervisor::text::{
    digit_char, find_char, is_space_char, push_decimal, push_range, string_of_range, to_chars,
    trim_range,
};

#[test]
fn characters_of_a_string() {
    assert_eq!(to_chars("a\u{e9}\u{1f600}"), vec!['a', '\u{e9}', '\u{1f600}']);
    assert!(to_chars("").is_empty());
}

#[test]
fn white_space_agrees_with_the_standard_library() {
    let mut code: u32 = 0;
    while code <= 0x10FFFF {
        if let Some(c) = char::from_u32(code) {
            assert_eq!(is_space_char(c), c.is_whitespace(), "U+{:04X}", code);
        }
        code += 1;
    }
}

#[test]
fn trimming_agrees_with_the_standard_library() {
    for text in ["", " ", "a", "  a b  ", "\t\r\n x \u{a0}", "\u{2003}\u{3000}", "x\u{200b}"] {
        let chars = to_chars(text);
        let (from, to) = trim_range(&chars, 0, chars.len());
        assert_eq!(string_of_range(&chars, from, to), text.trim());
    }
}

#[test]
fn trimming_within_bounds() {
    let chars = to_chars("ab  cd  ef");
    assert_eq!(trim_range(&chars, 2, 8), (4, 6));
    assert_eq!(trim_range(&chars, 2, 4), (4, 4));
    assert_eq!(trim_range(&chars, 3, 3), (3, 3));
}

#[test]
fn finding_a_character() {
    let chars = to_chars("a=b=c");
    assert_eq!(find_char(&chars, 0, 5, '='), 1);
    assert_eq!(find_char(&chars, 2, 5, '='), 3);
    assert_eq!(find_char(&chars, 4, 5, '='), 5);
    assert_eq!(find_char(&chars, 0, 1, '='), 1);
    assert_eq!(find_char(&chars, 0, 0, '='), 0);
}

#[test]
fn ranges_become_strings() {
    let chars = to_chars("hello world");
    assert_eq!(string_of_range(&chars, 6, 11), "world");
    assert_eq!(string_of_range(&chars, 3, 3), "");
    let mut out = String::from(">");
    push_range(&mut out, &chars, 0, 5);
    assert_eq!(out, ">hello");
}

#[test]
fn digits_and_numerals() {
    assert_eq!(digit_char(0), '0');
    assert_eq!(digit_char(9), '9');
    for n in [0u32, 1, 9, 10, 11, 123, 9999, 10000, 4294967295] {
        let mut out = String::from("n=");
        push_decimal(&mut out, n);
        assert_eq!(out, format!("n={}", n));
    }
}
