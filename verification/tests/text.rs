use handyxmutter::text::{
    chars_of, decimal, decimal_unsigned, is_whitespace, join, string_of, trim, trim_bounds,
};

#[test]
fn white_space_is_what_the_standard_library_says() {
    for code in 0u32..=0x11_0000 {
        if let Some(c) = char::from_u32(code) {
            assert_eq!(is_whitespace(c), c.is_whitespace());
        }
    }
}

#[test]
fn trim_is_what_the_standard_library_says() {
    let samples = [
        "",
        " ",
        "a",
        " a",
        "a ",
        "  a b  ",
        "\t\n x \r\n",
        "\u{a0}non-breaking\u{a0}",
        "\u{3000}wide\u{2003}",
        "inner  space",
        "\u{200b}zero width is no space\u{200b}",
        "héllo wörld ",
    ];
    for s in samples {
        assert_eq!(trim(s), s.trim());
    }
}

#[test]
fn trim_bounds_mark_the_trimmed_part() {
    let chars: Vec<char> = "  ab c ".chars().collect();
    assert_eq!(trim_bounds(&chars), (2, 6));
    let blank: Vec<char> = "   ".chars().collect();
    let (start, end) = trim_bounds(&blank);
    assert_eq!(start, end);
}

#[test]
fn chars_and_back() {
    let s = "añ😀z";
    let chars = chars_of(s);
    assert_eq!(chars, vec!['a', 'ñ', '😀', 'z']);
    assert_eq!(string_of(&chars, 0, 4), s);
    assert_eq!(string_of(&chars, 1, 3), "ñ😀");
    assert_eq!(string_of(&chars, 2, 2), "");
}

#[test]
fn join_puts_the_separator_between_neighbours() {
    let parts = vec!["a".to_string(), "b".to_string(), "c".to_string()];
    assert_eq!(join(&parts, ", "), "a, b, c");
    assert_eq!(join(&vec!["only".to_string()], ", "), "only");
    assert_eq!(join(&Vec::new(), ", "), "");
    assert_eq!(join(&vec![String::new(), String::new()], "-"), "-");
}

#[test]
fn decimal_numbers() {
    assert_eq!(decimal(0), "0");
    assert_eq!(decimal(7), "7");
    assert_eq!(decimal(10), "10");
    assert_eq!(decimal(-1), "-1");
    assert_eq!(decimal(1234567890), "1234567890");
    assert_eq!(decimal(i64::MAX), "9223372036854775807");
    assert_eq!(decimal(i64::MIN), "-9223372036854775808");
    assert_eq!(decimal_unsigned(0), "0");
    assert_eq!(decimal_unsigned(u128::MAX), "340282366920938463463374607431768211455");
}
